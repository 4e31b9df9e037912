use axum_folder_router::args::{FolderRouterArgs, FolderRouterItem};
use axum_folder_router::openapi::{
    config_of_table, load_configs, openapi_impl, read_config, resolve_include, resolve_tag,
    DirConfig, OpenApiConfig, OpenApiOutput, OperationPlan, PathEntry,
};
use axum_folder_router::routes::{FolderRouterRoutes, SourceFile};
use axum_folder_router::source::HttpMethod;

fn cfg_file(rel: &[&str], content: &str) -> SourceFile {
    SourceFile::new(
        format!("tests/fixtures/openapi_config/{}", rel.join("/")),
        rel.iter().map(|s| s.to_string()).collect(),
        Some(content.to_string()),
        None,
    )
}

const GET: &str = "pub async fn get() -> &'static str { \"ok\" }";

fn config_fixture() -> Vec<SourceFile> {
    vec![
        cfg_file(&["openapi.toml"], "include = false\n"),
        cfg_file(&["health", "route.rs"], GET),
        cfg_file(&["auth", "route.rs"], GET),
        cfg_file(&["api", "openapi.toml"], "include = true\nauto_tag = true\n"),
        cfg_file(&["api", "route.rs"], GET),
        cfg_file(&["api", "users", "route.rs"], GET),
        cfg_file(&["api", "hello", "route.rs"], GET),
        cfg_file(&["api", "hello", "openapi.toml"], "tag = \"Greetings\"\n"),
        cfg_file(&["api", "internal", "route.rs"], GET),
        cfg_file(&["api", "internal", "openapi.toml"], "include = false\n"),
        cfg_file(&["api", "internal", "public", "route.rs"], GET),
        cfg_file(&["api", "internal", "public", "openapi.toml"], "include = true\n"),
    ]
}

fn config_paths() -> Vec<PathEntry> {
    let mut errors = Vec::new();
    let routes = FolderRouterRoutes::parse_from_path(
        &mut errors,
        &"tests/fixtures/openapi_config".to_string(),
        config_fixture(),
    );
    assert!(errors.is_empty());
    let args = FolderRouterArgs::from_flags(
        "tests/fixtures/openapi_config".to_string(),
        &vec!["openapi".to_string()],
    )
    .unwrap();
    let item = FolderRouterItem { ident: "ConfigDocs".to_string() };
    match openapi_impl(&args, &item, &routes) {
        OpenApiOutput::Document { paths, .. } => paths,
        other => panic!("expected a document, got {other:?}"),
    }
}

fn has(paths: &[PathEntry], url: &str) -> bool {
    paths.iter().any(|p| p.url == url)
}

fn get_op<'a>(paths: &'a [PathEntry], url: &str) -> &'a OperationPlan {
    let entry = paths.iter().find(|p| p.url == url).expect("path present");
    entry.operations.iter().find(|o| o.method == HttpMethod::Get).expect("get present")
}

#[test]
fn api_subtree_is_included() {
    let paths = config_paths();
    assert!(has(&paths, "/api"), "/api must be present");
    assert!(has(&paths, "/api/users"), "/api/users must be present");
    assert!(has(&paths, "/api/hello"), "/api/hello must be present");
}

#[test]
fn root_excluded_paths_are_absent() {
    let paths = config_paths();
    assert!(!has(&paths, "/health"), "/health must be absent (root include=false)");
    assert!(!has(&paths, "/auth"), "/auth must be absent (root include=false)");
}

#[test]
fn internal_subtree_is_hidden_but_public_re_enabled() {
    let paths = config_paths();
    assert!(!has(&paths, "/api/internal"), "/api/internal must be absent (include=false)");
    assert!(
        has(&paths, "/api/internal/public"),
        "/api/internal/public must be present (include=true overrides parent)"
    );
}

#[test]
fn auto_tag_derives_child_segment() {
    let paths = config_paths();
    assert_eq!(
        get_op(&paths, "/api/users").tag.as_deref(),
        Some("users"),
        "/api/users GET must be tagged 'users' via auto_tag at /api"
    );
}

#[test]
fn explicit_tag_overrides_auto_tag() {
    let paths = config_paths();
    assert_eq!(
        get_op(&paths, "/api/hello").tag.as_deref(),
        Some("Greetings"),
        "/api/hello GET must be tagged 'Greetings' via explicit tag override"
    );
}

#[test]
fn api_root_has_no_tag() {
    let paths = config_paths();
    let tag = &get_op(&paths, "/api").tag;
    assert!(tag.is_none(), "/api GET must have no tags; got: {tag:?}");
}

#[test]
fn re_enabled_public_route_gets_auto_tag() {
    let paths = config_paths();
    assert_eq!(
        get_op(&paths, "/api/internal/public").tag.as_deref(),
        Some("internal"),
        "/api/internal/public GET must be tagged 'internal' via auto_tag at /api"
    );
}

#[test]
fn nothing_is_listed_without_a_config() {
    let mut errors = Vec::new();
    let routes = FolderRouterRoutes::parse_from_path(
        &mut errors,
        &"d".to_string(),
        vec![cfg_file(&["route.rs"], GET)],
    );
    let args = FolderRouterArgs::from_flags("d".to_string(), &vec!["openapi".to_string()]).unwrap();
    let item = FolderRouterItem { ident: "D".to_string() };
    match openapi_impl(&args, &item, &routes) {
        OpenApiOutput::Document { paths, .. } => assert!(paths.is_empty()),
        other => panic!("expected a document, got {other:?}"),
    }
}

#[test]
fn invalid_and_unreadable_configs_are_reported() {
    let bad = cfg_file(&["openapi.toml"], "include = = true");
    let unread = SourceFile::new(
        "x/openapi.toml".to_string(),
        vec!["x".to_string(), "openapi.toml".to_string()],
        None,
        Some("permission denied".to_string()),
    );
    let e1 = read_config(&bad).unwrap_err();
    assert!(e1.starts_with("invalid TOML in tests/fixtures/openapi_config/openapi.toml: "));
    assert!(e1.len() > "invalid TOML in tests/fixtures/openapi_config/openapi.toml: ".len());
    let e2 = read_config(&unread).unwrap_err();
    assert_eq!(e2, "failed to read x/openapi.toml: permission denied");
    let mut errors = vec!["earlier".to_string()];
    let files = vec![cfg_file(&["a", "openapi.toml"], "tag = \"a\""), bad, unread];
    assert!(load_configs(&mut errors, &files).is_none());
    assert_eq!(errors.len(), 3);
    assert_eq!(errors[0], "earlier");
    assert_eq!(errors[2], "failed to read x/openapi.toml: permission denied");

    let mut parse_errors = Vec::new();
    let routes = FolderRouterRoutes::parse_from_path(
        &mut parse_errors,
        &"d".to_string(),
        vec![cfg_file(&["route.rs"], GET), cfg_file(&["openapi.toml"], "[[[")],
    );
    let args = FolderRouterArgs::from_flags("d".to_string(), &vec!["openapi".to_string()]).unwrap();
    let item = FolderRouterItem { ident: "D".to_string() };
    match openapi_impl(&args, &item, &routes) {
        OpenApiOutput::Failed { errors } => {
            assert_eq!(errors.len(), 1);
            assert!(errors[0].starts_with("invalid TOML in tests/fixtures/openapi_config/openapi.toml: "));
        },
        other => panic!("expected errors, got {other:?}"),
    }
}

#[test]
fn config_keys_of_other_types_are_ignored() {
    let t: toml::Table = "include = \"yes\"\ntag = 3\nauto_tag = true\nother = 1".parse().unwrap();
    let c = config_of_table(&t);
    assert_eq!(c.listed, None);
    assert_eq!(c.tag, None);
    assert_eq!(c.auto_tag, Some(true));
    let ok = read_config(&cfg_file(&["openapi.toml"], "include = true\ntag = \"T\"")).unwrap();
    assert_eq!(ok.listed, Some(true));
    assert_eq!(ok.tag.as_deref(), Some("T"));
    assert_eq!(ok.auto_tag, None);
}

fn dir_config(dir: &[&str], listed: Option<bool>, tag: Option<&str>, auto_tag: Option<bool>) -> DirConfig {
    DirConfig {
        dir: dir.iter().map(|s| s.to_string()).collect(),
        config: OpenApiConfig { listed, tag: tag.map(|t| t.to_string()), auto_tag },
    }
}

fn dirs(v: &[&str]) -> Vec<String> {
    v.iter().map(|s| s.to_string()).collect()
}

#[test]
fn include_is_inherited_from_the_nearest_ancestor() {
    let cs = vec![
        dir_config(&[], Some(true), None, None),
        dir_config(&["a"], Some(false), None, None),
        dir_config(&["a", "b", "c"], Some(true), None, None),
        dir_config(&["a", "b"], None, Some("t"), None),
    ];
    assert!(resolve_include(&dirs(&[]), &cs));
    assert!(resolve_include(&dirs(&["x", "y"]), &cs));
    assert!(!resolve_include(&dirs(&["a"]), &cs));
    assert!(!resolve_include(&dirs(&["a", "b"]), &cs));
    assert!(resolve_include(&dirs(&["a", "b", "c", "d"]), &cs));
    assert!(!resolve_include(&dirs(&["z"]), &Vec::new()));
}

#[test]
fn tag_resolution_is_most_specific_first() {
    let cs = vec![
        dir_config(&["api"], None, Some("Api"), Some(true)),
        dir_config(&["api", "v2"], None, Some("V2"), None),
        dir_config(&["other"], None, Some("Other"), None),
    ];
    assert_eq!(resolve_tag(&dirs(&["api"]), &cs).as_deref(), Some("Api"));
    assert_eq!(resolve_tag(&dirs(&["api", "users", "[id]"]), &cs).as_deref(), Some("users"));
    assert_eq!(resolve_tag(&dirs(&["api", "v2", "x"]), &cs).as_deref(), Some("V2"));
    assert_eq!(resolve_tag(&dirs(&["other", "deep"]), &cs).as_deref(), Some("Other"));
    assert_eq!(resolve_tag(&dirs(&["none"]), &cs), None);
}

#[test]
fn tag_keys_resolve_independently() {
    let cs = vec![
        dir_config(&[], None, None, Some(true)),
        dir_config(&["x"], None, None, Some(false)),
        dir_config(&["t"], None, Some("T"), None),
        dir_config(&["t", "u"], None, None, Some(true)),
    ];
    assert_eq!(resolve_tag(&dirs(&["x", "y"]), &cs), None);
    assert_eq!(resolve_tag(&dirs(&["x"]), &cs), None);
    assert_eq!(resolve_tag(&dirs(&["z", "w"]), &cs).as_deref(), Some("z"));
    assert_eq!(resolve_tag(&dirs(&["t"]), &cs).as_deref(), Some("T"));
    assert_eq!(resolve_tag(&dirs(&["t", "u"]), &cs).as_deref(), Some("T"));
    assert_eq!(resolve_tag(&dirs(&["t", "u", "v"]), &cs).as_deref(), Some("v"));
}
