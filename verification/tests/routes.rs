use axum_folder_router::routes::{classify_file, FileKind, FolderRouterRoutes, SourceFile};
use axum_folder_router::source::MiddlewareKind;

fn src_file(rel: &[&str], content: &str) -> SourceFile {
    SourceFile::new(
        format!("/base/{}", rel.join("/")),
        rel.iter().map(|s| s.to_string()).collect(),
        Some(content.to_string()),
        None,
    )
}

const GET: &str = "pub async fn get() -> &'static str { \"ok\" }";
const MW: &str = "pub fn middleware(router: Router<S>) -> Router<S> { router }";
const FB_STATEFUL: &str = "pub fn fallback(router: Router<S>, state: S) -> Router<S> { router }";

#[test]
fn file_names_are_classified() {
    assert_eq!(classify_file(&"route.rs".to_string()), Some(FileKind::Route));
    assert_eq!(classify_file(&"middleware.rs".to_string()), Some(FileKind::Middleware));
    assert_eq!(classify_file(&"fallback.rs".to_string()), Some(FileKind::Fallback));
    assert_eq!(classify_file(&"intercept.rs".to_string()), Some(FileKind::Intercept));
    assert_eq!(classify_file(&"openapi.toml".to_string()), Some(FileKind::Config));
    assert_eq!(classify_file(&"mod.rs".to_string()), None);
}

#[test]
fn discovered_files_are_sorted_by_relative_path() {
    let files = vec![
        src_file(&["users", "route.rs"], GET),
        src_file(&["route.rs"], GET),
        src_file(&["admin", "route.rs"], GET),
        src_file(&["users", "[id]", "route.rs"], GET),
        src_file(&["README.md"], "text"),
    ];
    let mut errors = Vec::new();
    let r = FolderRouterRoutes::parse_from_path(&mut errors, &"/base".to_string(), files);
    assert!(errors.is_empty());
    let rels: Vec<Vec<String>> = r.routes().iter().map(|f| f.rel.clone()).collect();
    assert_eq!(
        rels,
        vec![
            vec!["admin".to_string(), "route.rs".to_string()],
            vec!["route.rs".to_string()],
            vec!["users".to_string(), "[id]".to_string(), "route.rs".to_string()],
            vec!["users".to_string(), "route.rs".to_string()],
        ]
    );
}

#[test]
fn empty_directory_is_reported() {
    let mut errors = Vec::new();
    let r = FolderRouterRoutes::parse_from_path(&mut errors, &"/base/api".to_string(), Vec::new());
    assert!(r.routes().is_empty());
    assert_eq!(
        errors,
        vec!["No route.rs or fallback.rs files found in the specified directory: '/base/api'. Make sure the path is correct and contains at least one route.rs (with an HTTP verb handler) or a fallback.rs (e.g. a ServeDir static server).".to_string()]
    );
}

#[test]
fn a_lone_fallback_is_enough() {
    let mut errors = Vec::new();
    let files = vec![src_file(&["fallback.rs"], FB_STATEFUL)];
    let r = FolderRouterRoutes::parse_from_path(&mut errors, &"/base".to_string(), files);
    assert!(errors.is_empty());
    assert_eq!(r.fallback().len(), 1);
    assert_eq!(r.fallback()[0].kind, MiddlewareKind::Stateful);
}

#[test]
fn middleware_without_its_function_is_reported_and_dropped() {
    let mut errors = Vec::new();
    let files = vec![
        src_file(&["route.rs"], GET),
        src_file(&["admin", "middleware.rs"], "pub fn other() {}"),
        src_file(&["shop", "middleware.rs"], MW),
    ];
    let r = FolderRouterRoutes::parse_from_path(&mut errors, &"/base".to_string(), files);
    assert_eq!(r.middleware().len(), 1);
    assert_eq!(r.middleware()[0].file.rel[0], "shop");
    assert_eq!(r.middleware()[0].kind, MiddlewareKind::Stateless);
    assert_eq!(
        errors,
        vec!["`middleware.rs` found but it does not define a `pub fn middleware`: '/base/admin/middleware.rs'. Define `pub fn middleware(router: axum::Router<S>) -> axum::Router<S>` or `pub fn middleware(router: axum::Router<S>, state: S) -> axum::Router<S>`.".to_string()]
    );
}

#[test]
fn intercept_rules_are_enforced() {
    let ok = "pub async fn intercept(headers: HeaderMap, req: Request) -> ControlFlow<Response, Request> { ControlFlow::Continue(req) }";
    let not_last = "pub async fn intercept(req: Request, headers: HeaderMap) -> ControlFlow<Response, Request> { ControlFlow::Continue(req) }";
    let missing = "pub async fn other(req: Request) {}";
    let mut errors = Vec::new();
    let files = vec![
        src_file(&["route.rs"], GET),
        src_file(&["a", "intercept.rs"], ok),
        src_file(&["b", "intercept.rs"], not_last),
        src_file(&["c", "intercept.rs"], missing),
    ];
    let r = FolderRouterRoutes::parse_from_path(&mut errors, &"/base".to_string(), files);
    assert_eq!(r.intercept().len(), 1);
    assert_eq!(r.intercept()[0].file.rel[0], "a");
    assert_eq!(r.intercept()[0].sig.params.len(), 2);
    assert!(!r.intercept()[0].sig.stateful);
    assert_eq!(errors.len(), 2);
    assert!(errors[0].starts_with("`intercept.rs` must take exactly one `axum::extract::Request` parameter, and it must be the *last* parameter (extractors come first): '/base/b/intercept.rs'"));
    assert!(errors[1].starts_with("`intercept.rs` found but it does not define a `pub async fn intercept`: '/base/c/intercept.rs'"));
}

#[test]
fn config_files_are_kept_sorted() {
    let mut errors = Vec::new();
    let files = vec![
        src_file(&["route.rs"], GET),
        src_file(&["b", "openapi.toml"], "tag = \"b\""),
        src_file(&["openapi.toml"], "include = true"),
    ];
    let r = FolderRouterRoutes::parse_from_path(&mut errors, &"/base".to_string(), files);
    assert_eq!(r.config_files().len(), 2);
    assert_eq!(r.config_files()[0].rel, vec!["b".to_string(), "openapi.toml".to_string()]);
    assert_eq!(r.config_files()[1].rel, vec!["openapi.toml".to_string()]);
}

#[test]
fn discovery_order_does_not_matter() {
    let make = || {
        vec![
            src_file(&["b", "route.rs"], GET),
            src_file(&["a", "middleware.rs"], MW),
            src_file(&["route.rs"], GET),
            src_file(&["a", "route.rs"], GET),
        ]
    };
    let mut reversed = make();
    reversed.reverse();
    let r1 = FolderRouterRoutes::parse_from_path(&mut Vec::new(), &"/base".to_string(), make());
    let r2 = FolderRouterRoutes::parse_from_path(&mut Vec::new(), &"/base".to_string(), reversed);
    let rels = |r: &FolderRouterRoutes| r.routes().iter().map(|f| f.rel.join("/")).collect::<Vec<_>>();
    assert_eq!(rels(&r1), rels(&r2));
    assert_eq!(rels(&r1), vec!["a/route.rs", "b/route.rs", "route.rs"]);
}

#[test]
fn fallback_without_its_function_is_reported() {
    let mut errors = Vec::new();
    let files = vec![
        src_file(&["route.rs"], GET),
        src_file(&["fallback.rs"], "pub fn fallback_handler() {}"),
    ];
    let r = FolderRouterRoutes::parse_from_path(&mut errors, &"/base".to_string(), files);
    assert!(r.fallback().is_empty());
    assert_eq!(
        errors,
        vec!["`fallback.rs` found but it does not define a `pub fn fallback`: '/base/fallback.rs'. Define `pub fn fallback(router: axum::Router<S>) -> axum::Router<S>` or `pub fn fallback(router: axum::Router<S>, state: S) -> axum::Router<S>`.".to_string()]
    );
}

#[test]
fn only_rust_convention_files_are_parsed() {
    let toml = SourceFile::new("/b/openapi.toml".to_string(), vec!["openapi.toml".to_string()], Some("pub fn get() {}".to_string()), None);
    assert!(toml.items.is_empty());
    let other = SourceFile::new("/b/lib.rs".to_string(), vec!["lib.rs".to_string()], Some("pub fn get() {}".to_string()), None);
    assert!(other.items.is_empty());
    let route = SourceFile::new("/b/route.rs".to_string(), vec!["route.rs".to_string()], Some("pub async fn get() {}".to_string()), None);
    assert_eq!(route.items.len(), 1);
    let unread = SourceFile::new("/b/route.rs".to_string(), vec!["route.rs".to_string()], None, Some("gone".to_string()));
    assert!(unread.items.is_empty());
}
