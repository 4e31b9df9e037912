use axum_folder_router::generate::{module_tree, router_impl, RouterImpl};
use axum_folder_router::plan::{InterceptParam, ModFile, ModItem, RouterBlock, RouterStmt};
use axum_folder_router::routes::{FolderRouterRoutes, SourceFile};
use axum_folder_router::source::{HttpMethod, MiddlewareKind};

fn node_file(rel: &[&str], content: &str) -> SourceFile {
    SourceFile::new(
        format!("/app/{}", rel.join("/")),
        rel.iter().map(|s| s.to_string()).collect(),
        Some(content.to_string()),
        None,
    )
}

const GET: &str = "pub async fn get() -> &'static str { \"x\" }";
const GET_POST: &str = "pub async fn post() {} pub async fn get() {}";
const FB: &str = "pub fn fallback(router: Router<S>) -> Router<S> { router }";
const MW: &str = "pub fn middleware(router: Router<S>) -> Router<S> { router }";
const MW_STATE: &str = "pub fn middleware(router: Router<S>, state: S) -> Router<S> { router }";

fn parse(files: Vec<SourceFile>) -> FolderRouterRoutes {
    let mut errors = Vec::new();
    let r = FolderRouterRoutes::parse_from_path(&mut errors, &"/app".to_string(), files);
    assert!(errors.is_empty(), "{errors:?}");
    r
}

fn plan(files: Vec<SourceFile>) -> (RouterImpl, Vec<String>) {
    let routes = parse(files);
    let mut errors = Vec::new();
    let r = router_impl(&mut errors, &routes);
    (r, errors)
}

fn nest_fixture() -> Vec<SourceFile> {
    vec![
        node_file(&["route.rs"], GET),
        node_file(&["fallback.rs"], FB),
        node_file(&["shop", "route.rs"], GET),
        node_file(&["shop", "fallback.rs"], FB),
        node_file(&["shop", "items", "route.rs"], GET),
        node_file(&["admin", "route.rs"], GET),
        node_file(&["admin", "middleware.rs"], MW),
        node_file(&["admin", "secret", "route.rs"], GET),
        node_file(&["admin", "secret", "fallback.rs"], FB),
    ]
}

fn mount(prefix: &str, path: &str) -> String {
    if path == "/" {
        prefix.to_string()
    } else {
        format!("{prefix}{path}")
    }
}

// Every route the plan registers, with its absolute URL and module path.
fn served(block: &RouterBlock, prefix: &str, out: &mut Vec<(String, String)>) {
    for st in &block.stmts {
        match st {
            RouterStmt::Route { path, mod_path, .. } => {
                let url = if prefix.is_empty() { path.clone() } else { mount(prefix, path) };
                out.push((url, mod_path.join("::")));
            },
            RouterStmt::Nest { prefix: p, router } => {
                let inner = if prefix.is_empty() { p.clone() } else { mount(prefix, p) };
                served(router, &inner, out);
            },
            _ => {},
        }
    }
}

// Every router of the plan, with its absolute URL and fallback module path.
fn fallbacks(block: &RouterBlock, url: &str, out: &mut Vec<(String, Option<String>)>) {
    let mut fb = None;
    for st in &block.stmts {
        if let RouterStmt::Fallback { fn_path, .. } = st {
            fb = Some(fn_path.join("::"));
        }
    }
    out.push((url.to_string(), fb));
    for st in &block.stmts {
        if let RouterStmt::Nest { prefix, router } = st {
            let inner = if url == "/" { prefix.clone() } else { mount(url, prefix) };
            fallbacks(router, &inner, out);
        }
    }
}

#[test]
fn matched_routes_resolve_at_their_nested_paths() {
    let (r, errors) = plan(nest_fixture());
    assert!(errors.is_empty());
    let mut out = Vec::new();
    served(&r.router, "", &mut out);
    let expected = vec![
        ("/".to_string(), "route".to_string()),
        ("/admin".to_string(), "admin::route".to_string()),
        ("/admin/secret".to_string(), "admin::secret::route".to_string()),
        ("/shop".to_string(), "shop::route".to_string()),
        ("/shop/items".to_string(), "shop::items::route".to_string()),
    ];
    assert_eq!(out, expected);
}

#[test]
fn routers_fall_back_to_the_most_specific_fallback() {
    let (r, _) = plan(nest_fixture());
    let mut out = Vec::new();
    fallbacks(&r.router, "/", &mut out);
    assert_eq!(
        out,
        vec![
            ("/".to_string(), Some("fallback".to_string())),
            ("/admin".to_string(), Some("fallback".to_string())),
            ("/admin/secret".to_string(), Some("admin::secret::fallback".to_string())),
            ("/shop".to_string(), Some("shop::fallback".to_string())),
        ]
    );
}

#[test]
fn nested_boundaries_need_the_state_constructor() {
    let (r, _) = plan(nest_fixture());
    assert!(!r.into_router);
    let (flat, _) = plan(vec![
        node_file(&["route.rs"], GET),
        node_file(&["middleware.rs"], MW),
        node_file(&["users", "route.rs"], GET),
    ]);
    assert!(flat.into_router);
    let (stateful, _) = plan(vec![
        node_file(&["route.rs"], GET),
        node_file(&["middleware.rs"], MW_STATE),
    ]);
    assert!(!stateful.into_router);
}

#[test]
fn boundary_block_applies_fallback_then_middleware() {
    let (r, _) = plan(nest_fixture());
    let admin = r
        .router
        .stmts
        .iter()
        .find_map(|st| match st {
            RouterStmt::Nest { prefix, router } if prefix == "/admin" => Some(router),
            _ => None,
        })
        .unwrap();
    let n = admin.stmts.len();
    assert!(matches!(&admin.stmts[n - 2], RouterStmt::Fallback { fn_path, kind: MiddlewareKind::Stateless } if fn_path == &vec!["fallback".to_string()]));
    assert!(matches!(&admin.stmts[n - 1], RouterStmt::Middleware { fn_path, .. } if fn_path == &vec!["admin".to_string(), "middleware".to_string()]));
}

#[test]
fn verbs_of_a_route_are_registered_together() {
    let (r, _) = plan(vec![node_file(&["users", "route.rs"], GET_POST)]);
    match &r.router.stmts[0] {
        RouterStmt::Route { path, methods, .. } => {
            assert_eq!(path, "/users");
            assert_eq!(methods, &vec![HttpMethod::Get, HttpMethod::Post]);
        },
        _ => panic!("expected a route"),
    }
}

#[test]
fn catch_all_boundary_is_reported() {
    let (r, errors) = plan(vec![
        node_file(&["route.rs"], GET),
        node_file(&["files", "[...path]", "route.rs"], GET),
        node_file(&["files", "[...path]", "middleware.rs"], MW),
    ]);
    assert_eq!(
        errors,
        vec!["a `middleware.rs`/`fallback.rs` subtree cannot be nested at a catch-all path ('/{*path}'): axum forbids wildcards in a `nest` prefix. Move the middleware/fallback out of the catch-all directory.".to_string()]
    );
    // `files` leads to a boundary, so it is its own router at `/files`; the
    // catch-all boundary inside it is not mounted.
    let files = r
        .router
        .stmts
        .iter()
        .find_map(|st| match st {
            RouterStmt::Nest { prefix, router } if prefix == "/files" => Some(router),
            _ => None,
        })
        .unwrap();
    assert!(files.stmts.iter().all(|st| !matches!(st, RouterStmt::Nest { .. })));
}

#[test]
fn tree_without_handlers_is_reported() {
    let (_, errors) = plan(vec![node_file(&["fallback.rs"], FB)]);
    assert_eq!(
        errors,
        vec!["No routes defined in your route.rs's !\nEnsure that at least one `pub async fn` named after an HTTP verb is defined. (e.g. get, post, put, delete)".to_string()]
    );
}

#[test]
fn intercept_layer_requalifies_its_parameters() {
    let ic = "pub async fn intercept(State(s): State<AppState>, headers: HeaderMap, req: Request) -> ControlFlow<Response, Request> { ControlFlow::Continue(req) }";
    let (r, errors) = plan(vec![
        node_file(&["route.rs"], GET),
        node_file(&["users", "route.rs"], GET),
        node_file(&["users", "intercept.rs"], ic),
    ]);
    assert!(errors.is_empty());
    let users = match &r.router.stmts[1] {
        RouterStmt::Nest { prefix, router } => {
            assert_eq!(prefix, "/users");
            router
        },
        _ => panic!("expected a nested router"),
    };
    match users.stmts.last().unwrap() {
        RouterStmt::Intercept { fn_path, params, stateful } => {
            assert_eq!(fn_path, &vec!["users".to_string(), "intercept".to_string()]);
            assert!(*stateful);
            assert!(matches!(&params[0], InterceptParam::State { inner } if inner.text() == "AppState"));
            assert!(matches!(&params[1], InterceptParam::Verbatim { ty } if ty.text() == "HeaderMap"));
            assert!(matches!(&params[2], InterceptParam::Request));
        },
        _ => panic!("expected the intercept layer"),
    }
    assert!(!r.into_router);
}

#[test]
fn module_tree_mirrors_the_directories() {
    let routes = parse(nest_fixture());
    let items = module_tree(&routes);
    assert_eq!(items.len(), 4);
    assert!(matches!(items[0], ModItem::File(ModFile::Route)));
    assert!(matches!(items[1], ModItem::File(ModFile::Fallback)));
    match &items[2] {
        ModItem::Dir { path, name, items } => {
            assert_eq!(path, "admin");
            assert_eq!(name, "admin");
            assert!(matches!(items[0], ModItem::File(ModFile::Route)));
            assert!(matches!(items[1], ModItem::File(ModFile::Middleware)));
            assert!(matches!(&items[2], ModItem::Dir { path, .. } if path == "secret"));
        },
        _ => panic!("expected the admin module"),
    }
    assert!(matches!(&items[3], ModItem::Dir { name, .. } if name == "shop"));
}

#[test]
fn module_tree_names_bracketed_directories() {
    let routes = parse(vec![node_file(&["users", "[id]", "route.rs"], GET)]);
    let items = module_tree(&routes);
    match &items[0] {
        ModItem::Dir { items, .. } => match &items[0] {
            ModItem::Dir { path, name, .. } => {
                assert_eq!(path, "[id]");
                assert_eq!(name, "__id");
            },
            _ => panic!("expected the [id] module"),
        },
        _ => panic!("expected the users module"),
    }
}

// Every router of the plan with its absolute URL, its middleware module and
// the absolute URLs of the routes it serves (nested routers' included).
fn scopes(block: &RouterBlock, url: &str, out: &mut Vec<(String, Option<String>, Vec<String>)>) {
    let mut mw = None;
    for st in &block.stmts {
        if let RouterStmt::Middleware { fn_path, .. } = st {
            mw = Some(fn_path.join("::"));
        }
    }
    let mut routes = Vec::new();
    let prefix = if url == "/" { "" } else { url };
    served(block, prefix, &mut routes);
    out.push((url.to_string(), mw, routes.into_iter().map(|r| r.0).collect()));
    for st in &block.stmts {
        if let RouterStmt::Nest { prefix, router } = st {
            let inner = if url == "/" { prefix.clone() } else { mount(url, prefix) };
            scopes(router, &inner, out);
        }
    }
}

#[test]
fn middleware_wraps_exactly_its_subtree() {
    let (r, _) = plan(nest_fixture());
    let mut out = Vec::new();
    scopes(&r.router, "/", &mut out);
    let admin = out.iter().find(|s| s.0 == "/admin").unwrap();
    assert_eq!(admin.1.as_deref(), Some("admin::middleware"));
    assert_eq!(admin.2, vec!["/admin".to_string(), "/admin/secret".to_string()]);
    let shop = out.iter().find(|s| s.0 == "/shop").unwrap();
    assert_eq!(shop.1, None);
    assert_eq!(shop.2, vec!["/shop".to_string(), "/shop/items".to_string()]);
    let root = out.iter().find(|s| s.0 == "/").unwrap();
    assert_eq!(root.2.len(), 5);
}
