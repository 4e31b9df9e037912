use axum_folder_router::args::{FolderRouterArgs, FolderRouterItem};
use axum_folder_router::paths::{
    dir_components, dir_url_segment, has_catchall, normalize_module_name, path_param_names,
    path_to_module_path, route_url, url_from, url_segments,
};

fn strings(v: &[&str]) -> Vec<String> {
    v.iter().map(|s| s.to_string()).collect()
}

#[test]
fn module_names_of_directories() {
    assert_eq!(normalize_module_name(&"users".to_string()), "users");
    assert_eq!(normalize_module_name(&"[id]".to_string()), "__id");
    assert_eq!(normalize_module_name(&"[...rest]".to_string()), "___rest");
    assert_eq!(normalize_module_name(&"api-v1.2".to_string()), "api_v1_2");
}

#[test]
fn url_segments_of_directories() {
    assert_eq!(dir_url_segment(&"users".to_string()), "users");
    assert_eq!(dir_url_segment(&"[id]".to_string()), "{id}");
    assert_eq!(dir_url_segment(&"[...rest]".to_string()), "{*rest}");
    assert_eq!(
        url_segments(&strings(&["files", "[...path]"])),
        strings(&["files", "{*path}"])
    );
}

#[test]
fn urls_from_segments() {
    assert_eq!(url_from(&Vec::new()), "/");
    assert_eq!(url_from(&strings(&["users"])), "/users");
    assert_eq!(url_from(&strings(&["users", "{id}"])), "/users/{id}");
}

#[test]
fn catch_all_segments_are_detected() {
    assert!(has_catchall(&strings(&["files", "{*path}"])));
    assert!(!has_catchall(&strings(&["users", "{id}"])));
    assert!(!has_catchall(&Vec::new()));
}

#[test]
fn module_paths_of_route_files() {
    assert_eq!(path_to_module_path(&strings(&["route.rs"])), strings(&["route"]));
    assert_eq!(
        path_to_module_path(&strings(&["users", "[id]", "route.rs"])),
        strings(&["users", "__id", "route"])
    );
    assert_eq!(
        path_to_module_path(&strings(&["files", "[...path]", "route.rs"])),
        strings(&["files", "___path", "route"])
    );
}

#[test]
fn absolute_urls_of_route_files() {
    assert_eq!(route_url(&strings(&["route.rs"])), "/");
    assert_eq!(route_url(&strings(&["users", "route.rs"])), "/users");
    assert_eq!(route_url(&strings(&["users", "[id]", "route.rs"])), "/users/{id}");
    assert_eq!(
        route_url(&strings(&["files", "[...path]", "route.rs"])),
        "/files/{*path}"
    );
    assert_eq!(dir_components(&strings(&["api", "one", "route.rs"])), strings(&["api", "one"]));
    assert_eq!(dir_components(&strings(&["route.rs"])), Vec::<String>::new());
}

#[test]
fn path_parameters_of_urls() {
    assert_eq!(path_param_names(&"/users/{id}".to_string()), strings(&["id"]));
    assert_eq!(
        path_param_names(&"/a/{x}/b/{*rest}".to_string()),
        strings(&["x", "rest"])
    );
    assert_eq!(path_param_names(&"/".to_string()), Vec::<String>::new());
}

#[test]
fn trailing_flags_are_parsed() {
    let a = FolderRouterArgs::from_flags("src/api".to_string(), &Vec::new()).unwrap();
    assert_eq!(a.path, "src/api");
    assert!(!a.openapi);
    let b = FolderRouterArgs::from_flags("src/api".to_string(), &strings(&["openapi"])).unwrap();
    assert!(b.openapi);
    let e = FolderRouterArgs::from_flags("src/api".to_string(), &strings(&["openapi", "swagger"]))
        .unwrap_err();
    assert_eq!(e, "unknown `folder_router` flag `swagger`; expected `openapi`");
}

#[test]
fn applying_an_unknown_flag_changes_nothing() {
    let mut a = FolderRouterArgs::new("api".to_string());
    assert!(a.apply_flag(&"bogus".to_string()).is_err());
    assert!(!a.openapi);
    assert!(a.apply_flag(&"openapi".to_string()).is_ok());
    assert!(a.openapi);
}

#[test]
fn router_struct_namespace() {
    let item = FolderRouterItem { ident: "MyRouter".to_string() };
    assert_eq!(item.module_namespace(), "__folder_router__myrouter");
    assert_eq!(item.struct_name(), "MyRouter");
    let odd = FolderRouterItem { ident: "Api_V2".to_string() };
    assert_eq!(odd.module_namespace(), "__folder_router__api_v2");
    let marked = FolderRouterItem { ident: "My$Router·Ä".to_string() };
    assert_eq!(marked.module_namespace(), "__folder_router__my_router_Ä");
}
