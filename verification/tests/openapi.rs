use axum_folder_router::args::{FolderRouterArgs, FolderRouterItem};
use axum_folder_router::openapi::{
    openapi_impl, operation_id, pascal_case, query_type, request_body, response_type,
    schema_for, split_doc, vec_inner, BodyKind, OpenApiOutput, OperationPlan, PathEntry,
    SchemaRef,
};
use axum_folder_router::routes::{FolderRouterRoutes, SourceFile};
use axum_folder_router::source::{operations_for_route, parse_items, HttpMethod};
use axum_folder_router::syntax::{RustItem, RustType};

/// The number of inline arrays of a schema and the type they hold.
fn flat(s: &SchemaRef) -> (usize, String) {
    match s {
        SchemaRef::Array { items } => {
            let (n, t) = flat(items);
            (n + 1, t)
        },
        SchemaRef::Named { ty } => (0, ty.text().clone()),
    }
}


fn items(s: &str) -> Vec<RustItem> {
    parse_items(&Some(s.to_string()))
}

/// The type of the one parameter of a handler written with it.
fn ty(s: &str) -> RustType {
    let src = format!("pub async fn get(x: {s}) {{}}");
    operations_for_route(&items(&src)).remove(0).params.remove(0)
}

fn text_of(t: Option<RustType>) -> Option<String> {
    t.map(|t| t.text().clone())
}

fn doc_file(rel: &[&str], content: &str) -> SourceFile {
    SourceFile::new(
        format!("tests/fixtures/openapi/{}", rel.join("/")),
        rel.iter().map(|s| s.to_string()).collect(),
        Some(content.to_string()),
        None,
    )
}

const ROOT_ROUTE: &str = "use axum::response::IntoResponse;\n\n/// List the API root.\n///\n/// Returns a short greeting. This second paragraph becomes the operation\n/// description.\npub async fn get() -> impl IntoResponse {\n    \"hello\"\n}\n";

const USERS_ROUTE: &str = "use axum::Json;\n\nuse crate::{CreateUser, User};\n\n/// List users.\npub async fn get() -> Json<Vec<User>> {\n    Json(vec![])\n}\n\n/// Create a user.\npub async fn post(Json(body): Json<CreateUser>) -> Json<User> {\n    Json(User { id: 1, name: body.name })\n}\n";

const USER_ROUTE: &str = "use axum::{extract::Path, Json};\n\nuse crate::User;\n\n/// Get one user.\npub async fn get(Path(id): Path<u64>) -> Json<User> {\n    Json(User { id, name: String::new() })\n}\n";

fn openapi_paths() -> Vec<PathEntry> {
    let files = vec![
        doc_file(&["openapi.toml"], "include = true\n"),
        doc_file(&["route.rs"], ROOT_ROUTE),
        doc_file(&["users", "route.rs"], USERS_ROUTE),
        doc_file(&["users", "[id]", "route.rs"], USER_ROUTE),
    ];
    let mut errors = Vec::new();
    let routes = FolderRouterRoutes::parse_from_path(
        &mut errors,
        &"tests/fixtures/openapi".to_string(),
        files,
    );
    assert!(errors.is_empty());
    let args = FolderRouterArgs::from_flags(
        "tests/fixtures/openapi".to_string(),
        &vec!["openapi".to_string()],
    )
    .unwrap();
    let item = FolderRouterItem { ident: "ApiDocs".to_string() };
    match openapi_impl(&args, &item, &routes) {
        OpenApiOutput::Document { struct_name, paths } => {
            assert_eq!(struct_name, "ApiDocs");
            paths
        },
        other => panic!("expected a document, got {other:?}"),
    }
}

fn op<'a>(paths: &'a [PathEntry], url: &str, m: HttpMethod) -> &'a OperationPlan {
    let entry = paths.iter().find(|p| p.url == url).expect("path present");
    entry.operations.iter().find(|o| o.method == m).expect("operation present")
}

#[test]
fn registers_paths_and_methods() {
    let paths = openapi_paths();
    let urls: Vec<&str> = paths.iter().map(|p| p.url.as_str()).collect();
    assert!(urls.contains(&"/"), "root path present");
    assert!(urls.contains(&"/users"), "/users present");
    assert!(urls.contains(&"/users/{id}"), "path param converted to {{id}}: {urls:?}");
    op(&paths, "/", HttpMethod::Get);
    op(&paths, "/users", HttpMethod::Get);
    op(&paths, "/users", HttpMethod::Post);
    op(&paths, "/users/{id}", HttpMethod::Get);
}

#[test]
fn doc_comments_become_summary_and_description() {
    let paths = openapi_paths();
    let root = op(&paths, "/", HttpMethod::Get);
    assert_eq!(root.summary.as_deref(), Some("List the API root."));
    assert!(root.description.as_deref().unwrap().contains("Returns a short greeting"));
    assert_eq!(op(&paths, "/users", HttpMethod::Post).summary.as_deref(), Some("Create a user."));
}

#[test]
fn request_body_and_response_schemas_are_referenced() {
    let paths = openapi_paths();
    let create = op(&paths, "/users", HttpMethod::Post);
    let body = create.body.as_ref().unwrap();
    assert_eq!(body.kind.content_type(), "application/json");
    assert_eq!(flat(&body.schema), (0, "CreateUser".to_string()));
    let resp = create.response.as_ref().unwrap();
    assert_eq!(flat(resp), (0, "User".to_string()));
    let list = op(&paths, "/users", HttpMethod::Get).response.as_ref().unwrap();
    assert_eq!(flat(list), (1, "User".to_string()));
    assert_ne!(flat(list).1, "Vec", "Vec<T> must not register a component named 'Vec'");
}

#[test]
fn path_parameter_is_declared() {
    let paths = openapi_paths();
    let get = op(&paths, "/users/{id}", HttpMethod::Get);
    assert_eq!(get.path_params, vec!["id".to_string()]);
    assert!(op(&paths, "/users", HttpMethod::Get).path_params.is_empty());
}

#[test]
fn operation_ids_follow_verb_and_url() {
    let paths = openapi_paths();
    assert_eq!(op(&paths, "/", HttpMethod::Get).operation_id, "get");
    assert_eq!(op(&paths, "/users", HttpMethod::Post).operation_id, "postUsers");
    assert_eq!(op(&paths, "/users/{id}", HttpMethod::Get).operation_id, "getUsersById");
}

#[test]
fn operation_ids_of_examples() {
    assert_eq!(operation_id("get", &"/api/me".to_string()), "getMe");
    assert_eq!(
        operation_id("delete", &"/api/admin/api_keys/{id}".to_string()),
        "deleteAdminApiKeysById"
    );
    assert_eq!(operation_id("get", &"/api".to_string()), "getApi");
    assert_eq!(
        operation_id("put", &"/orgs/{org_id}/members/{user-id}".to_string()),
        "putOrgsMembersByOrgIdAndUserId"
    );
    assert_ne!(operation_id("get", &"/users".to_string()), operation_id("post", &"/users".to_string()));
}

#[test]
fn pascal_case_of_segments() {
    assert_eq!(pascal_case(&"api_keys".to_string()), "ApiKeys");
    assert_eq!(pascal_case(&"user-id".to_string()), "UserId");
    assert_eq!(pascal_case(&"__a--b_".to_string()), "AB");
    assert_eq!(pascal_case(&"".to_string()), "");
    assert_eq!(pascal_case(&"ß".to_string()), "SS");
}

#[test]
fn doc_split_into_summary_and_description() {
    assert_eq!(split_doc(&"  One line  ".to_string()), ("One line".to_string(), None));
    assert_eq!(
        split_doc(&"Title\n\n  Body text.\n".to_string()),
        ("Title".to_string(), Some("Body text.".to_string()))
    );
    assert_eq!(split_doc(&"Title\n   \n".to_string()), ("Title".to_string(), None));
}

#[test]
fn schemas_of_nested_vectors() {
    assert_eq!(flat(&schema_for(&ty("Vec<Vec<User>>"))), (2, "User".to_string()));
    assert_eq!(flat(&schema_for(&ty("std::vec::Vec<Item>"))), (1, "Item".to_string()));
    assert!(vec_inner(&ty("Option<User>")).is_none());
}

#[test]
fn bodies_queries_and_responses_are_recognised() {
    let params = vec![ty("Path<u64>"), ty("Query<Filter>"), ty("Form<Login>"), ty("Json<Other>")];
    let body = request_body(&params).unwrap();
    assert_eq!(body.kind, BodyKind::Form);
    assert_eq!(body.kind.content_type(), "application/x-www-form-urlencoded");
    assert_eq!(body.ty.text(), "Login");
    assert_eq!(text_of(query_type(&params)), Some("Filter".to_string()));
    assert!(request_body(&vec![ty("Json")]).is_none());
    assert_eq!(text_of(response_type(&ty("Result<Json<User>, AppError>"))), Some("User".to_string()));
    assert_eq!(text_of(response_type(&ty("(StatusCode, Json<User>)"))), Some("User".to_string()));
    assert_eq!(text_of(response_type(&ty("(StatusCode, Result<Json<Vec<Item>>, E>)"))), Some("Vec < Item >".to_string()));
    assert!(response_type(&ty("impl IntoResponse")).is_none());
    assert!(response_type(&ty("String")).is_none());
}

#[test]
fn any_and_connect_are_omitted() {
    let files = vec![
        doc_file(&["openapi.toml"], "include = true"),
        doc_file(&["route.rs"], "pub async fn any() {} pub async fn connect() {}"),
        doc_file(&["x", "route.rs"], "pub async fn any() {} pub async fn get() {}"),
    ];
    let mut errors = Vec::new();
    let routes = FolderRouterRoutes::parse_from_path(&mut errors, &"d".to_string(), files);
    let args = FolderRouterArgs::from_flags("d".to_string(), &vec!["openapi".to_string()]).unwrap();
    let item = FolderRouterItem { ident: "D".to_string() };
    match openapi_impl(&args, &item, &routes) {
        OpenApiOutput::Document { paths, .. } => {
            assert_eq!(paths.len(), 1);
            assert_eq!(paths[0].url, "/x");
            assert_eq!(paths[0].operations.len(), 1);
            assert_eq!(paths[0].operations[0].method, HttpMethod::Get);
        },
        other => panic!("expected a document, got {other:?}"),
    }
}

#[test]
fn no_flag_no_document() {
    let routes = FolderRouterRoutes::parse_from_path(
        &mut Vec::new(),
        &"d".to_string(),
        vec![doc_file(&["route.rs"], "pub async fn get() {}")],
    );
    let args = FolderRouterArgs::new("d".to_string());
    let item = FolderRouterItem { ident: "D".to_string() };
    assert!(matches!(openapi_impl(&args, &item, &routes), OpenApiOutput::Disabled));
}
