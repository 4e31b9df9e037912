use axum_folder_router::source::{
    parse_items, doc_string, fallback_kind, intercept_signature, is_request_type, is_state_type,
    methods_for_route, middleware_kind, operations_for_route, HttpMethod, MiddlewareKind,
};
use axum_folder_router::syntax::{first_generic_type, type_last_ident, RustAttr, RustItem, RustType};

fn text(s: &str) -> Option<String> {
    Some(s.to_string())
}


fn items(s: &str) -> Vec<RustItem> {
    parse_items(&Some(s.to_string()))
}

/// The type of the one parameter of a handler written with it.
fn ty(s: &str) -> RustType {
    let src = format!("pub async fn get(x: {s}) {{}}");
    operations_for_route(&items(&src)).remove(0).params.remove(0)
}

fn attr(path: &str, value: Option<&str>) -> RustAttr {
    RustAttr { path: vec![path.to_string()], global: false, str_value: value.map(|v| v.to_string()) }
}

#[test]
fn verbs_are_listed_in_canonical_order() {
    let src = "pub async fn post() {} pub async fn get() {} pub async fn any() {}";
    assert_eq!(
        methods_for_route(&items(src)),
        vec![HttpMethod::Any, HttpMethod::Get, HttpMethod::Post]
    );
}

#[test]
fn only_pub_async_verb_functions_are_handlers() {
    let src = "async fn get() {} pub fn post() {} pub async fn helper() {} pub async fn delete() {}";
    assert_eq!(methods_for_route(&items(src)), vec![HttpMethod::Delete]);
}

#[test]
fn unreadable_or_invalid_route_has_no_verbs() {
    assert_eq!(methods_for_route(&Vec::new()), Vec::<HttpMethod>::new());
    assert_eq!(methods_for_route(&items("pub async fn get( {")), Vec::<HttpMethod>::new());
}

#[test]
fn middleware_kind_follows_arity() {
    let one = "pub fn middleware(router: Router<S>) -> Router<S> { router }";
    let two = "pub fn middleware(router: Router<S>, state: S) -> Router<S> { router }";
    assert_eq!(middleware_kind(&items(one)), Some(MiddlewareKind::Stateless));
    assert_eq!(middleware_kind(&items(two)), Some(MiddlewareKind::Stateful));
    assert_eq!(middleware_kind(&items("fn middleware(r: R) -> R { r }")), None);
    assert_eq!(middleware_kind(&Vec::new()), None);
}

#[test]
fn fallback_kind_follows_arity() {
    let one = "pub fn fallback(router: Router<S>) -> Router<S> { router }";
    let two = "pub fn fallback(router: Router<S>, state: S) -> Router<S> { router }";
    assert_eq!(fallback_kind(&items(one)), Some(MiddlewareKind::Stateless));
    assert_eq!(fallback_kind(&items(two)), Some(MiddlewareKind::Stateful));
    assert_eq!(fallback_kind(&items(one.replace("fallback", "other").as_str())), None);
}

#[test]
fn state_and_request_types_by_last_segment() {
    assert!(is_state_type(&ty("State<AppState>")));
    assert!(is_state_type(&ty("axum::extract::State<AppState>")));
    assert!(is_state_type(&ty("&State<AppState>")));
    assert!(!is_state_type(&ty("StateLike")));
    assert!(is_request_type(&ty("Request")));
    assert!(is_request_type(&ty("axum::extract::Request")));
    assert!(!is_request_type(&ty("HeaderMap")));
    assert_eq!(type_last_ident(&ty("&mut axum::Json<T>")), Some("Json".to_string()));
    assert_eq!(type_last_ident(&ty("(A, B)")), None);
}

#[test]
fn first_type_argument_of_a_path_type() {
    assert_eq!(first_generic_type(&ty("Json<User>")).unwrap().text(), "User");
    let skipped = first_generic_type(&ty("Result<'a, Json<User>, E>")).unwrap();
    assert_eq!(type_last_ident(&skipped), Some("Json".to_string()));
    assert!(first_generic_type(&ty("User")).is_none());
    assert!(first_generic_type(&ty("&Json<User>")).is_none());
}

#[test]
fn intercept_signature_lists_parameters() {
    let src = "pub async fn intercept(headers: HeaderMap, State(s): State<AppState>, req: Request) -> ControlFlow<Response, Request> { ControlFlow::Continue(req) }";
    let sig = intercept_signature(&items(src)).unwrap();
    assert_eq!(sig.params.len(), 3);
    assert_eq!(type_last_ident(&sig.params[0]), Some("HeaderMap".to_string()));
    assert_eq!(type_last_ident(&sig.params[2]), Some("Request".to_string()));
    assert!(sig.stateful);
    let plain = "pub async fn intercept(req: Request) -> ControlFlow<Response, Request> { ControlFlow::Continue(req) }";
    let sig2 = intercept_signature(&items(plain)).unwrap();
    assert_eq!(sig2.params.len(), 1);
    assert!(!sig2.stateful);
    assert!(intercept_signature(&items("pub async fn other(req: Request) {}")).is_none());
}

#[test]
fn doc_attributes_are_joined_and_trimmed() {
    let attrs = vec![
        attr("doc", Some(" List the API root.")),
        attr("doc", Some("")),
        attr("doc", Some(" Returns a short greeting.")),
        attr("inline", None),
        RustAttr { path: vec!["doc".to_string()], global: true, str_value: text(" Not a doc.") },
    ];
    assert_eq!(
        doc_string(&attrs),
        text("List the API root.\n\nReturns a short greeting.")
    );
    assert_eq!(doc_string(&Vec::new()), None);
}

#[test]
fn operations_carry_parameters_return_and_doc() {
    let src = "/// Create a user.\npub async fn post(Json(body): Json<CreateUser>) -> Json<User> { build() }\n/// List users.\npub async fn get() -> Json<Vec<User>> { build() }";
    let ops = operations_for_route(&items(src));
    assert_eq!(ops.len(), 2);
    assert_eq!(ops[0].method, HttpMethod::Get);
    assert_eq!(ops[0].doc, text("List users."));
    assert_eq!(ops[0].params.len(), 0);
    assert!(ops[0].ret.is_some());
    assert_eq!(ops[1].method, HttpMethod::Post);
    assert_eq!(ops[1].doc, text("Create a user."));
    assert_eq!(ops[1].params.len(), 1);
    assert_eq!(type_last_ident(&ops[1].params[0]), Some("Json".to_string()));
}

#[test]
fn operations_follow_the_reported_verbs() {
    let src = "pub async fn put() {} pub async fn get() {} async fn post() {} pub fn delete() {} pub async fn trace(&self) {}";
    let ops: Vec<HttpMethod> = operations_for_route(&items(src)).iter().map(|o| o.method).collect();
    assert_eq!(ops, methods_for_route(&items(src)));
    assert_eq!(ops, vec![HttpMethod::Get, HttpMethod::Put, HttpMethod::Trace]);
    let none: Vec<HttpMethod> = operations_for_route(&Vec::new()).iter().map(|o| o.method).collect();
    assert_eq!(none, methods_for_route(&Vec::new()));
}

#[test]
fn receivers_are_not_parameters() {
    let src = "pub async fn get(&self, q: Query<Filter>) {}";
    let ops = operations_for_route(&items(src));
    assert_eq!(ops[0].params.len(), 1);
    assert_eq!(ops[0].params[0].text(), "Query < Filter >");
    assert!(ops[0].ret.is_none());
}

#[test]
fn unread_content_has_no_items() {
    assert!(parse_items(&None).is_empty());
    assert!(parse_items(&text("pub async fn get( {")).is_empty());
    assert_eq!(parse_items(&text("pub async fn get() {} struct S;")).len(), 2);
}
