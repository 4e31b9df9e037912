//! What the macro reads from the Rust files of the route tree: which
//! `pub async fn` HTTP-verb handlers a `route.rs` defines, how a
//! `middleware.rs`/`fallback.rs` function consumes state, the extractor
//! signature of an `intercept.rs`, and what OpenAPI needs of each handler.
//! The files are parsed by [`crate::syntax`].
use vstd::prelude::*;
use crate::paths::{join_with, push_joined, views};
use crate::syntax::{
    attr_view, copy_type, fn_view, items_view, last_ident_is, last_ident_of, opt_tview,
    parse_rust_file, tviews, AttrV, FnInput, FnV, InputV, ItemV, RustAttr, RustFn,
    RustItem, RustType, TypeV, FnVisibility,
};
use crate::text::{chars_of, str_is, string_of_range, trim_of, trim_string};

verus! {

/// An HTTP verb a `route.rs` handler can be named after.
#[derive(Debug, Clone, Copy, PartialEq, Eq, Structural)]
pub enum HttpMethod {
    Any,
    Get,
    Post,
    Put,
    Delete,
    Patch,
    Head,
    Options,
    Trace,
    Connect,
}

/// The handler name of a verb (`"get"`, ...).
pub open spec fn method_name(m: HttpMethod) -> Seq<char> {
    match m {
        HttpMethod::Any => "any"@,
        HttpMethod::Get => "get"@,
        HttpMethod::Post => "post"@,
        HttpMethod::Put => "put"@,
        HttpMethod::Delete => "delete"@,
        HttpMethod::Patch => "patch"@,
        HttpMethod::Head => "head"@,
        HttpMethod::Options => "options"@,
        HttpMethod::Trace => "trace"@,
        HttpMethod::Connect => "connect"@,
    }
}

/// The verbs in their canonical order.
pub open spec fn canonical_methods() -> Seq<HttpMethod> {
    seq![
        HttpMethod::Any,
        HttpMethod::Get,
        HttpMethod::Post,
        HttpMethod::Put,
        HttpMethod::Delete,
        HttpMethod::Patch,
        HttpMethod::Head,
        HttpMethod::Options,
        HttpMethod::Trace,
        HttpMethod::Connect,
    ]
}

impl HttpMethod {
    /// The handler name of this verb.
    pub fn name(&self) -> (s: &'static str)
        ensures
            s@ == method_name(*self),
    {
        match self {
            HttpMethod::Any => "any",
            HttpMethod::Get => "get",
            HttpMethod::Post => "post",
            HttpMethod::Put => "put",
            HttpMethod::Delete => "delete",
            HttpMethod::Patch => "patch",
            HttpMethod::Head => "head",
            HttpMethod::Options => "options",
            HttpMethod::Trace => "trace",
            HttpMethod::Connect => "connect",
        }
    }
}

/// The verbs in their canonical order.
pub fn all_methods() -> (v: Vec<HttpMethod>)
    ensures
        v@ == canonical_methods(),
{
    let v = vec![
        HttpMethod::Any,
        HttpMethod::Get,
        HttpMethod::Post,
        HttpMethod::Put,
        HttpMethod::Delete,
        HttpMethod::Patch,
        HttpMethod::Head,
        HttpMethod::Options,
        HttpMethod::Trace,
        HttpMethod::Connect,
    ];
    assert(v@ =~= canonical_methods());
    v
}


/// A verb handler: a plain `pub` `async` function.
pub open spec fn is_handler(f: FnV) -> bool {
    f.vis == FnVisibility::Public && f.is_async
}

/// The `fn` of an item, when it is one.
pub open spec fn item_fn(i: ItemV) -> Option<FnV> {
    match i {
        ItemV::Fn { f } => Some(f),
        ItemV::Other => None,
    }
}

/// Whether an item is a handler with this name.
pub open spec fn handler_named(i: ItemV, name: Seq<char>) -> bool {
    match item_fn(i) {
        Some(f) => is_handler(f) && f.name == name,
        None => false,
    }
}

/// Whether the items define a handler with this name.
pub open spec fn defines_handler(items: Seq<ItemV>, name: Seq<char>) -> bool {
    exists|i: int| 0 <= i < items.len() && #[trigger] handler_named(items[i], name)
}

/// The verbs of `ms`, in order, for which the items define a handler.
pub open spec fn handler_methods(items: Seq<ItemV>, ms: Seq<HttpMethod>) -> Seq<HttpMethod>
    decreases ms.len(),
{
    if ms.len() == 0 {
        seq![]
    } else {
        let r = handler_methods(items, ms.drop_last());
        if defines_handler(items, method_name(ms.last())) {
            r.push(ms.last())
        } else {
            r
        }
    }
}

/// The verbs a `route.rs` handles, given its items: every verb, in
/// canonical order, for which it defines a `pub async fn` of that name.
pub open spec fn route_methods(items: Seq<ItemV>) -> Seq<HttpMethod> {
    handler_methods(items, canonical_methods())
}

/// Parses a file's content into its top-level items (none when it could not
/// be read or does not parse). Nothing is stated of what the parser yields
/// for a text.
pub fn parse_items(content: &Option<String>) -> (r: Vec<RustItem>)
    ensures
        content is None ==> r@.len() == 0,
{
    match content {
        None => Vec::new(),
        Some(c) => match parse_rust_file(c.as_str()) {
            None => Vec::new(),
            Some(items) => items,
        },
    }
}

/// A verb is among those of `ms` reported for the items exactly when `ms`
/// holds it and the items define its handler; none is reported twice when
/// `ms` has no duplicates.
proof fn lemma_handler_methods_contains(items: Seq<ItemV>, ms: Seq<HttpMethod>)
    ensures
        forall|m: HttpMethod| #[trigger] handler_methods(items, ms).contains(m) <==> ms.contains(m)
            && defines_handler(items, method_name(m)),
        ms.no_duplicates() ==> handler_methods(items, ms).no_duplicates(),
    decreases ms.len(),
{
    if ms.len() > 0 {
        let b = ms.drop_last();
        lemma_handler_methods_contains(items, b);
        let r = handler_methods(items, b);
        assert forall|m: HttpMethod| #[trigger] handler_methods(items, ms).contains(m) <==> ms.contains(m)
            && defines_handler(items, method_name(m)) by {
            if ms.contains(m) && !b.contains(m) {
                let k = choose|k: int| 0 <= k < ms.len() && ms[k] == m;
                if k < ms.len() - 1 {
                    assert(b[k] == m);
                }
            }
            if b.contains(m) {
                let k = choose|k: int| 0 <= k < b.len() && b[k] == m;
                assert(ms[k] == m);
            }
            if defines_handler(items, method_name(ms.last())) {
                assert(handler_methods(items, ms) == r.push(ms.last()));
                if r.push(ms.last()).contains(m) && !r.contains(m) {
                    let k = choose|k: int| 0 <= k < r.len() + 1 && r.push(ms.last())[k] == m;
                    assert(k == r.len());
                }
                if r.contains(m) {
                    let k = choose|k: int| 0 <= k < r.len() && r[k] == m;
                    assert(r.push(ms.last())[k] == m);
                }
                if m == ms.last() {
                    assert(r.push(ms.last())[r.len() as int] == m);
                }
            }
        }
        if ms.no_duplicates() {
            assert(b.no_duplicates());
            if defines_handler(items, method_name(ms.last())) {
                assert(!b.contains(ms.last()));
                assert(!r.contains(ms.last()));
                let h = r.push(ms.last());
                assert forall|i: int, j: int| 0 <= i < h.len() && 0 <= j < h.len() && i != j implies h[i] != h[j] by {
                    if i < r.len() && j < r.len() {
                    } else if i == r.len() {
                        assert(r[j] == h[j]);
                    } else {
                        assert(r[i] == h[i]);
                    }
                }
            }
        }
    }
}

/// Every verb handler counts: for each of the ten verbs (`any`, `get`,
/// `post`, `put`, `delete`, `patch`, `head`, `options`, `trace`,
/// `connect`), the verb is reported for a `route.rs` exactly when it defines
/// a `pub async fn` of that name, and no verb is reported twice.
pub proof fn law_every_verb_reported(items: Seq<ItemV>)
    ensures
        forall|m: HttpMethod| #[trigger] route_methods(items).contains(m) <==> defines_handler(items, method_name(m)),
        route_methods(items).no_duplicates(),
{
    let c = canonical_methods();
    assert forall|m: HttpMethod| c.contains(m) by {
        match m {
            HttpMethod::Any => assert(c[0] == m),
            HttpMethod::Get => assert(c[1] == m),
            HttpMethod::Post => assert(c[2] == m),
            HttpMethod::Put => assert(c[3] == m),
            HttpMethod::Delete => assert(c[4] == m),
            HttpMethod::Patch => assert(c[5] == m),
            HttpMethod::Head => assert(c[6] == m),
            HttpMethod::Options => assert(c[7] == m),
            HttpMethod::Trace => assert(c[8] == m),
            HttpMethod::Connect => assert(c[9] == m),
        }
    }
    assert(c.no_duplicates());
    lemma_handler_methods_contains(items, c);
}

/// Whether an item is a handler named `name`.
fn is_handler_named(item: &RustItem, name: &str) -> (b: bool)
    ensures
        b == handler_named(item@, name@),
{
    match item {
        RustItem::Fn { f } => f.vis == FnVisibility::Public && f.is_async && str_is(&f.name, name),
        RustItem::Other => false,
    }
}

/// Whether the items define a handler named `name`.
pub fn has_handler(items: &Vec<RustItem>, name: &str) -> (b: bool)
    ensures
        b == defines_handler(items_view(items@), name@),
{
    let mut i: usize = 0;
    while i < items.len()
        invariant
            i <= items.len(),
            forall|j: int| 0 <= j < i ==> !#[trigger] handler_named(items_view(items@)[j], name@),
        decreases items.len() - i,
    {
        if is_handler_named(&items[i], name) {
            assert(handler_named(items_view(items@)[i as int], name@));
            return true;
        }
        i = i + 1;
    }
    false
}

/// The HTTP verbs handled by a `route.rs`, given its items, in canonical
/// order; see [`route_methods`].
pub fn methods_for_route(items: &Vec<RustItem>) -> (r: Vec<HttpMethod>)
    ensures
        r@ == route_methods(items_view(items@)),
        forall|m: HttpMethod| #[trigger] r@.contains(m) <==> defines_handler(items_view(items@), method_name(m)),
        r@.no_duplicates(),
{
    proof {
        law_every_verb_reported(items_view(items@));
    }
    let ms = all_methods();
    let mut r: Vec<HttpMethod> = Vec::new();
    let mut j: usize = 0;
    while j < ms.len()
        invariant
            j <= ms.len(),
            ms@ == canonical_methods(),
            r@ == handler_methods(items_view(items@), ms@.subrange(0, j as int)),
        decreases ms.len() - j,
    {
        assert(ms@.subrange(0, j + 1).drop_last() =~= ms@.subrange(0, j as int));
        if has_handler(items, ms[j].name()) {
            r.push(ms[j]);
        }
        j = j + 1;
    }
    assert(ms@.subrange(0, ms@.len() as int) =~= ms@);
    r
}

/// How a `middleware.rs` / `fallback.rs` function consumes the app state.
#[derive(Debug, Clone, Copy, PartialEq, Eq, Structural)]
pub enum MiddlewareKind {
    /// `fn(router) -> router`.
    Stateless,
    /// `fn(router, state) -> router`.
    Stateful,
}

/// One input is stateless; two or more are stateful.
pub open spec fn kind_of_arity(n: nat) -> MiddlewareKind {
    if n >= 2 {
        MiddlewareKind::Stateful
    } else {
        MiddlewareKind::Stateless
    }
}

/// The first `pub` function (async or not) with this name.
pub open spec fn first_pub_fn(items: Seq<ItemV>, name: Seq<char>) -> Option<FnV>
    decreases items.len(),
{
    if items.len() == 0 {
        None
    } else if item_fn(items[0]) matches Some(f) && f.vis == FnVisibility::Public && f.name == name {
        item_fn(items[0])
    } else {
        first_pub_fn(items.drop_first(), name)
    }
}

/// How the `pub fn <name>` of a file's items consumes state, by its number
/// of inputs (a receiver included); `None` when there is none.
pub open spec fn fn_kind_of(items: Seq<ItemV>, name: Seq<char>) -> Option<MiddlewareKind> {
    match first_pub_fn(items, name) {
        None => None,
        Some(f) => Some(kind_of_arity(f.inputs.len())),
    }
}

/// Whether an item is a `pub` function named `name`.
fn is_pub_fn_named(item: &RustItem, name: &str) -> (b: bool)
    ensures
        b == (item_fn(item@) matches Some(f) && f.vis == FnVisibility::Public && f.name == name@),
{
    match item {
        RustItem::Fn { f } => f.vis == FnVisibility::Public && str_is(&f.name, name),
        RustItem::Other => false,
    }
}

/// The index of the first `pub` function with this name, as [`first_pub_fn`].
pub fn find_pub_fn(items: &Vec<RustItem>, name: &str) -> (r: Option<usize>)
    ensures
        match r {
            None => first_pub_fn(items_view(items@), name@) is None,
            Some(i) => i < items@.len() && items@[i as int] is Fn && first_pub_fn(items_view(items@), name@) == Some(
                fn_view(items@[i as int]->f),
            ),
        },
{
    let ghost all = items_view(items@);
    let mut i: usize = 0;
    assert(all.subrange(0, all.len() as int) =~= all);
    while i < items.len()
        invariant
            i <= items.len(),
            all == items_view(items@),
            first_pub_fn(all, name@) == first_pub_fn(all.subrange(i as int, all.len() as int), name@),
        decreases items.len() - i,
    {
        let ghost rest = all.subrange(i as int, all.len() as int);
        assert(rest[0] == items@[i as int]@);
        if is_pub_fn_named(&items[i], name) {
            return Some(i);
        }
        assert(rest.drop_first() =~= all.subrange(i + 1, all.len() as int));
        i = i + 1;
    }
    None
}

/// How the `pub fn <fn_name>` of a file's items consumes state, by its
/// number of inputs; see [`fn_kind_of`].
pub fn fn_kind(items: &Vec<RustItem>, fn_name: &str) -> (r: Option<MiddlewareKind>)
    ensures
        r == fn_kind_of(items_view(items@), fn_name@),
{
    match find_pub_fn(items, fn_name) {
        None => None,
        Some(i) => match &items[i] {
            RustItem::Fn { f } => {
                if f.inputs.len() >= 2 {
                    Some(MiddlewareKind::Stateful)
                } else {
                    Some(MiddlewareKind::Stateless)
                }
            },
            RustItem::Other => None,
        },
    }
}

/// Kind of the `pub fn middleware` of a `middleware.rs` (given its items), or `None`
/// if it defines none.
pub fn middleware_kind(items: &Vec<RustItem>) -> (r: Option<MiddlewareKind>)
    ensures
        r == fn_kind_of(items_view(items@), "middleware"@),
{
    fn_kind(items, "middleware")
}

/// Kind of the `pub fn fallback` of a `fallback.rs` (given its items), or `None`
/// if it defines none.
pub fn fallback_kind(items: &Vec<RustItem>) -> (r: Option<MiddlewareKind>)
    ensures
        r == fn_kind_of(items_view(items@), "fallback"@),
{
    fn_kind(items, "fallback")
}

/// The views of an optional string.
pub open spec fn opt_view(o: Option<String>) -> Option<Seq<char>> {
    match o {
        Some(s) => Some(s@),
        None => None,
    }
}

/// Whether a type is an axum `State<...>` extractor, by its last segment.
pub open spec fn is_state_ty(ty: TypeV) -> bool {
    last_ident_of(ty) == Some("State"@)
}

/// Whether a type is the forwarded `Request`, by its last segment.
pub open spec fn is_request_ty(ty: TypeV) -> bool {
    last_ident_of(ty) == Some("Request"@)
}

/// Whether an optional string is exactly `lit`.
pub(crate) fn opt_is(o: &Option<String>, lit: &str) -> (b: bool)
    ensures
        b == (opt_view(*o) == Some(lit@)),
{
    match o {
        Some(s) => str_is(s, lit),
        None => false,
    }
}

/// Whether a parameter type is a `State<...>` extractor (`State<_>` and
/// `axum::extract::State<_>`, through references, alike).
pub fn is_state_type(ty: &RustType) -> (b: bool)
    ensures
        b == is_state_ty(ty@),
{
    last_ident_is(ty, "State")
}

/// Whether a parameter type is the forwarded `Request` (`Request`,
/// `axum::extract::Request` and `http::Request<_>` alike).
pub fn is_request_type(ty: &RustType) -> (b: bool)
    ensures
        b == is_request_ty(ty@),
{
    last_ident_is(ty, "Request")
}

/// The parsed signature of a `pub fn intercept`: its parameter types in order
/// and whether one of them is a `State<...>` extractor.
#[derive(Debug)]
pub struct InterceptSig {
    pub params: Vec<RustType>,
    pub stateful: bool,
}

/// The types of the typed inputs (receivers left out), in order.
pub open spec fn typed_params(inputs: Seq<InputV>) -> Seq<TypeV>
    decreases inputs.len(),
{
    if inputs.len() == 0 {
        seq![]
    } else {
        let r = typed_params(inputs.drop_last());
        match inputs.last() {
            InputV::Typed { ty } => r.push(ty),
            InputV::Receiver => r,
        }
    }
}

/// The types of a function's typed parameters.
pub open spec fn params_of(f: FnV) -> Seq<TypeV> {
    typed_params(f.inputs)
}

/// Whether some parameter is a `State<...>` extractor.
pub open spec fn any_state(params: Seq<TypeV>) -> bool {
    exists|i: int| 0 <= i < params.len() && is_state_ty(#[trigger] params[i])
}

/// The types of a function's typed parameters (see [`params_of`]).
pub fn fn_params(f: &RustFn) -> (r: Vec<RustType>)
    ensures
        tviews(r@) == params_of(fn_view(*f)),
{
    let ghost ins = fn_view(*f).inputs;
    let mut r: Vec<RustType> = Vec::new();
    let mut i: usize = 0;
    while i < f.inputs.len()
        invariant
            i <= f.inputs.len(),
            ins == fn_view(*f).inputs,
            ins.len() == f.inputs@.len(),
            tviews(r@) == typed_params(ins.subrange(0, i as int)),
        decreases f.inputs.len() - i,
    {
        assert(ins.subrange(0, i + 1).drop_last() =~= ins.subrange(0, i as int));
        let ghost r0 = r@;
        match &f.inputs[i] {
            FnInput::Typed { ty } => {
                r.push(copy_type(ty));
                assert(tviews(r@) =~= tviews(r0).push(ty@));
            },
            FnInput::Receiver => {},
        }
        i = i + 1;
    }
    assert(ins.subrange(0, ins.len() as int) =~= ins);
    r
}

/// Whether some parameter is a `State<...>` extractor.
pub fn has_state_param(params: &Vec<RustType>) -> (b: bool)
    ensures
        b == any_state(tviews(params@)),
{
    let mut i: usize = 0;
    while i < params.len()
        invariant
            i <= params.len(),
            forall|j: int| 0 <= j < i ==> !is_state_ty(#[trigger] tviews(params@)[j]),
        decreases params.len() - i,
    {
        if is_state_type(&params[i]) {
            assert(is_state_ty(tviews(params@)[i as int]));
            return true;
        }
        i = i + 1;
    }
    false
}

/// The `pub fn intercept` of an `intercept.rs` (first one, async or not).
pub open spec fn intercept_fn(items: Seq<ItemV>) -> Option<FnV> {
    first_pub_fn(items, "intercept"@)
}

/// Reads the `pub fn intercept` of an `intercept.rs` (given its items) into
/// its parameter types and whether it takes the state, or `None` if it
/// defines no such function.
pub fn intercept_signature(items: &Vec<RustItem>) -> (r: Option<InterceptSig>)
    ensures
        match intercept_fn(items_view(items@)) {
            None => r is None,
            Some(f) => r matches Some(sig) && tviews(sig.params@) == params_of(f) && sig.stateful
                == any_state(params_of(f)),
        },
{
    match find_pub_fn(items, "intercept") {
        None => None,
        Some(i) => match &items[i] {
            RustItem::Fn { f } => {
                let params = fn_params(f);
                let stateful = has_state_param(&params);
                Some(InterceptSig { params, stateful })
            },
            RustItem::Other => None,
        },
    }
}

/// A `doc` attribute line, without the one leading space rustdoc strips.
pub open spec fn doc_line_of(v: Seq<char>) -> Seq<char> {
    if v.len() > 0 && v[0] == ' ' {
        v.drop_first()
    } else {
        v
    }
}

/// Whether an attribute is a `#[doc = "..."]` one: its path is the single
/// identifier `doc`, and its value a string literal.
pub open spec fn is_doc_attr(a: AttrV) -> bool {
    !a.global && a.path == seq!["doc"@] && a.str_value is Some
}

/// The lines of the `#[doc = "..."]` attributes, in order.
pub open spec fn doc_lines(attrs: Seq<AttrV>) -> Seq<Seq<char>>
    decreases attrs.len(),
{
    if attrs.len() == 0 {
        seq![]
    } else {
        let r = doc_lines(attrs.drop_last());
        let a = attrs.last();
        if is_doc_attr(a) {
            r.push(doc_line_of(a.str_value->0))
        } else {
            r
        }
    }
}

/// A function's doc comment: its doc lines joined with newlines and trimmed;
/// `None` when that leaves nothing.
pub open spec fn doc_of(attrs: Seq<AttrV>) -> Option<Seq<char>> {
    let t = trim_of(join_with(doc_lines(attrs), '\n'));
    if t.len() == 0 {
        None
    } else {
        Some(t)
    }
}

/// The attributes of a sequence, by their plain values.
pub open spec fn attrs_view(s: Seq<RustAttr>) -> Seq<AttrV> {
    s.map_values(|a: RustAttr| attr_view(a))
}

/// Whether an attribute's path is the single identifier `doc`.
fn is_doc_path(a: &RustAttr) -> (b: bool)
    ensures
        b == (!a.global && attr_view(*a).path == seq!["doc"@]),
{
    if a.global || a.path.len() != 1 {
        proof {
            if !a.global {
                assert(attr_view(*a).path.len() != 1);
            }
        }
        return false;
    }
    let b = str_is(&a.path[0], "doc");
    assert(b ==> attr_view(*a).path =~= seq!["doc"@]);
    assert(attr_view(*a).path == seq!["doc"@] ==> attr_view(*a).path[0] == "doc"@);
    b
}

/// Joins a function's `#[doc = "..."]` attributes into one trimmed string,
/// `None` when there are none; see [`doc_of`].
pub fn doc_string(attrs: &Vec<RustAttr>) -> (r: Option<String>)
    ensures
        opt_view(r) == doc_of(attrs_view(attrs@)),
{
    let ghost av = attrs_view(attrs@);
    let mut lines: Vec<String> = Vec::new();
    let mut i: usize = 0;
    while i < attrs.len()
        invariant
            i <= attrs.len(),
            av == attrs_view(attrs@),
            views(lines@) == doc_lines(av.subrange(0, i as int)),
        decreases attrs.len() - i,
    {
        assert(av.subrange(0, i + 1).drop_last() =~= av.subrange(0, i as int));
        assert(av[i as int] == attr_view(attrs@[i as int]));
        if is_doc_path(&attrs[i]) {
            match &attrs[i].str_value {
                Some(v) => {
                    let c = chars_of(v.as_str());
                    if c.len() > 0 && c[0] == ' ' {
                        lines.push(string_of_range(&c, 1, c.len()));
                        assert(c@.subrange(1, c@.len() as int) =~= c@.drop_first());
                    } else {
                        lines.push(string_of_range(&c, 0, c.len()));
                        assert(c@.subrange(0, c@.len() as int) =~= c@);
                    }
                    assert(views(lines@) =~= doc_lines(av.subrange(0, i + 1)));
                },
                None => {},
            }
        }
        i = i + 1;
    }
    assert(av.subrange(0, av.len() as int) =~= av);
    let mut joined = String::new();
    push_joined(&mut joined, &lines, '\n');
    let t = trim_string(&joined);
    if t.unicode_len() == 0 {
        None
    } else {
        Some(t)
    }
}

/// The first handler (`pub async fn`) with this name.
pub open spec fn first_handler(items: Seq<ItemV>, name: Seq<char>) -> Option<FnV>
    decreases items.len(),
{
    if items.len() == 0 {
        None
    } else if handler_named(items[0], name) {
        item_fn(items[0])
    } else {
        first_handler(items.drop_first(), name)
    }
}

/// The index of the first handler with this name, as [`first_handler`].
pub fn find_handler(items: &Vec<RustItem>, name: &str) -> (r: Option<usize>)
    ensures
        match r {
            None => first_handler(items_view(items@), name@) is None,
            Some(i) => i < items@.len() && items@[i as int] is Fn && first_handler(items_view(items@), name@) == Some(
                fn_view(items@[i as int]->f),
            ),
        },
{
    let ghost all = items_view(items@);
    let mut i: usize = 0;
    assert(all.subrange(0, all.len() as int) =~= all);
    while i < items.len()
        invariant
            i <= items.len(),
            all == items_view(items@),
            first_handler(all, name@) == first_handler(all.subrange(i as int, all.len() as int), name@),
        decreases items.len() - i,
    {
        let ghost rest = all.subrange(i as int, all.len() as int);
        assert(rest[0] == items@[i as int]@);
        if is_handler_named(&items[i], name) {
            return Some(i);
        }
        assert(rest.drop_first() =~= all.subrange(i + 1, all.len() as int));
        i = i + 1;
    }
    None
}

/// One verb handler of a `route.rs`, for OpenAPI: its verb, parameter types,
/// explicit return type and doc comment.
#[derive(Debug)]
pub struct OperationMeta {
    pub method: HttpMethod,
    pub params: Vec<RustType>,
    pub ret: Option<RustType>,
    pub doc: Option<String>,
}

/// The verbs of `ms` that have a handler, each with its first handler.
pub open spec fn route_ops(items: Seq<ItemV>, ms: Seq<HttpMethod>) -> Seq<(HttpMethod, FnV)>
    decreases ms.len(),
{
    if ms.len() == 0 {
        seq![]
    } else {
        let r = route_ops(items, ms.drop_last());
        match first_handler(items, method_name(ms.last())) {
            Some(f) => r.push((ms.last(), f)),
            None => r,
        }
    }
}

/// `op` describes the handler `f` of verb `m`.
pub open spec fn op_describes(op: OperationMeta, m: HttpMethod, f: FnV) -> bool {
    &&& op.method == m
    &&& tviews(op.params@) == params_of(f)
    &&& opt_tview(op.ret) == f.output
    &&& opt_view(op.doc) == doc_of(f.attrs)
}

/// The description of one handler.
fn operation_meta(method: HttpMethod, f: &RustFn) -> (r: OperationMeta)
    ensures
        op_describes(r, method, fn_view(*f)),
{
    let params = fn_params(f);
    let ret = match &f.output {
        Some(t) => Some(copy_type(t)),
        None => None,
    };
    let doc = doc_string(&f.attrs);
    assert(attrs_view(f.attrs@) == fn_view(*f).attrs);
    OperationMeta { method, params, ret, doc }
}

/// Reads a `route.rs` (given its items) into one [`OperationMeta`] per verb
/// handler, in canonical verb order.
pub fn operations_for_route(items: &Vec<RustItem>) -> (r: Vec<OperationMeta>)
    ensures
        r@.len() == route_ops(items_view(items@), canonical_methods()).len(),
        forall|i: int|
            0 <= i < r@.len() ==> op_describes(
                #[trigger] r@[i],
                route_ops(items_view(items@), canonical_methods())[i].0,
                route_ops(items_view(items@), canonical_methods())[i].1,
            ),
{
    let ghost iv = items_view(items@);
    let ms = all_methods();
    let mut r: Vec<OperationMeta> = Vec::new();
    let mut j: usize = 0;
    while j < ms.len()
        invariant
            j <= ms.len(),
            ms@ == canonical_methods(),
            iv == items_view(items@),
            r@.len() == route_ops(iv, ms@.subrange(0, j as int)).len(),
            forall|i: int|
                0 <= i < r@.len() ==> op_describes(
                    #[trigger] r@[i],
                    route_ops(iv, ms@.subrange(0, j as int))[i].0,
                    route_ops(iv, ms@.subrange(0, j as int))[i].1,
                ),
        decreases ms.len() - j,
    {
        let ghost pre = ms@.subrange(0, j as int);
        let ghost nxt = ms@.subrange(0, j + 1);
        assert(nxt.drop_last() =~= pre);
        match find_handler(items, ms[j].name()) {
            None => {},
            Some(k) => match &items[k] {
                RustItem::Fn { f } => {
                    r.push(operation_meta(ms[j], f));
                },
                RustItem::Other => {},
            },
        }
        j = j + 1;
    }
    assert(ms@.subrange(0, ms@.len() as int) =~= ms@);
    r
}

/// A verb has an operation exactly when the items define a handler for it.
proof fn lemma_first_handler_defined(items: Seq<ItemV>, name: Seq<char>)
    ensures
        (first_handler(items, name) is Some) == defines_handler(items, name),
    decreases items.len(),
{
    if items.len() > 0 {
        lemma_first_handler_defined(items.drop_first(), name);
        if defines_handler(items, name) && !handler_named(items[0], name) {
            let i = choose|i: int| 0 <= i < items.len() && #[trigger] handler_named(items[i], name);
            assert(handler_named(items.drop_first()[i - 1], name));
        }
        if defines_handler(items.drop_first(), name) {
            let i = choose|i: int| 0 <= i < items.len() - 1 && #[trigger] handler_named(items.drop_first()[i], name);
            assert(handler_named(items[i + 1], name));
        }
    }
}

/// The verbs of the operations, in order.
pub open spec fn op_methods(ops: Seq<(HttpMethod, FnV)>) -> Seq<HttpMethod> {
    ops.map_values(|p: (HttpMethod, FnV)| p.0)
}

/// The operations of a `route.rs` are those of its verbs: one per verb that
/// [`methods_for_route`] reports, in the same canonical order (none when the
/// file has no items).
pub proof fn law_operations_follow_methods(items: Seq<ItemV>)
    ensures
        op_methods(route_ops(items, canonical_methods())) == route_methods(items),
{
    lemma_ops_methods(items, canonical_methods());
}

/// Induction over the verbs for [`law_operations_follow_methods`].
proof fn lemma_ops_methods(items: Seq<ItemV>, ms: Seq<HttpMethod>)
    ensures
        op_methods(route_ops(items, ms)) == handler_methods(items, ms),
    decreases ms.len(),
{
    if ms.len() > 0 {
        lemma_ops_methods(items, ms.drop_last());
        lemma_first_handler_defined(items, method_name(ms.last()));
        let r = route_ops(items, ms.drop_last());
        match first_handler(items, method_name(ms.last())) {
            Some(f) => {
                assert(op_methods(r.push((ms.last(), f))) =~= op_methods(r).push(ms.last()));
            },
            None => {},
        }
    }
}

} // verus!
