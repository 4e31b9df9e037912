//! The plan of the generated router: the statements that build each
//! (nested) `axum::Router`, and their mathematical view.
use vstd::prelude::*;
use crate::paths::views;
use crate::source::{HttpMethod, MiddlewareKind};
use crate::syntax::{RustType, TypeV};

verus! {

/// An extractor parameter reproduced on a generated intercept layer.
#[derive(Debug)]
pub enum InterceptParam {
    /// The forwarded request, written `axum::extract::Request`.
    Request,
    /// `axum::extract::State<inner>`, with the state's type.
    State { inner: RustType },
    /// Any other extractor type, emitted as written.
    Verbatim { ty: RustType },
}

/// One statement applied to the `router` binding of a router block.
#[derive(Debug)]
pub enum RouterStmt {
    /// `router = router.route(path, <verb>(handler)...)` for a `route.rs`
    /// module and its verbs.
    Route { path: String, mod_path: Vec<String>, methods: Vec<HttpMethod> },
    /// A boundary subtree built as its own block and mounted at `prefix` as a
    /// service with the state applied.
    Nest { prefix: String, router: RouterBlock },
    /// `router = <fn_path>(router[, state.clone()])` for a `fallback.rs`.
    Fallback { fn_path: Vec<String>, kind: MiddlewareKind },
    /// A plain 404 fallback, so the block is not transparent to an ancestor's.
    NotFound,
    /// The generated layer that runs an `intercept.rs` over the block.
    Intercept { fn_path: Vec<String>, params: Vec<InterceptParam>, stateful: bool },
    /// `router = <fn_path>(router[, state.clone()])` for a `middleware.rs`.
    Middleware { fn_path: Vec<String>, kind: MiddlewareKind },
}

/// The statements that build one router, in order.
#[derive(Debug)]
pub struct RouterBlock {
    pub stmts: Vec<RouterStmt>,
}

/// The view of an [`InterceptParam`].
pub ghost enum ParamV {
    Request,
    State(TypeV),
    Verbatim(TypeV),
}

/// The view of a [`RouterStmt`].
pub ghost enum StmtV {
    Route { path: Seq<char>, mod_path: Seq<Seq<char>>, methods: Seq<HttpMethod> },
    Nest { prefix: Seq<char>, router: Seq<StmtV> },
    Fallback { fn_path: Seq<Seq<char>>, kind: MiddlewareKind },
    NotFound,
    Intercept { fn_path: Seq<Seq<char>>, params: Seq<ParamV>, stateful: bool },
    Middleware { fn_path: Seq<Seq<char>>, kind: MiddlewareKind },
}

/// The view of an intercept parameter.
pub open spec fn param_view(p: InterceptParam) -> ParamV {
    match p {
        InterceptParam::Request => ParamV::Request,
        InterceptParam::State { inner } => ParamV::State(inner@),
        InterceptParam::Verbatim { ty } => ParamV::Verbatim(ty@),
    }
}

/// The views of intercept parameters.
pub open spec fn params_view(ps: Seq<InterceptParam>) -> Seq<ParamV> {
    ps.map_values(|p: InterceptParam| param_view(p))
}

/// The view of a statement.
pub open spec fn stmt_view(s: RouterStmt) -> StmtV
    decreases s,
{
    match s {
        RouterStmt::Route { path, mod_path, methods } => StmtV::Route {
            path: path@,
            mod_path: views(mod_path@),
            methods: methods@,
        },
        RouterStmt::Nest { prefix, router } => StmtV::Nest {
            prefix: prefix@,
            router: stmts_view(router.stmts@),
        },
        RouterStmt::Fallback { fn_path, kind } => StmtV::Fallback { fn_path: views(fn_path@), kind },
        RouterStmt::NotFound => StmtV::NotFound,
        RouterStmt::Intercept { fn_path, params, stateful } => StmtV::Intercept {
            fn_path: views(fn_path@),
            params: params_view(params@),
            stateful,
        },
        RouterStmt::Middleware { fn_path, kind } => StmtV::Middleware {
            fn_path: views(fn_path@),
            kind,
        },
    }
}

/// The views of a sequence of statements.
pub open spec fn stmts_view(ss: Seq<RouterStmt>) -> Seq<StmtV>
    decreases ss,
{
    if ss.len() == 0 {
        seq![]
    } else {
        stmts_view(ss.drop_last()).push(stmt_view(ss.last()))
    }
}

/// The view of a block.
pub open spec fn block_view(b: RouterBlock) -> Seq<StmtV> {
    stmts_view(b.stmts@)
}

/// [`stmts_view`] keeps the length and views each element.
pub proof fn lemma_stmts_view(ss: Seq<RouterStmt>)
    ensures
        stmts_view(ss).len() == ss.len(),
        forall|i: int| 0 <= i < ss.len() ==> #[trigger] stmts_view(ss)[i] == stmt_view(ss[i]),
    decreases ss.len(),
{
    if ss.len() > 0 {
        lemma_stmts_view(ss.drop_last());
        assert forall|i: int| 0 <= i < ss.len() implies #[trigger] stmts_view(ss)[i] == stmt_view(ss[i]) by {
            if i < ss.len() - 1 {
                assert(ss.drop_last()[i] == ss[i]);
            }
        }
    }
}

/// [`stmts_view`] of a concatenation is the concatenation of the views.
pub proof fn lemma_stmts_view_add(a: Seq<RouterStmt>, b: Seq<RouterStmt>)
    ensures
        stmts_view(a + b) == stmts_view(a) + stmts_view(b),
{
    lemma_stmts_view(a);
    lemma_stmts_view(b);
    lemma_stmts_view(a + b);
    assert(stmts_view(a + b) =~= stmts_view(a) + stmts_view(b));
}


/// A convention file declared as a module of its directory.
#[derive(Debug, Clone, Copy, PartialEq, Eq, Structural)]
pub enum ModFile {
    Route,
    Middleware,
    Fallback,
    Intercept,
}

/// An item of the generated module tree: a convention file's module
/// (`#[path = "route.rs"] pub mod route;`, ...) or a directory's module,
/// with its directory name for `#[path]` and its module name.
#[derive(Debug)]
pub enum ModItem {
    File(ModFile),
    Dir { path: String, name: String, items: Vec<ModItem> },
}

/// The view of a [`ModItem`].
pub ghost enum ModItemV {
    File(ModFile),
    Dir { path: Seq<char>, name: Seq<char>, items: Seq<ModItemV> },
}

/// The view of a module item.
pub open spec fn mod_item_view(m: ModItem) -> ModItemV
    decreases m,
{
    match m {
        ModItem::File(f) => ModItemV::File(f),
        ModItem::Dir { path, name, items } => ModItemV::Dir {
            path: path@,
            name: name@,
            items: mod_items_view(items@),
        },
    }
}

/// The views of module items.
pub open spec fn mod_items_view(ms: Seq<ModItem>) -> Seq<ModItemV>
    decreases ms,
{
    if ms.len() == 0 {
        seq![]
    } else {
        mod_items_view(ms.drop_last()).push(mod_item_view(ms.last()))
    }
}

} // verus!
