//! What a router plan serves: the routes it registers and the fallback of
//! each (nested) router, at their absolute URLs, and the laws that tie them
//! to the files of the route directory.
use vstd::prelude::*;
use crate::generate::{
    all_dirs, boundary_v, catchall_children_v, catchall_v, child_has_fallback, child_names,
    dir_path, effective_fallback,
    emit_children_v, emit_v, extends, has_boundary, intercept_params_v, is_next_name, kind_at, needs_state,
    kind_dirs, intercept_dirs, last_index_at, lemma_last_index_at, module_names, node_data_ok,
    own_module_path, route_dirs, route_stmts_v, tree_ok, RouteNode,
};
use crate::paths::{
    any_catchall, join_with, module_path_of, route_url_of, url_of, url_segment_of,
    url_segments_of, views,
};
use crate::plan::StmtV;
use crate::routes::{items_of, FolderRouterRoutes, SourceFile};
use crate::source::{route_methods, HttpMethod, MiddlewareKind};
use crate::syntax::tviews;

verus! {

/// The absolute path of `path` inside a router nested (as a service) at
/// `prefix`: the router's `/` answers at the prefix itself.
pub open spec fn mount(prefix: Seq<char>, path: Seq<char>) -> Seq<char> {
    if path == seq!['/'] {
        prefix
    } else {
        prefix + path
    }
}

/// The routes a statement registers: its path (absolute within the
/// router), module path and verbs.
pub open spec fn stmt_routes(s: StmtV) -> Seq<(Seq<char>, Seq<Seq<char>>, Seq<HttpMethod>)>
    decreases s,
{
    match s {
        StmtV::Route { path, mod_path, methods } => seq![(path, mod_path, methods)],
        StmtV::Nest { prefix, router } => mount_routes(prefix, served_routes(router)),
        _ => seq![],
    }
}

/// The routes a router registers, nested routers included, in order.
pub open spec fn served_routes(ss: Seq<StmtV>) -> Seq<(Seq<char>, Seq<Seq<char>>, Seq<HttpMethod>)>
    decreases ss,
{
    if ss.len() == 0 {
        seq![]
    } else {
        served_routes(ss.drop_last()) + stmt_routes(ss.last())
    }
}

/// The fallback a router applies: the module path of its `fallback`
/// function and how it consumes state (its last fallback statement).
pub open spec fn block_fallback(ss: Seq<StmtV>) -> Option<(Seq<Seq<char>>, MiddlewareKind)>
    decreases ss.len(),
{
    if ss.len() == 0 {
        None
    } else {
        match ss.last() {
            StmtV::Fallback { fn_path, kind } => Some((fn_path, kind)),
            _ => block_fallback(ss.drop_last()),
        }
    }
}

/// The middleware a router applies: the module path of its `middleware`
/// function (its last middleware statement).
pub open spec fn block_middleware(ss: Seq<StmtV>) -> Option<Seq<Seq<char>>>
    decreases ss.len(),
{
    if ss.len() == 0 {
        None
    } else {
        match ss.last() {
            StmtV::Middleware { fn_path, .. } => Some(fn_path),
            _ => block_middleware(ss.drop_last()),
        }
    }
}

/// The intercept layer a router applies: the module path of its
/// `intercept` function (its last intercept statement).
pub open spec fn block_intercept(ss: Seq<StmtV>) -> Option<Seq<Seq<char>>>
    decreases ss.len(),
{
    if ss.len() == 0 {
        None
    } else {
        match ss.last() {
            StmtV::Intercept { fn_path, .. } => Some(fn_path),
            _ => block_intercept(ss.drop_last()),
        }
    }
}

/// One router of a plan (the root router or a nested one) at its path: its
/// fallback, the modules of its intercept and middleware layers, and every
/// route it serves (its nested routers' included), at their paths.
pub ghost struct RouterV {
    pub url: Seq<char>,
    pub fallback: Option<(Seq<Seq<char>>, MiddlewareKind)>,
    pub intercept: Option<Seq<Seq<char>>>,
    pub middleware: Option<Seq<Seq<char>>>,
    pub routes: Seq<(Seq<char>, Seq<Seq<char>>, Seq<HttpMethod>)>,
}

/// A router built from its statements, at `/`.
pub open spec fn router_of(ss: Seq<StmtV>) -> RouterV {
    RouterV {
        url: seq!['/'],
        fallback: block_fallback(ss),
        intercept: block_intercept(ss),
        middleware: block_middleware(ss),
        routes: served_routes(ss),
    }
}

/// Routes served by a router nested at `prefix`, at their paths outside it.
pub open spec fn mount_routes(
    prefix: Seq<char>,
    es: Seq<(Seq<char>, Seq<Seq<char>>, Seq<HttpMethod>)>,
) -> Seq<(Seq<char>, Seq<Seq<char>>, Seq<HttpMethod>)> {
    es.map_values(|e: (Seq<char>, Seq<Seq<char>>, Seq<HttpMethod>)| (mount(prefix, e.0), e.1, e.2))
}

/// A router nested at `prefix`, seen from outside it.
pub open spec fn mount_router(prefix: Seq<char>, b: RouterV) -> RouterV {
    RouterV {
        url: mount(prefix, b.url),
        fallback: b.fallback,
        intercept: b.intercept,
        middleware: b.middleware,
        routes: mount_routes(prefix, b.routes),
    }
}

/// The routers a statement nests, at their paths.
pub open spec fn stmt_blocks(s: StmtV) -> Seq<RouterV>
    decreases s,
{
    match s {
        StmtV::Nest { prefix, router } => (seq![router_of(router)] + nested_blocks(router)).map_values(
            |b: RouterV| mount_router(prefix, b),
        ),
        _ => seq![],
    }
}

/// The routers nested in a router, at any depth, in order.
pub open spec fn nested_blocks(ss: Seq<StmtV>) -> Seq<RouterV>
    decreases ss,
{
    if ss.len() == 0 {
        seq![]
    } else {
        nested_blocks(ss.drop_last()) + stmt_blocks(ss.last())
    }
}

/// A router and all the routers nested in it, at their paths.
pub open spec fn served_blocks(ss: Seq<StmtV>) -> Seq<RouterV> {
    seq![router_of(ss)] + nested_blocks(ss)
}

/// The `fallback.rs` of directory `q`, by its function's module path and
/// kind.
pub open spec fn fallback_at(r: FolderRouterRoutes, q: Seq<Seq<char>>) -> Option<(Seq<Seq<char>>, MiddlewareKind)> {
    match kind_at(r.fallback@, q) {
        Some(k) => Some((module_names(q).push("fallback"@), k)),
        None => None,
    }
}

/// The most specific `fallback.rs` among the directories made of the first
/// `k` components of `d`, for `k < n`.
pub open spec fn fallback_within(r: FolderRouterRoutes, d: Seq<Seq<char>>, n: nat) -> Option<(Seq<Seq<char>>, MiddlewareKind)>
    decreases n,
{
    if n == 0 {
        None
    } else {
        match fallback_at(r, d.take(n - 1)) {
            Some(f) => Some(f),
            None => fallback_within(r, d, (n - 1) as nat),
        }
    }
}

/// The most specific `fallback.rs` at or above directory `d`.
pub open spec fn fallback_above(r: FolderRouterRoutes, d: Seq<Seq<char>>) -> Option<(Seq<Seq<char>>, MiddlewareKind)> {
    fallback_within(r, d, d.len() + 1)
}

/// `a` is a prefix of `b`.
pub open spec fn is_prefix(a: Seq<Seq<char>>, b: Seq<Seq<char>>) -> bool {
    a.len() <= b.len() && b.take(a.len() as int) == a
}

/// No directory name of `d` is empty.
pub open spec fn names_ok(d: Seq<Seq<char>>) -> bool {
    forall|c: int| 0 <= c < d.len() ==> (#[trigger] d[c]).len() > 0
}

/// No directory of the files has an empty name (as on any file system).
pub open spec fn names_nonempty(r: FolderRouterRoutes) -> bool {
    forall|i: int| 0 <= i < all_dirs(r).len() ==> names_ok(#[trigger] all_dirs(r)[i])
}

/// Route `e` is the `route.rs` `f`, registered in a router for directory
/// `q`: at the URL of `f`'s directory below `q`, with `f`'s module path and
/// verbs.
pub open spec fn route_file_at(
    e: (Seq<char>, Seq<Seq<char>>, Seq<HttpMethod>),
    f: SourceFile,
    q: Seq<Seq<char>>,
) -> bool {
    let d = dir_path(f.rel@);
    &&& is_prefix(q, d)
    &&& e.0 == url_of(url_segments_of(d.skip(q.len() as int)))
    &&& e.1 == module_path_of(views(f.rel@))
    &&& e.2 == route_methods(items_of(f))
}

/// Route `e`, registered in a router for directory `q`, is a `route.rs` of
/// `fs` at or below `p`.
pub open spec fn route_from_files(
    e: (Seq<char>, Seq<Seq<char>>, Seq<HttpMethod>),
    fs: Seq<SourceFile>,
    q: Seq<Seq<char>>,
    p: Seq<Seq<char>>,
) -> bool {
    exists|i: int|
        0 <= i < fs.len() && #[trigger] route_file_at(e, fs[i], q) && is_prefix(
            p,
            dir_path(fs[i].rel@),
        )
}

/// Each of the routes registered in a router for directory `q` is a
/// `route.rs` of `fs` at or below `p`.
pub open spec fn routes_from_files(
    es: Seq<(Seq<char>, Seq<Seq<char>>, Seq<HttpMethod>)>,
    fs: Seq<SourceFile>,
    q: Seq<Seq<char>>,
    p: Seq<Seq<char>>,
) -> bool {
    forall|j: int| 0 <= j < es.len() ==> route_from_files(#[trigger] es[j], fs, q, p)
}

/// The module of a directory's own layer file, when it has one.
pub open spec fn own_layer(present: bool, d: Seq<Seq<char>>, file: Seq<char>) -> Option<Seq<Seq<char>>> {
    if present {
        Some(module_names(d).push(file))
    } else {
        None
    }
}

/// Router `b`, nested in a router for directory `q`, serves every
/// `route.rs` at or below `d` that has a verb handler.
pub open spec fn complete_at(b: RouterV, r: FolderRouterRoutes, d: Seq<Seq<char>>, q: Seq<Seq<char>>) -> bool {
    forall|i: int|
        0 <= i < r.routes@.len() && is_prefix(d, dir_path(r.routes@[i].rel@)) && route_methods(
            items_of(r.routes@[i]),
        ).len() > 0 ==> #[trigger] route_in(b.routes, r.routes@[i], q)
}

/// Router `b`, nested in a router for directory `q`, is the router of
/// directory `d`: at `d`'s URL below `q`, with the most specific
/// `fallback.rs` at or above `d`, with `d`'s own `intercept.rs` and
/// `middleware.rs` (if any) as its layers, serving only `route.rs` files at
/// or below `d` (and, when `complete`, all of those with a verb handler).
pub open spec fn block_at(
    b: RouterV,
    r: FolderRouterRoutes,
    d: Seq<Seq<char>>,
    q: Seq<Seq<char>>,
    complete: bool,
) -> bool {
    &&& complete ==> complete_at(b, r, d, q)
    &&& is_prefix(q, d)
    &&& names_ok(d)
    &&& b.url == url_of(url_segments_of(d.skip(q.len() as int)))
    &&& b.fallback == fallback_above(r, d)
    &&& b.intercept == own_layer(last_index_at(intercept_dirs(r.intercept@), d) >= 0, d, "intercept"@)
    &&& b.middleware == own_layer(kind_at(r.middleware@, d) is Some, d, "middleware"@)
    &&& routes_from_files(b.routes, r.routes@, q, d)
}

/// Router `b`, nested in a router for directory `q`, is the router of a
/// directory at or below `p`.
pub open spec fn block_from_dirs(
    b: RouterV,
    r: FolderRouterRoutes,
    q: Seq<Seq<char>>,
    p: Seq<Seq<char>>,
    complete: bool,
) -> bool {
    exists|d: Seq<Seq<char>>| #[trigger] block_at(b, r, d, q, complete) && is_prefix(p, d)
}

/// Each of the routers nested in a router for directory `q` is the router of
/// a directory at or below `p`.
pub open spec fn blocks_from_dirs(
    bs: Seq<RouterV>,
    r: FolderRouterRoutes,
    q: Seq<Seq<char>>,
    p: Seq<Seq<char>>,
    complete: bool,
) -> bool {
    forall|j: int| 0 <= j < bs.len() ==> block_from_dirs(#[trigger] bs[j], r, q, p, complete)
}

/// Every statement of `ss` registers a route or nests a router.
pub open spec fn routes_and_nests(ss: Seq<StmtV>) -> bool {
    forall|i: int| 0 <= i < ss.len() ==> (#[trigger] ss[i]) is Route || ss[i] is Nest
}

/// The routes of two statement lists one after the other.
proof fn lemma_served_routes_add(a: Seq<StmtV>, b: Seq<StmtV>)
    ensures
        served_routes(a + b) == served_routes(a) + served_routes(b),
    decreases b.len(),
{
    if b.len() == 0 {
        assert(a + b =~= a);
        assert(served_routes(a) + served_routes(b) =~= served_routes(a));
    } else {
        assert((a + b).drop_last() =~= a + b.drop_last());
        assert((a + b).last() == b.last());
        lemma_served_routes_add(a, b.drop_last());
        assert(served_routes(a + b) =~= served_routes(a) + served_routes(b));
    }
}

/// The nested routers of two statement lists one after the other.
proof fn lemma_nested_blocks_add(a: Seq<StmtV>, b: Seq<StmtV>)
    ensures
        nested_blocks(a + b) == nested_blocks(a) + nested_blocks(b),
    decreases b.len(),
{
    if b.len() == 0 {
        assert(a + b =~= a);
        assert(nested_blocks(a) + nested_blocks(b) =~= nested_blocks(a));
    } else {
        assert((a + b).drop_last() =~= a + b.drop_last());
        assert((a + b).last() == b.last());
        lemma_nested_blocks_add(a, b.drop_last());
        assert(nested_blocks(a + b) =~= nested_blocks(a) + nested_blocks(b));
    }
}

/// Route and nest statements add no layer to a router.
proof fn lemma_layers_add(a: Seq<StmtV>, b: Seq<StmtV>)
    requires
        routes_and_nests(b),
    ensures
        block_fallback(a + b) == block_fallback(a),
        block_intercept(a + b) == block_intercept(a),
        block_middleware(a + b) == block_middleware(a),
    decreases b.len(),
{
    if b.len() == 0 {
        assert(a + b =~= a);
    } else {
        assert((a + b).drop_last() =~= a + b.drop_last());
        assert((a + b).last() == b.last());
        assert(b[b.len() - 1] is Route || b[b.len() - 1] is Nest);
        lemma_layers_add(a, b.drop_last());
    }
}

/// Joining two non-empty lists puts the separator between their joins.
proof fn lemma_join_add(a: Seq<Seq<char>>, b: Seq<Seq<char>>, sep: char)
    requires
        a.len() > 0,
        b.len() > 0,
    ensures
        join_with(a + b, sep) == join_with(a, sep) + seq![sep] + join_with(b, sep),
    decreases b.len(),
{
    if b.len() == 1 {
        assert((a + b).drop_last() =~= a);
    } else {
        assert((a + b).drop_last() =~= a + b.drop_last());
        lemma_join_add(a, b.drop_last(), sep);
        assert(join_with(a + b, sep) =~= join_with(a, sep) + seq![sep] + join_with(b, sep));
    }
}

/// Joining segments that are not all empty (or two or more) gives a
/// non-empty text.
proof fn lemma_join_nonempty(b: Seq<Seq<char>>, sep: char)
    requires
        b.len() > 0,
        b.last().len() > 0,
    ensures
        join_with(b, sep).len() > 0,
{
}

/// The URL of segments `a` followed by `b` is the URL of `b` mounted at the
/// URL of `a`.
proof fn lemma_url_add(a: Seq<Seq<char>>, b: Seq<Seq<char>>)
    requires
        a.len() > 0,
        b.len() > 0 ==> b.last().len() > 0,
    ensures
        url_of(a + b) == mount(url_of(a), url_of(b)),
{
    if b.len() == 0 {
        assert(a + b =~= a);
    } else {
        lemma_join_add(a, b, '/');
        lemma_join_nonempty(b, '/');
        assert(url_of(b) != seq!['/']) by {
            assert(url_of(b).len() > 1);
        }
        assert(url_of(a + b) =~= url_of(a) + url_of(b));
    }
}

/// The URL segments of two lists of names one after the other.
proof fn lemma_segments_add(a: Seq<Seq<char>>, b: Seq<Seq<char>>)
    ensures
        url_segments_of(a + b) == url_segments_of(a) + url_segments_of(b),
{
    assert(url_segments_of(a + b) =~= url_segments_of(a) + url_segments_of(b));
}

/// A non-empty directory name has a non-empty URL segment.
proof fn lemma_segment_nonempty(s: Seq<char>)
    requires
        s.len() > 0,
    ensures
        url_segment_of(s).len() > 0,
{
}

/// The most specific `fallback.rs` at or above a subdirectory: its own, else
/// the one at or above its parent.
proof fn lemma_fallback_above_push(r: FolderRouterRoutes, d: Seq<Seq<char>>, x: Seq<char>)
    ensures
        fallback_above(r, d.push(x)) == match fallback_at(r, d.push(x)) {
            Some(f) => Some(f),
            None => fallback_above(r, d),
        },
{
    assert(d.push(x).take(d.len() as int + 1) =~= d.push(x));
    lemma_fallback_within_push(r, d, x, d.len() + 1);
}

/// Below the length of `d`, the prefixes of `d` and of `d.push(x)` agree.
proof fn lemma_fallback_within_push(r: FolderRouterRoutes, d: Seq<Seq<char>>, x: Seq<char>, n: nat)
    requires
        n <= d.len() + 1,
    ensures
        fallback_within(r, d.push(x), n) == fallback_within(r, d, n),
    decreases n,
{
    if n > 0 {
        assert(d.push(x).take(n - 1) =~= d.take(n - 1));
        lemma_fallback_within_push(r, d, x, (n - 1) as nat);
    }
}

/// `is_prefix` is transitive.
proof fn lemma_prefix_trans(a: Seq<Seq<char>>, b: Seq<Seq<char>>, c: Seq<Seq<char>>)
    requires
        is_prefix(a, b),
        is_prefix(b, c),
    ensures
        is_prefix(a, c),
{
    assert(c.take(a.len() as int) =~= c.take(b.len() as int).take(a.len() as int));
}

/// The directory of a `route.rs` has no empty name.
proof fn lemma_route_names(r: FolderRouterRoutes, i: int)
    requires
        names_nonempty(r),
        0 <= i < r.routes@.len(),
    ensures
        names_ok(dir_path(r.routes@[i].rel@)),
{
    let rd = route_dirs(r.routes@);
    let rest = kind_dirs(r.middleware@) + kind_dirs(r.fallback@) + intercept_dirs(r.intercept@);
    assert(all_dirs(r) =~= rd + rest);
    assert(all_dirs(r)[i] == rd[i]);
    assert(names_ok(all_dirs(r)[i]));
}

/// A router nested at the URL segments `cb` (those of `p2` below `q`) serves
/// what it serves for `p2` at the URL of the same directory below `q`.
proof fn lemma_mount_step(
    cb: Seq<Seq<char>>,
    q: Seq<Seq<char>>,
    p2: Seq<Seq<char>>,
    d: Seq<Seq<char>>,
)
    requires
        is_prefix(q, p2),
        is_prefix(p2, d),
        names_ok(d),
        q.len() < p2.len(),
        cb == url_segments_of(p2.skip(q.len() as int)),
    ensures
        mount(url_of(cb), url_of(url_segments_of(d.skip(p2.len() as int)))) == url_of(
            url_segments_of(d.skip(q.len() as int)),
        ),
{
    let b = d.skip(p2.len() as int);
    assert(d.skip(q.len() as int) =~= p2.skip(q.len() as int) + b) by {
        assert(d.take(p2.len() as int) == p2);
        assert forall|x: int| 0 <= x < d.len() - q.len() implies d.skip(q.len() as int)[x] == (
        p2.skip(q.len() as int) + b)[x] by {
            if x < p2.len() - q.len() {
                assert(d.take(p2.len() as int)[q.len() + x] == d[q.len() + x]);
            }
        }
    }
    lemma_segments_add(p2.skip(q.len() as int), b);
    let bs = url_segments_of(b);
    if bs.len() > 0 {
        assert(bs.last() == url_segment_of(d[d.len() - 1]));
        lemma_segment_nonempty(d[d.len() - 1]);
    }
    lemma_url_add(cb, bs);
}

/// Routes of `route.rs` files at or below `d`, served by a router for `p2`
/// nested at the URL segments `cb` (those of `p2` below `q`), are served at
/// their URLs below `q`.
proof fn lemma_routes_mount(
    r: FolderRouterRoutes,
    es: Seq<(Seq<char>, Seq<Seq<char>>, Seq<HttpMethod>)>,
    q: Seq<Seq<char>>,
    p2: Seq<Seq<char>>,
    d: Seq<Seq<char>>,
    cb: Seq<Seq<char>>,
)
    requires
        names_nonempty(r),
        routes_from_files(es, r.routes@, p2, d),
        is_prefix(q, p2),
        is_prefix(p2, d),
        q.len() < p2.len(),
        cb == url_segments_of(p2.skip(q.len() as int)),
    ensures
        routes_from_files(mount_routes(url_of(cb), es), r.routes@, q, d),
{
    let ms = mount_routes(url_of(cb), es);
    assert forall|j: int| 0 <= j < ms.len() implies route_from_files(#[trigger] ms[j], r.routes@, q, d) by {
        assert(route_from_files(es[j], r.routes@, p2, d));
        let i = choose|i: int|
            0 <= i < r.routes@.len() && #[trigger] route_file_at(es[j], r.routes@[i], p2) && is_prefix(
                d,
                dir_path(r.routes@[i].rel@),
            );
        let di = dir_path(r.routes@[i].rel@);
        lemma_route_names(r, i);
        lemma_prefix_trans(p2, d, di);
        lemma_mount_step(cb, q, p2, di);
        lemma_prefix_trans(q, p2, di);
        assert(route_file_at(ms[j], r.routes@[i], q));
    }
}

/// Joining two lists of routes from files.
proof fn lemma_routes_join(
    a: Seq<(Seq<char>, Seq<Seq<char>>, Seq<HttpMethod>)>,
    b: Seq<(Seq<char>, Seq<Seq<char>>, Seq<HttpMethod>)>,
    fs: Seq<SourceFile>,
    q: Seq<Seq<char>>,
    p: Seq<Seq<char>>,
)
    requires
        routes_from_files(a, fs, q, p),
        routes_from_files(b, fs, q, p),
    ensures
        routes_from_files(a + b, fs, q, p),
{
    assert forall|j: int| 0 <= j < (a + b).len() implies route_from_files(
        #[trigger] (a + b)[j],
        fs,
        q,
        p,
    ) by {
        if j < a.len() {
            assert((a + b)[j] == a[j]);
        } else {
            assert((a + b)[j] == b[j - a.len()]);
        }
    }
}

/// Joining two lists of routers of directories.
proof fn lemma_blocks_join(
    a: Seq<RouterV>,
    b: Seq<RouterV>,
    r: FolderRouterRoutes,
    q: Seq<Seq<char>>,
    p: Seq<Seq<char>>,
    complete: bool,
)
    requires
        blocks_from_dirs(a, r, q, p, complete),
        blocks_from_dirs(b, r, q, p, complete),
    ensures
        blocks_from_dirs(a + b, r, q, p, complete),
{
    assert forall|j: int| 0 <= j < (a + b).len() implies block_from_dirs(
        #[trigger] (a + b)[j],
        r,
        q,
        p,
        complete,
    ) by {
        if j < a.len() {
            assert((a + b)[j] == a[j]);
        } else {
            assert((a + b)[j] == b[j - a.len()]);
        }
    }
}

/// Routes from files at or below `p2` are at or below `p`, a prefix of `p2`.
proof fn lemma_routes_weaken(
    es: Seq<(Seq<char>, Seq<Seq<char>>, Seq<HttpMethod>)>,
    fs: Seq<SourceFile>,
    q: Seq<Seq<char>>,
    p: Seq<Seq<char>>,
    p2: Seq<Seq<char>>,
)
    requires
        routes_from_files(es, fs, q, p2),
        is_prefix(p, p2),
    ensures
        routes_from_files(es, fs, q, p),
{
    assert forall|j: int| 0 <= j < es.len() implies route_from_files(#[trigger] es[j], fs, q, p) by {
        assert(route_from_files(es[j], fs, q, p2));
        let i = choose|i: int|
            0 <= i < fs.len() && #[trigger] route_file_at(es[j], fs[i], q) && is_prefix(
                p2,
                dir_path(fs[i].rel@),
            );
        lemma_prefix_trans(p, p2, dir_path(fs[i].rel@));
    }
}

/// Routers of directories at or below `p2` are at or below `p`.
proof fn lemma_blocks_weaken(
    bs: Seq<RouterV>,
    r: FolderRouterRoutes,
    q: Seq<Seq<char>>,
    p: Seq<Seq<char>>,
    p2: Seq<Seq<char>>,
    complete: bool,
)
    requires
        blocks_from_dirs(bs, r, q, p2, complete),
        is_prefix(p, p2),
    ensures
        blocks_from_dirs(bs, r, q, p, complete),
{
    assert forall|j: int| 0 <= j < bs.len() implies block_from_dirs(#[trigger] bs[j], r, q, p, complete) by {
        assert(block_from_dirs(bs[j], r, q, p2, complete));
        let d = choose|d: Seq<Seq<char>>| #[trigger] block_at(bs[j], r, d, q, complete) && is_prefix(p2, d);
        lemma_prefix_trans(p, p2, d);
    }
}

/// Statements that neither register a route nor nest a router serve
/// nothing.
proof fn lemma_inert(t: Seq<StmtV>)
    requires
        forall|i: int| 0 <= i < t.len() ==> !((#[trigger] t[i]) is Route) && !(t[i] is Nest),
    ensures
        served_routes(t) == Seq::<(Seq<char>, Seq<Seq<char>>, Seq<HttpMethod>)>::empty(),
        nested_blocks(t) == Seq::<RouterV>::empty(),
    decreases t.len(),
{
    if t.len() > 0 {
        assert(!(t[t.len() - 1] is Route) && !(t[t.len() - 1] is Nest));
        assert(stmt_routes(t.last()) =~= Seq::<(Seq<char>, Seq<Seq<char>>, Seq<HttpMethod>)>::empty());
        assert(stmt_blocks(t.last()) =~= Seq::<RouterV>::empty());
        lemma_inert(t.drop_last());
        assert(served_routes(t) =~= Seq::<(Seq<char>, Seq<Seq<char>>, Seq<HttpMethod>)>::empty());
        assert(nested_blocks(t) =~= Seq::<RouterV>::empty());
    }
}

/// A statement that neither registers a route nor nests a router changes
/// nothing of what a router serves, only its layers.
proof fn lemma_push_layer(x: Seq<StmtV>, st: StmtV)
    requires
        !(st is Route),
        !(st is Nest),
    ensures
        served_routes(x.push(st)) == served_routes(x),
        nested_blocks(x.push(st)) == nested_blocks(x),
        block_fallback(x.push(st)) == match st {
            StmtV::Fallback { fn_path, kind } => Some((fn_path, kind)),
            _ => block_fallback(x),
        },
        block_intercept(x.push(st)) == match st {
            StmtV::Intercept { fn_path, .. } => Some(fn_path),
            _ => block_intercept(x),
        },
        block_middleware(x.push(st)) == match st {
            StmtV::Middleware { fn_path, .. } => Some(fn_path),
            _ => block_middleware(x),
        },
{
    assert(x.push(st).drop_last() =~= x);
    assert(stmt_routes(st) =~= Seq::<(Seq<char>, Seq<Seq<char>>, Seq<HttpMethod>)>::empty());
    assert(stmt_blocks(st) =~= Seq::<RouterV>::empty());
    assert(served_routes(x.push(st)) =~= served_routes(x));
    assert(nested_blocks(x.push(st)) =~= nested_blocks(x));
}

/// What a one-statement list serves.
proof fn lemma_single(st: StmtV)
    ensures
        served_routes(seq![st]) == stmt_routes(st),
        nested_blocks(seq![st]) == stmt_blocks(st),
{
    let e = Seq::<StmtV>::empty();
    assert(seq![st].drop_last() =~= e);
    assert(served_routes(e) =~= Seq::<(Seq<char>, Seq<Seq<char>>, Seq<HttpMethod>)>::empty());
    assert(nested_blocks(e) =~= Seq::<RouterV>::empty());
    assert(served_routes(seq![st]) =~= stmt_routes(st));
    assert(nested_blocks(seq![st]) =~= stmt_blocks(st));
}

/// A boundary router serves what its registrations serve, falls back to its
/// effective fallback, and has its own intercept and middleware as layers.
proof fn lemma_boundary_parts(n: RouteNode, inherited: Option<(Seq<Seq<char>>, MiddlewareKind)>)
    requires
        routes_and_nests(emit_v(n, seq![], effective_fallback(n, inherited))),
    ensures
        served_routes(boundary_v(n, inherited)) == served_routes(
            emit_v(n, seq![], effective_fallback(n, inherited)),
        ),
        nested_blocks(boundary_v(n, inherited)) == nested_blocks(
            emit_v(n, seq![], effective_fallback(n, inherited)),
        ),
        block_fallback(boundary_v(n, inherited)) == effective_fallback(n, inherited),
        block_intercept(boundary_v(n, inherited)) == (if n.intercept is Some {
            Some(own_module_path(n, "intercept"@))
        } else {
            None
        }),
        block_middleware(boundary_v(n, inherited)) == (if n.middleware is Some {
            Some(own_module_path(n, "middleware"@))
        } else {
            None
        }),
{
    let eff = effective_fallback(n, inherited);
    let body = emit_v(n, seq![], eff);
    lemma_layers_add(Seq::<StmtV>::empty(), body);
    assert(Seq::<StmtV>::empty() + body =~= body);
    let with_fb = match eff {
        Some(f) => body.push(StmtV::Fallback { fn_path: f.0, kind: f.1 }),
        None => if child_has_fallback(n) {
            body.push(StmtV::NotFound)
        } else {
            body
        },
    };
    match eff {
        Some(f) => {
            lemma_push_layer(body, StmtV::Fallback { fn_path: f.0, kind: f.1 });
        },
        None => {
            if child_has_fallback(n) {
                lemma_push_layer(body, StmtV::NotFound);
            }
        },
    }
    let with_ic = match n.intercept {
        Some(sig) => with_fb.push(
            StmtV::Intercept {
                fn_path: own_module_path(n, "intercept"@),
                params: intercept_params_v(tviews(sig.params@)),
                stateful: sig.stateful,
            },
        ),
        None => with_fb,
    };
    match n.intercept {
        Some(sig) => {
            lemma_push_layer(
                with_fb,
                StmtV::Intercept {
                    fn_path: own_module_path(n, "intercept"@),
                    params: intercept_params_v(tviews(sig.params@)),
                    stateful: sig.stateful,
                },
            );
        },
        None => {},
    }
    match n.middleware {
        Some(k) => {
            lemma_push_layer(
                with_ic,
                StmtV::Middleware { fn_path: own_module_path(n, "middleware"@), kind: k },
            );
        },
        None => {},
    }
}

/// The name of a child directory is one of the files' directory names, so
/// it is not empty.
proof fn lemma_child_name(n: RouteNode, r: FolderRouterRoutes, p: Seq<Seq<char>>, k: int)
    requires
        tree_ok(n, r, p),
        names_nonempty(r),
        0 <= k < n.children@.len(),
    ensures
        n.children@[k].name@.len() > 0,
{
    let name = n.children@[k].name@;
    assert(child_names(n)[k] == name);
    assert(child_names(n).contains(name));
    assert(is_next_name(all_dirs(r), p, name));
    let j = choose|j: int|
        0 <= j < all_dirs(r).len() && extends(#[trigger] all_dirs(r)[j], p) && all_dirs(r)[j][p.len() as int] == name;
    assert(names_ok(all_dirs(r)[j]));
}

/// What the statements for the first `k` children of the directory `n` at
/// `p` register, in a router for directory `q` (a prefix of `p`) whose
/// fallback is the most specific one at or above `p`.
proof fn lemma_emit_children(
    n: RouteNode,
    k: int,
    r: FolderRouterRoutes,
    p: Seq<Seq<char>>,
    q: Seq<Seq<char>>,
    base: Seq<Seq<char>>,
    fb: Option<(Seq<Seq<char>>, MiddlewareKind)>,
    complete: bool,
)
    requires
        tree_ok(n, r, p),
        names_nonempty(r),
        names_ok(p),
        is_prefix(q, p),
        base == url_segments_of(p.skip(q.len() as int)),
        fb == fallback_above(r, p),
        0 <= k <= n.children@.len(),
        complete ==> route_dirs_distinct(r) && catchall_children_v(n, k, base).len() == 0,
    ensures
        routes_from_files(served_routes(emit_children_v(n, k, base, fb)), r.routes@, q, p),
        blocks_from_dirs(nested_blocks(emit_children_v(n, k, base, fb)), r, q, p, complete),
        routes_and_nests(emit_children_v(n, k, base, fb)),
    decreases n, 0int, k,
{
    if k > 0 {
        let cprev = catchall_children_v(n, k - 1, base);
        let cb0 = base.push(url_segment_of(n.children@[k - 1].name@));
        if has_boundary(n.children@[k - 1].node) {
            let own: Seq<Seq<char>> = if any_catchall(cb0) {
                seq![crate::generate::catchall_message(url_of(cb0))]
            } else {
                seq![]
            };
            assert(catchall_children_v(n, k, base) == cprev + own + catchall_v(
                n.children@[k - 1].node,
                seq![],
            ));
        } else {
            assert(catchall_children_v(n, k, base) == cprev + catchall_v(n.children@[k - 1].node, cb0));
        }
        lemma_emit_children(n, k - 1, r, p, q, base, fb, complete);
        let prev = emit_children_v(n, k - 1, base, fb);
        let c = n.children@[k - 1];
        let p2 = p.push(c.name@);
        let cb = base.push(url_segment_of(c.name@));
        assert(tree_ok(c.node, r, p2));
        lemma_child_name(n, r, p, k - 1);
        assert(names_ok(p2));
        assert(p2.take(p.len() as int) =~= p);
        assert(is_prefix(p, p2));
        lemma_prefix_trans(q, p, p2);
        assert(p2.skip(q.len() as int) =~= p.skip(q.len() as int).push(c.name@));
        assert(cb =~= url_segments_of(p2.skip(q.len() as int)));
        if has_boundary(c.node) {
            if !any_catchall(cb) {
                lemma_fallback_above_push(r, p, c.name@);
                assert(node_data_ok(c.node, r, p2));
                assert(effective_fallback(c.node, fb) == fallback_above(r, p2)) by {
                    assert(module_names(p2) =~= module_names(p).push(module_names(p2).last()));
                    assert(own_module_path(c.node, "fallback"@) == module_names(p2).push("fallback"@));
                }
                lemma_boundary(c.node, r, p2, fb, complete);
                let inner = boundary_v(c.node, fb);
                let st = StmtV::Nest { prefix: url_of(cb), router: inner };
                assert(emit_children_v(n, k, base, fb) == prev.push(st));
                assert(prev.push(st).drop_last() =~= prev);
                let sr = stmt_routes(st);
                assert(p2.take(p2.len() as int) =~= p2);
                lemma_routes_mount(r, served_routes(inner), q, p2, p2, cb);
                lemma_routes_weaken(sr, r.routes@, q, p, p2);
                let inb = seq![router_of(inner)] + nested_blocks(inner);
                let sb = stmt_blocks(st);
                assert forall|j: int| 0 <= j < sb.len() implies block_from_dirs(
                    #[trigger] sb[j],
                    r,
                    q,
                    p,
                    complete,
                ) by {
                    let b2 = inb[j];
                    assert(block_from_dirs(b2, r, p2, p2, complete));
                    let d = choose|d: Seq<Seq<char>>|
                        #[trigger] block_at(b2, r, d, p2, complete) && is_prefix(p2, d);
                    lemma_mount_step(cb, q, p2, d);
                    lemma_prefix_trans(q, p2, d);
                    lemma_prefix_trans(p, p2, d);
                    lemma_routes_mount(r, b2.routes, q, p2, d, cb);
                    if complete {
                        lemma_complete_mount(r, b2, q, p2, d, cb);
                    }
                    assert(block_at(sb[j], r, d, q, complete));
                }
                lemma_routes_join(served_routes(prev), sr, r.routes@, q, p);
                lemma_blocks_join(nested_blocks(prev), sb, r, q, p, complete);
            } else {
                assert(emit_children_v(n, k, base, fb) == prev);
            }
        } else {
            assert(c.node.fallback is None);
            assert(node_data_ok(c.node, r, p2));
            lemma_fallback_above_push(r, p, c.name@);
            lemma_emit(c.node, r, p2, q, cb, fb, complete);
            let sub = emit_v(c.node, cb, fb);
            assert(emit_children_v(n, k, base, fb) == prev + sub);
            lemma_served_routes_add(prev, sub);
            lemma_nested_blocks_add(prev, sub);
            lemma_routes_weaken(served_routes(sub), r.routes@, q, p, p2);
            lemma_blocks_weaken(nested_blocks(sub), r, q, p, p2, complete);
            lemma_routes_join(served_routes(prev), served_routes(sub), r.routes@, q, p);
            lemma_blocks_join(nested_blocks(prev), nested_blocks(sub), r, q, p, complete);
            assert(routes_and_nests(prev + sub)) by {
                assert forall|i: int| 0 <= i < (prev + sub).len() implies (#[trigger] (prev + sub)[i]) is Route
                    || (prev + sub)[i] is Nest by {
                    if i < prev.len() {
                        assert((prev + sub)[i] == prev[i]);
                    } else {
                        assert((prev + sub)[i] == sub[i - prev.len()]);
                    }
                }
            }
        }
    } else {
        assert(served_routes(emit_children_v(n, k, base, fb)) =~= Seq::<(Seq<char>, Seq<Seq<char>>, Seq<HttpMethod>)>::empty());
    }
}

/// What the statements registering the directory `n` at `p` register, see
/// [`lemma_emit_children`].
proof fn lemma_emit(
    n: RouteNode,
    r: FolderRouterRoutes,
    p: Seq<Seq<char>>,
    q: Seq<Seq<char>>,
    base: Seq<Seq<char>>,
    fb: Option<(Seq<Seq<char>>, MiddlewareKind)>,
    complete: bool,
)
    requires
        tree_ok(n, r, p),
        names_nonempty(r),
        names_ok(p),
        is_prefix(q, p),
        base == url_segments_of(p.skip(q.len() as int)),
        fb == fallback_above(r, p),
        complete ==> route_dirs_distinct(r) && catchall_v(n, base).len() == 0,
    ensures
        routes_from_files(served_routes(emit_v(n, base, fb)), r.routes@, q, p),
        blocks_from_dirs(nested_blocks(emit_v(n, base, fb)), r, q, p, complete),
        routes_and_nests(emit_v(n, base, fb)),
    decreases n, 1int, 0int,
{
    lemma_emit_children(n, n.children@.len() as int, r, p, q, base, fb, complete);
    let own = route_stmts_v(n, base);
    let rest = emit_children_v(n, n.children@.len() as int, base, fb);
    lemma_served_routes_add(own, rest);
    lemma_nested_blocks_add(own, rest);
    match n.route {
        Some(e) => {
            if e.methods@.len() > 0 {
                let fs = r.routes@;
                let i = last_index_at(route_dirs(fs), p);
                lemma_last_index_at(route_dirs(fs), p);
                assert(node_data_ok(n, r, p));
                assert(route_dirs(fs)[i] == dir_path(fs[i].rel@));
                assert(p.take(p.len() as int) =~= p);
                let st = StmtV::Route { path: url_of(base), mod_path: views(e.mod_path@), methods: e.methods@ };
                assert(own == seq![st]);
                lemma_single(st);
                assert(served_routes(own) =~= seq![(url_of(base), views(e.mod_path@), e.methods@)]);
                assert(route_file_at(served_routes(own)[0], fs[i], q));
                assert(route_from_files(served_routes(own)[0], fs, q, p));
                assert(nested_blocks(own) =~= Seq::<RouterV>::empty());
            } else {
                lemma_inert(own);
            }
        },
        None => {
            lemma_inert(own);
        },
    }
    lemma_routes_join(served_routes(own), served_routes(rest), r.routes@, q, p);
    lemma_blocks_join(nested_blocks(own), nested_blocks(rest), r, q, p, complete);
    assert(emit_v(n, base, fb) == own + rest);
    assert forall|i: int| 0 <= i < (own + rest).len() implies (#[trigger] (own + rest)[i]) is Route
        || (own + rest)[i] is Nest by {
        if i < own.len() {
            assert((own + rest)[i] == own[i]);
        } else {
            assert((own + rest)[i] == rest[i - own.len()]);
        }
    }
}

/// What the router of the boundary directory `n` at `p` serves, given that
/// it falls back to the most specific `fallback.rs` at or above `p`: routes
/// of `route.rs` files at or below `p` at their URLs below `p`, and routers
/// of directories at or below `p` with their most specific fallbacks.
proof fn lemma_boundary(
    n: RouteNode,
    r: FolderRouterRoutes,
    p: Seq<Seq<char>>,
    inherited: Option<(Seq<Seq<char>>, MiddlewareKind)>,
    complete: bool,
)
    requires
        tree_ok(n, r, p),
        names_nonempty(r),
        names_ok(p),
        effective_fallback(n, inherited) == fallback_above(r, p),
        complete ==> route_dirs_distinct(r) && catchall_v(n, seq![]).len() == 0,
    ensures
        routes_from_files(served_routes(boundary_v(n, inherited)), r.routes@, p, p),
        blocks_from_dirs(served_blocks(boundary_v(n, inherited)), r, p, p, complete),
    decreases n, 3int, 0int,
{
    let eff = effective_fallback(n, inherited);
    assert(p.take(p.len() as int) =~= p);
    assert(url_segments_of(p.skip(p.len() as int)) =~= Seq::<Seq<char>>::empty());
    lemma_emit(n, r, p, p, seq![], eff, complete);
    lemma_boundary_parts(n, inherited);
    let all = boundary_v(n, inherited);
    let first = router_of(all);
    assert(url_of(url_segments_of(p.skip(p.len() as int))) =~= seq!['/']);
    assert(node_data_ok(n, r, p));
    if complete {
        assert forall|i: int|
            0 <= i < r.routes@.len() && is_prefix(p, dir_path(r.routes@[i].rel@)) && route_methods(
                items_of(r.routes@[i]),
            ).len() > 0 implies #[trigger] route_in(first.routes, r.routes@[i], p) by {
            lemma_boundary_complete(n, r, p, inherited, i);
        }
    }
    assert(block_at(first, r, p, p, complete));
    assert(block_from_dirs(first, r, p, p, complete));
    assert(blocks_from_dirs(seq![first], r, p, p, complete));
    lemma_blocks_join(seq![first], nested_blocks(all), r, p, p, complete);
}

/// A router for `p2`, nested at the URL segments `cb` (those of `p2` below
/// `q`), that serves every `route.rs` at or below `d` still does from
/// outside.
proof fn lemma_complete_mount(
    r: FolderRouterRoutes,
    b: RouterV,
    q: Seq<Seq<char>>,
    p2: Seq<Seq<char>>,
    d: Seq<Seq<char>>,
    cb: Seq<Seq<char>>,
)
    requires
        names_nonempty(r),
        complete_at(b, r, d, p2),
        is_prefix(q, p2),
        is_prefix(p2, d),
        q.len() < p2.len(),
        cb == url_segments_of(p2.skip(q.len() as int)),
    ensures
        complete_at(mount_router(url_of(cb), b), r, d, q),
{
    let ms = mount_routes(url_of(cb), b.routes);
    assert forall|i: int|
        0 <= i < r.routes@.len() && is_prefix(d, dir_path(r.routes@[i].rel@)) && route_methods(
            items_of(r.routes@[i]),
        ).len() > 0 implies #[trigger] route_in(ms, r.routes@[i], q) by {
        let f = r.routes@[i];
        assert(route_in(b.routes, f, p2));
        let j = choose|j: int| 0 <= j < b.routes.len() && #[trigger] route_file_at(b.routes[j], f, p2);
        let di = dir_path(f.rel@);
        lemma_route_names(r, i);
        lemma_prefix_trans(p2, d, di);
        lemma_mount_step(cb, q, p2, di);
        lemma_prefix_trans(q, p2, di);
        assert(route_file_at(ms[j], f, q));
    }
}

/// Route `e` is the `route.rs` `f`: at the URL of `f`'s directory, with its
/// module path and its verbs.
pub open spec fn serves_route_file(e: (Seq<char>, Seq<Seq<char>>, Seq<HttpMethod>), f: SourceFile) -> bool {
    &&& e.0 == route_url_of(views(f.rel@))
    &&& e.1 == module_path_of(views(f.rel@))
    &&& e.2 == route_methods(items_of(f))
}

/// Route `e` is one of the `route.rs` files `fs`, at the URL of its
/// directory.
pub open spec fn route_of_some_file(e: (Seq<char>, Seq<Seq<char>>, Seq<HttpMethod>), fs: Seq<SourceFile>) -> bool {
    exists|i: int| 0 <= i < fs.len() && #[trigger] serves_route_file(e, fs[i])
}

/// Every route the router registers is one of the `route.rs` files, at the
/// URL of its directory.
pub open spec fn routes_at_their_urls(ss: Seq<StmtV>, fs: Seq<SourceFile>) -> bool {
    forall|j: int|
        0 <= j < served_routes(ss).len() ==> route_of_some_file(#[trigger] served_routes(ss)[j], fs)
}

/// Router `b` is at the URL of some directory `d` and falls back to the
/// most specific `fallback.rs` at or above `d`.
pub open spec fn router_of_some_dir(b: RouterV, r: FolderRouterRoutes) -> bool {
    exists|d: Seq<Seq<char>>| b.url == url_of(url_segments_of(d)) && #[trigger] fallback_above(r, d) == b.fallback
}

/// The router of each directory (the root router and every nested one)
/// falls back to the most specific `fallback.rs` at or above its directory.
pub open spec fn fallbacks_most_specific(ss: Seq<StmtV>, r: FolderRouterRoutes) -> bool {
    forall|j: int| 0 <= j < served_blocks(ss).len() ==> router_of_some_dir(#[trigger] served_blocks(ss)[j], r)
}

/// The root router serves at `/` and falls back to the root `fallback.rs`,
/// if any; the routers nested in it are mounted as services at absolute
/// URLs, each route's path within them completing the URL.
///
/// Nesting routers at their prefixes reconstructs, for every route, the URL
/// of its `route.rs`'s directory: whatever the boundaries (`middleware.rs`,
/// `fallback.rs`, `intercept.rs`) in between, every route the router of a
/// route tree registers is a `route.rs` of the files, with its module path
/// and verbs, served at the URL its directory gives (`[id]` as `{id}`,
/// `[...rest]` as `{*rest}`).
pub proof fn law_routes_served_at_their_url(r: FolderRouterRoutes, root: RouteNode)
    requires
        tree_ok(root, r, seq![]),
        names_nonempty(r),
    ensures
        routes_at_their_urls(boundary_v(root, None), r.routes@),
{
    lemma_root(r, root, false);
    let ss = boundary_v(root, None);
    assert forall|j: int| 0 <= j < served_routes(ss).len() implies route_of_some_file(
        #[trigger] served_routes(ss)[j],
        r.routes@,
    ) by {
        let e = served_routes(ss)[j];
        assert(route_from_files(e, r.routes@, seq![], seq![]));
        let i = choose|i: int|
            0 <= i < r.routes@.len() && #[trigger] route_file_at(e, r.routes@[i], seq![]) && is_prefix(
                seq![],
                dir_path(r.routes@[i].rel@),
            );
        let d = dir_path(r.routes@[i].rel@);
        assert(d.skip(0) =~= d);
        assert(serves_route_file(e, r.routes@[i]));
    }
}

/// An unmatched request resolves to the most specific `fallback.rs` at or
/// above its path: the router of every directory of a route tree (the root
/// router and each nested one, at its absolute URL) falls back to the most
/// specific `fallback.rs` at or above that directory (none when there is
/// none).
pub proof fn law_fallback_most_specific(r: FolderRouterRoutes, root: RouteNode)
    requires
        tree_ok(root, r, seq![]),
        names_nonempty(r),
    ensures
        fallbacks_most_specific(boundary_v(root, None), r),
{
    lemma_root(r, root, false);
    let ss = boundary_v(root, None);
    assert forall|j: int| 0 <= j < served_blocks(ss).len() implies router_of_some_dir(
        #[trigger] served_blocks(ss)[j],
        r,
    ) by {
        let b = served_blocks(ss)[j];
        assert(block_from_dirs(b, r, seq![], seq![], false));
        let d = choose|d: Seq<Seq<char>>| #[trigger] block_at(b, r, d, seq![], false) && is_prefix(seq![], d);
        assert(d.skip(0) =~= d);
        assert(fallback_above(r, d) == b.fallback);
    }
}

/// Route `e` is a `route.rs` of `fs` at or below directory `d`, at the URL
/// of its directory.
pub open spec fn route_below(e: (Seq<char>, Seq<Seq<char>>, Seq<HttpMethod>), fs: Seq<SourceFile>, d: Seq<Seq<char>>) -> bool {
    exists|i: int| 0 <= i < fs.len() && #[trigger] serves_route_file(e, fs[i]) && is_prefix(d, dir_path(fs[i].rel@))
}

/// Router `b` is the router of directory `d`: at `d`'s URL, with `d`'s own
/// `intercept.rs` and `middleware.rs` (if any) as its layers, and serving
/// only `route.rs` files at or below `d`.
pub open spec fn scoped_to(b: RouterV, r: FolderRouterRoutes, d: Seq<Seq<char>>) -> bool {
    &&& b.url == url_of(url_segments_of(d))
    &&& b.intercept == own_layer(last_index_at(intercept_dirs(r.intercept@), d) >= 0, d, "intercept"@)
    &&& b.middleware == own_layer(kind_at(r.middleware@, d) is Some, d, "middleware"@)
    &&& forall|j: int| 0 <= j < b.routes.len() ==> route_below(#[trigger] b.routes[j], r.routes@, d)
}

/// Router `b` is the router of some directory, see [`scoped_to`].
pub open spec fn router_scoped(b: RouterV, r: FolderRouterRoutes) -> bool {
    exists|d: Seq<Seq<char>>| #[trigger] scoped_to(b, r, d)
}

/// The files in force in directory `d` need the state value: its
/// `middleware.rs` or `fallback.rs` takes the state, or its `intercept.rs`
/// has a `State<...>` extractor.
pub open spec fn state_at(r: FolderRouterRoutes, d: Seq<Seq<char>>) -> bool {
    ||| kind_at(r.middleware@, d) == Some(MiddlewareKind::Stateful)
    ||| kind_at(r.fallback@, d) == Some(MiddlewareKind::Stateful)
    ||| (last_index_at(intercept_dirs(r.intercept@), d) >= 0 && r.intercept@[last_index_at(
        intercept_dirs(r.intercept@),
        d,
    )].sig.stateful)
}

/// A route tree needs the state value when the files in force in any of its
/// directories do.
pub proof fn lemma_state_at_needs_state(n: RouteNode, r: FolderRouterRoutes, p: Seq<Seq<char>>, j: int)
    requires
        tree_ok(n, r, p),
        0 <= j < all_dirs(r).len(),
        is_prefix(p, all_dirs(r)[j]),
        state_at(r, all_dirs(r)[j]),
    ensures
        needs_state(n),
    decreases all_dirs(r)[j].len() - p.len(),
{
    let d = all_dirs(r)[j];
    if d.len() == p.len() {
        assert(d =~= p) by {
            assert(d.take(p.len() as int) =~= d);
        }
        let li = last_index_at(intercept_dirs(r.intercept@), p);
        lemma_last_index_at(intercept_dirs(r.intercept@), p);
        assert(node_data_ok(n, r, p));
    } else {
        assert(d.subrange(0, p.len() as int) == d.take(p.len() as int));
        assert(extends(all_dirs(r)[j], p));
        let name = d[p.len() as int];
        assert(is_next_name(all_dirs(r), p, name));
        assert(child_names(n).contains(name));
        let k = choose|k: int| 0 <= k < child_names(n).len() && child_names(n)[k] == name;
        assert(n.children@[k].name@ == name);
        assert(tree_ok(n.children@[k].node, r, p.push(name)));
        assert(d.take(p.len() + 1 as int) =~= p.push(name));
        lemma_state_at_needs_state(n.children@[k].node, r, p.push(name), j);
        assert(needs_state(n.children@[k].node));
    }
}

/// Each router of the plan (the root router and every nested one) is the
/// router of some directory, see [`scoped_to`].
pub open spec fn layers_scoped(ss: Seq<StmtV>, r: FolderRouterRoutes) -> bool {
    forall|j: int| 0 <= j < served_blocks(ss).len() ==> router_scoped(#[trigger] served_blocks(ss)[j], r)
}

/// A `middleware.rs` applies to its folder's `route.rs` and every nested
/// route, leaving sibling subtrees untouched; so does an `intercept.rs`: the
/// router of a route tree is made of one router per boundary directory (the
/// root's and each nested one), which has that directory's own
/// `intercept.rs` and `middleware.rs` as its only layers and serves only
/// `route.rs` files at or below that directory.
pub proof fn law_layers_scoped(r: FolderRouterRoutes, root: RouteNode)
    requires
        tree_ok(root, r, seq![]),
        names_nonempty(r),
    ensures
        layers_scoped(boundary_v(root, None), r),
{
    lemma_root(r, root, false);
    let ss = boundary_v(root, None);
    assert forall|j: int| 0 <= j < served_blocks(ss).len() implies router_scoped(
        #[trigger] served_blocks(ss)[j],
        r,
    ) by {
        let b = served_blocks(ss)[j];
        assert(block_from_dirs(b, r, seq![], seq![], false));
        let d = choose|d: Seq<Seq<char>>| #[trigger] block_at(b, r, d, seq![], false) && is_prefix(seq![], d);
        assert(d.skip(0) =~= d);
        assert forall|k: int| 0 <= k < b.routes.len() implies route_below(#[trigger] b.routes[k], r.routes@, d) by {
            assert(route_from_files(b.routes[k], r.routes@, seq![], d));
            let i = choose|i: int|
                0 <= i < r.routes@.len() && #[trigger] route_file_at(b.routes[k], r.routes@[i], seq![])
                    && is_prefix(d, dir_path(r.routes@[i].rel@));
            let di = dir_path(r.routes@[i].rel@);
            assert(di.skip(0) =~= di);
            assert(serves_route_file(b.routes[k], r.routes@[i]));
        }
        assert(scoped_to(b, r, d));
    }
}

/// Some route of `es` is the `route.rs` `f`, at the URL of its directory.
pub open spec fn serves_file(es: Seq<(Seq<char>, Seq<Seq<char>>, Seq<HttpMethod>)>, f: SourceFile) -> bool {
    exists|k: int| 0 <= k < es.len() && #[trigger] serves_route_file(es[k], f)
}

/// Router `b` is the router of directory `d` (see [`scoped_to`]) and serves
/// every `route.rs` at or below `d` that has a verb handler.
pub open spec fn covers(b: RouterV, r: FolderRouterRoutes, d: Seq<Seq<char>>) -> bool {
    &&& scoped_to(b, r, d)
    &&& forall|i: int|
        0 <= i < r.routes@.len() && is_prefix(d, dir_path(r.routes@[i].rel@)) && route_methods(
            items_of(r.routes@[i]),
        ).len() > 0 ==> #[trigger] serves_file(b.routes, r.routes@[i])
}

/// Router `b` covers the subtree of some directory, see [`covers`].
pub open spec fn router_covers(b: RouterV, r: FolderRouterRoutes) -> bool {
    exists|d: Seq<Seq<char>>| #[trigger] covers(b, r, d)
}

/// Each router of the plan covers the subtree of its directory.
pub open spec fn layers_cover(ss: Seq<StmtV>, r: FolderRouterRoutes) -> bool {
    forall|j: int| 0 <= j < served_blocks(ss).len() ==> router_covers(#[trigger] served_blocks(ss)[j], r)
}

/// A `middleware.rs` (or `intercept.rs`) applies to its folder's `route.rs`
/// and every nested route: when each directory holds one `route.rs` and no
/// boundary is nested at a catch-all prefix (which is reported), the router
/// of each boundary directory, which has that directory's own layers, serves
/// every `route.rs` at or below it that has a verb handler, and no other.
pub proof fn law_layers_cover_subtrees(r: FolderRouterRoutes, root: RouteNode)
    requires
        tree_ok(root, r, seq![]),
        names_nonempty(r),
        route_dirs_distinct(r),
        catchall_v(root, seq![]).len() == 0,
    ensures
        layers_cover(boundary_v(root, None), r),
{
    lemma_root(r, root, true);
    law_layers_scoped(r, root);
    let ss = boundary_v(root, None);
    assert forall|j: int| 0 <= j < served_blocks(ss).len() implies router_covers(
        #[trigger] served_blocks(ss)[j],
        r,
    ) by {
        let b = served_blocks(ss)[j];
        assert(block_from_dirs(b, r, seq![], seq![], true));
        let d = choose|d: Seq<Seq<char>>| #[trigger] block_at(b, r, d, seq![], true) && is_prefix(seq![], d);
        assert(d.skip(0) =~= d);
        assert forall|k: int| 0 <= k < b.routes.len() implies route_below(#[trigger] b.routes[k], r.routes@, d) by {
            assert(route_from_files(b.routes[k], r.routes@, seq![], d));
            let i = choose|i: int|
                0 <= i < r.routes@.len() && #[trigger] route_file_at(b.routes[k], r.routes@[i], seq![])
                    && is_prefix(d, dir_path(r.routes@[i].rel@));
            let di = dir_path(r.routes@[i].rel@);
            assert(di.skip(0) =~= di);
            assert(serves_route_file(b.routes[k], r.routes@[i]));
        }
        assert forall|i: int|
            0 <= i < r.routes@.len() && is_prefix(d, dir_path(r.routes@[i].rel@)) && route_methods(
                items_of(r.routes@[i]),
            ).len() > 0 implies #[trigger] serves_file(b.routes, r.routes@[i]) by {
            let f = r.routes@[i];
            assert(route_in(b.routes, f, seq![]));
            let k = choose|k: int| 0 <= k < b.routes.len() && #[trigger] route_file_at(b.routes[k], f, seq![]);
            let di = dir_path(f.rel@);
            assert(di.skip(0) =~= di);
            assert(serves_route_file(b.routes[k], f));
        }
        assert(covers(b, r, d));
    }
}

/// The facts of [`lemma_boundary`] for the root directory.
proof fn lemma_root(r: FolderRouterRoutes, root: RouteNode, complete: bool)
    requires
        tree_ok(root, r, seq![]),
        names_nonempty(r),
        complete ==> route_dirs_distinct(r) && catchall_v(root, seq![]).len() == 0,
    ensures
        routes_from_files(served_routes(boundary_v(root, None)), r.routes@, seq![], seq![]),
        blocks_from_dirs(served_blocks(boundary_v(root, None)), r, seq![], seq![], complete),
{
    let e = Seq::<Seq<char>>::empty();
    assert(node_data_ok(root, r, e));
    assert(e.take(0) =~= e);
    assert(module_names(e) =~= e);
    assert(fallback_within(r, e, 0) is None);
    assert(effective_fallback(root, None) == fallback_above(r, e));
    lemma_boundary(root, r, e, None, complete);
}

/// Each directory holds at most one `route.rs` (as on any file system).
pub open spec fn route_dirs_distinct(r: FolderRouterRoutes) -> bool {
    forall|i: int, j: int|
        0 <= i < j < r.routes@.len() ==> dir_path(r.routes@[i].rel@) != dir_path(
            r.routes@[j].rel@,
        )
}

/// Some route of `es`, registered in a router for directory `q`, is the
/// `route.rs` `f`.
pub open spec fn route_in(es: Seq<(Seq<char>, Seq<Seq<char>>, Seq<HttpMethod>)>, f: SourceFile, q: Seq<Seq<char>>) -> bool {
    exists|j: int| 0 <= j < es.len() && #[trigger] route_file_at(es[j], f, q)
}

/// Some route the router registers is the `route.rs` `f`, at the URL of its
/// directory.
pub open spec fn route_served(ss: Seq<StmtV>, f: SourceFile) -> bool {
    exists|j: int| 0 <= j < served_routes(ss).len() && #[trigger] serves_route_file(served_routes(ss)[j], f)
}

/// A route in a list is still in it with more routes around.
proof fn lemma_route_in_add(
    a: Seq<(Seq<char>, Seq<Seq<char>>, Seq<HttpMethod>)>,
    b: Seq<(Seq<char>, Seq<Seq<char>>, Seq<HttpMethod>)>,
    f: SourceFile,
    q: Seq<Seq<char>>,
)
    requires
        route_in(a, f, q) || route_in(b, f, q),
    ensures
        route_in(a + b, f, q),
{
    if route_in(a, f, q) {
        let j = choose|j: int| 0 <= j < a.len() && #[trigger] route_file_at(a[j], f, q);
        assert((a + b)[j] == a[j]);
    } else {
        let j = choose|j: int| 0 <= j < b.len() && #[trigger] route_file_at(b[j], f, q);
        assert((a + b)[a.len() + j] == b[j]);
    }
}

/// The `route.rs` `i` is the last one in its directory, when directories
/// hold one each.
proof fn lemma_last_route(r: FolderRouterRoutes, i: int)
    requires
        route_dirs_distinct(r),
        0 <= i < r.routes@.len(),
    ensures
        last_index_at(route_dirs(r.routes@), dir_path(r.routes@[i].rel@)) == i,
{
    let ds = route_dirs(r.routes@);
    let d = dir_path(r.routes@[i].rel@);
    assert(ds[i] == d);
    lemma_last_index_at(ds, d);
    let k = last_index_at(ds, d);
    lemma_last_index_at_ge(ds, d, i);
    if k != i {
        assert(ds[k] == dir_path(r.routes@[k].rel@));
    }
}

/// The last index of a directory is at least any index holding it.
proof fn lemma_last_index_at_ge(ds: Seq<Seq<Seq<char>>>, p: Seq<Seq<char>>, i: int)
    requires
        0 <= i < ds.len(),
        ds[i] == p,
    ensures
        last_index_at(ds, p) >= i,
    decreases ds.len(),
{
    if ds.last() != p {
        assert(ds.drop_last()[i] == p);
        lemma_last_index_at_ge(ds.drop_last(), p, i);
    }
}

/// The child of `n` on the way to a directory strictly below `p`.
proof fn lemma_child_toward(n: RouteNode, r: FolderRouterRoutes, p: Seq<Seq<char>>, i: int) -> (k: int)
    requires
        tree_ok(n, r, p),
        0 <= i < r.routes@.len(),
        is_prefix(p, dir_path(r.routes@[i].rel@)),
        dir_path(r.routes@[i].rel@) != p,
    ensures
        0 <= k < n.children@.len(),
        n.children@[k].name@ == dir_path(r.routes@[i].rel@)[p.len() as int],
{
    let d = dir_path(r.routes@[i].rel@);
    let rd = route_dirs(r.routes@);
    let rest = kind_dirs(r.middleware@) + kind_dirs(r.fallback@) + intercept_dirs(r.intercept@);
    assert(all_dirs(r) =~= rd + rest);
    assert(all_dirs(r)[i] == d);
    assert(d.len() > p.len()) by {
        if d.len() == p.len() {
            assert(d =~= d.take(p.len() as int));
        }
    }
    assert(d.subrange(0, p.len() as int) == d.take(p.len() as int));
    assert(extends(all_dirs(r)[i], p));
    let name = d[p.len() as int];
    assert(is_next_name(all_dirs(r), p, name));
    assert(child_names(n).contains(name));
    let k = choose|k: int| 0 <= k < child_names(n).len() && child_names(n)[k] == name;
    k
}

/// The statements for the first `kk` children of `n` at `p` register the
/// `route.rs` `i`, which lies below child `k < kk`, when no boundary among
/// them is nested at a catch-all prefix.
proof fn lemma_emit_children_complete(
    n: RouteNode,
    kk: int,
    r: FolderRouterRoutes,
    p: Seq<Seq<char>>,
    q: Seq<Seq<char>>,
    base: Seq<Seq<char>>,
    fb: Option<(Seq<Seq<char>>, MiddlewareKind)>,
    i: int,
    k: int,
)
    requires
        tree_ok(n, r, p),
        names_nonempty(r),
        names_ok(p),
        is_prefix(q, p),
        base == url_segments_of(p.skip(q.len() as int)),
        fb == fallback_above(r, p),
        route_dirs_distinct(r),
        0 <= i < r.routes@.len(),
        route_methods(items_of(r.routes@[i])).len() > 0,
        is_prefix(p, dir_path(r.routes@[i].rel@)),
        dir_path(r.routes@[i].rel@) != p,
        0 <= k < kk <= n.children@.len(),
        n.children@[k].name@ == dir_path(r.routes@[i].rel@)[p.len() as int],
        catchall_children_v(n, kk, base).len() == 0,
    ensures
        route_in(served_routes(emit_children_v(n, kk, base, fb)), r.routes@[i], q),
    decreases n, 0int, kk,
{
    let prev = emit_children_v(n, kk - 1, base, fb);
    let c = n.children@[kk - 1];
    let cb = base.push(url_segment_of(c.name@));
    let f = r.routes@[i];
    let d = dir_path(f.rel@);
    let cprev = catchall_children_v(n, kk - 1, base);
    if kk - 1 > k {
        lemma_emit_children_complete(n, kk - 1, r, p, q, base, fb, i, k);
        if has_boundary(c.node) {
            if !any_catchall(cb) {
                let st = StmtV::Nest { prefix: url_of(cb), router: boundary_v(c.node, fb) };
                assert(emit_children_v(n, kk, base, fb) == prev.push(st));
                assert(prev.push(st).drop_last() =~= prev);
                lemma_route_in_add(served_routes(prev), stmt_routes(st), f, q);
            }
        } else {
            let sub = emit_v(c.node, cb, fb);
            lemma_served_routes_add(prev, sub);
            lemma_route_in_add(served_routes(prev), served_routes(sub), f, q);
        }
    } else {
        let p2 = p.push(c.name@);
        assert(tree_ok(c.node, r, p2));
        lemma_child_name(n, r, p, k);
        assert(names_ok(p2));
        assert(p2.take(p.len() as int) =~= p);
        lemma_prefix_trans(q, p, p2);
        assert(p2.skip(q.len() as int) =~= p.skip(q.len() as int).push(c.name@));
        assert(cb =~= url_segments_of(p2.skip(q.len() as int)));
        assert(d.len() > p.len()) by {
            if d.len() == p.len() {
                assert(d =~= d.take(p.len() as int));
            }
        }
        assert(is_prefix(p2, d)) by {
            assert(d.take(p2.len() as int) =~= d.take(p.len() as int).push(d[p.len() as int]));
        }
        lemma_fallback_above_push(r, p, c.name@);
        assert(node_data_ok(c.node, r, p2));
        lemma_route_names(r, i);
        if has_boundary(c.node) {
            let own: Seq<Seq<char>> = if any_catchall(cb) {
                seq![crate::generate::catchall_message(url_of(cb))]
            } else {
                seq![]
            };
            assert(catchall_children_v(n, kk, base) == cprev + own + catchall_v(c.node, seq![]));
            assert(!any_catchall(cb));
            assert(effective_fallback(c.node, fb) == fallback_above(r, p2)) by {
                assert(module_names(p2) =~= module_names(p).push(module_names(p2).last()));
                assert(own_module_path(c.node, "fallback"@) == module_names(p2).push("fallback"@));
            }
            lemma_boundary_complete(c.node, r, p2, fb, i);
            let inner = boundary_v(c.node, fb);
            let st = StmtV::Nest { prefix: url_of(cb), router: inner };
            assert(emit_children_v(n, kk, base, fb) == prev.push(st));
            assert(prev.push(st).drop_last() =~= prev);
            let j = choose|j: int|
                0 <= j < served_routes(inner).len() && #[trigger] route_file_at(served_routes(inner)[j], f, p2);
            let sr = stmt_routes(st);
            lemma_mount_step(cb, q, p2, d);
            lemma_prefix_trans(q, p2, d);
            assert(route_file_at(sr[j], f, q));
            assert(route_in(sr, f, q));
            lemma_route_in_add(served_routes(prev), sr, f, q);
        } else {
            assert(catchall_children_v(n, kk, base) == cprev + catchall_v(c.node, cb));
            assert(c.node.fallback is None);
            lemma_emit_complete(c.node, r, p2, q, cb, fb, i);
            let sub = emit_v(c.node, cb, fb);
            lemma_served_routes_add(prev, sub);
            lemma_route_in_add(served_routes(prev), served_routes(sub), f, q);
        }
    }
}

/// The statements registering `n` at `p` register the `route.rs` `i` at or
/// below `p`, when no boundary below is nested at a catch-all prefix.
proof fn lemma_emit_complete(
    n: RouteNode,
    r: FolderRouterRoutes,
    p: Seq<Seq<char>>,
    q: Seq<Seq<char>>,
    base: Seq<Seq<char>>,
    fb: Option<(Seq<Seq<char>>, MiddlewareKind)>,
    i: int,
)
    requires
        tree_ok(n, r, p),
        names_nonempty(r),
        names_ok(p),
        is_prefix(q, p),
        base == url_segments_of(p.skip(q.len() as int)),
        fb == fallback_above(r, p),
        route_dirs_distinct(r),
        0 <= i < r.routes@.len(),
        route_methods(items_of(r.routes@[i])).len() > 0,
        is_prefix(p, dir_path(r.routes@[i].rel@)),
        catchall_v(n, base).len() == 0,
    ensures
        route_in(served_routes(emit_v(n, base, fb)), r.routes@[i], q),
    decreases n, 1int, 0int,
{
    let f = r.routes@[i];
    let d = dir_path(f.rel@);
    let own = route_stmts_v(n, base);
    let rest = emit_children_v(n, n.children@.len() as int, base, fb);
    lemma_served_routes_add(own, rest);
    assert(emit_v(n, base, fb) == own + rest);
    if d == p {
        lemma_last_route(r, i);
        assert(node_data_ok(n, r, p));
        assert(route_dirs(r.routes@)[i] == d);
        let e = n.route->0;
        let st = StmtV::Route { path: url_of(base), mod_path: views(e.mod_path@), methods: e.methods@ };
        assert(own == seq![st]);
        lemma_single(st);
        assert(d.skip(q.len() as int) == p.skip(q.len() as int));
        assert(route_file_at(served_routes(own)[0], f, q));
        lemma_route_in_add(served_routes(own), served_routes(rest), f, q);
    } else {
        let k = lemma_child_toward(n, r, p, i);
        lemma_emit_children_complete(n, n.children@.len() as int, r, p, q, base, fb, i, k);
        lemma_route_in_add(served_routes(own), served_routes(rest), f, q);
    }
}

/// The router of the boundary directory `n` at `p` registers the `route.rs`
/// `i` at or below `p`, when no boundary below is nested at a catch-all
/// prefix.
proof fn lemma_boundary_complete(
    n: RouteNode,
    r: FolderRouterRoutes,
    p: Seq<Seq<char>>,
    inherited: Option<(Seq<Seq<char>>, MiddlewareKind)>,
    i: int,
)
    requires
        tree_ok(n, r, p),
        names_nonempty(r),
        names_ok(p),
        effective_fallback(n, inherited) == fallback_above(r, p),
        route_dirs_distinct(r),
        0 <= i < r.routes@.len(),
        route_methods(items_of(r.routes@[i])).len() > 0,
        is_prefix(p, dir_path(r.routes@[i].rel@)),
        catchall_v(n, seq![]).len() == 0,
    ensures
        route_in(served_routes(boundary_v(n, inherited)), r.routes@[i], p),
    decreases n, 2int, 0int,
{
    let eff = effective_fallback(n, inherited);
    assert(p.take(p.len() as int) =~= p);
    assert(url_segments_of(p.skip(p.len() as int)) =~= Seq::<Seq<char>>::empty());
    lemma_emit(n, r, p, p, seq![], eff, false);
    lemma_boundary_parts(n, inherited);
    lemma_emit_complete(n, r, p, p, seq![], eff, i);
}

/// Every `route.rs` with a verb handler is served: when each directory holds
/// one `route.rs` and no boundary is nested at a catch-all prefix (which is
/// reported as an error), the router of a route tree registers every
/// `route.rs` that has a verb handler, at the URL of its directory.
pub proof fn law_every_route_served(r: FolderRouterRoutes, root: RouteNode, i: int)
    requires
        tree_ok(root, r, seq![]),
        names_nonempty(r),
        route_dirs_distinct(r),
        catchall_v(root, seq![]).len() == 0,
        0 <= i < r.routes@.len(),
        route_methods(items_of(r.routes@[i])).len() > 0,
    ensures
        route_served(boundary_v(root, None), r.routes@[i]),
{
    let e = Seq::<Seq<char>>::empty();
    assert(node_data_ok(root, r, e));
    assert(e.take(0) =~= e);
    assert(module_names(e) =~= e);
    assert(fallback_within(r, e, 0) is None);
    assert(dir_path(r.routes@[i].rel@).take(0) =~= e);
    lemma_boundary_complete(root, r, e, None, i);
    let ss = boundary_v(root, None);
    let f = r.routes@[i];
    let j = choose|j: int| 0 <= j < served_routes(ss).len() && #[trigger] route_file_at(served_routes(ss)[j], f, e);
    let d = dir_path(f.rel@);
    assert(d.skip(0) =~= d);
    assert(serves_route_file(served_routes(ss)[j], f));
}

} // verus!
