//! The route tree of a directory and the router plan generated from it.
use vstd::prelude::*;
use crate::paths::{any_catchall, dir_components, dir_url_segment, dirs_of, has_catchall, module_name_of, module_path_of, normalize_module_name, path_to_module_path, url_from, url_of, url_segment_of, views};
use crate::plan::{mod_item_view, mod_items_view, ModFile, ModItem, ModItemV, lemma_stmts_view, lemma_stmts_view_add, param_view, params_view, stmt_view, stmts_view, block_view, InterceptParam, ParamV, RouterBlock, RouterStmt, StmtV};
use crate::routes::{items_of, FolderRouterRoutes, InterceptFile, KindFile, SourceFile};
use crate::modules::{declares, file_dirs, file_module, law_modules_declared};
use crate::serve::{fallbacks_most_specific, law_every_route_served, law_fallback_most_specific, law_layers_cover_subtrees, law_layers_scoped, layers_cover, layers_scoped, law_routes_served_at_their_url, names_nonempty, route_dirs_distinct, route_served, routes_at_their_urls, is_prefix, lemma_state_at_needs_state, state_at};
use crate::syntax::{copy_type, copy_types, first_generic_type, first_type_arg_of, tviews, RustType, TypeV};
use crate::source::{is_request_ty, is_request_type, is_state_ty, is_state_type, methods_for_route, opt_view, route_methods, HttpMethod, InterceptSig, MiddlewareKind};
use crate::text::{chars_lt, lemma_chars_lt_total, lemma_chars_lt_trans, string_less};

verus! {

/// The registration of a directory's `route.rs`: its module path and verbs.
#[derive(Debug)]
pub struct RouteEntry {
    pub mod_path: Vec<String>,
    pub methods: Vec<HttpMethod>,
}

/// A subdirectory in the route tree, by its raw directory name.
#[derive(Debug)]
pub struct RouteChild {
    pub name: String,
    pub node: RouteNode,
}

/// A directory in the route tree: what is defined directly in it and its
/// subdirectories (sorted by name).
#[derive(Debug)]
pub struct RouteNode {
    pub children: Vec<RouteChild>,
    pub route: Option<RouteEntry>,
    pub middleware: Option<MiddlewareKind>,
    pub fallback: Option<MiddlewareKind>,
    pub intercept: Option<InterceptSig>,
    /// The module names of the directories leading to this one.
    pub mod_segments: Vec<String>,
}

/// The directory components of a file's relative path.
pub open spec fn dir_path(rel: Seq<String>) -> Seq<Seq<char>> {
    dirs_of(views(rel))
}

/// The directories of `route.rs` files.
pub open spec fn route_dirs(fs: Seq<SourceFile>) -> Seq<Seq<Seq<char>>> {
    fs.map_values(|f: SourceFile| dir_path(f.rel@))
}

/// The directories of `middleware.rs` / `fallback.rs` files.
pub open spec fn kind_dirs(fs: Seq<KindFile>) -> Seq<Seq<Seq<char>>> {
    fs.map_values(|f: KindFile| dir_path(f.file.rel@))
}

/// The directories of `intercept.rs` files.
pub open spec fn intercept_dirs(fs: Seq<InterceptFile>) -> Seq<Seq<Seq<char>>> {
    fs.map_values(|f: InterceptFile| dir_path(f.file.rel@))
}

/// The directories of every route, middleware, fallback and intercept file.
pub open spec fn all_dirs(r: FolderRouterRoutes) -> Seq<Seq<Seq<char>>> {
    route_dirs(r.routes@) + kind_dirs(r.middleware@) + kind_dirs(r.fallback@) + intercept_dirs(
        r.intercept@,
    )
}

/// The last index whose directory is `p`, or -1.
pub open spec fn last_index_at(ds: Seq<Seq<Seq<char>>>, p: Seq<Seq<char>>) -> int
    decreases ds.len(),
{
    if ds.len() == 0 {
        -1
    } else if ds.last() == p {
        ds.len() - 1
    } else {
        last_index_at(ds.drop_last(), p)
    }
}

/// [`last_index_at`] is -1 or a valid index whose directory is `p`.
pub proof fn lemma_last_index_at(ds: Seq<Seq<Seq<char>>>, p: Seq<Seq<char>>)
    ensures
        -1 <= last_index_at(ds, p) < ds.len(),
        last_index_at(ds, p) >= 0 ==> ds[last_index_at(ds, p)] == p,
    decreases ds.len(),
{
    if ds.len() > 0 {
        lemma_last_index_at(ds.drop_last(), p);
    }
}

/// The module names of the directories of a path.
pub open spec fn module_names(p: Seq<Seq<char>>) -> Seq<Seq<char>> {
    p.map_values(|s: Seq<char>| module_name_of(s))
}

/// The `route.rs` registration at directory `p`: from the last `route.rs` in
/// `p`, its module path and verbs.
pub open spec fn route_ok(e: Option<RouteEntry>, fs: Seq<SourceFile>, p: Seq<Seq<char>>) -> bool {
    let i = last_index_at(route_dirs(fs), p);
    if i < 0 {
        e is None
    } else {
        e matches Some(x) && views(x.mod_path@) == module_path_of(views(fs[i].rel@))
            && x.methods@ == route_methods(items_of(fs[i]))
    }
}

/// The kind of the last middleware/fallback file in directory `p`.
pub open spec fn kind_at(fs: Seq<KindFile>, p: Seq<Seq<char>>) -> Option<MiddlewareKind> {
    let i = last_index_at(kind_dirs(fs), p);
    if i < 0 {
        None
    } else {
        Some(fs[i].kind)
    }
}

/// The signature of the last `intercept.rs` in directory `p`.
pub open spec fn intercept_ok(s: Option<InterceptSig>, fs: Seq<InterceptFile>, p: Seq<Seq<char>>) -> bool {
    let i = last_index_at(intercept_dirs(fs), p);
    if i < 0 {
        s is None
    } else {
        s matches Some(x) && tviews(x.params@) == tviews(fs[i].sig.params@) && x.stateful == fs[i].sig.stateful
    }
}

/// The node's own data is what the files say of directory `p`.
pub open spec fn node_data_ok(n: RouteNode, r: FolderRouterRoutes, p: Seq<Seq<char>>) -> bool {
    &&& route_ok(n.route, r.routes@, p)
    &&& n.middleware == kind_at(r.middleware@, p)
    &&& n.fallback == kind_at(r.fallback@, p)
    &&& intercept_ok(n.intercept, r.intercept@, p)
    &&& views(n.mod_segments@) == module_names(p)
}

/// The names of a node's children, in order.
pub open spec fn child_names(n: RouteNode) -> Seq<Seq<char>> {
    n.children@.map_values(|c: RouteChild| c.name@)
}

/// Names in strictly increasing order.
pub open spec fn strictly_sorted(s: Seq<Seq<char>>) -> bool {
    forall|i: int, j: int| 0 <= i < j < s.len() ==> chars_lt(#[trigger] s[i], #[trigger] s[j])
}

/// `d` lies strictly below directory `p`.
pub open spec fn extends(d: Seq<Seq<char>>, p: Seq<Seq<char>>) -> bool {
    p.len() < d.len() && d.subrange(0, p.len() as int) == p
}

/// `name` is a subdirectory of `p` on the way to some directory of `ds`.
pub open spec fn is_next_name(ds: Seq<Seq<Seq<char>>>, p: Seq<Seq<char>>, name: Seq<char>) -> bool {
    exists|i: int| 0 <= i < ds.len() && extends(#[trigger] ds[i], p) && ds[i][p.len() as int] == name
}

/// The node describes directory `p` of the files, and so do its children,
/// which are exactly the subdirectories of `p` that lead to some file.
pub open spec fn tree_ok(n: RouteNode, r: FolderRouterRoutes, p: Seq<Seq<char>>) -> bool
    decreases n,
{
    &&& node_data_ok(n, r, p)
    &&& strictly_sorted(child_names(n))
    &&& forall|name: Seq<char>| child_names(n).contains(name) <==> is_next_name(all_dirs(r), p, name)
    &&& forall|i: int|
        0 <= i < n.children@.len() ==> tree_ok(
            #[trigger] n.children@[i].node,
            r,
            p.push(n.children@[i].name@),
        )
}


/// The views of a sequence of directory paths.
pub open spec fn dirs_views(v: Seq<Vec<String>>) -> Seq<Seq<Seq<char>>> {
    v.map_values(|d: Vec<String>| views(d@))
}

/// Whether two lists of strings are equal.
pub fn strings_eq(a: &Vec<String>, b: &Vec<String>) -> (r: bool)
    ensures
        r == (views(a@) == views(b@)),
{
    if a.len() != b.len() {
        return false;
    }
    let mut i: usize = 0;
    while i < a.len()
        invariant
            a.len() == b.len(),
            i <= a.len(),
            forall|j: int| 0 <= j < i ==> a@[j]@ == b@[j]@,
        decreases a.len() - i,
    {
        if a[i] != b[i] {
            assert(views(a@)[i as int] != views(b@)[i as int]);
            return false;
        }
        i = i + 1;
    }
    assert(views(a@) =~= views(b@));
    true
}

/// Whether directory `d` lies strictly below `p`.
pub fn has_dir_prefix(d: &Vec<String>, p: &Vec<String>) -> (r: bool)
    ensures
        r == extends(views(d@), views(p@)),
{
    if p.len() >= d.len() {
        return false;
    }
    let mut i: usize = 0;
    while i < p.len()
        invariant
            p.len() < d.len(),
            i <= p.len(),
            forall|j: int| 0 <= j < i ==> d@[j]@ == p@[j]@,
        decreases p.len() - i,
    {
        if d[i] != p[i] {
            assert(views(d@).subrange(0, p@.len() as int)[i as int] != views(p@)[i as int]);
            return false;
        }
        i = i + 1;
    }
    assert(views(d@).subrange(0, p@.len() as int) =~= views(p@));
    true
}

/// The directories of every route, middleware, fallback and intercept file.
pub fn collect_dirs(r: &FolderRouterRoutes) -> (ds: Vec<Vec<String>>)
    ensures
        dirs_views(ds@) == all_dirs(*r),
{
    let mut ds: Vec<Vec<String>> = Vec::new();
    let mut i: usize = 0;
    while i < r.routes.len()
        invariant
            i <= r.routes.len(),
            dirs_views(ds@) == route_dirs(r.routes@.subrange(0, i as int)),
        decreases r.routes.len() - i,
    {
        let ghost before = dirs_views(ds@);
        let d = dir_components(&r.routes[i].rel);
        ds.push(d);
        assert(dirs_views(ds@) =~= before.push(views(d@)));
        assert(route_dirs(r.routes@.subrange(0, i + 1)) =~= route_dirs(r.routes@.subrange(0, i as int)).push(views(d@)));
        i = i + 1;
        assert(dirs_views(ds@) =~= route_dirs(r.routes@.subrange(0, i as int)));
    }
    assert(r.routes@.subrange(0, r.routes@.len() as int) =~= r.routes@);
    let ghost a = dirs_views(ds@);
    let mut i: usize = 0;
    while i < r.middleware.len()
        invariant
            i <= r.middleware.len(),
            dirs_views(ds@) == a + kind_dirs(r.middleware@.subrange(0, i as int)),
        decreases r.middleware.len() - i,
    {
        let ghost before = dirs_views(ds@);
        let d = dir_components(&r.middleware[i].file.rel);
        ds.push(d);
        assert(dirs_views(ds@) =~= before.push(views(d@)));
        assert(kind_dirs(r.middleware@.subrange(0, i + 1)) =~= kind_dirs(r.middleware@.subrange(0, i as int)).push(views(d@)));
        i = i + 1;
        assert(dirs_views(ds@) =~= a + kind_dirs(r.middleware@.subrange(0, i as int)));
    }
    assert(r.middleware@.subrange(0, r.middleware@.len() as int) =~= r.middleware@);
    let ghost b = dirs_views(ds@);
    let mut i: usize = 0;
    while i < r.fallback.len()
        invariant
            i <= r.fallback.len(),
            dirs_views(ds@) == b + kind_dirs(r.fallback@.subrange(0, i as int)),
        decreases r.fallback.len() - i,
    {
        let ghost before = dirs_views(ds@);
        let d = dir_components(&r.fallback[i].file.rel);
        ds.push(d);
        assert(dirs_views(ds@) =~= before.push(views(d@)));
        assert(kind_dirs(r.fallback@.subrange(0, i + 1)) =~= kind_dirs(r.fallback@.subrange(0, i as int)).push(views(d@)));
        i = i + 1;
        assert(dirs_views(ds@) =~= b + kind_dirs(r.fallback@.subrange(0, i as int)));
    }
    assert(r.fallback@.subrange(0, r.fallback@.len() as int) =~= r.fallback@);
    let ghost c = dirs_views(ds@);
    let mut i: usize = 0;
    while i < r.intercept.len()
        invariant
            i <= r.intercept.len(),
            dirs_views(ds@) == c + intercept_dirs(r.intercept@.subrange(0, i as int)),
        decreases r.intercept.len() - i,
    {
        let ghost before = dirs_views(ds@);
        let d = dir_components(&r.intercept[i].file.rel);
        ds.push(d);
        assert(dirs_views(ds@) =~= before.push(views(d@)));
        assert(intercept_dirs(r.intercept@.subrange(0, i + 1)) =~= intercept_dirs(r.intercept@.subrange(0, i as int)).push(views(d@)));
        i = i + 1;
        assert(dirs_views(ds@) =~= c + intercept_dirs(r.intercept@.subrange(0, i as int)));
    }
    assert(r.intercept@.subrange(0, r.intercept@.len() as int) =~= r.intercept@);
    assert(dirs_views(ds@) =~= all_dirs(*r));
    ds
}

/// Inserts `x` into a strictly sorted list of names unless it is there.
pub fn insert_name(names: &mut Vec<String>, x: String)
    requires
        strictly_sorted(views(old(names)@)),
    ensures
        strictly_sorted(views(final(names)@)),
        forall|s: Seq<char>| views(final(names)@).contains(s) <==> (views(old(names)@).contains(s) || s == x@),
{
    let ghost v0 = views(names@);
    let mut k: usize = 0;
    while k < names.len() && string_less(&names[k], &x)
        invariant
            k <= names.len(),
            views(names@) == v0,
            forall|i: int| 0 <= i < k ==> chars_lt(#[trigger] v0[i], x@),
        decreases names.len() - k,
    {
        k = k + 1;
    }
    if k < names.len() && names[k] == x {
        assert(v0[k as int] == x@);
        return;
    }
    proof {
        if k < names@.len() {
            lemma_chars_lt_total(v0[k as int], x@);
        }
    }
    let ghost xv = x@;
    names.insert(k, x);
    proof {
        let v1 = views(names@);
        assert(v1 =~= v0.insert(k as int, xv));
        assert forall|i: int, j: int| 0 <= i < j < v1.len() implies chars_lt(#[trigger] v1[i], #[trigger] v1[j]) by {
            if j < k {
            } else if j == k {
            } else if i == k {
                if j - 1 > k {
                    lemma_chars_lt_trans(xv, v0[k as int], v0[j - 1]);
                }
            } else if i < k {
                assert(chars_lt(v0[i], xv));
                if j - 1 >= k as int {
                    if j - 1 == k {
                        lemma_chars_lt_trans(v0[i], xv, v0[k as int]);
                    } else {
                        lemma_chars_lt_trans(v0[i], xv, v0[k as int]);
                        lemma_chars_lt_trans(v0[i], v0[k as int], v0[j - 1]);
                    }
                }
            } else {
            }
        }
        assert forall|s: Seq<char>| v1.contains(s) <==> (v0.contains(s) || s == xv) by {
            if v1.contains(s) {
                let i = choose|i: int| 0 <= i < v1.len() && v1[i] == s;
                if i < k {
                    assert(v0[i] == s);
                } else if i > k {
                    assert(v0[i - 1] == s);
                }
            }
            if v0.contains(s) {
                let i = choose|i: int| 0 <= i < v0.len() && v0[i] == s;
                if i < k {
                    assert(v1[i] == s);
                } else {
                    assert(v1[i + 1] == s);
                }
            }
            if s == xv {
                assert(v1[k as int] == s);
            }
        }
    }
}

/// The subdirectories of `p`, sorted, that lead to some directory of `ds`.
pub fn next_names(ds: &Vec<Vec<String>>, p: &Vec<String>) -> (names: Vec<String>)
    ensures
        strictly_sorted(views(names@)),
        forall|s: Seq<char>| views(names@).contains(s) <==> is_next_name(dirs_views(ds@), views(p@), s),
{
    let mut names: Vec<String> = Vec::new();
    let mut i: usize = 0;
    while i < ds.len()
        invariant
            i <= ds.len(),
            strictly_sorted(views(names@)),
            forall|s: Seq<char>|
                views(names@).contains(s) <==> is_next_name(
                    dirs_views(ds@).subrange(0, i as int),
                    views(p@),
                    s,
                ),
        decreases ds.len() - i,
    {
        let ghost pre = dirs_views(ds@).subrange(0, i as int);
        let ghost nxt = dirs_views(ds@).subrange(0, i + 1);
        let ghost old_names = views(names@);
        if has_dir_prefix(&ds[i], p) {
            let name = ds[i][p.len()].clone();
            insert_name(&mut names, name);
            proof {
                assert forall|s: Seq<char>| views(names@).contains(s) <==> is_next_name(nxt, views(p@), s) by {
                    if is_next_name(nxt, views(p@), s) {
                        let j = choose|j: int| 0 <= j < nxt.len() && extends(#[trigger] nxt[j], views(p@)) && nxt[j][views(p@).len() as int] == s;
                        if j < i {
                            assert(pre[j] == nxt[j]);
                            assert(is_next_name(pre, views(p@), s));
                        }
                    }
                    if is_next_name(pre, views(p@), s) {
                        let j = choose|j: int| 0 <= j < pre.len() && extends(#[trigger] pre[j], views(p@)) && pre[j][views(p@).len() as int] == s;
                        assert(nxt[j] == pre[j]);
                    }
                    if s == views(ds@[i as int]@)[p@.len() as int] {
                        assert(nxt[i as int] == views(ds@[i as int]@));
                    }
                }
            }
        } else {
            proof {
                assert forall|s: Seq<char>| views(names@).contains(s) <==> is_next_name(nxt, views(p@), s) by {
                    if is_next_name(nxt, views(p@), s) {
                        let j = choose|j: int| 0 <= j < nxt.len() && extends(#[trigger] nxt[j], views(p@)) && nxt[j][views(p@).len() as int] == s;
                        if j < i {
                            assert(pre[j] == nxt[j]);
                        } else {
                            assert(nxt[j] == views(ds@[i as int]@));
                        }
                    }
                    if is_next_name(pre, views(p@), s) {
                        let j = choose|j: int| 0 <= j < pre.len() && extends(#[trigger] pre[j], views(p@)) && pre[j][views(p@).len() as int] == s;
                        assert(nxt[j] == pre[j]);
                    }
                }
            }
        }
        i = i + 1;
    }
    assert(dirs_views(ds@).subrange(0, ds@.len() as int) =~= dirs_views(ds@));
    names
}


/// A copy of a list of strings.
pub fn clone_strings(v: &Vec<String>) -> (r: Vec<String>)
    ensures
        r@ == v@,
{
    let mut r: Vec<String> = Vec::new();
    let mut i: usize = 0;
    while i < v.len()
        invariant
            i <= v.len(),
            r@ == v@.subrange(0, i as int),
        decreases v.len() - i,
    {
        r.push(v[i].clone());
        i = i + 1;
        assert(r@ =~= v@.subrange(0, i as int));
    }
    assert(v@.subrange(0, v@.len() as int) =~= v@);
    r
}

/// The index of the last directory of `ds[lo..hi]` equal to `p`.
pub fn last_dir_match(ds: &Vec<Vec<String>>, lo: usize, hi: usize, p: &Vec<String>) -> (r: Option<usize>)
    requires
        lo <= hi <= ds.len(),
    ensures
        match r {
            None => last_index_at(dirs_views(ds@).subrange(lo as int, hi as int), views(p@)) < 0,
            Some(k) => lo <= k < hi && k - lo == last_index_at(
                dirs_views(ds@).subrange(lo as int, hi as int),
                views(p@),
            ),
        },
{
    let mut found: Option<usize> = None;
    let mut i: usize = lo;
    while i < hi
        invariant
            lo <= i <= hi <= ds.len(),
            match found {
                None => last_index_at(dirs_views(ds@).subrange(lo as int, i as int), views(p@)) < 0,
                Some(k) => lo <= k < i && k - lo == last_index_at(
                    dirs_views(ds@).subrange(lo as int, i as int),
                    views(p@),
                ),
            },
        decreases hi - i,
    {
        let ghost pre = dirs_views(ds@).subrange(lo as int, i as int);
        let ghost nxt = dirs_views(ds@).subrange(lo as int, i + 1);
        assert(nxt.drop_last() =~= pre);
        if strings_eq(&ds[i], p) {
            found = Some(i);
        }
        i = i + 1;
    }
    found
}

/// An upper bound on the lengths of the directories.
proof fn max_dir_len(ds: Seq<Seq<Seq<char>>>) -> (m: nat)
    ensures
        forall|i: int| 0 <= i < ds.len() ==> (#[trigger] ds[i]).len() <= m,
    decreases ds.len(),
{
    if ds.len() == 0 {
        0
    } else {
        let m0 = max_dir_len(ds.drop_last());
        let m = if ds.last().len() > m0 { ds.last().len() } else { m0 };
        assert forall|i: int| 0 <= i < ds.len() implies (#[trigger] ds[i]).len() <= m by {
            if i < ds.len() - 1 {
                assert(ds[i] == ds.drop_last()[i]);
            }
        }
        m
    }
}

/// Builds the node of directory `p` and, recursively, its subdirectories.
fn build_node(
    r: &FolderRouterRoutes,
    ds: &Vec<Vec<String>>,
    p: &Vec<String>,
    mod_segments: Vec<String>,
    Ghost(bound): Ghost<nat>,
) -> (n: RouteNode)
    requires
        dirs_views(ds@) == all_dirs(*r),
        views(mod_segments@) == module_names(views(p@)),
        forall|i: int| 0 <= i < ds@.len() ==> (#[trigger] dirs_views(ds@)[i]).len() <= bound,
        p@.len() <= bound,
    ensures
        tree_ok(n, *r, views(p@)),
    decreases bound - p@.len(),
{
    let ghost pv = views(p@);
    let ghost all = all_dirs(*r);
    let nr = r.routes.len();
    let nm = r.middleware.len();
    let nf = r.fallback.len();
    let ni = r.intercept.len();
    assert(all.len() == nr + nm + nf + ni);
    assert(dirs_views(ds@).len() == ds@.len());
    assert(nr + nm + nf + ni <= ds.len());
    assert(all.subrange(0, nr as int) =~= route_dirs(r.routes@));
    assert(all.subrange(nr as int, (nr + nm) as int) =~= kind_dirs(r.middleware@));
    assert(all.subrange((nr + nm) as int, (nr + nm + nf) as int) =~= kind_dirs(r.fallback@));
    assert(all.subrange((nr + nm + nf) as int, (nr + nm + nf + ni) as int) =~= intercept_dirs(
        r.intercept@,
    ));
    let route = match last_dir_match(ds, 0, nr, p) {
        None => None,
        Some(k) => Some(
            RouteEntry {
                mod_path: path_to_module_path(&r.routes[k].rel),
                methods: methods_for_route(&r.routes[k].items),
            },
        ),
    };
    let middleware = match last_dir_match(ds, nr, nr + nm, p) {
        None => None,
        Some(k) => Some(r.middleware[k - nr].kind),
    };
    let fallback = match last_dir_match(ds, nr + nm, nr + nm + nf, p) {
        None => None,
        Some(k) => Some(r.fallback[k - nr - nm].kind),
    };
    let intercept = match last_dir_match(ds, nr + nm + nf, nr + nm + nf + ni, p) {
        None => None,
        Some(k) => {
            let f = &r.intercept[k - nr - nm - nf];
            Some(InterceptSig { params: copy_types(&f.sig.params), stateful: f.sig.stateful })
        },
    };
    let names = next_names(ds, p);
    let mut children: Vec<RouteChild> = Vec::new();
    let mut j: usize = 0;
    while j < names.len()
        invariant
            j <= names.len(),
            children@.len() == j,
            dirs_views(ds@) == all_dirs(*r),
            views(mod_segments@) == module_names(views(p@)),
            forall|i: int| 0 <= i < ds@.len() ==> (#[trigger] dirs_views(ds@)[i]).len() <= bound,
            p@.len() <= bound,
            forall|s: Seq<char>| views(names@).contains(s) <==> is_next_name(dirs_views(ds@), views(p@), s),
            forall|k: int| 0 <= k < j ==> (#[trigger] children@[k]).name@ == names@[k]@,
            forall|k: int|
                0 <= k < j ==> tree_ok(
                    (#[trigger] children@[k]).node,
                    *r,
                    views(p@).push(children@[k].name@),
                ),
        decreases names.len() - j,
    {
        proof {
            assert(views(names@).contains(names@[j as int]@)) by {
                assert(views(names@)[j as int] == names@[j as int]@);
            }
            let w = choose|w: int|
                0 <= w < dirs_views(ds@).len() && extends(#[trigger] dirs_views(ds@)[w], views(p@))
                    && dirs_views(ds@)[w][views(p@).len() as int] == names@[j as int]@;
            assert(dirs_views(ds@)[w].len() <= bound);
        }
        let name = names[j].clone();
        let mut child_p = clone_strings(p);
        child_p.push(names[j].clone());
        let mut child_mods = clone_strings(&mod_segments);
        let m = normalize_module_name(&names[j]);
        let ghost mods0 = views(child_mods@);
        child_mods.push(m);
        assert(views(child_p@) =~= views(p@).push(names@[j as int]@));
        assert(views(child_mods@) =~= mods0.push(m@));
        assert(module_names(views(child_p@)) =~= module_names(views(p@)).push(m@));
        assert(views(child_mods@) =~= module_names(views(child_p@)));
        let node = build_node(r, ds, &child_p, child_mods, Ghost(bound));
        children.push(RouteChild { name, node });
        j = j + 1;
    }
    let n = RouteNode { children, route, middleware, fallback, intercept, mod_segments };
    proof {
        assert(child_names(n) =~= views(names@));
        assert forall|i: int| 0 <= i < n.children@.len() implies tree_ok(
            #[trigger] n.children@[i].node,
            *r,
            views(p@).push(n.children@[i].name@),
        ) by {}
    }
    n
}

/// Builds the route tree of the validated files: every node describes its
/// directory (see [`tree_ok`]).
pub fn build_route_tree(r: &FolderRouterRoutes) -> (root: RouteNode)
    ensures
        tree_ok(root, *r, seq![]),
{
    let ds = collect_dirs(r);
    let ghost bound = max_dir_len(dirs_views(ds@));
    let p: Vec<String> = Vec::new();
    let mods: Vec<String> = Vec::new();
    assert(views(p@) =~= seq![]);
    assert(views(mods@) =~= module_names(views(p@)));
    build_node(r, &ds, &p, mods, Ghost(bound))
}


/// Whether the subtree defines a `middleware.rs`, `fallback.rs` or
/// `intercept.rs`, i.e. is a boundary built as its own router.
pub open spec fn has_boundary(n: RouteNode) -> bool
    decreases n,
{
    ||| n.middleware is Some
    ||| n.fallback is Some
    ||| n.intercept is Some
    ||| exists|i: int| 0 <= i < n.children@.len() && has_boundary(#[trigger] n.children@[i].node)
}

/// Whether the subtree defines a `fallback.rs`.
pub open spec fn has_fallback(n: RouteNode) -> bool
    decreases n,
{
    ||| n.fallback is Some
    ||| exists|i: int| 0 <= i < n.children@.len() && has_fallback(#[trigger] n.children@[i].node)
}

/// Whether a child subtree defines a `fallback.rs`.
pub open spec fn child_has_fallback(n: RouteNode) -> bool {
    exists|i: int| 0 <= i < n.children@.len() && has_fallback(#[trigger] n.children@[i].node)
}

/// Whether the subtree has a state-aware middleware, fallback or intercept.
pub open spec fn needs_state(n: RouteNode) -> bool
    decreases n,
{
    ||| n.middleware == Some(MiddlewareKind::Stateful)
    ||| n.fallback == Some(MiddlewareKind::Stateful)
    ||| (n.intercept matches Some(sig) && sig.stateful)
    ||| exists|i: int| 0 <= i < n.children@.len() && needs_state(#[trigger] n.children@[i].node)
}

/// Whether the subtree registers at least one verb handler.
pub open spec fn has_registration(n: RouteNode) -> bool
    decreases n,
{
    ||| (n.route matches Some(e) && e.methods@.len() > 0)
    ||| exists|i: int| 0 <= i < n.children@.len() && has_registration(#[trigger] n.children@[i].node)
}

/// Whether the subtree defines a `middleware.rs`/`fallback.rs`/`intercept.rs`
/// (see [`has_boundary`]).
pub fn subtree_has_boundary(node: &RouteNode) -> (b: bool)
    ensures
        b == has_boundary(*node),
    decreases *node,
{
    if node.middleware.is_some() || node.fallback.is_some() || node.intercept.is_some() {
        return true;
    }
    let mut i: usize = 0;
    while i < node.children.len()
        invariant
            i <= node.children.len(),
            forall|j: int| 0 <= j < i ==> !has_boundary(#[trigger] node.children@[j].node),
        decreases node.children.len() - i,
    {
        if subtree_has_boundary(&node.children[i].node) {
            return true;
        }
        i = i + 1;
    }
    false
}

/// Whether the subtree defines a `fallback.rs`.
pub fn subtree_has_fallback(node: &RouteNode) -> (b: bool)
    ensures
        b == has_fallback(*node),
    decreases *node,
{
    if node.fallback.is_some() {
        return true;
    }
    let mut i: usize = 0;
    while i < node.children.len()
        invariant
            i <= node.children.len(),
            forall|j: int| 0 <= j < i ==> !has_fallback(#[trigger] node.children@[j].node),
        decreases node.children.len() - i,
    {
        if subtree_has_fallback(&node.children[i].node) {
            return true;
        }
        i = i + 1;
    }
    false
}

/// Whether a child subtree defines a `fallback.rs`.
pub fn children_have_fallback(node: &RouteNode) -> (b: bool)
    ensures
        b == child_has_fallback(*node),
{
    let mut i: usize = 0;
    while i < node.children.len()
        invariant
            i <= node.children.len(),
            forall|j: int| 0 <= j < i ==> !has_fallback(#[trigger] node.children@[j].node),
        decreases node.children.len() - i,
    {
        if subtree_has_fallback(&node.children[i].node) {
            return true;
        }
        i = i + 1;
    }
    false
}

/// Whether the subtree has a state-aware middleware, fallback or intercept;
/// if so only `into_router_with_state` can build the router.
pub fn tree_needs_state(node: &RouteNode) -> (b: bool)
    ensures
        b == needs_state(*node),
    decreases *node,
{
    if node.middleware == Some(MiddlewareKind::Stateful) || node.fallback == Some(
        MiddlewareKind::Stateful,
    ) {
        return true;
    }
    match &node.intercept {
        Some(sig) => {
            if sig.stateful {
                return true;
            }
        },
        None => {},
    }
    let mut i: usize = 0;
    while i < node.children.len()
        invariant
            i <= node.children.len(),
            !(node.middleware == Some(MiddlewareKind::Stateful)),
            !(node.fallback == Some(MiddlewareKind::Stateful)),
            !(node.intercept matches Some(sig) && sig.stateful),
            forall|j: int| 0 <= j < i ==> !needs_state(#[trigger] node.children@[j].node),
        decreases node.children.len() - i,
    {
        if tree_needs_state(&node.children[i].node) {
            return true;
        }
        i = i + 1;
    }
    false
}

/// Whether the subtree registers at least one verb handler.
pub fn has_any_registration(node: &RouteNode) -> (b: bool)
    ensures
        b == has_registration(*node),
    decreases *node,
{
    match &node.route {
        Some(e) => {
            if e.methods.len() > 0 {
                return true;
            }
        },
        None => {},
    }
    let mut i: usize = 0;
    while i < node.children.len()
        invariant
            i <= node.children.len(),
            !(node.route matches Some(e) && e.methods@.len() > 0),
            forall|j: int| 0 <= j < i ==> !has_registration(#[trigger] node.children@[j].node),
        decreases node.children.len() - i,
    {
        if has_any_registration(&node.children[i].node) {
            return true;
        }
        i = i + 1;
    }
    false
}

/// A fallback in scope: the module path of its `fallback` function and how it
/// consumes state.
#[derive(Debug)]
pub struct FallbackRef {
    pub fn_path: Vec<String>,
    pub kind: MiddlewareKind,
}

/// The view of a fallback in scope.
pub open spec fn fb_view(f: Option<FallbackRef>) -> Option<(Seq<Seq<char>>, MiddlewareKind)> {
    match f {
        Some(x) => Some((views(x.fn_path@), x.kind)),
        None => None,
    }
}

/// A copy of a fallback in scope.
pub fn clone_fallback(f: &Option<FallbackRef>) -> (r: Option<FallbackRef>)
    ensures
        fb_view(r) == fb_view(*f),
{
    match f {
        Some(x) => Some(FallbackRef { fn_path: clone_strings(&x.fn_path), kind: x.kind }),
        None => None,
    }
}

/// The module path of a directory's own module `file` (`fallback`,
/// `intercept`, `middleware`).
pub open spec fn own_module_path(n: RouteNode, file: Seq<char>) -> Seq<Seq<char>> {
    views(n.mod_segments@).push(file)
}

/// The fallback a boundary directory applies: its own `fallback.rs`, else the
/// inherited one.
pub open spec fn effective_fallback(n: RouteNode, inherited: Option<(Seq<Seq<char>>, MiddlewareKind)>) -> Option<(Seq<Seq<char>>, MiddlewareKind)> {
    match n.fallback {
        Some(k) => Some((own_module_path(n, "fallback"@), k)),
        None => inherited,
    }
}

/// The route statement of a directory's own `route.rs`, if it has verbs.
pub open spec fn route_stmts_v(n: RouteNode, base: Seq<Seq<char>>) -> Seq<StmtV> {
    match n.route {
        Some(e) => if e.methods@.len() > 0 {
            seq![StmtV::Route { path: url_of(base), mod_path: views(e.mod_path@), methods: e.methods@ }]
        } else {
            seq![]
        },
        None => seq![],
    }
}

/// An intercept parameter as reproduced on the generated layer: the request
/// and `State<T>` fully qualified, anything else verbatim.
pub open spec fn param_of_ty(ty: TypeV) -> ParamV {
    if is_request_ty(ty) {
        ParamV::Request
    } else if is_state_ty(ty) && first_type_arg_of(ty) is Some {
        ParamV::State(first_type_arg_of(ty)->0)
    } else {
        ParamV::Verbatim(ty)
    }
}

/// The intercept parameters reproduced on the generated layer.
pub open spec fn intercept_params_v(ps: Seq<TypeV>) -> Seq<ParamV> {
    ps.map_values(|p: TypeV| param_of_ty(p))
}

/// The statements for the first `k` children of a directory, with URL
/// segments `base` accumulated since the enclosing boundary: a boundary child
/// is mounted as its own router at its prefix (unless the prefix has a
/// catch-all, which axum forbids), any other child is inlined.
pub open spec fn emit_children_v(
    n: RouteNode,
    k: int,
    base: Seq<Seq<char>>,
    fb: Option<(Seq<Seq<char>>, MiddlewareKind)>,
) -> Seq<StmtV>
    decreases n, 0int, k,
{
    if k <= 0 || k > n.children@.len() {
        seq![]
    } else {
        let prev = emit_children_v(n, k - 1, base, fb);
        let cb = base.push(url_segment_of(n.children@[k - 1].name@));
        if has_boundary(n.children@[k - 1].node) {
            if any_catchall(cb) {
                prev
            } else {
                prev.push(
                    StmtV::Nest { prefix: url_of(cb), router: boundary_v(n.children@[k - 1].node, fb) },
                )
            }
        } else {
            prev + emit_v(n.children@[k - 1].node, cb, fb)
        }
    }
}

/// The statements registering a directory: its own `route.rs`, then its
/// children in order.
pub open spec fn emit_v(
    n: RouteNode,
    base: Seq<Seq<char>>,
    fb: Option<(Seq<Seq<char>>, MiddlewareKind)>,
) -> Seq<StmtV>
    decreases n, 1int, 0int,
{
    route_stmts_v(n, base) + emit_children_v(n, n.children@.len() as int, base, fb)
}

/// The router of a boundary directory: its registrations (children inherit
/// the effective fallback), then that fallback (or a plain 404 when none is in
/// scope but a descendant has its own), then its intercept layer, then its
/// middleware.
pub open spec fn boundary_v(n: RouteNode, inherited: Option<(Seq<Seq<char>>, MiddlewareKind)>) -> Seq<StmtV>
    decreases n, 2int, 0int,
{
    let eff = effective_fallback(n, inherited);
    let body = emit_v(n, seq![], eff);
    let with_fb = match eff {
        Some(f) => body.push(StmtV::Fallback { fn_path: f.0, kind: f.1 }),
        None => if child_has_fallback(n) {
            body.push(StmtV::NotFound)
        } else {
            body
        },
    };
    let with_ic = match n.intercept {
        Some(sig) => with_fb.push(
            StmtV::Intercept {
                fn_path: own_module_path(n, "intercept"@),
                params: intercept_params_v(tviews(sig.params@)),
                stateful: sig.stateful,
            },
        ),
        None => with_fb,
    };
    match n.middleware {
        Some(k) => with_ic.push(StmtV::Middleware { fn_path: own_module_path(n, "middleware"@), kind: k }),
        None => with_ic,
    }
}

/// An intercept parameter type as reproduced on the generated layer, see
/// [`param_of_ty`].
pub fn requalify_intercept_type(ty: &RustType) -> (r: InterceptParam)
    ensures
        param_view(r) == param_of_ty(ty@),
{
    if is_request_type(ty) {
        return InterceptParam::Request;
    }
    if is_state_type(ty) {
        match first_generic_type(ty) {
            Some(inner) => {
                return InterceptParam::State { inner };
            },
            None => {},
        }
    }
    InterceptParam::Verbatim { ty: copy_type(ty) }
}

/// The intercept parameters reproduced on the generated layer.
pub fn requalify_intercept_params(ps: &Vec<RustType>) -> (r: Vec<InterceptParam>)
    ensures
        params_view(r@) == intercept_params_v(tviews(ps@)),
{
    let mut r: Vec<InterceptParam> = Vec::new();
    let mut i: usize = 0;
    while i < ps.len()
        invariant
            i <= ps.len(),
            r@.len() == i,
            forall|j: int| 0 <= j < i ==> param_view(#[trigger] r@[j]) == param_of_ty(ps@[j]@),
        decreases ps.len() - i,
    {
        r.push(requalify_intercept_type(&ps[i]));
        i = i + 1;
    }
    assert(params_view(r@) =~= intercept_params_v(tviews(ps@)));
    r
}

/// The statements registering `node` (see [`emit_v`]).
pub fn emit_into(node: &RouteNode, base: &Vec<String>, current_fb: &Option<FallbackRef>) -> (r: Vec<RouterStmt>)
    ensures
        stmts_view(r@) == emit_v(*node, views(base@), fb_view(*current_fb)),
    decreases *node, 1int, 0int,
{
    let ghost bv = views(base@);
    let ghost fv = fb_view(*current_fb);
    let mut body: Vec<RouterStmt> = Vec::new();
    match &node.route {
        Some(e) => {
            if e.methods.len() > 0 {
                let path = url_from(base);
                body.push(RouterStmt::Route { path, mod_path: clone_strings(&e.mod_path), methods: e.methods.clone() });
            }
        },
        None => {},
    }
    proof {
        lemma_stmts_view(body@);
        assert(stmts_view(body@) =~= route_stmts_v(*node, bv));
    }
    let mut i: usize = 0;
    while i < node.children.len()
        invariant
            i <= node.children.len(),
            bv == views(base@),
            fv == fb_view(*current_fb),
            stmts_view(body@) == route_stmts_v(*node, bv) + emit_children_v(*node, i as int, bv, fv),
        decreases node.children.len() - i,
    {
        let child = &node.children[i];
        let mut cb = clone_strings(base);
        let seg = dir_url_segment(&child.name);
        cb.push(seg);
        assert(views(cb@) =~= bv.push(url_segment_of(child.name@)));
        let ghost before = body@;
        let ghost prev = emit_children_v(*node, i as int, bv, fv);
        let ghost cbv = bv.push(url_segment_of(child.name@));
        assert(child == node.children@[i as int]);
        if subtree_has_boundary(&child.node) {
            if has_catchall(&cb) {
                assert(emit_children_v(*node, i + 1, bv, fv) == prev);
            } else {
                let prefix = url_from(&cb);
                let router = boundary_router(&child.node, current_fb);
                let st = RouterStmt::Nest { prefix, router };
                let ghost sv = stmt_view(st);
                body.push(st);
                proof {
                    assert(body@.drop_last() =~= before);
                    assert(stmts_view(body@) == stmts_view(before).push(sv));
                    assert(sv == StmtV::Nest { prefix: url_of(cbv), router: boundary_v(child.node, fv) });
                    assert(emit_children_v(*node, i + 1, bv, fv) == prev.push(sv));
                    assert(stmts_view(body@) =~= route_stmts_v(*node, bv) + emit_children_v(*node, i + 1, bv, fv));
                }
            }
        } else {
            let mut sub = emit_into(&child.node, &cb, current_fb);
            let ghost subv = sub@;
            body.append(&mut sub);
            proof {
                assert(body@ =~= before + subv);
                lemma_stmts_view_add(before, subv);
                assert(emit_children_v(*node, i + 1, bv, fv) == prev + emit_v(child.node, cbv, fv));
                assert(stmts_view(body@) =~= route_stmts_v(*node, bv) + emit_children_v(*node, i + 1, bv, fv));
            }
        }
        i = i + 1;
    }
    body
}

/// The router block of a boundary directory (see [`boundary_v`]).
pub fn boundary_router(node: &RouteNode, inherited_fb: &Option<FallbackRef>) -> (r: RouterBlock)
    ensures
        block_view(r) == boundary_v(*node, fb_view(*inherited_fb)),
    decreases *node, 2int, 0int,
{
    let eff: Option<FallbackRef> = match node.fallback {
        Some(kind) => {
            let mut fn_path = clone_strings(&node.mod_segments);
            fn_path.push(String::from_str("fallback"));
            assert(views(fn_path@) =~= own_module_path(*node, "fallback"@));
            Some(FallbackRef { fn_path, kind })
        },
        None => clone_fallback(inherited_fb),
    };
    let ghost effv = effective_fallback(*node, fb_view(*inherited_fb));
    assert(fb_view(eff) == effv);
    let empty: Vec<String> = Vec::new();
    assert(views(empty@) =~= Seq::<Seq<char>>::empty());
    let mut body = emit_into(node, &empty, &eff);
    let ghost b0 = body@;
    let ghost body_v = emit_v(*node, seq![], effv);
    let ghost with_fb = match effv {
        Some(f) => body_v.push(StmtV::Fallback { fn_path: f.0, kind: f.1 }),
        None => if child_has_fallback(*node) {
            body_v.push(StmtV::NotFound)
        } else {
            body_v
        },
    };
    match &eff {
        Some(f) => {
            let st = RouterStmt::Fallback { fn_path: clone_strings(&f.fn_path), kind: f.kind };
            let ghost sv = stmt_view(st);
            body.push(st);
            assert(body@.drop_last() =~= b0);
            assert(stmts_view(body@) == stmts_view(b0).push(sv));
            assert(effv == Some((views(f.fn_path@), f.kind)));
        },
        None => {
            if children_have_fallback(node) {
                let st = RouterStmt::NotFound;
                let ghost sv = stmt_view(st);
                body.push(st);
                assert(body@.drop_last() =~= b0);
                assert(stmts_view(body@) == stmts_view(b0).push(sv));
                assert(sv == StmtV::NotFound);
            }
        },
    }
    assert(stmts_view(body@) == with_fb);
    let ghost b1 = body@;
    let ghost with_ic = match &node.intercept {
        Some(sig) => with_fb.push(
            StmtV::Intercept {
                fn_path: own_module_path(*node, "intercept"@),
                params: intercept_params_v(tviews(sig.params@)),
                stateful: sig.stateful,
            },
        ),
        None => with_fb,
    };
    match &node.intercept {
        Some(sig) => {
            let mut fn_path = clone_strings(&node.mod_segments);
            fn_path.push(String::from_str("intercept"));
            assert(views(fn_path@) =~= own_module_path(*node, "intercept"@));
            let params = requalify_intercept_params(&sig.params);
            let st = RouterStmt::Intercept { fn_path, params, stateful: sig.stateful };
            let ghost sv = stmt_view(st);
            body.push(st);
            assert(body@.drop_last() =~= b1);
            assert(stmts_view(body@) == stmts_view(b1).push(sv));
        },
        None => {},
    }
    assert(stmts_view(body@) == with_ic);
    let ghost b2 = body@;
    match node.middleware {
        Some(kind) => {
            let mut fn_path = clone_strings(&node.mod_segments);
            fn_path.push(String::from_str("middleware"));
            assert(views(fn_path@) =~= own_module_path(*node, "middleware"@));
            let st = RouterStmt::Middleware { fn_path, kind };
            let ghost sv = stmt_view(st);
            body.push(st);
            assert(body@.drop_last() =~= b2);
            assert(stmts_view(body@) == stmts_view(b2).push(sv));
        },
        None => {},
    }
    RouterBlock { stmts: body }
}


/// The error reported for a boundary subtree nested at a catch-all prefix.
pub open spec fn catchall_message(prefix: Seq<char>) -> Seq<char> {
    "a `middleware.rs`/`fallback.rs` subtree cannot be nested at a catch-all path ('"@ + prefix
        + "'): axum forbids wildcards in a `nest` prefix. Move the middleware/fallback out of the catch-all directory."@
}

/// The catch-all errors for the first `k` children of a directory; `base`
/// holds the URL segments since the enclosing boundary, which resets the
/// prefix.
pub open spec fn catchall_children_v(n: RouteNode, k: int, base: Seq<Seq<char>>) -> Seq<Seq<char>>
    decreases n, 0int, k,
{
    if k <= 0 || k > n.children@.len() {
        seq![]
    } else {
        let prev = catchall_children_v(n, k - 1, base);
        let cb = base.push(url_segment_of(n.children@[k - 1].name@));
        if has_boundary(n.children@[k - 1].node) {
            let own = if any_catchall(cb) {
                seq![catchall_message(url_of(cb))]
            } else {
                seq![]
            };
            prev + own + catchall_v(n.children@[k - 1].node, seq![])
        } else {
            prev + catchall_v(n.children@[k - 1].node, cb)
        }
    }
}

/// The catch-all errors of a subtree: one per boundary whose mount prefix
/// contains a catch-all segment.
pub open spec fn catchall_v(n: RouteNode, base: Seq<Seq<char>>) -> Seq<Seq<char>>
    decreases n, 1int, 0int,
{
    catchall_children_v(n, n.children@.len() as int, base)
}

/// The error for a boundary subtree nested at a catch-all prefix.
pub fn catchall_error(prefix: &String) -> (m: String)
    ensures
        m@ == catchall_message(prefix@),
{
    let mut m = String::from_str(
        "a `middleware.rs`/`fallback.rs` subtree cannot be nested at a catch-all path ('",
    );
    m.append(prefix.as_str());
    m.append(
        "'): axum forbids wildcards in a `nest` prefix. Move the middleware/fallback out of the catch-all directory.",
    );
    m
}

/// Reports every boundary subtree whose mount prefix contains a catch-all
/// (see [`catchall_v`]).
pub fn check_catchall(node: &RouteNode, base: &Vec<String>, errors: &mut Vec<String>)
    ensures
        views(final(errors)@) == views(old(errors)@) + catchall_v(*node, views(base@)),
    decreases *node, 1int, 0int,
{
    let ghost bv = views(base@);
    let ghost start = views(errors@);
    let mut i: usize = 0;
    while i < node.children.len()
        invariant
            i <= node.children.len(),
            bv == views(base@),
            views(errors@) == start + catchall_children_v(*node, i as int, bv),
        decreases node.children.len() - i,
    {
        let child = &node.children[i];
        assert(child == node.children@[i as int]);
        let mut cb = clone_strings(base);
        cb.push(dir_url_segment(&child.name));
        let ghost cbv = bv.push(url_segment_of(child.name@));
        assert(views(cb@) =~= cbv);
        let ghost e0 = views(errors@);
        if subtree_has_boundary(&child.node) {
            if has_catchall(&cb) {
                let prefix = url_from(&cb);
                errors.push(catchall_error(&prefix));
                assert(views(errors@) =~= e0 + seq![catchall_message(url_of(cbv))]);
            } else {
                assert(views(errors@) =~= e0 + Seq::<Seq<char>>::empty());
            }
            let ghost e1 = views(errors@);
            let empty: Vec<String> = Vec::new();
            assert(views(empty@) =~= Seq::<Seq<char>>::empty());
            check_catchall(&child.node, &empty, errors);
            assert(views(errors@) =~= start + catchall_children_v(*node, i + 1, bv));
        } else {
            check_catchall(&child.node, &cb, errors);
            assert(views(errors@) =~= start + catchall_children_v(*node, i + 1, bv));
        }
        i = i + 1;
    }
}

/// The error reported when no `route.rs` registers a verb handler.
pub open spec fn no_routes_message() -> Seq<char> {
    "No routes defined in your route.rs's !\nEnsure that at least one `pub async fn` named after an HTTP verb is defined. (e.g. get, post, put, delete)"@
}

/// Whether a subdirectory of the root is (or contains) a boundary.
pub open spec fn nested_boundary(root: RouteNode) -> bool {
    exists|i: int| 0 <= i < root.children@.len() && has_boundary(#[trigger] root.children@[i].node)
}

/// The router implementation: the root router's statements and whether the
/// state-free `into_router()` is generated besides `into_router_with_state`.
#[derive(Debug)]
pub struct RouterImpl {
    pub router: RouterBlock,
    pub into_router: bool,
}

/// The errors `router_impl` reports for a route tree.
pub open spec fn router_errors_v(root: RouteNode) -> Seq<Seq<char>> {
    (if has_registration(root) {
        seq![]
    } else {
        seq![no_routes_message()]
    }) + catchall_v(root, seq![])
}

/// The router plan of a route tree: the root boundary router (no inherited
/// fallback), and `into_router()` only when nothing needs the state value
/// and no subdirectory is a nested boundary (those are mounted as services,
/// which need their state at construction).
pub fn router_plan(errors: &mut Vec<String>, root: &RouteNode) -> (r: RouterImpl)
    ensures
        block_view(r.router) == boundary_v(*root, None),
        r.into_router == (!needs_state(*root) && !nested_boundary(*root)),
        views(final(errors)@) == views(old(errors)@) + router_errors_v(*root),
{
    let ghost start = views(errors@);
    if !has_any_registration(root) {
        errors.push(String::from_str(
            "No routes defined in your route.rs's !\nEnsure that at least one `pub async fn` named after an HTTP verb is defined. (e.g. get, post, put, delete)",
        ));
        assert(views(errors@) =~= start + seq![no_routes_message()]);
    } else {
        assert(views(errors@) =~= start + Seq::<Seq<char>>::empty());
    }
    let empty: Vec<String> = Vec::new();
    assert(views(empty@) =~= Seq::<Seq<char>>::empty());
    check_catchall(root, &empty, errors);
    assert(views(errors@) =~= start + router_errors_v(*root));
    let router = boundary_router(root, &None);
    let mut nested = false;
    let mut i: usize = 0;
    while i < root.children.len()
        invariant
            i <= root.children.len(),
            nested == exists|j: int| 0 <= j < i && has_boundary(#[trigger] root.children@[j].node),
        decreases root.children.len() - i,
    {
        if subtree_has_boundary(&root.children[i].node) {
            nested = true;
        }
        i = i + 1;
    }
    let into_router = !tree_needs_state(root) && !nested;
    RouterImpl { router, into_router }
}

/// Builds the route tree of the files and its router plan (see
/// [`router_plan`]).
pub fn router_impl(errors: &mut Vec<String>, routes: &FolderRouterRoutes) -> (r: RouterImpl)
    ensures
        exists|root: RouteNode|
            {
                &&& tree_ok(root, *routes, seq![])
                &&& block_view(r.router) == boundary_v(root, None)
                &&& r.into_router == (!needs_state(root) && !nested_boundary(root))
                &&& views(final(errors)@) == views(old(errors)@) + router_errors_v(root)
            },
        names_nonempty(*routes) ==> routes_at_their_urls(block_view(r.router), routes.routes@),
        names_nonempty(*routes) ==> fallbacks_most_specific(block_view(r.router), *routes),
        names_nonempty(*routes) ==> layers_scoped(block_view(r.router), *routes),
        names_nonempty(*routes) && route_dirs_distinct(*routes) && views(final(errors)@) == views(
            old(errors)@,
        ) ==> forall|i: int|
            0 <= i < routes.routes@.len() && route_methods(items_of(routes.routes@[i])).len() > 0
                ==> #[trigger] route_served(block_view(r.router), routes.routes@[i]),
        names_nonempty(*routes) && route_dirs_distinct(*routes) && views(final(errors)@) == views(
            old(errors)@,
        ) ==> layers_cover(block_view(r.router), *routes),
        forall|i: int|
            0 <= i < routes.intercept@.len() && (#[trigger] routes.intercept@[i]).sig.stateful
                && last_index_at(intercept_dirs(routes.intercept@), dir_path(routes.intercept@[i].file.rel@))
                == i ==> !r.into_router,
        forall|i: int|
            0 <= i < routes.middleware@.len() && (#[trigger] routes.middleware@[i]).kind
                == MiddlewareKind::Stateful && last_index_at(
                kind_dirs(routes.middleware@),
                dir_path(routes.middleware@[i].file.rel@),
            ) == i ==> !r.into_router,
        forall|i: int|
            0 <= i < routes.fallback@.len() && (#[trigger] routes.fallback@[i]).kind
                == MiddlewareKind::Stateful && last_index_at(
                kind_dirs(routes.fallback@),
                dir_path(routes.fallback@[i].file.rel@),
            ) == i ==> !r.into_router,
{
    let ghost e0 = views(errors@);
    let root = build_route_tree(routes);
    let r = router_plan(errors, &root);
    proof {
        let rd = route_dirs(routes.routes@);
        let md = kind_dirs(routes.middleware@);
        let fd = kind_dirs(routes.fallback@);
        let id = intercept_dirs(routes.intercept@);
        assert(all_dirs(*routes) == rd + md + fd + id);
        assert forall|i: int|
            0 <= i < routes.intercept@.len() && (#[trigger] routes.intercept@[i]).sig.stateful
                && last_index_at(id, dir_path(routes.intercept@[i].file.rel@)) == i implies !r.into_router by {
            let j = rd.len() + md.len() + fd.len() + i;
            assert(all_dirs(*routes)[j] == id[i]);
            assert(state_at(*routes, id[i]));
            assert(all_dirs(*routes)[j].take(0) =~= Seq::<Seq<char>>::empty());
            assert(is_prefix(seq![], all_dirs(*routes)[j]));
            lemma_state_at_needs_state(root, *routes, seq![], j);
        }
        assert forall|i: int|
            0 <= i < routes.middleware@.len() && (#[trigger] routes.middleware@[i]).kind
                == MiddlewareKind::Stateful && last_index_at(md, dir_path(routes.middleware@[i].file.rel@))
                == i implies !r.into_router by {
            let j = rd.len() + i;
            assert(all_dirs(*routes)[j] == md[i]);
            assert(state_at(*routes, md[i]));
            assert(all_dirs(*routes)[j].take(0) =~= Seq::<Seq<char>>::empty());
            assert(is_prefix(seq![], all_dirs(*routes)[j]));
            lemma_state_at_needs_state(root, *routes, seq![], j);
        }
        assert forall|i: int|
            0 <= i < routes.fallback@.len() && (#[trigger] routes.fallback@[i]).kind
                == MiddlewareKind::Stateful && last_index_at(fd, dir_path(routes.fallback@[i].file.rel@))
                == i implies !r.into_router by {
            let j = rd.len() + md.len() + i;
            assert(all_dirs(*routes)[j] == fd[i]);
            assert(state_at(*routes, fd[i]));
            assert(all_dirs(*routes)[j].take(0) =~= Seq::<Seq<char>>::empty());
            assert(is_prefix(seq![], all_dirs(*routes)[j]));
            lemma_state_at_needs_state(root, *routes, seq![], j);
        }
        if names_nonempty(*routes) {
            law_routes_served_at_their_url(*routes, root);
            law_fallback_most_specific(*routes, root);
            law_layers_scoped(*routes, root);
            if route_dirs_distinct(*routes) && views(errors@) == e0 {
                assert(router_errors_v(root).len() == 0);
                assert forall|i: int|
                    0 <= i < routes.routes@.len() && route_methods(items_of(routes.routes@[i])).len() > 0
                        implies #[trigger] route_served(block_view(r.router), routes.routes@[i]) by {
                    law_every_route_served(*routes, root, i);
                }
                law_layers_cover_subtrees(*routes, root);
            }
        }
    }
    r
}


/// The modules of a directory's own convention files, in the order route,
/// middleware, fallback, intercept.
pub open spec fn own_files_v(n: RouteNode) -> Seq<ModItemV> {
    let a: Seq<ModItemV> = if n.route is Some {
        seq![ModItemV::File(ModFile::Route)]
    } else {
        seq![]
    };
    let b = if n.middleware is Some {
        a.push(ModItemV::File(ModFile::Middleware))
    } else {
        a
    };
    let c = if n.fallback is Some {
        b.push(ModItemV::File(ModFile::Fallback))
    } else {
        b
    };
    if n.intercept is Some {
        c.push(ModItemV::File(ModFile::Intercept))
    } else {
        c
    }
}

/// The directory modules of the first `k` children.
pub open spec fn child_mods_v(n: RouteNode, k: int) -> Seq<ModItemV>
    decreases n, 0int, k,
{
    if k <= 0 || k > n.children@.len() {
        seq![]
    } else {
        child_mods_v(n, k - 1).push(
            ModItemV::Dir {
                path: n.children@[k - 1].name@,
                name: module_name_of(n.children@[k - 1].name@),
                items: module_items_v(n.children@[k - 1].node),
            },
        )
    }
}

/// The module items of a directory: its own files' modules, then one module
/// per subdirectory (named by [`module_name_of`], at the directory's path).
pub open spec fn module_items_v(n: RouteNode) -> Seq<ModItemV>
    decreases n, 1int, 0int,
{
    own_files_v(n) + child_mods_v(n, n.children@.len() as int)
}

/// Pushes a file module, keeping the view in step.
fn push_file(v: &mut Vec<ModItem>, f: ModFile)
    ensures
        mod_items_view(final(v)@) == mod_items_view(old(v)@).push(ModItemV::File(f)),
{
    let ghost v0 = v@;
    let item = ModItem::File(f);
    let ghost iv = mod_item_view(item);
    v.push(item);
    assert(v@.drop_last() =~= v0);
    assert(mod_items_view(v@) == mod_items_view(v0).push(iv));
    assert(iv == ModItemV::File(f));
}

/// The module items of a directory (see [`module_items_v`]).
pub fn module_hierarchy(node: &RouteNode) -> (r: Vec<ModItem>)
    ensures
        mod_items_view(r@) == module_items_v(*node),
    decreases *node, 1int, 0int,
{
    let mut r: Vec<ModItem> = Vec::new();
    if node.route.is_some() {
        push_file(&mut r, ModFile::Route);
    }
    if node.middleware.is_some() {
        push_file(&mut r, ModFile::Middleware);
    }
    if node.fallback.is_some() {
        push_file(&mut r, ModFile::Fallback);
    }
    if node.intercept.is_some() {
        push_file(&mut r, ModFile::Intercept);
    }
    assert(mod_items_view(r@) =~= own_files_v(*node));
    let ghost own = mod_items_view(r@);
    let mut i: usize = 0;
    while i < node.children.len()
        invariant
            i <= node.children.len(),
            own == own_files_v(*node),
            mod_items_view(r@) == own + child_mods_v(*node, i as int),
        decreases node.children.len() - i,
    {
        let child = &node.children[i];
        assert(child == node.children@[i as int]);
        let items = module_hierarchy(&child.node);
        let item = ModItem::Dir {
            path: child.name.clone(),
            name: normalize_module_name(&child.name),
            items,
        };
        let ghost iv = mod_item_view(item);
        let ghost r0 = r@;
        r.push(item);
        assert(r@.drop_last() =~= r0);
        assert(mod_items_view(r@) == mod_items_view(r0).push(iv));
        assert(mod_items_view(r@) =~= own + child_mods_v(*node, i + 1));
        i = i + 1;
    }
    r
}

/// Builds the route tree of the files and its module items (see
/// [`module_hierarchy`]).
pub fn module_tree(routes: &FolderRouterRoutes) -> (r: Vec<ModItem>)
    ensures
        exists|root: RouteNode| tree_ok(root, *routes, seq![]) && mod_items_view(r@) == module_items_v(root),
        forall|f: ModFile, i: int|
            0 <= i < file_dirs(*routes, f).len() ==> declares(
                mod_items_view(r@),
                module_names(#[trigger] file_dirs(*routes, f)[i]).push(file_module(f)),
            ),
{
    let root = build_route_tree(routes);
    let r = module_hierarchy(&root);
    proof {
        assert forall|f: ModFile, i: int| 0 <= i < file_dirs(*routes, f).len() implies declares(
            mod_items_view(r@),
            module_names(#[trigger] file_dirs(*routes, f)[i]).push(file_module(f)),
        ) by {
            law_modules_declared(*routes, root, f, i);
        }
    }
    r
}

} // verus!
