//! Which modules the generated module tree declares, and the law that it
//! declares the module of every convention file, so that every module the
//! router refers to resolves.
use vstd::prelude::*;
use crate::generate::{
    all_dirs, child_mods_v, child_names, extends, intercept_dirs, is_next_name, kind_dirs,
    last_index_at, lemma_last_index_at, module_items_v, module_names, node_data_ok,
    own_files_v, route_dirs, tree_ok, RouteNode,
};
use crate::paths::module_name_of;
use crate::plan::{ModFile, ModItemV};
use crate::routes::FolderRouterRoutes;
use crate::serve::is_prefix;

verus! {

/// The module name of a convention file.
pub open spec fn file_module(f: ModFile) -> Seq<char> {
    match f {
        ModFile::Route => "route"@,
        ModFile::Middleware => "middleware"@,
        ModFile::Fallback => "fallback"@,
        ModFile::Intercept => "intercept"@,
    }
}

/// Whether module items declare the module at `path` (directory modules by
/// name, then a file module).
pub open spec fn declares(items: Seq<ModItemV>, path: Seq<Seq<char>>) -> bool
    decreases path.len(),
{
    if path.len() == 0 {
        false
    } else if path.len() == 1 {
        exists|i: int|
            0 <= i < items.len() && (#[trigger] items[i] matches ModItemV::File(f) && file_module(f)
                == path[0])
    } else {
        exists|i: int|
            0 <= i < items.len() && (#[trigger] items[i] matches ModItemV::Dir { name, items: sub, .. }
                && name == path[0] && declares(sub, path.drop_first()))
    }
}

/// The directories of the convention files of a kind.
pub open spec fn file_dirs(r: FolderRouterRoutes, f: ModFile) -> Seq<Seq<Seq<char>>> {
    match f {
        ModFile::Route => route_dirs(r.routes@),
        ModFile::Middleware => kind_dirs(r.middleware@),
        ModFile::Fallback => kind_dirs(r.fallback@),
        ModFile::Intercept => intercept_dirs(r.intercept@),
    }
}

/// Whether a directory node defines a convention file of a kind.
pub open spec fn node_has(n: RouteNode, f: ModFile) -> bool {
    match f {
        ModFile::Route => n.route is Some,
        ModFile::Middleware => n.middleware is Some,
        ModFile::Fallback => n.fallback is Some,
        ModFile::Intercept => n.intercept is Some,
    }
}

/// The directories of the convention files of a kind are directories of the
/// files.
proof fn lemma_file_dirs_in_all(r: FolderRouterRoutes, f: ModFile, i: int)
    requires
        0 <= i < file_dirs(r, f).len(),
    ensures
        exists|j: int| 0 <= j < all_dirs(r).len() && #[trigger] all_dirs(r)[j] == file_dirs(r, f)[i],
{
    let a = route_dirs(r.routes@);
    let b = kind_dirs(r.middleware@);
    let c = kind_dirs(r.fallback@);
    let d = intercept_dirs(r.intercept@);
    assert(all_dirs(r) =~= a + b + c + d);
    match f {
        ModFile::Route => {
            assert(all_dirs(r)[i] == a[i]);
        },
        ModFile::Middleware => {
            assert(all_dirs(r)[a.len() + i] == b[i]);
        },
        ModFile::Fallback => {
            assert(all_dirs(r)[a.len() + b.len() + i] == c[i]);
        },
        ModFile::Intercept => {
            assert(all_dirs(r)[a.len() + b.len() + c.len() + i] == d[i]);
        },
    }
}

/// The directory node at a directory of the files has its convention files.
proof fn lemma_node_has(n: RouteNode, r: FolderRouterRoutes, f: ModFile, i: int)
    requires
        node_data_ok(n, r, file_dirs(r, f)[i]),
        0 <= i < file_dirs(r, f).len(),
    ensures
        node_has(n, f),
{
    let q = file_dirs(r, f)[i];
    let ds = file_dirs(r, f);
    lemma_last_index_at_some(ds, q, i);
}

/// A directory that holds a file has a last index.
proof fn lemma_last_index_at_some(ds: Seq<Seq<Seq<char>>>, p: Seq<Seq<char>>, i: int)
    requires
        0 <= i < ds.len(),
        ds[i] == p,
    ensures
        last_index_at(ds, p) >= 0,
    decreases ds.len(),
{
    if ds.last() != p {
        assert(ds.drop_last()[i] == p);
        lemma_last_index_at_some(ds.drop_last(), p, i);
    }
}

/// A directory's own file modules include each of its convention files.
proof fn lemma_own_has(n: RouteNode, f: ModFile) -> (k: int)
    requires
        node_has(n, f),
    ensures
        0 <= k < own_files_v(n).len(),
        own_files_v(n)[k] == ModItemV::File(f),
{
    let a: Seq<ModItemV> = if n.route is Some {
        seq![ModItemV::File(ModFile::Route)]
    } else {
        seq![]
    };
    let b = if n.middleware is Some {
        a.push(ModItemV::File(ModFile::Middleware))
    } else {
        a
    };
    let c = if n.fallback is Some {
        b.push(ModItemV::File(ModFile::Fallback))
    } else {
        b
    };
    let d = if n.intercept is Some {
        c.push(ModItemV::File(ModFile::Intercept))
    } else {
        c
    };
    assert(own_files_v(n) == d);
    let k = match f {
        ModFile::Route => 0,
        ModFile::Middleware => a.len() as int,
        ModFile::Fallback => b.len() as int,
        ModFile::Intercept => c.len() as int,
    };
    assert(d[k] == ModItemV::File(f));
    k
}

/// The directory modules of the first `kk` children include child `k`'s.
proof fn lemma_child_mod(n: RouteNode, kk: int, k: int)
    requires
        0 <= k < kk <= n.children@.len(),
    ensures
        child_mods_v(n, kk).len() == kk,
        child_mods_v(n, kk)[k] == (ModItemV::Dir {
            path: n.children@[k].name@,
            name: module_name_of(n.children@[k].name@),
            items: module_items_v(n.children@[k].node),
        }),
    decreases kk,
{
    if kk - 1 > k {
        lemma_child_mod(n, kk - 1, k);
    } else if k > 0 {
        lemma_child_mod_len(n, k);
    } else {
        lemma_child_mod_len(n, 0);
    }
}

/// The directory modules of the first `kk` children are `kk` items.
proof fn lemma_child_mod_len(n: RouteNode, kk: int)
    requires
        0 <= kk <= n.children@.len(),
    ensures
        child_mods_v(n, kk).len() == kk,
    decreases kk,
{
    if kk > 0 {
        lemma_child_mod_len(n, kk - 1);
    }
}

/// The module items of the directory node `n` at `p` declare the module of
/// every convention file at or below `p`, by its path relative to `p`.
proof fn lemma_declares(n: RouteNode, r: FolderRouterRoutes, p: Seq<Seq<char>>, f: ModFile, i: int)
    requires
        tree_ok(n, r, p),
        0 <= i < file_dirs(r, f).len(),
        is_prefix(p, file_dirs(r, f)[i]),
    ensures
        declares(
            module_items_v(n),
            module_names(file_dirs(r, f)[i].skip(p.len() as int)).push(file_module(f)),
        ),
    decreases n,
{
    let q = file_dirs(r, f)[i];
    let path = module_names(q.skip(p.len() as int)).push(file_module(f));
    let own = own_files_v(n);
    let kids = child_mods_v(n, n.children@.len() as int);
    assert(module_items_v(n) == own + kids);
    if q.len() == p.len() {
        assert(q =~= q.take(p.len() as int));
        lemma_node_has(n, r, f, i);
        assert(path =~= seq![file_module(f)]);
        let x = ModItemV::File(f);
        let k = lemma_own_has(n, f);
        assert((own + kids)[k] == x);
    } else {
        lemma_file_dirs_in_all(r, f, i);
        let j = choose|j: int| 0 <= j < all_dirs(r).len() && #[trigger] all_dirs(r)[j] == q;
        assert(q.subrange(0, p.len() as int) == q.take(p.len() as int));
        assert(extends(all_dirs(r)[j], p));
        let name = q[p.len() as int];
        assert(is_next_name(all_dirs(r), p, name));
        assert(child_names(n).contains(name));
        let k = choose|k: int| 0 <= k < child_names(n).len() && child_names(n)[k] == name;
        let c = n.children@[k];
        let p2 = p.push(name);
        assert(tree_ok(c.node, r, p2));
        assert(is_prefix(p2, q)) by {
            assert(q.take(p2.len() as int) =~= q.take(p.len() as int).push(name));
        }
        lemma_declares(c.node, r, p2, f, i);
        lemma_child_mod(n, n.children@.len() as int, k);
        let item = kids[k];
        assert((own + kids)[own.len() + k] == item);
        assert(path[0] == module_name_of(name));
        assert(path.drop_first() =~= module_names(q.skip(p2.len() as int)).push(file_module(f)));
        assert(path.len() > 1);
    }
}

/// The module tree declares the module of every convention file: for each
/// `route.rs`, `middleware.rs`, `fallback.rs` and `intercept.rs`, the
/// modules named after its directories lead to its file module, so every
/// module the router refers to resolves.
pub proof fn law_modules_declared(r: FolderRouterRoutes, root: RouteNode, f: ModFile, i: int)
    requires
        tree_ok(root, r, seq![]),
        0 <= i < file_dirs(r, f).len(),
    ensures
        declares(module_items_v(root), module_names(file_dirs(r, f)[i]).push(file_module(f))),
{
    assert(file_dirs(r, f)[i].take(0) =~= Seq::<Seq<char>>::empty());
    assert(file_dirs(r, f)[i].skip(0) =~= file_dirs(r, f)[i]);
    lemma_declares(root, r, seq![], f, i);
}

} // verus!
