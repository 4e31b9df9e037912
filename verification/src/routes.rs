//! The files discovered under the route directory, validated and sorted.
use vstd::prelude::*;
use crate::paths::views;
use crate::syntax::{items_view, last_ident_of, tviews, ItemV, RustItem, RustType, TypeV};
use crate::source::{any_state, fn_kind, fn_kind_of, intercept_fn, intercept_signature, parse_items, is_request_ty, is_request_type, params_of, InterceptSig, MiddlewareKind};
use crate::text::{chars_lt, lemma_chars_lt_irrefl, lemma_chars_lt_total, lemma_chars_lt_trans, str_is, string_less};

verus! {

/// A discovered file: its full path (for messages), its path relative to the
/// route directory, component by component, its content (`None` when it
/// could not be read, with the reason in `read_error`), and, for a Rust file
/// of the conventions, the top-level items its content parsed into (none when
/// it could not be read or does not parse).
#[derive(Debug)]
pub struct SourceFile {
    pub path: String,
    pub rel: Vec<String>,
    pub content: Option<String>,
    pub read_error: Option<String>,
    pub items: Vec<RustItem>,
}

/// Whether a file follows one of the Rust conventions (`route.rs`,
/// `middleware.rs`, `fallback.rs`, `intercept.rs`).
pub open spec fn is_rust_file(f: SourceFile) -> bool {
    file_kind(f) is Some && file_kind(f) != Some(FileKind::Config)
}

/// The items of a file, as values.
pub open spec fn items_of(f: SourceFile) -> Seq<ItemV> {
    items_view(f.items@)
}

impl SourceFile {
    /// A discovered file, with its content parsed as Rust when it follows a
    /// Rust convention and could be read; every other file has no items.
    pub fn new(path: String, rel: Vec<String>, content: Option<String>, read_error: Option<String>) -> (r: SourceFile)
        ensures
            r.path == path,
            r.rel == rel,
            r.content == content,
            r.read_error == read_error,
            !(is_rust_file(r) && content is Some) ==> r.items@.len() == 0,
    {
        let mut f = SourceFile { path, rel, content, read_error, items: Vec::new() };
        let rust = match kind_of_file(&f) {
            Some(FileKind::Config) => false,
            Some(_) => true,
            None => false,
        };
        if rust {
            let items = parse_items(&f.content);
            f.items = items;
        }
        f
    }
}

/// A `middleware.rs` or `fallback.rs` with the kind of its function.
#[derive(Debug)]
pub struct KindFile {
    pub file: SourceFile,
    pub kind: MiddlewareKind,
}

/// An `intercept.rs` with the signature of its function.
#[derive(Debug)]
pub struct InterceptFile {
    pub file: SourceFile,
    pub sig: InterceptSig,
}

/// The validated files of a route directory, each list sorted by relative
/// path.
#[derive(Debug)]
pub struct FolderRouterRoutes {
    pub routes: Vec<SourceFile>,
    pub middleware: Vec<KindFile>,
    pub fallback: Vec<KindFile>,
    pub intercept: Vec<InterceptFile>,
    pub config: Vec<SourceFile>,
}

impl FolderRouterRoutes {
    /// The discovered `route.rs` files.
    pub fn routes(&self) -> (r: &Vec<SourceFile>)
        ensures
            r == &self.routes,
    {
        &self.routes
    }

    /// The discovered `middleware.rs` files with their kinds.
    pub fn middleware(&self) -> (r: &Vec<KindFile>)
        ensures
            r == &self.middleware,
    {
        &self.middleware
    }

    /// The discovered `fallback.rs` files with their kinds.
    pub fn fallback(&self) -> (r: &Vec<KindFile>)
        ensures
            r == &self.fallback,
    {
        &self.fallback
    }

    /// The discovered `intercept.rs` files with their signatures.
    pub fn intercept(&self) -> (r: &Vec<InterceptFile>)
        ensures
            r == &self.intercept,
    {
        &self.intercept
    }

    /// The discovered `openapi.toml` files.
    pub fn config_files(&self) -> (r: &Vec<SourceFile>)
        ensures
            r == &self.config,
    {
        &self.config
    }
}


/// Strict lexicographic order of relative paths, component by component (the
/// order of `Path`'s `Ord`).
pub open spec fn path_lt(a: Seq<Seq<char>>, b: Seq<Seq<char>>) -> bool
    decreases a.len(),
{
    if a.len() == 0 {
        b.len() > 0
    } else if b.len() == 0 {
        false
    } else if a[0] != b[0] {
        chars_lt(a[0], b[0])
    } else {
        path_lt(a.drop_first(), b.drop_first())
    }
}

/// `path_lt` is irreflexive.
pub proof fn lemma_path_lt_irrefl(a: Seq<Seq<char>>)
    ensures
        !path_lt(a, a),
    decreases a.len(),
{
    if a.len() > 0 {
        lemma_path_lt_irrefl(a.drop_first());
    }
}

/// `path_lt` is transitive.
pub proof fn lemma_path_lt_trans(a: Seq<Seq<char>>, b: Seq<Seq<char>>, c: Seq<Seq<char>>)
    requires
        path_lt(a, b),
        path_lt(b, c),
    ensures
        path_lt(a, c),
    decreases a.len(),
{
    if a.len() > 0 && b.len() > 0 && c.len() > 0 {
        if a[0] != b[0] {
            if b[0] != c[0] {
                lemma_chars_lt_trans(a[0], b[0], c[0]);
                if a[0] == c[0] {
                    lemma_chars_lt_trans(a[0], b[0], a[0]);
                    lemma_chars_lt_irrefl(a[0]);
                }
            }
        } else if b[0] != c[0] {
        } else {
            lemma_path_lt_trans(a.drop_first(), b.drop_first(), c.drop_first());
        }
    }
}

/// Two different relative paths are ordered one way or the other.
pub proof fn lemma_path_lt_total(a: Seq<Seq<char>>, b: Seq<Seq<char>>)
    ensures
        a == b || path_lt(a, b) || path_lt(b, a),
    decreases a.len(),
{
    if a.len() > 0 && b.len() > 0 {
        if a[0] == b[0] {
            lemma_path_lt_total(a.drop_first(), b.drop_first());
            if a.drop_first() == b.drop_first() {
                assert(a =~= seq![a[0]] + a.drop_first());
                assert(b =~= seq![b[0]] + b.drop_first());
            }
        } else {
            lemma_chars_lt_total(a[0], b[0]);
        }
    } else if a.len() == 0 && b.len() == 0 {
        assert(a =~= b);
    }
}

/// Whether relative path `a` comes strictly before `b`, see [`path_lt`].
pub fn path_less(a: &Vec<String>, b: &Vec<String>) -> (r: bool)
    ensures
        r == path_lt(views(a@), views(b@)),
{
    let ghost av = views(a@);
    let ghost bv = views(b@);
    let mut i: usize = 0;
    assert(av.subrange(0, av.len() as int) =~= av);
    assert(bv.subrange(0, bv.len() as int) =~= bv);
    while i < a.len() && i < b.len() && a[i] == b[i]
        invariant
            i <= a.len(),
            i <= b.len(),
            av == views(a@),
            bv == views(b@),
            path_lt(av, bv) == path_lt(av.subrange(i as int, av.len() as int), bv.subrange(i as int, bv.len() as int)),
        decreases a.len() - i,
    {
        assert(av.subrange(i as int, av.len() as int).drop_first() =~= av.subrange(i + 1, av.len() as int));
        assert(bv.subrange(i as int, bv.len() as int).drop_first() =~= bv.subrange(i + 1, bv.len() as int));
        i = i + 1;
    }
    if i == a.len() {
        i < b.len()
    } else if i == b.len() {
        false
    } else {
        assert(av[i as int] != bv[i as int]);
        string_less(&a[i], &b[i])
    }
}

/// The relative path of a file, component by component.
pub open spec fn rel_of(f: SourceFile) -> Seq<Seq<char>> {
    views(f.rel@)
}

/// Files in non-decreasing order of relative path.
pub open spec fn sorted_by_rel(s: Seq<SourceFile>) -> bool {
    forall|i: int, j: int| 0 <= i < j < s.len() ==> !path_lt(rel_of(#[trigger] s[j]), rel_of(#[trigger] s[i]))
}

/// No two files have the same relative path (as on any file system).
pub open spec fn rels_distinct(s: Seq<SourceFile>) -> bool {
    forall|i: int, j: int| 0 <= i < j < s.len() ==> rel_of(#[trigger] s[i]) != rel_of(#[trigger] s[j])
}

/// Sorting does not depend on the order in which the files were
/// discovered: two lists of the same files, sorted by relative path, are the
/// same list when no two files share a relative path.
pub proof fn law_sorted_unique(s: Seq<SourceFile>, t: Seq<SourceFile>)
    requires
        sorted_by_rel(s),
        sorted_by_rel(t),
        s.to_multiset() == t.to_multiset(),
        rels_distinct(s),
    ensures
        s == t,
    decreases s.len(),
{
    broadcast use vstd::seq_lib::group_to_multiset_ensures;
    if s.len() == 0 {
        vstd::seq_lib::to_multiset_len(s);
        vstd::seq_lib::to_multiset_len(t);
        assert(s =~= t);
    } else {
        vstd::seq_lib::to_multiset_len(s);
        vstd::seq_lib::to_multiset_len(t);
        assert(t.len() == s.len());
        let x = s[0];
        let y = t[0];
        assert(s.contains(x));
        assert(t.to_multiset().count(x) > 0);
        assert(t.contains(x));
        let k = choose|k: int| 0 <= k < t.len() && t[k] == x;
        assert(t.contains(y));
        assert(s.to_multiset().count(y) > 0);
        assert(s.contains(y));
        let m = choose|m: int| 0 <= m < s.len() && s[m] == y;
        if k > 0 {
            assert(!path_lt(rel_of(t[k]), rel_of(t[0])));
        }
        if m > 0 {
            assert(!path_lt(rel_of(s[m]), rel_of(s[0])));
        }
        lemma_path_lt_total(rel_of(x), rel_of(y));
        if m > 0 {
            assert(rel_of(s[0]) != rel_of(s[m]));
        }
        assert(x == y);
        let s1 = s.drop_first();
        let t1 = t.drop_first();
        assert(s.remove(0) =~= s1);
        assert(t.remove(0) =~= t1);
        assert(s1.to_multiset() == t1.to_multiset());
        assert(sorted_by_rel(s1)) by {
            assert forall|i: int, j: int| 0 <= i < j < s1.len() implies !path_lt(
                rel_of(#[trigger] s1[j]),
                rel_of(#[trigger] s1[i]),
            ) by {
                assert(s1[i] == s[i + 1] && s1[j] == s[j + 1]);
            }
        }
        assert(sorted_by_rel(t1)) by {
            assert forall|i: int, j: int| 0 <= i < j < t1.len() implies !path_lt(
                rel_of(#[trigger] t1[j]),
                rel_of(#[trigger] t1[i]),
            ) by {
                assert(t1[i] == t[i + 1] && t1[j] == t[j + 1]);
            }
        }
        assert(rels_distinct(s1)) by {
            assert forall|i: int, j: int| 0 <= i < j < s1.len() implies rel_of(#[trigger] s1[i]) != rel_of(
                #[trigger] s1[j],
            ) by {
                assert(s1[i] == s[i + 1] && s1[j] == s[j + 1]);
            }
        }
        law_sorted_unique(s1, t1);
        assert(s =~= seq![x] + s1);
        assert(t =~= seq![y] + t1);
    }
}

/// How often a file occurs among the files of a convention.
proof fn lemma_files_of_count(a: Seq<SourceFile>, k: FileKind, x: SourceFile)
    ensures
        files_of(a, k).to_multiset().count(x) == if file_kind(x) == Some(k) {
            a.to_multiset().count(x)
        } else {
            0
        },
    decreases a.len(),
{
    broadcast use vstd::seq_lib::group_to_multiset_ensures;
    broadcast use vstd::multiset::group_multiset_axioms;
    if a.len() == 0 {
        assert(files_of(a, k) =~= Seq::<SourceFile>::empty());
    } else {
        lemma_files_of_count(a.drop_last(), k, x);
        assert(a =~= a.drop_last().push(a.last()));
        vstd::seq_lib::to_multiset_build(a.drop_last(), a.last());
        if file_kind(a.last()) == Some(k) {
            vstd::seq_lib::to_multiset_build(files_of(a.drop_last(), k), a.last());
        }
    }
}

/// The files of a convention are files of the list, with distinct relative
/// paths when the list has them.
proof fn lemma_files_of_distinct(a: Seq<SourceFile>, k: FileKind)
    requires
        rels_distinct(a),
    ensures
        rels_distinct(files_of(a, k)),
        forall|i: int| 0 <= i < files_of(a, k).len() ==> a.contains(#[trigger] files_of(a, k)[i]),
    decreases a.len(),
{
    if a.len() > 0 {
        let b = a.drop_last();
        assert forall|i: int, j: int| 0 <= i < j < b.len() implies rel_of(#[trigger] b[i]) != rel_of(#[trigger] b[j]) by {
            assert(rel_of(a[i]) != rel_of(a[j]));
        }
        lemma_files_of_distinct(b, k);
        let r = files_of(b, k);
        assert forall|i: int| 0 <= i < r.len() implies a.contains(#[trigger] r[i]) by {
            let j = choose|j: int| 0 <= j < b.len() && b[j] == r[i];
            assert(a[j] == r[i]);
        }
        if file_kind(a.last()) == Some(k) {
            let f = files_of(a, k);
            assert(f == r.push(a.last()));
            assert forall|i: int, j: int| 0 <= i < j < f.len() implies rel_of(#[trigger] f[i]) != rel_of(#[trigger] f[j]) by {
                if j == f.len() - 1 {
                    let q = choose|q: int| 0 <= q < b.len() && b[q] == r[i];
                    assert(rel_of(a[q]) != rel_of(a[a.len() - 1]));
                } else {
                    assert(rel_of(r[i]) != rel_of(r[j]));
                }
            }
            assert forall|i: int| 0 <= i < f.len() implies a.contains(#[trigger] f[i]) by {
                if i == f.len() - 1 {
                    assert(a[a.len() - 1] == f[i]);
                } else {
                    assert(a.contains(r[i]));
                }
            }
        }
    }
}

/// A list holding the same files as one with distinct relative paths has
/// distinct relative paths.
proof fn lemma_perm_distinct(s: Seq<SourceFile>, f: Seq<SourceFile>)
    requires
        rels_distinct(f),
        s.to_multiset() == f.to_multiset(),
    ensures
        rels_distinct(s),
{
    broadcast use vstd::seq_lib::group_to_multiset_ensures;
    broadcast use vstd::multiset::group_multiset_axioms;
    assert forall|i: int, j: int| 0 <= i < j < s.len() implies rel_of(#[trigger] s[i]) != rel_of(#[trigger] s[j]) by {
        if rel_of(s[i]) == rel_of(s[j]) {
            let x = s[i];
            let y = s[j];
            vstd::seq_lib::to_multiset_contains(s, x);
            assert(s.contains(x));
            vstd::seq_lib::to_multiset_contains(f, x);
            let p = choose|p: int| 0 <= p < f.len() && f[p] == x;
            vstd::seq_lib::to_multiset_remove(s, i);
            vstd::seq_lib::to_multiset_remove(f, p);
            assert(s.remove(i)[j - 1] == y);
            vstd::seq_lib::to_multiset_contains(s.remove(i), y);
            vstd::seq_lib::to_multiset_contains(f.remove(p), y);
            let q = choose|q: int| 0 <= q < f.remove(p).len() && f.remove(p)[q] == y;
            if q < p {
                assert(f[q] == y);
                assert(rel_of(f[q]) != rel_of(f[p]));
            } else {
                assert(f[q + 1] == y);
                assert(rel_of(f[p]) != rel_of(f[q + 1]));
            }
        }
    }
}

/// Which files the router is built from does not depend on the order in
/// which they were discovered: for two discoveries of the same files, the
/// sorted files of a convention (as `parse_from_path` keeps them) are the
/// same list, when no two discovered files share a relative path (as no two
/// files of one directory tree do).
pub proof fn law_discovery_order_irrelevant(
    a: Seq<SourceFile>,
    b: Seq<SourceFile>,
    k: FileKind,
    s: Seq<SourceFile>,
    t: Seq<SourceFile>,
)
    requires
        a.to_multiset() == b.to_multiset(),
        sorted_perm(s, files_of(a, k)),
        sorted_perm(t, files_of(b, k)),
        rels_distinct(a),
    ensures
        s == t,
{
    lemma_files_of_distinct(a, k);
    lemma_perm_distinct(s, files_of(a, k));
    assert forall|x: SourceFile| files_of(a, k).to_multiset().count(x) == files_of(b, k).to_multiset().count(x) by {
        lemma_files_of_count(a, k, x);
        lemma_files_of_count(b, k, x);
    }
    assert(files_of(a, k).to_multiset() =~= files_of(b, k).to_multiset());
    law_sorted_unique(s, t);
}

/// Inserts a file into a list sorted by relative path, after the files
/// that do not come after it.
fn insert_sorted(v: &mut Vec<SourceFile>, x: SourceFile)
    requires
        sorted_by_rel(old(v)@),
    ensures
        sorted_by_rel(final(v)@),
        final(v)@.to_multiset() == old(v)@.to_multiset().insert(x),
{
    broadcast use vstd::seq_lib::group_to_multiset_ensures;
    let ghost v0 = v@;
    let mut k: usize = 0;
    while k < v.len() && !path_less(&x.rel, &v[k].rel)
        invariant
            k <= v.len(),
            v@ == v0,
            forall|i: int| 0 <= i < k ==> !path_lt(rel_of(x), rel_of(#[trigger] v0[i])),
        decreases v.len() - k,
    {
        k = k + 1;
    }
    let ghost xv = x;
    v.insert(k, x);
    proof {
        let v1 = v@;
        assert(v1 =~= v0.insert(k as int, xv));
        assert forall|i: int, j: int| 0 <= i < j < v1.len() implies !path_lt(rel_of(#[trigger] v1[j]), rel_of(#[trigger] v1[i])) by {
            if j < k {
                assert(v1[i] == v0[i] && v1[j] == v0[j]);
            } else if j == k {
                assert(v1[i] == v0[i]);
            } else if i == k {
                assert(v1[j] == v0[j - 1]);
                assert(path_lt(rel_of(xv), rel_of(v0[k as int])));
                if path_lt(rel_of(v0[j - 1]), rel_of(xv)) {
                    lemma_path_lt_trans(rel_of(v0[j - 1]), rel_of(xv), rel_of(v0[k as int]));
                    if j - 1 == k {
                        lemma_path_lt_irrefl(rel_of(v0[k as int]));
                    }
                }
            } else if i < k {
                assert(v1[i] == v0[i] && v1[j] == v0[j - 1]);
            } else {
                assert(v1[i] == v0[i - 1] && v1[j] == v0[j - 1]);
            }
        }
    }
}

/// The files sorted by relative path (a permutation of them).
pub fn sort_files(v: Vec<SourceFile>) -> (r: Vec<SourceFile>)
    ensures
        sorted_by_rel(r@),
        r@.to_multiset() == v@.to_multiset(),
{
    broadcast use vstd::seq_lib::group_to_multiset_ensures;
    let ghost orig = v@;
    let mut v = v;
    let mut r: Vec<SourceFile> = Vec::new();
    while v.len() > 0
        invariant
            sorted_by_rel(r@),
            r@.to_multiset().add(v@.to_multiset()) == orig.to_multiset(),
        decreases v.len(),
    {
        let ghost v0 = v@;
        let ghost r0 = r@;
        let x = v.pop().unwrap();
        assert(v0 =~= v@.push(x));
        proof {
            vstd::seq_lib::to_multiset_build(v@, x);
        }
        assert(v0.to_multiset() == v@.to_multiset().insert(x));
        insert_sorted(&mut r, x);
        proof {
            broadcast use vstd::multiset::group_multiset_axioms;
            assert(r@.to_multiset().add(v@.to_multiset()) =~= r0.to_multiset().add(v0.to_multiset()));
        }
    }
    assert(v@ =~= Seq::<SourceFile>::empty());
    assert(r@.to_multiset() =~= orig.to_multiset());
    r
}


/// The conventions a file name can follow.
#[derive(Debug, Clone, Copy, PartialEq, Eq, Structural)]
pub enum FileKind {
    Route,
    Middleware,
    Fallback,
    Intercept,
    Config,
}

/// The convention a file name follows: `route.rs`, `middleware.rs`,
/// `fallback.rs`, `intercept.rs` or `openapi.toml`.
pub open spec fn kind_of_name(name: Seq<char>) -> Option<FileKind> {
    if name == "route.rs"@ {
        Some(FileKind::Route)
    } else if name == "middleware.rs"@ {
        Some(FileKind::Middleware)
    } else if name == "fallback.rs"@ {
        Some(FileKind::Fallback)
    } else if name == "intercept.rs"@ {
        Some(FileKind::Intercept)
    } else if name == "openapi.toml"@ {
        Some(FileKind::Config)
    } else {
        None
    }
}

/// The convention a file name follows, see [`kind_of_name`].
pub fn classify_file(name: &String) -> (r: Option<FileKind>)
    ensures
        r == kind_of_name(name@),
{
    if str_is(name, "route.rs") {
        Some(FileKind::Route)
    } else if str_is(name, "middleware.rs") {
        Some(FileKind::Middleware)
    } else if str_is(name, "fallback.rs") {
        Some(FileKind::Fallback)
    } else if str_is(name, "intercept.rs") {
        Some(FileKind::Intercept)
    } else if str_is(name, "openapi.toml") {
        Some(FileKind::Config)
    } else {
        None
    }
}

/// The convention a discovered file follows, by its file name.
pub open spec fn file_kind(f: SourceFile) -> Option<FileKind> {
    if f.rel@.len() == 0 {
        None
    } else {
        kind_of_name(f.rel@.last()@)
    }
}

/// The files that follow convention `k`, in order.
pub open spec fn files_of(fs: Seq<SourceFile>, k: FileKind) -> Seq<SourceFile>
    decreases fs.len(),
{
    if fs.len() == 0 {
        seq![]
    } else if file_kind(fs.last()) == Some(k) {
        files_of(fs.drop_last(), k).push(fs.last())
    } else {
        files_of(fs.drop_last(), k)
    }
}

/// The convention a discovered file follows, by its file name.
fn kind_of_file(f: &SourceFile) -> (r: Option<FileKind>)
    ensures
        r == file_kind(*f),
{
    if f.rel.len() == 0 {
        None
    } else {
        classify_file(&f.rel[f.rel.len() - 1])
    }
}

/// The files split by convention (each bucket a permutation of
/// [`files_of`] for its convention); files of no convention are dropped.
fn partition_files(files: Vec<SourceFile>) -> (r: (Vec<SourceFile>, Vec<SourceFile>, Vec<SourceFile>, Vec<SourceFile>, Vec<SourceFile>))
    ensures
        r.0@.to_multiset() == files_of(files@, FileKind::Route).to_multiset(),
        r.1@.to_multiset() == files_of(files@, FileKind::Middleware).to_multiset(),
        r.2@.to_multiset() == files_of(files@, FileKind::Fallback).to_multiset(),
        r.3@.to_multiset() == files_of(files@, FileKind::Intercept).to_multiset(),
        r.4@.to_multiset() == files_of(files@, FileKind::Config).to_multiset(),
{
    broadcast use vstd::seq_lib::group_to_multiset_ensures;
    broadcast use vstd::multiset::group_multiset_axioms;
    let ghost orig = files@;
    let mut files = files;
    let mut a: Vec<SourceFile> = Vec::new();
    let mut b: Vec<SourceFile> = Vec::new();
    let mut c: Vec<SourceFile> = Vec::new();
    let mut d: Vec<SourceFile> = Vec::new();
    let mut e: Vec<SourceFile> = Vec::new();
    assert(orig.subrange(0, orig.len() as int) =~= orig);
    while files.len() > 0
        invariant
            files@ == orig.subrange(0, files@.len() as int),
            files@.len() <= orig.len(),
            a@.to_multiset().add(files_of(files@, FileKind::Route).to_multiset()) == files_of(orig, FileKind::Route).to_multiset(),
            b@.to_multiset().add(files_of(files@, FileKind::Middleware).to_multiset()) == files_of(orig, FileKind::Middleware).to_multiset(),
            c@.to_multiset().add(files_of(files@, FileKind::Fallback).to_multiset()) == files_of(orig, FileKind::Fallback).to_multiset(),
            d@.to_multiset().add(files_of(files@, FileKind::Intercept).to_multiset()) == files_of(orig, FileKind::Intercept).to_multiset(),
            e@.to_multiset().add(files_of(files@, FileKind::Config).to_multiset()) == files_of(orig, FileKind::Config).to_multiset(),
        decreases files.len(),
    {
        let ghost f0 = files@;
        let x = files.pop().unwrap();
        assert(f0.drop_last() =~= files@);
        assert(files@ =~= orig.subrange(0, files@.len() as int));
        let k = kind_of_file(&x);
        proof {
            vstd::seq_lib::to_multiset_build(files_of(files@, FileKind::Route), x);
            vstd::seq_lib::to_multiset_build(files_of(files@, FileKind::Middleware), x);
            vstd::seq_lib::to_multiset_build(files_of(files@, FileKind::Fallback), x);
            vstd::seq_lib::to_multiset_build(files_of(files@, FileKind::Intercept), x);
            vstd::seq_lib::to_multiset_build(files_of(files@, FileKind::Config), x);
        }
        match k {
            Some(FileKind::Route) => {
                let ghost a0 = a@;
                a.push(x);
                proof { vstd::seq_lib::to_multiset_build(a0, x); }
                assert(a@.to_multiset().add(files_of(files@, FileKind::Route).to_multiset()) =~= a0.to_multiset().add(files_of(f0, FileKind::Route).to_multiset()));
            },
            Some(FileKind::Middleware) => {
                let ghost b0 = b@;
                b.push(x);
                proof { vstd::seq_lib::to_multiset_build(b0, x); }
                assert(b@.to_multiset().add(files_of(files@, FileKind::Middleware).to_multiset()) =~= b0.to_multiset().add(files_of(f0, FileKind::Middleware).to_multiset()));
            },
            Some(FileKind::Fallback) => {
                let ghost c0 = c@;
                c.push(x);
                proof { vstd::seq_lib::to_multiset_build(c0, x); }
                assert(c@.to_multiset().add(files_of(files@, FileKind::Fallback).to_multiset()) =~= c0.to_multiset().add(files_of(f0, FileKind::Fallback).to_multiset()));
            },
            Some(FileKind::Intercept) => {
                let ghost d0 = d@;
                d.push(x);
                proof { vstd::seq_lib::to_multiset_build(d0, x); }
                assert(d@.to_multiset().add(files_of(files@, FileKind::Intercept).to_multiset()) =~= d0.to_multiset().add(files_of(f0, FileKind::Intercept).to_multiset()));
            },
            Some(FileKind::Config) => {
                let ghost e0 = e@;
                e.push(x);
                proof { vstd::seq_lib::to_multiset_build(e0, x); }
                assert(e@.to_multiset().add(files_of(files@, FileKind::Config).to_multiset()) =~= e0.to_multiset().add(files_of(f0, FileKind::Config).to_multiset()));
            },
            None => {},
        }
    }
    assert(files@ =~= Seq::<SourceFile>::empty());
    assert(a@.to_multiset() =~= files_of(orig, FileKind::Route).to_multiset());
    assert(b@.to_multiset() =~= files_of(orig, FileKind::Middleware).to_multiset());
    assert(c@.to_multiset() =~= files_of(orig, FileKind::Fallback).to_multiset());
    assert(d@.to_multiset() =~= files_of(orig, FileKind::Intercept).to_multiset());
    assert(e@.to_multiset() =~= files_of(orig, FileKind::Config).to_multiset());
    (a, b, c, d, e)
}


/// The error for a `middleware.rs` / `fallback.rs` (`name` is `middleware` or
/// `fallback`) that does not define its `pub fn`.
pub open spec fn missing_fn_message(name: Seq<char>, path: Seq<char>) -> Seq<char> {
    "`"@ + name + ".rs` found but it does not define a `pub fn "@ + name + "`: '"@ + path
        + "'. Define `pub fn "@ + name + "(router: axum::Router<S>) -> axum::Router<S>` or `pub fn "@
        + name + "(router: axum::Router<S>, state: S) -> axum::Router<S>`."@
}

/// The error for a `middleware.rs` / `fallback.rs` without its `pub fn`.
fn missing_fn_error(name: &str, path: &String) -> (m: String)
    ensures
        m@ == missing_fn_message(name@, path@),
{
    let mut m = String::from_str("`");
    m.append(name);
    m.append(".rs` found but it does not define a `pub fn ");
    m.append(name);
    m.append("`: '");
    m.append(path.as_str());
    m.append("'. Define `pub fn ");
    m.append(name);
    m.append("(router: axum::Router<S>) -> axum::Router<S>` or `pub fn ");
    m.append(name);
    m.append("(router: axum::Router<S>, state: S) -> axum::Router<S>`.");
    assert(m@ =~= missing_fn_message(name@, path@));
    m
}

/// The files that define their `pub fn <name>`, each with its kind.
pub open spec fn kinds_kept(raw: Seq<SourceFile>, name: Seq<char>) -> Seq<KindFile>
    decreases raw.len(),
{
    if raw.len() == 0 {
        seq![]
    } else {
        let r = kinds_kept(raw.drop_last(), name);
        match fn_kind_of(items_of(raw.last()), name) {
            Some(k) => r.push(KindFile { file: raw.last(), kind: k }),
            None => r,
        }
    }
}

/// The errors for the files that do not define their `pub fn <name>`.
pub open spec fn kind_errors(raw: Seq<SourceFile>, name: Seq<char>) -> Seq<Seq<char>>
    decreases raw.len(),
{
    if raw.len() == 0 {
        seq![]
    } else {
        let r = kind_errors(raw.drop_last(), name);
        match fn_kind_of(items_of(raw.last()), name) {
            Some(k) => r,
            None => r.push(missing_fn_message(name, raw.last().path@)),
        }
    }
}

/// Keeps each `middleware.rs` / `fallback.rs` that defines its `pub fn <name>`
/// with the function's kind, and reports each one that does not.
pub fn validate_kinds(errors: &mut Vec<String>, raw: Vec<SourceFile>, name: &str) -> (r: Vec<KindFile>)
    ensures
        r@ == kinds_kept(raw@, name@),
        views(final(errors)@) == views(old(errors)@) + kind_errors(raw@, name@),
{
    let ghost orig = raw@;
    let ghost e0 = views(errors@);
    let mut raw = raw;
    let mut rev: Vec<SourceFile> = Vec::new();
    while raw.len() > 0
        invariant
            rev@.len() + raw@.len() == orig.len(),
            raw@ == orig.subrange(0, raw@.len() as int),
            forall|i: int| 0 <= i < rev@.len() ==> #[trigger] rev@[i] == orig[orig.len() - 1 - i],
        decreases raw.len(),
    {
        let x = raw.pop().unwrap();
        rev.push(x);
        assert(raw@ =~= orig.subrange(0, raw@.len() as int));
    }
    let mut r: Vec<KindFile> = Vec::new();
    let mut i: usize = 0;
    let n = rev.len();
    while rev.len() > 0
        invariant
            n == orig.len(),
            i + rev@.len() == orig.len(),
            forall|j: int| 0 <= j < rev@.len() ==> #[trigger] rev@[j] == orig[orig.len() - 1 - j],
            r@ == kinds_kept(orig.subrange(0, i as int), name@),
            views(errors@) == e0 + kind_errors(orig.subrange(0, i as int), name@),
        decreases rev.len(),
    {
        let x = rev.pop().unwrap();
        assert(x == orig[i as int]);
        let ghost pre = orig.subrange(0, i as int);
        assert(orig.subrange(0, i + 1).drop_last() =~= pre);
        assert(orig.subrange(0, i + 1).last() == x);
        match fn_kind(&x.items, name) {
            Some(kind) => {
                r.push(KindFile { file: x, kind });
            },
            None => {
                let m = missing_fn_error(name, &x.path);
                let ghost ev = views(errors@);
                let ghost mv = m@;
                errors.push(m);
                assert(views(errors@) =~= ev.push(mv));
                assert(kind_errors(orig.subrange(0, i + 1), name@) == kind_errors(pre, name@).push(mv));
                assert(views(errors@) =~= e0 + kind_errors(orig.subrange(0, i + 1), name@));
            },
        }
        i = i + 1;
    }
    assert(orig.subrange(0, orig.len() as int) =~= orig);
    r
}

/// The error for an `intercept.rs` without a `pub fn intercept`.
pub open spec fn no_intercept_message(path: Seq<char>) -> Seq<char> {
    "`intercept.rs` found but it does not define a `pub async fn intercept`: '"@ + path
        + "'. Define `pub async fn intercept(/* extractors… */ req: axum::extract::Request) -> std::ops::ControlFlow<axum::response::Response, axum::extract::Request>`. Use a `State<S>` parameter to receive the app state."@
}

/// The error for an `intercept.rs` whose request is not its one last parameter.
pub open spec fn request_last_message(path: Seq<char>) -> Seq<char> {
    "`intercept.rs` must take exactly one `axum::extract::Request` parameter, and it must be the *last* parameter (extractors come first): '"@
        + path
        + "'. e.g. `pub async fn intercept(State(s): axum::extract::State<S>, req: axum::extract::Request) -> std::ops::ControlFlow<axum::response::Response, axum::extract::Request>`."@
}

/// Exactly one parameter is the forwarded request, and it is the last.
pub open spec fn request_is_last(params: Seq<TypeV>) -> bool {
    &&& params.len() > 0
    &&& is_request_ty(params.last())
    &&& forall|i: int| 0 <= i < params.len() - 1 ==> !is_request_ty(#[trigger] params[i])
}

/// Whether exactly one parameter is the request and it is the last.
pub fn request_last(params: &Vec<RustType>) -> (b: bool)
    ensures
        b == request_is_last(tviews(params@)),
{
    let n = params.len();
    if n == 0 {
        return false;
    }
    let mut i: usize = 0;
    while i + 1 < n
        invariant
            n == params@.len(),
            n > 0,
            i + 1 <= n,
            forall|j: int| 0 <= j < i ==> !is_request_ty(#[trigger] tviews(params@)[j]),
        decreases n - i,
    {
        if is_request_type(&params[i]) {
            assert(is_request_ty(tviews(params@)[i as int]));
            return false;
        }
        i = i + 1;
    }
    assert(tviews(params@).last() == params@[n - 1]@);
    is_request_type(&params[n - 1])
}

/// Whether an `intercept.rs` is accepted: it defines a `pub fn intercept`
/// whose forwarded request is its one last parameter.
pub open spec fn intercept_accepted(f: SourceFile) -> bool {
    intercept_fn(items_of(f)) matches Some(g) && request_is_last(params_of(g))
}

/// The accepted `intercept.rs` files, in order.
pub open spec fn intercepts_kept(raw: Seq<SourceFile>) -> Seq<SourceFile>
    decreases raw.len(),
{
    if raw.len() == 0 {
        seq![]
    } else if intercept_accepted(raw.last()) {
        intercepts_kept(raw.drop_last()).push(raw.last())
    } else {
        intercepts_kept(raw.drop_last())
    }
}

/// The error for a rejected `intercept.rs`.
pub open spec fn intercept_error_of(f: SourceFile) -> Seq<char> {
    if intercept_fn(items_of(f)) is None {
        no_intercept_message(f.path@)
    } else {
        request_last_message(f.path@)
    }
}

/// The errors of the rejected `intercept.rs` files, in order.
pub open spec fn intercept_errors(raw: Seq<SourceFile>) -> Seq<Seq<char>>
    decreases raw.len(),
{
    if raw.len() == 0 {
        seq![]
    } else if intercept_accepted(raw.last()) {
        intercept_errors(raw.drop_last())
    } else {
        intercept_errors(raw.drop_last()).push(intercept_error_of(raw.last()))
    }
}

/// The files of intercept entries.
pub open spec fn intercept_files_of(v: Seq<InterceptFile>) -> Seq<SourceFile> {
    v.map_values(|x: InterceptFile| x.file)
}

/// Each entry carries the signature of its file's `pub fn intercept`.
pub open spec fn sigs_match(v: Seq<InterceptFile>) -> bool {
    forall|i: int|
        0 <= i < v.len() ==> {
            let f = intercept_fn(items_of((#[trigger] v[i]).file))->0;
            &&& tviews(v[i].sig.params@) == params_of(f)
            &&& v[i].sig.stateful == any_state(params_of(f))
        }
}

/// Keeps each `intercept.rs` that defines a `pub fn intercept` whose
/// forwarded request is its one last parameter, with its signature, and
/// reports each one that does not.
pub fn parse_intercepts(errors: &mut Vec<String>, raw: Vec<SourceFile>) -> (r: Vec<InterceptFile>)
    ensures
        intercept_files_of(r@) == intercepts_kept(raw@),
        sigs_match(r@),
        views(final(errors)@) == views(old(errors)@) + intercept_errors(raw@),
        forall|j: int|
            0 <= j < r@.len() ==> tviews((#[trigger] r@[j]).sig.params@).len() > 0 && last_ident_of(
                tviews(r@[j].sig.params@).last(),
            ) == Some("Request"@) && forall|k: int|
                0 <= k < r@[j].sig.params@.len() - 1 ==> last_ident_of(#[trigger] tviews(r@[j].sig.params@)[k])
                    != Some("Request"@),
{
    let ghost orig = raw@;
    let ghost e0 = views(errors@);
    let mut raw = raw;
    let mut rev: Vec<SourceFile> = Vec::new();
    while raw.len() > 0
        invariant
            rev@.len() + raw@.len() == orig.len(),
            raw@ == orig.subrange(0, raw@.len() as int),
            forall|i: int| 0 <= i < rev@.len() ==> #[trigger] rev@[i] == orig[orig.len() - 1 - i],
        decreases raw.len(),
    {
        let x = raw.pop().unwrap();
        rev.push(x);
        assert(raw@ =~= orig.subrange(0, raw@.len() as int));
    }
    let mut r: Vec<InterceptFile> = Vec::new();
    let mut i: usize = 0;
    let n = rev.len();
    while rev.len() > 0
        invariant
            n == orig.len(),
            i + rev@.len() == orig.len(),
            forall|j: int| 0 <= j < rev@.len() ==> #[trigger] rev@[j] == orig[orig.len() - 1 - j],
            intercept_files_of(r@) == intercepts_kept(orig.subrange(0, i as int)),
            sigs_match(r@),
            views(errors@) == e0 + intercept_errors(orig.subrange(0, i as int)),
            forall|j: int|
                0 <= j < r@.len() ==> tviews((#[trigger] r@[j]).sig.params@).len() > 0 && last_ident_of(
                    tviews(r@[j].sig.params@).last(),
                ) == Some("Request"@) && forall|k: int|
                    0 <= k < r@[j].sig.params@.len() - 1 ==> last_ident_of(#[trigger] tviews(r@[j].sig.params@)[k])
                        != Some("Request"@),
        decreases rev.len(),
    {
        let x = rev.pop().unwrap();
        assert(x == orig[i as int]);
        let ghost pre = orig.subrange(0, i as int);
        assert(orig.subrange(0, i + 1).drop_last() =~= pre);
        assert(orig.subrange(0, i + 1).last() == x);
        match intercept_signature(&x.items) {
            None => {
                let mut m = String::from_str(
                    "`intercept.rs` found but it does not define a `pub async fn intercept`: '",
                );
                m.append(x.path.as_str());
                m.append(
                    "'. Define `pub async fn intercept(/* extractors… */ req: axum::extract::Request) -> std::ops::ControlFlow<axum::response::Response, axum::extract::Request>`. Use a `State<S>` parameter to receive the app state.",
                );
                let ghost ev = views(errors@);
                let ghost mv = m@;
                errors.push(m);
                assert(views(errors@) =~= ev.push(mv));
                assert(mv == no_intercept_message(x.path@));
                assert(intercept_errors(orig.subrange(0, i + 1)) == intercept_errors(pre).push(mv));
                assert(views(errors@) =~= e0 + intercept_errors(orig.subrange(0, i + 1)));
            },
            Some(sig) => {
                if request_last(&sig.params) {
                    let ghost r0 = r@;
                    let ghost pv = tviews(sig.params@);
                    r.push(InterceptFile { file: x, sig });
                    assert(r@[r@.len() - 1].sig.params@ == r@.last().sig.params@);
                    assert forall|j: int| 0 <= j < r@.len() implies tviews((#[trigger] r@[j]).sig.params@).len() > 0
                        && last_ident_of(tviews(r@[j].sig.params@).last()) == Some("Request"@) && forall|k: int|
                        0 <= k < r@[j].sig.params@.len() - 1 ==> last_ident_of(
                            #[trigger] tviews(r@[j].sig.params@)[k],
                        ) != Some("Request"@) by {
                        if j < r0.len() {
                            assert(r@[j] == r0[j]);
                        } else {
                            assert(tviews(r@[j].sig.params@) == pv);
                            assert forall|k: int| 0 <= k < pv.len() - 1 implies last_ident_of(#[trigger] pv[k]) != Some("Request"@) by {
                                assert(!is_request_ty(pv[k]));
                            }
                        }
                    }
                    assert(intercept_files_of(r@) =~= intercept_files_of(r0).push(orig[i as int]));
                    assert forall|j: int| 0 <= j < r@.len() implies {
                        let f = intercept_fn(items_of((#[trigger] r@[j]).file))->0;
                        &&& tviews(r@[j].sig.params@) == params_of(f)
                        &&& r@[j].sig.stateful == any_state(params_of(f))
                    } by {
                        if j < r0.len() {
                            assert(r@[j] == r0[j]);
                        }
                    }
                } else {
                    let mut m = String::from_str(
                        "`intercept.rs` must take exactly one `axum::extract::Request` parameter, and it must be the *last* parameter (extractors come first): '",
                    );
                    m.append(x.path.as_str());
                    m.append(
                        "'. e.g. `pub async fn intercept(State(s): axum::extract::State<S>, req: axum::extract::Request) -> std::ops::ControlFlow<axum::response::Response, axum::extract::Request>`.",
                    );
                    let ghost ev = views(errors@);
                    let ghost mv = m@;
                    errors.push(m);
                    assert(views(errors@) =~= ev.push(mv));
                    assert(mv == request_last_message(x.path@));
                    assert(intercept_errors(orig.subrange(0, i + 1)) == intercept_errors(pre).push(mv));
                    assert(views(errors@) =~= e0 + intercept_errors(orig.subrange(0, i + 1)));
                }
            },
        }
        i = i + 1;
    }
    assert(orig.subrange(0, orig.len() as int) =~= orig);
    r
}


/// The error for a route directory with neither a `route.rs` nor a
/// `fallback.rs`.
pub open spec fn no_files_message(path: Seq<char>) -> Seq<char> {
    "No route.rs or fallback.rs files found in the specified directory: '"@ + path
        + "'. Make sure the path is correct and contains at least one route.rs (with an HTTP verb handler) or a fallback.rs (e.g. a ServeDir static server)."@
}

/// `s` is `of` sorted by relative path.
pub open spec fn sorted_perm(s: Seq<SourceFile>, of: Seq<SourceFile>) -> bool {
    sorted_by_rel(s) && s.to_multiset() == of.to_multiset()
}

/// The errors of parsing a route directory at `path`, given its sorted
/// route, middleware, fallback and intercept files.
pub open spec fn parse_errors(
    path: Seq<char>,
    rr: Seq<SourceFile>,
    rm: Seq<SourceFile>,
    rf: Seq<SourceFile>,
    ri: Seq<SourceFile>,
) -> Seq<Seq<char>> {
    (if rr.len() == 0 && rf.len() == 0 {
        seq![no_files_message(path)]
    } else {
        seq![]
    }) + kind_errors(rm, "middleware"@) + kind_errors(rf, "fallback"@) + intercept_errors(ri)
}

impl FolderRouterRoutes {
    /// Sorts and validates the files discovered under the route directory at
    /// `path` (its display form, for messages): every `route.rs` and
    /// `openapi.toml` is kept, every `middleware.rs` / `fallback.rs` /
    /// `intercept.rs` that defines its function, and an error is reported for
    /// each one that does not, and for a directory with no `route.rs` and no
    /// `fallback.rs`.
    pub fn parse_from_path(errors: &mut Vec<String>, path: &String, files: Vec<SourceFile>) -> (r: Self)
        ensures
            exists|rr: Seq<SourceFile>, rm: Seq<SourceFile>, rf: Seq<SourceFile>, ri: Seq<SourceFile>|
                {
                    &&& sorted_perm(rr, files_of(files@, FileKind::Route))
                    &&& sorted_perm(rm, files_of(files@, FileKind::Middleware))
                    &&& sorted_perm(rf, files_of(files@, FileKind::Fallback))
                    &&& sorted_perm(ri, files_of(files@, FileKind::Intercept))
                    &&& r.routes@ == rr
                    &&& r.middleware@ == kinds_kept(rm, "middleware"@)
                    &&& r.fallback@ == kinds_kept(rf, "fallback"@)
                    &&& intercept_files_of(r.intercept@) == intercepts_kept(ri)
                    &&& sigs_match(r.intercept@)
                    &&& views(final(errors)@) == views(old(errors)@) + parse_errors(path@, rr, rm, rf, ri)
                },
            sorted_perm(r.config@, files_of(files@, FileKind::Config)),
            forall|j: int|
                0 <= j < r.intercept@.len() ==> tviews((#[trigger] r.intercept@[j]).sig.params@).len() > 0 && last_ident_of(
                    tviews(r.intercept@[j].sig.params@).last(),
                ) == Some("Request"@) && forall|k: int|
                    0 <= k < r.intercept@[j].sig.params@.len() - 1 ==> last_ident_of(#[trigger] tviews(r.intercept@[j].sig.params@)[k])
                        != Some("Request"@),
    {
        broadcast use vstd::seq_lib::group_to_multiset_ensures;
        let ghost e0 = views(errors@);
        let (a, b, c, d, e) = partition_files(files);
        let routes = sort_files(a);
        let raw_middleware = sort_files(b);
        let raw_fallback = sort_files(c);
        let raw_intercept = sort_files(d);
        let config = sort_files(e);
        let ghost rm = raw_middleware@;
        let ghost rf = raw_fallback@;
        let ghost ri = raw_intercept@;
        if routes.len() == 0 && raw_fallback.len() == 0 {
            let mut m = String::from_str("No route.rs or fallback.rs files found in the specified directory: '");
            m.append(path.as_str());
            m.append(
                "'. Make sure the path is correct and contains at least one route.rs (with an HTTP verb handler) or a fallback.rs (e.g. a ServeDir static server).",
            );
            let ghost mv = m@;
            errors.push(m);
            assert(views(errors@) =~= e0.push(mv));
        } else {
            assert(views(errors@) =~= e0 + Seq::<Seq<char>>::empty());
        }
        let ghost e1 = views(errors@);
        let middleware = validate_kinds(errors, raw_middleware, "middleware");
        let fallback = validate_kinds(errors, raw_fallback, "fallback");
        let intercept = parse_intercepts(errors, raw_intercept);
        assert(views(errors@) =~= e0 + parse_errors(path@, routes@, rm, rf, ri));
        FolderRouterRoutes { routes, middleware, fallback, intercept, config }
    }
}

} // verus!
