//! The OpenAPI document of a router: which routes it lists, under which tags,
//! and what each operation says, derived from the route tree, the handlers'
//! signatures and the per-directory `openapi.toml` files.
use vstd::prelude::*;
use crate::args::{FolderRouterArgs, FolderRouterItem};
use crate::paths::{
    lemma_split_nonempty, dir_components, dirs_of, params_in, path_param_names, route_url, route_url_of, split_chars,
    split_on, views,
};
use crate::routes::{items_of, FolderRouterRoutes, SourceFile};
use crate::source::{
    canonical_methods, doc_of, method_name, op_describes, operations_for_route,
    opt_view, params_of, route_ops, HttpMethod, OperationMeta,
};
use crate::syntax::{
    copy_type, first_generic_type, first_type_arg_of, first_type_in, last_ident_is,
    last_ident_of, lemma_types_view, opt_tview, type_text, tviews, types_view, ArgV, FnV, RustType, TypeV,
};
use crate::text::{chars_of, has_prefix, str_is, string_of_range, trim_of, trim_string};

verus! {

/// What `char::to_uppercase` yields for a character: its Unicode upper-case
/// mapping, one to three characters.
pub uninterp spec fn char_upper(c: char) -> Seq<char>;

/// ASCII upper case of a character (`a`..=`z` mapped to `A`..=`Z`).
pub open spec fn ascii_upper(c: char) -> char {
    if 'a' <= c && c <= 'z' {
        ((c as u32) - 32) as char
    } else {
        c
    }
}

/// Calls `char::to_uppercase` and collects the characters it yields; the
/// result is [`char_upper`] of the character, which for an ASCII character is
/// its ASCII upper case.
#[verifier::external_body]
fn to_uppercase(c: char) -> (r: String)
    ensures
        r@ == char_upper(c),
        (c as u32) < 128 ==> r@ == seq![ascii_upper(c)],
{
    c.to_uppercase().collect()
}

/// Whether a character separates words of a path segment.
pub open spec fn is_word_sep(c: char) -> bool {
    c == '_' || c == '-'
}

/// What the character at `i` contributes to the PascalCase form: nothing
/// for a separator, its upper case when it starts a word, itself otherwise.
pub open spec fn pascal_piece(s: Seq<char>, i: int) -> Seq<char> {
    if is_word_sep(s[i]) {
        seq![]
    } else if i == 0 || is_word_sep(s[i - 1]) {
        char_upper(s[i])
    } else {
        seq![s[i]]
    }
}

/// The PascalCase form of the first `n` characters of `s`.
pub open spec fn pascal_prefix(s: Seq<char>, n: nat) -> Seq<char>
    decreases n,
{
    if n == 0 {
        seq![]
    } else {
        pascal_prefix(s, (n - 1) as nat) + pascal_piece(s, n - 1)
    }
}

/// The PascalCase form of a path segment: split on `_` and `-`, empty words
/// dropped, the first character of each word upper-cased (`api_keys` ->
/// `ApiKeys`).
pub open spec fn pascal_of(s: Seq<char>) -> Seq<char> {
    pascal_prefix(s, s.len())
}

/// Whether every character is ASCII.
pub open spec fn all_ascii(s: Seq<char>) -> bool {
    forall|i: int| 0 <= i < s.len() ==> (#[trigger] s[i] as u32) < 128
}

/// The PascalCase form of the first `n` characters of an ASCII `s`, word
/// starts mapped to their ASCII upper case.
pub open spec fn ascii_pascal_prefix(s: Seq<char>, n: nat) -> Seq<char>
    decreases n,
{
    if n == 0 {
        seq![]
    } else {
        let i = n - 1;
        ascii_pascal_prefix(s, (n - 1) as nat) + if is_word_sep(s[i]) {
            Seq::<char>::empty()
        } else if i == 0 || is_word_sep(s[i - 1]) {
            seq![ascii_upper(s[i])]
        } else {
            seq![s[i]]
        }
    }
}

/// PascalCases a single path segment, see [`pascal_of`]; for an ASCII
/// segment, each word's first character is put in ASCII upper case
/// (`api_keys` -> `ApiKeys`).
pub fn pascal_case(segment: &String) -> (r: String)
    ensures
        r@ == pascal_of(segment@),
        all_ascii(segment@) ==> r@ == ascii_pascal_prefix(segment@, segment@.len()),
{
    let v = chars_of(segment.as_str());
    let mut r = String::new();
    let mut i: usize = 0;
    while i < v.len()
        invariant
            i <= v.len(),
            v@ == segment@,
            r@ == pascal_prefix(v@, i as nat),
            all_ascii(v@) ==> r@ == ascii_pascal_prefix(v@, i as nat),
        decreases v.len() - i,
    {
        let c = v[i];
        assert(all_ascii(v@) ==> (v@[i as int] as u32) < 128);
        if c == '_' || c == '-' {
        } else if i == 0 || v[i - 1] == '_' || v[i - 1] == '-' {
            let u = to_uppercase(c);
            r.append(u.as_str());
        } else {
            r.push(c);
        }
        assert(r@ =~= pascal_prefix(v@, (i + 1) as nat));
        assert(all_ascii(v@) ==> r@ =~= ascii_pascal_prefix(v@, (i + 1) as nat));
        i = i + 1;
    }
    r
}

/// The non-empty pieces, in order.
pub open spec fn nonempty_pieces(ps: Seq<Seq<char>>) -> Seq<Seq<char>>
    decreases ps.len(),
{
    if ps.len() == 0 {
        seq![]
    } else {
        let r = nonempty_pieces(ps.drop_last());
        if ps.last().len() > 0 {
            r.push(ps.last())
        } else {
            r
        }
    }
}

/// The URL segments an operation id is made from: the non-empty pieces
/// between `/`, without a leading `api` when more segments follow it.
pub open spec fn op_segments(url: Seq<char>) -> Seq<Seq<char>> {
    let s = nonempty_pieces(split_on(url, '/'));
    if s.len() > 1 && s[0] == "api"@ {
        s.drop_first()
    } else {
        s
    }
}

/// The text inside a `{...}` segment, when it is one.
pub open spec fn braced_inner(seg: Seq<char>) -> Option<Seq<char>> {
    if seg.len() >= 2 && seg[0] == '{' && seg.last() == '}' {
        Some(seg.subrange(1, seg.len() - 1))
    } else {
        None
    }
}

/// The PascalCase forms of the segments that are not parameters, joined.
pub open spec fn op_name_part(segs: Seq<Seq<char>>) -> Seq<char>
    decreases segs.len(),
{
    if segs.len() == 0 {
        seq![]
    } else {
        op_name_part(segs.drop_last()) + match braced_inner(segs.last()) {
            Some(_) => Seq::<char>::empty(),
            None => pascal_of(segs.last()),
        }
    }
}

/// The PascalCase forms of the parameter names, in order.
pub open spec fn op_params(segs: Seq<Seq<char>>) -> Seq<Seq<char>>
    decreases segs.len(),
{
    if segs.len() == 0 {
        seq![]
    } else {
        let r = op_params(segs.drop_last());
        match braced_inner(segs.last()) {
            Some(p) => r.push(pascal_of(p)),
            None => r,
        }
    }
}

/// The pieces joined with `And` between them.
pub open spec fn join_and(ps: Seq<Seq<char>>) -> Seq<char>
    decreases ps.len(),
{
    if ps.len() == 0 {
        seq![]
    } else if ps.len() == 1 {
        ps[0]
    } else {
        join_and(ps.drop_last()) + "And"@ + ps.last()
    }
}

/// The camelCase `operationId` of a verb at a URL: the verb, the PascalCase
/// non-parameter segments (a single leading `api` dropped), then `By` and the
/// PascalCase parameter names joined with `And`, when there are any.
pub open spec fn operation_id_of(method: Seq<char>, url: Seq<char>) -> Seq<char> {
    let segs = op_segments(url);
    let ps = op_params(segs);
    method + op_name_part(segs) + if ps.len() > 0 {
        "By"@ + join_and(ps)
    } else {
        Seq::<char>::empty()
    }
}

/// The verb prefix keeps operation ids unique: handlers of two different
/// verbs never share an `operationId`, at one URL or at two.
pub proof fn law_operation_ids_distinct(m1: HttpMethod, m2: HttpMethod, url1: Seq<char>, url2: Seq<char>)
    requires
        m1 != m2,
    ensures
        operation_id_of(method_name(m1), url1) != operation_id_of(method_name(m2), url2),
{
    reveal_strlit("any");
    reveal_strlit("get");
    reveal_strlit("post");
    reveal_strlit("put");
    reveal_strlit("delete");
    reveal_strlit("patch");
    reveal_strlit("head");
    reveal_strlit("options");
    reveal_strlit("trace");
    reveal_strlit("connect");
    let a = operation_id_of(method_name(m1), url1);
    let b = operation_id_of(method_name(m2), url2);
    assert(a[0] == method_name(m1)[0] && a[1] == method_name(m1)[1]);
    assert(b[0] == method_name(m2)[0] && b[1] == method_name(m2)[1]);
}

/// The PascalCase form of an ASCII path segment.
pub open spec fn ascii_pascal_of(s: Seq<char>) -> Seq<char> {
    ascii_pascal_prefix(s, s.len())
}

/// [`op_name_part`] with ASCII upper case.
pub open spec fn ascii_op_name_part(segs: Seq<Seq<char>>) -> Seq<char>
    decreases segs.len(),
{
    if segs.len() == 0 {
        seq![]
    } else {
        ascii_op_name_part(segs.drop_last()) + match braced_inner(segs.last()) {
            Some(_) => Seq::<char>::empty(),
            None => ascii_pascal_of(segs.last()),
        }
    }
}

/// [`op_params`] with ASCII upper case.
pub open spec fn ascii_op_params(segs: Seq<Seq<char>>) -> Seq<Seq<char>>
    decreases segs.len(),
{
    if segs.len() == 0 {
        seq![]
    } else {
        let r = ascii_op_params(segs.drop_last());
        match braced_inner(segs.last()) {
            Some(p) => r.push(ascii_pascal_of(p)),
            None => r,
        }
    }
}

/// The `operationId` of a verb at an ASCII URL, see [`operation_id_of`]:
/// each word's first character in ASCII upper case (`get`, `/api/me`) ->
/// `getMe`.
pub open spec fn ascii_operation_id_of(method: Seq<char>, url: Seq<char>) -> Seq<char> {
    let segs = op_segments(url);
    let ps = ascii_op_params(segs);
    method + ascii_op_name_part(segs) + if ps.len() > 0 {
        "By"@ + join_and(ps)
    } else {
        Seq::<char>::empty()
    }
}

/// Upper-casing a segment's words agrees with ASCII upper case for it.
pub open spec fn piece_agrees(seg: Seq<char>) -> bool {
    match braced_inner(seg) {
        Some(p) => pascal_of(p) == ascii_pascal_of(p),
        None => pascal_of(seg) == ascii_pascal_of(seg),
    }
}

/// When every segment agrees, the name part and the parameters do.
proof fn lemma_parts_agree(segs: Seq<Seq<char>>)
    requires
        forall|k: int| 0 <= k < segs.len() ==> piece_agrees(#[trigger] segs[k]),
    ensures
        op_name_part(segs) == ascii_op_name_part(segs),
        op_params(segs) == ascii_op_params(segs),
    decreases segs.len(),
{
    if segs.len() > 0 {
        assert(piece_agrees(segs[segs.len() - 1]));
        lemma_parts_agree(segs.drop_last());
    }
}

/// The pieces of an ASCII text are ASCII.
proof fn lemma_split_ascii(s: Seq<char>, sep: char)
    requires
        all_ascii(s),
    ensures
        forall|i: int| 0 <= i < split_on(s, sep).len() ==> all_ascii(#[trigger] split_on(s, sep)[i]),
    decreases s.len(),
{
    if s.len() > 0 {
        assert(all_ascii(s.drop_last()));
        lemma_split_ascii(s.drop_last(), sep);
        let r = split_on(s.drop_last(), sep);
        assert((s[s.len() - 1] as u32) < 128);
        lemma_split_nonempty(s.drop_last(), sep);
        if s.last() != sep {
            assert(r.len() > 0);
            assert(all_ascii(r[r.len() - 1]));
            assert(all_ascii(r.last().push(s.last())));
        } else {
            assert(all_ascii(Seq::<char>::empty()));
        }
    } else {
        assert(all_ascii(Seq::<char>::empty()));
    }
}

/// Keeping the non-empty pieces keeps them ASCII.
proof fn lemma_nonempty_ascii(ps: Seq<Seq<char>>)
    requires
        forall|i: int| 0 <= i < ps.len() ==> all_ascii(#[trigger] ps[i]),
    ensures
        forall|i: int| 0 <= i < nonempty_pieces(ps).len() ==> all_ascii(#[trigger] nonempty_pieces(ps)[i]),
    decreases ps.len(),
{
    if ps.len() > 0 {
        assert(all_ascii(ps[ps.len() - 1]));
        assert forall|i: int| 0 <= i < ps.drop_last().len() implies all_ascii(#[trigger] ps.drop_last()[i]) by {
            assert(all_ascii(ps[i]));
        }
        lemma_nonempty_ascii(ps.drop_last());
        let r = nonempty_pieces(ps.drop_last());
        assert forall|i: int| 0 <= i < nonempty_pieces(ps).len() implies all_ascii(#[trigger] nonempty_pieces(ps)[i]) by {
            if i < r.len() {
                assert(all_ascii(r[i]));
            }
        }
    }
}

/// The segments of an ASCII URL are ASCII.
proof fn lemma_segments_ascii(url: Seq<char>)
    requires
        all_ascii(url),
    ensures
        forall|k: int| 0 <= k < op_segments(url).len() ==> all_ascii(#[trigger] op_segments(url)[k]),
{
    lemma_split_ascii(url, '/');
    lemma_nonempty_ascii(split_on(url, '/'));
    let s = nonempty_pieces(split_on(url, '/'));
    if s.len() > 1 && s[0] == "api"@ {
        assert forall|k: int| 0 <= k < s.drop_first().len() implies all_ascii(#[trigger] s.drop_first()[k]) by {
            assert(all_ascii(s[k + 1]));
        }
    }
}


/// The non-empty strings of `v`, in order.
fn nonempty_strings(v: &Vec<String>) -> (r: Vec<String>)
    ensures
        views(r@) == nonempty_pieces(views(v@)),
{
    let mut r: Vec<String> = Vec::new();
    let mut i: usize = 0;
    while i < v.len()
        invariant
            i <= v.len(),
            views(r@) == nonempty_pieces(views(v@).subrange(0, i as int)),
        decreases v.len() - i,
    {
        assert(views(v@).subrange(0, i + 1).drop_last() =~= views(v@).subrange(0, i as int));
        if v[i].unicode_len() > 0 {
            r.push(v[i].clone());
        }
        assert(views(r@) =~= nonempty_pieces(views(v@).subrange(0, i + 1)));
        i = i + 1;
    }
    assert(views(v@).subrange(0, v@.len() as int) =~= views(v@));
    r
}

/// Derives the `operationId` of a verb handler from its verb and URL, see
/// [`operation_id_of`]: (`get`, `/api/me`) -> `getMe`, (`delete`,
/// `/api/admin/api_keys/{id}`) -> `deleteAdminApiKeysById`.
pub fn operation_id(method: &str, url: &String) -> (r: String)
    ensures
        r@ == operation_id_of(method@, url@),
        all_ascii(url@) ==> r@ == ascii_operation_id_of(method@, url@),
{
    let v = chars_of(url.as_str());
    let pieces = split_chars(&v, '/');
    let mut segs = nonempty_strings(&pieces);
    if segs.len() > 1 && str_is(&segs[0], "api") {
        let ghost before = views(segs@);
        segs.remove(0);
        assert(views(segs@) =~= before.drop_first());
    }
    assert(views(segs@) == op_segments(url@));
    proof {
        if all_ascii(url@) {
            lemma_segments_ascii(url@);
        }
    }
    let mut name = String::from_str(method);
    let mut params: Vec<String> = Vec::new();
    let mut i: usize = 0;
    while i < segs.len()
        invariant
            i <= segs.len(),
            name@ == method@ + op_name_part(views(segs@).subrange(0, i as int)),
            views(params@) == op_params(views(segs@).subrange(0, i as int)),
            views(segs@) == op_segments(url@),
            all_ascii(url@) ==> forall|k: int| 0 <= k < segs@.len() ==> all_ascii(#[trigger] views(segs@)[k]),
            all_ascii(url@) ==> forall|k: int| 0 <= k < i ==> piece_agrees(#[trigger] views(segs@)[k]),
        decreases segs.len() - i,
    {
        let ghost seg = views(segs@)[i as int];
        let ghost pre = views(segs@).subrange(0, i as int);
        assert(views(segs@).subrange(0, i + 1).drop_last() =~= pre);
        let c = chars_of(segs[i].as_str());
        if c.len() >= 2 && c[0] == '{' && c[c.len() - 1] == '}' {
            let inner = string_of_range(&c, 1, c.len() - 1);
            proof {
                if all_ascii(url@) {
                    assert(all_ascii(seg));
                    assert forall|k: int| 0 <= k < inner@.len() implies (#[trigger] inner@[k] as u32) < 128 by {
                        assert(inner@[k] == seg[k + 1]);
                    }
                }
            }
            let p = pascal_case(&inner);
            assert(braced_inner(seg) == Some(inner@));
            params.push(p);
            assert(name@ =~= method@ + op_name_part(views(segs@).subrange(0, i + 1)));
        } else {
            let p = pascal_case(&segs[i]);
            assert(braced_inner(seg) is None);
            name.append(p.as_str());
            assert(name@ =~= method@ + op_name_part(views(segs@).subrange(0, i + 1)));
        }
        assert(all_ascii(url@) ==> piece_agrees(seg));
        assert(views(params@) =~= op_params(views(segs@).subrange(0, i + 1)));
        i = i + 1;
    }
    assert(views(segs@).subrange(0, segs@.len() as int) =~= views(segs@));
    proof {
        if all_ascii(url@) {
            lemma_parts_agree(views(segs@));
        }
    }
    if params.len() > 0 {
        let ghost base = name@;
        name.append("By");
        let ghost start = name@;
        let mut j: usize = 0;
        while j < params.len()
            invariant
                j <= params.len(),
                start == base + "By"@,
                name@ == start + join_and(views(params@).subrange(0, j as int)),
            decreases params.len() - j,
        {
            assert(views(params@).subrange(0, j + 1).drop_last() =~= views(params@).subrange(0, j as int));
            if j > 0 {
                name.append("And");
            }
            name.append(params[j].as_str());
            assert(name@ =~= start + join_and(views(params@).subrange(0, j + 1)));
            j = j + 1;
        }
        assert(views(params@).subrange(0, params@.len() as int) =~= views(params@));
    } else {
        assert(name@ =~= operation_id_of(method@, url@));
    }
    name
}

/// `k` is the position of the first newline of `s`.
pub open spec fn is_first_newline(s: Seq<char>, k: int) -> bool {
    &&& 0 <= k < s.len()
    &&& s[k] == '\n'
    &&& forall|j: int| 0 <= j < k ==> s[j] != '\n'
}

/// `Some` of a text that is not empty, `None` for the empty text.
pub open spec fn nonblank(t: Seq<char>) -> Option<Seq<char>> {
    if t.len() > 0 {
        Some(t)
    } else {
        None
    }
}

/// The summary of a doc string: its first line, trimmed.
pub open spec fn doc_summary(d: Seq<char>) -> Seq<char> {
    if exists|k: int| is_first_newline(d, k) {
        trim_of(d.take(choose|k: int| is_first_newline(d, k)))
    } else {
        trim_of(d)
    }
}

/// The description of a doc string: the rest after its first line,
/// trimmed, when that is not empty.
pub open spec fn doc_description(d: Seq<char>) -> Option<Seq<char>> {
    if exists|k: int| is_first_newline(d, k) {
        nonblank(trim_of(d.skip((choose|k: int| is_first_newline(d, k)) + 1)))
    } else {
        None
    }
}

/// Splits a doc string into its summary and its description, see
/// [`doc_summary`] and [`doc_description`].
pub fn split_doc(doc: &String) -> (r: (String, Option<String>))
    ensures
        r.0@ == doc_summary(doc@),
        opt_view(r.1) == doc_description(doc@),
{
    let v = chars_of(doc.as_str());
    let mut k: usize = 0;
    while k < v.len() && v[k] != '\n'
        invariant
            k <= v.len(),
            v@ == doc@,
            forall|j: int| 0 <= j < k ==> v@[j] != '\n',
        decreases v.len() - k,
    {
        k = k + 1;
    }
    if k == v.len() {
        assert(!exists|k2: int| is_first_newline(doc@, k2));
        let summary = trim_string(doc);
        (summary, None)
    } else {
        assert(is_first_newline(doc@, k as int));
        assert forall|k2: int| is_first_newline(doc@, k2) implies k2 == k by {
            if k2 < k {
                assert(v@[k2] != '\n');
            }
            if k2 > k {
                assert(doc@[k as int] != '\n');
            }
        }
        let ghost kc = choose|k2: int| is_first_newline(doc@, k2);
        assert(kc == k);
        let first = string_of_range(&v, 0, k);
        let rest = string_of_range(&v, k + 1, v.len());
        assert(first@ =~= doc@.take(k as int));
        assert(rest@ =~= doc@.skip(k + 1));
        let summary = trim_string(&first);
        let description = trim_string(&rest);
        if description.unicode_len() > 0 {
            (summary, Some(description))
        } else {
            (summary, None)
        }
    }
}

/// The element type of a `Vec<T>` (matched by the last path segment, so
/// `std::vec::Vec<T>` counts too); `None` for any other type.
pub open spec fn vec_inner_of(ty: TypeV) -> Option<TypeV> {
    if last_ident_of(ty) == Some("Vec"@) {
        first_type_arg_of(ty)
    } else {
        None
    }
}

/// The element type of a `Vec<T>`, see [`vec_inner_of`].
pub fn vec_inner(ty: &RustType) -> (r: Option<RustType>)
    ensures
        opt_tview(r) == vec_inner_of(ty@),
{
    if last_ident_is(ty, "Vec") {
        first_generic_type(ty)
    } else {
        None
    }
}

/// The first type among arguments lies inside them.
pub proof fn lemma_first_type_in_within(args: Seq<ArgV>)
    requires
        first_type_in(args) is Some,
    ensures
        decreases_to!(args => first_type_in(args)->0),
    decreases args.len(),
{
    match args[0] {
        ArgV::Type { ty } => {
            assert(decreases_to!(args => args[0]));
            assert(decreases_to!(args[0] => args[0]->ty));
        },
        ArgV::Other => {
            lemma_first_type_in_within(args.drop_first());
            assert(decreases_to!(args => args.drop_first()));
        },
    }
}

/// A type argument lies inside its type.
pub proof fn lemma_first_type_arg_within(t: TypeV)
    requires
        first_type_arg_of(t) is Some,
    ensures
        decreases_to!(t => first_type_arg_of(t)->0),
{
    let segments = t->segments;
    let last = segments.last();
    let args = last.args->args;
    lemma_first_type_in_within(args);
    assert(decreases_to!(t => segments));
    assert(decreases_to!(segments => segments[segments.len() - 1]));
    assert(decreases_to!(last => last.args));
    assert(decreases_to!(last.args => args));
}

/// The content schema of a body or response type: a `Vec<T>` becomes an
/// inline array of the schema of `T`; any other type a reference to its
/// named component.
pub ghost enum SchemaV {
    Array { items: Box<SchemaV> },
    Named { ty: TypeV },
}

/// The schema of a body or response type, see [`SchemaV`].
pub open spec fn schema_of(ty: TypeV) -> SchemaV
    decreases ty,
{
    match vec_inner_of(ty) {
        Some(t) => {
            proof {
                lemma_first_type_arg_within(ty);
            }
            SchemaV::Array { items: Box::new(schema_of(t)) }
        },
        None => SchemaV::Named { ty },
    }
}

/// The content schema of a body or response type: inline arrays around a
/// reference to the named component of a type.
#[derive(Debug)]
pub enum SchemaRef {
    /// An inline `array` whose items have this schema.
    Array { items: Box<SchemaRef> },
    /// A reference to the component schema of this type, which is registered.
    Named { ty: RustType },
}

/// The structure of a schema.
pub open spec fn schema_view(s: SchemaRef) -> SchemaV
    decreases s,
{
    match s {
        SchemaRef::Array { items } => SchemaV::Array { items: Box::new(schema_view(*items)) },
        SchemaRef::Named { ty } => SchemaV::Named { ty: ty@ },
    }
}

/// The content schema of a type, see [`schema_of`].
pub fn schema_for(ty: &RustType) -> (r: SchemaRef)
    ensures
        schema_view(r) == schema_of(ty@),
    decreases ty@,
{
    match vec_inner(ty) {
        Some(inner) => {
            proof {
                lemma_first_type_arg_within(ty@);
            }
            let items = schema_for(&inner);
            SchemaRef::Array { items: Box::new(items) }
        },
        None => SchemaRef::Named { ty: copy_type(ty) },
    }
}

/// How a request body is encoded.
#[derive(Debug, Clone, Copy, PartialEq, Eq, Structural)]
pub enum BodyKind {
    /// `Json<T>`: `application/json`.
    Json,
    /// `Form<T>`: `application/x-www-form-urlencoded`.
    Form,
}

/// The content type of a body kind.
pub open spec fn content_type_of(k: BodyKind) -> Seq<char> {
    match k {
        BodyKind::Json => "application/json"@,
        BodyKind::Form => "application/x-www-form-urlencoded"@,
    }
}

impl BodyKind {
    /// The content type of this body kind, see [`content_type_of`].
    pub fn content_type(&self) -> (s: &'static str)
        ensures
            s@ == content_type_of(*self),
    {
        match self {
            BodyKind::Json => "application/json",
            BodyKind::Form => "application/x-www-form-urlencoded",
        }
    }
}

/// The request body a parameter type stands for: `Json<T>` and `Form<T>`
/// (by last path segment) with their payload type `T`.
pub open spec fn body_at(ty: TypeV) -> Option<(BodyKind, TypeV)> {
    let id = last_ident_of(ty);
    if id == Some("Json"@) || id == Some("Form"@) {
        match first_type_arg_of(ty) {
            Some(t) => Some(
                (
                    if id == Some("Json"@) {
                        BodyKind::Json
                    } else {
                        BodyKind::Form
                    },
                    t,
                ),
            ),
            None => None,
        }
    } else {
        None
    }
}

/// The request body of the first parameter that is one.
pub open spec fn body_of(ps: Seq<TypeV>) -> Option<(BodyKind, TypeV)>
    decreases ps.len(),
{
    if ps.len() == 0 {
        None
    } else {
        match body_at(ps[0]) {
            Some(b) => Some(b),
            None => body_of(ps.drop_first()),
        }
    }
}

/// A recognised request body: its encoding and payload type.
#[derive(Debug)]
pub struct RequestBody {
    pub kind: BodyKind,
    pub ty: RustType,
}

/// The request body of a handler: its first `Json<T>` / `Form<T>` parameter,
/// see [`body_of`].
pub fn request_body(params: &Vec<RustType>) -> (r: Option<RequestBody>)
    ensures
        match r {
            Some(b) => body_of(tviews(params@)) == Some((b.kind, b.ty@)),
            None => body_of(tviews(params@)) is None,
        },
{
    let ghost ps = tviews(params@);
    let mut i: usize = 0;
    assert(ps.skip(0) =~= ps);
    while i < params.len()
        invariant
            i <= params.len(),
            ps == tviews(params@),
            body_of(ps) == body_of(ps.skip(i as int)),
        decreases params.len() - i,
    {
        assert(ps.skip(i as int).drop_first() =~= ps.skip(i + 1));
        assert(ps.skip(i as int)[0] == params@[i as int]@);
        let json = last_ident_is(&params[i], "Json");
        if json || last_ident_is(&params[i], "Form") {
            match first_generic_type(&params[i]) {
                Some(t) => {
                    let kind = if json {
                        BodyKind::Json
                    } else {
                        BodyKind::Form
                    };
                    return Some(RequestBody { kind, ty: t });
                },
                None => {},
            }
        }
        i = i + 1;
    }
    None
}

/// The payload type of a `Query<T>` parameter type.
pub open spec fn query_at(ty: TypeV) -> Option<TypeV> {
    if last_ident_of(ty) == Some("Query"@) {
        first_type_arg_of(ty)
    } else {
        None
    }
}

/// The payload type of the first `Query<T>` parameter.
pub open spec fn query_of(ps: Seq<TypeV>) -> Option<TypeV>
    decreases ps.len(),
{
    if ps.len() == 0 {
        None
    } else {
        match query_at(ps[0]) {
            Some(t) => Some(t),
            None => query_of(ps.drop_first()),
        }
    }
}

/// The `T` of the first `Query<T>` parameter of a handler, see [`query_of`].
pub fn query_type(params: &Vec<RustType>) -> (r: Option<RustType>)
    ensures
        opt_tview(r) == query_of(tviews(params@)),
{
    let ghost ps = tviews(params@);
    let mut i: usize = 0;
    assert(ps.skip(0) =~= ps);
    while i < params.len()
        invariant
            i <= params.len(),
            ps == tviews(params@),
            query_of(ps) == query_of(ps.skip(i as int)),
        decreases params.len() - i,
    {
        assert(ps.skip(i as int).drop_first() =~= ps.skip(i + 1));
        assert(ps.skip(i as int)[0] == params@[i as int]@);
        if last_ident_is(&params[i], "Query") {
            let t = first_generic_type(&params[i]);
            if t.is_some() {
                return t;
            }
        }
        i = i + 1;
    }
    None
}

/// The response body type recovered from a return type: `T` of `Json<T>`,
/// the response of `R` in `Result<R, _>`, or of the first element of a tuple
/// that has one; `None` otherwise (`impl IntoResponse`, `String`, ...).
pub open spec fn response_of(ty: TypeV) -> Option<TypeV>
    decreases ty,
{
    let id = last_ident_of(ty);
    if id == Some("Json"@) {
        first_type_arg_of(ty)
    } else if id == Some("Result"@) {
        match first_type_arg_of(ty) {
            Some(t) => {
                proof {
                    lemma_first_type_arg_within(ty);
                }
                response_of(t)
            },
            None => None,
        }
    } else {
        match ty {
            TypeV::Tuple { elems, .. } => first_response(elems),
            _ => None,
        }
    }
}

/// The response of the first of `elems` that has one.
pub open spec fn first_response(elems: Seq<TypeV>) -> Option<TypeV>
    decreases elems,
{
    if elems.len() == 0 {
        None
    } else {
        match response_of(elems[0]) {
            Some(t) => Some(t),
            None => first_response(elems.drop_first()),
        }
    }
}

/// The response body type of a handler's return type, see [`response_of`].
pub fn response_type(ret: &RustType) -> (r: Option<RustType>)
    ensures
        opt_tview(r) == response_of(ret@),
    decreases ret@,
{
    if last_ident_is(ret, "Json") {
        first_generic_type(ret)
    } else if last_ident_is(ret, "Result") {
        match first_generic_type(ret) {
            Some(t) => {
                proof {
                    lemma_first_type_arg_within(ret@);
                }
                response_type(&t)
            },
            None => None,
        }
    } else {
        match ret {
            RustType::Tuple { elems, .. } => {
                let ghost ev = tviews(elems@);
                assert(ev =~= types_view(elems@)) by {
                    lemma_types_view(elems@);
                }
                assert(response_of(ret@) == first_response(ev));
                let mut i: usize = 0;
                assert(ev.skip(0) =~= ev);
                while i < elems.len()
                    invariant
                        i <= elems.len(),
                        ev == tviews(elems@),
                        ev == types_view(elems@),
                        ret@ == (TypeV::Tuple { elems: ev, text: type_text(*ret) }),
                        response_of(ret@) == first_response(ev.skip(i as int)),
                    decreases elems.len() - i,
                {
                    assert(ev.skip(i as int).drop_first() =~= ev.skip(i + 1));
                    assert(ev.skip(i as int)[0] == elems@[i as int]@);
                    proof {
                        assert(decreases_to!(ret@ => ev));
                        assert(decreases_to!(ev => ev[i as int]));
                    }
                    let x = response_type(&elems[i]);
                    if x.is_some() {
                        return x;
                    }
                    i = i + 1;
                }
                None
            },
            _ => None,
        }
    }
}

/// A TOML table (`toml::Table`, a `toml::map::Map<String, toml::Value>`).
#[verifier::external_type_specification]
#[verifier::external_body]
#[verifier::reject_recursive_types(K)]
#[verifier::reject_recursive_types(V)]
pub struct ExTomlMap<K, V>(toml::map::Map<K, V>);

/// A TOML value.
#[verifier::external_type_specification]
#[verifier::external_body]
pub struct ExTomlValue(toml::Value);

/// The error of parsing TOML.
#[verifier::external_type_specification]
#[verifier::external_body]
pub struct ExTomlError(toml::de::Error);

/// The top-level entries of a TOML table: each key with what
/// `Value::as_bool` and `Value::as_str` give of its value.
pub uninterp spec fn table_entries(t: toml::Table) -> Map<Seq<char>, (Option<bool>, Option<Seq<char>>)>;

/// The top-level entries (as in [`table_entries`]) of the table a text
/// parses to as a TOML document; `None` when it is not valid TOML.
pub uninterp spec fn toml_document(text: Seq<char>) -> Option<Map<Seq<char>, (Option<bool>, Option<Seq<char>>)>>;

/// Calls `str::parse::<toml::Table>` (the `FromStr` of `toml::Table`): `Ok`
/// exactly when the text is a valid TOML document, with a table whose
/// entries are [`toml_document`] of the text.
#[verifier::external_body]
fn parse_toml_table(text: &str) -> (r: Result<toml::Table, toml::de::Error>)
    ensures
        (r is Ok) == (toml_document(text@) is Some),
        r matches Ok(t) ==> toml_document(text@) == Some(table_entries(t)),
{
    text.parse::<toml::Table>()
}

/// Calls `toml::map::Map::get` on a table and tells a boolean or a string
/// value apart: for a present key, what `as_bool` and `as_str` give of its
/// value, as [`table_entries`] records it.
#[verifier::external_body]
fn table_get(t: &toml::Table, key: &str) -> (r: Option<(Option<bool>, Option<String>)>)
    ensures
        match r {
            Some(x) => table_entries(*t).contains_key(key@) && table_entries(*t)[key@] == (
                x.0,
                opt_view(x.1),
            ),
            None => !table_entries(*t).contains_key(key@),
        },
{
    match t.get(key) {
        Some(toml::Value::Boolean(b)) => Some((Some(*b), None)),
        Some(toml::Value::String(s)) => Some((None, Some(s.clone()))),
        Some(_) => Some((None, None)),
        None => None,
    }
}

/// Renders a TOML parse error with its `Display` (the message the `toml`
/// crate writes, with the error's place in the text); nothing is stated of
/// the text.
#[verifier::external_body]
fn toml_error_text(e: &toml::de::Error) -> String {
    e.to_string()
}

/// The per-directory OpenAPI settings of an `openapi.toml`.
#[derive(Debug)]
pub struct OpenApiConfig {
    /// Whether the routes of the directory (and below) are listed.
    pub listed: Option<bool>,
    /// The tag of their operations.
    pub tag: Option<String>,
    /// Whether they are tagged by the directory right below this one.
    pub auto_tag: Option<bool>,
}

/// The boolean at `key` in TOML entries, when there is one.
pub open spec fn bool_entry(es: Map<Seq<char>, (Option<bool>, Option<Seq<char>>)>, key: Seq<char>) -> Option<bool> {
    if es.contains_key(key) {
        es[key].0
    } else {
        None
    }
}

/// The string at `key` in TOML entries, when there is one.
pub open spec fn str_entry(es: Map<Seq<char>, (Option<bool>, Option<Seq<char>>)>, key: Seq<char>) -> Option<Seq<char>> {
    if es.contains_key(key) {
        es[key].1
    } else {
        None
    }
}

/// `c` holds the `include`, `tag` and `auto_tag` settings of the entries.
pub open spec fn config_matches(c: OpenApiConfig, es: Map<Seq<char>, (Option<bool>, Option<Seq<char>>)>) -> bool {
    &&& c.listed == bool_entry(es, "include"@)
    &&& opt_view(c.tag) == str_entry(es, "tag"@)
    &&& c.auto_tag == bool_entry(es, "auto_tag"@)
}

/// The settings of a parsed `openapi.toml`: the boolean `include`, the
/// string `tag` and the boolean `auto_tag` (each left unset when absent or of
/// another type).
pub fn config_of_table(t: &toml::Table) -> (c: OpenApiConfig)
    ensures
        config_matches(c, table_entries(*t)),
{
    let listed = match table_get(t, "include") {
        Some(x) => x.0,
        None => None,
    };
    let tag = match table_get(t, "tag") {
        Some(x) => x.1,
        None => None,
    };
    let auto_tag = match table_get(t, "auto_tag") {
        Some(x) => x.0,
        None => None,
    };
    OpenApiConfig { listed, tag, auto_tag }
}

/// The error for an `openapi.toml` that could not be read.
pub open spec fn read_failed_message(path: Seq<char>, err: Seq<char>) -> Seq<char> {
    "failed to read "@ + path + ": "@ + err
}

/// How the error for an `openapi.toml` that is not valid TOML begins (the
/// parser's own message follows).
pub open spec fn invalid_toml_prefix(path: Seq<char>) -> Seq<char> {
    "invalid TOML in "@ + path + ": "@
}

/// Why a file could not be read, as text (empty when unknown).
pub open spec fn read_error_text(f: SourceFile) -> Seq<char> {
    match f.read_error {
        Some(e) => e@,
        None => seq![],
    }
}

/// Whether an `openapi.toml` was read and is valid TOML.
pub open spec fn config_ok(f: SourceFile) -> bool {
    f.content matches Some(t) && toml_document(t@) is Some
}

/// `m` is the error reported for the `openapi.toml` `f`.
pub open spec fn config_error_of(m: Seq<char>, f: SourceFile) -> bool {
    match f.content {
        None => m == read_failed_message(f.path@, read_error_text(f)),
        Some(_) => has_prefix(m, invalid_toml_prefix(f.path@)),
    }
}

/// Reads the settings of an `openapi.toml` from its content; an error names
/// the file when it could not be read or is not valid TOML.
pub fn read_config(f: &SourceFile) -> (r: Result<OpenApiConfig, String>)
    ensures
        config_ok(*f) ==> (r matches Ok(c) && config_matches(
            c,
            toml_document(f.content->0@)->0,
        )),
        !config_ok(*f) ==> (r matches Err(m) && config_error_of(m@, *f)),
{
    match &f.content {
        None => {
            let mut m = String::from_str("failed to read ");
            m.append(f.path.as_str());
            m.append(": ");
            match &f.read_error {
                Some(e) => m.append(e.as_str()),
                None => {},
            }
            Err(m)
        },
        Some(text) => match parse_toml_table(text.as_str()) {
            Ok(t) => Ok(config_of_table(&t)),
            Err(e) => {
                let mut m = String::from_str("invalid TOML in ");
                m.append(f.path.as_str());
                m.append(": ");
                let ghost p = m@;
                let detail = toml_error_text(&e);
                m.append(detail.as_str());
                assert(m@.subrange(0, p.len() as int) =~= p);
                Err(m)
            },
        },
    }
}

/// The settings of an `openapi.toml` with the directory it sits in.
#[derive(Debug)]
pub struct DirConfig {
    pub dir: Vec<String>,
    pub config: OpenApiConfig,
}

/// The `openapi.toml` files that could not be read or are not valid TOML,
/// in order.
pub open spec fn failing_configs(fs: Seq<SourceFile>) -> Seq<SourceFile>
    decreases fs.len(),
{
    if fs.len() == 0 {
        seq![]
    } else {
        let r = failing_configs(fs.drop_last());
        if config_ok(fs.last()) {
            r
        } else {
            r.push(fs.last())
        }
    }
}

/// `cs` holds, in order, the directory and the settings of each of the
/// (valid) `openapi.toml` files `fs`.
pub open spec fn configs_match(cs: Seq<DirConfig>, fs: Seq<SourceFile>) -> bool {
    &&& cs.len() == fs.len()
    &&& forall|i: int|
        0 <= i < cs.len() ==> views((#[trigger] cs[i]).dir@) == dirs_of(views(fs[i].rel@))
            && config_matches(cs[i].config, toml_document(fs[i].content->0@)->0)
}

/// Reads every `openapi.toml`. When each one reads and parses, returns their
/// settings in order; otherwise appends one error per failing file, in
/// order, and returns `None`.
pub fn load_configs(errors: &mut Vec<String>, files: &Vec<SourceFile>) -> (r: Option<Vec<DirConfig>>)
    ensures
        (r is Some) == (failing_configs(files@).len() == 0),
        r matches Some(cs) ==> configs_match(cs@, files@),
        final(errors)@.len() == old(errors)@.len() + failing_configs(files@).len(),
        final(errors)@.subrange(0, old(errors)@.len() as int) == old(errors)@,
        forall|k: int|
            0 <= k < failing_configs(files@).len() ==> config_error_of(
                #[trigger] final(errors)@[old(errors)@.len() + k]@,
                failing_configs(files@)[k],
            ),
{
    let ghost e0 = errors@;
    let mut configs: Vec<DirConfig> = Vec::new();
    let mut had_error = false;
    let mut i: usize = 0;
    while i < files.len()
        invariant
            i <= files.len(),
            had_error == (failing_configs(files@.subrange(0, i as int)).len() > 0),
            errors@.len() == e0.len() + failing_configs(files@.subrange(0, i as int)).len(),
            errors@.subrange(0, e0.len() as int) == e0,
            forall|k: int|
                0 <= k < failing_configs(files@.subrange(0, i as int)).len() ==> config_error_of(
                    #[trigger] errors@[e0.len() + k]@,
                    failing_configs(files@.subrange(0, i as int))[k],
                ),
            failing_configs(files@.subrange(0, i as int)).len() == 0 ==> configs_match(
                configs@,
                files@.subrange(0, i as int),
            ),
        decreases files.len() - i,
    {
        let ghost pre = files@.subrange(0, i as int);
        let ghost nxt = files@.subrange(0, i + 1);
        assert(nxt.drop_last() =~= pre);
        assert(nxt.last() == files@[i as int]);
        match read_config(&files[i]) {
            Ok(config) => {
                let dir = dir_components(&files[i].rel);
                configs.push(DirConfig { dir, config });
                assert(failing_configs(nxt) == failing_configs(pre));
                proof {
                    if failing_configs(pre).len() == 0 {
                        assert forall|j: int| 0 <= j < configs@.len() implies views(
                            (#[trigger] configs@[j]).dir@,
                        ) == dirs_of(views(nxt[j].rel@)) && config_matches(
                            configs@[j].config,
                            toml_document(nxt[j].content->0@)->0,
                        ) by {
                            if j < i {
                                assert(nxt[j] == pre[j]);
                            }
                        }
                    }
                }
            },
            Err(m) => {
                let ghost before = errors@;
                errors.push(m);
                had_error = true;
                assert(errors@.subrange(0, e0.len() as int) =~= before.subrange(0, e0.len() as int));
                assert(failing_configs(nxt) == failing_configs(pre).push(files@[i as int]));
            },
        }
        i = i + 1;
    }
    assert(files@.subrange(0, files@.len() as int) =~= files@);
    if had_error {
        None
    } else {
        Some(configs)
    }
}

/// The settings of the first `openapi.toml` that sits in directory `p`.
pub open spec fn config_at(cs: Seq<DirConfig>, p: Seq<Seq<char>>) -> Option<OpenApiConfig>
    decreases cs.len(),
{
    if cs.len() == 0 {
        None
    } else if views(cs[0].dir@) == p {
        Some(cs[0].config)
    } else {
        config_at(cs.drop_first(), p)
    }
}

/// Whether the routes in `dir` are listed, looking at the ancestors of `dir`
/// whose prefix length is below `n`, most specific first: the first that
/// sets `include` decides; `false` when none does.
pub open spec fn listed_from(dir: Seq<Seq<char>>, cs: Seq<DirConfig>, n: nat) -> bool
    decreases n,
{
    if n == 0 {
        false
    } else {
        match config_at(cs, dir.take(n - 1)) {
            Some(c) => match c.listed {
                Some(b) => b,
                None => listed_from(dir, cs, (n - 1) as nat),
            },
            None => listed_from(dir, cs, (n - 1) as nat),
        }
    }
}

/// Whether the routes in `dir` are listed: the `include` of the most specific
/// directory on the way from the root to `dir` (itself included) whose
/// `openapi.toml` sets it; `false` (opt-in) when none does.
pub open spec fn listed_in(dir: Seq<Seq<char>>, cs: Seq<DirConfig>) -> bool {
    listed_from(dir, cs, dir.len() + 1)
}

/// The index of the first config that sits in the directory made of the
/// first `k` components of `dir`.
fn find_config(cs: &Vec<DirConfig>, dir: &Vec<String>, k: usize) -> (r: Option<usize>)
    requires
        k <= dir.len(),
    ensures
        match r {
            Some(i) => i < cs.len() && config_at(cs@, views(dir@).take(k as int)) == Some(
                cs@[i as int].config,
            ),
            None => config_at(cs@, views(dir@).take(k as int)) is None,
        },
{
    let ghost p = views(dir@).take(k as int);
    let mut i: usize = 0;
    assert(cs@.skip(0) =~= cs@);
    while i < cs.len()
        invariant
            i <= cs.len(),
            k <= dir.len(),
            p == views(dir@).take(k as int),
            config_at(cs@, p) == config_at(cs@.skip(i as int), p),
        decreases cs.len() - i,
    {
        assert(cs@.skip(i as int).drop_first() =~= cs@.skip(i + 1));
        assert(cs@.skip(i as int)[0] == cs@[i as int]);
        let d = &cs[i].dir;
        assert(views(d@).len() == d@.len());
        let mut same = d.len() == k;
        let mut j: usize = 0;
        while same && j < k
            invariant
                j <= k <= dir.len(),
                same ==> d@.len() == k,
                same ==> forall|x: int| 0 <= x < j ==> d@[x]@ == dir@[x]@,
                !same ==> views(d@) != p,
                p == views(dir@).take(k as int),
                p.len() == k,
            decreases k - j,
        {
            if d[j] != dir[j] {
                same = false;
                assert(views(d@)[j as int] != p[j as int]);
            }
            j = j + 1;
        }
        if same {
            assert(views(d@) =~= p);
            return Some(i);
        }
        i = i + 1;
    }
    None
}

/// Whether the routes in `dir` are listed in the document, see
/// [`listed_in`].
pub fn resolve_include(dir: &Vec<String>, configs: &Vec<DirConfig>) -> (b: bool)
    ensures
        b == listed_in(views(dir@), configs@),
{
    let mut n: usize = dir.len();
    loop
        invariant
            n <= dir.len(),
            listed_in(views(dir@), configs@) == listed_from(views(dir@), configs@, (n + 1) as nat),
        decreases n,
    {
        match find_config(configs, dir, n) {
            Some(i) => match configs[i].config.listed {
                Some(b) => {
                    return b;
                },
                None => {},
            },
            None => {},
        }
        if n == 0 {
            assert(listed_from(views(dir@), configs@, 0) == false);
            return false;
        }
        n = n - 1;
    }
}

/// Below the length of `d`, the prefixes of `d` and of `d` without its last
/// name agree.
proof fn lemma_listed_from_drop(d: Seq<Seq<char>>, cs: Seq<DirConfig>, n: nat)
    requires
        d.len() > 0,
        n <= d.len(),
    ensures
        listed_from(d, cs, n) == listed_from(d.drop_last(), cs, n),
    decreases n,
{
    if n > 0 {
        assert(d.take(n - 1) =~= d.drop_last().take(n - 1));
        lemma_listed_from_drop(d, cs, (n - 1) as nat);
    }
}

/// Routes are opt-in and `include` is inherited: the routes of the root are
/// listed only when the root's `openapi.toml` sets `include = true`, and the
/// routes of a subdirectory follow its own `openapi.toml`'s `include` when it
/// sets one (`false` hides the branch even when a parent opted in, a deeper
/// `true` lists it again), and otherwise those of its parent.
pub proof fn law_include_inherited(dir: Seq<Seq<char>>, cs: Seq<DirConfig>)
    ensures
        listed_in(dir, cs) == match config_at(cs, dir) {
            Some(c) => match c.listed {
                Some(b) => b,
                None => dir.len() > 0 && listed_in(dir.drop_last(), cs),
            },
            None => dir.len() > 0 && listed_in(dir.drop_last(), cs),
        },
{
    assert(dir.take(dir.len() as int) =~= dir);
    if dir.len() > 0 {
        lemma_listed_from_drop(dir, cs, dir.len());
    } else {
        assert(listed_from(dir, cs, 0) == false);
    }
}

/// Whether an `openapi.toml`'s settings define `auto_tag`.
pub open spec fn defines_auto_tag(c: Option<OpenApiConfig>) -> bool {
    c matches Some(x) && x.auto_tag is Some
}

/// Whether an `openapi.toml`'s settings define `tag`.
pub open spec fn defines_tag(c: Option<OpenApiConfig>) -> bool {
    c matches Some(x) && x.tag is Some
}

/// The `auto_tag` key in effect for the routes in `dir`, looking at the
/// ancestors whose prefix length is below `n`, most specific first: the
/// prefix length of the first whose `openapi.toml` defines the key, with its
/// value.
pub open spec fn auto_tag_from(dir: Seq<Seq<char>>, cs: Seq<DirConfig>, n: nat) -> Option<(nat, bool)>
    decreases n,
{
    if n == 0 {
        None
    } else {
        let k = (n - 1) as nat;
        match config_at(cs, dir.take(k as int)) {
            Some(c) => match c.auto_tag {
                Some(b) => Some((k, b)),
                None => auto_tag_from(dir, cs, k),
            },
            None => auto_tag_from(dir, cs, k),
        }
    }
}

/// The `tag` key in effect for the routes in `dir`, looking at the ancestors
/// whose prefix length is below `n`, most specific first: the prefix length
/// of the first whose `openapi.toml` defines the key, with its value.
pub open spec fn tag_key_from(dir: Seq<Seq<char>>, cs: Seq<DirConfig>, n: nat) -> Option<(nat, Seq<char>)>
    decreases n,
{
    if n == 0 {
        None
    } else {
        let k = (n - 1) as nat;
        match config_at(cs, dir.take(k as int)) {
            Some(c) => match c.tag {
                Some(t) => Some((k, t@)),
                None => tag_key_from(dir, cs, k),
            },
            None => tag_key_from(dir, cs, k),
        }
    }
}

/// The tag of the routes in `dir`. Each key is resolved on its own, by the
/// most specific directory on the way from the root to `dir` (itself
/// included) whose `openapi.toml` defines it. When the `auto_tag` in effect
/// is `true` and `dir` lies below its directory, the routes are tagged with
/// the name of the directory right below it on their way, unless the `tag`
/// in effect is defined deeper still, which then overrides it; otherwise the
/// `tag` in effect applies (none when no directory defines one).
pub open spec fn tag_in(dir: Seq<Seq<char>>, cs: Seq<DirConfig>) -> Option<Seq<char>> {
    let t = tag_key_from(dir, cs, dir.len() + 1);
    let explicit = match t {
        Some((_, v)) => Some(v),
        None => None,
    };
    match auto_tag_from(dir, cs, dir.len() + 1) {
        Some((ka, true)) => if ka < dir.len() && !(t matches Some((kt, _)) && kt > ka) {
            Some(dir[ka as int])
        } else {
            explicit
        },
        _ => explicit,
    }
}

/// The `auto_tag` key is decided by its nearest definer alone, whatever
/// `tag` settings lie between.
proof fn lemma_nearest_auto_tag(dir: Seq<Seq<char>>, cs: Seq<DirConfig>, k: int, n: nat)
    requires
        -1 <= k < n,
        k >= 0 ==> defines_auto_tag(config_at(cs, dir.take(k))),
        forall|j: int| k < j < n ==> !#[trigger] defines_auto_tag(config_at(cs, dir.take(j))),
    ensures
        auto_tag_from(dir, cs, n) == if k >= 0 {
            Some((k as nat, config_at(cs, dir.take(k))->0.auto_tag->0))
        } else {
            None
        },
    decreases n,
{
    if n > 0 && n - 1 > k {
        assert(!defines_auto_tag(config_at(cs, dir.take(n - 1))));
        lemma_nearest_auto_tag(dir, cs, k, (n - 1) as nat);
    }
}

/// The `tag` key is decided by its nearest definer alone, whatever
/// `auto_tag` settings lie between.
proof fn lemma_nearest_tag(dir: Seq<Seq<char>>, cs: Seq<DirConfig>, k: int, n: nat)
    requires
        -1 <= k < n,
        k >= 0 ==> defines_tag(config_at(cs, dir.take(k))),
        forall|j: int| k < j < n ==> !#[trigger] defines_tag(config_at(cs, dir.take(j))),
    ensures
        tag_key_from(dir, cs, n) == if k >= 0 {
            Some((k as nat, config_at(cs, dir.take(k))->0.tag->0@))
        } else {
            None
        },
    decreases n,
{
    if n > 0 && n - 1 > k {
        assert(!defines_tag(config_at(cs, dir.take(n - 1))));
        lemma_nearest_tag(dir, cs, k, (n - 1) as nat);
    }
}

/// Tag resolution is most-specific-ancestor wins, per key: let `ka` be the
/// prefix length of the nearest directory on the way to `dir` whose
/// `openapi.toml` defines `auto_tag`, and `kt` that of the nearest one
/// defining `tag` (`-1` when there is none). When that `auto_tag` is `true`
/// and `dir` lies below its directory, the routes are tagged with the name of
/// the directory right below it, unless the `tag` is defined deeper, which
/// then overrides it; otherwise they get that `tag`, or none.
pub proof fn law_tag_per_key(dir: Seq<Seq<char>>, cs: Seq<DirConfig>, ka: int, kt: int)
    requires
        -1 <= ka <= dir.len(),
        -1 <= kt <= dir.len(),
        ka >= 0 ==> defines_auto_tag(config_at(cs, dir.take(ka))),
        forall|j: int| ka < j <= dir.len() ==> !#[trigger] defines_auto_tag(config_at(cs, dir.take(j))),
        kt >= 0 ==> defines_tag(config_at(cs, dir.take(kt))),
        forall|j: int| kt < j <= dir.len() ==> !#[trigger] defines_tag(config_at(cs, dir.take(j))),
    ensures
        tag_in(dir, cs) == if ka >= 0 && config_at(cs, dir.take(ka))->0.auto_tag == Some(true) && ka < dir.len() && kt <= ka {
            Some(dir[ka])
        } else if kt >= 0 {
            Some(config_at(cs, dir.take(kt))->0.tag->0@)
        } else {
            None
        },
{
    lemma_nearest_auto_tag(dir, cs, ka, dir.len() + 1);
    lemma_nearest_tag(dir, cs, kt, dir.len() + 1);
}

/// The nearest `auto_tag` in effect for `dir`: the prefix length of its
/// directory and its value, see [`auto_tag_from`].
fn nearest_auto_tag(dir: &Vec<String>, configs: &Vec<DirConfig>) -> (r: Option<(usize, bool)>)
    ensures
        match r {
            Some((k, b)) => auto_tag_from(views(dir@), configs@, dir@.len() + 1) == Some((k as nat, b)),
            None => auto_tag_from(views(dir@), configs@, dir@.len() + 1) is None,
        },
{
    let mut n: usize = dir.len();
    loop
        invariant
            n <= dir.len(),
            auto_tag_from(views(dir@), configs@, dir@.len() + 1) == auto_tag_from(views(dir@), configs@, (n + 1) as nat),
        decreases n,
    {
        match find_config(configs, dir, n) {
            Some(i) => match configs[i].config.auto_tag {
                Some(b) => {
                    return Some((n, b));
                },
                None => {},
            },
            None => {},
        }
        if n == 0 {
            assert(auto_tag_from(views(dir@), configs@, 0) is None);
            return None;
        }
        n = n - 1;
    }
}

/// The nearest `tag` in effect for `dir`: the prefix length of its directory
/// and its value, see [`tag_key_from`].
fn nearest_tag(dir: &Vec<String>, configs: &Vec<DirConfig>) -> (r: Option<(usize, String)>)
    ensures
        match r {
            Some((k, t)) => tag_key_from(views(dir@), configs@, dir@.len() + 1) == Some((k as nat, t@)),
            None => tag_key_from(views(dir@), configs@, dir@.len() + 1) is None,
        },
{
    let mut n: usize = dir.len();
    loop
        invariant
            n <= dir.len(),
            tag_key_from(views(dir@), configs@, dir@.len() + 1) == tag_key_from(views(dir@), configs@, (n + 1) as nat),
        decreases n,
    {
        match find_config(configs, dir, n) {
            Some(i) => match &configs[i].config.tag {
                Some(t) => {
                    return Some((n, t.clone()));
                },
                None => {},
            },
            None => {},
        }
        if n == 0 {
            assert(tag_key_from(views(dir@), configs@, 0) is None);
            return None;
        }
        n = n - 1;
    }
}

/// The tag of the routes in `dir`, see [`tag_in`].
pub fn resolve_tag(dir: &Vec<String>, configs: &Vec<DirConfig>) -> (r: Option<String>)
    ensures
        opt_view(r) == tag_in(views(dir@), configs@),
{
    let auto = nearest_auto_tag(dir, configs);
    let explicit = nearest_tag(dir, configs);
    match auto {
        Some((ka, true)) => {
            let deeper = match &explicit {
                Some((kt, _)) => *kt > ka,
                None => false,
            };
            if ka < dir.len() && !deeper {
                return Some(dir[ka].clone());
            }
        },
        _ => {},
    }
    match explicit {
        Some((_, t)) => Some(t),
        None => None,
    }
}

/// A request body of an operation: its encoding and content schema.
#[derive(Debug)]
pub struct BodyPlan {
    pub kind: BodyKind,
    pub schema: SchemaRef,
}

/// One operation of the document, for one verb handler.
#[derive(Debug)]
pub struct OperationPlan {
    pub method: HttpMethod,
    pub operation_id: String,
    pub tag: Option<String>,
    /// The summary, when the doc comment's first line is not empty.
    pub summary: Option<String>,
    pub description: Option<String>,
    pub body: Option<BodyPlan>,
    /// The content schema of the `200` response; a bodyless `200` when none.
    pub response: Option<SchemaRef>,
    /// The path parameters, each a required `string`.
    pub path_params: Vec<String>,
    /// The type whose `IntoParams` gives the query parameters.
    pub query: Option<RustType>,
}

/// `s` is the content schema of type `t`.
pub open spec fn schema_is(s: SchemaRef, t: TypeV) -> bool {
    schema_view(s) == schema_of(t)
}

/// `p` is the operation of a handler of verb `m` (parameter types `params`,
/// return type `ret`, doc comment `doc`) at `url` under `tag`.
pub open spec fn plan_describes(
    p: OperationPlan,
    m: HttpMethod,
    params: Seq<TypeV>,
    ret: Option<TypeV>,
    doc: Option<Seq<char>>,
    url: Seq<char>,
    tag: Option<Seq<char>>,
) -> bool {
    &&& p.method == m
    &&& p.operation_id@ == operation_id_of(method_name(m), url)
    &&& all_ascii(url) ==> p.operation_id@ == ascii_operation_id_of(method_name(m), url)
    &&& opt_view(p.tag) == tag
    &&& opt_view(p.summary) == match doc {
        Some(d) => nonblank(doc_summary(d)),
        None => None,
    }
    &&& opt_view(p.description) == match doc {
        Some(d) => doc_description(d),
        None => None,
    }
    &&& match body_of(params) {
        Some((k, t)) => p.body matches Some(b) && b.kind == k && schema_is(b.schema, t),
        None => p.body is None,
    }
    &&& match ret {
        Some(r) => match response_of(r) {
            Some(t) => p.response matches Some(s) && schema_is(s, t),
            None => p.response is None,
        },
        None => p.response is None,
    }
    &&& views(p.path_params@) == params_in(split_on(url, '/'))
    &&& opt_tview(p.query) == query_of(params)
}

/// Builds the operation of one verb handler at `url` under `tag`, see
/// [`plan_describes`].
pub fn operation_plan(op: &OperationMeta, url: &String, tag: &Option<String>) -> (r: OperationPlan)
    ensures
        plan_describes(r, op.method, tviews(op.params@), opt_tview(op.ret), opt_view(op.doc), url@, opt_view(*tag)),
{
    let operation_id = operation_id(op.method.name(), url);
    let (summary, description) = match &op.doc {
        Some(d) => {
            let (s, desc) = split_doc(d);
            if s.unicode_len() > 0 {
                (Some(s), desc)
            } else {
                (None, desc)
            }
        },
        None => (None, None),
    };
    let body = match request_body(&op.params) {
        Some(b) => Some(BodyPlan { kind: b.kind, schema: schema_for(&b.ty) }),
        None => None,
    };
    let response = match &op.ret {
        Some(r) => match response_type(r) {
            Some(t) => Some(schema_for(&t)),
            None => None,
        },
        None => None,
    };
    let path_params = path_param_names(url);
    let query = query_type(&op.params);
    OperationPlan {
        method: op.method,
        operation_id,
        tag: tag.clone(),
        summary,
        description,
        body,
        response,
        path_params,
        query,
    }
}

/// Whether a verb has an OpenAPI operation (`any` and `connect` have none).
pub open spec fn documented_method(m: HttpMethod) -> bool {
    m != HttpMethod::Any && m != HttpMethod::Connect
}

/// The handlers whose verb has an OpenAPI operation, in order.
pub open spec fn documented_ops(ops: Seq<OperationMeta>) -> Seq<OperationMeta>
    decreases ops.len(),
{
    if ops.len() == 0 {
        seq![]
    } else {
        let r = documented_ops(ops.drop_last());
        if documented_method(ops.last().method) {
            r.push(ops.last())
        } else {
            r
        }
    }
}

/// Every handler whose verb has an OpenAPI operation is kept, and only those.
proof fn lemma_documented_ops_methods(ops: Seq<OperationMeta>)
    ensures
        forall|i: int|
            0 <= i < ops.len() && documented_method(#[trigger] ops[i].method) ==> exists|j: int|
                0 <= j < documented_ops(ops).len() && documented_ops(ops)[j] == ops[i],
        forall|j: int|
            0 <= j < documented_ops(ops).len() ==> documented_method(#[trigger] documented_ops(ops)[j].method),
    decreases ops.len(),
{
    if ops.len() > 0 {
        let b = ops.drop_last();
        lemma_documented_ops_methods(b);
        let r = documented_ops(b);
        assert forall|i: int|
            0 <= i < ops.len() && documented_method(#[trigger] ops[i].method) implies exists|j: int|
                0 <= j < documented_ops(ops).len() && documented_ops(ops)[j] == ops[i] by {
            if i < ops.len() - 1 {
                assert(b[i] == ops[i]);
                let j = choose|j: int| 0 <= j < r.len() && r[j] == b[i];
                assert(documented_ops(ops)[j] == ops[i]);
            } else {
                assert(documented_ops(ops)[r.len() as int] == ops[i]);
            }
        }
    }
}


/// Builds the operations of one `route.rs` at `url` under `tag`: one per
/// handler whose verb has an OpenAPI operation, in order; `None` when there
/// is no such handler.
pub fn path_item(ops: &Vec<OperationMeta>, url: &String, tag: &Option<String>) -> (r: Option<Vec<OperationPlan>>)
    ensures
        (r is None) == (documented_ops(ops@).len() == 0),
        r matches Some(ps) ==> ps@.len() == documented_ops(ops@).len() && forall|j: int|
            0 <= j < ps@.len() ==> {
                let op = #[trigger] documented_ops(ops@)[j];
                plan_describes(ps@[j], op.method, tviews(op.params@), opt_tview(op.ret), opt_view(op.doc), url@, opt_view(*tag))
            },
        forall|i: int|
            0 <= i < ops@.len() && (#[trigger] ops@[i]).method != HttpMethod::Any && ops@[i].method
                != HttpMethod::Connect ==> (r matches Some(ps) && exists|j: int|
                0 <= j < ps@.len() && ps@[j].method == ops@[i].method),
        r matches Some(ps) ==> forall|j: int|
            0 <= j < ps@.len() ==> (#[trigger] ps@[j]).method != HttpMethod::Any && ps@[j].method
                != HttpMethod::Connect,
{
    proof {
        lemma_documented_ops_methods(ops@);
    }
    let mut ps: Vec<OperationPlan> = Vec::new();
    let mut i: usize = 0;
    while i < ops.len()
        invariant
            i <= ops.len(),
            ps@.len() == documented_ops(ops@.subrange(0, i as int)).len(),
            forall|j: int|
                0 <= j < ps@.len() ==> {
                    let op = #[trigger] documented_ops(ops@.subrange(0, i as int))[j];
                    plan_describes(ps@[j], op.method, tviews(op.params@), opt_tview(op.ret), opt_view(op.doc), url@, opt_view(*tag))
                },
        decreases ops.len() - i,
    {
        let ghost pre = ops@.subrange(0, i as int);
        let ghost nxt = ops@.subrange(0, i + 1);
        assert(nxt.drop_last() =~= pre);
        let m = ops[i].method;
        if m != HttpMethod::Any && m != HttpMethod::Connect {
            let p = operation_plan(&ops[i], url, tag);
            ps.push(p);
            assert(documented_ops(nxt) == documented_ops(pre).push(ops@[i as int]));
        } else {
            assert(documented_ops(nxt) == documented_ops(pre));
        }
        i = i + 1;
    }
    assert(ops@.subrange(0, ops@.len() as int) =~= ops@);
    assert forall|j: int| 0 <= j < ps@.len() implies (#[trigger] ps@[j]).method != HttpMethod::Any && ps@[j].method
        != HttpMethod::Connect by {
        let op = documented_ops(ops@)[j];
        assert(plan_describes(ps@[j], op.method, tviews(op.params@), opt_tview(op.ret), opt_view(op.doc), url@, opt_view(*tag)));
        assert(documented_method(op.method));
    }
    if ps.len() == 0 {
        None
    } else {
        Some(ps)
    }
}

/// The handlers whose verb has an OpenAPI operation, in order.
pub open spec fn documented_pairs(hs: Seq<(HttpMethod, FnV)>) -> Seq<(HttpMethod, FnV)>
    decreases hs.len(),
{
    if hs.len() == 0 {
        seq![]
    } else {
        let r = documented_pairs(hs.drop_last());
        if documented_method(hs.last().0) {
            r.push(hs.last())
        } else {
            r
        }
    }
}

/// The handlers of a `route.rs` that become operations: each verb (in
/// canonical order, `any` and `connect` left out) with its handler.
pub open spec fn documented_handlers(f: SourceFile) -> Seq<(HttpMethod, FnV)> {
    documented_pairs(route_ops(items_of(f), canonical_methods()))
}

/// Keeping the documented handlers keeps, entry by entry, what describes
/// them.
proof fn lemma_documented_ops(ops: Seq<OperationMeta>, hs: Seq<(HttpMethod, FnV)>)
    requires
        ops.len() == hs.len(),
        forall|i: int| 0 <= i < ops.len() ==> op_describes(#[trigger] ops[i], hs[i].0, hs[i].1),
    ensures
        documented_ops(ops).len() == documented_pairs(hs).len(),
        forall|j: int|
            0 <= j < documented_ops(ops).len() ==> op_describes(
                #[trigger] documented_ops(ops)[j],
                documented_pairs(hs)[j].0,
                documented_pairs(hs)[j].1,
            ),
    decreases ops.len(),
{
    if ops.len() > 0 {
        let n = ops.len() - 1;
        assert(op_describes(ops[n], hs[n].0, hs[n].1));
        lemma_documented_ops(ops.drop_last(), hs.drop_last());
    }
}

/// The directory of a file, by its relative path.
pub open spec fn file_dir(f: SourceFile) -> Seq<Seq<char>> {
    dirs_of(views(f.rel@))
}

/// Whether a `route.rs` gets a path in the document: its directory is
/// listed and it has a handler with an OpenAPI operation.
pub open spec fn in_document(f: SourceFile, cs: Seq<DirConfig>) -> bool {
    listed_in(file_dir(f), cs) && documented_handlers(f).len() > 0
}

/// The `route.rs` files that get a path in the document, in order.
pub open spec fn document_routes(fs: Seq<SourceFile>, cs: Seq<DirConfig>) -> Seq<SourceFile>
    decreases fs.len(),
{
    if fs.len() == 0 {
        seq![]
    } else {
        let r = document_routes(fs.drop_last(), cs);
        if in_document(fs.last(), cs) {
            r.push(fs.last())
        } else {
            r
        }
    }
}

/// One path of the document: its URL and its operations.
#[derive(Debug)]
pub struct PathEntry {
    pub url: String,
    pub operations: Vec<OperationPlan>,
}

/// `e` is the path of the `route.rs` `f`: at its URL, one operation per
/// documented handler, tagged by its directory.
pub open spec fn entry_describes(e: PathEntry, f: SourceFile, cs: Seq<DirConfig>) -> bool {
    let url = route_url_of(views(f.rel@));
    let hs = documented_handlers(f);
    &&& e.url@ == url
    &&& e.operations@.len() == hs.len()
    &&& forall|j: int|
        0 <= j < hs.len() ==> plan_describes(
            #[trigger] e.operations@[j],
            hs[j].0,
            params_of(hs[j].1),
            hs[j].1.output,
            doc_of(hs[j].1.attrs),
            url,
            tag_in(file_dir(f), cs),
        )
}

/// `ps` are the paths of the document of the `route.rs` files `fs`.
pub open spec fn paths_describe(ps: Seq<PathEntry>, fs: Seq<SourceFile>, cs: Seq<DirConfig>) -> bool {
    &&& ps.len() == document_routes(fs, cs).len()
    &&& forall|i: int| 0 <= i < ps.len() ==> entry_describes(#[trigger] ps[i], document_routes(fs, cs)[i], cs)
}

/// The paths of the document, one per listed `route.rs` with a documented
/// handler, in order, see [`paths_describe`].
pub fn document_paths(routes: &Vec<SourceFile>, configs: &Vec<DirConfig>) -> (r: Vec<PathEntry>)
    ensures
        paths_describe(r@, routes@, configs@),
{
    let mut paths: Vec<PathEntry> = Vec::new();
    let mut i: usize = 0;
    while i < routes.len()
        invariant
            i <= routes.len(),
            paths_describe(paths@, routes@.subrange(0, i as int), configs@),
        decreases routes.len() - i,
    {
        let ghost pre = routes@.subrange(0, i as int);
        let ghost nxt = routes@.subrange(0, i + 1);
        assert(nxt.drop_last() =~= pre);
        let f = &routes[i];
        let dir = dir_components(&f.rel);
        if resolve_include(&dir, configs) {
            let tag = resolve_tag(&dir, configs);
            let url = route_url(&f.rel);
            let ops = operations_for_route(&f.items);
            proof {
                lemma_documented_ops(ops@, route_ops(items_of(*f), canonical_methods()));
            }
            match path_item(&ops, &url, &tag) {
                Some(operations) => {
                    proof {
                        let hs = documented_handlers(*f);
                        let dops = documented_ops(ops@);
                        assert forall|j: int| 0 <= j < hs.len() implies plan_describes(
                            #[trigger] operations@[j],
                            hs[j].0,
                            params_of(hs[j].1),
                            hs[j].1.output,
                            doc_of(hs[j].1.attrs),
                            url@,
                            tag_in(file_dir(*f), configs@),
                        ) by {
                            assert(op_describes(dops[j], hs[j].0, hs[j].1));
                            assert(plan_describes(operations@[j], dops[j].method, tviews(dops[j].params@), opt_tview(dops[j].ret), opt_view(dops[j].doc), url@, opt_view(tag)));
                        }
                    }
                    paths.push(PathEntry { url, operations });
                    assert(document_routes(nxt, configs@) == document_routes(pre, configs@).push(*f));
                    assert(entry_describes(paths@.last(), *f, configs@));
                },
                None => {
                    assert(document_routes(nxt, configs@) == document_routes(pre, configs@));
                },
            }
        } else {
            assert(document_routes(nxt, configs@) == document_routes(pre, configs@));
        }
        i = i + 1;
    }
    assert(routes@.subrange(0, routes@.len() as int) =~= routes@);
    paths
}

/// What the `openapi()` constructor of a router is made of.
#[derive(Debug)]
pub enum OpenApiOutput {
    /// The `openapi` flag was not given: no constructor.
    Disabled,
    /// Some `openapi.toml` could not be read or parsed: these errors, one
    /// per such file, in place of the constructor.
    Failed { errors: Vec<String> },
    /// The document of the router struct `struct_name`: its paths in the
    /// order of the `route.rs` files.
    Document { struct_name: String, paths: Vec<PathEntry> },
}

/// The `openapi()` constructor of a router: nothing without the `openapi`
/// flag; the errors of the `openapi.toml` files that could not be read or
/// parsed, when there are any; otherwise the document of every listed
/// `route.rs`, see [`paths_describe`].
pub fn openapi_impl(args: &FolderRouterArgs, item: &FolderRouterItem, routes: &FolderRouterRoutes) -> (r: OpenApiOutput)
    ensures
        !args.openapi ==> r is Disabled,
        args.openapi && failing_configs(routes.config@).len() > 0 ==> (r matches OpenApiOutput::Failed { errors } && errors@.len()
            == failing_configs(routes.config@).len() && forall|k: int|
            0 <= k < errors@.len() ==> config_error_of(
                (#[trigger] errors@[k])@,
                failing_configs(routes.config@)[k],
            )),
        args.openapi && failing_configs(routes.config@).len() == 0 ==> (r matches OpenApiOutput::Document { struct_name, paths }
            && struct_name == item.ident && exists|cs: Seq<DirConfig>|
            configs_match(cs, routes.config@) && paths_describe(paths@, routes.routes@, cs)),
{
    if !args.openapi {
        return OpenApiOutput::Disabled;
    }
    let struct_name = item.struct_name();
    let mut errors: Vec<String> = Vec::new();
    match load_configs(&mut errors, routes.config_files()) {
        None => {
            assert forall|k: int| 0 <= k < errors@.len() implies config_error_of(
                (#[trigger] errors@[k])@,
                failing_configs(routes.config@)[k],
            ) by {
                assert(errors@[0 + k] == errors@[k]);
            }
            OpenApiOutput::Failed { errors }
        },
        Some(configs) => {
            let paths = document_paths(routes.routes(), &configs);
            assert(configs_match(configs@, routes.config@));
            OpenApiOutput::Document { struct_name, paths }
        },
    }
}

} // verus!
