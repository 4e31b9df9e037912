//! Directory names to module names and URL segments, and URL assembly.
use vstd::prelude::*;
use crate::text::{str_is, chars_of, ends_with, has_prefix, has_suffix, push_range, push_string, starts_with, string_of, string_of_range};

verus! {

/// The views of a sequence of strings.
pub open spec fn views(v: Seq<String>) -> Seq<Seq<char>> {
    v.map_values(|s: String| s@)
}

/// A directory name written `[...]`.
pub open spec fn is_bracketed(s: Seq<char>) -> bool {
    has_prefix(s, seq!['[']) && has_suffix(s, seq![']'])
}

/// The text between the brackets of a `[...]` name.
pub open spec fn bracket_inner(s: Seq<char>) -> Seq<char> {
    s.subrange(1, s.len() - 1)
}

/// The spread marker of a catch-all name.
pub open spec fn spread() -> Seq<char> {
    seq!['.', '.', '.']
}

/// Module name of a directory: `[id]` -> `__id`, `[...rest]` -> `___rest`,
/// otherwise the name with every `-` and `.` replaced by `_`.
pub open spec fn module_name_of(s: Seq<char>) -> Seq<char> {
    if is_bracketed(s) {
        let inner = bracket_inner(s);
        if has_prefix(inner, spread()) {
            seq!['_', '_', '_'] + inner.skip(3)
        } else {
            seq!['_', '_'] + inner
        }
    } else {
        s.map_values(|c: char| if c == '-' || c == '.' { '_' } else { c })
    }
}

/// URL segment of a directory: `[id]` -> `{id}`, `[...rest]` -> `{*rest}`,
/// otherwise the name itself.
pub open spec fn url_segment_of(s: Seq<char>) -> Seq<char> {
    if is_bracketed(s) {
        let inner = bracket_inner(s);
        if has_prefix(inner, spread()) {
            seq!['{', '*'] + inner.skip(3) + seq!['}']
        } else {
            seq!['{'] + inner + seq!['}']
        }
    } else {
        s
    }
}

/// The pieces joined with `sep` between consecutive pieces.
pub open spec fn join_with(pieces: Seq<Seq<char>>, sep: char) -> Seq<char>
    decreases pieces.len(),
{
    if pieces.len() == 0 {
        seq![]
    } else if pieces.len() == 1 {
        pieces[0]
    } else {
        join_with(pieces.drop_last(), sep) + seq![sep] + pieces.last()
    }
}

/// The URL path of a list of segments: `/` alone, or `/` followed by the
/// segments joined with `/`.
pub open spec fn url_of(segments: Seq<Seq<char>>) -> Seq<char> {
    if segments.len() == 0 {
        seq!['/']
    } else {
        seq!['/'] + join_with(segments, '/')
    }
}

/// Whether a URL segment is a catch-all (`{*...}`).
pub open spec fn is_catchall_segment(s: Seq<char>) -> bool {
    has_prefix(s, seq!['{', '*'])
}

/// Whether some segment is a catch-all.
pub open spec fn any_catchall(segments: Seq<Seq<char>>) -> bool {
    exists|i: int| 0 <= i < segments.len() && is_catchall_segment(#[trigger] segments[i])
}

/// The module name of a directory, see [`module_name_of`].
pub fn normalize_module_name(name: &String) -> (r: String)
    ensures
        r@ == module_name_of(name@),
{
    let v = chars_of(name.as_str());
    let open = vec!['['];
    let close = vec![']'];
    if starts_with(&v, &open) && ends_with(&v, &close) {
        let inner = string_of_range(&v, 1, v.len() - 1);
        let iv = chars_of(inner.as_str());
        let dots = vec!['.', '.', '.'];
        assert(open@ == seq!['[']);
        assert(close@ == seq![']']);
        assert(dots@ == spread());
        assert(is_bracketed(name@));
        assert(iv@ == bracket_inner(name@));
        let mut r = String::new();
        if starts_with(&iv, &dots) {
            r.push('_');
            r.push('_');
            r.push('_');
            push_range(&mut r, &iv, 3, iv.len());
            assert(r@ =~= module_name_of(name@));
        } else {
            r.push('_');
            r.push('_');
            push_range(&mut r, &iv, 0, iv.len());
            assert(r@ =~= module_name_of(name@));
        }
        r
    } else {
        assert(open@ == seq!['[']);
        assert(close@ == seq![']']);
        assert(!is_bracketed(name@));
        let mut r = String::new();
        let mut i: usize = 0;
        while i < v.len()
            invariant
                i <= v.len(),
                r@ == v@.subrange(0, i as int).map_values(
                    |c: char| if c == '-' || c == '.' { '_' } else { c },
                ),
            decreases v.len() - i,
        {
            let c = v[i];
            if c == '-' || c == '.' {
                r.push('_');
            } else {
                r.push(c);
            }
            i = i + 1;
            assert(r@ =~= v@.subrange(0, i as int).map_values(
                |c: char| if c == '-' || c == '.' { '_' } else { c },
            ));
        }
        assert(v@.subrange(0, v@.len() as int) =~= v@);
        r
    }
}

/// The URL segment of a directory, see [`url_segment_of`].
pub fn dir_url_segment(raw: &String) -> (r: String)
    ensures
        r@ == url_segment_of(raw@),
        !(raw@.len() > 0 && raw@[0] == '[' && raw@.last() == ']') ==> r@ == raw@,
        raw@.len() > 0 && raw@[0] == '[' && raw@.last() == ']' && !(raw@.len() >= 5 && raw@[1] == '.'
            && raw@[2] == '.' && raw@[3] == '.') ==> r@ == seq!['{'] + raw@.subrange(1, raw@.len() - 1)
            + seq!['}'],
        raw@.len() >= 5 && raw@[0] == '[' && raw@.last() == ']' && raw@[1] == '.' && raw@[2] == '.'
            && raw@[3] == '.' ==> r@ == seq!['{', '*'] + raw@.subrange(4, raw@.len() - 1) + seq!['}'],
{
    proof {
        let s = raw@;
        if s.len() > 0 && s[0] == '[' && s.last() == ']' {
            assert(s.subrange(0, 1) =~= seq!['[']);
            assert(s.subrange(s.len() - 1, s.len() as int) =~= seq![']']);
            assert(is_bracketed(s));
            let inner = bracket_inner(s);
            if s.len() >= 5 && s[1] == '.' && s[2] == '.' && s[3] == '.' {
                assert(inner.subrange(0, 3) =~= spread());
                assert(inner.skip(3) =~= s.subrange(4, s.len() - 1));
            } else {
                if has_prefix(inner, spread()) {
                    assert(inner[0] == s[1] && inner[1] == s[2] && inner[2] == s[3]);
                    assert(spread()[0] == '.' && spread()[1] == '.' && spread()[2] == '.');
                    assert(inner.subrange(0, 3)[0] == inner[0]);
                    assert(inner.subrange(0, 3)[1] == inner[1]);
                    assert(inner.subrange(0, 3)[2] == inner[2]);
                }
            }
        } else {
            if is_bracketed(s) {
                assert(s.subrange(0, 1)[0] == s[0]);
                assert(s.subrange(s.len() - 1, s.len() as int)[0] == s.last());
            }
        }
    }
    let v = chars_of(raw.as_str());
    let open = vec!['['];
    let close = vec![']'];
    if starts_with(&v, &open) && ends_with(&v, &close) {
        let inner = string_of_range(&v, 1, v.len() - 1);
        let iv = chars_of(inner.as_str());
        let dots = vec!['.', '.', '.'];
        assert(open@ == seq!['[']);
        assert(close@ == seq![']']);
        assert(dots@ == spread());
        assert(is_bracketed(raw@));
        assert(iv@ == bracket_inner(raw@));
        let mut r = String::new();
        if starts_with(&iv, &dots) {
            r.push('{');
            r.push('*');
            push_range(&mut r, &iv, 3, iv.len());
            r.push('}');
            assert(r@ =~= url_segment_of(raw@));
        } else {
            r.push('{');
            push_range(&mut r, &iv, 0, iv.len());
            r.push('}');
            assert(r@ =~= url_segment_of(raw@));
        }
        r
    } else {
        assert(open@ == seq!['[']);
        assert(close@ == seq![']']);
        string_of(&v)
    }
}

/// Appends the segments joined with `sep` to `s`.
pub fn push_joined(s: &mut String, segments: &Vec<String>, sep: char)
    ensures
        final(s)@ == old(s)@ + join_with(views(segments@), sep),
{
    let ghost start = s@;
    let mut i: usize = 0;
    while i < segments.len()
        invariant
            i <= segments.len(),
            s@ == start + join_with(views(segments@.subrange(0, i as int)), sep),
        decreases segments.len() - i,
    {
        let ghost prev = views(segments@.subrange(0, i as int));
        if i > 0 {
            s.push(sep);
        }
        push_string(s, &segments[i]);
        i = i + 1;
        proof {
            let cur = views(segments@.subrange(0, i as int));
            assert(cur.drop_last() =~= prev);
            assert(cur.last() == segments@[i - 1]@);
            if i == 1 {
                assert(s@ =~= start + join_with(cur, sep));
            } else {
                assert(s@ =~= start + join_with(cur, sep));
            }
        }
    }
    assert(segments@.subrange(0, segments@.len() as int) =~= segments@);
}

/// The URL path of the segments, see [`url_of`].
pub fn url_from(segments: &Vec<String>) -> (r: String)
    ensures
        r@ == url_of(views(segments@)),
{
    let mut r = String::new();
    r.push('/');
    if segments.len() > 0 {
        push_joined(&mut r, segments, '/');
    }
    assert(r@ =~= url_of(views(segments@)));
    r
}

/// Whether any segment is a catch-all, see [`any_catchall`].
pub fn has_catchall(segments: &Vec<String>) -> (b: bool)
    ensures
        b == any_catchall(views(segments@)),
{
    let star = vec!['{', '*'];
    let mut i: usize = 0;
    while i < segments.len()
        invariant
            i <= segments.len(),
            star@ == seq!['{', '*'],
            forall|j: int| 0 <= j < i ==> !is_catchall_segment(#[trigger] views(segments@)[j]),
        decreases segments.len() - i,
    {
        let v = chars_of(segments[i].as_str());
        if starts_with(&v, &star) {
            assert(is_catchall_segment(views(segments@)[i as int]));
            return true;
        }
        i = i + 1;
    }
    false
}


/// Module path of a `route.rs` (by its path relative to the base directory):
/// the module names of its directories followed by `route`; a root-level file
/// yields just `route`.
pub open spec fn module_path_of(rel: Seq<Seq<char>>) -> Seq<Seq<char>> {
    if rel.len() == 0 {
        seq!["route"@]
    } else {
        Seq::new(
            rel.len(),
            |i: int|
                if i == rel.len() - 1 && rel[i] == "route.rs"@ {
                    "route"@
                } else {
                    module_name_of(rel[i])
                },
        )
    }
}

/// The directory components of a relative file path (its last component, the
/// file name, dropped).
pub open spec fn dirs_of(rel: Seq<Seq<char>>) -> Seq<Seq<char>> {
    if rel.len() == 0 {
        rel
    } else {
        rel.drop_last()
    }
}

/// The URL segments of a list of directory names.
pub open spec fn url_segments_of(dirs: Seq<Seq<char>>) -> Seq<Seq<char>> {
    dirs.map_values(|d: Seq<char>| url_segment_of(d))
}

/// The absolute URL of a `route.rs` from its relative path.
pub open spec fn route_url_of(rel: Seq<Seq<char>>) -> Seq<char> {
    url_of(url_segments_of(dirs_of(rel)))
}

/// The module path of a `route.rs`, see [`module_path_of`].
pub fn path_to_module_path(rel: &Vec<String>) -> (r: Vec<String>)
    ensures
        views(r@) == module_path_of(views(rel@)),
{
    let mut r: Vec<String> = Vec::new();
    if rel.len() == 0 {
        r.push(String::from_str("route"));
        assert(views(r@) =~= module_path_of(views(rel@)));
        return r;
    }
    let mut i: usize = 0;
    while i < rel.len()
        invariant
            0 < rel.len(),
            i <= rel.len(),
            r@.len() == i,
            forall|j: int| 0 <= j < i ==> #[trigger] r@[j]@ == module_path_of(views(rel@))[j],
        decreases rel.len() - i,
    {
        if i == rel.len() - 1 && str_is(&rel[i], "route.rs") {
            r.push(String::from_str("route"));
        } else {
            r.push(normalize_module_name(&rel[i]));
        }
        i = i + 1;
    }
    assert(views(r@) =~= module_path_of(views(rel@)));
    r
}

/// The directory components of a relative file path, see [`dirs_of`].
pub fn dir_components(rel: &Vec<String>) -> (r: Vec<String>)
    ensures
        views(r@) == dirs_of(views(rel@)),
{
    let mut r: Vec<String> = Vec::new();
    if rel.len() == 0 {
        assert(views(r@) =~= dirs_of(views(rel@)));
        return r;
    }
    let mut i: usize = 0;
    while i + 1 < rel.len()
        invariant
            0 < rel.len(),
            i + 1 <= rel.len(),
            r@.len() == i,
            forall|j: int| 0 <= j < i ==> #[trigger] r@[j]@ == rel@[j]@,
        decreases rel.len() - i,
    {
        r.push(rel[i].clone());
        i = i + 1;
    }
    assert(views(r@) =~= dirs_of(views(rel@)));
    r
}

/// The URL segments of directory names, see [`url_segments_of`].
pub fn url_segments(dirs: &Vec<String>) -> (r: Vec<String>)
    ensures
        views(r@) == url_segments_of(views(dirs@)),
{
    let mut r: Vec<String> = Vec::new();
    let mut i: usize = 0;
    while i < dirs.len()
        invariant
            i <= dirs.len(),
            r@.len() == i,
            forall|j: int| 0 <= j < i ==> #[trigger] r@[j]@ == url_segment_of(dirs@[j]@),
        decreases dirs.len() - i,
    {
        r.push(dir_url_segment(&dirs[i]));
        i = i + 1;
    }
    assert(views(r@) =~= url_segments_of(views(dirs@)));
    r
}

/// The absolute URL of a `route.rs` from its relative path, see
/// [`route_url_of`].
pub fn route_url(rel: &Vec<String>) -> (r: String)
    ensures
        r@ == route_url_of(views(rel@)),
{
    let dirs = dir_components(rel);
    let segs = url_segments(&dirs);
    url_from(&segs)
}

/// The pieces of `s` between occurrences of `sep` (empty pieces included;
/// the empty text is one empty piece).
pub open spec fn split_on(s: Seq<char>, sep: char) -> Seq<Seq<char>>
    decreases s.len(),
{
    if s.len() == 0 {
        seq![seq![]]
    } else {
        let r = split_on(s.drop_last(), sep);
        if s.last() == sep {
            r.push(seq![])
        } else {
            r.update(r.len() - 1, r.last().push(s.last()))
        }
    }
}

/// Splitting always yields at least one piece.
pub proof fn lemma_split_nonempty(s: Seq<char>, sep: char)
    ensures
        split_on(s, sep).len() >= 1,
    decreases s.len(),
{
    if s.len() > 0 {
        lemma_split_nonempty(s.drop_last(), sep);
    }
}

/// The pieces of the characters `v` between occurrences of `sep`.
pub fn split_chars(v: &Vec<char>, sep: char) -> (r: Vec<String>)
    ensures
        views(r@) == split_on(v@, sep),
{
    let mut pieces: Vec<String> = Vec::new();
    let mut cur = String::new();
    let mut i: usize = 0;
    assert(v@.subrange(0, 0) =~= Seq::<char>::empty());
    assert(views(pieces@).push(cur@) =~= split_on(v@.subrange(0, 0), sep));
    while i < v.len()
        invariant
            i <= v.len(),
            views(pieces@).push(cur@) == split_on(v@.subrange(0, i as int), sep),
        decreases v.len() - i,
    {
        let c = v[i];
        let ghost pre = v@.subrange(0, i as int);
        let ghost nxt = v@.subrange(0, i + 1);
        assert(nxt.drop_last() =~= pre);
        assert(nxt.last() == c);
        proof { lemma_split_nonempty(pre, sep); }
        if c == sep {
            pieces.push(cur);
            cur = String::new();
            assert(views(pieces@).push(cur@) =~= split_on(nxt, sep));
        } else {
            let ghost old_cur = cur@;
            cur.push(c);
            assert(views(pieces@).push(cur@) =~= split_on(pre, sep).update(
                split_on(pre, sep).len() - 1,
                old_cur.push(c),
            ));
            assert(views(pieces@).push(cur@) =~= split_on(nxt, sep));
        }
        i = i + 1;
    }
    assert(v@.subrange(0, v@.len() as int) =~= v@);
    pieces.push(cur);
    pieces
}

/// The parameter named by a URL segment `{name}` or `{*name}`, if it is one.
pub open spec fn param_of(seg: Seq<char>) -> Option<Seq<char>> {
    if seg.len() >= 2 && seg[0] == '{' && seg.last() == '}' {
        let inner = seg.subrange(1, seg.len() - 1);
        Some(
            if inner.len() > 0 && inner[0] == '*' {
                inner.skip(1)
            } else {
                inner
            },
        )
    } else {
        None
    }
}

/// The parameters named by the pieces, in order.
pub open spec fn params_in(pieces: Seq<Seq<char>>) -> Seq<Seq<char>>
    decreases pieces.len(),
{
    if pieces.len() == 0 {
        seq![]
    } else {
        let r = params_in(pieces.drop_last());
        match param_of(pieces.last()) {
            Some(p) => r.push(p),
            None => r,
        }
    }
}

/// The path-parameter names declared in a URL: both `{id}` and `{*rest}`
/// segments, in order.
pub fn path_param_names(url: &String) -> (r: Vec<String>)
    ensures
        views(r@) == params_in(split_on(url@, '/')),
{
    let v = chars_of(url.as_str());
    let pieces = split_chars(&v, '/');
    let mut r: Vec<String> = Vec::new();
    let mut i: usize = 0;
    while i < pieces.len()
        invariant
            i <= pieces.len(),
            views(r@) == params_in(views(pieces@).subrange(0, i as int)),
        decreases pieces.len() - i,
    {
        let ghost pre = views(pieces@).subrange(0, i as int);
        let ghost nxt = views(pieces@).subrange(0, i + 1);
        assert(nxt.drop_last() =~= pre);
        let p = chars_of(pieces[i].as_str());
        if p.len() >= 2 && p[0] == '{' && p[p.len() - 1] == '}' {
            if p.len() > 2 && p[1] == '*' {
                r.push(string_of_range(&p, 2, p.len() - 1));
                assert(p@.subrange(1, p@.len() - 1).skip(1) =~= p@.subrange(2, p@.len() - 1));
            } else {
                r.push(string_of_range(&p, 1, p.len() - 1));
            }
            assert(views(r@) =~= params_in(nxt));
        } else {
            assert(views(r@) =~= params_in(nxt));
        }
        i = i + 1;
    }
    assert(views(pieces@).subrange(0, pieces@.len() as int) =~= views(pieces@));
    r
}

} // verus!
