//! The macro's arguments and the annotated item.
use vstd::prelude::*;
use crate::text::{chars_of, str_is};

verus! {

/// Whether `char::is_alphanumeric` holds of a character (Unicode
/// `Alphabetic` or a numeric general category).
pub uninterp spec fn char_is_alphanumeric(c: char) -> bool;

/// An ASCII letter or digit.
pub open spec fn is_ascii_alnum(c: char) -> bool {
    ('a' <= c && c <= 'z') || ('A' <= c && c <= 'Z') || ('0' <= c && c <= '9')
}

/// Calls `char::is_alphanumeric`; the result is the named value
/// [`char_is_alphanumeric`] of the character, which for an ASCII character
/// holds of the letters and digits only.
#[verifier::external_body]
fn is_alphanumeric(c: char) -> (b: bool)
    ensures
        b == char_is_alphanumeric(c),
        (c as u32) < 128 ==> b == is_ascii_alnum(c),
{
    c.is_alphanumeric()
}

/// ASCII lower case of a character (`A`..=`Z` mapped to `a`..=`z`).
pub open spec fn ascii_lower(c: char) -> char {
    if 'A' <= c && c <= 'Z' {
        ((c as u32) + 32) as char
    } else {
        c
    }
}

/// ASCII lower case of a character, see [`ascii_lower`].
pub fn to_ascii_lowercase(c: char) -> (r: char)
    ensures
        r == ascii_lower(c),
{
    if 'A' <= c && c <= 'Z' {
        let b: u8 = (c as u8) + 32;
        b as char
    } else {
        c
    }
}


/// The macro's arguments: the route directory (relative to the crate root)
/// and whether the trailing `openapi` flag was given. (The state type is
/// carried by the caller as tokens.)
#[derive(Debug)]
pub struct FolderRouterArgs {
    pub path: String,
    pub openapi: bool,
}

/// The error for an unknown trailing flag.
pub open spec fn unknown_flag_message(flag: Seq<char>) -> Seq<char> {
    "unknown `folder_router` flag `"@ + flag + "`; expected `openapi`"@
}

impl FolderRouterArgs {
    /// The arguments for a route directory, before any flag.
    pub fn new(path: String) -> (r: Self)
        ensures
            r.path == path,
            !r.openapi,
    {
        FolderRouterArgs { path, openapi: false }
    }

    /// Applies one trailing flag: `openapi` turns OpenAPI generation on; any
    /// other flag is rejected with an error and changes nothing.
    pub fn apply_flag(&mut self, flag: &String) -> (r: Result<(), String>)
        ensures
            flag@ == "openapi"@ ==> r is Ok && final(self).openapi && final(self).path == old(self).path,
            flag@ != "openapi"@ ==> (*final(self) == *old(self) && (r matches Err(m) && m@
                == unknown_flag_message(flag@))),
    {
        if str_is(flag, "openapi") {
            self.openapi = true;
            Ok(())
        } else {
            let mut m = String::from_str("unknown `folder_router` flag `");
            m.append(flag.as_str());
            m.append("`; expected `openapi`");
            Err(m)
        }
    }
}

/// The position of the first flag that is not `openapi`.
pub open spec fn is_first_unknown(flags: Seq<String>, k: int) -> bool {
    &&& 0 <= k < flags.len()
    &&& flags[k]@ != "openapi"@
    &&& forall|j: int| 0 <= j < k ==> flags[j]@ == "openapi"@
}

impl FolderRouterArgs {
    /// The arguments for a route directory and its trailing flags: every flag
    /// must be `openapi` (which turns OpenAPI generation on); the first other
    /// flag is rejected with an error.
    pub fn from_flags(path: String, flags: &Vec<String>) -> (r: Result<Self, String>)
        ensures
            (r is Ok) == (forall|j: int| 0 <= j < flags@.len() ==> flags@[j]@ == "openapi"@),
            r matches Ok(a) ==> a.path == path && a.openapi == (flags@.len() > 0),
            r matches Err(m) ==> exists|k: int|
                is_first_unknown(flags@, k) && m@ == unknown_flag_message(flags@[k]@),
    {
        let mut args = FolderRouterArgs::new(path);
        let ghost p0 = args.path;
        let mut i: usize = 0;
        while i < flags.len()
            invariant
                i <= flags.len(),
                args.path == p0,
                args.openapi == (i > 0),
                forall|j: int| 0 <= j < i ==> flags@[j]@ == "openapi"@,
            decreases flags.len() - i,
        {
            match args.apply_flag(&flags[i]) {
                Ok(()) => {},
                Err(m) => {
                    assert(is_first_unknown(flags@, i as int));
                    return Err(m);
                },
            }
            i = i + 1;
        }
        Ok(args)
    }
}

/// The struct the macro annotates, by its identifier.
#[derive(Debug)]
pub struct FolderRouterItem {
    pub ident: String,
}

/// [`namespace_of`] for an ASCII identifier: ASCII letters and digits kept,
/// in lower case, anything else replaced by `_`.
pub open spec fn ascii_namespace_of(ident: Seq<char>) -> Seq<char> {
    "__folder_router__"@ + ident.map_values(
        |c: char| ascii_lower(if is_ascii_alnum(c) { c } else { '_' }),
    )
}

/// The module that holds the route tree of a router struct:
/// `__folder_router__` followed by the identifier with every
/// non-alphanumeric character replaced by `_`, in ASCII lower case.
pub open spec fn namespace_of(ident: Seq<char>) -> Seq<char> {
    "__folder_router__"@ + ident.map_values(
        |c: char| ascii_lower(if char_is_alphanumeric(c) { c } else { '_' }),
    )
}

impl FolderRouterItem {
    /// The module namespace of the route tree, see [`namespace_of`].
    pub fn module_namespace(&self) -> (r: String)
        ensures
            r@ == namespace_of(self.ident@),
            (forall|i: int| 0 <= i < self.ident@.len() ==> (#[trigger] self.ident@[i] as u32) < 128) ==> r@
                == ascii_namespace_of(self.ident@),
    {
        let v = chars_of(self.ident.as_str());
        let mut r = String::from_str("__folder_router__");
        let ghost start = r@;
        let mut i: usize = 0;
        while i < v.len()
            invariant
                i <= v.len(),
                start == "__folder_router__"@,
                r@ == start + v@.subrange(0, i as int).map_values(
                    |c: char| ascii_lower(if char_is_alphanumeric(c) { c } else { '_' }),
                ),
                (forall|k: int| 0 <= k < v@.len() ==> (#[trigger] v@[k] as u32) < 128) ==> r@ == start
                    + v@.subrange(0, i as int).map_values(
                    |c: char| ascii_lower(if is_ascii_alnum(c) { c } else { '_' }),
                ),
            decreases v.len() - i,
        {
            let c = v[i];
            let ghost ascii = forall|k: int| 0 <= k < v@.len() ==> (#[trigger] v@[k] as u32) < 128;
            assert(ascii ==> (v@[i as int] as u32) < 128);
            let d = if is_alphanumeric(c) { c } else { '_' };
            r.push(to_ascii_lowercase(d));
            i = i + 1;
            assert(r@ =~= start + v@.subrange(0, i as int).map_values(
                |c: char| ascii_lower(if char_is_alphanumeric(c) { c } else { '_' }),
            ));
            assert(ascii ==> r@ =~= start + v@.subrange(0, i as int).map_values(
                |c: char| ascii_lower(if is_ascii_alnum(c) { c } else { '_' }),
            ));
        }
        assert(v@.subrange(0, v@.len() as int) =~= v@);
        r
    }

    /// The identifier of the router struct.
    pub fn struct_name(&self) -> (r: String)
        ensures
            r == self.ident,
    {
        self.ident.clone()
    }
}

} // verus!
