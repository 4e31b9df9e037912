//! The Rust syntax the macro reads from the files of the route tree, as
//! plain values: each top-level item, and for a `fn` item its visibility,
//! `async`ness, inputs, return type and attributes, with every type as a tree
//! of its own. `syn` parses the text, reached through the trusted items at
//! the top of this file.
//!
//! Each type node also carries its tokens printed back as text, which the
//! generated code reproduces. What `syn` yields for a text depends on the
//! lexer and token printer in use (the compiler's inside a procedural macro,
//! `proc-macro2`'s own elsewhere), so nothing is stated of a parse: the
//! library keeps each file's items as they came back (see
//! [`crate::routes::SourceFile`]), and every function that reads them takes
//! them as an argument.
use vstd::prelude::*;
use quote::ToTokens;
use crate::text::str_is;

verus! {

// The parsed `syn` values the conversion into plain values takes, declared as
// opaque types: nothing is read of them in verified code.
#[verifier::external_type_specification]
#[verifier::external_body]
pub struct ExSynType(syn::Type);

#[verifier::external_type_specification]
#[verifier::external_body]
pub struct ExSynPathSegment(syn::PathSegment);

#[verifier::external_type_specification]
#[verifier::external_body]
pub struct ExSynItemFn(syn::ItemFn);

#[verifier::external_type_specification]
#[verifier::external_body]
pub struct ExSynAttribute(syn::Attribute);

#[verifier::external_type_specification]
#[verifier::external_body]
pub struct ExSynVisibility(syn::Visibility);

#[verifier::external_type_specification]
#[verifier::external_body]
pub struct ExSynFnArg(syn::FnArg);

/// A Rust type as `syn` parses it: a path (`a::b::C<T>`), a reference
/// (`&T`, `&mut T`), a tuple, or any other kind; each node with its tokens
/// printed as text.
#[derive(Debug)]
pub enum RustType {
    Path { segments: Vec<TypeSegment>, text: String },
    Reference { elem: Box<RustType>, text: String },
    Tuple { elems: Vec<RustType>, text: String },
    Other { text: String },
}

/// One segment of a path type: its identifier and its arguments.
#[derive(Debug)]
pub struct TypeSegment {
    pub ident: String,
    pub args: PathArgs,
}

/// The arguments of a path segment: none, angle-bracketed (`<A, B>`), or
/// parenthesized (`Fn(A) -> B`).
#[derive(Debug)]
pub enum PathArgs {
    Bare,
    Angle { args: Vec<GenericArg> },
    Paren,
}

/// An angle-bracketed argument: a type, or another kind (a lifetime, a
/// constant, an associated-type binding, ...).
#[derive(Debug)]
pub enum GenericArg {
    Type { ty: RustType },
    Other,
}

/// The visibility of an item: `pub`, restricted (`pub(crate)`, ...), or
/// none.
#[derive(Debug, Clone, Copy, PartialEq, Eq, Structural)]
pub enum FnVisibility {
    Public,
    Restricted,
    Inherited,
}

/// An input of a `fn`: the `self` receiver or a typed parameter.
#[derive(Debug)]
pub enum FnInput {
    Receiver,
    Typed { ty: RustType },
}

/// An attribute: the identifiers of its path, whether the path starts with
/// `::`, and, for `#[path = "literal"]`, the value of the string literal.
#[derive(Debug)]
pub struct RustAttr {
    pub path: Vec<String>,
    pub global: bool,
    pub str_value: Option<String>,
}

/// A `fn` item.
#[derive(Debug)]
pub struct RustFn {
    pub name: String,
    pub vis: FnVisibility,
    pub is_async: bool,
    pub inputs: Vec<FnInput>,
    /// The explicit return type.
    pub output: Option<RustType>,
    pub attrs: Vec<RustAttr>,
}

/// A top-level item of a Rust file: a `fn` item, or another kind of item.
#[derive(Debug)]
pub enum RustItem {
    Fn { f: RustFn },
    Other,
}

/// A type as a mathematical value: its structure, each node with its
/// printed tokens.
pub ghost enum TypeV {
    Path { segments: Seq<SegmentV>, text: Seq<char> },
    Reference { elem: Box<TypeV>, text: Seq<char> },
    Tuple { elems: Seq<TypeV>, text: Seq<char> },
    Other { text: Seq<char> },
}

/// The structure of a path segment.
pub ghost struct SegmentV {
    pub ident: Seq<char>,
    pub args: ArgsV,
}

/// The structure of a path segment's arguments.
pub ghost enum ArgsV {
    Bare,
    Angle { args: Seq<ArgV> },
    Paren,
}

/// The structure of an angle-bracketed argument.
pub ghost enum ArgV {
    Type { ty: TypeV },
    Other,
}

/// The structure of a `fn` input.
pub ghost enum InputV {
    Receiver,
    Typed { ty: TypeV },
}

/// An attribute, by its plain values.
pub ghost struct AttrV {
    pub path: Seq<Seq<char>>,
    pub global: bool,
    pub str_value: Option<Seq<char>>,
}

/// The structure of a `fn` item.
pub ghost struct FnV {
    pub name: Seq<char>,
    pub vis: FnVisibility,
    pub is_async: bool,
    pub inputs: Seq<InputV>,
    pub output: Option<TypeV>,
    pub attrs: Seq<AttrV>,
}

/// The structure of a top-level item.
pub ghost enum ItemV {
    Fn { f: FnV },
    Other,
}

/// A type as a mathematical value.
pub open spec fn type_view(t: RustType) -> TypeV
    decreases t,
{
    match t {
        RustType::Path { segments, text } => TypeV::Path { segments: segments_view(segments@), text: text@ },
        RustType::Reference { elem, text } => TypeV::Reference { elem: Box::new(type_view(*elem)), text: text@ },
        RustType::Tuple { elems, text } => TypeV::Tuple { elems: types_view(elems@), text: text@ },
        RustType::Other { text } => TypeV::Other { text: text@ },
    }
}

/// The structures of a sequence of types.
pub open spec fn types_view(s: Seq<RustType>) -> Seq<TypeV>
    decreases s,
{
    if s.len() == 0 {
        seq![]
    } else {
        types_view(s.drop_last()).push(type_view(s.last()))
    }
}

/// The structures of a sequence of path segments.
pub open spec fn segments_view(s: Seq<TypeSegment>) -> Seq<SegmentV>
    decreases s,
{
    if s.len() == 0 {
        seq![]
    } else {
        segments_view(s.drop_last()).push(segment_view(s.last()))
    }
}

/// The structure of a path segment.
pub open spec fn segment_view(p: TypeSegment) -> SegmentV
    decreases p,
{
    SegmentV {
        ident: p.ident@,
        args: match p.args {
            PathArgs::Bare => ArgsV::Bare,
            PathArgs::Angle { args } => ArgsV::Angle { args: args_view(args@) },
            PathArgs::Paren => ArgsV::Paren,
        },
    }
}

/// The structures of a sequence of angle-bracketed arguments.
pub open spec fn args_view(s: Seq<GenericArg>) -> Seq<ArgV>
    decreases s,
{
    if s.len() == 0 {
        seq![]
    } else {
        let a = match s.last() {
            GenericArg::Type { ty } => ArgV::Type { ty: type_view(ty) },
            GenericArg::Other => ArgV::Other,
        };
        args_view(s.drop_last()).push(a)
    }
}

impl View for RustType {
    type V = TypeV;

    open spec fn view(&self) -> TypeV {
        type_view(*self)
    }
}

/// The structure of a `fn` input.
pub open spec fn input_view(i: FnInput) -> InputV {
    match i {
        FnInput::Receiver => InputV::Receiver,
        FnInput::Typed { ty } => InputV::Typed { ty: ty@ },
    }
}

/// An attribute by its plain values.
pub open spec fn attr_view(a: RustAttr) -> AttrV {
    AttrV {
        path: a.path@.map_values(|s: String| s@),
        global: a.global,
        str_value: match a.str_value {
            Some(v) => Some(v@),
            None => None,
        },
    }
}

/// The structure of a `fn` item.
pub open spec fn fn_view(f: RustFn) -> FnV {
    FnV {
        name: f.name@,
        vis: f.vis,
        is_async: f.is_async,
        inputs: f.inputs@.map_values(|i: FnInput| input_view(i)),
        output: match f.output {
            Some(t) => Some(t@),
            None => None,
        },
        attrs: f.attrs@.map_values(|a: RustAttr| attr_view(a)),
    }
}

/// The structure of a top-level item.
pub open spec fn item_view(i: RustItem) -> ItemV {
    match i {
        RustItem::Fn { f } => ItemV::Fn { f: fn_view(f) },
        RustItem::Other => ItemV::Other,
    }
}

impl View for RustItem {
    type V = ItemV;

    open spec fn view(&self) -> ItemV {
        item_view(*self)
    }
}

/// The structures of a sequence of items.
pub open spec fn items_view(s: Seq<RustItem>) -> Seq<ItemV> {
    s.map_values(|i: RustItem| i@)
}

/// The structures of a sequence of exec types.
pub open spec fn tviews(s: Seq<RustType>) -> Seq<TypeV> {
    s.map_values(|t: RustType| t@)
}

/// The structure of an optional type.
pub open spec fn opt_tview(o: Option<RustType>) -> Option<TypeV> {
    match o {
        Some(t) => Some(t@),
        None => None,
    }
}

/// The printed tokens of a type node.
pub open spec fn type_text(t: RustType) -> Seq<char> {
    match t {
        RustType::Path { text, .. } => text@,
        RustType::Reference { text, .. } => text@,
        RustType::Tuple { text, .. } => text@,
        RustType::Other { text } => text@,
    }
}

impl RustType {
    /// The printed tokens of this node.
    pub fn text(&self) -> (r: &String)
        ensures
            r@ == type_text(*self),
    {
        match self {
            RustType::Path { text, .. } => text,
            RustType::Reference { text, .. } => text,
            RustType::Tuple { text, .. } => text,
            RustType::Other { text } => text,
        }
    }
}

/// Calls `syn::parse_file` on a source text and hands out every top-level
/// item: each `fn` item with its identifier, visibility, `async`ness, inputs,
/// return type and attributes, every other item as [`RustItem::Other`];
/// `None` when the text does not parse. Nothing is stated of the result: it
/// depends on the lexer and token printer in use.
#[verifier::external_body]
pub(crate) fn parse_rust_file(source: &str) -> Option<Vec<RustItem>> {
    let file = syn::parse_file(source).ok()?;
    Some(file.items.iter().map(|item| match item {
        syn::Item::Fn(f) => RustItem::Fn { f: fn_model(f) },
        _ => RustItem::Other,
    }).collect())
}

/// Converts a parsed `fn` item into its model, for [`parse_rust_file`]; it
/// claims nothing of its own.
#[verifier::external_body]
fn fn_model(f: &syn::ItemFn) -> RustFn {
    RustFn {
        name: f.sig.ident.to_string(),
        vis: vis_model(&f.vis),
        is_async: f.sig.asyncness.is_some(),
        inputs: f.sig.inputs.iter().map(input_model).collect(),
        output: match &f.sig.output {
            syn::ReturnType::Default => None,
            syn::ReturnType::Type(_, t) => Some(type_model(t)),
        },
        attrs: f.attrs.iter().map(attr_model).collect(),
    }
}

/// Converts a visibility into its model, for [`parse_rust_file`]; it claims
/// nothing of its own.
#[verifier::external_body]
fn vis_model(v: &syn::Visibility) -> FnVisibility {
    match v {
        syn::Visibility::Public(_) => FnVisibility::Public,
        syn::Visibility::Restricted(_) => FnVisibility::Restricted,
        syn::Visibility::Inherited => FnVisibility::Inherited,
    }
}

/// Converts a `fn` input into its model, for [`parse_rust_file`]; it claims
/// nothing of its own.
#[verifier::external_body]
fn input_model(a: &syn::FnArg) -> FnInput {
    match a {
        syn::FnArg::Receiver(_) => FnInput::Receiver,
        syn::FnArg::Typed(pt) => FnInput::Typed { ty: type_model(&pt.ty) },
    }
}

/// Converts an attribute into its model, for [`parse_rust_file`]; it claims
/// nothing of its own.
#[verifier::external_body]
fn attr_model(a: &syn::Attribute) -> RustAttr {
    let str_value = match &a.meta {
        syn::Meta::NameValue(nv) => match &nv.value {
            syn::Expr::Lit(syn::ExprLit { lit: syn::Lit::Str(s), .. }) => Some(s.value()),
            _ => None,
        },
        _ => None,
    };
    let path = a.path();
    RustAttr { path: path.segments.iter().map(|s| s.ident.to_string()).collect(), global: path.leading_colon.is_some(), str_value }
}

/// Converts a type into its model, node by node, with each node's tokens
/// printed, for [`parse_rust_file`]; it claims nothing of its own.
#[verifier::external_body]
fn type_model(t: &syn::Type) -> RustType {
    let text = t.to_token_stream().to_string();
    match t {
        syn::Type::Path(p) => RustType::Path { segments: p.path.segments.iter().map(segment_model).collect(), text },
        syn::Type::Reference(r) => RustType::Reference { elem: Box::new(type_model(&r.elem)), text },
        syn::Type::Tuple(u) => RustType::Tuple { elems: u.elems.iter().map(type_model).collect(), text },
        _ => RustType::Other { text },
    }
}

/// Converts a path segment into its model, for [`parse_rust_file`]; it
/// claims nothing of its own.
#[verifier::external_body]
fn segment_model(s: &syn::PathSegment) -> TypeSegment {
    let args = match &s.arguments {
        syn::PathArguments::None => PathArgs::Bare,
        syn::PathArguments::AngleBracketed(a) => PathArgs::Angle { args: a.args.iter().map(|g| match g {
            syn::GenericArgument::Type(t) => GenericArg::Type { ty: type_model(t) },
            _ => GenericArg::Other,
        }).collect() },
        syn::PathArguments::Parenthesized(_) => PathArgs::Paren,
    };
    TypeSegment { ident: s.ident.to_string(), args }
}

/// The identifier of a type's last path segment, looking through references;
/// `None` for other types.
pub open spec fn last_ident_of(t: TypeV) -> Option<Seq<char>>
    decreases t,
{
    match t {
        TypeV::Path { segments, .. } => if segments.len() > 0 {
            Some(segments.last().ident)
        } else {
            None
        },
        TypeV::Reference { elem, .. } => last_ident_of(*elem),
        _ => None,
    }
}

/// The first type among angle-bracketed arguments.
pub open spec fn first_type_in(args: Seq<ArgV>) -> Option<TypeV>
    decreases args.len(),
{
    if args.len() == 0 {
        None
    } else {
        match args[0] {
            ArgV::Type { ty } => Some(ty),
            ArgV::Other => first_type_in(args.drop_first()),
        }
    }
}

/// The first type argument of a path type's last segment (`T` in
/// `Wrapper<'a, T>`); `None` for other types (references are not looked
/// through).
pub open spec fn first_type_arg_of(t: TypeV) -> Option<TypeV> {
    match t {
        TypeV::Path { segments, .. } => if segments.len() > 0 {
            match segments.last().args {
                ArgsV::Angle { args } => first_type_in(args),
                _ => None,
            }
        } else {
            None
        },
        _ => None,
    }
}

/// A copy of a type, node for node.
pub fn copy_type(t: &RustType) -> (r: RustType)
    ensures
        r@ == t@,
        type_text(r) == type_text(*t),
    decreases t,
{
    match t {
        RustType::Path { segments, text } => {
            let mut v: Vec<TypeSegment> = Vec::new();
            let mut i: usize = 0;
            while i < segments.len()
                invariant
                    i <= segments.len(),
                    *t == (RustType::Path { segments: *segments, text: *text }),
                    segments_view(v@) == segments_view(segments@.subrange(0, i as int)),
                decreases segments.len() - i,
            {
                proof {
                    assert(decreases_to!(*t => t->segments));
                    assert(decreases_to!(*segments => segments@));
                    assert(decreases_to!(segments@ => segments@[i as int]));
                    assert(decreases_to!(*t => segments@[i as int]));
                }
                let c = copy_segment(&segments[i]);
                let ghost v0 = v@;
                v.push(c);
                assert(v@.drop_last() =~= v0);
                assert(segments@.subrange(0, i + 1).drop_last() =~= segments@.subrange(0, i as int));
                i = i + 1;
            }
            assert(segments@.subrange(0, segments@.len() as int) =~= segments@);
            RustType::Path { segments: v, text: text.clone() }
        },
        RustType::Reference { elem, text } => {
            let e = copy_type(elem);
            RustType::Reference { elem: Box::new(e), text: text.clone() }
        },
        RustType::Tuple { elems, text } => {
            let mut v: Vec<RustType> = Vec::new();
            let mut i: usize = 0;
            while i < elems.len()
                invariant
                    i <= elems.len(),
                    *t == (RustType::Tuple { elems: *elems, text: *text }),
                    types_view(v@) == types_view(elems@.subrange(0, i as int)),
                decreases elems.len() - i,
            {
                proof {
                    assert(decreases_to!(*t => t->elems));
                    assert(decreases_to!(*elems => elems@));
                    assert(decreases_to!(elems@ => elems@[i as int]));
                    assert(decreases_to!(*t => elems@[i as int]));
                }
                let c = copy_type(&elems[i]);
                let ghost v0 = v@;
                v.push(c);
                assert(v@.drop_last() =~= v0);
                assert(elems@.subrange(0, i + 1).drop_last() =~= elems@.subrange(0, i as int));
                i = i + 1;
            }
            assert(elems@.subrange(0, elems@.len() as int) =~= elems@);
            RustType::Tuple { elems: v, text: text.clone() }
        },
        RustType::Other { text } => RustType::Other { text: text.clone() },
    }
}

/// The structures of a sequence of types, taken one by one, are those the
/// view of a tuple holds.
pub proof fn lemma_types_view(s: Seq<RustType>)
    ensures
        tviews(s) == types_view(s),
    decreases s.len(),
{
    if s.len() > 0 {
        lemma_types_view(s.drop_last());
        assert(tviews(s) =~= tviews(s.drop_last()).push(s.last()@));
    } else {
        assert(tviews(s) =~= Seq::<TypeV>::empty());
    }
}

/// A copy of a sequence of types.
pub fn copy_types(v: &Vec<RustType>) -> (r: Vec<RustType>)
    ensures
        tviews(r@) == tviews(v@),
{
    let mut r: Vec<RustType> = Vec::new();
    let mut i: usize = 0;
    while i < v.len()
        invariant
            i <= v.len(),
            r@.len() == i,
            forall|j: int| 0 <= j < i ==> (#[trigger] r@[j])@ == v@[j]@,
        decreases v.len() - i,
    {
        let c = copy_type(&v[i]);
        r.push(c);
        i = i + 1;
    }
    assert(tviews(r@) =~= tviews(v@));
    r
}

/// A copy of a path segment.
fn copy_segment(p: &TypeSegment) -> (r: TypeSegment)
    ensures
        segment_view(r) == segment_view(*p),
    decreases p,
{
    let args = match &p.args {
        PathArgs::Bare => PathArgs::Bare,
        PathArgs::Paren => PathArgs::Paren,
        PathArgs::Angle { args } => {
            let mut v: Vec<GenericArg> = Vec::new();
            let mut i: usize = 0;
            while i < args.len()
                invariant
                    i <= args.len(),
                    p.args == (PathArgs::Angle { args: *args }),
                    args_view(v@) == args_view(args@.subrange(0, i as int)),
                decreases args.len() - i,
            {
                proof {
                    assert(decreases_to!(*args => args@));
                    assert(decreases_to!(args@ => args@[i as int]));
                }
                let c = match &args[i] {
                    GenericArg::Type { ty } => {
                        proof {
                            assert(decreases_to!(*p => p.args));
                            assert(decreases_to!(p.args => p.args->args));
                            assert(decreases_to!(args@[i as int] => args@[i as int]->ty));
                            assert(decreases_to!(*p => *ty));
                        }
                        GenericArg::Type { ty: copy_type(ty) }
                    },
                    GenericArg::Other => GenericArg::Other,
                };
                let ghost v0 = v@;
                v.push(c);
                assert(v@.drop_last() =~= v0);
                assert(args@.subrange(0, i + 1).drop_last() =~= args@.subrange(0, i as int));
                i = i + 1;
            }
            assert(args@.subrange(0, args@.len() as int) =~= args@);
            PathArgs::Angle { args: v }
        },
    };
    TypeSegment { ident: p.ident.clone(), args }
}

/// The identifier of a type's last path segment, see [`last_ident_of`].
pub fn type_last_ident(t: &RustType) -> (r: Option<String>)
    ensures
        match r {
            Some(s) => last_ident_of(t@) == Some(s@),
            None => last_ident_of(t@) is None,
        },
    decreases t,
{
    match t {
        RustType::Path { segments, .. } => {
            if segments.len() > 0 {
                assert(segments_view(segments@).last() == segment_view(segments@.last()));
                Some(segments[segments.len() - 1].ident.clone())
            } else {
                None
            }
        },
        RustType::Reference { elem, .. } => type_last_ident(elem),
        _ => None,
    }
}

/// Whether a type's last path segment is `name`.
pub fn last_ident_is(t: &RustType, name: &str) -> (b: bool)
    ensures
        b == (last_ident_of(t@) == Some(name@)),
{
    match type_last_ident(t) {
        Some(s) => str_is(&s, name),
        None => false,
    }
}

/// The first type argument of a path type, see [`first_type_arg_of`].
pub fn first_generic_type(t: &RustType) -> (r: Option<RustType>)
    ensures
        opt_tview(r) == first_type_arg_of(t@),
{
    match t {
        RustType::Path { segments, .. } => {
            if segments.len() == 0 {
                return None;
            }
            let last = &segments[segments.len() - 1];
            assert(segments_view(segments@).last() == segment_view(segments@.last()));
            match &last.args {
                PathArgs::Angle { args } => {
                    let mut i: usize = 0;
                    assert(args_view(args@).skip(0) =~= args_view(args@));
                    assert(first_type_arg_of(t@) == first_type_in(args_view(args@)));
                    while i < args.len()
                        invariant
                            i <= args.len(),
                            first_type_arg_of(t@) == first_type_in(args_view(args@)),
                            first_type_in(args_view(args@)) == first_type_in(args_view(args@).skip(i as int)),
                        decreases args.len() - i,
                    {
                        proof { lemma_args_view_index(args@, i as int); }
                        assert(args_view(args@).skip(i as int).drop_first() =~= args_view(args@).skip(i + 1));
                        match &args[i] {
                            GenericArg::Type { ty } => {
                                return Some(copy_type(ty));
                            },
                            GenericArg::Other => {},
                        }
                        i = i + 1;
                    }
                    proof { lemma_args_view_len(args@); }
                    assert(args_view(args@).skip(i as int) =~= Seq::<ArgV>::empty());
                    None
                },
                _ => None,
            }
        },
        _ => None,
    }
}

/// The views of arguments are taken element by element.
proof fn lemma_args_view_index(s: Seq<GenericArg>, i: int)
    requires
        0 <= i < s.len(),
    ensures
        args_view(s).len() == s.len(),
        args_view(s)[i] == match s[i] {
            GenericArg::Type { ty } => ArgV::Type { ty: ty@ },
            GenericArg::Other => ArgV::Other,
        },
    decreases s.len(),
{
    if i < s.len() - 1 {
        lemma_args_view_index(s.drop_last(), i);
    }
    lemma_args_view_len(s);
}

/// There is one view per argument.
proof fn lemma_args_view_len(s: Seq<GenericArg>)
    ensures
        args_view(s).len() == s.len(),
    decreases s.len(),
{
    if s.len() > 0 {
        lemma_args_view_len(s.drop_last());
    }
}

} // verus!
