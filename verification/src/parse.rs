//! Reading a source file into a syntax tree.
use syn::spanned::Spanned;
use vstd::prelude::*;
use vstd::utf8::{decode_utf8, valid_utf8};

use crate::syntax::{
    all_located, lemma_inline_module, member_models, node_models, Member, MemberModel, MemberShape,
    MemberShapeModel, Name, NameModel, Node, NodeModel, Shape, ShapeModel,
};
use crate::text::{
    from_utf8_lossy, holds_text, law_text_no_longer_than_bytes, lossy_text, LineColumn, Span,
};

verus! {

/// How long a source file can be. The parser numbers the characters of all that
/// it looks at with 32 bits. While it parses a text, it looks at parts of it
/// again as texts of their own: at the numbers of a tuple index such as `x.0.1`,
/// and at a literal behind a minus sign. The rest of the numbers, thirty-one
/// times as many as the text has characters, is room for these. That the parser
/// does not look at such a part more often than that is what the bound rests on.
pub const MAX_SOURCE: usize = 0x0800_0000;

/// A source file is not Rust.
#[derive(Debug)]
pub struct SyntaxError {
    pub message: String,
}

// ---------------------------------------------------------------------------
// The parser
// ---------------------------------------------------------------------------

#[verifier::external_type_specification]
#[verifier::external_body]
pub struct ExSynError(syn::Error);

#[verifier::external_type_specification]
#[verifier::external_body]
pub struct ExSynItem(syn::Item);

#[verifier::external_type_specification]
#[verifier::external_body]
pub struct ExSynForeignItem(syn::ForeignItem);

#[verifier::external_type_specification]
#[verifier::external_body]
pub struct ExSynImplItem(syn::ImplItem);

#[verifier::external_type_specification]
#[verifier::external_body]
pub struct ExSynIdent(syn::Ident);

/// The items of the file that `text` is, or what is wrong with it.
pub uninterp spec fn parsed_text(text: Seq<char>) -> Result<Seq<NodeModel>, Seq<char>>;

/// What an error of the parser says.
pub uninterp spec fn error_text(error: syn::Error) -> Seq<char>;

/// What an item of the parser holds.
pub uninterp spec fn item_model(item: syn::Item) -> NodeModel;

/// What a foreign item of the parser holds.
pub uninterp spec fn foreign_item_model(item: syn::ForeignItem) -> MemberModel;

/// What an item of an `impl` block of the parser holds.
pub uninterp spec fn impl_item_model(item: syn::ImplItem) -> MemberModel;

/// What an identifier of the parser holds.
pub uninterp spec fn ident_model(ident: syn::Ident) -> NameModel;

/// The text that an item of the parser was parsed from.
pub uninterp spec fn item_source(item: syn::Item) -> Seq<char>;

/// The text that a foreign item of the parser was parsed from.
pub uninterp spec fn foreign_item_source(item: syn::ForeignItem) -> Seq<char>;

/// The text that an item of an `impl` block of the parser was parsed from.
pub uninterp spec fn impl_item_source(item: syn::ImplItem) -> Seq<char>;

/// The text that an identifier of the parser was parsed from.
pub uninterp spec fn ident_source(ident: syn::Ident) -> Seq<char>;

pub open spec fn items_of(items: Seq<syn::Item>, text: Seq<char>) -> bool {
    forall|i: int| 0 <= i < items.len() ==> item_source(#[trigger] items[i]) == text
}

pub open spec fn foreign_items_of(items: Seq<syn::ForeignItem>, text: Seq<char>) -> bool {
    forall|i: int| 0 <= i < items.len() ==> foreign_item_source(#[trigger] items[i]) == text
}

pub open spec fn impl_items_of(items: Seq<syn::ImplItem>, text: Seq<char>) -> bool {
    forall|i: int| 0 <= i < items.len() ==> impl_item_source(#[trigger] items[i]) == text
}

pub open spec fn idents_of(idents: Seq<Option<&syn::Ident>>, text: Seq<char>) -> bool {
    forall|i: int|
        0 <= i < idents.len() ==> ((#[trigger] idents[i]) matches Some(ident) ==> ident_source(
            *ident,
        ) == text)
}

pub open spec fn item_models(items: Seq<syn::Item>) -> Seq<NodeModel> {
    items.map_values(|item: syn::Item| item_model(item))
}

pub open spec fn foreign_item_models(items: Seq<syn::ForeignItem>) -> Seq<MemberModel> {
    items.map_values(|item: syn::ForeignItem| foreign_item_model(item))
}

pub open spec fn impl_item_models(items: Seq<syn::ImplItem>) -> Seq<MemberModel> {
    items.map_values(|item: syn::ImplItem| impl_item_model(item))
}

/// [`syn::parse_str`] of a [`syn::File`]: the items of the file, or an error.
/// Which of the two, the items and the words of the error depend on the text
/// alone. The line and the column of each item, and of what it holds, are those
/// of a place in the text.
///
/// The parser keeps a table of the texts of a thread, in which their characters
/// are numbered on and on. [`proc_macro2::extra::invalidate_current_thread_spans`]
/// empties it first, so the numbers of a text always begin with the same one. It
/// makes the spans of all that was parsed before on the thread invalid, and it
/// panics inside a procedural macro. That the stack suffices for deep nesting is
/// not stated.
#[verifier::external_body]
fn parse_file(text: &str) -> (file: Result<Vec<syn::Item>, syn::Error>)
    requires
        text@.len() <= MAX_SOURCE,
    ensures
        match file {
            Ok(items) => parsed_text(text@) is Ok && parsed_text(text@)->Ok_0 == item_models(items@),
            Err(error) => parsed_text(text@) is Err && parsed_text(text@)->Err_0 == error_text(
                error,
            ),
        },
        file matches Ok(items) ==> all_located(item_models(items@), text@),
        file matches Ok(items) ==> items_of(items@, text@),
{
    proc_macro2::extra::invalidate_current_thread_spans();
    match syn::parse_str::<syn::File>(text) {
        Ok(file) => Ok(file.items),
        Err(error) => Err(error),
    }
}

/// The `Display` of a [`syn::Error`].
#[verifier::external_body]
fn error_message(error: &syn::Error) -> (message: String)
    ensures
        message@ == error_text(*error),
{
    error.to_string()
}

/// The text of each [`syn::Ident`] of a list, and the line on which its span
/// starts.
///
/// [`proc_macro2::extra::invalidate_current_thread_spans`] empties the table of
/// the texts of the thread, and [`proc_macro2::Literal`]'s `from_str` puts the
/// text into it again, literal or not, with the numbers that it had when it was
/// parsed. So the table holds the right text, whatever was parsed since.
#[verifier::external_body]
fn read_idents(text: &str, idents: &Vec<Option<&syn::Ident>>) -> (names: Vec<Option<Name>>)
    requires
        text@.len() <= MAX_SOURCE,
        idents_of(idents@, text@),
    ensures
        names@.len() == idents@.len(),
        forall|i: int|
            0 <= i < names@.len() ==> match (#[trigger] names@[i], idents@[i]) {
                (Some(name), Some(ident)) => name@ == ident_model(*ident),
                (None, None) => true,
                _ => false,
            },
{
    proc_macro2::extra::invalidate_current_thread_spans();
    let _ = text.parse::<proc_macro2::Literal>();
    let read = |ident: &syn::Ident| Name { text: ident.to_string(), line: ident.span().start().line };
    idents.iter().map(|ident| ident.map(read)).collect()
}

/// What a name holds, where there is one.
pub open spec fn name_of(name: Option<Name>) -> Option<NameModel> {
    match name {
        Some(name) => Some(name@),
        None => None,
    }
}

/// What an identifier of the parser holds, where there is one.
pub open spec fn ident_name(ident: Option<&syn::Ident>) -> Option<NameModel> {
    match ident {
        Some(ident) => Some(ident_model(*ident)),
        None => None,
    }
}

/// The variants of a [`Shape`].
#[derive(Clone, Copy)]
pub enum ShapeTag {
    Const,
    Enum,
    Fn,
    Macro,
    Static,
    Struct,
    Type,
    Union,
    Mod,
    ForeignMod,
    Impl,
    Other,
}

pub open spec fn shape_tag(shape: ShapeModel) -> ShapeTag {
    match shape {
        ShapeModel::Const(_) => ShapeTag::Const,
        ShapeModel::Enum(_) => ShapeTag::Enum,
        ShapeModel::Fn(_) => ShapeTag::Fn,
        ShapeModel::Macro(_) => ShapeTag::Macro,
        ShapeModel::Static(_) => ShapeTag::Static,
        ShapeModel::Struct(_) => ShapeTag::Struct,
        ShapeModel::Type(_) => ShapeTag::Type,
        ShapeModel::Union(_) => ShapeTag::Union,
        ShapeModel::Mod(_) => ShapeTag::Mod,
        ShapeModel::ForeignMod { .. } => ShapeTag::ForeignMod,
        ShapeModel::Impl { .. } => ShapeTag::Impl,
        ShapeModel::Other => ShapeTag::Other,
    }
}

/// The name of an item that declares one thing.
pub open spec fn shape_name(shape: ShapeModel) -> Option<NameModel> {
    match shape {
        ShapeModel::Const(name) => Some(name),
        ShapeModel::Enum(name) => Some(name),
        ShapeModel::Fn(name) => Some(name),
        ShapeModel::Macro(name) => name,
        ShapeModel::Static(name) => Some(name),
        ShapeModel::Struct(name) => Some(name),
        ShapeModel::Type(name) => Some(name),
        ShapeModel::Union(name) => Some(name),
        _ => None,
    }
}

/// Which variant a [`syn::Item`] is.
#[verifier::external_body]
fn item_tag(item: &syn::Item) -> (tag: ShapeTag)
    ensures
        tag == shape_tag(item_model(*item).shape),
{
    match item {
        syn::Item::Const(_) => ShapeTag::Const,
        syn::Item::Enum(_) => ShapeTag::Enum,
        syn::Item::Fn(_) => ShapeTag::Fn,
        syn::Item::Macro(_) => ShapeTag::Macro,
        syn::Item::Static(_) => ShapeTag::Static,
        syn::Item::Struct(_) => ShapeTag::Struct,
        syn::Item::Type(_) => ShapeTag::Type,
        syn::Item::Union(_) => ShapeTag::Union,
        syn::Item::Mod(_) => ShapeTag::Mod,
        syn::Item::ForeignMod(_) => ShapeTag::ForeignMod,
        syn::Item::Impl(_) => ShapeTag::Impl,
        _ => ShapeTag::Other,
    }
}

/// The `ident` of a [`syn::Item`] that declares one thing; that of a function is
/// in its signature.
#[verifier::external_body]
fn item_ident(item: &syn::Item) -> (ident: Option<&syn::Ident>)
    ensures
        shape_name(item_model(*item).shape) == ident_name(ident),
        ident matches Some(ident) ==> ident_source(*ident) == item_source(*item),
{
    match item {
        syn::Item::Const(item) => Some(&item.ident),
        syn::Item::Enum(item) => Some(&item.ident),
        syn::Item::Fn(item) => Some(&item.sig.ident),
        syn::Item::Macro(item) => item.ident.as_ref(),
        syn::Item::Static(item) => Some(&item.ident),
        syn::Item::Struct(item) => Some(&item.ident),
        syn::Item::Type(item) => Some(&item.ident),
        syn::Item::Union(item) => Some(&item.ident),
        _ => None,
    }
}

/// The start and the end of the span of each [`syn::Item`] of a list.
///
/// [`proc_macro2::extra::invalidate_current_thread_spans`] empties the table of
/// the texts of the thread, and [`proc_macro2::Literal`]'s `from_str` puts the
/// text into it again, literal or not, with the numbers that it had when it was
/// parsed. So the table holds the right text, whatever was parsed since.
#[verifier::external_body]
fn item_spans(text: &str, items: &Vec<syn::Item>) -> (spans: Vec<Span>)
    requires
        text@.len() <= MAX_SOURCE,
        items_of(items@, text@),
    ensures
        spans@.len() == items@.len(),
        forall|i: int|
            0 <= i < spans@.len() ==> #[trigger] spans@[i] == item_model(items@[i]).span,
{
    proc_macro2::extra::invalidate_current_thread_spans();
    let _ = text.parse::<proc_macro2::Literal>();
    let place = |at: proc_macro2::LineColumn| LineColumn { line: at.line, column: at.column };
    items
        .iter()
        .map(|item| item.span())
        .map(|span| Span { start: place(span.start()), end: place(span.end()) })
        .collect()
}

/// The items of a [`syn::ItemMod`] that is written inline.
#[verifier::external_body]
fn mod_items(item: &syn::Item) -> (items: Option<&Vec<syn::Item>>)
    ensures
        match items {
            Some(items) => item_model(*item).shape == ShapeModel::Mod(Some(item_models(items@))),
            None => !(item_model(*item).shape matches ShapeModel::Mod(Some(_))),
        },
        items matches Some(items) ==> items_of(items@, item_source(*item)),
{
    match item {
        syn::Item::Mod(block) => block.content.as_ref().map(|content| &content.1),
        _ => None,
    }
}

/// The number of attributes of a [`syn::ItemForeignMod`], and its items.
#[verifier::external_body]
fn foreign_mod_items(item: &syn::Item) -> (block: Option<(usize, &Vec<syn::ForeignItem>)>)
    ensures
        match block {
            Some((attributes, items)) => item_model(*item).shape == (ShapeModel::ForeignMod {
                attributes,
                members: foreign_item_models(items@),
            }),
            None => !(item_model(*item).shape is ForeignMod),
        },
        block matches Some((_, items)) ==> foreign_items_of(items@, item_source(*item)),
{
    match item {
        syn::Item::ForeignMod(block) => Some((block.attrs.len(), &block.items)),
        _ => None,
    }
}

/// The number of attributes of a [`syn::ItemImpl`], whether it implements a
/// trait, and its items.
#[verifier::external_body]
fn impl_items(item: &syn::Item) -> (block: Option<(usize, bool, &Vec<syn::ImplItem>)>)
    ensures
        match block {
            Some((attributes, of_trait, items)) => item_model(*item).shape == (ShapeModel::Impl {
                attributes,
                of_trait,
                members: impl_item_models(items@),
            }),
            None => !(item_model(*item).shape is Impl),
        },
        block matches Some((_, _, items)) ==> impl_items_of(items@, item_source(*item)),
{
    match item {
        syn::Item::Impl(block) => Some((block.attrs.len(), block.trait_.is_some(), &block.items)),
        _ => None,
    }
}

/// The variants of a [`MemberShape`].
#[derive(Clone, Copy)]
pub enum MemberTag {
    Const,
    Fn,
    Static,
    Type,
    Other,
}

pub open spec fn member_tag(shape: MemberShapeModel) -> MemberTag {
    match shape {
        MemberShapeModel::Const(_) => MemberTag::Const,
        MemberShapeModel::Fn(_) => MemberTag::Fn,
        MemberShapeModel::Static(_) => MemberTag::Static,
        MemberShapeModel::Type(_) => MemberTag::Type,
        MemberShapeModel::Other => MemberTag::Other,
    }
}

/// The name that a member declares.
pub open spec fn member_name(shape: MemberShapeModel) -> Option<NameModel> {
    match shape {
        MemberShapeModel::Const(name) => Some(name),
        MemberShapeModel::Fn(name) => Some(name),
        MemberShapeModel::Static(name) => Some(name),
        MemberShapeModel::Type(name) => Some(name),
        MemberShapeModel::Other => None,
    }
}

/// What a tag and a name say of `shape`.
pub open spec fn declares(
    shape: MemberShapeModel,
    tag: MemberTag,
    name: Option<NameModel>,
) -> bool {
    tag == member_tag(shape) && name == member_name(shape)
}

/// Which variant a [`syn::ForeignItem`] is, and its `ident`; that of a function
/// is in its signature.
#[verifier::external_body]
fn foreign_item_ident(item: &syn::ForeignItem) -> (ident: (MemberTag, Option<&syn::Ident>))
    ensures
        declares(foreign_item_model(*item).shape, ident.0, ident_name(ident.1)),
        ident.1 matches Some(ident) ==> ident_source(*ident) == foreign_item_source(*item),
{
    match item {
        syn::ForeignItem::Fn(item) => (MemberTag::Fn, Some(&item.sig.ident)),
        syn::ForeignItem::Static(item) => (MemberTag::Static, Some(&item.ident)),
        syn::ForeignItem::Type(item) => (MemberTag::Type, Some(&item.ident)),
        _ => (MemberTag::Other, None),
    }
}

/// The start and the end of the span of each [`syn::ForeignItem`] of a list.
///
/// [`proc_macro2::extra::invalidate_current_thread_spans`] empties the table of
/// the texts of the thread, and [`proc_macro2::Literal`]'s `from_str` puts the
/// text into it again, literal or not, with the numbers that it had when it was
/// parsed. So the table holds the right text, whatever was parsed since.
#[verifier::external_body]
fn foreign_item_spans(text: &str, items: &Vec<syn::ForeignItem>) -> (spans: Vec<Span>)
    requires
        text@.len() <= MAX_SOURCE,
        foreign_items_of(items@, text@),
    ensures
        spans@.len() == items@.len(),
        forall|i: int|
            0 <= i < spans@.len() ==> #[trigger] spans@[i] == foreign_item_model(items@[i]).span,
{
    proc_macro2::extra::invalidate_current_thread_spans();
    let _ = text.parse::<proc_macro2::Literal>();
    let place = |at: proc_macro2::LineColumn| LineColumn { line: at.line, column: at.column };
    items
        .iter()
        .map(|item| item.span())
        .map(|span| Span { start: place(span.start()), end: place(span.end()) })
        .collect()
}

/// Which variant a [`syn::ImplItem`] is, and its `ident`; that of a function is
/// in its signature.
#[verifier::external_body]
fn impl_item_ident(item: &syn::ImplItem) -> (ident: (MemberTag, Option<&syn::Ident>))
    ensures
        declares(impl_item_model(*item).shape, ident.0, ident_name(ident.1)),
        ident.1 matches Some(ident) ==> ident_source(*ident) == impl_item_source(*item),
{
    match item {
        syn::ImplItem::Const(item) => (MemberTag::Const, Some(&item.ident)),
        syn::ImplItem::Fn(item) => (MemberTag::Fn, Some(&item.sig.ident)),
        syn::ImplItem::Type(item) => (MemberTag::Type, Some(&item.ident)),
        _ => (MemberTag::Other, None),
    }
}

/// The start and the end of the span of each [`syn::ImplItem`] of a list.
///
/// [`proc_macro2::extra::invalidate_current_thread_spans`] empties the table of
/// the texts of the thread, and [`proc_macro2::Literal`]'s `from_str` puts the
/// text into it again, literal or not, with the numbers that it had when it was
/// parsed. So the table holds the right text, whatever was parsed since.
#[verifier::external_body]
fn impl_item_spans(text: &str, items: &Vec<syn::ImplItem>) -> (spans: Vec<Span>)
    requires
        text@.len() <= MAX_SOURCE,
        impl_items_of(items@, text@),
    ensures
        spans@.len() == items@.len(),
        forall|i: int|
            0 <= i < spans@.len() ==> #[trigger] spans@[i] == impl_item_model(items@[i]).span,
{
    proc_macro2::extra::invalidate_current_thread_spans();
    let _ = text.parse::<proc_macro2::Literal>();
    let place = |at: proc_macro2::LineColumn| LineColumn { line: at.line, column: at.column };
    items
        .iter()
        .map(|item| item.span())
        .map(|span| Span { start: place(span.start()), end: place(span.end()) })
        .collect()
}

// ---------------------------------------------------------------------------
// From the parser's items to nodes
// ---------------------------------------------------------------------------

/// The members that spans, tags and names make.
fn make_members(
    spans: Vec<Span>,
    tags: Vec<MemberTag>,
    names: Vec<Option<Name>>,
    Ghost(models): Ghost<Seq<MemberModel>>,
) -> (members: Vec<Member>)
    requires
        spans@.len() == tags@.len() == names@.len() == models.len(),
        forall|i: int| 0 <= i < models.len() ==> #[trigger] spans@[i] == models[i].span,
        forall|i: int|
            0 <= i < models.len() ==> declares(
                models[i].shape,
                #[trigger] tags@[i],
                name_of(names@[i]),
            ),
    ensures
        member_models(members@) == models,
{
    let ghost all = names@;
    let mut members: Vec<Member> = Vec::new();
    let mut i: usize = 0;
    for name in iter: names
        invariant
            iter.seq() == all,
            i == iter.index(),
            members@.len() == i,
            spans@.len() == tags@.len() == all.len() == models.len(),
            forall|k: int| 0 <= k < models.len() ==> #[trigger] spans@[k] == models[k].span,
            forall|k: int|
                0 <= k < models.len() ==> declares(
                    models[k].shape,
                    #[trigger] tags@[k],
                    name_of(all[k]),
                ),
            forall|k: int| 0 <= k < i ==> (#[trigger] members@[k])@ == models[k],
    {
        assert(name == all[i as int]);
        assert(i < spans.len());
        let shape = match (tags[i], name) {
            (MemberTag::Const, Some(name)) => MemberShape::Const(name),
            (MemberTag::Fn, Some(name)) => MemberShape::Fn(name),
            (MemberTag::Static, Some(name)) => MemberShape::Static(name),
            (MemberTag::Type, Some(name)) => MemberShape::Type(name),
            _ => MemberShape::Other,
        };
        members.push(Member { span: spans[i], shape });
        i = i + 1;
    }
    assert(member_models(members@) =~= models);
    members
}

fn read_foreign_items(text: &str, items: &Vec<syn::ForeignItem>) -> (members: Vec<Member>)
    requires
        text@.len() <= MAX_SOURCE,
        foreign_items_of(items@, text@),
    ensures
        member_models(members@) == foreign_item_models(items@),
{
    let mut tags: Vec<MemberTag> = Vec::new();
    let mut idents: Vec<Option<&syn::Ident>> = Vec::new();
    let mut i: usize = 0;
    while i < items.len()
        invariant
            i <= items@.len(),
            foreign_items_of(items@, text@),
            tags@.len() == i,
            idents@.len() == i,
            idents_of(idents@, text@),
            forall|k: int|
                0 <= k < i ==> declares(
                    foreign_item_model(items@[k]).shape,
                    #[trigger] tags@[k],
                    ident_name(idents@[k]),
                ),
        decreases items@.len() - i,
    {
        let (tag, ident) = foreign_item_ident(&items[i]);
        tags.push(tag);
        idents.push(ident);
        i = i + 1;
    }
    let spans = foreign_item_spans(text, items);
    let names = read_idents(text, &idents);
    proof {
        assert forall|k: int| 0 <= k < items@.len() implies declares(
            foreign_item_models(items@)[k].shape,
            #[trigger] tags@[k],
            name_of(names@[k]),
        ) by {
            assert(name_of(names@[k]) == ident_name(idents@[k]));
        }
    }
    make_members(spans, tags, names, Ghost(foreign_item_models(items@)))
}

fn read_impl_items(text: &str, items: &Vec<syn::ImplItem>) -> (members: Vec<Member>)
    requires
        text@.len() <= MAX_SOURCE,
        impl_items_of(items@, text@),
    ensures
        member_models(members@) == impl_item_models(items@),
{
    let mut tags: Vec<MemberTag> = Vec::new();
    let mut idents: Vec<Option<&syn::Ident>> = Vec::new();
    let mut i: usize = 0;
    while i < items.len()
        invariant
            i <= items@.len(),
            impl_items_of(items@, text@),
            tags@.len() == i,
            idents@.len() == i,
            idents_of(idents@, text@),
            forall|k: int|
                0 <= k < i ==> declares(
                    impl_item_model(items@[k]).shape,
                    #[trigger] tags@[k],
                    ident_name(idents@[k]),
                ),
        decreases items@.len() - i,
    {
        let (tag, ident) = impl_item_ident(&items[i]);
        tags.push(tag);
        idents.push(ident);
        i = i + 1;
    }
    let spans = impl_item_spans(text, items);
    let names = read_idents(text, &idents);
    proof {
        assert forall|k: int| 0 <= k < items@.len() implies declares(
            impl_item_models(items@)[k].shape,
            #[trigger] tags@[k],
            name_of(names@[k]),
        ) by {
            assert(name_of(names@[k]) == ident_name(idents@[k]));
        }
    }
    make_members(spans, tags, names, Ghost(impl_item_models(items@)))
}

/// The shape of an item that declares one thing.
fn make_declaration(
    tag: ShapeTag,
    name: Option<Name>,
    Ghost(model): Ghost<ShapeModel>,
) -> (shape: Shape)
    requires
        tag == shape_tag(model),
        name_of(name) == shape_name(model),
        !(tag is Mod || tag is ForeignMod || tag is Impl),
    ensures
        forall|span: Span| (#[trigger] (Node { span, shape })@).shape == model,
{
    match (tag, name) {
        (ShapeTag::Const, Some(name)) => Shape::Const(name),
        (ShapeTag::Enum, Some(name)) => Shape::Enum(name),
        (ShapeTag::Fn, Some(name)) => Shape::Fn(name),
        (ShapeTag::Macro, name) => Shape::Macro(name),
        (ShapeTag::Static, Some(name)) => Shape::Static(name),
        (ShapeTag::Struct, Some(name)) => Shape::Struct(name),
        (ShapeTag::Type, Some(name)) => Shape::Type(name),
        (ShapeTag::Union, Some(name)) => Shape::Union(name),
        _ => Shape::Other,
    }
}

fn read_item(text: &str, item: &syn::Item, span: Span, name: Option<Name>) -> (node: Node)
    requires
        text@.len() <= MAX_SOURCE,
        item_source(*item) == text@,
        span == item_model(*item).span,
        name_of(name) == shape_name(item_model(*item).shape),
    ensures
        node@ == item_model(*item),
    decreases item_model(*item), 0int,
{
    let tag = item_tag(item);
    let shape = match tag {
        ShapeTag::Mod => match mod_items(item) {
            Some(items) => {
                let ghost models = item_model(*item).shape->Mod_0->0;
                assert(decreases_to!(item_model(*item) => item_model(*item).shape));
                assert(decreases_to!(item_model(*item).shape => item_model(*item).shape->Mod_0));
                assert(decreases_to!(item_model(*item).shape->Mod_0 => models));
                let nodes = read_items(text, items);
                proof {
                    lemma_inline_module(Node { span, shape: Shape::Mod(Some(nodes)) });
                }
                Shape::Mod(Some(nodes))
            },
            None => Shape::Mod(None),
        },
        ShapeTag::ForeignMod => match foreign_mod_items(item) {
            Some((attributes, items)) => Shape::ForeignMod {
                attributes,
                members: read_foreign_items(text, items),
            },
            None => Shape::Other,
        },
        ShapeTag::Impl => match impl_items(item) {
            Some((attributes, of_trait, items)) => Shape::Impl {
                attributes,
                of_trait,
                members: read_impl_items(text, items),
            },
            None => Shape::Other,
        },
        _ => make_declaration(tag, name, Ghost(item_model(*item).shape)),
    };
    Node { span, shape }
}

fn read_items(text: &str, items: &Vec<syn::Item>) -> (nodes: Vec<Node>)
    requires
        text@.len() <= MAX_SOURCE,
        items_of(items@, text@),
    ensures
        node_models(nodes@) == item_models(items@),
    decreases item_models(items@), 1int,
{
    let mut idents: Vec<Option<&syn::Ident>> = Vec::new();
    let mut i: usize = 0;
    while i < items.len()
        invariant
            i <= items@.len(),
            items_of(items@, text@),
            idents@.len() == i,
            idents_of(idents@, text@),
            forall|k: int|
                0 <= k < i ==> ident_name(#[trigger] idents@[k]) == shape_name(
                    item_model(items@[k]).shape,
                ),
        decreases items@.len() - i,
    {
        idents.push(item_ident(&items[i]));
        i = i + 1;
    }
    let spans = item_spans(text, items);
    let names = read_idents(text, &idents);
    let ghost all = names@;
    let mut nodes: Vec<Node> = Vec::new();
    let mut k: usize = 0;
    for name in iter: names
        invariant
            iter.seq() == all,
            k == iter.index(),
            nodes@.len() == k,
            text@.len() <= MAX_SOURCE,
            items_of(items@, text@),
            spans@.len() == items@.len() == all.len() == idents@.len(),
            forall|j: int|
                0 <= j < items@.len() ==> #[trigger] spans@[j] == item_model(items@[j]).span,
            forall|j: int|
                0 <= j < all.len() ==> name_of(#[trigger] all[j]) == ident_name(idents@[j]),
            forall|j: int|
                0 <= j < items@.len() ==> ident_name(#[trigger] idents@[j]) == shape_name(
                    item_model(items@[j]).shape,
                ),
            forall|j: int| 0 <= j < k ==> (#[trigger] nodes@[j])@ == item_model(items@[j]),
    {
        assert(name == all[k as int]);
        assert(k < spans.len());
        assert(decreases_to!(item_models(items@) => item_models(items@)[k as int]));
        nodes.push(read_item(text, &items[k], spans[k], name));
        k = k + 1;
    }
    assert(node_models(nodes@) =~= item_models(items@));
    nodes
}

// ---------------------------------------------------------------------------
// Source files
// ---------------------------------------------------------------------------

/// The items of the source file that holds `bytes`, or what is wrong with it.
pub open spec fn parsed_source(bytes: Seq<u8>) -> Result<Seq<NodeModel>, Seq<char>> {
    parsed_text(lossy_text(bytes))
}

/// `nodes` stand in the text that `bytes` hold, which is the one that they encode
/// where they are UTF-8.
pub open spec fn read_from(bytes: Seq<u8>, nodes: Seq<NodeModel>) -> bool {
    &&& all_located(nodes, lossy_text(bytes))
    &&& holds_text(bytes, lossy_text(bytes))
    &&& valid_utf8(bytes) ==> lossy_text(bytes) == decode_utf8(bytes)
}

/// Reads a source file into its items. Spans of `proc_macro2` that the caller
/// holds on this thread become invalid. Not for use in a procedural macro.
pub fn parse_source(src: &[u8]) -> (nodes: Result<Vec<Node>, SyntaxError>)
    requires
        src@.len() <= MAX_SOURCE,
    ensures
        match nodes {
            Ok(nodes) => parsed_source(src@) is Ok && parsed_source(src@)->Ok_0 == node_models(
                nodes@,
            ),
            Err(error) => parsed_source(src@) is Err && parsed_source(src@)->Err_0
                == error.message@,
        },
        nodes matches Ok(nodes) ==> read_from(src@, node_models(nodes@)),
{
    let text = from_utf8_lossy(src);
    proof {
        law_text_no_longer_than_bytes(src@, text@);
    }
    match parse_file(text.as_str()) {
        Ok(items) => Ok(read_items(text.as_str(), &items)),
        Err(error) => Err(SyntaxError { message: error_message(&error) }),
    }
}

/// A source file that is UTF-8 is parsed as the text that it encodes.
pub proof fn law_parsed_source(bytes: Seq<u8>, nodes: Seq<NodeModel>)
    requires
        read_from(bytes, nodes),
    ensures
        parsed_source(bytes) == parsed_text(lossy_text(bytes)),
        valid_utf8(bytes) ==> parsed_source(bytes) == parsed_text(decode_utf8(bytes)),
{
}

} // verus!
