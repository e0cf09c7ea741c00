//! The syntax tree of a source file, as far as unused items are concerned.
use vstd::prelude::*;

use crate::text::{in_text, Span};

verus! {

/// An identifier and the line on which it stands.
#[derive(Debug)]
pub struct Name {
    pub text: String,
    pub line: usize,
}

/// An item of a file or of an inline module.
#[derive(Debug)]
pub struct Node {
    pub span: Span,
    pub shape: Shape,
}

/// What an item is.
#[derive(Debug)]
pub enum Shape {
    Const(Name),
    Enum(Name),
    Fn(Name),
    /// A macro definition has a name, a macro call has none.
    Macro(Option<Name>),
    Static(Name),
    Struct(Name),
    Type(Name),
    Union(Name),
    /// A module holds its items where it is written inline.
    Mod(Option<Vec<Node>>),
    /// A block of foreign items, with the number of its attributes.
    ForeignMod { attributes: usize, members: Vec<Member> },
    /// An `impl` block, with the number of its attributes; `of_trait` where it
    /// implements a trait.
    Impl { attributes: usize, of_trait: bool, members: Vec<Member> },
    Other,
}

/// An item of a foreign block or of an `impl` block.
#[derive(Debug)]
pub struct Member {
    pub span: Span,
    pub shape: MemberShape,
}

/// What a member is.
#[derive(Debug)]
pub enum MemberShape {
    Const(Name),
    Fn(Name),
    Static(Name),
    Type(Name),
    Other,
}

// ---------------------------------------------------------------------------
// Models
// ---------------------------------------------------------------------------

pub struct NameModel {
    pub text: Seq<char>,
    pub line: usize,
}

pub struct NodeModel {
    pub span: Span,
    pub shape: ShapeModel,
}

pub enum ShapeModel {
    Const(NameModel),
    Enum(NameModel),
    Fn(NameModel),
    Macro(Option<NameModel>),
    Static(NameModel),
    Struct(NameModel),
    Type(NameModel),
    Union(NameModel),
    Mod(Option<Seq<NodeModel>>),
    ForeignMod { attributes: usize, members: Seq<MemberModel> },
    Impl { attributes: usize, of_trait: bool, members: Seq<MemberModel> },
    Other,
}

pub struct MemberModel {
    pub span: Span,
    pub shape: MemberShapeModel,
}

pub enum MemberShapeModel {
    Const(NameModel),
    Fn(NameModel),
    Static(NameModel),
    Type(NameModel),
    Other,
}

impl View for Name {
    type V = NameModel;

    open spec fn view(&self) -> NameModel {
        NameModel { text: self.text@, line: self.line }
    }
}

impl View for Member {
    type V = MemberModel;

    open spec fn view(&self) -> MemberModel {
        MemberModel {
            span: self.span,
            shape: match self.shape {
                MemberShape::Const(name) => MemberShapeModel::Const(name@),
                MemberShape::Fn(name) => MemberShapeModel::Fn(name@),
                MemberShape::Static(name) => MemberShapeModel::Static(name@),
                MemberShape::Type(name) => MemberShapeModel::Type(name@),
                MemberShape::Other => MemberShapeModel::Other,
            },
        }
    }
}

impl View for Node {
    type V = NodeModel;

    open spec fn view(&self) -> NodeModel {
        node_model(*self)
    }
}

pub open spec fn node_model(node: Node) -> NodeModel
    decreases node,
{
    NodeModel {
        span: node.span,
        shape: match node.shape {
            Shape::Const(name) => ShapeModel::Const(name@),
            Shape::Enum(name) => ShapeModel::Enum(name@),
            Shape::Fn(name) => ShapeModel::Fn(name@),
            Shape::Macro(Some(name)) => ShapeModel::Macro(Some(name@)),
            Shape::Macro(None) => ShapeModel::Macro(None),
            Shape::Static(name) => ShapeModel::Static(name@),
            Shape::Struct(name) => ShapeModel::Struct(name@),
            Shape::Type(name) => ShapeModel::Type(name@),
            Shape::Union(name) => ShapeModel::Union(name@),
            Shape::Mod(Some(nodes)) => ShapeModel::Mod(
                Some(
                    Seq::new(
                        nodes@.len(),
                        |i: int|
                            if 0 <= i < nodes@.len() {
                                node_model(nodes@[i])
                            } else {
                                arbitrary()
                            },
                    ),
                ),
            ),
            Shape::Mod(None) => ShapeModel::Mod(None),
            Shape::ForeignMod { attributes, members } => ShapeModel::ForeignMod {
                attributes,
                members: member_models(members@),
            },
            Shape::Impl { attributes, of_trait, members } => ShapeModel::Impl {
                attributes,
                of_trait,
                members: member_models(members@),
            },
            Shape::Other => ShapeModel::Other,
        },
    }
}

pub open spec fn member_models(members: Seq<Member>) -> Seq<MemberModel> {
    members.map_values(|member: Member| member@)
}

pub open spec fn node_models(nodes: Seq<Node>) -> Seq<NodeModel> {
    nodes.map_values(|node: Node| node@)
}

/// The model of an inline module holds the models of its items.
pub proof fn lemma_inline_module(node: Node)
    ensures
        node.shape matches Shape::Mod(Some(nodes)) ==> node@.shape == ShapeModel::Mod(
            Some(node_models(nodes@)),
        ),
{
    if let Shape::Mod(Some(nodes)) = node.shape {
        assert(node@.shape->Mod_0->0 =~= node_models(nodes@));
    }
}

/// The spans of an item and of all that it holds are stretches of `text`.
pub open spec fn located(node: NodeModel, text: Seq<char>) -> bool
    decreases node,
{
    &&& in_text(node.span, text)
    &&& match node.shape {
        ShapeModel::Mod(Some(nodes)) => forall|i: int|
            0 <= i < nodes.len() ==> located(#[trigger] nodes[i], text),
        ShapeModel::ForeignMod { members, .. } => forall|i: int|
            0 <= i < members.len() ==> in_text((#[trigger] members[i]).span, text),
        ShapeModel::Impl { members, .. } => forall|i: int|
            0 <= i < members.len() ==> in_text((#[trigger] members[i]).span, text),
        _ => true,
    }
}

/// The spans of all items, and of all that they hold, are stretches of `text`.
pub open spec fn all_located(nodes: Seq<NodeModel>, text: Seq<char>) -> bool {
    forall|i: int| 0 <= i < nodes.len() ==> located(#[trigger] nodes[i], text)
}

} // verus!
