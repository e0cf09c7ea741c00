//! Finding the item that a diagnostic is about.
use vstd::prelude::*;

use crate::syntax::{
    all_located, lemma_inline_module, located, member_models, node_models, Member, MemberModel,
    MemberShape, MemberShapeModel, Name, NameModel, Node, NodeModel, Shape, ShapeModel,
};
use crate::text::{in_text, Span};
use crate::unused::{UnusedDiagnosticKind, Wanted};

verus! {

// ---------------------------------------------------------------------------
// Declarations
// ---------------------------------------------------------------------------

/// A name that a file declares, as which kind of item, and the stretch of text
/// that declares it.
pub struct Declaration {
    pub kind: UnusedDiagnosticKind,
    pub name: NameModel,
    pub span: Span,
}

/// Which kind of item `shape` declares under which name, where it declares one
/// thing.
pub open spec fn shape_declares(shape: ShapeModel) -> Option<(UnusedDiagnosticKind, NameModel)> {
    match shape {
        ShapeModel::Const(name) => Some((UnusedDiagnosticKind::Constant, name)),
        ShapeModel::Enum(name) => Some((UnusedDiagnosticKind::Enum, name)),
        ShapeModel::Fn(name) => Some((UnusedDiagnosticKind::Function, name)),
        ShapeModel::Macro(Some(name)) => Some((UnusedDiagnosticKind::MacroDefinition, name)),
        ShapeModel::Static(name) => Some((UnusedDiagnosticKind::Static, name)),
        ShapeModel::Struct(name) => Some((UnusedDiagnosticKind::Struct, name)),
        ShapeModel::Type(name) => Some((UnusedDiagnosticKind::TypeAlias, name)),
        ShapeModel::Union(name) => Some((UnusedDiagnosticKind::Union, name)),
        _ => None,
    }
}

/// What a member of a foreign block declares.
pub open spec fn foreign_declares(
    shape: MemberShapeModel,
) -> Option<(UnusedDiagnosticKind, NameModel)> {
    match shape {
        MemberShapeModel::Fn(name) => Some((UnusedDiagnosticKind::Function, name)),
        MemberShapeModel::Static(name) => Some((UnusedDiagnosticKind::Static, name)),
        MemberShapeModel::Type(name) => Some((UnusedDiagnosticKind::TypeAlias, name)),
        _ => None,
    }
}

/// What a member of an `impl` block declares.
pub open spec fn impl_declares(
    shape: MemberShapeModel,
) -> Option<(UnusedDiagnosticKind, NameModel)> {
    match shape {
        MemberShapeModel::Const(name) => Some((UnusedDiagnosticKind::Constant, name)),
        MemberShapeModel::Fn(name) => Some((UnusedDiagnosticKind::AssociatedFunction, name)),
        MemberShapeModel::Type(name) => Some((UnusedDiagnosticKind::TypeAlias, name)),
        _ => None,
    }
}

/// No declaration, or the one of what `declared` says.
pub open spec fn at_most_one(
    declared: Option<(UnusedDiagnosticKind, NameModel)>,
    span: Span,
) -> Seq<Declaration> {
    match declared {
        Some((kind, name)) => seq![Declaration { kind, name, span }],
        None => seq![],
    }
}

/// The declarations of the members of a block, in their order.
pub open spec fn member_declarations(members: Seq<MemberModel>, foreign: bool) -> Seq<Declaration>
    decreases members.len(),
{
    if members.len() == 0 {
        seq![]
    } else {
        let member = members.last();
        let declared = if foreign {
            foreign_declares(member.shape)
        } else {
            impl_declares(member.shape)
        };
        member_declarations(members.drop_last(), foreign) + at_most_one(declared, member.span)
    }
}

/// The declarations of an item: those of what a module or a block holds, else
/// its own.
pub open spec fn node_declarations(node: NodeModel) -> Seq<Declaration>
    decreases node,
{
    match node.shape {
        ShapeModel::Mod(Some(nodes)) => declarations(nodes),
        ShapeModel::ForeignMod { members, .. } => member_declarations(members, true),
        ShapeModel::Impl { members, .. } => member_declarations(members, false),
        shape => at_most_one(shape_declares(shape), node.span),
    }
}

/// All declarations of a file, at any depth, in the order of the text.
pub open spec fn declarations(nodes: Seq<NodeModel>) -> Seq<Declaration>
    decreases nodes,
{
    if nodes.len() == 0 {
        seq![]
    } else {
        declarations(nodes.drop_last()) + node_declarations(nodes.last())
    }
}

/// `declaration` is one that is meant.
pub open spec fn is_wanted(declaration: Declaration, wanted: Wanted) -> bool {
    &&& declaration.kind == wanted.kind
    &&& declaration.name.text == wanted.ident
    &&& wanted.line matches Some(line) ==> declaration.name.line == line
}

/// The span of the first declaration that is meant, if there is one.
pub open spec fn first_wanted(declarations: Seq<Declaration>, wanted: Wanted) -> Option<Span>
    decreases declarations.len(),
{
    if declarations.len() == 0 {
        None
    } else {
        match first_wanted(declarations.drop_last(), wanted) {
            Some(span) => Some(span),
            None => if is_wanted(declarations.last(), wanted) {
                Some(declarations.last().span)
            } else {
                None
            },
        }
    }
}

/// The first declaration that is meant comes before all others that are; there
/// is none only where none is meant.
pub proof fn law_first_wanted(declarations: Seq<Declaration>, wanted: Wanted)
    ensures
        match first_wanted(declarations, wanted) {
            Some(span) => exists|i: int|
                0 <= i < declarations.len() && is_wanted(#[trigger] declarations[i], wanted)
                    && declarations[i].span == span && forall|j: int|
                    0 <= j < i ==> !is_wanted(#[trigger] declarations[j], wanted),
            None => forall|i: int|
                0 <= i < declarations.len() ==> !is_wanted(#[trigger] declarations[i], wanted),
        },
    decreases declarations.len(),
{
    if declarations.len() > 0 {
        let rest = declarations.drop_last();
        law_first_wanted(rest, wanted);
        match first_wanted(rest, wanted) {
            Some(span) => {
                let i = choose|i: int|
                    0 <= i < rest.len() && is_wanted(#[trigger] rest[i], wanted) && rest[i].span
                        == span && forall|j: int|
                        0 <= j < i ==> !is_wanted(#[trigger] rest[j], wanted);
                assert(is_wanted(declarations[i], wanted));
                assert forall|j: int| 0 <= j < i implies !is_wanted(
                    #[trigger] declarations[j],
                    wanted,
                ) by {
                    assert(declarations[j] == rest[j]);
                }
            },
            None => {
                assert forall|j: int| 0 <= j < rest.len() implies !is_wanted(
                    #[trigger] declarations[j],
                    wanted,
                ) by {
                    assert(declarations[j] == rest[j]);
                }
                if is_wanted(declarations.last(), wanted) {
                    assert(is_wanted(declarations[declarations.len() - 1], wanted));
                }
            },
        }
    }
}

/// What comes first in two parts is what comes first in the first part, if it
/// has any, else in the second.
proof fn lemma_first_wanted_of_parts(
    first: Seq<Declaration>,
    second: Seq<Declaration>,
    wanted: Wanted,
)
    ensures
        first_wanted(first + second, wanted) == match first_wanted(first, wanted) {
            Some(span) => Some(span),
            None => first_wanted(second, wanted),
        },
    decreases second.len(),
{
    if second.len() == 0 {
        assert(first + second =~= first);
    } else {
        assert((first + second).drop_last() =~= first + second.drop_last());
        lemma_first_wanted_of_parts(first, second.drop_last(), wanted);
    }
}

/// What comes first in the first items comes first in all of them.
proof fn lemma_first_wanted_persists(nodes: Seq<NodeModel>, n: int, wanted: Wanted)
    requires
        0 <= n <= nodes.len(),
        first_wanted(declarations(nodes.take(n)), wanted) is Some,
    ensures
        first_wanted(declarations(nodes), wanted) == first_wanted(
            declarations(nodes.take(n)),
            wanted,
        ),
    decreases nodes.len() - n,
{
    if n == nodes.len() {
        assert(nodes.take(n) =~= nodes);
    } else {
        lemma_next_node(nodes, n, wanted);
        lemma_first_wanted_persists(nodes, n + 1, wanted);
    }
}

/// What comes first in `n + 1` items, by what comes first in `n`.
proof fn lemma_next_node(nodes: Seq<NodeModel>, n: int, wanted: Wanted)
    requires
        0 <= n < nodes.len(),
    ensures
        first_wanted(declarations(nodes.take(n + 1)), wanted) == match first_wanted(
            declarations(nodes.take(n)),
            wanted,
        ) {
            Some(span) => Some(span),
            None => first_wanted(node_declarations(nodes[n]), wanted),
        },
{
    assert(nodes.take(n + 1).drop_last() =~= nodes.take(n));
    lemma_first_wanted_of_parts(
        declarations(nodes.take(n)),
        node_declarations(nodes[n]),
        wanted,
    );
}

proof fn lemma_next_member(members: Seq<MemberModel>, foreign: bool, n: int, wanted: Wanted)
    requires
        0 <= n < members.len(),
    ensures
        first_wanted(member_declarations(members.take(n + 1), foreign), wanted)
            == match first_wanted(member_declarations(members.take(n), foreign), wanted) {
            Some(span) => Some(span),
            None => first_wanted(
                at_most_one(
                    if foreign {
                        foreign_declares(members[n].shape)
                    } else {
                        impl_declares(members[n].shape)
                    },
                    members[n].span,
                ),
                wanted,
            ),
        },
{
    assert(members.take(n + 1).drop_last() =~= members.take(n));
    lemma_first_wanted_of_parts(
        member_declarations(members.take(n), foreign),
        at_most_one(
            if foreign {
                foreign_declares(members[n].shape)
            } else {
                impl_declares(members[n].shape)
            },
            members[n].span,
        ),
        wanted,
    );
}

proof fn lemma_first_member_persists(
    members: Seq<MemberModel>,
    foreign: bool,
    n: int,
    wanted: Wanted,
)
    requires
        0 <= n <= members.len(),
        first_wanted(member_declarations(members.take(n), foreign), wanted) is Some,
    ensures
        first_wanted(member_declarations(members, foreign), wanted) == first_wanted(
            member_declarations(members.take(n), foreign),
            wanted,
        ),
    decreases members.len() - n,
{
    if n == members.len() {
        assert(members.take(n) =~= members);
    } else {
        lemma_next_member(members, foreign, n, wanted);
        lemma_first_member_persists(members, foreign, n + 1, wanted);
    }
}

// ---------------------------------------------------------------------------
// The search
// ---------------------------------------------------------------------------

/// Whether `name` is `ident`, on `line` where one is given.
pub fn matches_ident(name: &Name, ident: &String, line: Option<usize>) -> (yes: bool)
    ensures
        yes == (name@.text == ident@ && (line matches Some(line) ==> name@.line == line)),
{
    name.text == *ident && match line {
        Some(line) => name.line == line,
        None => true,
    }
}

fn find_member(
    members: &Vec<Member>,
    foreign: bool,
    kind: &UnusedDiagnosticKind,
    ident: &String,
    line: Option<usize>,
) -> (span: Option<Span>)
    ensures
        span == first_wanted(
            member_declarations(member_models(members@), foreign),
            (Wanted { kind: *kind, ident: ident@, line }),
        ),
{
    let ghost models = member_models(members@);
    let ghost wanted = Wanted { kind: *kind, ident: ident@, line };
    assert(models.take(0) =~= Seq::<MemberModel>::empty());
    let mut i: usize = 0;
    while i < members.len()
        invariant
            i <= members@.len(),
            models == member_models(members@),
            wanted == (Wanted { kind: *kind, ident: ident@, line }),
            first_wanted(member_declarations(models.take(i as int), foreign), wanted) is None,
        decreases members@.len() - i,
    {
        let member = &members[i];
        let declared = match &member.shape {
            MemberShape::Const(name) => if !foreign {
                Some((UnusedDiagnosticKind::Constant, name))
            } else {
                None
            },
            MemberShape::Fn(name) => if foreign {
                Some((UnusedDiagnosticKind::Function, name))
            } else {
                Some((UnusedDiagnosticKind::AssociatedFunction, name))
            },
            MemberShape::Static(name) => if foreign {
                Some((UnusedDiagnosticKind::Static, name))
            } else {
                None
            },
            MemberShape::Type(name) => Some((UnusedDiagnosticKind::TypeAlias, name)),
            MemberShape::Other => None,
        };
        proof {
            lemma_next_member(models, foreign, i as int, wanted);
            reveal_with_fuel(first_wanted, 2);
        }
        if let Some((declared_kind, name)) = declared {
            if declared_kind == *kind && matches_ident(name, ident, line) {
                proof {
                    lemma_first_member_persists(models, foreign, i + 1, wanted);
                }
                return Some(member.span);
            }
        }
        i = i + 1;
    }
    assert(models.take(i as int) =~= models);
    None
}

fn find_in_node(
    node: &Node,
    kind: &UnusedDiagnosticKind,
    ident: &String,
    line: Option<usize>,
) -> (span: Option<Span>)
    ensures
        span == first_wanted(
            node_declarations(node@),
            (Wanted { kind: *kind, ident: ident@, line }),
        ),
    decreases *node, 0int,
{
    proof {
        reveal_with_fuel(first_wanted, 2);
        lemma_inline_module(*node);
    }
    let declared = match &node.shape {
        Shape::Const(name) => Some((UnusedDiagnosticKind::Constant, name)),
        Shape::Enum(name) => Some((UnusedDiagnosticKind::Enum, name)),
        Shape::Fn(name) => Some((UnusedDiagnosticKind::Function, name)),
        Shape::Macro(Some(name)) => Some((UnusedDiagnosticKind::MacroDefinition, name)),
        Shape::Static(name) => Some((UnusedDiagnosticKind::Static, name)),
        Shape::Struct(name) => Some((UnusedDiagnosticKind::Struct, name)),
        Shape::Type(name) => Some((UnusedDiagnosticKind::TypeAlias, name)),
        Shape::Union(name) => Some((UnusedDiagnosticKind::Union, name)),
        Shape::Mod(Some(nodes)) => {
            return find_item(nodes.as_slice(), kind, ident, line);
        },
        Shape::ForeignMod { members, .. } => {
            return find_member(members, true, kind, ident, line);
        },
        Shape::Impl { members, .. } => {
            return find_member(members, false, kind, ident, line);
        },
        _ => None,
    };
    if let Some((declared_kind, name)) = declared {
        if declared_kind == *kind && matches_ident(name, ident, line) {
            return Some(node.span);
        }
    }
    None
}

/// Walks `items` (the top-level items of a file or the contents of an inline
/// `mod`) for an item matching `kind`, `ident`, and `line`. Descends into
/// `mod`, `extern`, and `impl` blocks. The same walker runs at every depth, so
/// any kind handled at the top level is also handled when nested.
///
/// `line` is the source line, counted from one, that the compiler pointed at;
/// items on other lines are skipped, which tells apart items of the same name
/// in different scopes. Without a line, the first item of that name is taken.
pub fn find_item(
    items: &[Node],
    kind: &UnusedDiagnosticKind,
    ident: &String,
    line: Option<usize>,
) -> (span: Option<Span>)
    ensures
        span == first_wanted(
            declarations(node_models(items@)),
            (Wanted { kind: *kind, ident: ident@, line }),
        ),
    decreases items@, 1int,
{
    let ghost models = node_models(items@);
    let ghost wanted = Wanted { kind: *kind, ident: ident@, line };
    assert(models.take(0) =~= Seq::<NodeModel>::empty());
    let mut i: usize = 0;
    while i < items.len()
        invariant
            i <= items@.len(),
            models == node_models(items@),
            wanted == (Wanted { kind: *kind, ident: ident@, line }),
            first_wanted(declarations(models.take(i as int)), wanted) is None,
        decreases items@.len() - i,
    {
        proof {
            lemma_next_node(models, i as int, wanted);
        }
        let found = find_in_node(&items[i], kind, ident, line);
        if found.is_some() {
            proof {
                lemma_first_wanted_persists(models, i + 1, wanted);
            }
            return found;
        }
        i = i + 1;
    }
    assert(models.take(i as int) =~= models);
    None
}

// ---------------------------------------------------------------------------
// Laws
// ---------------------------------------------------------------------------

/// A module declares what its items declare, in their place: what a file
/// declares stays the same, in the same order, where a run of its items is
/// moved into a module.
pub proof fn law_nesting_hides_nothing(
    before: Seq<NodeModel>,
    nodes: Seq<NodeModel>,
    after: Seq<NodeModel>,
    span: Span,
)
    ensures
        declarations(
            before + seq![NodeModel { span, shape: ShapeModel::Mod(Some(nodes)) }] + after,
        ) == declarations(before + nodes + after),
{
    let module = NodeModel { span, shape: ShapeModel::Mod(Some(nodes)) };
    lemma_declarations_of_parts(before + seq![module], after);
    lemma_declarations_of_parts(before + nodes, after);
    lemma_declarations_of_parts(before, nodes);
    assert((before + seq![module]).drop_last() =~= before);
    assert(declarations(before + seq![module]) == declarations(before) + node_declarations(module));
    assert(node_declarations(module) == declarations(nodes));
}

proof fn lemma_declarations_of_parts(first: Seq<NodeModel>, second: Seq<NodeModel>)
    ensures
        declarations(first + second) == declarations(first) + declarations(second),
    decreases second.len(),
{
    if second.len() == 0 {
        assert(first + second =~= first);
        assert(declarations(first) + declarations(second) =~= declarations(first));
    } else {
        assert((first + second).drop_last() =~= first + second.drop_last());
        lemma_declarations_of_parts(first, second.drop_last());
        assert(declarations(first + second) =~= declarations(first) + declarations(second));
    }
}

/// Where one declaration alone is meant, it is the one that is found, whatever
/// others share its name on other lines.
pub proof fn law_only_one_wanted(declarations: Seq<Declaration>, wanted: Wanted, i: int)
    requires
        0 <= i < declarations.len(),
        is_wanted(declarations[i], wanted),
        forall|j: int|
            0 <= j < declarations.len() && j != i ==> !is_wanted(#[trigger] declarations[j], wanted),
    ensures
        first_wanted(declarations, wanted) == Some(declarations[i].span),
{
    law_first_wanted(declarations, wanted);
}

/// What is found stands in the text that the items were read from.
pub proof fn law_found_is_located(nodes: Seq<NodeModel>, text: Seq<char>, wanted: Wanted)
    requires
        all_located(nodes, text),
    ensures
        first_wanted(declarations(nodes), wanted) matches Some(span) ==> in_text(span, text),
{
    law_first_wanted(declarations(nodes), wanted);
    lemma_declarations_located(nodes, text);
}

/// All that the items declare stands in the text that they were read from.
pub proof fn lemma_declarations_located(nodes: Seq<NodeModel>, text: Seq<char>)
    requires
        all_located(nodes, text),
    ensures
        forall|i: int|
            0 <= i < declarations(nodes).len() ==> in_text(
                (#[trigger] declarations(nodes)[i]).span,
                text,
            ),
    decreases nodes,
{
    if nodes.len() > 0 {
        let node = nodes.last();
        assert(located(nodes[nodes.len() - 1], text));
        lemma_declarations_located(nodes.drop_last(), text);
        match node.shape {
            ShapeModel::Mod(Some(inner)) => {
                lemma_declarations_located(inner, text);
            },
            ShapeModel::ForeignMod { members, .. } => {
                lemma_members_located(members, true, text);
            },
            ShapeModel::Impl { members, .. } => {
                lemma_members_located(members, false, text);
            },
            _ => {},
        }
        assert forall|i: int| 0 <= i < declarations(nodes).len() implies in_text(
            (#[trigger] declarations(nodes)[i]).span,
            text,
        ) by {
            let rest = declarations(nodes.drop_last());
            if i < rest.len() {
                assert(declarations(nodes)[i] == rest[i]);
            } else {
                assert(declarations(nodes)[i] == node_declarations(node)[i - rest.len()]);
            }
        }
    }
}

proof fn lemma_members_located(members: Seq<MemberModel>, foreign: bool, text: Seq<char>)
    requires
        forall|i: int| 0 <= i < members.len() ==> in_text((#[trigger] members[i]).span, text),
    ensures
        forall|i: int|
            0 <= i < member_declarations(members, foreign).len() ==> in_text(
                (#[trigger] member_declarations(members, foreign)[i]).span,
                text,
            ),
    decreases members.len(),
{
    if members.len() > 0 {
        assert(in_text(members[members.len() - 1].span, text));
        lemma_members_located(members.drop_last(), foreign, text);
    }
}

/// What a run of items declares is what its first part declares, and then what
/// its second part does.
pub proof fn law_declarations_of_parts(first: Seq<NodeModel>, second: Seq<NodeModel>)
    ensures
        declarations(first + second) == declarations(first) + declarations(second),
        declarations(Seq::empty()) == Seq::<Declaration>::empty(),
{
    lemma_declarations_of_parts(first, second);
}

/// What a single item declares: an item with a name that one, as its kind; an
/// inline module what its items declare; all else nothing, but for blocks.
pub proof fn law_declarations_of_one(node: NodeModel)
    ensures
        match node.shape {
            ShapeModel::Const(name) => declarations(seq![node]) == seq![
                Declaration { kind: UnusedDiagnosticKind::Constant, name, span: node.span },
            ],
            ShapeModel::Enum(name) => declarations(seq![node]) == seq![
                Declaration { kind: UnusedDiagnosticKind::Enum, name, span: node.span },
            ],
            ShapeModel::Fn(name) => declarations(seq![node]) == seq![
                Declaration { kind: UnusedDiagnosticKind::Function, name, span: node.span },
            ],
            ShapeModel::Static(name) => declarations(seq![node]) == seq![
                Declaration { kind: UnusedDiagnosticKind::Static, name, span: node.span },
            ],
            ShapeModel::Struct(name) => declarations(seq![node]) == seq![
                Declaration { kind: UnusedDiagnosticKind::Struct, name, span: node.span },
            ],
            ShapeModel::Type(name) => declarations(seq![node]) == seq![
                Declaration { kind: UnusedDiagnosticKind::TypeAlias, name, span: node.span },
            ],
            ShapeModel::Union(name) => declarations(seq![node]) == seq![
                Declaration { kind: UnusedDiagnosticKind::Union, name, span: node.span },
            ],
            ShapeModel::Macro(Some(name)) => declarations(seq![node]) == seq![
                Declaration { kind: UnusedDiagnosticKind::MacroDefinition, name, span: node.span },
            ],
            ShapeModel::Mod(Some(nodes)) => declarations(seq![node]) == declarations(nodes),
            ShapeModel::ForeignMod { .. } | ShapeModel::Impl { .. } => true,
            ShapeModel::Macro(None) | ShapeModel::Mod(None) | ShapeModel::Other => declarations(
                seq![node],
            ) == Seq::<Declaration>::empty(),
        },
{
    lemma_one_node(node);
}

proof fn lemma_one_node(node: NodeModel)
    ensures
        declarations(seq![node]) == node_declarations(node),
{
    assert(seq![node].drop_last() =~= Seq::<NodeModel>::empty());
    reveal_with_fuel(declarations, 2);
    assert(declarations(seq![node]) =~= node_declarations(node));
}

/// What a foreign block declares is what its members declare, one after the
/// other, whatever its attributes: functions, statics and types.
pub proof fn law_foreign_block(
    span: Span,
    attributes: usize,
    first: Seq<MemberModel>,
    second: Seq<MemberModel>,
    member: MemberModel,
    other_span: Span,
    other_attributes: usize,
)
    ensures
        ({
            let block = |members: Seq<MemberModel>|
                seq![NodeModel { span, shape: ShapeModel::ForeignMod { attributes, members } }];
            let other = |members: Seq<MemberModel>|
                seq![
                    NodeModel {
                        span: other_span,
                        shape: ShapeModel::ForeignMod { attributes: other_attributes, members },
                    },
                ];
            &&& declarations(block(first + second)) == declarations(other(first)) + declarations(
                other(second),
            )
            &&& declarations(block(seq![])) == Seq::<Declaration>::empty()
            &&& declarations(block(seq![member])) == match member.shape {
                MemberShapeModel::Fn(name) => seq![
                    Declaration { kind: UnusedDiagnosticKind::Function, name, span: member.span },
                ],
                MemberShapeModel::Static(name) => seq![
                    Declaration { kind: UnusedDiagnosticKind::Static, name, span: member.span },
                ],
                MemberShapeModel::Type(name) => seq![
                    Declaration { kind: UnusedDiagnosticKind::TypeAlias, name, span: member.span },
                ],
                MemberShapeModel::Const(_) | MemberShapeModel::Other => seq![],
            }
        }),
{
    let node = |members: Seq<MemberModel>|
        NodeModel { span, shape: ShapeModel::ForeignMod { attributes, members } };
    let other = |members: Seq<MemberModel>|
        NodeModel {
            span: other_span,
            shape: ShapeModel::ForeignMod { attributes: other_attributes, members },
        };
    lemma_one_node(node(first + second));
    lemma_one_node(node(seq![]));
    lemma_one_node(node(seq![member]));
    lemma_one_node(other(first));
    lemma_one_node(other(second));
    lemma_member_parts(first, second, true);
    lemma_one_member(member, true);
}

/// What an `impl` block declares is what its members declare, one after the
/// other, whatever its attributes and whether or not it implements a trait:
/// constants, associated functions and types.
pub proof fn law_impl_block(
    span: Span,
    attributes: usize,
    of_trait: bool,
    first: Seq<MemberModel>,
    second: Seq<MemberModel>,
    member: MemberModel,
    other_span: Span,
    other_attributes: usize,
    other_of_trait: bool,
)
    ensures
        ({
            let block = |members: Seq<MemberModel>|
                seq![NodeModel { span, shape: ShapeModel::Impl { attributes, of_trait, members } }];
            let other = |members: Seq<MemberModel>|
                seq![
                    NodeModel {
                        span: other_span,
                        shape: ShapeModel::Impl {
                            attributes: other_attributes,
                            of_trait: other_of_trait,
                            members,
                        },
                    },
                ];
            &&& declarations(block(first + second)) == declarations(other(first)) + declarations(
                other(second),
            )
            &&& declarations(block(seq![])) == Seq::<Declaration>::empty()
            &&& declarations(block(seq![member])) == match member.shape {
                MemberShapeModel::Const(name) => seq![
                    Declaration { kind: UnusedDiagnosticKind::Constant, name, span: member.span },
                ],
                MemberShapeModel::Fn(name) => seq![
                    Declaration {
                        kind: UnusedDiagnosticKind::AssociatedFunction,
                        name,
                        span: member.span,
                    },
                ],
                MemberShapeModel::Type(name) => seq![
                    Declaration { kind: UnusedDiagnosticKind::TypeAlias, name, span: member.span },
                ],
                MemberShapeModel::Static(_) | MemberShapeModel::Other => seq![],
            }
        }),
{
    let node = |members: Seq<MemberModel>|
        NodeModel { span, shape: ShapeModel::Impl { attributes, of_trait, members } };
    let other = |members: Seq<MemberModel>|
        NodeModel {
            span: other_span,
            shape: ShapeModel::Impl {
                attributes: other_attributes,
                of_trait: other_of_trait,
                members,
            },
        };
    lemma_one_node(node(first + second));
    lemma_one_node(node(seq![]));
    lemma_one_node(node(seq![member]));
    lemma_one_node(other(first));
    lemma_one_node(other(second));
    lemma_member_parts(first, second, false);
    lemma_one_member(member, false);
}

proof fn lemma_member_parts(first: Seq<MemberModel>, second: Seq<MemberModel>, foreign: bool)
    ensures
        member_declarations(first + second, foreign) == member_declarations(first, foreign)
            + member_declarations(second, foreign),
    decreases second.len(),
{
    let both = member_declarations(first, foreign) + member_declarations(second, foreign);
    if second.len() == 0 {
        assert(first + second =~= first);
        assert(both =~= member_declarations(first, foreign));
    } else {
        assert((first + second).drop_last() =~= first + second.drop_last());
        lemma_member_parts(first, second.drop_last(), foreign);
        assert(member_declarations(first + second, foreign) =~= both);
    }
}

proof fn lemma_one_member(member: MemberModel, foreign: bool)
    ensures
        member_declarations(seq![member], foreign) == at_most_one(
            if foreign {
                foreign_declares(member.shape)
            } else {
                impl_declares(member.shape)
            },
            member.span,
        ),
{
    assert(seq![member].drop_last() =~= Seq::<MemberModel>::empty());
    reveal_with_fuel(member_declarations, 2);
    assert(member_declarations(seq![member], foreign) =~= at_most_one(
        if foreign {
            foreign_declares(member.shape)
        } else {
            impl_declares(member.shape)
        },
        member.span,
    ));
}

/// `node` is `outer`, or stands in it, in inline modules nested to any depth.
pub open spec fn stands_in(node: NodeModel, outer: NodeModel) -> bool
    decreases outer,
{
    ||| outer == node
    ||| match outer.shape {
        ShapeModel::Mod(Some(nodes)) => exists|i: int|
            0 <= i < nodes.len() && stands_in(node, #[trigger] nodes[i]),
        _ => false,
    }
}

/// The member of a foreign block or an `impl` block, or the item itself, has that
/// name as an item of that kind.
pub open spec fn names_itself(node: NodeModel, declaration: Declaration) -> bool {
    let Declaration { kind, name, span } = declaration;
    match node.shape {
        ShapeModel::ForeignMod { members, .. } => exists|m: int|
            0 <= m < members.len() && (#[trigger] members[m]).span == span && (
            members[m].shape == MemberShapeModel::Fn(name) && kind == UnusedDiagnosticKind::Function
                || members[m].shape == MemberShapeModel::Static(name) && kind
                == UnusedDiagnosticKind::Static || members[m].shape == MemberShapeModel::Type(name)
                && kind == UnusedDiagnosticKind::TypeAlias),
        ShapeModel::Impl { members, .. } => exists|m: int|
            0 <= m < members.len() && (#[trigger] members[m]).span == span && (
            members[m].shape == MemberShapeModel::Const(name) && kind
                == UnusedDiagnosticKind::Constant || members[m].shape == MemberShapeModel::Fn(name)
                && kind == UnusedDiagnosticKind::AssociatedFunction || members[m].shape
                == MemberShapeModel::Type(name) && kind == UnusedDiagnosticKind::TypeAlias),
        shape => node.span == span && match kind {
            UnusedDiagnosticKind::Constant => shape == ShapeModel::Const(name),
            UnusedDiagnosticKind::Enum => shape == ShapeModel::Enum(name),
            UnusedDiagnosticKind::Function => shape == ShapeModel::Fn(name),
            UnusedDiagnosticKind::MacroDefinition => shape == ShapeModel::Macro(Some(name)),
            UnusedDiagnosticKind::Static => shape == ShapeModel::Static(name),
            UnusedDiagnosticKind::Struct => shape == ShapeModel::Struct(name),
            UnusedDiagnosticKind::TypeAlias => shape == ShapeModel::Type(name),
            UnusedDiagnosticKind::Union => shape == ShapeModel::Union(name),
            UnusedDiagnosticKind::AssociatedFunction => false,
        },
    }
}

/// A file declares whatever has a name in it: each item at any depth of modules,
/// and each member of a block at any depth, whatever the attributes of the
/// block, and nothing else.
pub proof fn law_all_names_are_declared(nodes: Seq<NodeModel>, declaration: Declaration)
    ensures
        declarations(nodes).contains(declaration) <==> exists|i: int, node: NodeModel|
            0 <= i < nodes.len() && #[trigger] stands_in(node, nodes[i]) && names_itself(
                node,
                declaration,
            ),
{
    lemma_all_names_among(nodes, declaration);
}

proof fn lemma_all_names_among(nodes: Seq<NodeModel>, declaration: Declaration)
    ensures
        declarations(nodes).contains(declaration) <==> exists|i: int, node: NodeModel|
            0 <= i < nodes.len() && #[trigger] stands_in(node, nodes[i]) && names_itself(
                node,
                declaration,
            ),
    decreases nodes, 0int,
{
    if nodes.len() > 0 {
        let rest = nodes.drop_last();
        let last = nodes.last();
        let before = declarations(rest);
        lemma_all_names_among(rest, declaration);
        lemma_all_names_of_one(last, declaration);
        let all = declarations(nodes);
        assert(all == before + node_declarations(last));
        if before.contains(declaration) {
            let k = choose|k: int| 0 <= k < before.len() && before[k] == declaration;
            assert(all[k] == declaration);
            let (i, node) = choose|i: int, node: NodeModel|
                0 <= i < rest.len() && #[trigger] stands_in(node, rest[i]) && names_itself(
                    node,
                    declaration,
                );
            assert(stands_in(node, nodes[i]));
        }
        if node_declarations(last).contains(declaration) {
            let own = node_declarations(last);
            let k = choose|k: int| 0 <= k < own.len() && own[k] == declaration;
            assert(all[before.len() + k] == declaration);
            let node = choose|node: NodeModel| #[trigger]
                stands_in(node, last) && names_itself(node, declaration);
            assert(stands_in(node, nodes[nodes.len() - 1]));
        }
        if all.contains(declaration) {
            let k = choose|k: int| 0 <= k < all.len() && all[k] == declaration;
            if k < before.len() {
                assert(before[k] == declaration);
            } else {
                assert(node_declarations(last)[k - before.len()] == declaration);
            }
        }
        if exists|i: int, node: NodeModel|
            0 <= i < nodes.len() && #[trigger] stands_in(node, nodes[i]) && names_itself(
                node,
                declaration,
            ) {
            let (i, node) = choose|i: int, node: NodeModel|
                0 <= i < nodes.len() && #[trigger] stands_in(node, nodes[i]) && names_itself(
                    node,
                    declaration,
                );
            if i < rest.len() {
                assert(stands_in(node, rest[i]));
            }
        }
    }
}

proof fn lemma_all_names_of_one(outer: NodeModel, declaration: Declaration)
    ensures
        node_declarations(outer).contains(declaration) <==> exists|node: NodeModel| #[trigger]
            stands_in(node, outer) && names_itself(node, declaration),
    decreases outer, 1int,
{
    let own = node_declarations(outer);
    assert(stands_in(outer, outer));
    match outer.shape {
        ShapeModel::Mod(Some(nodes)) => {
            assert(decreases_to!(outer => outer.shape));
            assert(decreases_to!(outer.shape => outer.shape->Mod_0));
            assert(decreases_to!(outer.shape->Mod_0 => nodes));
            lemma_all_names_below(nodes, declaration, outer);
        },
        ShapeModel::ForeignMod { members, .. } => {
            lemma_all_names_of_members(members, true, declaration);
        },
        ShapeModel::Impl { members, .. } => {
            lemma_all_names_of_members(members, false, declaration);
        },
        shape => {
            if let Some((kind, name)) = shape_declares(shape) {
                assert(own[0] == (Declaration { kind, name, span: outer.span }));
            }
            if names_itself(outer, declaration) {
                assert(own[0] == declaration);
            }
        },
    }
}

proof fn lemma_all_names_below(nodes: Seq<NodeModel>, declaration: Declaration, outer: NodeModel)
    requires
        outer.shape == ShapeModel::Mod(Some(nodes)),
    ensures
        declarations(nodes).contains(declaration) <==> exists|node: NodeModel| #[trigger]
            stands_in(node, outer) && names_itself(node, declaration),
    decreases nodes, 1int,
{
    lemma_all_names_among(nodes, declaration);
    if exists|i: int, node: NodeModel|
        0 <= i < nodes.len() && #[trigger] stands_in(node, nodes[i]) && names_itself(
            node,
            declaration,
        ) {
        let (i, node) = choose|i: int, node: NodeModel|
            0 <= i < nodes.len() && #[trigger] stands_in(node, nodes[i]) && names_itself(
                node,
                declaration,
            );
        reveal_with_fuel(stands_in, 2);
        assert(outer.shape->Mod_0->0[i] == nodes[i]);
        assert(stands_in(node, outer));
    }
    if exists|node: NodeModel| #[trigger]
        stands_in(node, outer) && names_itself(node, declaration) {
        let node = choose|node: NodeModel| #[trigger]
            stands_in(node, outer) && names_itself(node, declaration);
        assert(node != outer);
        let i = choose|i: int| 0 <= i < nodes.len() && stands_in(node, #[trigger] nodes[i]);
        assert(stands_in(node, nodes[i]));
    }
}

proof fn lemma_all_names_of_members(
    members: Seq<MemberModel>,
    foreign: bool,
    declaration: Declaration,
)
    ensures
        member_declarations(members, foreign).contains(declaration) <==> exists|m: int|
            0 <= m < members.len() && (#[trigger] members[m]).span == declaration.span && (
            if foreign {
                foreign_declares(members[m].shape)
            } else {
                impl_declares(members[m].shape)
            }) == Some((declaration.kind, declaration.name)),
    decreases members.len(),
{
    if members.len() > 0 {
        let rest = members.drop_last();
        let last = members.last();
        let before = member_declarations(rest, foreign);
        let declared = if foreign {
            foreign_declares(last.shape)
        } else {
            impl_declares(last.shape)
        };
        let own = at_most_one(declared, last.span);
        let all = member_declarations(members, foreign);
        lemma_all_names_of_members(rest, foreign, declaration);
        assert(members[members.len() - 1] == last);
        if before.contains(declaration) {
            let k = choose|k: int| 0 <= k < before.len() && before[k] == declaration;
            assert(all[k] == declaration);
            let m = choose|m: int|
                0 <= m < rest.len() && (#[trigger] rest[m]).span == declaration.span && (
                if foreign {
                    foreign_declares(rest[m].shape)
                } else {
                    impl_declares(rest[m].shape)
                }) == Some((declaration.kind, declaration.name));
            assert(members[m] == rest[m]);
        }
        if declared == Some((declaration.kind, declaration.name)) && last.span == declaration.span {
            assert(own[0] == declaration);
            assert(all[before.len() as int] == declaration);
        }
        if all.contains(declaration) {
            let k = choose|k: int| 0 <= k < all.len() && all[k] == declaration;
            if k < before.len() {
                assert(before[k] == declaration);
            } else {
                assert(own[k - before.len()] == declaration);
            }
        }
        if exists|m: int|
            0 <= m < members.len() && (#[trigger] members[m]).span == declaration.span && (
            if foreign {
                foreign_declares(members[m].shape)
            } else {
                impl_declares(members[m].shape)
            }) == Some((declaration.kind, declaration.name)) {
            let m = choose|m: int|
                0 <= m < members.len() && (#[trigger] members[m]).span == declaration.span && (
                if foreign {
                    foreign_declares(members[m].shape)
                } else {
                    impl_declares(members[m].shape)
                }) == Some((declaration.kind, declaration.name));
            if m < rest.len() {
                assert(rest[m] == members[m]);
            }
        }
    }
}

/// What is found is the first declaration of that kind and that name, on that
/// line where one is given; nothing is found only where there is none.
pub proof fn law_found_is_the_first(declarations: Seq<Declaration>, wanted: Wanted)
    ensures
        match first_wanted(declarations, wanted) {
            Some(span) => exists|i: int|
                0 <= i < declarations.len() && (#[trigger] declarations[i]).kind == wanted.kind
                    && declarations[i].name.text == wanted.ident && (wanted.line is None
                    || wanted.line == Some(declarations[i].name.line)) && declarations[i].span
                    == span && forall|j: int|
                    0 <= j < i ==> (#[trigger] declarations[j]).kind != wanted.kind
                        || declarations[j].name.text != wanted.ident || (wanted.line is Some
                        && wanted.line != Some(declarations[j].name.line)),
            None => forall|i: int|
                0 <= i < declarations.len() ==> (#[trigger] declarations[i]).kind != wanted.kind
                    || declarations[i].name.text != wanted.ident || (wanted.line is Some
                    && wanted.line != Some(declarations[i].name.line)),
        },
{
    law_first_wanted(declarations, wanted);
    if let Some(span) = first_wanted(declarations, wanted) {
        let i = choose|i: int|
            0 <= i < declarations.len() && is_wanted(#[trigger] declarations[i], wanted)
                && declarations[i].span == span && forall|j: int|
                0 <= j < i ==> !is_wanted(#[trigger] declarations[j], wanted);
        assert(declarations[i].kind == wanted.kind);
    }
}

} // verus!
