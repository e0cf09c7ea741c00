//! Removing unused items, and the blocks that they leave empty.
use std::ops::Range;

use vstd::prelude::*;
use vstd::utf8::{decode_utf8, encode_utf8, valid_utf8};

use crate::chunks::{
    covered, delete_chunks, expand_ranges_to_include_whitespace, is_whitespace,
    law_deletion_depends_on_offsets, law_deletion_keeps_the_rest, law_prefix_boundary, law_single_chunk, law_suffix_boundary,
    law_uncovered_is_unchanged, law_widened_range, law_widening_adds_whitespace, prefix_boundary, suffix_boundary,
    with_whitespace, without_chunks,
};
use crate::groups::{law_wanted_in, wanted_in};
use crate::parse::{parse_source, parsed_source, read_from, SyntaxError, MAX_SOURCE};
use crate::picks::picks;
use crate::search::{
    declarations, find_item, first_wanted, law_first_wanted, law_found_is_the_first,
    lemma_declarations_located, Declaration,
};
use crate::syntax::{located, node_models, Node, NodeModel, Shape, ShapeModel};
use crate::text::{
    in_text, law_spans_are_exact, law_spans_fit, lemma_fitting_span, line_offsets, line_starts,
    lossy_text, span_fits, span_range, spans, to_range, Span,
};
use crate::unused::{
    all_wanted, diagnostic_models, wanted, UnusedDiagnostic, UnusedDiagnosticKind, Wanted,
};

verus! {

// ---------------------------------------------------------------------------
// Unused items
// ---------------------------------------------------------------------------

/// The ranges of the items that are meant, in the order of `wanted`; where no
/// item is meant, there is no range.
pub open spec fn wanted_ranges(
    bytes: Seq<u8>,
    nodes: Seq<NodeModel>,
    wanted: Seq<Wanted>,
) -> Seq<Range<usize>>
    decreases wanted.len(),
{
    if wanted.len() == 0 {
        seq![]
    } else {
        let ranges = wanted_ranges(bytes, nodes, wanted.drop_last());
        match first_wanted(declarations(nodes), wanted.last()) {
            Some(span) => ranges.push(span_range(span, bytes)),
            None => ranges,
        }
    }
}

/// `ranges` with the whitespace around them that goes with them.
pub open spec fn widened(bytes: Seq<u8>, ranges: Seq<Range<usize>>) -> Seq<Range<usize>> {
    ranges.map_values(|range: Range<usize>| with_whitespace(bytes, range))
}

/// A source file without the items that are meant.
pub open spec fn without_items(
    bytes: Seq<u8>,
    nodes: Seq<NodeModel>,
    wanted: Seq<Wanted>,
) -> Seq<u8> {
    without_chunks(bytes, widened(bytes, wanted_ranges(bytes, nodes, wanted)))
}

/// All that the items declare stands for ranges inside the source file.
pub open spec fn declarations_fit(bytes: Seq<u8>, nodes: Seq<NodeModel>) -> bool {
    forall|i: int|
        0 <= i < declarations(nodes).len() ==> span_fits(
            (#[trigger] declarations(nodes)[i]).span,
            bytes,
        )
}

/// Turns a span that fits into a range.
fn fitting_range(src: &[u8], offsets: &Vec<usize>, span: Span) -> (range: Range<usize>)
    requires
        offsets@.map_values(|offset: usize| offset as int) == line_starts(src@),
        span_fits(span, src@),
    ensures
        range == span_range(span, src@),
        range.start <= src@.len(),
        range.end <= src@.len(),
{
    proof {
        assert(src@.len() == src.len());
        assert(offsets@.len() == offsets@.map_values(|offset: usize| offset as int).len());
        lemma_fitting_span(span, src@);
    }
    to_range(src, offsets.as_slice(), span)
}

/// The ranges of the items of a source file that diagnostics are about, in the
/// order of the diagnostics. A diagnostic about no item has no range.
pub fn item_ranges(
    src: &[u8],
    items: &[Node],
    idents: &[(UnusedDiagnosticKind, String, Option<usize>)],
) -> (ranges: Vec<Range<usize>>)
    requires
        declarations_fit(src@, node_models(items@)),
    ensures
        ranges@ == wanted_ranges(src@, node_models(items@), all_wanted(idents@)),
        forall|i: int|
            0 <= i < ranges@.len() ==> (#[trigger] ranges@[i]).start <= src@.len() && ranges@[i].end
                <= src@.len(),
{
    let ghost nodes = node_models(items@);
    let ghost all = all_wanted(idents@);
    let cumulative_lengths = line_offsets(src);
    let mut ranges: Vec<Range<usize>> = Vec::new();
    let mut i: usize = 0;
    assert(all.take(0) =~= Seq::<Wanted>::empty());
    while i < idents.len()
        invariant
            i <= idents@.len(),
            nodes == node_models(items@),
            all == all_wanted(idents@),
            declarations_fit(src@, nodes),
            cumulative_lengths@.map_values(|offset: usize| offset as int)
                == line_starts(src@),
            ranges@ == wanted_ranges(src@, nodes, all.take(i as int)),
            forall|k: int|
                0 <= k < ranges@.len() ==> (#[trigger] ranges@[k]).start <= src@.len()
                    && ranges@[k].end <= src@.len(),
        decreases idents@.len() - i,
    {
        let (kind, ident, line) = &idents[i];
        assert(all.take(i + 1).drop_last() =~= all.take(i as int));
        assert(all[i as int] == wanted(idents@[i as int]));
        if let Some(span) = find_item(items, kind, ident, *line) {
            proof {
                law_first_wanted(declarations(nodes), all[i as int]);
            }
            ranges.push(fitting_range(src, &cumulative_lengths, span));
        }
        i = i + 1;
    }
    assert(all.take(i as int) =~= all);
    ranges
}

/// Deletes the items that diagnostics are about, each with the whitespace that
/// goes with it, from a source file that holds `items`.
pub fn delete_items(
    src: &[u8],
    items: &[Node],
    diagnostics: &[(UnusedDiagnosticKind, String, Option<usize>)],
) -> (rest: Vec<u8>)
    requires
        declarations_fit(src@, node_models(items@)),
    ensures
        rest@ == without_items(src@, node_models(items@), all_wanted(diagnostics@)),
{
    let chunks_to_delete = expand_ranges_to_include_whitespace(
        src,
        item_ranges(src, items, diagnostics),
    );
    delete_chunks(src, chunks_to_delete.as_slice())
}

/// Turns a list of "locations of identifiers" into a list of "chunks".
pub fn diagnostics_to_ranges(
    src: &[u8],
    idents: &[(UnusedDiagnosticKind, String, Option<usize>)],
) -> (ranges: Result<Vec<Range<usize>>, SyntaxError>)
    requires
        src@.len() <= MAX_SOURCE,
    ensures
        match (ranges, parsed_source(src@)) {
            (Ok(ranges), Ok(nodes)) => ranges@ == wanted_ranges(
                src@,
                nodes,
                all_wanted(idents@),
            ) && declarations_fit(src@, nodes) && read_from(src@, nodes),
            (Err(error), Err(message)) => error.message@ == message,
            _ => false,
        },
{
    let items = parse_source(src)?;
    proof {
        lemma_parsed_declarations_fit(src@, node_models(items@));
    }
    Ok(item_ranges(src, items.as_slice(), idents))
}

/// What was read from a source file stands for ranges inside it.
proof fn lemma_parsed_declarations_fit(bytes: Seq<u8>, nodes: Seq<NodeModel>)
    requires
        read_from(bytes, nodes),
    ensures
        declarations_fit(bytes, nodes),
{
    lemma_declarations_located(nodes, lossy_text(bytes));
    assert forall|i: int| 0 <= i < declarations(nodes).len() implies span_fits(
        (#[trigger] declarations(nodes)[i]).span,
        bytes,
    ) by {
        law_spans_fit(bytes, lossy_text(bytes), declarations(nodes)[i].span);
    }
}

/// Deletes the items that diagnostics are about from a source file, each with
/// the whitespace that goes with it. A diagnostic about no item of the file
/// deletes nothing.
pub fn rust_delete(
    src: &[u8],
    diagnostics: &[(UnusedDiagnosticKind, String, Option<usize>)],
) -> (rest: Result<Vec<u8>, SyntaxError>)
    requires
        src@.len() <= MAX_SOURCE,
    ensures
        match (rest, parsed_source(src@)) {
            (Ok(rest), Ok(nodes)) => rest@ == without_items(src@, nodes, all_wanted(diagnostics@))
                && read_from(src@, nodes),
            (Err(error), Err(message)) => error.message@ == message,
            _ => false,
        },
{
    let items = parse_source(src)?;
    proof {
        lemma_parsed_declarations_fit(src@, node_models(items@));
    }
    Ok(delete_items(src, items.as_slice(), diagnostics))
}

// ---------------------------------------------------------------------------
// Empty blocks
// ---------------------------------------------------------------------------

/// A foreign block, or an `impl` block of no trait, that holds nothing and has
/// no attributes.
pub open spec fn is_empty_block(shape: ShapeModel) -> bool {
    match shape {
        ShapeModel::ForeignMod { attributes, members } => members.len() == 0 && attributes == 0,
        ShapeModel::Impl { attributes, of_trait, members } => members.len() == 0 && attributes == 0
            && !of_trait,
        _ => false,
    }
}

/// The ranges of the empty blocks among the items of a file, in their order.
/// Blocks inside modules are not among them.
pub open spec fn empty_block_ranges(bytes: Seq<u8>, nodes: Seq<NodeModel>) -> Seq<Range<usize>>
    decreases nodes.len(),
{
    if nodes.len() == 0 {
        seq![]
    } else {
        let ranges = empty_block_ranges(bytes, nodes.drop_last());
        if is_empty_block(nodes.last().shape) {
            ranges.push(span_range(nodes.last().span, bytes))
        } else {
            ranges
        }
    }
}

/// A source file without its empty blocks.
pub open spec fn without_empty_blocks(bytes: Seq<u8>, nodes: Seq<NodeModel>) -> Seq<u8> {
    without_chunks(bytes, widened(bytes, empty_block_ranges(bytes, nodes)))
}

/// The empty blocks stand for ranges inside the source file.
pub open spec fn empty_blocks_fit(bytes: Seq<u8>, nodes: Seq<NodeModel>) -> bool {
    forall|i: int|
        0 <= i < nodes.len() && is_empty_block((#[trigger] nodes[i]).shape) ==> span_fits(
            nodes[i].span,
            bytes,
        )
}

fn empty_block(node: &Node) -> (yes: bool)
    ensures
        yes == is_empty_block(node@.shape),
{
    match &node.shape {
        Shape::ForeignMod { attributes, members } => members.len() == 0 && *attributes == 0,
        Shape::Impl { attributes, of_trait, members } => members.len() == 0 && *attributes == 0
            && !*of_trait,
        _ => false,
    }
}

/// Deletes the empty blocks, each with the whitespace that goes with it, from a
/// source file that holds `items`.
pub fn delete_empty_blocks(src: &[u8], items: &[Node]) -> (rest: Vec<u8>)
    requires
        empty_blocks_fit(src@, node_models(items@)),
    ensures
        rest@ == without_empty_blocks(src@, node_models(items@)),
{
    let ghost nodes = node_models(items@);
    let cumulative_lengths = line_offsets(src);
    let mut ranges: Vec<Range<usize>> = Vec::new();
    let mut i: usize = 0;
    assert(nodes.take(0) =~= Seq::<NodeModel>::empty());
    while i < items.len()
        invariant
            i <= items@.len(),
            nodes == node_models(items@),
            empty_blocks_fit(src@, nodes),
            cumulative_lengths@.map_values(|offset: usize| offset as int) == line_starts(src@),
            ranges@ == empty_block_ranges(src@, nodes.take(i as int)),
            forall|k: int|
                0 <= k < ranges@.len() ==> (#[trigger] ranges@[k]).start <= src@.len()
                    && ranges@[k].end <= src@.len(),
        decreases items@.len() - i,
    {
        assert(nodes.take(i + 1).drop_last() =~= nodes.take(i as int));
        assert(nodes[i as int] == items@[i as int]@);
        if empty_block(&items[i]) {
            ranges.push(fitting_range(src, &cumulative_lengths, items[i].span));
        }
        i = i + 1;
    }
    assert(nodes.take(i as int) =~= nodes);
    let expanded_spans = expand_ranges_to_include_whitespace(src, ranges);
    delete_chunks(src, expanded_spans.as_slice())
}

/// Deletes the blocks of a source file that hold nothing.
pub fn remove_empty_blocks(bytes: &[u8]) -> (rest: Result<Vec<u8>, SyntaxError>)
    requires
        bytes@.len() <= MAX_SOURCE,
    ensures
        match (rest, parsed_source(bytes@)) {
            (Ok(rest), Ok(nodes)) => rest@ == without_empty_blocks(bytes@, nodes) && read_from(
                bytes@,
                nodes,
            ),
            (Err(error), Err(message)) => error.message@ == message,
            _ => false,
        },
{
    let items = parse_source(bytes)?;
    proof {
        let nodes = node_models(items@);
        assert forall|i: int|
            0 <= i < nodes.len() && is_empty_block((#[trigger] nodes[i]).shape) implies span_fits(
            nodes[i].span,
            bytes@,
        ) by {
            assert(located(nodes[i], lossy_text(bytes@)));
            law_spans_fit(bytes@, lossy_text(bytes@), nodes[i].span);
        }
    }
    Ok(delete_empty_blocks(bytes, items.as_slice()))
}

// ---------------------------------------------------------------------------
// Laws
// ---------------------------------------------------------------------------

/// Where no diagnostic is about an item of the file, nothing is deleted.
pub proof fn law_nothing_found_nothing_deleted(
    bytes: Seq<u8>,
    nodes: Seq<NodeModel>,
    wanted: Seq<Wanted>,
)
    requires
        forall|i: int|
            0 <= i < wanted.len() ==> first_wanted(declarations(nodes), #[trigger] wanted[i])
                is None,
    ensures
        without_items(bytes, nodes, wanted) == bytes,
{
    lemma_nothing_found(bytes, nodes, wanted);
    law_uncovered_is_unchanged(bytes, widened(bytes, wanted_ranges(bytes, nodes, wanted)));
}

proof fn lemma_nothing_found(bytes: Seq<u8>, nodes: Seq<NodeModel>, wanted: Seq<Wanted>)
    requires
        forall|i: int|
            0 <= i < wanted.len() ==> first_wanted(declarations(nodes), #[trigger] wanted[i])
                is None,
    ensures
        wanted_ranges(bytes, nodes, wanted).len() == 0,
    decreases wanted.len(),
{
    if wanted.len() > 0 {
        assert(first_wanted(declarations(nodes), wanted[wanted.len() - 1]) is None);
        lemma_nothing_found(bytes, nodes, wanted.drop_last());
    }
}

/// Where no item is an empty block, nothing is deleted.
pub proof fn law_no_empty_blocks_nothing_deleted(bytes: Seq<u8>, nodes: Seq<NodeModel>)
    requires
        forall|i: int| 0 <= i < nodes.len() ==> !is_empty_block((#[trigger] nodes[i]).shape),
    ensures
        without_empty_blocks(bytes, nodes) == bytes,
{
    lemma_no_empty_blocks(bytes, nodes);
    law_uncovered_is_unchanged(bytes, widened(bytes, empty_block_ranges(bytes, nodes)));
}

proof fn lemma_no_empty_blocks(bytes: Seq<u8>, nodes: Seq<NodeModel>)
    requires
        forall|i: int| 0 <= i < nodes.len() ==> !is_empty_block((#[trigger] nodes[i]).shape),
    ensures
        empty_block_ranges(bytes, nodes).len() == 0,
    decreases nodes.len(),
{
    if nodes.len() > 0 {
        assert(!is_empty_block(nodes[nodes.len() - 1].shape));
        lemma_no_empty_blocks(bytes, nodes.drop_last());
    }
}

/// Which bytes are deleted does not depend on the order of the diagnostics, nor
/// on how often one comes.
pub proof fn law_order_of_diagnostics_is_irrelevant(
    bytes: Seq<u8>,
    nodes: Seq<NodeModel>,
    wanted: Seq<Wanted>,
    others: Seq<Wanted>,
)
    requires
        forall|w: Wanted| wanted.contains(w) <==> others.contains(w),
    ensures
        without_items(bytes, nodes, wanted) == without_items(bytes, nodes, others),
{
    let chunks = widened(bytes, wanted_ranges(bytes, nodes, wanted));
    let other_chunks = widened(bytes, wanted_ranges(bytes, nodes, others));
    assert forall|i: int| 0 <= i < bytes.len() implies covered(chunks, i) == covered(
        other_chunks,
        i,
    ) by {
        if covered(chunks, i) {
            lemma_same_coverage(bytes, nodes, wanted, others, i);
        }
        if covered(other_chunks, i) {
            lemma_same_coverage(bytes, nodes, others, wanted, i);
        }
    }
    law_deletion_depends_on_offsets(bytes, chunks, other_chunks);
}

proof fn lemma_same_coverage(
    bytes: Seq<u8>,
    nodes: Seq<NodeModel>,
    wanted: Seq<Wanted>,
    others: Seq<Wanted>,
    i: int,
)
    requires
        forall|w: Wanted| wanted.contains(w) ==> others.contains(w),
        covered(widened(bytes, wanted_ranges(bytes, nodes, wanted)), i),
    ensures
        covered(widened(bytes, wanted_ranges(bytes, nodes, others)), i),
{
    let ranges = wanted_ranges(bytes, nodes, wanted);
    let chunks = widened(bytes, ranges);
    let k = choose|k: int|
        0 <= k < chunks.len() && (#[trigger] chunks[k]).start <= i < chunks[k].end;
    assert(chunks[k] == with_whitespace(bytes, ranges[k]));
    let w = lemma_range_is_wanted(bytes, nodes, wanted, k);
    assert(others.contains(w));
    let j = lemma_wanted_has_range(bytes, nodes, others, w);
    let other_chunks = widened(bytes, wanted_ranges(bytes, nodes, others));
    assert(other_chunks[j] == chunks[k]);
}

/// Each range is that of an item that is meant.
proof fn lemma_range_is_wanted(
    bytes: Seq<u8>,
    nodes: Seq<NodeModel>,
    wanted: Seq<Wanted>,
    k: int,
) -> (w: Wanted)
    requires
        0 <= k < wanted_ranges(bytes, nodes, wanted).len(),
    ensures
        wanted.contains(w),
        first_wanted(declarations(nodes), w) is Some,
        wanted_ranges(bytes, nodes, wanted)[k] == span_range(
            first_wanted(declarations(nodes), w)->0,
            bytes,
        ),
    decreases wanted.len(),
{
    let rest = wanted.drop_last();
    if k < wanted_ranges(bytes, nodes, rest).len() {
        let w = lemma_range_is_wanted(bytes, nodes, rest, k);
        let i = choose|i: int| 0 <= i < rest.len() && rest[i] == w;
        assert(wanted[i] == w);
        w
    } else {
        assert(wanted[wanted.len() - 1] == wanted.last());
        wanted.last()
    }
}

/// Each item that is meant has a range.
proof fn lemma_wanted_has_range(
    bytes: Seq<u8>,
    nodes: Seq<NodeModel>,
    wanted: Seq<Wanted>,
    w: Wanted,
) -> (k: int)
    requires
        wanted.contains(w),
        first_wanted(declarations(nodes), w) is Some,
    ensures
        0 <= k < wanted_ranges(bytes, nodes, wanted).len(),
        wanted_ranges(bytes, nodes, wanted)[k] == span_range(
            first_wanted(declarations(nodes), w)->0,
            bytes,
        ),
    decreases wanted.len(),
{
    let rest = wanted.drop_last();
    if wanted.last() == w {
        wanted_ranges(bytes, nodes, rest).len() as int
    } else {
        let i = choose|i: int| 0 <= i < wanted.len() && wanted[i] == w;
        assert(rest[i] == w);
        lemma_wanted_has_range(bytes, nodes, rest, w)
    }
}

/// A byte that is deleted belongs to an item that is meant, or is whitespace.
pub proof fn law_only_items_and_whitespace_are_deleted(
    bytes: Seq<u8>,
    nodes: Seq<NodeModel>,
    wanted: Seq<Wanted>,
    i: int,
)
    requires
        bytes.len() <= usize::MAX,
        declarations_fit(bytes, nodes),
        0 <= i < bytes.len(),
        covered(widened(bytes, wanted_ranges(bytes, nodes, wanted)), i),
    ensures
        is_whitespace(bytes[i]) || covered(wanted_ranges(bytes, nodes, wanted), i),
{
    let ranges = wanted_ranges(bytes, nodes, wanted);
    let chunks = widened(bytes, ranges);
    let k = choose|k: int|
        0 <= k < chunks.len() && (#[trigger] chunks[k]).start <= i < chunks[k].end;
    let range = ranges[k];
    assert(chunks[k] == with_whitespace(bytes, range));
    let w = lemma_range_is_wanted(bytes, nodes, wanted, k);
    law_first_wanted(declarations(nodes), w);
    lemma_fitting_span(first_wanted(declarations(nodes), w)->0, bytes);
    law_widening_adds_whitespace(bytes, range);
}

/// All bytes of an item that is meant are deleted.
pub proof fn law_items_are_deleted(
    bytes: Seq<u8>,
    nodes: Seq<NodeModel>,
    wanted: Seq<Wanted>,
    i: int,
)
    requires
        bytes.len() <= usize::MAX,
        declarations_fit(bytes, nodes),
        0 <= i < bytes.len(),
        covered(wanted_ranges(bytes, nodes, wanted), i),
    ensures
        covered(widened(bytes, wanted_ranges(bytes, nodes, wanted)), i),
{
    let ranges = wanted_ranges(bytes, nodes, wanted);
    let chunks = widened(bytes, ranges);
    let k = choose|k: int|
        0 <= k < ranges.len() && (#[trigger] ranges[k]).start <= i < ranges[k].end;
    let w = lemma_range_is_wanted(bytes, nodes, wanted, k);
    law_first_wanted(declarations(nodes), w);
    lemma_fitting_span(first_wanted(declarations(nodes), w)->0, bytes);
    law_widening_adds_whitespace(bytes, ranges[k]);
    assert(chunks[k] == with_whitespace(bytes, ranges[k]));
}

/// Where a source file is UTF-8, deleting an item that stands from the character
/// at `a` to the one at `b` leaves what stands before and behind it, less the
/// whitespace on both sides that goes with it.
pub proof fn law_single_item(
    bytes: Seq<u8>,
    text: Seq<char>,
    nodes: Seq<NodeModel>,
    wanted: Wanted,
    a: int,
    b: int,
)
    requires
        valid_utf8(bytes),
        text == decode_utf8(bytes),
        bytes.len() <= usize::MAX,
        first_wanted(declarations(nodes), wanted) matches Some(span) && spans(span, text, a, b),
    ensures
        ({
            let i = encode_utf8(text.take(a)).len() as int;
            let j = encode_utf8(text.take(b)).len() as int;
            without_items(bytes, nodes, seq![wanted]) == bytes.take(prefix_boundary(bytes.take(i)))
                + bytes.skip(j + suffix_boundary(bytes.skip(j)))
        }),
{
    let span = first_wanted(declarations(nodes), wanted)->0;
    let range = span_range(span, bytes);
    law_spans_are_exact(bytes, text, span, a, b);
    law_widening_adds_whitespace(bytes, range);
    law_ranges_of_one(bytes, nodes, wanted);
    let chunk = with_whitespace(bytes, range);
    assert(widened(bytes, seq![range]) =~= seq![chunk]);
    law_prefix_boundary(bytes.take(range.start as int));
    law_suffix_boundary(bytes.skip(range.end as int));
    law_single_chunk(bytes, chunk);
}

/// Where a source file is UTF-8, the range of each item that it declares holds
/// exactly the characters of a stretch of its text.
pub proof fn law_ranges_are_exact(bytes: Seq<u8>, nodes: Seq<NodeModel>, i: int)
    requires
        read_from(bytes, nodes),
        valid_utf8(bytes),
        bytes.len() <= usize::MAX,
        0 <= i < declarations(nodes).len(),
    ensures
        exists|a: int, b: int| #[trigger]
            spans(declarations(nodes)[i].span, decode_utf8(bytes), a, b) && bytes.subrange(
                span_range(declarations(nodes)[i].span, bytes).start as int,
                span_range(declarations(nodes)[i].span, bytes).end as int,
            ) == encode_utf8(decode_utf8(bytes).subrange(a, b)),
{
    let text = decode_utf8(bytes);
    let span = declarations(nodes)[i].span;
    lemma_declarations_located(nodes, text);
    assert(in_text(span, text));
    let (a, b) = choose|a: int, b: int| spans(span, text, a, b);
    law_spans_are_exact(bytes, text, span, a, b);
}

/// A single diagnostic has the range of the item that it is about, and none
/// where it is about no item.
pub proof fn law_ranges_of_one(bytes: Seq<u8>, nodes: Seq<NodeModel>, wanted: Wanted)
    ensures
        wanted_ranges(bytes, nodes, seq![wanted]) == match first_wanted(
            declarations(nodes),
            wanted,
        ) {
            Some(span) => seq![span_range(span, bytes)],
            None => seq![],
        },
{
    reveal_with_fuel(wanted_ranges, 2);
    assert(seq![wanted].drop_last() =~= Seq::<Wanted>::empty());
    match first_wanted(declarations(nodes), wanted) {
        Some(span) => {
            assert(wanted_ranges(bytes, nodes, seq![wanted]) =~= seq![span_range(span, bytes)]);
        },
        None => {},
    }
}

/// The ranges of two lists of diagnostics put together are those of the first
/// and then those of the second.
pub proof fn law_ranges_of_parts(
    bytes: Seq<u8>,
    nodes: Seq<NodeModel>,
    first: Seq<Wanted>,
    second: Seq<Wanted>,
)
    ensures
        wanted_ranges(bytes, nodes, first + second) == wanted_ranges(bytes, nodes, first)
            + wanted_ranges(bytes, nodes, second),
    decreases second.len(),
{
    if second.len() == 0 {
        assert(first + second =~= first);
        assert(wanted_ranges(bytes, nodes, first) + wanted_ranges(bytes, nodes, second)
            =~= wanted_ranges(bytes, nodes, first));
    } else {
        assert((first + second).drop_last() =~= first + second.drop_last());
        law_ranges_of_parts(bytes, nodes, first, second.drop_last());
        assert(wanted_ranges(bytes, nodes, first + second) =~= wanted_ranges(bytes, nodes, first)
            + wanted_ranges(bytes, nodes, second));
    }
}

/// Without diagnostics nothing is deleted, and a further diagnostic about no
/// item of the file changes nothing of what is deleted.
pub proof fn law_unmatched_diagnostics_are_irrelevant(
    bytes: Seq<u8>,
    nodes: Seq<NodeModel>,
    wanted: Seq<Wanted>,
    unmatched: Wanted,
)
    requires
        first_wanted(declarations(nodes), unmatched) is None,
    ensures
        without_items(bytes, nodes, Seq::empty()) == bytes,
        without_items(bytes, nodes, wanted.push(unmatched)) == without_items(bytes, nodes, wanted),
{
    law_nothing_found_nothing_deleted(bytes, nodes, Seq::empty());
    assert(wanted.push(unmatched).drop_last() =~= wanted);
}

/// A byte that is deleted with the empty blocks belongs to one of them, or is
/// whitespace.
pub proof fn law_only_blocks_and_whitespace_are_deleted(
    bytes: Seq<u8>,
    nodes: Seq<NodeModel>,
    i: int,
)
    requires
        bytes.len() <= usize::MAX,
        empty_blocks_fit(bytes, nodes),
        0 <= i < bytes.len(),
        covered(widened(bytes, empty_block_ranges(bytes, nodes)), i),
    ensures
        is_whitespace(bytes[i]) || exists|k: int|
            0 <= k < nodes.len() && is_empty_block((#[trigger] nodes[k]).shape) && span_range(
                nodes[k].span,
                bytes,
            ).start <= i < span_range(nodes[k].span, bytes).end,
{
    let ranges = empty_block_ranges(bytes, nodes);
    let chunks = widened(bytes, ranges);
    let r = choose|r: int|
        0 <= r < chunks.len() && (#[trigger] chunks[r]).start <= i < chunks[r].end;
    assert(chunks[r] == with_whitespace(bytes, ranges[r]));
    let k = lemma_range_is_block(bytes, nodes, r);
    lemma_fitting_span(nodes[k].span, bytes);
    law_widening_adds_whitespace(bytes, ranges[r]);
}

/// Each range is that of an empty block.
proof fn lemma_range_is_block(bytes: Seq<u8>, nodes: Seq<NodeModel>, r: int) -> (k: int)
    requires
        0 <= r < empty_block_ranges(bytes, nodes).len(),
    ensures
        0 <= k < nodes.len(),
        is_empty_block(nodes[k].shape),
        empty_block_ranges(bytes, nodes)[r] == span_range(nodes[k].span, bytes),
    decreases nodes.len(),
{
    let rest = nodes.drop_last();
    if r < empty_block_ranges(bytes, rest).len() {
        lemma_range_is_block(bytes, rest, r)
    } else {
        nodes.len() - 1
    }
}

// ---------------------------------------------------------------------------
// Which bytes are kept
// ---------------------------------------------------------------------------

/// What is left of a source file without items are the bytes that lie in no
/// widened range of an item that was found, each once and in their order; `kept`
/// are their offsets.
pub proof fn law_kept_without_items(
    bytes: Seq<u8>,
    nodes: Seq<NodeModel>,
    wanted: Seq<Wanted>,
) -> (kept: Seq<int>)
    ensures
        picks(bytes, kept, without_items(bytes, nodes, wanted)),
        forall|i: int|
            0 <= i < bytes.len() ==> (#[trigger] kept.contains(i) <==> forall|w: int|
                0 <= w < wanted.len() ==> match first_wanted(
                    declarations(nodes),
                    #[trigger] wanted[w],
                ) {
                    Some(span) => {
                        let chunk = with_whitespace(bytes, span_range(span, bytes));
                        i < chunk.start || chunk.end <= i
                    },
                    None => true,
                }),
{
    let ranges = wanted_ranges(bytes, nodes, wanted);
    let chunks = widened(bytes, ranges);
    let kept = law_deletion_keeps_the_rest(bytes, chunks);
    assert forall|i: int| 0 <= i < bytes.len() implies (#[trigger] kept.contains(i) <==> forall|
        w: int,
    |
        0 <= w < wanted.len() ==> match first_wanted(declarations(nodes), #[trigger] wanted[w]) {
            Some(span) => {
                let chunk = with_whitespace(bytes, span_range(span, bytes));
                i < chunk.start || chunk.end <= i
            },
            None => true,
        }) by {
        if kept.contains(i) {
            assert forall|w: int| 0 <= w < wanted.len() implies match first_wanted(
                declarations(nodes),
                #[trigger] wanted[w],
            ) {
                Some(span) => {
                    let chunk = with_whitespace(bytes, span_range(span, bytes));
                    i < chunk.start || chunk.end <= i
                },
                None => true,
            } by {
                if first_wanted(declarations(nodes), wanted[w]) is Some {
                    assert(wanted.contains(wanted[w]));
                    let k = lemma_wanted_has_range(bytes, nodes, wanted, wanted[w]);
                    assert(chunks[k] == with_whitespace(bytes, ranges[k]));
                    assert(i < chunks[k].start || chunks[k].end <= i);
                }
            }
        } else {
            let k = choose|k: int|
                0 <= k < chunks.len() && !(i < (#[trigger] chunks[k]).start || chunks[k].end <= i);
            assert(chunks[k] == with_whitespace(bytes, ranges[k]));
            let found = lemma_range_is_wanted(bytes, nodes, wanted, k);
            let w = choose|w: int| 0 <= w < wanted.len() && wanted[w] == found;
            assert(first_wanted(declarations(nodes), wanted[w]) is Some);
        }
    }
    kept
}

/// What diagnostics delete from a file is whitespace, or belongs to an item of
/// the kind and the name that one of them gives, and on the line that it points
/// at. All of the first such item of each diagnostic goes.
pub proof fn law_diagnosed_items_go(
    bytes: Seq<u8>,
    nodes: Seq<NodeModel>,
    diagnostics: Seq<UnusedDiagnostic>,
    file_name: Seq<char>,
) -> (kept: Seq<int>)
    requires
        bytes.len() <= usize::MAX,
        declarations_fit(bytes, nodes),
    ensures
        picks(
            bytes,
            kept,
            without_items(bytes, nodes, wanted_in(diagnostic_models(diagnostics), file_name)),
        ),
        forall|i: int|
            0 <= i < bytes.len() && !(#[trigger] kept.contains(i)) ==> bytes[i] == 32 || (9
                <= bytes[i] <= 13 && bytes[i] != 11) || exists|d: int, j: int|
                0 <= d < diagnostics.len() && 0 <= j < declarations(nodes).len()
                    && #[trigger] points_at(diagnostics[d], file_name, declarations(nodes)[j])
                    && span_range(declarations(nodes)[j].span, bytes).start <= i < span_range(
                    declarations(nodes)[j].span,
                    bytes,
                ).end,
        forall|d: int, j: int, i: int|
            0 <= d < diagnostics.len() && 0 <= j < declarations(nodes).len()
                && #[trigger] points_at(diagnostics[d], file_name, declarations(nodes)[j]) && (
            forall|e: int|
                0 <= e < j ==> !points_at(
                    diagnostics[d],
                    file_name,
                    #[trigger] declarations(nodes)[e],
                )) && span_range(declarations(nodes)[j].span, bytes).start <= i < span_range(
                declarations(nodes)[j].span,
                bytes,
            ).end ==> !(#[trigger] kept.contains(i)),
{
    let all = declarations(nodes);
    let wanted = wanted_in(diagnostic_models(diagnostics), file_name);
    let about = law_wanted_in(diagnostics, file_name);
    let kept = law_kept_without_items(bytes, nodes, wanted);
    assert forall|i: int| 0 <= i < bytes.len() && !(#[trigger] kept.contains(i)) implies bytes[i]
        == 32 || (9 <= bytes[i] <= 13 && bytes[i] != 11) || exists|d: int, j: int|
        0 <= d < diagnostics.len() && 0 <= j < all.len() && #[trigger] points_at(
            diagnostics[d],
            file_name,
            all[j],
        ) && span_range(all[j].span, bytes).start <= i < span_range(all[j].span, bytes).end by {
        let w = choose|w: int|
            0 <= w < wanted.len() && !match first_wanted(all, #[trigger] wanted[w]) {
                Some(span) => {
                    let chunk = with_whitespace(bytes, span_range(span, bytes));
                    i < chunk.start || chunk.end <= i
                },
                None => true,
            };
        let span = first_wanted(all, wanted[w])->0;
        law_found_is_the_first(all, wanted[w]);
        let j = choose|j: int|
            0 <= j < all.len() && (#[trigger] all[j]).kind == wanted[w].kind && all[j].name.text
                == wanted[w].ident && (wanted[w].line is None || wanted[w].line == Some(
                all[j].name.line,
            )) && all[j].span == span;
        let d = about[w];
        assert(about.contains(d));
        assert(points_at(diagnostics[d], file_name, all[j]));
        assert(span_fits(all[j].span, bytes));
        lemma_fitting_span(span, bytes);
        law_widened_range(bytes, span_range(span, bytes));
    }
    assert forall|d: int, j: int, i: int|
        0 <= d < diagnostics.len() && 0 <= j < all.len() && #[trigger] points_at(
            diagnostics[d],
            file_name,
            all[j],
        ) && (forall|e: int|
            0 <= e < j ==> !points_at(diagnostics[d], file_name, #[trigger] all[e])) && span_range(
            all[j].span,
            bytes,
        ).start <= i < span_range(all[j].span, bytes).end implies !(#[trigger] kept.contains(
        i,
    )) by {
        assert(about.contains(d));
        let w = choose|w: int| 0 <= w < about.len() && about[w] == d;
        let meant = wanted[w];
        assert(meant.kind == diagnostics[d].kind);
        law_found_is_the_first(all, meant);
        assert(all[j].kind == meant.kind);
        let span = first_wanted(all, meant)->0;
        let f = choose|f: int|
            0 <= f < all.len() && (#[trigger] all[f]).kind == meant.kind && all[f].name.text
                == meant.ident && (meant.line is None || meant.line == Some(all[f].name.line))
                && all[f].span == span && forall|g: int|
                0 <= g < f ==> (#[trigger] all[g]).kind != meant.kind || all[g].name.text
                    != meant.ident || (meant.line is Some && meant.line != Some(all[g].name.line));
        assert(points_at(diagnostics[d], file_name, all[f]));
        assert(f == j);
        assert(span_fits(all[j].span, bytes));
        lemma_fitting_span(span, bytes);
        law_widened_range(bytes, span_range(span, bytes));
    }
    kept
}

/// A diagnostic points at that file, and a declaration in it is of its kind, of
/// its name and on its line.
pub open spec fn points_at(
    diagnostic: UnusedDiagnostic,
    file_name: Seq<char>,
    declaration: Declaration,
) -> bool {
    &&& diagnostic.span.file_name@ == file_name
    &&& declaration.kind == diagnostic.kind
    &&& declaration.name.text == diagnostic.ident@
    &&& declaration.name.line == diagnostic.span.line_start
}

/// A foreign block without attributes and members, or an `impl` block without
/// attributes, trait and members.
pub open spec fn holds_nothing(shape: ShapeModel) -> bool {
    ||| shape == (ShapeModel::ForeignMod { attributes: 0, members: Seq::empty() })
    ||| shape == (ShapeModel::Impl { attributes: 0, of_trait: false, members: Seq::empty() })
}

/// What is left of a source file without its empty blocks are the bytes that lie
/// in no widened range of a foreign block without attributes and members, or of
/// an `impl` block without attributes, trait and members, each once and in their
/// order. So a byte that goes is whitespace or belongs to such a block, and
/// where there is none the file stays as it is.
pub proof fn law_kept_without_blocks(bytes: Seq<u8>, nodes: Seq<NodeModel>) -> (kept: Seq<int>)
    ensures
        picks(bytes, kept, without_empty_blocks(bytes, nodes)),
        forall|i: int|
            0 <= i < bytes.len() ==> (#[trigger] kept.contains(i) <==> forall|k: int|
                0 <= k < nodes.len() && holds_nothing((#[trigger] nodes[k]).shape) ==> {
                    let chunk = with_whitespace(bytes, span_range(nodes[k].span, bytes));
                    i < chunk.start || chunk.end <= i
                }),
        bytes.len() <= usize::MAX && (forall|k: int|
            0 <= k < nodes.len() ==> span_fits((#[trigger] nodes[k]).span, bytes)) ==> forall|i: int|
            0 <= i < bytes.len() && !(#[trigger] kept.contains(i)) ==> bytes[i] == 32 || (9
                <= bytes[i] <= 13 && bytes[i] != 11) || exists|k: int|
                0 <= k < nodes.len() && holds_nothing((#[trigger] nodes[k]).shape) && span_range(
                    nodes[k].span,
                    bytes,
                ).start <= i < span_range(nodes[k].span, bytes).end,
        (forall|k: int| 0 <= k < nodes.len() ==> !holds_nothing((#[trigger] nodes[k]).shape))
            ==> without_empty_blocks(bytes, nodes) == bytes,
{
    let ranges = empty_block_ranges(bytes, nodes);
    let chunks = widened(bytes, ranges);
    let kept = law_deletion_keeps_the_rest(bytes, chunks);
    assert forall|k: int| 0 <= k < nodes.len() implies holds_nothing((#[trigger] nodes[k]).shape)
        == is_empty_block(nodes[k].shape) by {
        lemma_holds_nothing(nodes[k].shape);
    }
    assert forall|i: int| 0 <= i < bytes.len() implies (#[trigger] kept.contains(i) <==> forall|
        k: int,
    |
        0 <= k < nodes.len() && holds_nothing((#[trigger] nodes[k]).shape) ==> {
            let chunk = with_whitespace(bytes, span_range(nodes[k].span, bytes));
            i < chunk.start || chunk.end <= i
        }) by {
        if kept.contains(i) {
            assert forall|k: int|
                0 <= k < nodes.len() && holds_nothing((#[trigger] nodes[k]).shape) implies {
                let chunk = with_whitespace(bytes, span_range(nodes[k].span, bytes));
                i < chunk.start || chunk.end <= i
            } by {
                let r = lemma_block_has_range(bytes, nodes, k);
                assert(chunks[r] == with_whitespace(bytes, ranges[r]));
                assert(i < chunks[r].start || chunks[r].end <= i);
            }
        } else {
            let r = choose|r: int|
                0 <= r < chunks.len() && !(i < (#[trigger] chunks[r]).start || chunks[r].end <= i);
            assert(chunks[r] == with_whitespace(bytes, ranges[r]));
            let k = lemma_range_is_block(bytes, nodes, r);
            assert(holds_nothing(nodes[k].shape));
        }
    }
    if bytes.len() <= usize::MAX && (forall|k: int|
        0 <= k < nodes.len() ==> span_fits((#[trigger] nodes[k]).span, bytes)) {
        assert forall|i: int| 0 <= i < bytes.len() && !(#[trigger] kept.contains(i)) implies bytes[i]
            == 32 || (9 <= bytes[i] <= 13 && bytes[i] != 11) || exists|k: int|
            0 <= k < nodes.len() && holds_nothing((#[trigger] nodes[k]).shape) && span_range(
                nodes[k].span,
                bytes,
            ).start <= i < span_range(nodes[k].span, bytes).end by {
            let k = choose|k: int|
                0 <= k < nodes.len() && holds_nothing((#[trigger] nodes[k]).shape) && !({
                    let chunk = with_whitespace(bytes, span_range(nodes[k].span, bytes));
                    i < chunk.start || chunk.end <= i
                });
            lemma_fitting_span(nodes[k].span, bytes);
            law_widened_range(bytes, span_range(nodes[k].span, bytes));
        }
    }
    if forall|k: int| 0 <= k < nodes.len() ==> !holds_nothing((#[trigger] nodes[k]).shape) {
        law_no_empty_blocks_nothing_deleted(bytes, nodes);
    }
    kept
}

proof fn lemma_holds_nothing(shape: ShapeModel)
    ensures
        holds_nothing(shape) == is_empty_block(shape),
{
    match shape {
        ShapeModel::ForeignMod { attributes, members } => {
            assert(members.len() == 0 ==> members =~= Seq::empty());
        },
        ShapeModel::Impl { attributes, of_trait, members } => {
            assert(members.len() == 0 ==> members =~= Seq::empty());
        },
        _ => {},
    }
}

/// Each empty block has a range.
proof fn lemma_block_has_range(bytes: Seq<u8>, nodes: Seq<NodeModel>, k: int) -> (r: int)
    requires
        0 <= k < nodes.len(),
        is_empty_block(nodes[k].shape),
    ensures
        0 <= r < empty_block_ranges(bytes, nodes).len(),
        empty_block_ranges(bytes, nodes)[r] == span_range(nodes[k].span, bytes),
    decreases nodes.len(),
{
    let rest = nodes.drop_last();
    if k < rest.len() {
        lemma_block_has_range(bytes, rest, k)
    } else {
        empty_block_ranges(bytes, rest).len() as int
    }
}

} // verus!
