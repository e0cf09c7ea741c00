//! Cutting chunks, with the whitespace around them, out of a byte string.
use std::ops::Range;

use vstd::prelude::*;
use vstd::slice::slice_subrange;

use crate::picks::{lemma_one_more_place, picks};
use crate::text::NEWLINE;

verus! {

// ---------------------------------------------------------------------------
// Whitespace
// ---------------------------------------------------------------------------

/// A space, a tab, a line feed, a form feed or a carriage return.
pub open spec fn is_whitespace(byte: u8) -> bool {
    byte == 0x20 || byte == 0x09 || byte == 0x0a || byte == 0x0c || byte == 0x0d
}

/// Whitespace that stays on its line.
pub open spec fn is_blank(byte: u8) -> bool {
    is_whitespace(byte) && byte != NEWLINE
}

fn whitespace(byte: u8) -> (yes: bool)
    ensures
        yes == is_whitespace(byte),
{
    byte == 0x20 || byte == 0x09 || byte == 0x0a || byte == 0x0c || byte == 0x0d
}

/// Where the last line of `src` begins, if `src` has a newline and nothing but
/// whitespace behind the last one.
pub open spec fn blank_line_start(src: Seq<u8>) -> Option<int>
    decreases src.len(),
{
    if src.len() == 0 {
        None
    } else if src.last() == NEWLINE {
        Some(src.len() as int)
    } else if is_whitespace(src.last()) {
        blank_line_start(src.drop_last())
    } else {
        None
    }
}

/// Where the whitespace at the end of `src` that goes with what follows begins:
/// at the last line, if that is blank, else at the end.
pub open spec fn prefix_boundary(src: Seq<u8>) -> int {
    match blank_line_start(src) {
        Some(start) => start,
        None => src.len() as int,
    }
}

/// Finds the position of the first whitespace that is considered belonging to
/// the next definition or declaration:
/// - whitespace before it on its line stays, if other text stands on that line;
/// - else the line is removed from its start.
pub fn find_prefix_whitespace(src: &[u8]) -> (position: usize)
    ensures
        position == prefix_boundary(src@),
{
    let mut k: usize = src.len();
    assert(src@.take(k as int) =~= src@);
    while k > 0
        invariant
            k <= src@.len(),
            blank_line_start(src@.take(k as int)) == blank_line_start(src@),
        decreases k,
    {
        let byte = src[k - 1];
        assert(src@.take(k as int).drop_last() =~= src@.take(k - 1));
        if byte == NEWLINE {
            return k;
        }
        if !whitespace(byte) {
            return src.len();
        }
        k = k - 1;
    }
    src.len()
}

/// The number of blanks at the beginning of `src`.
pub open spec fn leading_blanks(src: Seq<u8>) -> int
    decreases src.len(),
{
    if src.len() == 0 || !is_blank(src[0]) {
        0
    } else {
        1 + leading_blanks(src.drop_first())
    }
}

/// How much whitespace at the beginning of `src` goes with what precedes: the
/// blanks, and the newline right behind them if there is one.
pub open spec fn suffix_boundary(src: Seq<u8>) -> int {
    let blanks = leading_blanks(src);
    if blanks < src.len() && src[blanks] == NEWLINE {
        blanks + 1
    } else {
        blanks
    }
}

/// Finds the position of the first whitespace that is not considered belonging
/// to the previous definition or declaration:
/// - if there is a newline, all blanks before it go, and the newline;
/// - if there is no newline, all whitespace goes, up to the next token.
pub fn find_suffix_whitespace(src: &[u8]) -> (position: usize)
    ensures
        position == suffix_boundary(src@),
        position <= src@.len(),
{
    let mut pos: usize = 0;
    assert(src@.skip(0) =~= src@);
    while pos < src.len() && src[pos] != NEWLINE && whitespace(src[pos])
        invariant
            pos <= src@.len(),
            leading_blanks(src@) == pos + leading_blanks(src@.skip(pos as int)),
        decreases src@.len() - pos,
    {
        assert(src@.skip(pos as int).drop_first() =~= src@.skip(pos + 1));
        pos = pos + 1;
    }
    if pos < src.len() && src[pos] == NEWLINE {
        pos + 1
    } else {
        pos
    }
}

/// What lies between the boundary and the end of `src` is blank, and begins a
/// line unless it is empty. Where the boundary is the end though a newline
/// precedes it, something other than whitespace stands behind that newline.
pub proof fn law_prefix_boundary(src: Seq<u8>)
    ensures
        0 <= prefix_boundary(src) <= src.len(),
        forall|i: int| prefix_boundary(src) <= i < src.len() ==> is_blank(#[trigger] src[i]),
        prefix_boundary(src) < src.len() ==> prefix_boundary(src) > 0 && src[prefix_boundary(src)
            - 1] == NEWLINE,
        forall|j: int|
            #![trigger src[j]]
            0 <= j < prefix_boundary(src) == src.len() && src[j] == NEWLINE ==> src.last()
                == NEWLINE || exists|i: int| j < i < src.len() && !is_whitespace(src[i]),
    decreases src.len(),
{
    if src.len() > 0 && src.last() != NEWLINE && is_whitespace(src.last()) {
        let rest = src.drop_last();
        law_prefix_boundary(rest);
        lemma_blank_line_start(src);
        lemma_blank_line_start(rest);
        assert forall|i: int| prefix_boundary(src) <= i < src.len() implies is_blank(
            #[trigger] src[i],
        ) by {
            if i < rest.len() {
                assert(rest[i] == src[i]);
            }
        }
        if blank_line_start(src) is None {
            assert forall|j: int|
                #![trigger src[j]]
                0 <= j < src.len() && src[j] == NEWLINE implies exists|i: int|
                j < i < src.len() && !is_whitespace(src[i]) by {
                lemma_no_blank_line(src, j);
            }
        }
    } else if src.len() > 0 && src.last() != NEWLINE {
        assert(!is_whitespace(src[src.len() - 1]));
    }
}

/// A blank line starts behind a newline.
proof fn lemma_blank_line_start(src: Seq<u8>)
    ensures
        blank_line_start(src) matches Some(start) ==> 0 < start <= src.len() && src[start - 1]
            == NEWLINE,
    decreases src.len(),
{
    if src.len() > 0 {
        lemma_blank_line_start(src.drop_last());
    }
}

/// Without a blank last line, text stands behind each newline.
proof fn lemma_no_blank_line(src: Seq<u8>, j: int)
    requires
        blank_line_start(src) is None,
        0 <= j < src.len(),
        src[j] == NEWLINE,
    ensures
        exists|i: int| j < i < src.len() && !is_whitespace(src[i]),
    decreases src.len(),
{
    let rest = src.drop_last();
    if is_whitespace(src.last()) {
        lemma_no_blank_line(rest, j);
        let i = choose|i: int| j < i < rest.len() && !is_whitespace(rest[i]);
        assert(!is_whitespace(src[i]));
    } else {
        assert(!is_whitespace(src[src.len() - 1]));
    }
}

/// All that goes with what precedes is blank, but for a newline at its end.
/// What is left begins with a token, unless a newline went: then it is a line
/// as it stood.
pub proof fn law_suffix_boundary(src: Seq<u8>)
    ensures
        0 <= suffix_boundary(src) <= src.len(),
        forall|i: int|
            0 <= i < suffix_boundary(src) ==> is_blank(#[trigger] src[i]) || (i
                == suffix_boundary(src) - 1 && src[i] == NEWLINE),
        suffix_boundary(src) < src.len() && is_whitespace(src[suffix_boundary(src)])
            ==> suffix_boundary(src) > 0 && src[suffix_boundary(src) - 1] == NEWLINE,
    decreases src.len(),
{
    lemma_leading_blanks(src);
}

proof fn lemma_leading_blanks(src: Seq<u8>)
    ensures
        0 <= leading_blanks(src) <= src.len(),
        forall|i: int| 0 <= i < leading_blanks(src) ==> is_blank(#[trigger] src[i]),
        leading_blanks(src) < src.len() ==> !is_blank(src[leading_blanks(src)]),
    decreases src.len(),
{
    if src.len() > 0 && is_blank(src[0]) {
        let rest = src.drop_first();
        lemma_leading_blanks(rest);
        assert forall|i: int| 0 <= i < leading_blanks(src) implies is_blank(#[trigger] src[i]) by {
            if i > 0 {
                assert(rest[i - 1] == src[i]);
            }
        }
    }
}

// ---------------------------------------------------------------------------
// Chunks
// ---------------------------------------------------------------------------

/// `range` with the whitespace around it that goes with it.
pub open spec fn with_whitespace(src: Seq<u8>, range: Range<usize>) -> Range<usize> {
    Range {
        start: prefix_boundary(src.take(range.start as int)) as usize,
        end: (range.end + suffix_boundary(src.skip(range.end as int))) as usize,
    }
}

/// Widens each range by the whitespace around it that goes with it.
pub fn expand_ranges_to_include_whitespace(
    src: &[u8],
    ranges: Vec<Range<usize>>,
) -> (expanded: Vec<Range<usize>>)
    requires
        forall|i: int|
            0 <= i < ranges@.len() ==> (#[trigger] ranges@[i]).start <= src@.len() && ranges@[i].end
                <= src@.len(),
    ensures
        expanded@ == ranges@.map_values(|range: Range<usize>| with_whitespace(src@, range)),
{
    let mut expanded: Vec<Range<usize>> = Vec::new();
    let mut i: usize = 0;
    while i < ranges.len()
        invariant
            i <= ranges@.len(),
            expanded@.len() == i,
            forall|k: int|
                0 <= k < ranges@.len() ==> (#[trigger] ranges@[k]).start <= src@.len()
                    && ranges@[k].end <= src@.len(),
            forall|k: int|
                0 <= k < i ==> #[trigger] expanded@[k] == with_whitespace(src@, ranges@[k]),
        decreases ranges@.len() - i,
    {
        let start = ranges[i].start;
        let end = ranges[i].end;
        let before = slice_subrange(src, 0, start);
        let after = slice_subrange(src, end, src.len());
        assert(before@ =~= src@.take(start as int));
        assert(after@ =~= src@.skip(end as int));
        proof {
            law_prefix_boundary(before@);
        }
        expanded.push(
            Range { start: find_prefix_whitespace(before), end: find_suffix_whitespace(after) + end },
        );
        i = i + 1;
    }
    assert(expanded@ =~= ranges@.map_values(|range: Range<usize>| with_whitespace(src@, range)));
    expanded
}

/// Widening a range adds nothing but whitespace, and stays inside `src`.
pub proof fn law_widening_adds_whitespace(src: Seq<u8>, range: Range<usize>)
    requires
        range.start <= src.len() <= usize::MAX,
        range.end <= src.len(),
    ensures
        with_whitespace(src, range).start <= range.start,
        range.end <= with_whitespace(src, range).end <= src.len(),
        forall|i: int|
            with_whitespace(src, range).start <= i < range.start ==> is_whitespace(
                #[trigger] src[i],
            ),
        forall|i: int|
            range.end <= i < with_whitespace(src, range).end ==> is_whitespace(#[trigger] src[i]),
{
    let before = src.take(range.start as int);
    let after = src.skip(range.end as int);
    law_prefix_boundary(before);
    law_suffix_boundary(after);
    assert forall|i: int| with_whitespace(src, range).start <= i < range.start implies is_whitespace(
        #[trigger] src[i],
    ) by {
        assert(before[i] == src[i]);
    }
    assert forall|i: int| range.end <= i < with_whitespace(src, range).end implies is_whitespace(
        #[trigger] src[i],
    ) by {
        assert(after[i - range.end] == src[i]);
    }
}

/// One of `chunks` holds the offset `i`.
pub open spec fn covered(chunks: Seq<Range<usize>>, i: int) -> bool {
    exists|k: int| 0 <= k < chunks.len() && (#[trigger] chunks[k]).start <= i < chunks[k].end
}

/// The bytes of `src`, in their order, whose offsets no chunk holds.
pub open spec fn without_chunks(src: Seq<u8>, chunks: Seq<Range<usize>>) -> Seq<u8>
    decreases src.len(),
{
    if src.len() == 0 {
        seq![]
    } else if covered(chunks, src.len() - 1) {
        without_chunks(src.drop_last(), chunks)
    } else {
        without_chunks(src.drop_last(), chunks).push(src.last())
    }
}

fn in_chunks(chunks: &[Range<usize>], offset: usize) -> (yes: bool)
    ensures
        yes == covered(chunks@, offset as int),
{
    let mut k: usize = 0;
    while k < chunks.len()
        invariant
            k <= chunks@.len(),
            forall|j: int|
                0 <= j < k ==> !((#[trigger] chunks@[j]).start <= offset < chunks@[j].end),
        decreases chunks@.len() - k,
    {
        if chunks[k].start <= offset && offset < chunks[k].end {
            return true;
        }
        k = k + 1;
    }
    false
}

/// Deletes the bytes at the offsets that the chunks hold. Chunks may overlap,
/// come in any order and reach beyond the end; one whose start is not before
/// its end holds nothing.
pub fn delete_chunks(src: &[u8], chunks_to_delete: &[Range<usize>]) -> (rest: Vec<u8>)
    ensures
        rest@ == without_chunks(src@, chunks_to_delete@),
{
    let mut rest: Vec<u8> = Vec::new();
    let mut i: usize = 0;
    assert(src@.take(0) =~= Seq::<u8>::empty());
    while i < src.len()
        invariant
            i <= src@.len(),
            rest@ == without_chunks(src@.take(i as int), chunks_to_delete@),
        decreases src@.len() - i,
    {
        assert(src@.take(i + 1).drop_last() =~= src@.take(i as int));
        if !in_chunks(chunks_to_delete, i) {
            rest.push(src[i]);
        }
        i = i + 1;
    }
    assert(src@.take(i as int) =~= src@);
    rest
}

/// What is left depends on which offsets the chunks hold, not on their order,
/// their number or their overlaps.
pub proof fn law_deletion_depends_on_offsets(
    src: Seq<u8>,
    chunks: Seq<Range<usize>>,
    others: Seq<Range<usize>>,
)
    requires
        forall|i: int| 0 <= i < src.len() ==> covered(chunks, i) == covered(others, i),
    ensures
        without_chunks(src, chunks) == without_chunks(src, others),
    decreases src.len(),
{
    if src.len() > 0 {
        law_deletion_depends_on_offsets(src.drop_last(), chunks, others);
    }
}

/// Where no offset is held by a chunk, nothing is deleted.
pub proof fn law_uncovered_is_unchanged(src: Seq<u8>, chunks: Seq<Range<usize>>)
    requires
        forall|i: int| 0 <= i < src.len() ==> !covered(chunks, i),
    ensures
        without_chunks(src, chunks) == src,
    decreases src.len(),
{
    if src.len() > 0 {
        law_uncovered_is_unchanged(src.drop_last(), chunks);
        assert(src.drop_last().push(src.last()) =~= src);
    }
}

/// Deleting never makes a byte string longer, and keeps its length only where
/// it keeps the bytes.
pub proof fn law_deletion_shortens(src: Seq<u8>, chunks: Seq<Range<usize>>)
    ensures
        without_chunks(src, chunks).len() <= src.len(),
        without_chunks(src, chunks).len() == src.len() ==> without_chunks(src, chunks) == src,
    decreases src.len(),
{
    if src.len() > 0 {
        law_deletion_shortens(src.drop_last(), chunks);
        assert(src.drop_last().push(src.last()) =~= src);
    }
}

/// Deleting a single chunk leaves what stands on both sides of it.
pub proof fn law_single_chunk(src: Seq<u8>, chunk: Range<usize>)
    requires
        chunk.start <= chunk.end <= src.len(),
    ensures
        without_chunks(src, seq![chunk]) == src.take(chunk.start as int) + src.skip(
            chunk.end as int,
        ),
    decreases src.len(),
{
    let chunks = seq![chunk];
    assert(chunks[0] == chunk);
    if chunk.end < src.len() {
        law_single_chunk(src.drop_last(), chunk);
        assert(!covered(chunks, src.len() - 1));
        assert(src.take(chunk.start as int) + src.skip(chunk.end as int) =~= (
        src.drop_last().take(chunk.start as int) + src.drop_last().skip(chunk.end as int)).push(
            src.last(),
        ));
    } else if chunk.start < src.len() {
        let shorter = Range { start: chunk.start, end: (chunk.end - 1) as usize };
        law_single_chunk(src.drop_last(), shorter);
        let rest = src.drop_last();
        assert(seq![shorter][0] == shorter);
        assert forall|i: int| 0 <= i < rest.len() implies covered(chunks, i) == covered(
            seq![shorter],
            i,
        ) by {
            if chunk.start <= i {
                assert(chunks[0].start <= i < chunks[0].end);
                assert(seq![shorter][0].start <= i < seq![shorter][0].end);
            }
        }
        law_deletion_depends_on_offsets(rest, chunks, seq![shorter]);
        assert(chunks[0].start <= src.len() - 1 < chunks[0].end);
        assert(rest.take(chunk.start as int) + rest.skip(shorter.end as int) =~= src.take(
            chunk.start as int,
        ) + src.skip(chunk.end as int));
    } else {
        assert forall|i: int| 0 <= i < src.len() implies !covered(chunks, i) by {}
        law_uncovered_is_unchanged(src, chunks);
        assert(src.take(chunk.start as int) + src.skip(chunk.end as int) =~= src);
    }
}

// ---------------------------------------------------------------------------
// What goes and what stays
// ---------------------------------------------------------------------------

/// Whitespace is the space, and the characters from the tab to the carriage
/// return but the vertical tab. A blank is whitespace other than the newline.
pub proof fn law_whitespace(byte: u8)
    ensures
        is_whitespace(byte) <==> byte == 32 || (9 <= byte <= 13 && byte != 11),
        is_blank(byte) <==> byte == 32 || byte == 9 || byte == 12 || byte == 13,
{
}

/// What is left after a deletion are the bytes at the offsets that lie in no
/// chunk, each once and in their order.
pub proof fn law_deletion_keeps_the_rest(src: Seq<u8>, chunks: Seq<Range<usize>>) -> (kept: Seq<
    int,
>)
    ensures
        picks(src, kept, without_chunks(src, chunks)),
        forall|i: int|
            0 <= i < src.len() ==> (#[trigger] kept.contains(i) <==> forall|k: int|
                0 <= k < chunks.len() ==> i < (#[trigger] chunks[k]).start || chunks[k].end <= i),
    decreases src.len(),
{
    if src.len() == 0 {
        Seq::empty()
    } else {
        let rest = src.drop_last();
        let n = rest.len() as int;
        let before = law_deletion_keeps_the_rest(rest, chunks);
        lemma_one_more_place(before, rest.len());
        let gone = exists|k: int|
            0 <= k < chunks.len() && (#[trigger] chunks[k]).start <= n < chunks[k].end;
        assert(gone == covered(chunks, n));
        if gone {
            before
        } else {
            let kept = before.push(n);
            let some = without_chunks(src, chunks);
            assert forall|k: int| 0 <= k < some.len() implies #[trigger] some[k]
                == src[kept[k]] by {
                if k < before.len() {
                    assert(without_chunks(rest, chunks)[k] == rest[before[k]]);
                }
            }
            kept
        }
    }
}

/// How a range is widened. To the left it reaches to the start of its line, where
/// nothing but blanks stands before it there and a newline before these, and is
/// left as it is otherwise. To the right it reaches over blanks, and over a
/// newline right behind them; what follows is no whitespace, unless a newline
/// was taken.
pub proof fn law_widened_range(src: Seq<u8>, range: Range<usize>)
    requires
        range.start <= src.len() <= usize::MAX,
        range.end <= src.len(),
    ensures
        ({
            let start = with_whitespace(src, range).start as int;
            let end = with_whitespace(src, range).end as int;
            &&& 0 <= start <= range.start
            &&& range.end <= end <= src.len()
            &&& forall|i: int|
                start <= i < range.start ==> #[trigger] src[i] == 32 || src[i] == 9 || src[i] == 12
                    || src[i] == 13
            &&& start < range.start ==> start > 0 && src[start - 1] == 10
            &&& forall|j: int|
                #![trigger src[j]]
                0 <= j < range.start && src[j] == 10 && (forall|i: int|
                    j < i < range.start ==> #[trigger] src[i] == 32 || src[i] == 9 || src[i] == 12
                        || src[i] == 13) ==> start == j + 1
            &&& forall|i: int|
                range.end <= i < end ==> #[trigger] src[i] == 32 || src[i] == 9 || src[i] == 12
                    || src[i] == 13 || (src[i] == 10 && i == end - 1)
            &&& end < src.len() && (src[end] == 32 || (9 <= src[end] <= 13 && src[end] != 11))
                ==> end > range.end && src[end - 1] == 10
        }),
{
    let before = src.take(range.start as int);
    let after = src.skip(range.end as int);
    let start = with_whitespace(src, range).start as int;
    let end = with_whitespace(src, range).end as int;
    law_prefix_boundary(before);
    law_suffix_boundary(after);
    law_widening_adds_whitespace(src, range);
    assert(start == prefix_boundary(before));
    assert(end == range.end + suffix_boundary(after));
    assert forall|i: int| start <= i < range.start implies #[trigger] src[i] == 32 || src[i] == 9
        || src[i] == 12 || src[i] == 13 by {
        assert(before[i] == src[i]);
    }
    if start < range.start {
        assert(before[start - 1] == src[start - 1]);
    }
    assert forall|j: int|
        #![trigger src[j]]
        0 <= j < range.start && src[j] == 10 && (forall|i: int|
            j < i < range.start ==> #[trigger] src[i] == 32 || src[i] == 9 || src[i] == 12 || src[i]
                == 13) implies start == j + 1 by {
        assert(before[j] == src[j]);
        if start < j + 1 {
            assert(is_blank(before[j]));
        } else if start > j + 1 {
            if start < range.start {
                assert(src[start - 1] == 10);
            } else {
                assert(before.last() == src[range.start - 1]);
                assert forall|i: int| j < i < before.len() implies is_whitespace(before[i]) by {
                    assert(before[i] == src[i]);
                }
            }
        }
    }
    assert forall|i: int| range.end <= i < end implies #[trigger] src[i] == 32 || src[i] == 9
        || src[i] == 12 || src[i] == 13 || (src[i] == 10 && i == end - 1) by {
        assert(after[i - range.end] == src[i]);
    }
    if end < src.len() {
        assert(after[end - range.end] == src[end]);
        if end > range.end {
            assert(after[end - range.end - 1] == src[end - 1]);
        }
    }
}

} // verus!
