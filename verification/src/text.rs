//! Text positions: lines, columns and the byte offsets they stand for.
use std::ops::Range;

use vstd::prelude::*;
use vstd::utf8::{
    codepoint_width_2, codepoint_width_3, codepoint_width_4, decode_first_scalar, decode_utf8,
    decode_utf8_encode_utf8, decode_utf8_first_scalar, encode_scalar, encode_utf8,
    has_width_1_encoding,
    has_width_2_encoding, has_width_3_encoding, is_scalar, last_continuation_byte,
    leading_byte_width_1, leading_byte_width_2, leading_byte_width_3, leading_byte_width_4,
    pop_first_scalar, second_last_continuation_byte, take_first_scalar,
    third_last_continuation_byte, valid_first_scalar, valid_utf8,
};

verus! {

/// The byte that ends a line.
pub const NEWLINE: u8 = 0x0a;

/// The character that stands in for bytes that are not UTF-8.
pub const REPLACEMENT: char = '\u{fffd}';

/// A position in a text: a line counted from one, and a column counted in
/// characters from zero.
#[derive(Clone, Copy, Debug, PartialEq, Eq, Structural)]
pub struct LineColumn {
    pub line: usize,
    pub column: usize,
}

/// A stretch of text, from the position of its first character to the position
/// behind its last one.
#[derive(Clone, Copy, Debug, PartialEq, Eq, Structural)]
pub struct Span {
    pub start: LineColumn,
    pub end: LineColumn,
}

/// Whether two byte strings are equal.
pub fn same_bytes(a: &[u8], b: &[u8]) -> (same: bool)
    ensures
        same == (a@ == b@),
{
    if a.len() != b.len() {
        return false;
    }
    let mut i: usize = 0;
    while i < a.len()
        invariant
            i <= a@.len() == b@.len(),
            forall|k: int| 0 <= k < i ==> a@[k] == b@[k],
        decreases a@.len() - i,
    {
        if a[i] != b[i] {
            return false;
        }
        i = i + 1;
    }
    assert(a@ =~= b@);
    true
}

// ---------------------------------------------------------------------------
// Lines of a byte string
// ---------------------------------------------------------------------------

/// The offsets at which the lines of `bytes` begin: zero, and the offset behind
/// each newline.
pub open spec fn line_starts(bytes: Seq<u8>) -> Seq<int>
    decreases bytes.len(),
{
    if bytes.len() == 0 {
        seq![0]
    } else if bytes.last() == NEWLINE {
        line_starts(bytes.drop_last()).push(bytes.len() as int)
    } else {
        line_starts(bytes.drop_last())
    }
}

/// The table of byte offsets at which the lines of `bytes` begin, by which a
/// [`LineColumn`] is turned into an offset.
pub fn line_offsets(bytes: &[u8]) -> (offsets: Vec<usize>)
    ensures
        offsets@.map_values(|offset: usize| offset as int) == line_starts(bytes@),
{
    let mut offsets: Vec<usize> = Vec::new();
    // The first line has no offset.
    offsets.push(0);
    assert(bytes@.take(0) =~= Seq::<u8>::empty());
    let mut pos: usize = 0;
    while pos < bytes.len()
        invariant
            pos <= bytes@.len(),
            offsets@.map_values(|offset: usize| offset as int) =~= line_starts(
                bytes@.take(pos as int),
            ),
        decreases bytes@.len() - pos,
    {
        assert(bytes@.take(pos + 1).drop_last() =~= bytes@.take(pos as int));
        if bytes[pos] == NEWLINE {
            offsets.push(pos + 1);
        }
        pos = pos + 1;
    }
    assert(bytes@.take(pos as int) =~= bytes@);
    offsets
}

/// The lines of a byte string begin at zero and nowhere but behind a newline;
/// each line begins behind the one before it, and none behind the end.
pub proof fn law_line_starts(bytes: Seq<u8>)
    ensures
        line_starts(bytes).len() > 0,
        line_starts(bytes)[0] == 0,
        forall|i: int, j: int|
            0 <= i < j < line_starts(bytes).len() ==> line_starts(bytes)[i] < line_starts(bytes)[j],
        forall|i: int|
            0 < i < line_starts(bytes).len() ==> 0 < #[trigger] line_starts(bytes)[i]
                <= bytes.len() && bytes[line_starts(bytes)[i] - 1] == NEWLINE,
        forall|p: int|
            0 <= p < bytes.len() && bytes[p] == NEWLINE ==> #[trigger] line_starts(bytes).contains(
                p + 1,
            ),
    decreases bytes.len(),
{
    let starts = line_starts(bytes);
    if bytes.len() > 0 {
        let rest = bytes.drop_last();
        let before = line_starts(rest);
        law_line_starts(rest);
        assert forall|i: int| 0 < i < starts.len() implies 0 < #[trigger] starts[i] <= bytes.len()
            && bytes[starts[i] - 1] == NEWLINE by {
            if i < before.len() {
                assert(starts[i] == before[i]);
                assert(rest[before[i] - 1] == NEWLINE);
            }
        }
        assert forall|i: int, j: int| 0 <= i < j < starts.len() implies starts[i] < starts[j] by {
            assert(starts[i] == before[i]);
            if j < before.len() {
                assert(starts[j] == before[j]);
            } else if i > 0 {
                assert(before[i] <= rest.len());
            }
        }
        assert forall|p: int|
            0 <= p < bytes.len() && bytes[p] == NEWLINE implies #[trigger] starts.contains(
            p + 1,
        ) by {
            if p < rest.len() {
                assert(rest[p] == NEWLINE);
                assert(before.contains(p + 1));
                let i = choose|i: int| 0 <= i < before.len() && before[i] == p + 1;
                assert(starts[i] == p + 1);
            } else {
                assert(starts[starts.len() - 1] == p + 1);
            }
        }
    }
}

/// The line starts of a prefix are the first line starts of the whole.
proof fn lemma_line_starts_of_prefix(bytes: Seq<u8>, n: int)
    requires
        0 <= n <= bytes.len(),
    ensures
        line_starts(bytes.take(n)).is_prefix_of(line_starts(bytes)),
    decreases bytes.len() - n,
{
    if n == bytes.len() {
        assert(bytes.take(n) =~= bytes);
    } else {
        assert(bytes.take(n + 1).drop_last() =~= bytes.take(n));
        lemma_line_starts_of_prefix(bytes, n + 1);
    }
}

/// Bytes without a newline begin no line.
proof fn lemma_line_starts_within_line(bytes: Seq<u8>, m: int, n: int)
    requires
        0 <= m <= n <= bytes.len(),
        forall|p: int| m <= p < n ==> bytes[p] != NEWLINE,
    ensures
        line_starts(bytes.take(n)) == line_starts(bytes.take(m)),
    decreases n - m,
{
    if m < n {
        assert(bytes.take(n).drop_last() =~= bytes.take(n - 1));
        lemma_line_starts_within_line(bytes, m, n - 1);
    }
}

// ---------------------------------------------------------------------------
// Positions in a text
// ---------------------------------------------------------------------------

/// The line, counted from one, on which the character at `k` stands.
pub open spec fn line_of(text: Seq<char>, k: int) -> int
    decreases k,
{
    if k <= 0 {
        1
    } else if text[k - 1] == '\n' {
        line_of(text, k - 1) + 1
    } else {
        line_of(text, k - 1)
    }
}

/// How many characters stand before the character at `k` on its line.
pub open spec fn column_of(text: Seq<char>, k: int) -> int
    decreases k,
{
    if k <= 0 || text[k - 1] == '\n' {
        0
    } else {
        column_of(text, k - 1) + 1
    }
}

/// `position` is where the character at `k` stands in `text`.
pub open spec fn stands_at(position: LineColumn, text: Seq<char>, k: int) -> bool {
    position.line == line_of(text, k) && position.column == column_of(text, k)
}

/// `span` is the stretch of `text` from the character at `a` to the one at `b`.
pub open spec fn spans(span: Span, text: Seq<char>, a: int, b: int) -> bool {
    0 <= a <= b <= text.len() && stands_at(span.start, text, a) && stands_at(span.end, text, b)
}

/// `span` is a stretch of `text`.
pub open spec fn in_text(span: Span, text: Seq<char>) -> bool {
    exists|a: int, b: int| spans(span, text, a, b)
}

// ---------------------------------------------------------------------------
// Characters of a byte string
// ---------------------------------------------------------------------------

/// How many bytes the UTF-8 encoding of a character has that begins with `lead`;
/// one where none begins with it.
pub open spec fn encoded_length(lead: u8) -> int {
    if 0xc2 <= lead <= 0xdf {
        2
    } else if 0xe0 <= lead <= 0xef {
        3
    } else if 0xf0 <= lead <= 0xf4 {
        4
    } else {
        1
    }
}

/// Whether `byte` can stand at `place` in an encoding that begins with `lead`.
pub open spec fn can_follow(lead: u8, place: int, byte: u8) -> bool {
    if place == 1 && lead == 0xe0 {
        0xa0 <= byte <= 0xbf
    } else if place == 1 && lead == 0xed {
        0x80 <= byte <= 0x9f
    } else if place == 1 && lead == 0xf0 {
        0x90 <= byte <= 0xbf
    } else if place == 1 && lead == 0xf4 {
        0x80 <= byte <= 0x8f
    } else {
        0x80 <= byte <= 0xbf
    }
}

/// How many bytes at `start` are the beginning of one encoding, where the first
/// `n` are.
pub open spec fn matched_length(bytes: Seq<u8>, start: int, n: int) -> int
    decreases encoded_length(bytes[start]) - n,
{
    if n < encoded_length(bytes[start]) && start + n < bytes.len() && can_follow(
        bytes[start],
        n,
        bytes[start + n],
    ) {
        matched_length(bytes, start, n + 1)
    } else {
        n
    }
}

/// How many bytes the character at `start` has: as many as are the beginning of
/// one encoding. A byte that begins none is a character of its own.
pub open spec fn char_length(bytes: Seq<u8>, start: int) -> int {
    matched_length(bytes, start, 1)
}

/// The offset that lies `count` characters behind `start`, but not behind the
/// end.
pub open spec fn chars_behind(bytes: Seq<u8>, start: int, count: nat) -> int
    decreases count,
{
    if count == 0 || start >= bytes.len() {
        start
    } else {
        chars_behind(bytes, start + char_length(bytes, start), (count - 1) as nat)
    }
}

proof fn lemma_matched_length(bytes: Seq<u8>, start: int, n: int)
    requires
        0 <= start < bytes.len(),
        1 <= n <= bytes.len() - start,
    ensures
        n <= matched_length(bytes, start, n) <= bytes.len() - start,
    decreases encoded_length(bytes[start]) - n,
{
    if n < encoded_length(bytes[start]) && start + n < bytes.len() && can_follow(
        bytes[start],
        n,
        bytes[start + n],
    ) {
        lemma_matched_length(bytes, start, n + 1);
    }
}

proof fn lemma_chars_behind(bytes: Seq<u8>, start: int, count: nat)
    requires
        0 <= start <= bytes.len(),
    ensures
        start <= chars_behind(bytes, start, count) <= bytes.len(),
    decreases count,
{
    if count > 0 && start < bytes.len() {
        lemma_matched_length(bytes, start, 1);
        lemma_chars_behind(bytes, start + char_length(bytes, start), (count - 1) as nat);
    }
}

fn follows(lead: u8, place: usize, byte: u8) -> (yes: bool)
    ensures
        yes == can_follow(lead, place as int, byte),
{
    if place == 1 && lead == 0xe0 {
        0xa0 <= byte && byte <= 0xbf
    } else if place == 1 && lead == 0xed {
        0x80 <= byte && byte <= 0x9f
    } else if place == 1 && lead == 0xf0 {
        0x90 <= byte && byte <= 0xbf
    } else if place == 1 && lead == 0xf4 {
        0x80 <= byte && byte <= 0x8f
    } else {
        0x80 <= byte && byte <= 0xbf
    }
}

/// The number of bytes of the character at `start`.
fn length_of_char(bytes: &[u8], start: usize) -> (length: usize)
    requires
        start < bytes@.len(),
    ensures
        length == char_length(bytes@, start as int),
        1 <= length <= bytes@.len() - start,
{
    let lead = bytes[start];
    let full: usize = if 0xc2 <= lead && lead <= 0xdf {
        2
    } else if 0xe0 <= lead && lead <= 0xef {
        3
    } else if 0xf0 <= lead && lead <= 0xf4 {
        4
    } else {
        1
    };
    let mut n: usize = 1;
    while n < full && n < bytes.len() - start && follows(lead, n, bytes[start + n])
        invariant
            start < bytes@.len(),
            lead == bytes@[start as int],
            full == encoded_length(lead),
            1 <= n <= full,
            n <= bytes@.len() - start,
            matched_length(bytes@, start as int, n as int) == char_length(bytes@, start as int),
        decreases full - n,
    {
        n = n + 1;
    }
    n
}

/// Walks over `count` characters from `start`, but not behind the end.
fn walk_chars(bytes: &[u8], start: usize, count: usize) -> (offset: usize)
    ensures
        offset == chars_behind(bytes@, start as int, count as nat),
{
    let mut offset: usize = start;
    let mut left: usize = count;
    while left > 0 && offset < bytes.len()
        invariant
            chars_behind(bytes@, offset as int, left as nat) == chars_behind(
                bytes@,
                start as int,
                count as nat,
            ),
        decreases left,
    {
        offset = offset + length_of_char(bytes, offset);
        left = left - 1;
    }
    offset
}

// ---------------------------------------------------------------------------
// From positions to byte offsets
// ---------------------------------------------------------------------------

/// The line of `position` begins somewhere in `bytes`.
pub open spec fn position_fits(position: LineColumn, bytes: Seq<u8>) -> bool {
    1 <= position.line <= line_starts(bytes).len()
}

/// Both ends of `span` fit `bytes`.
pub open spec fn span_fits(span: Span, bytes: Seq<u8>) -> bool {
    position_fits(span.start, bytes) && position_fits(span.end, bytes)
}

/// The offset that `position` stands for: as many characters behind the start of
/// its line as its column says.
pub open spec fn byte_offset(position: LineColumn, bytes: Seq<u8>) -> int {
    chars_behind(bytes, line_starts(bytes)[position.line - 1], position.column as nat)
}

/// The bytes from the offset of the start of `span` to that of its end.
pub open spec fn span_range(span: Span, bytes: Seq<u8>) -> Range<usize> {
    Range {
        start: byte_offset(span.start, bytes) as usize,
        end: byte_offset(span.end, bytes) as usize,
    }
}

/// A span that fits stands for a range inside `bytes`.
pub proof fn lemma_fitting_span(span: Span, bytes: Seq<u8>)
    requires
        span_fits(span, bytes),
        bytes.len() <= usize::MAX,
    ensures
        span_range(span, bytes).start == byte_offset(span.start, bytes) <= bytes.len(),
        span_range(span, bytes).end == byte_offset(span.end, bytes) <= bytes.len(),
{
    law_line_starts(bytes);
    let start = line_starts(bytes)[span.start.line - 1];
    let end = line_starts(bytes)[span.end.line - 1];
    assert(0 <= start <= bytes.len());
    assert(0 <= end <= bytes.len());
    lemma_chars_behind(bytes, start, span.start.column as nat);
    lemma_chars_behind(bytes, end, span.end.column as nat);
}

/// The exact range of offsets in `bytes` that `span` stands for, by a table of
/// the offsets at which lines begin. Columns count characters, so the
/// characters of a line are walked over.
pub fn to_range(bytes: &[u8], offsets: &[usize], span: Span) -> (range: Range<usize>)
    requires
        1 <= span.start.line <= offsets@.len(),
        1 <= span.end.line <= offsets@.len(),
    ensures
        range.start == chars_behind(
            bytes@,
            offsets@[span.start.line - 1] as int,
            span.start.column as nat,
        ),
        range.end == chars_behind(
            bytes@,
            offsets@[span.end.line - 1] as int,
            span.end.column as nat,
        ),
        offsets@.map_values(|offset: usize| offset as int) == line_starts(bytes@) ==> range
            == span_range(span, bytes@),
        offsets@.map_values(|offset: usize| offset as int) == line_starts(bytes@) && valid_utf8(
            bytes@,
        ) ==> forall|a: int, b: int| #[trigger]
            spans(span, decode_utf8(bytes@), a, b) ==> range.start == encode_utf8(
                decode_utf8(bytes@).take(a),
            ).len() && range.end == encode_utf8(decode_utf8(bytes@).take(b)).len(),
{
    let range = Range {
        start: walk_chars(bytes, offsets[span.start.line - 1], span.start.column),
        end: walk_chars(bytes, offsets[span.end.line - 1], span.end.column),
    };
    proof {
        let starts = offsets@.map_values(|offset: usize| offset as int);
        if starts == line_starts(bytes@) {
            assert(starts[span.start.line - 1] == offsets@[span.start.line - 1]);
            assert(starts[span.end.line - 1] == offsets@[span.end.line - 1]);
            if valid_utf8(bytes@) {
                assert(bytes@.len() == bytes.len());
                let text = decode_utf8(bytes@);
                assert forall|a: int, b: int| #[trigger] spans(span, text, a, b) implies range.start
                    == encode_utf8(text.take(a)).len() && range.end == encode_utf8(
                    text.take(b),
                ).len() by {
                    law_spans_are_exact(bytes@, text, span, a, b);
                }
            }
        }
    }
    range
}

// ---------------------------------------------------------------------------
// From bytes to text
// ---------------------------------------------------------------------------

/// `piece` is how the character `c` comes out of a byte string: either the
/// UTF-8 encoding of `c`, or bytes that are not UTF-8, none of them ASCII, for
/// which a replacement character stands in.
pub open spec fn spells(piece: Seq<u8>, c: char) -> bool {
    ||| piece == encode_scalar(c as u32)
    ||| {
        &&& c == REPLACEMENT
        &&& piece.len() > 0
        &&& !valid_utf8(piece)
        &&& forall|p: int| 0 <= p < piece.len() ==> piece[p] >= 0x80
    }
}

/// Cut at `cuts`, the bytes fall into one piece for each character of `text`.
pub open spec fn cut_into(bytes: Seq<u8>, text: Seq<char>, cuts: Seq<int>) -> bool {
    &&& cuts.len() == text.len() + 1
    &&& cuts[0] == 0
    &&& cuts[text.len() as int] == bytes.len()
    &&& forall|i: int|
        #![trigger text[i]]
        0 <= i < text.len() ==> 0 <= cuts[i] <= cuts[i + 1] <= bytes.len() && spells(
            bytes.subrange(cuts[i], cuts[i + 1]),
            text[i],
        )
}

/// `text` is what `bytes` hold, with replacement characters for what is not
/// UTF-8.
pub open spec fn holds_text(bytes: Seq<u8>, text: Seq<char>) -> bool {
    exists|cuts: Seq<int>| cut_into(bytes, text, cuts)
}

/// What [`String::from_utf8_lossy`] makes of `bytes`.
pub uninterp spec fn lossy_text(bytes: Seq<u8>) -> Seq<char>;

/// [`String::from_utf8_lossy`]: the text that the bytes encode, where they are
/// UTF-8; where they are not, each invalid sequence is replaced by one
/// replacement character. An ASCII byte is valid wherever it stands, so no
/// invalid sequence holds one. How long an invalid sequence is taken to be is
/// left open.
#[verifier::external_body]
pub(crate) fn from_utf8_lossy(bytes: &[u8]) -> (text: String)
    ensures
        text@ == lossy_text(bytes@),
        holds_text(bytes@, text@),
        valid_utf8(bytes@) ==> text@ == decode_utf8(bytes@),
{
    String::from_utf8_lossy(bytes).into_owned()
}

/// The encoding of a character has one to four bytes, one only for an ASCII
/// character, which then is the byte; the bytes of any other are not ASCII.
proof fn lemma_encode_scalar(c: char)
    ensures
        1 <= encode_scalar(c as u32).len() <= 4,
        (c as u32) < 0x80 ==> encode_scalar(c as u32) == seq![c as u8],
        (c as u32) >= 0x80 ==> encode_scalar(c as u32).len() > 1 && forall|p: int|
            0 <= p < encode_scalar(c as u32).len() ==> #[trigger] encode_scalar(
            c as u32,
        )[p] >= 0x80,
{
    let v = c as u32;
    assert(is_scalar(v));
    if has_width_1_encoding(v) {
        assert(leading_byte_width_1(v) == v as u8) by (bit_vector)
            requires
                v <= 0x7f,
        ;
        assert(v as u8 == c as u8);
    } else {
        assert(leading_byte_width_2(v) >= 0x80) by (bit_vector);
        assert(leading_byte_width_3(v) >= 0x80) by (bit_vector);
        assert(leading_byte_width_4(v) >= 0x80) by (bit_vector);
        assert(last_continuation_byte(v) >= 0x80) by (bit_vector);
        assert(second_last_continuation_byte(v) >= 0x80) by (bit_vector);
        assert(third_last_continuation_byte(v) >= 0x80) by (bit_vector);
    }
}

/// A piece is never empty; a newline is spelled by the newline byte, and no
/// other piece holds that byte.
proof fn lemma_spells(piece: Seq<u8>, c: char)
    requires
        spells(piece, c),
    ensures
        piece.len() > 0,
        c == '\n' ==> piece == seq![NEWLINE],
        c != '\n' ==> forall|p: int| 0 <= p < piece.len() ==> piece[p] != NEWLINE,
{
    lemma_encode_scalar(c);
    if piece == encode_scalar(c as u32) {
        if c != '\n' && (c as u32) < 0x80 {
            assert(c as u8 != NEWLINE);
        }
    }
}

/// Up to the character at `k`, the bytes begin as many lines as the text; where
/// that character begins a line, so do the bytes.
proof fn lemma_position_in_bytes(bytes: Seq<u8>, text: Seq<char>, cuts: Seq<int>, k: int)
    requires
        cut_into(bytes, text, cuts),
        0 <= k <= text.len(),
    ensures
        0 <= cuts[k] <= bytes.len(),
        line_starts(bytes.take(cuts[k])).len() == line_of(text, k),
        column_of(text, k) == 0 ==> line_starts(bytes.take(cuts[k])).last() == cuts[k],
    decreases k,
{
    if k == 0 {
        assert(bytes.take(0) =~= Seq::<u8>::empty());
        assert(0 < text.len() ==> text[0] == text[0]);
    } else {
        lemma_position_in_bytes(bytes, text, cuts, k - 1);
        let m = cuts[k - 1];
        let n = cuts[k];
        let c = text[k - 1];
        let piece = bytes.subrange(m, n);
        lemma_spells(piece, c);
        if c == '\n' {
            assert(piece.len() == 1);
            assert(piece[0] == bytes[m]);
            assert(bytes.take(n).drop_last() =~= bytes.take(m));
        } else {
            assert forall|p: int| m <= p < n implies bytes[p] != NEWLINE by {
                assert(piece[p - m] == bytes[p]);
            }
            lemma_line_starts_within_line(bytes, m, n);
            lemma_column(text, k - 1);
        }
    }
}

/// A character stands as many characters behind the start of its line as its
/// column says.
proof fn lemma_column(text: Seq<char>, k: int)
    requires
        0 <= k <= text.len(),
    ensures
        0 <= column_of(text, k) <= k,
        column_of(text, k - column_of(text, k)) == 0,
        line_of(text, k - column_of(text, k)) == line_of(text, k),
    decreases k,
{
    if k > 0 && text[k - 1] != '\n' {
        lemma_column(text, k - 1);
    }
}

/// A text has no more characters than the bytes that hold it.
pub proof fn law_text_no_longer_than_bytes(bytes: Seq<u8>, text: Seq<char>)
    requires
        holds_text(bytes, text),
    ensures
        text.len() <= bytes.len(),
{
    let cuts = choose|cuts: Seq<int>| cut_into(bytes, text, cuts);
    lemma_cuts_grow(bytes, text, cuts, text.len() as int);
}

proof fn lemma_cuts_grow(bytes: Seq<u8>, text: Seq<char>, cuts: Seq<int>, k: int)
    requires
        cut_into(bytes, text, cuts),
        0 <= k <= text.len(),
    ensures
        cuts[k] >= k,
    decreases k,
{
    if k > 0 {
        lemma_cuts_grow(bytes, text, cuts, k - 1);
        lemma_spells(bytes.subrange(cuts[k - 1], cuts[k]), text[k - 1]);
    }
}

/// Each stretch of the text that `bytes` hold stands for a range inside
/// `bytes`, whatever characters they encode and whether or not they are UTF-8.
pub proof fn law_spans_fit(bytes: Seq<u8>, text: Seq<char>, span: Span)
    requires
        holds_text(bytes, text),
        in_text(span, text),
    ensures
        span_fits(span, bytes),
{
    let cuts = choose|cuts: Seq<int>| cut_into(bytes, text, cuts);
    let (a, b) = choose|a: int, b: int| spans(span, text, a, b);
    lemma_position_fits(bytes, text, cuts, span.start, a);
    lemma_position_fits(bytes, text, cuts, span.end, b);
}

proof fn lemma_position_fits(
    bytes: Seq<u8>,
    text: Seq<char>,
    cuts: Seq<int>,
    position: LineColumn,
    k: int,
)
    requires
        cut_into(bytes, text, cuts),
        0 <= k <= text.len(),
        stands_at(position, text, k),
    ensures
        position_fits(position, bytes),
{
    lemma_position_in_bytes(bytes, text, cuts, k);
    lemma_line_starts_of_prefix(bytes, cuts[k]);
    law_line_starts(bytes.take(cuts[k]));
}

/// The characters before the one at `k` on its line are spelled by their UTF-8
/// encodings.
pub open spec fn encoded_on_line(bytes: Seq<u8>, text: Seq<char>, cuts: Seq<int>, k: int) -> bool {
    forall|i: int|
        #![trigger text[i]]
        k - column_of(text, k) <= i < k ==> bytes.subrange(cuts[i], cuts[i + 1]) == encode_scalar(
            text[i] as u32,
        )
}

/// A stretch of text stands for the bytes of exactly its own characters, where
/// the bytes before its ends on their lines are UTF-8, whatever stands on other
/// lines.
pub proof fn law_spans_are_exact_on_lines(
    bytes: Seq<u8>,
    text: Seq<char>,
    cuts: Seq<int>,
    span: Span,
    a: int,
    b: int,
)
    requires
        cut_into(bytes, text, cuts),
        bytes.len() <= usize::MAX,
        spans(span, text, a, b),
        encoded_on_line(bytes, text, cuts, a),
        encoded_on_line(bytes, text, cuts, b),
    ensures
        span_range(span, bytes).start == cuts[a],
        span_range(span, bytes).end == cuts[b],
{
    lemma_exact_offset(bytes, text, cuts, span.start, a);
    lemma_exact_offset(bytes, text, cuts, span.end, b);
}

/// Where a byte string is UTF-8, a stretch of its text stands for the bytes of
/// exactly its own characters.
pub proof fn law_spans_are_exact(bytes: Seq<u8>, text: Seq<char>, span: Span, a: int, b: int)
    requires
        valid_utf8(bytes),
        text == decode_utf8(bytes),
        bytes.len() <= usize::MAX,
        spans(span, text, a, b),
    ensures
        span_range(span, bytes).start == encode_utf8(text.take(a)).len(),
        span_range(span, bytes).end == encode_utf8(text.take(b)).len(),
        span_range(span, bytes).start <= span_range(span, bytes).end <= bytes.len(),
        bytes.subrange(
            span_range(span, bytes).start as int,
            span_range(span, bytes).end as int,
        ) == encode_utf8(text.subrange(a, b)),
{
    let cuts = encoded_cuts(text);
    decode_utf8_encode_utf8(bytes);
    lemma_encoded_cuts(text);
    lemma_column(text, a);
    lemma_column(text, b);
    assert(encoded_on_line(bytes, text, cuts, a));
    assert(encoded_on_line(bytes, text, cuts, b));
    law_spans_are_exact_on_lines(bytes, text, cuts, span, a, b);
    lemma_encoded_stretch(text, a, b);
}

/// The encoding of a stretch of a text stands between the cuts at its ends.
proof fn lemma_encoded_stretch(text: Seq<char>, a: int, b: int)
    requires
        0 <= a <= b <= text.len(),
    ensures
        encode_utf8(text.take(a)).len() <= encode_utf8(text.take(b)).len() <= encode_utf8(
            text,
        ).len(),
        encode_utf8(text).subrange(
            encode_utf8(text.take(a)).len() as int,
            encode_utf8(text.take(b)).len() as int,
        ) == encode_utf8(text.subrange(a, b)),
{
    assert(text.take(b) =~= text.take(a) + text.subrange(a, b));
    assert(text =~= text.take(b) + text.skip(b));
    lemma_encode_parts(text.take(a), text.subrange(a, b));
    lemma_encode_parts(text.take(b), text.skip(b));
    assert(encode_utf8(text).subrange(
        encode_utf8(text.take(a)).len() as int,
        encode_utf8(text.take(b)).len() as int,
    ) =~= encode_utf8(text.subrange(a, b)));
}

proof fn lemma_exact_offset(
    bytes: Seq<u8>,
    text: Seq<char>,
    cuts: Seq<int>,
    position: LineColumn,
    k: int,
)
    requires
        cut_into(bytes, text, cuts),
        0 <= k <= text.len(),
        stands_at(position, text, k),
        encoded_on_line(bytes, text, cuts, k),
    ensures
        byte_offset(position, bytes) == cuts[k],
        0 <= cuts[k] <= bytes.len(),
{
    let start = k - column_of(text, k);
    lemma_column(text, k);
    lemma_position_in_bytes(bytes, text, cuts, k);
    lemma_position_in_bytes(bytes, text, cuts, start);
    lemma_line_starts_of_prefix(bytes, cuts[start]);
    law_line_starts(bytes.take(cuts[start]));
    let prefix = line_starts(bytes.take(cuts[start]));
    assert(prefix[position.line - 1] == line_starts(bytes)[position.line - 1]);
    lemma_walk_over_encodings(bytes, text, cuts, start, k);
}

/// Walking over encodings leads from the first character to the last one.
proof fn lemma_walk_over_encodings(
    bytes: Seq<u8>,
    text: Seq<char>,
    cuts: Seq<int>,
    m: int,
    k: int,
)
    requires
        cut_into(bytes, text, cuts),
        0 <= m <= k <= text.len(),
        forall|i: int|
            #![trigger text[i]]
            m <= i < k ==> bytes.subrange(cuts[i], cuts[i + 1]) == encode_scalar(text[i] as u32),
    ensures
        chars_behind(bytes, cuts[m], (k - m) as nat) == cuts[k],
    decreases k - m,
{
    if m < k {
        let c = text[m];
        assert(0 <= cuts[m] <= cuts[m + 1] <= bytes.len());
        lemma_encode_scalar(c);
        lemma_char_length(bytes, cuts[m], c);
        lemma_walk_over_encodings(bytes, text, cuts, m + 1, k);
    }
}

/// Where the encoding of a character stands, the character there has just its
/// bytes.
proof fn lemma_char_length(bytes: Seq<u8>, start: int, c: char)
    requires
        0 <= start,
        start + encode_scalar(c as u32).len() <= bytes.len(),
        bytes.subrange(start, start + encode_scalar(c as u32).len()) == encode_scalar(c as u32),
    ensures
        char_length(bytes, start) == encode_scalar(c as u32).len(),
{
    let v = c as u32;
    let piece = encode_scalar(v);
    let found = bytes.subrange(start, start + piece.len());
    assert(is_scalar(v));
    reveal_with_fuel(matched_length, 4);
    assert(found[0] == bytes[start]);
    if has_width_1_encoding(v) {
        assert(leading_byte_width_1(v) <= 0x7f) by (bit_vector);
    } else if has_width_2_encoding(v) {
        assert(found[1] == bytes[start + 1]);
        let lead = leading_byte_width_2(v);
        let last = last_continuation_byte(v);
        assert(0xc2 <= lead <= 0xdf && 0x80 <= last <= 0xbf) by (bit_vector)
            requires
                0x80 <= v <= 0x7ff,
                lead == 0xc0 | ((v >> 6) & 0x1f) as u8,
                last == 0x80 | (v & 0x3f) as u8,
        ;
    } else if has_width_3_encoding(v) {
        assert(found[1] == bytes[start + 1]);
        assert(found[2] == bytes[start + 2]);
        let lead = leading_byte_width_3(v);
        let second = second_last_continuation_byte(v);
        let last = last_continuation_byte(v);
        assert(0xe0 <= lead <= 0xef && 0x80 <= second <= 0xbf && 0x80 <= last <= 0xbf && (lead
            == 0xe0 ==> 0xa0 <= second) && (lead == 0xed ==> second <= 0x9f)) by (bit_vector)
            requires
                0x800 <= v <= 0xffff,
                v < 0xd800 || v > 0xdfff,
                lead == 0xe0 | ((v >> 12) & 0x0f) as u8,
                second == 0x80 | ((v >> 6) & 0x3f) as u8,
                last == 0x80 | (v & 0x3f) as u8,
        ;
    } else {
        assert(found[1] == bytes[start + 1]);
        assert(found[2] == bytes[start + 2]);
        assert(found[3] == bytes[start + 3]);
        let lead = leading_byte_width_4(v);
        let second = third_last_continuation_byte(v);
        let third = second_last_continuation_byte(v);
        let last = last_continuation_byte(v);
        assert(0xf0 <= lead <= 0xf4 && 0x80 <= second <= 0xbf && 0x80 <= third <= 0xbf && 0x80
            <= last <= 0xbf && (lead == 0xf0 ==> 0x90 <= second) && (lead == 0xf4 ==> second
            <= 0x8f)) by (bit_vector)
            requires
                0x10000 <= v <= 0x10ffff,
                lead == 0xf0 | ((v >> 18) & 0x7) as u8,
                second == 0x80 | ((v >> 12) & 0x3f) as u8,
                third == 0x80 | ((v >> 6) & 0x3f) as u8,
                last == 0x80 | (v & 0x3f) as u8,
        ;
    }
}

/// Where the characters of a text are cut in its encoding.
spec fn encoded_cuts(text: Seq<char>) -> Seq<int> {
    Seq::new(text.len() + 1, |i: int| encode_utf8(text.take(i)).len() as int)
}

/// The encoding of two parts is the encodings of the parts.
proof fn lemma_encode_parts(first: Seq<char>, second: Seq<char>)
    ensures
        encode_utf8(first + second) == encode_utf8(first) + encode_utf8(second),
    decreases first.len(),
{
    if first.len() == 0 {
        assert(first + second =~= second);
        assert(encode_utf8(first) + encode_utf8(second) =~= encode_utf8(second));
    } else {
        assert((first + second).drop_first() =~= first.drop_first() + second);
        lemma_encode_parts(first.drop_first(), second);
        assert(encode_utf8(first + second) =~= encode_utf8(first) + encode_utf8(second));
    }
}

/// The encoding of a text falls into the encodings of its characters.
proof fn lemma_encoded_cuts(text: Seq<char>)
    ensures
        cut_into(encode_utf8(text), text, encoded_cuts(text)),
        forall|i: int|
            #![trigger text[i]]
            0 <= i < text.len() ==> encode_utf8(text).subrange(
                encoded_cuts(text)[i],
                encoded_cuts(text)[i + 1],
            ) == encode_scalar(text[i] as u32),
{
    let bytes = encode_utf8(text);
    let cuts = encoded_cuts(text);
    assert(text.take(0) =~= Seq::<char>::empty());
    assert(text.take(text.len() as int) =~= text);
    assert(cuts[0] == 0);
    assert(cuts[text.len() as int] == bytes.len());
    assert forall|i: int| #![trigger text[i]] 0 <= i < text.len() implies 0 <= cuts[i] <= cuts[i + 1]
        <= bytes.len() && bytes.subrange(cuts[i], cuts[i + 1]) == encode_scalar(
        text[i] as u32,
    ) by {
        let one = text.subrange(i, i + 1);
        lemma_encoded_stretch(text, i, i + 1);
        assert(one.drop_first() =~= Seq::<char>::empty());
        reveal_with_fuel(encode_utf8, 2);
        assert(encode_utf8(one) =~= encode_scalar(text[i] as u32));
    }
    assert forall|i: int| 0 <= i < text.len() implies 0 <= #[trigger] cuts[i] <= cuts[i + 1]
        <= bytes.len() by {
        assert(bytes.subrange(cuts[i], cuts[i + 1]) == encode_scalar(text[i] as u32));
    }
}

// ---------------------------------------------------------------------------
// What positions mean
// ---------------------------------------------------------------------------

/// A character is on the line after as many newlines as stand before it, and its
/// column is the number of characters behind the last of these.
pub proof fn law_positions(text: Seq<char>, k: int)
    requires
        0 <= k <= text.len(),
    ensures
        line_of(text, 0) == 1,
        k < text.len() ==> line_of(text, k + 1) == line_of(text, k) + (if text[k] == '\n' {
            1int
        } else {
            0int
        }),
        0 <= column_of(text, k) <= k,
        column_of(text, k) < k ==> text[k - column_of(text, k) - 1] == '\n',
        forall|i: int| k - column_of(text, k) <= i < k ==> #[trigger] text[i] != '\n',
    decreases k,
{
    if k > 0 {
        law_positions(text, k - 1);
    }
}

/// A table of line offsets has one line more than there are newlines, and each
/// line but the first begins behind one.
pub proof fn law_lines_and_newlines(bytes: Seq<u8>, more: u8)
    ensures
        line_starts(Seq::empty()) == seq![0int],
        line_starts(bytes.push(more)) == if more == 10 {
            line_starts(bytes).push(bytes.len() as int + 1)
        } else {
            line_starts(bytes)
        },
{
    assert(bytes.push(more).drop_last() =~= bytes);
}

/// A character of a byte string is the longest run of its bytes that an encoding
/// begins with, and a single byte where none begins with it.
pub proof fn law_char_length(bytes: Seq<u8>, start: int)
    requires
        0 <= start < bytes.len(),
    ensures
        1 <= char_length(bytes, start) <= bytes.len() - start,
        char_length(bytes, start) > 1 ==> exists|c: char|
            bytes.subrange(start, start + char_length(bytes, start)).is_prefix_of(
                #[trigger] encode_scalar(c as u32),
            ),
        forall|c: char, n: int|
            0 < n <= bytes.len() - start && #[trigger] bytes.subrange(
                start,
                start + n,
            ).is_prefix_of(encode_scalar(c as u32)) ==> n <= char_length(bytes, start),
{
    lemma_matched_length(bytes, start, 1);
    let found = bytes.subrange(start, start + char_length(bytes, start));
    if char_length(bytes, start) > 1 {
        lemma_matched_bytes(bytes, start, 1);
        assert forall|k: int| 1 <= k < found.len() implies can_follow(
            found[0],
            k,
            #[trigger] found[k],
        ) by {
            assert(found[k] == bytes[start + k]);
        }
        lemma_prefix_of_encoding(found);
    }
    assert forall|c: char, n: int|
        0 < n <= bytes.len() - start && #[trigger] bytes.subrange(start, start + n).is_prefix_of(
            encode_scalar(c as u32),
        ) implies n <= char_length(bytes, start) by {
        lemma_encoding_follows(c);
        let piece = bytes.subrange(start, start + n);
        let whole = encode_scalar(c as u32);
        assert(piece[0] == whole[0]);
        assert forall|k: int| 1 <= k < n implies can_follow(
            bytes[start],
            k,
            #[trigger] bytes[start + k],
        ) by {
            assert(piece[k] == whole[k]);
            assert(can_follow(whole[0], k, whole[k]));
        }
        lemma_match_reaches(bytes, start, 1, n);
    }
}

/// Walking over no characters leads nowhere, and over one more leads behind the
/// next one, or stays at the end.
pub proof fn law_chars_behind(bytes: Seq<u8>, start: int, count: nat)
    requires
        0 <= start <= bytes.len(),
    ensures
        chars_behind(bytes, start, 0) == start,
        chars_behind(bytes, start, count + 1) == ({
            let at = chars_behind(bytes, start, count);
            if at < bytes.len() {
                at + char_length(bytes, at)
            } else {
                at
            }
        }),
    decreases count,
{
    if count == 0 {
        reveal_with_fuel(chars_behind, 2);
    } else if start < bytes.len() {
        lemma_matched_length(bytes, start, 1);
        law_chars_behind(bytes, start + char_length(bytes, start), (count - 1) as nat);
    }
}

/// The bytes that were matched can stand where they stand.
proof fn lemma_matched_bytes(bytes: Seq<u8>, start: int, n: int)
    requires
        0 <= start < bytes.len(),
        1 <= n <= bytes.len() - start,
        n <= encoded_length(bytes[start]),
        forall|k: int|
            1 <= k < n ==> can_follow(bytes[start], k, #[trigger] bytes[start + k]),
    ensures
        n <= matched_length(bytes, start, n) <= encoded_length(bytes[start]),
        forall|k: int|
            1 <= k < matched_length(bytes, start, n) ==> can_follow(
                bytes[start],
                k,
                #[trigger] bytes[start + k],
            ),
    decreases encoded_length(bytes[start]) - n,
{
    if n < encoded_length(bytes[start]) && start + n < bytes.len() && can_follow(
        bytes[start],
        n,
        bytes[start + n],
    ) {
        assert forall|k: int| 1 <= k < n + 1 implies can_follow(
            bytes[start],
            k,
            #[trigger] bytes[start + k],
        ) by {
            if k == n {
                assert(bytes[start + k] == bytes[start + n]);
            }
        }
        lemma_matched_bytes(bytes, start, n + 1);
    }
}

/// Bytes that can stand where they stand are all matched.
proof fn lemma_match_reaches(bytes: Seq<u8>, start: int, n: int, m: int)
    requires
        0 <= start < bytes.len(),
        1 <= n <= m <= bytes.len() - start,
        m <= encoded_length(bytes[start]),
        forall|k: int| 1 <= k < m ==> can_follow(bytes[start], k, #[trigger] bytes[start + k]),
    ensures
        m <= matched_length(bytes, start, n),
    decreases m - n,
{
    if n < m {
        assert(can_follow(bytes[start], n, bytes[start + n]));
        lemma_match_reaches(bytes, start, n + 1, m);
    } else if n < encoded_length(bytes[start]) && start + n < bytes.len() && can_follow(
        bytes[start],
        n,
        bytes[start + n],
    ) {
        lemma_matched_length(bytes, start, n);
    }
}

/// The bytes of an encoding can stand where they stand.
proof fn lemma_encoding_follows(c: char)
    ensures
        ({
            let piece = encode_scalar(c as u32);
            &&& piece.len() == encoded_length(piece[0])
            &&& forall|k: int|
                1 <= k < piece.len() ==> can_follow(piece[0], k, #[trigger] piece[k])
        }),
{
    let piece = encode_scalar(c as u32);
    lemma_encode_scalar(c);
    assert(piece.subrange(0, piece.len() as int) =~= piece);
    lemma_char_length(piece, 0, c);
    assert(1 <= encoded_length(piece[0]) <= 4);
    lemma_matched_bytes(piece, 0, 1);
    assert forall|k: int| 1 <= k < piece.len() implies can_follow(
        piece[0],
        k,
        #[trigger] piece[k],
    ) by {
        assert(piece[0 + k] == piece[k]);
    }
    let v = c as u32;
    assert(is_scalar(v));
    if has_width_1_encoding(v) {
        assert(leading_byte_width_1(v) <= 0x7f) by (bit_vector);
    } else if has_width_2_encoding(v) {
        assert(leading_byte_width_2(v) <= 0xdf) by (bit_vector);
    } else if has_width_3_encoding(v) {
        assert(leading_byte_width_3(v) <= 0xef) by (bit_vector);
    }
}

/// Bytes that can stand where they stand are the beginning of an encoding.
proof fn lemma_prefix_of_encoding(found: Seq<u8>)
    requires
        1 < found.len() <= encoded_length(found[0]),
        forall|k: int| 1 <= k < found.len() ==> can_follow(found[0], k, #[trigger] found[k]),
    ensures
        exists|c: char| found.is_prefix_of(#[trigger] encode_scalar(c as u32)),
{
    let full = found + Seq::new(
        (encoded_length(found[0]) - found.len()) as nat,
        |i: int| 0x80u8,
    );
    let (a, b) = (full[0], full[1]);
    assert(can_follow(a, 1, found[1]));
    if encoded_length(a) == 2 {
        assert(0x80 <= codepoint_width_2(a, b) <= 0x7ff) by (bit_vector)
            requires
                0xc2 <= a <= 0xdf,
                0x80 <= b <= 0xbf,
        ;
    } else if encoded_length(a) == 3 {
        let c = full[2];
        if found.len() > 2 {
            assert(can_follow(a, 2, found[2]));
        }
        let e = codepoint_width_3(a, b, c);
        assert(0x800 <= e <= 0xffff && !(0xd800 <= e <= 0xdfff)) by (bit_vector)
            requires
                0xe0 <= a <= 0xef,
                0x80 <= b <= 0xbf,
                0x80 <= c <= 0xbf,
                a == 0xe0 ==> 0xa0 <= b,
                a == 0xed ==> b <= 0x9f,
                e == (((a & 0x0f) as u32) << 12) | (((b & 0x3f) as u32) << 6) | ((c & 0x3f) as u32),
        ;
    } else {
        let c = full[2];
        let d = full[3];
        if found.len() > 2 {
            assert(can_follow(a, 2, found[2]));
        }
        if found.len() > 3 {
            assert(can_follow(a, 3, found[3]));
        }
        let e = codepoint_width_4(a, b, c, d);
        assert(0x10000 <= e <= 0x10ffff) by (bit_vector)
            requires
                0xf0 <= a <= 0xf4,
                0x80 <= b <= 0xbf,
                0x80 <= c <= 0xbf,
                0x80 <= d <= 0xbf,
                a == 0xf0 ==> 0x90 <= b,
                a == 0xf4 ==> b <= 0x8f,
                e == (((a & 0x07) as u32) << 18) | (((b & 0x3f) as u32) << 12) | (((c & 0x3f)
                    as u32) << 6) | ((d & 0x3f) as u32),
        ;
    }
    assert(valid_first_scalar(full));
    assert(pop_first_scalar(full) =~= Seq::<u8>::empty());
    reveal_with_fuel(valid_utf8, 2);
    assert(valid_utf8(full));
    decode_utf8_first_scalar(full);
    let ch = decode_first_scalar(full) as char;
    assert(take_first_scalar(full) =~= full);
    assert(encode_scalar(ch as u32) == full);
    assert(found.is_prefix_of(encode_scalar(ch as u32)));
}

/// A position in the first column stands for the start of its line, and one in
/// the next column for the offset behind the next character.
pub proof fn law_byte_offset(bytes: Seq<u8>, line: usize, column: usize)
    requires
        1 <= line <= line_starts(bytes).len(),
        column < usize::MAX,
    ensures
        byte_offset(LineColumn { line, column: 0 }, bytes) == line_starts(bytes)[line - 1],
        byte_offset(LineColumn { line, column: (column + 1) as usize }, bytes) == ({
            let at = byte_offset(LineColumn { line, column }, bytes);
            if at < bytes.len() {
                at + char_length(bytes, at)
            } else {
                at
            }
        }),
{
    law_line_starts(bytes);
    let start = line_starts(bytes)[line - 1];
    assert(0 <= start <= bytes.len());
    law_chars_behind(bytes, start, column as nat);
}

/// A stretch of text stands for the range between the offsets of its ends.
pub proof fn law_span_range(bytes: Seq<u8>, span: Span)
    requires
        bytes.len() <= usize::MAX,
        1 <= span.start.line <= line_starts(bytes).len(),
        1 <= span.end.line <= line_starts(bytes).len(),
    ensures
        span_range(span, bytes).start as int == byte_offset(span.start, bytes),
        span_range(span, bytes).end as int == byte_offset(span.end, bytes),
{
    lemma_fitting_span(span, bytes);
}

} // verus!
