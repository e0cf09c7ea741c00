use cargo_minify::chunks::{
    delete_chunks, expand_ranges_to_include_whitespace, find_prefix_whitespace,
    find_suffix_whitespace,
};
use cargo_minify::text::{line_offsets, to_range, LineColumn, Span};

#[test]
fn lines_begin_behind_newlines() {
    assert_eq!(line_offsets(b""), vec![0]);
    assert_eq!(line_offsets(b"ab"), vec![0]);
    assert_eq!(line_offsets(b"ab\n"), vec![0, 3]);
    assert_eq!(line_offsets(b"\n\nab\r\ncd"), vec![0, 1, 2, 6]);
}

#[test]
fn a_span_becomes_a_range() {
    let span = Span {
        start: LineColumn { line: 1, column: 2 },
        end: LineColumn { line: 3, column: 4 },
    };
    assert_eq!(to_range(&[b'x'; 30], &[0, 10, 20], span), 2..24);
    // No range reaches behind the end.
    assert_eq!(to_range(&[b'x'; 22], &[0, 10, 20], span), 2..22);
}

#[test]
fn a_column_counts_characters() {
    let on = |line: usize, from: usize, to: usize| Span {
        start: LineColumn { line, column: from },
        end: LineColumn { line, column: to },
    };
    let exact = |bytes: &[u8], span: Span| to_range(bytes, &line_offsets(bytes), span);
    let src = "/*\u{e9}*/fn f() {}".as_bytes();
    assert_eq!(exact(src, on(1, 5, 14)), 6..15);
    // Characters of two, three and four bytes.
    let src = "\u{e9}\n\u{7ff}\u{20ac}\u{ffff}\u{1f600}\u{10ffff}x".as_bytes();
    assert_eq!(exact(src, on(2, 0, 1)), 3..5);
    assert_eq!(exact(src, on(2, 1, 2)), 5..8);
    assert_eq!(exact(src, on(2, 2, 3)), 8..11);
    assert_eq!(exact(src, on(2, 3, 4)), 11..15);
    assert_eq!(exact(src, on(2, 4, 5)), 15..19);
    assert_eq!(exact(src, on(2, 5, 6)), 19..20);
}

#[test]
fn columns_agree_with_lossy_text() {
    // One column for each replacement character that stands for invalid bytes.
    for bytes in [
        &b"a\xffx"[..],
        b"\xe2\x82x",
        b"\xe2\x82\xacx",
        b"\xe2\xe2\x82x",
        b"\x80\x80x",
        b"\xe0\x80x",
        b"\xe0\xa0x",
        b"\xed\xa0\x80x",
        b"\xf0\x80x",
        b"\xf0\x9f\x98x",
        b"\xf0\x9f\x98\x80\x80x",
        b"\xf4\x90x",
        b"\xf5\x80x",
        b"\xc0\x80x",
        b"\xc1\xbfx",
        b"\xc3\xc3\xa9x",
        b"\xef\xbf\xbdx",
    ] {
        let column = String::from_utf8_lossy(bytes).chars().count() - 1;
        let span = Span {
            start: LineColumn { line: 1, column },
            end: LineColumn { line: 1, column: column + 1 },
        };
        assert_eq!(to_range(bytes, &[0], span), bytes.len() - 1..bytes.len(), "{:?}", bytes);
    }
}

#[test]
fn prefix_whitespace() {
    assert_eq!(find_prefix_whitespace(b""), 0);
    assert_eq!(find_prefix_whitespace(b"  "), 2);
    assert_eq!(find_prefix_whitespace(b"fn a() {}  "), 11);
    assert_eq!(find_prefix_whitespace(b"fn a() {}\n"), 10);
    assert_eq!(find_prefix_whitespace(b"fn a() {}\n\t  "), 10);
    assert_eq!(find_prefix_whitespace(b"fn a() {}\n\n\t  "), 11);
    assert_eq!(find_prefix_whitespace(b"\nfn a() {} "), 11);
    assert_eq!(find_prefix_whitespace(b"\n\x0c\r"), 1);
    // A vertical tab is no whitespace.
    assert_eq!(find_prefix_whitespace(b"\n\x0b"), 2);
}

#[test]
fn suffix_whitespace() {
    assert_eq!(find_suffix_whitespace(b""), 0);
    assert_eq!(find_suffix_whitespace(b"   "), 3);
    assert_eq!(find_suffix_whitespace(b"fn a() {}"), 0);
    assert_eq!(find_suffix_whitespace(b"  fn a() {}"), 2);
    assert_eq!(find_suffix_whitespace(b"\t fn a() {}"), 2);
    assert_eq!(find_suffix_whitespace(b"  \n\n"), 3);
    assert_eq!(find_suffix_whitespace(b"\r\n  fn a() {}"), 2);
}

#[test]
fn ranges_take_whitespace_with_them() {
    let src = b"a\n  b \n c";
    assert_eq!(
        expand_ranges_to_include_whitespace(src, vec![4..5, 0..1, 8..9]),
        vec![2..7, 0..2, 7..9]
    );
}

#[test]
fn chunks_may_overlap_and_reach_beyond_the_end() {
    let src = b"0123456789";
    assert_eq!(delete_chunks(src, &[]), src);
    assert_eq!(delete_chunks(src, &[6..8, 1..3, 2..4]), b"04589");
    assert_eq!(delete_chunks(src, &[8..20]), b"01234567");
    assert_eq!(delete_chunks(src, &[20..30]), src);
    assert_eq!(delete_chunks(src, &[5..5]), src);
    let reversed = std::ops::Range { start: 7, end: 3 };
    assert_eq!(delete_chunks(src, &[reversed]), src);
}
