use cargo_minify::parse::parse_source;
use cargo_minify::removal::{delete_empty_blocks, delete_items, item_ranges};
use cargo_minify::search::{find_item, matches_ident};
use cargo_minify::syntax::{Member, MemberShape, Name, Node, Shape};
use cargo_minify::text::{LineColumn, Span};
use cargo_minify::unused::UnusedDiagnosticKind;

fn name(text: &str, line: usize) -> Name {
    Name { text: text.to_owned(), line }
}

fn span(line: usize, from: usize, to: usize) -> Span {
    Span {
        start: LineColumn { line, column: from },
        end: LineColumn { line, column: to },
    }
}

#[test]
fn identifiers_match_by_text_and_line() {
    let foo = name("foo", 3);
    assert!(matches_ident(&foo, &"foo".to_owned(), None));
    assert!(matches_ident(&foo, &"foo".to_owned(), Some(3)));
    assert!(!matches_ident(&foo, &"foo".to_owned(), Some(4)));
    assert!(!matches_ident(&foo, &"fo".to_owned(), None));
}

#[test]
fn the_first_item_that_is_meant_is_found() {
    let items = vec![
        Node { span: span(1, 0, 5), shape: Shape::Fn(name("a", 1)) },
        Node {
            span: span(2, 0, 50),
            shape: Shape::Mod(Some(vec![
                Node { span: span(2, 8, 15), shape: Shape::Const(name("a", 2)) },
                Node {
                    span: span(2, 16, 40),
                    shape: Shape::Impl {
                        attributes: 0,
                        of_trait: false,
                        members: vec![
                            Member { span: span(2, 20, 29), shape: MemberShape::Other },
                            Member { span: span(2, 30, 39), shape: MemberShape::Fn(name("a", 2)) },
                        ],
                    },
                },
            ])),
        },
        Node { span: span(3, 0, 5), shape: Shape::Fn(name("a", 3)) },
    ];
    let a = "a".to_owned();
    let find = |kind: UnusedDiagnosticKind, line: Option<usize>| find_item(&items, &kind, &a, line);
    assert_eq!(find(UnusedDiagnosticKind::Function, None), Some(span(1, 0, 5)));
    assert_eq!(find(UnusedDiagnosticKind::Function, Some(3)), Some(span(3, 0, 5)));
    assert_eq!(find(UnusedDiagnosticKind::Function, Some(2)), None);
    assert_eq!(find(UnusedDiagnosticKind::Constant, None), Some(span(2, 8, 15)));
    assert_eq!(find(UnusedDiagnosticKind::AssociatedFunction, Some(2)), Some(span(2, 30, 39)));
    assert_eq!(find(UnusedDiagnosticKind::Struct, None), None);
}

#[test]
fn moving_items_into_a_module_hides_nothing() {
    let flat = vec![
        Node { span: span(1, 0, 5), shape: Shape::Struct(name("S", 1)) },
        Node { span: span(2, 0, 5), shape: Shape::Macro(Some(name("m", 2))) },
    ];
    let kinds = [
        (UnusedDiagnosticKind::Struct, "S"),
        (UnusedDiagnosticKind::MacroDefinition, "m"),
        (UnusedDiagnosticKind::Union, "S"),
    ];
    let found: Vec<Option<Span>> = kinds
        .iter()
        .map(|(kind, text)| find_item(&flat, kind, &(*text).to_owned(), None))
        .collect();
    assert_eq!(found, vec![Some(span(1, 0, 5)), Some(span(2, 0, 5)), None]);
    let nested = vec![Node { span: span(1, 0, 50), shape: Shape::Mod(Some(flat)) }];
    let found_nested: Vec<Option<Span>> = kinds
        .iter()
        .map(|(kind, text)| find_item(&nested, kind, &(*text).to_owned(), None))
        .collect();
    assert_eq!(found_nested, found);
}

#[test]
fn ranges_come_in_the_order_of_the_diagnostics() {
    let src = b"fn a() {}\nfn b() {}\n";
    let items = vec![
        Node { span: span(1, 0, 9), shape: Shape::Fn(name("a", 1)) },
        Node { span: span(2, 0, 9), shape: Shape::Fn(name("b", 2)) },
    ];
    let wanted = |text: &str| (UnusedDiagnosticKind::Function, text.to_owned(), None);
    assert_eq!(
        item_ranges(src, &items, &[wanted("b"), wanted("c"), wanted("a")]),
        vec![10..19, 0..9]
    );
    assert_eq!(delete_items(src, &items, &[wanted("a")]), b"fn b() {}\n");
}

#[test]
fn empty_blocks_of_given_items_are_deleted() {
    let src = b"impl A {}\nimpl B {}\n";
    let block = |line: usize, attributes: usize, of_trait: bool| Node {
        span: span(line, 0, 9),
        shape: Shape::Impl { attributes, of_trait, members: vec![] },
    };
    assert_eq!(delete_empty_blocks(src, &[block(1, 0, false), block(2, 0, true)]), b"impl B {}\n");
    assert_eq!(delete_empty_blocks(src, &[block(1, 1, false), block(2, 0, false)]), b"impl A {}\n");
}

#[test]
fn a_source_file_is_read_into_its_items() {
    let src = b"const A: u8 = 1;\nmod m {\n    impl T for S {\n        fn f() {}\n    }\n}\nuse x;\n#[x]\nextern \"C\" { static S: u8; }\nm!();\n";
    let nodes = parse_source(src).unwrap();
    assert_eq!(nodes.len(), 5);
    assert_eq!(nodes[0].span, span(1, 0, 16));
    assert!(matches!(&nodes[0].shape, Shape::Const(name) if name.text == "A" && name.line == 1));
    let inner = match &nodes[1].shape {
        Shape::Mod(Some(inner)) => inner,
        other => panic!("{:?}", other),
    };
    assert_eq!(inner.len(), 1);
    match &inner[0].shape {
        Shape::Impl { attributes: 0, of_trait: true, members } => {
            assert_eq!(members.len(), 1);
            assert_eq!(members[0].span, span(4, 8, 17));
            assert!(
                matches!(&members[0].shape, MemberShape::Fn(name) if name.text == "f" && name.line == 4)
            );
        }
        other => panic!("{:?}", other),
    }
    assert!(matches!(nodes[2].shape, Shape::Other));
    match &nodes[3].shape {
        Shape::ForeignMod { attributes: 1, members } => {
            assert_eq!(members[0].span, span(9, 13, 26));
            assert!(matches!(&members[0].shape, MemberShape::Static(name) if name.text == "S"));
        }
        other => panic!("{:?}", other),
    }
    assert!(matches!(nodes[4].shape, Shape::Macro(None)));
}

#[test]
fn texts_that_are_looked_at_again_shift_nothing() {
    let nodes = parse_source(b"const A: u8 = x.0.1.2;\nfn f(a: T) { a.0.1 - -1 }\nconst B: i8 = -1;").unwrap();
    assert_eq!(nodes[0].span, span(1, 0, 22));
    assert_eq!(nodes[1].span, span(2, 0, 25));
    assert_eq!(nodes[2].span, span(3, 0, 17));
    assert!(matches!(&nodes[2].shape, Shape::Const(name) if name.text == "B" && name.line == 3));
}

#[test]
fn each_source_file_is_read_on_its_own() {
    for _ in 0..3 {
        let nodes = parse_source(b"fn a() {}").unwrap();
        assert_eq!(nodes[0].span, span(1, 0, 9));
        assert!(parse_source(b"fn").is_err());
    }
}
