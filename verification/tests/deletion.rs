use cargo_minify::chunks::delete_chunks;
use cargo_minify::removal::{diagnostics_to_ranges, rust_delete};
use cargo_minify::unused::UnusedDiagnosticKind;

// Without a line, names alone decide: those in the inputs are unique.
fn fun(name: &str) -> (UnusedDiagnosticKind, String, Option<usize>) {
    (UnusedDiagnosticKind::Function, name.to_owned(), None)
}

fn constant(name: &str) -> (UnusedDiagnosticKind, String, Option<usize>) {
    (UnusedDiagnosticKind::Constant, name.to_owned(), None)
}

fn struct_(name: &str) -> (UnusedDiagnosticKind, String, Option<usize>) {
    (UnusedDiagnosticKind::Struct, name.to_owned(), None)
}

fn enum_(name: &str) -> (UnusedDiagnosticKind, String, Option<usize>) {
    (UnusedDiagnosticKind::Enum, name.to_owned(), None)
}

fn union_(name: &str) -> (UnusedDiagnosticKind, String, Option<usize>) {
    (UnusedDiagnosticKind::Union, name.to_owned(), None)
}

fn macro_(name: &str) -> (UnusedDiagnosticKind, String, Option<usize>) {
    (UnusedDiagnosticKind::MacroDefinition, name.to_owned(), None)
}

fn assoc_fn(name: &str) -> (UnusedDiagnosticKind, String, Option<usize>) {
    (UnusedDiagnosticKind::AssociatedFunction, name.to_owned(), None)
}

#[test]
fn identifier_to_span() {
    let src = b"fn foo() {}  fn foa() -> i32 { barf; } const FOO: i32 = 42;";
    //          01234567890123456789012345678901234567890123456789012345678
    //                    1         2         3         4         5
    let pos = diagnostics_to_ranges(src, &[fun("foo"), fun("foa"), constant("FOO")]).unwrap();
    assert_eq!(pos, vec![0..11, 13..38, 39..59]);
}

#[test]
fn chunk_deletion() {
    let src = b"fn foo() {}  fn foa() -> i32 { barf; } const FOO: i32 = 42;";
    //          012345678901234567890123456789012345678901234567890123456
    assert_eq!(
        delete_chunks(src, &[5..8]),
        b"fn fo {}  fn foa() -> i32 { barf; } const FOO: i32 = 42;"
    );
}

#[test]
fn deletion() {
    let src = b"fn foo() { }fn foa() -> i32 { barf; }const FOO: i32 = 42;";
    assert_eq!(
        rust_delete(src, &[fun("foo")]).unwrap(),
        b"fn foa() -> i32 { barf; }const FOO: i32 = 42;"
    );
    assert_eq!(
        rust_delete(src, &[fun("foa")]).unwrap(),
        b"fn foo() { }const FOO: i32 = 42;"
    );
    assert_eq!(
        rust_delete(src, &[constant("FOO")]).unwrap(),
        b"fn foo() { }fn foa() -> i32 { barf; }"
    );
}

#[test]
fn type_check() {
    let src = b"fn foo() { }fn foa() -> i32 { barf; }const FOO: i32 = 42;";
    assert_eq!(
        rust_delete(src, &[constant("foo")]).unwrap(),
        b"fn foo() { }fn foa() -> i32 { barf; }const FOO: i32 = 42;"
    );
    assert_eq!(
        rust_delete(src, &[constant("foa")]).unwrap(),
        b"fn foo() { }fn foa() -> i32 { barf; }const FOO: i32 = 42;"
    );
    assert_eq!(
        rust_delete(src, &[fun("FOO")]).unwrap(),
        b"fn foo() { }fn foa() -> i32 { barf; }const FOO: i32 = 42;"
    );
}

#[test]
fn formatting_preserval() {
    let src = b" fn foo(){}  fn foa()  -> huk {  barf; }   const FOO: i32 = 42;  fn bar(){ } ";
    assert_eq!(
        rust_delete(src, &[fun("foo")]).unwrap(),
        b" fn foa()  -> huk {  barf; }   const FOO: i32 = 42;  fn bar(){ } "
    );
    assert_eq!(
        rust_delete(src, &[fun("foa")]).unwrap(),
        b" fn foo(){}  const FOO: i32 = 42;  fn bar(){ } "
    );
    assert_eq!(
        rust_delete(src, &[constant("FOO")]).unwrap(),
        b" fn foo(){}  fn foa()  -> huk {  barf; }   fn bar(){ } "
    );
    assert_eq!(
        rust_delete(src, &[fun("bar")]).unwrap(),
        b" fn foo(){}  fn foa()  -> huk {  barf; }   const FOO: i32 = 42;  "
    );

    assert_eq!(
        rust_delete(src, &[fun("foa"), fun("foo")]).unwrap(),
        b" const FOO: i32 = 42;  fn bar(){ } "
    );
    assert_eq!(
        rust_delete(src, &[fun("foa"), constant("FOO")]).unwrap(),
        b" fn foo(){}  fn bar(){ } "
    );
}

#[test]
fn whitespace_semi_preserval() {
    let src = b" fn foo() {} fn fixme() {} fn main() {}";
    assert_eq!(
        rust_delete(src, &[fun("fixme")]).unwrap(),
        b" fn foo() {} fn main() {}"
    );
    let src = b" fn foo() {} fn fixme() {}fn main() {}";
    assert_eq!(
        rust_delete(src, &[fun("fixme")]).unwrap(),
        b" fn foo() {} fn main() {}"
    );
    let src = b" fn foo() {}fn fixme() {} fn main() {}";
    assert_eq!(
        rust_delete(src, &[fun("fixme")]).unwrap(),
        b" fn foo() {}fn main() {}"
    );
    let src = b" fn foo() {}\nfn fixme() {}\nfn main() {}";
    assert_eq!(
        rust_delete(src, &[fun("fixme")]).unwrap(),
        b" fn foo() {}\nfn main() {}"
    );
    let src = b" fn foo() {}\n\nfn fixme() {}\nfn main() {}";
    assert_eq!(
        rust_delete(src, &[fun("fixme")]).unwrap(),
        b" fn foo() {}\n\nfn main() {}"
    );
    let src = b" fn foo() {}\nfn fixme() {}\n\nfn main() {}";
    assert_eq!(
        rust_delete(src, &[fun("fixme")]).unwrap(),
        b" fn foo() {}\n\nfn main() {}"
    );
    let src = b" fn foo() {}\n\nfn fixme() {}\n\nfn main() {}";
    assert_eq!(
        rust_delete(src, &[fun("fixme")]).unwrap(),
        b" fn foo() {}\n\n\nfn main() {}"
    );

    let src = b"fn foo() {}\n          fn fixme() {}\n   fn main() {}";
    assert_eq!(
        rust_delete(src, &[fun("fixme")]).unwrap(),
        b"fn foo() {}\n   fn main() {}"
    );
}


#[test]
fn nested_const_deletion() {
    let src = b"mod m { const FOO: i32 = 1; }";
    assert_eq!(rust_delete(src, &[constant("FOO")]).unwrap(), b"mod m { }");
}

#[test]
fn nested_enum_deletion() {
    let src = b"mod m { enum E {} }";
    assert_eq!(rust_delete(src, &[enum_("E")]).unwrap(), b"mod m { }");
}

#[test]
fn nested_struct_deletion() {
    let src = b"mod m { struct S; }";
    assert_eq!(rust_delete(src, &[struct_("S")]).unwrap(), b"mod m { }");
}

#[test]
fn nested_union_deletion() {
    let src = b"mod m { union U { a: i32 } }";
    assert_eq!(rust_delete(src, &[union_("U")]).unwrap(), b"mod m { }");
}

#[test]
fn nested_macro_definition_deletion() {
    let src = b"mod m { macro_rules! mac { () => {} } }";
    assert_eq!(rust_delete(src, &[macro_("mac")]).unwrap(), b"mod m { }");
}

#[test]
fn deeply_nested_macro_definition_deletion() {
    let src = b"mod outer { mod inner { macro_rules! mac { () => {} } } }";
    assert_eq!(
        rust_delete(src, &[macro_("mac")]).unwrap(),
        b"mod outer { mod inner { } }"
    );
}

#[test]
fn nested_assoc_fn_deletion() {
    let src = b"mod m { struct S; impl S { fn unused() {} } }";
    assert_eq!(
        rust_delete(src, &[assoc_fn("unused")]).unwrap(),
        b"mod m { struct S; impl S { } }"
    );
}

fn item(kind: UnusedDiagnosticKind, name: &str) -> (UnusedDiagnosticKind, String, Option<usize>) {
    (kind, name.to_owned(), None)
}

#[test]
fn static_and_type_deletion() {
    let src = b"static X: u8 = 1;\ntype T = u8;\n";
    assert_eq!(
        rust_delete(src, &[item(UnusedDiagnosticKind::Static, "X")]).unwrap(),
        b"type T = u8;\n"
    );
    assert_eq!(
        rust_delete(src, &[item(UnusedDiagnosticKind::TypeAlias, "T")]).unwrap(),
        b"static X: u8 = 1;\n"
    );
}

#[test]
fn top_level_kinds_deletion() {
    let src = b"enum E {}\nstruct S;\nunion U { a: i32 }\nmacro_rules! mac { () => {} }\nmac!();\n";
    assert_eq!(
        rust_delete(src, &[enum_("E"), struct_("S"), union_("U"), macro_("mac")]).unwrap(),
        b"mac!();\n"
    );
    // A macro call has no name, so it is no definition of that name.
    assert_eq!(rust_delete(src, &[macro_("")]).unwrap(), src);
}

#[test]
fn foreign_items_deletion() {
    let src = b"extern \"C\" {\n    fn f();\n    static S: u8;\n    type T;\n}\n";
    assert_eq!(
        rust_delete(src, &[fun("f")]).unwrap(),
        b"extern \"C\" {\n    static S: u8;\n    type T;\n}\n"
    );
    assert_eq!(
        rust_delete(src, &[item(UnusedDiagnosticKind::Static, "S")]).unwrap(),
        b"extern \"C\" {\n    fn f();\n    type T;\n}\n"
    );
    assert_eq!(
        rust_delete(src, &[item(UnusedDiagnosticKind::TypeAlias, "T")]).unwrap(),
        b"extern \"C\" {\n    fn f();\n    static S: u8;\n}\n"
    );
    // A foreign function is a function, not an associated one.
    assert_eq!(rust_delete(src, &[assoc_fn("f")]).unwrap(), src);
}

#[test]
fn impl_items_deletion() {
    let src = b"impl S {\n    const C: u8 = 1;\n    type T = u8;\n    fn f() {}\n}\n";
    assert_eq!(
        rust_delete(src, &[constant("C")]).unwrap(),
        b"impl S {\n    type T = u8;\n    fn f() {}\n}\n"
    );
    assert_eq!(
        rust_delete(src, &[item(UnusedDiagnosticKind::TypeAlias, "T")]).unwrap(),
        b"impl S {\n    const C: u8 = 1;\n    fn f() {}\n}\n"
    );
    assert_eq!(
        rust_delete(src, &[assoc_fn("f")]).unwrap(),
        b"impl S {\n    const C: u8 = 1;\n    type T = u8;\n}\n"
    );
    // An associated function is not a function, nor are items of traits found.
    assert_eq!(rust_delete(src, &[fun("f")]).unwrap(), src);
    let src = b"trait T { fn f() {} }";
    assert_eq!(rust_delete(src, &[assoc_fn("f")]).unwrap(), src);
}

#[test]
fn attributes_and_comments_go_with_an_item() {
    let src = b"/// Doc.\n#[inline]\nfn f() {}\n// Comment.\nfn g() {}\n";
    assert_eq!(rust_delete(src, &[fun("f")]).unwrap(), b"// Comment.\nfn g() {}\n");
    assert_eq!(
        rust_delete(src, &[fun("g")]).unwrap(),
        b"/// Doc.\n#[inline]\nfn f() {}\n// Comment.\n"
    );
}

#[test]
fn raw_identifiers_are_spelled_with_their_prefix() {
    let src = b"fn r#match() {}";
    assert_eq!(rust_delete(src, &[fun("r#match")]).unwrap(), b"");
    assert_eq!(rust_delete(src, &[fun("match")]).unwrap(), src);
}

#[test]
fn a_module_in_another_file_holds_nothing() {
    let src = b"mod m;\nfn f() {}";
    assert_eq!(rust_delete(src, &[fun("m")]).unwrap(), src);
    assert_eq!(rust_delete(src, &[fun("f")]).unwrap(), b"mod m;\n");
}

#[test]
fn other_whitespace_goes_up_to_the_next_token() {
    assert_eq!(
        rust_delete(b"fn f() {}\t \tfn g() {}", &[fun("f")]).unwrap(),
        b"fn g() {}"
    );
    assert_eq!(
        rust_delete(b"fn f() {} \t\r\n\tfn g() {}\r\n", &[fun("f")]).unwrap(),
        b"\tfn g() {}\r\n"
    );
    assert_eq!(
        rust_delete(b"fn f() {}\r\n\tfn g() {}\r\n", &[fun("g")]).unwrap(),
        b"fn f() {}\r\n"
    );
}

#[test]
fn the_line_decides_among_items_of_one_name() {
    let src = b"mod m { fn foo() {} }\nfn foo() {}\n";
    let on = |line: usize| (UnusedDiagnosticKind::Function, "foo".to_owned(), Some(line));
    assert_eq!(rust_delete(src, &[on(1)]).unwrap(), b"mod m { }\nfn foo() {}\n");
    assert_eq!(rust_delete(src, &[on(2)]).unwrap(), b"mod m { fn foo() {} }\n");
    assert_eq!(rust_delete(src, &[on(3)]).unwrap(), src);
    assert_eq!(rust_delete(src, &[on(1), on(2)]).unwrap(), b"mod m { }\n");
    // Without a line, it is the first.
    assert_eq!(rust_delete(src, &[fun("foo")]).unwrap(), b"mod m { }\nfn foo() {}\n");
}

#[test]
fn the_line_is_that_of_the_name() {
    let src = b"#[inline]\nfn foo() {}\n";
    let on = |line: usize| (UnusedDiagnosticKind::Function, "foo".to_owned(), Some(line));
    assert_eq!(rust_delete(src, &[on(1)]).unwrap(), src);
    assert_eq!(rust_delete(src, &[on(2)]).unwrap(), b"");
}

#[test]
fn order_and_repetition_are_irrelevant() {
    let src = b"fn a() {}\nfn b() {}\nfn c() {}\n";
    let expected = b"fn b() {}\n";
    assert_eq!(rust_delete(src, &[fun("a"), fun("c")]).unwrap(), expected);
    assert_eq!(rust_delete(src, &[fun("c"), fun("a")]).unwrap(), expected);
    assert_eq!(rust_delete(src, &[fun("c"), fun("a"), fun("c")]).unwrap(), expected);
}

#[test]
fn nothing_wanted_deletes_nothing() {
    let src = b" fn a() {} \n\n";
    assert_eq!(rust_delete(src, &[]).unwrap(), src);
    assert_eq!(rust_delete(b"", &[fun("a")]).unwrap(), b"");
}

#[test]
fn ranges_are_exact_in_any_text() {
    let src = "/* \u{e9} */ fn a() {}\n".as_bytes();
    assert_eq!(diagnostics_to_ranges(src, &[fun("a")]).unwrap(), vec![9..18]);
    let src = "// \u{e9}\nfn a() {}\n".as_bytes();
    assert_eq!(diagnostics_to_ranges(src, &[fun("a")]).unwrap(), vec![6..15]);
    assert_eq!(rust_delete(src, &[fun("a")]).unwrap(), "// \u{e9}\n".as_bytes());
    let src = "/*\u{e9}*/fn f() {}".as_bytes();
    assert_eq!(diagnostics_to_ranges(src, &[fun("f")]).unwrap(), vec![6..15]);
    assert_eq!(rust_delete(src, &[fun("f")]).unwrap(), "/*\u{e9}*/".as_bytes());
    // The item itself may hold any text, and so may what follows.
    let src = "mod m { fn \u{f6}() { \"\u{1f600}\" } const C: char = '\u{20ac}'; } // \u{e9}".as_bytes();
    assert_eq!(
        rust_delete(src, &[fun("\u{f6}")]).unwrap(),
        "mod m { const C: char = '\u{20ac}'; } // \u{e9}".as_bytes()
    );
    assert_eq!(
        rust_delete(src, &[constant("C")]).unwrap(),
        "mod m { fn \u{f6}() { \"\u{1f600}\" } } // \u{e9}".as_bytes()
    );
    // A byte order mark counts as a character.
    let src = "\u{feff}fn f() {}\nfn g() {}".as_bytes();
    assert_eq!(rust_delete(src, &[fun("f")]).unwrap(), "\u{feff}fn g() {}".as_bytes());
}

#[test]
fn ranges_of_lists_put_together() {
    let src = b"fn a() {}\nfn b() {}\n";
    let ranges = |names: &[&str]| {
        let wanted: Vec<(UnusedDiagnosticKind, String, Option<usize>)> =
            names.iter().map(|name| fun(name)).collect();
        diagnostics_to_ranges(src, &wanted).unwrap()
    };
    assert_eq!(ranges(&["a"]), vec![0..9]);
    assert_eq!(ranges(&["c"]), vec![]);
    assert_eq!(ranges(&["b", "a"]), vec![10..19, 0..9]);
    assert_eq!(ranges(&["b", "a", "c", "b"]), vec![10..19, 0..9, 10..19]);
}

#[test]
fn bytes_that_are_not_utf8_are_kept() {
    let src = b"// \xff\xfe\nfn a() {}\nfn b() {}\n";
    assert_eq!(rust_delete(src, &[fun("a")]).unwrap(), b"// \xff\xfe\nfn b() {}\n");
    let src = b"/* \xff\xe2\x82 \xa9 */ fn a() {}\nfn b() {}\n";
    assert_eq!(rust_delete(src, &[fun("a")]).unwrap(), b"/* \xff\xe2\x82 \xa9 */ fn b() {}\n");
}

#[test]
fn what_is_not_rust_is_an_error() {
    let error = rust_delete(b"fn", &[]).unwrap_err();
    assert_eq!(error.message, "unexpected end of input, expected identifier");
    let error = diagnostics_to_ranges(b"fn a() {", &[fun("a")]).unwrap_err();
    assert_eq!(error.message, "cannot parse string into token stream");
}
