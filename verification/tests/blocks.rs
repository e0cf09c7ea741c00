use cargo_minify::removal::remove_empty_blocks;

fn removed(src: &str) -> String {
    String::from_utf8(remove_empty_blocks(src.as_bytes()).unwrap()).unwrap()
}

#[test]
fn empty_blocks_go() {
    assert_eq!(removed("fn a() {}\nimpl S {}\nfn b() {}\n"), "fn a() {}\nfn b() {}\n");
    assert_eq!(removed("extern \"C\" {}\n"), "");
    assert_eq!(removed("impl S {\n    // Nothing.\n}\nextern \"C\" { }\nstruct S;"), "struct S;");
}

#[test]
fn other_blocks_stay() {
    for src in [
        "impl T for S {}\n",
        "#[x]\nimpl S {}\n",
        "impl S { #![x] }\n",
        "impl S { fn f() {} }\n",
        "#[x]\nextern \"C\" {}\n",
        "extern \"C\" { fn f(); }\n",
        "mod m {}\n",
        "mod m { impl S {} }\n",
        "trait T {}\n",
        "",
    ] {
        assert_eq!(removed(src), src);
    }
}

#[test]
fn blocks_of_no_rust_are_an_error() {
    let error = remove_empty_blocks(b"fn").unwrap_err();
    assert_eq!(error.message, "unexpected end of input, expected identifier");
}
