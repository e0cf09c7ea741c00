use cargo_minify::cauterize::{
    commit_result, process_diagnostics, process_file, process_files, SourceFile,
};
use cargo_minify::groups::{group_diagnostics, FileDiagnostics};
use cargo_minify::unused::{DiagnosticSpan, UnusedDiagnostic, UnusedDiagnosticKind};

const FILE: &str = "src/lib.rs";

fn source(content: &str) -> Vec<SourceFile> {
    vec![SourceFile {
        file_name: FILE.to_owned(),
        content: content.as_bytes().to_vec(),
    }]
}

fn diag(file: &str, line: usize, kind: UnusedDiagnosticKind, ident: &str) -> UnusedDiagnostic {
    UnusedDiagnostic {
        kind,
        ident: ident.to_owned(),
        span: DiagnosticSpan {
            file_name: file.to_owned(),
            line_start: line,
        },
    }
}

// Where the item is not found, the file stays as it is: that is no change.
#[test]
fn process_diagnostics_drops_no_op_change() {
    let files = source("fn used() {}\n");
    let d = diag(FILE, 1, UnusedDiagnosticKind::Function, "missing");
    let changes = process_diagnostics(vec![d], &files).unwrap();
    assert!(
        changes.is_empty(),
        "expected zero changes, got {}",
        changes.len()
    );
}

// Two items of one name in different scopes are told apart by their line.
#[test]
fn process_diagnostics_disambiguates_duplicate_names_by_line() {
    let files = source("mod m { fn foo() {} }\nfn foo() {}\n");

    // Line 2: only the top-level foo goes.
    let d = diag(FILE, 2, UnusedDiagnosticKind::Function, "foo");
    let changes = process_diagnostics(vec![d], &files).unwrap();
    assert_eq!(changes.len(), 1);
    assert_eq!(changes[0].proposed_content(), b"mod m { fn foo() {} }\n");
}

#[test]
fn process_diagnostics_disambiguates_duplicate_names_by_line_nested() {
    let files = source("mod m { fn foo() {} }\nfn foo() {}\n");

    // Line 1: only the nested foo goes.
    let d = diag(FILE, 1, UnusedDiagnosticKind::Function, "foo");
    let changes = process_diagnostics(vec![d], &files).unwrap();
    assert_eq!(changes.len(), 1);
    assert_eq!(changes[0].proposed_content(), b"mod m { }\nfn foo() {}\n");
}

fn file(file_name: &str, content: &str) -> SourceFile {
    SourceFile {
        file_name: file_name.to_owned(),
        content: content.as_bytes().to_vec(),
    }
}

#[test]
fn a_change_holds_the_file_and_both_contents() {
    let files = source("fn a() {}\nfn b() {}\n");
    let d = diag(FILE, 1, UnusedDiagnosticKind::Function, "a");
    let changes = process_diagnostics(vec![d], &files).unwrap();
    assert_eq!(changes.len(), 1);
    assert_eq!(changes[0].file_name(), FILE);
    assert_eq!(changes[0].original_content(), b"fn a() {}\nfn b() {}\n");
    assert_eq!(changes[0].proposed_content(), b"fn b() {}\n");
}

#[test]
fn blocks_that_become_empty_go_too() {
    let files = source("struct S;\nimpl S {\n    fn f() {}\n}\n");
    let d = diag(FILE, 3, UnusedDiagnosticKind::AssociatedFunction, "f");
    let changes = process_diagnostics(vec![d], &files).unwrap();
    assert_eq!(changes.len(), 1);
    assert_eq!(changes[0].proposed_content(), b"struct S;\n");
}

#[test]
fn blocks_that_were_empty_go_with_any_diagnostic() {
    let files = source("struct S;\nimpl S {}\n");
    let d = diag(FILE, 1, UnusedDiagnosticKind::Function, "missing");
    let changes = process_diagnostics(vec![d], &files).unwrap();
    assert_eq!(changes.len(), 1);
    assert_eq!(changes[0].proposed_content(), b"struct S;\n");
}

#[test]
fn diagnostics_are_grouped_by_file() {
    let diagnostics = vec![
        diag("b.rs", 1, UnusedDiagnosticKind::Function, "x"),
        diag("a.rs", 1, UnusedDiagnosticKind::Constant, "A"),
        diag("b.rs", 2, UnusedDiagnosticKind::Struct, "S"),
    ];
    let mut groups = group_diagnostics(&diagnostics);
    groups.sort_by(|a, b| a.file_name.cmp(&b.file_name));
    assert_eq!(groups.len(), 2);
    assert_eq!(groups[0].file_name, "a.rs");
    assert_eq!(
        groups[0].diagnostics,
        vec![(UnusedDiagnosticKind::Constant, "A".to_owned(), Some(1))]
    );
    assert_eq!(groups[1].file_name, "b.rs");
    assert_eq!(
        groups[1].diagnostics,
        vec![
            (UnusedDiagnosticKind::Function, "x".to_owned(), Some(1)),
            (UnusedDiagnosticKind::Struct, "S".to_owned(), Some(2)),
        ]
    );
    assert!(group_diagnostics(&vec![]).is_empty());
}

#[test]
fn each_file_has_its_own_change() {
    let files = vec![
        file("a.rs", "const A: u8 = 1;\nfn x() {}\n"),
        file("b.rs", "fn x() {}\nstruct S;\nfn y() {}\n"),
        file("c.rs", "fn x() {}\n"),
    ];
    let diagnostics = vec![
        diag("b.rs", 1, UnusedDiagnosticKind::Function, "x"),
        diag("a.rs", 1, UnusedDiagnosticKind::Constant, "A"),
        diag("b.rs", 2, UnusedDiagnosticKind::Struct, "S"),
        diag("unreadable.rs", 1, UnusedDiagnosticKind::Function, "x"),
    ];
    let changes = process_diagnostics(diagnostics, &files).unwrap();
    let mut proposals: Vec<(&str, &[u8])> = changes
        .iter()
        .map(|change| (change.file_name(), change.proposed_content()))
        .collect();
    proposals.sort();
    let expected: Vec<(&str, &[u8])> = vec![("a.rs", b"fn x() {}\n"), ("b.rs", b"fn y() {}\n")];
    assert_eq!(proposals, expected);
}

#[test]
fn files_are_processed_in_their_order() {
    let files = vec![file("a.rs", "fn x() {}\n"), file("b.rs", "fn x() {}\n")];
    let wanted = |file_name: &str| FileDiagnostics {
        file_name: file_name.to_owned(),
        diagnostics: vec![(UnusedDiagnosticKind::Function, "x".to_owned(), None)],
    };
    let changes = process_files(vec![wanted("b.rs"), wanted("c.rs"), wanted("a.rs")], &files).unwrap();
    let names: Vec<&str> = changes.iter().map(|change| change.file_name()).collect();
    assert_eq!(names, vec!["b.rs", "a.rs"]);
}

#[test]
fn a_file_that_is_no_rust_is_an_error() {
    let files = vec![file("a.rs", "fn x() {}\n"), file("b.rs", "fn")];
    let d = diag("b.rs", 1, UnusedDiagnosticKind::Function, "x");
    let error = process_diagnostics(vec![d], &files).unwrap_err();
    assert_eq!(error.message, "unexpected end of input, expected identifier");
    // A file that no diagnostic is about is not looked at.
    let d = diag("a.rs", 1, UnusedDiagnosticKind::Function, "x");
    assert_eq!(process_diagnostics(vec![d], &files).unwrap().len(), 1);
}

#[test]
fn one_file_alone_has_a_change_or_none() {
    let x = vec![(UnusedDiagnosticKind::Function, "x".to_owned(), None)];
    let change = process_file("a.rs".to_owned(), b"fn x() {}\n".to_vec(), &x).unwrap().unwrap();
    assert_eq!(change.proposed_content(), b"");
    assert!(process_file("a.rs".to_owned(), b"fn y() {}\n".to_vec(), &x).unwrap().is_none());
    assert!(process_file("a.rs".to_owned(), b"}".to_vec(), &x).is_err());
}

#[test]
fn all_errors_of_a_commit_are_reported() {
    assert_eq!(commit_result::<u8>(vec![]), Ok(()));
    assert_eq!(commit_result::<u8>(vec![Ok(()), Ok(())]), Ok(()));
    assert_eq!(commit_result(vec![Err(3), Ok(()), Err(1)]), Err(vec![3, 1]));
}
