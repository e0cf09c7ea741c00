use cargo_minify::paths::{normal, normal_path};

#[test]
fn normal_spellings() {
    for path in ["", "/", ".", "..", "a", "./a", "../a", "/a/b.rs", "a/..", "a/.b", "a/b.", "/..", "\u{e9}/x"] {
        assert!(normal(&path.to_owned()), "{}", path);
        assert!(normal_path(path.as_bytes()), "{}", path);
    }
}

#[test]
fn other_spellings() {
    for path in ["//", "a/", "./", "a//b.rs", "//a", "a/./b", "a/.", "/.", "./."] {
        assert!(!normal(&path.to_owned()), "{}", path);
        assert!(!normal_path(path.as_bytes()), "{}", path);
    }
}

// Spelling a path by its components is what makes it normal.
#[test]
fn components_spell_normally() {
    for path in ["", "/", "//", "a/", "./", "a//b.rs", "//a", "a/./b", "a/.", "/.", "./.", "a/../b"] {
        let spelled: std::path::PathBuf = std::path::Path::new(path).components().collect();
        let text = spelled.to_str().unwrap().to_owned();
        assert!(normal(&text), "{}", text);
        assert_eq!(normal(&path.to_owned()), text == path, "{}", path);
    }
}
