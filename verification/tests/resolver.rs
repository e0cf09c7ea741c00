use cargo_minify::names::NameSet;
use cargo_minify::resolver::{
    exclusions, metadata_options, package_targets, root_targets, Dependency, Metadata, Package,
    Place, WorkspaceWalk,
};
use cargo_minify::targets::{normalize_target, normalize_targets, Target, TargetSet};

fn target_with_src_path(src_path: &str) -> Target {
    Target {
        name: "t".to_owned(),
        kind: vec!["bin".to_owned()],
        crate_types: vec![],
        required_features: vec![],
        src_path: src_path.to_owned(),
        edition: "2015".to_owned(),
        doctest: true,
        test: true,
        doc: true,
    }
}

// Where a path has no canonical form, it stays as it is, and so does the
// equality of targets.
#[test]
fn normalize_target_preserves_unresolvable_path() {
    let path = "/this/path/definitely/does/not/exist.rs";
    let t = target_with_src_path(path);
    let n = normalize_target(t.clone(), None);
    assert_eq!(n.src_path.as_str(), path);
    assert_eq!(n, t);
}

#[test]
fn normalized_targets_are_found_by_any_spelling() {
    let via_link = target_with_src_path("/var/folders/link.rs");
    let via_real = target_with_src_path("/private/var/folders/real.rs");
    assert_ne!(via_link, via_real);
    let canonical = Some("/private/var/folders/real.rs".to_owned());
    let set = normalize_targets(vec![(via_link, canonical.clone())]);
    assert!(set.contains(&normalize_target(via_real, canonical)));
    assert!(!set.contains(&target_with_src_path("/var/folders/link.rs")));
}

#[test]
fn targets_that_normalize_to_the_same_are_one() {
    let set = normalize_targets(vec![
        (target_with_src_path("a.rs"), Some("/x.rs".to_owned())),
        (target_with_src_path("b.rs"), Some("/x.rs".to_owned())),
        (target_with_src_path("c.rs"), None),
    ]);
    let paths: Vec<String> = set.into_targets().into_iter().map(|t| t.src_path).collect();
    assert_eq!(paths, vec!["/x.rs", "c.rs"]);
}

#[test]
fn normalized_targets_stay_as_they_are() {
    let canonical = |path: &str| match path {
        "link.rs" | "/real.rs" => Some("/real.rs".to_owned()),
        _ => None,
    };
    let with_canonical = |path: &str| (target_with_src_path(path), canonical(path));
    let once = normalize_targets(vec![with_canonical("link.rs"), with_canonical("other.rs")]);
    for target in once.into_targets() {
        let again = normalize_target(target.copied(), canonical(&target.src_path));
        assert_eq!(again, target);
    }
    assert!(normalize_targets(vec![]).is_empty());
}

#[test]
fn targets_differ_in_any_field() {
    let target = target_with_src_path("a.rs");
    let mut others: Vec<Target> = vec![];
    for _ in 0..9 {
        others.push(target.copied());
    }
    others[0].name = "u".to_owned();
    others[1].kind = vec!["bin".to_owned(), "lib".to_owned()];
    others[2].crate_types = vec!["lib".to_owned()];
    others[3].required_features = vec!["f".to_owned()];
    others[4].src_path = "b.rs".to_owned();
    others[5].edition = "2021".to_owned();
    others[6].doctest = false;
    others[7].test = false;
    others[8].doc = false;
    let mut set = TargetSet::new();
    assert!(set.is_empty());
    assert!(set.insert(target.copied()));
    assert!(!set.insert(target.copied()));
    assert!(!set.is_empty());
    assert!(target.same_as(&target.copied()));
    for other in &others {
        assert!(!target.same_as(other));
        assert!(!set.contains(other));
    }
}

#[test]
fn names_are_ordered_by_their_bytes() {
    let names: Vec<String> = ["b", "\u{e9}", "ab", "a", "b", "B"]
        .iter()
        .map(|name| (*name).to_owned())
        .collect();
    let mut set = NameSet::from_names(&names);
    let mut sorted: Vec<String> = vec![];
    while let Some(name) = set.first() {
        assert!(set.contains(&name));
        assert!(set.remove(&name));
        assert!(!set.remove(&name));
        sorted.push(name);
    }
    assert_eq!(sorted, vec!["B", "a", "ab", "b", "\u{e9}"]);
    assert!(set.insert("x".to_owned()));
    assert!(!set.insert("x".to_owned()));
}

fn package(name: &str, dependencies: &[(&str, Option<&str>)]) -> Package {
    Package {
        name: name.to_owned(),
        manifest_path: format!("/{}/Cargo.toml", name),
        targets: vec![target_with_src_path(&format!("/{}/src/lib.rs", name))],
        dependencies: dependencies
            .iter()
            .map(|(name, path)| Dependency {
                name: (*name).to_owned(),
                manifest_path: path.map(|path| path.to_owned()),
            })
            .collect(),
    }
}

fn paths(targets: TargetSet) -> Vec<String> {
    let mut paths: Vec<String> = targets.into_targets().into_iter().map(|t| t.src_path).collect();
    paths.sort();
    paths
}

fn place(root: &str, location: &str, manifest: &str, manifests: &[&str]) -> Place {
    Place {
        workspace_root: root.as_bytes().to_vec(),
        location: location.as_bytes().to_vec(),
        manifest: manifest.as_bytes().to_vec(),
        package_manifests: manifests.iter().map(|path| path.as_bytes().to_vec()).collect(),
    }
}

#[test]
fn the_only_package_is_at_hand() {
    let metadata = Metadata { packages: vec![package("a", &[])] };
    let mut targets = TargetSet::new();
    root_targets(&metadata, &place("/", "/a", "/x/Cargo.toml", &[""]), &mut targets);
    assert_eq!(paths(targets), vec!["/a/src/lib.rs"]);
}

#[test]
fn all_packages_are_at_hand_at_the_root() {
    let metadata = Metadata { packages: vec![package("a", &[]), package("b", &[])] };
    let mut targets = TargetSet::new();
    root_targets(&metadata, &place("/", "/", "/Cargo.toml", &["", ""]), &mut targets);
    assert_eq!(paths(targets), vec!["/a/src/lib.rs", "/b/src/lib.rs"]);
}

#[test]
fn elsewhere_the_package_of_the_manifest_is_at_hand() {
    let metadata = Metadata { packages: vec![package("a", &[]), package("b", &[])] };
    let manifests = ["/a/Cargo.toml", "/b/Cargo.toml"];
    let mut targets = TargetSet::new();
    root_targets(&metadata, &place("/", "/b", "/b/Cargo.toml", &manifests), &mut targets);
    assert_eq!(paths(targets), vec!["/b/src/lib.rs"]);
    let mut targets = TargetSet::new();
    root_targets(&metadata, &place("/", "/c", "/c/Cargo.toml", &manifests), &mut targets);
    assert!(targets.is_empty());
}

#[test]
fn packages_are_found_by_name() {
    let metadata = Metadata {
        packages: vec![package("a", &[]), package("b", &[]), package("c", &[])],
    };
    let mut targets = TargetSet::new();
    let asked = vec!["c".to_owned(), "a".to_owned(), "c".to_owned()];
    assert!(package_targets(&metadata, &asked, &mut targets).is_ok());
    assert_eq!(paths(targets), vec!["/a/src/lib.rs", "/c/src/lib.rs"]);
}

#[test]
fn of_a_name_the_first_package_is_taken() {
    let mut second = package("a", &[]);
    second.targets = vec![target_with_src_path("/second.rs")];
    let metadata = Metadata { packages: vec![package("a", &[]), second] };
    let mut targets = TargetSet::new();
    assert!(package_targets(&metadata, &["a".to_owned()], &mut targets).is_ok());
    assert_eq!(paths(targets), vec!["/a/src/lib.rs"]);
}

#[test]
fn the_first_missing_package_is_reported() {
    let metadata = Metadata { packages: vec![package("a", &[])] };
    let mut targets = TargetSet::new();
    let asked = vec!["z".to_owned(), "a".to_owned(), "b".to_owned()];
    let error = package_targets(&metadata, &asked, &mut targets).unwrap_err();
    assert_eq!(error.name, "b");
    assert_eq!(error.message(), "package `b` is not a member of the workspace");
    assert_eq!(paths(targets), vec!["/a/src/lib.rs"]);
}

#[test]
fn globs_exclude_packages_by_name() {
    let metadata = Metadata {
        packages: vec![package("core", &[]), package("core-test", &[]), package("util", &[])],
    };
    let excluded_by = |patterns: &[&str]| {
        let exclude: Vec<String> = patterns.iter().map(|p| (*p).to_owned()).collect();
        exclusions(&exclude, &metadata)
    };
    assert_eq!(excluded_by(&[]), vec![false, false, false]);
    assert_eq!(excluded_by(&["core"]), vec![true, false, false]);
    assert_eq!(excluded_by(&["core*"]), vec![true, true, false]);
    assert_eq!(excluded_by(&["*-test", "u???"]), vec![false, true, true]);
    assert_eq!(excluded_by(&["!core"]), vec![false, true, true]);
    assert_eq!(excluded_by(&["{util,x}"]), vec![false, false, true]);
    // A pattern with separators matches no name without one, and an end is found.
    assert_eq!(excluded_by(&["{a/**/x,*y}"]), vec![false, false, false]);
    assert_eq!(excluded_by(&["{a/**/x,*l}"]), vec![false, false, true]);
}

#[test]
fn a_walk_follows_dependencies_out_of_the_workspace() {
    let first = Metadata {
        packages: vec![
            package(
                "a",
                &[("serde", None), ("b", Some("/b/Cargo.toml")), ("x", Some("/x/Cargo.toml"))],
            ),
            package("b", &[("y", Some("/y/Cargo.toml")), ("x", Some("/x/Cargo.toml"))]),
            package("hidden", &[("z", Some("/z/Cargo.toml"))]),
        ],
    };
    let mut walk = WorkspaceWalk::start(&first, &vec![false, false, true]);

    let next = walk.next().unwrap();
    assert_eq!((next.name.as_str(), next.manifest_path.as_str()), ("x", "/x/Cargo.toml"));
    let x = Metadata { packages: vec![package("x", &[("w", Some("/w/Cargo.toml"))])] };
    walk.enter(next.name, &x, &vec![false]);

    // What was found there comes first; its manifest does not exist.
    assert_eq!(walk.next().unwrap().name, "w");
    // x was visited, so only y is left.
    let next = walk.next().unwrap();
    assert_eq!(next.name, "y");
    let y = Metadata {
        packages: vec![package("y", &[("x", Some("/x/Cargo.toml")), ("w", Some("/w/Cargo.toml"))])],
    };
    walk.enter(next.name, &y, &vec![false]);
    // w was not entered, so it is looked at again.
    assert_eq!(walk.next().unwrap().name, "w");
    assert!(walk.next().is_none());
    assert_eq!(
        paths(walk.finish()),
        vec!["/a/src/lib.rs", "/b/src/lib.rs", "/x/src/lib.rs", "/y/src/lib.rs"]
    );
}

#[test]
fn a_walk_leaves_out_what_patterns_exclude() {
    let exclude = vec!["*-test".to_owned()];
    let first = Metadata {
        packages: vec![
            package("a", &[("x", Some("/x/Cargo.toml"))]),
            package("a-test", &[("y", Some("/y/Cargo.toml"))]),
        ],
    };
    let mut walk = WorkspaceWalk::start_excluding(&first, &exclude);
    let next = walk.next().unwrap();
    assert_eq!(next.name, "x");
    let x = Metadata {
        packages: vec![package("x-test", &[("z", Some("/z/Cargo.toml"))]), package("x", &[])],
    };
    walk.enter_excluding(next.name, &x, &exclude);
    assert!(walk.next().is_none());
    assert_eq!(paths(walk.finish()), vec!["/a/src/lib.rs", "/x/src/lib.rs"]);
}

#[test]
fn a_walk_through_circles_ends() {
    let first = Metadata { packages: vec![package("a", &[("b", Some("/b/Cargo.toml"))])] };
    let mut walk = WorkspaceWalk::start(&first, &vec![false]);
    let mut rounds: usize = 0;
    while let Some(next) = walk.next() {
        rounds += 1;
        assert!(rounds < 10);
        let other = if next.name == "b" { "c" } else { "b" };
        let found = Metadata {
            packages: vec![package(
                &next.name,
                &[(other, Some(format!("/{}/Cargo.toml", other).as_str()))],
            )],
        };
        walk.enter(next.name, &found, &vec![false]);
    }
    assert_eq!(rounds, 2);
    assert_eq!(
        paths(walk.finish()),
        vec!["/a/src/lib.rs", "/b/src/lib.rs", "/c/src/lib.rs"]
    );
}

#[test]
fn metadata_is_asked_for_offline_first() {
    assert_eq!(metadata_options(0), Some(vec!["--offline".to_owned()]));
    assert_eq!(metadata_options(1), Some(vec![]));
    assert_eq!(metadata_options(2), None);
}
