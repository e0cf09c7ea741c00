//! Finding the targets of the packages that the user wants to minify.
use vstd::prelude::*;
use vstd::utf8::encode_utf8;

use crate::names::{is_first, texts, NameSet};
use crate::paths::{is_normal, is_normal_path};
use crate::picks::{in_order, lemma_one_more_place};
use crate::targets::{target_models, targets_normal, Target, TargetModel, TargetSet};
use crate::text::same_bytes;

verus! {

// ---------------------------------------------------------------------------
// Metadata
// ---------------------------------------------------------------------------

/// What is known of the packages of a workspace. Paths are spelled normally.
#[derive(Debug)]
pub struct Metadata {
    pub packages: Vec<Package>,
}

#[derive(Debug)]
pub struct Package {
    pub name: String,
    pub manifest_path: String,
    pub targets: Vec<Target>,
    pub dependencies: Vec<Dependency>,
}

/// A dependency, with the path of its manifest where it is one by path.
#[derive(Debug)]
pub struct Dependency {
    pub name: String,
    pub manifest_path: Option<String>,
}

pub struct PackageModel {
    pub name: Seq<char>,
    pub manifest_path: Seq<char>,
    pub targets: Seq<TargetModel>,
    pub dependencies: Seq<DependencyModel>,
}

pub struct DependencyModel {
    pub name: Seq<char>,
    pub manifest_path: Option<Seq<char>>,
}

impl View for Dependency {
    type V = DependencyModel;

    open spec fn view(&self) -> DependencyModel {
        DependencyModel {
            name: self.name@,
            manifest_path: match self.manifest_path {
                Some(path) => Some(path@),
                None => None,
            },
        }
    }
}

pub open spec fn dependency_models(dependencies: Seq<Dependency>) -> Seq<DependencyModel> {
    dependencies.map_values(|dependency: Dependency| dependency@)
}

impl View for Package {
    type V = PackageModel;

    open spec fn view(&self) -> PackageModel {
        PackageModel {
            name: self.name@,
            manifest_path: self.manifest_path@,
            targets: target_models(self.targets@),
            dependencies: dependency_models(self.dependencies@),
        }
    }
}

impl View for Metadata {
    type V = Seq<PackageModel>;

    open spec fn view(&self) -> Seq<PackageModel> {
        self.packages@.map_values(|package: Package| package@)
    }
}

/// All paths of the packages are spelled normally.
pub open spec fn packages_normal(packages: Seq<PackageModel>) -> bool {
    forall|i: int|
        0 <= i < packages.len() ==> is_normal((#[trigger] packages[i]).manifest_path)
            && targets_normal(packages[i].targets) && dependencies_normal(packages[i].dependencies)
}

/// The paths of the dependencies are spelled normally.
pub open spec fn dependencies_normal(dependencies: Seq<DependencyModel>) -> bool {
    forall|i: int|
        0 <= i < dependencies.len() ==> ((#[trigger] dependencies[i]).manifest_path matches Some(
            path,
        ) ==> is_normal(path))
}

/// The targets of the packages that are chosen.
pub open spec fn chosen_targets(packages: Seq<PackageModel>, chosen: Seq<bool>) -> Set<TargetModel> {
    Set::new(
        |target: TargetModel|
            exists|i: int|
                0 <= i < packages.len() && chosen[i] && (
                #[trigger] packages[i]).targets.contains(target),
    )
}

/// Adds the targets of the packages that are chosen.
fn insert_chosen(metadata: &Metadata, chosen: &Vec<bool>, targets: &mut TargetSet)
    requires
        chosen@.len() == metadata@.len(),
        packages_normal(metadata@),
        old(targets).wf(),
    ensures
        final(targets).wf(),
        final(targets)@ == old(targets)@.union(chosen_targets(metadata@, chosen@)),
{
    let ghost before = targets@;
    let ghost packages = metadata@;
    let mut i: usize = 0;
    assert(before.union(chosen_targets(packages.take(0), chosen@)) =~= before);
    while i < metadata.packages.len()
        invariant
            i <= packages.len(),
            packages == metadata@,
            packages_normal(packages),
            chosen@.len() == packages.len(),
            targets.wf(),
            targets@ == before.union(chosen_targets(packages.take(i as int), chosen@)),
        decreases packages.len() - i,
    {
        assert(packages[i as int] == metadata.packages@[i as int]@);
        if chosen[i] {
            targets.insert_all(&metadata.packages[i].targets);
        }
        proof {
            lemma_chosen_targets(packages, chosen@, i as int);
            assert(targets@ =~= before.union(chosen_targets(packages.take(i + 1), chosen@)));
        }
        i = i + 1;
    }
    assert(packages.take(i as int) =~= packages);
}

/// The targets of `i + 1` packages, by those of `i`.
proof fn lemma_chosen_targets(packages: Seq<PackageModel>, chosen: Seq<bool>, i: int)
    requires
        0 <= i < packages.len(),
    ensures
        chosen_targets(packages.take(i + 1), chosen) == if chosen[i] {
            chosen_targets(packages.take(i), chosen).union(packages[i].targets.to_set())
        } else {
            chosen_targets(packages.take(i), chosen)
        },
{
    let now = packages.take(i + 1);
    let before = packages.take(i);
    assert forall|target: TargetModel| #[trigger]
        chosen_targets(now, chosen).contains(target) <==> chosen_targets(before, chosen).contains(
            target,
        ) || (chosen[i] && packages[i].targets.contains(target)) by {
        if chosen_targets(before, chosen).contains(target) {
            let k = choose|k: int|
                0 <= k < before.len() && chosen[k] && (#[trigger] before[k]).targets.contains(
                    target,
                );
            assert(now[k].targets.contains(target));
        }
        if chosen[i] && packages[i].targets.contains(target) {
            assert(now[i].targets.contains(target));
        }
        if chosen_targets(now, chosen).contains(target) {
            let k = choose|k: int|
                0 <= k < now.len() && chosen[k] && (#[trigger] now[k]).targets.contains(target);
            if k < i {
                assert(before[k].targets.contains(target));
            }
        }
    }
    if chosen[i] {
        assert(chosen_targets(now, chosen) =~= chosen_targets(before, chosen).union(
            packages[i].targets.to_set(),
        ));
    } else {
        assert(chosen_targets(now, chosen) =~= chosen_targets(before, chosen));
    }
}

// ---------------------------------------------------------------------------
// The package at hand
// ---------------------------------------------------------------------------

/// Where the user is, as the bytes of paths in their normal spelling.
#[derive(Debug)]
pub struct Place {
    /// The canonical path of the root of the workspace.
    pub workspace_root: Vec<u8>,
    /// The manifest path as it was given, else the canonical current directory.
    pub location: Vec<u8>,
    /// The canonical path of the manifest that was given, else that of the one
    /// in the canonical current directory.
    pub manifest: Vec<u8>,
    /// The canonical path of the manifest of each package, empty where it has
    /// none.
    pub package_manifests: Vec<Vec<u8>>,
}

/// All paths of a place are spelled normally.
pub open spec fn place_normal(place: Place) -> bool {
    &&& is_normal_path(place.workspace_root@)
    &&& is_normal_path(place.location@)
    &&& is_normal_path(place.manifest@)
    &&& forall|i: int|
        0 <= i < place.package_manifests@.len() ==> is_normal_path(
            (#[trigger] place.package_manifests@[i])@,
        )
}

/// Which of `count` packages are at hand: the only one; all, at the root of the
/// workspace; else those whose manifest is the one at hand.
pub open spec fn at_hand(count: nat, place: Place) -> Seq<bool> {
    Seq::new(
        count,
        |i: int|
            count == 1 || place.workspace_root@ == place.location@
                || place.package_manifests@[i]@ == place.manifest@,
    )
}

/// Adds the targets of the packages at hand.
pub fn root_targets(metadata: &Metadata, place: &Place, targets: &mut TargetSet)
    requires
        place.package_manifests@.len() == metadata@.len(),
        place_normal(*place),
        packages_normal(metadata@),
        old(targets).wf(),
    ensures
        final(targets).wf(),
        final(targets)@ == old(targets)@.union(
            chosen_targets(metadata@, at_hand(metadata@.len(), *place)),
        ),
{
    let in_workspace_root = same_bytes(&place.workspace_root, &place.location);
    let only = metadata.packages.len() == 1;
    let mut chosen: Vec<bool> = Vec::new();
    let mut i: usize = 0;
    while i < metadata.packages.len()
        invariant
            i <= metadata.packages@.len(),
            place.package_manifests@.len() == metadata.packages@.len(),
            in_workspace_root == (place.workspace_root@ == place.location@),
            only == (metadata.packages@.len() == 1),
            chosen@.len() == i,
            forall|k: int|
                0 <= k < i ==> #[trigger] chosen@[k] == at_hand(metadata@.len(), *place)[k],
        decreases metadata.packages@.len() - i,
    {
        chosen.push(
            only || in_workspace_root || same_bytes(&place.package_manifests[i], &place.manifest),
        );
        i = i + 1;
    }
    assert(chosen@ =~= at_hand(metadata@.len(), *place));
    insert_chosen(metadata, &chosen, targets);
}

// ---------------------------------------------------------------------------
// Packages by name
// ---------------------------------------------------------------------------

/// A package that was asked for is not there.
#[derive(Debug)]
pub struct MissingPackage {
    pub name: String,
}

impl MissingPackage {
    pub open spec fn spec_message(self) -> Seq<char> {
        "package `"@ + self.name@ + "` is not a member of the workspace"@
    }

    /// What is wrong, in words.
    pub fn message(&self) -> (message: String)
        ensures
            message@ == self.spec_message(),
    {
        let mut message = "package `".to_owned();
        message.append(self.name.as_str());
        message.append("` is not a member of the workspace");
        message
    }
}

/// Which packages are asked for: of each name, the first package that has it.
pub open spec fn asked_for(packages: Seq<PackageModel>, names: Set<Seq<char>>) -> Seq<bool> {
    Seq::new(
        packages.len(),
        |i: int|
            names.contains(packages[i].name) && forall|j: int|
                0 <= j < i ==> (#[trigger] packages[j]).name != packages[i].name,
    )
}

/// The names that no package has.
pub open spec fn missing(packages: Seq<PackageModel>, names: Set<Seq<char>>) -> Set<Seq<char>> {
    names.filter(
        |name: Seq<char>|
            forall|i: int| 0 <= i < packages.len() ==> (#[trigger] packages[i]).name != name,
    )
}

/// Adds the targets of the packages that are asked for by name. Where names are
/// missing, the first of them is reported; the targets of the others are there
/// all the same.
pub fn package_targets(
    metadata: &Metadata,
    packages: &[String],
    targets: &mut TargetSet,
) -> (outcome: Result<(), MissingPackage>)
    requires
        packages_normal(metadata@),
        old(targets).wf(),
    ensures
        final(targets).wf(),
        final(targets)@ == old(targets)@.union(
            chosen_targets(metadata@, asked_for(metadata@, texts(packages@).to_set())),
        ),
        match outcome {
            Ok(_) => missing(metadata@, texts(packages@).to_set()) == Set::<Seq<char>>::empty(),
            Err(error) => is_first(
                missing(metadata@, texts(packages@).to_set()),
                error.name@,
            ),
        },
{
    let ghost names = texts(packages@).to_set();
    let ghost all = metadata@;
    let mut workspace_hitlist = NameSet::from_names(packages);
    let mut chosen: Vec<bool> = Vec::new();
    let mut i: usize = 0;
    assert(missing(all.take(0), names) =~= names);
    while i < metadata.packages.len()
        invariant
            i <= all.len(),
            all == metadata@,
            workspace_hitlist.wf(),
            workspace_hitlist@ == missing(all.take(i as int), names),
            chosen@.len() == i,
            forall|k: int| 0 <= k < i ==> #[trigger] chosen@[k] == asked_for(all, names)[k],
        decreases all.len() - i,
    {
        let package = &metadata.packages[i];
        assert(all[i as int] == package@);
        let hit = workspace_hitlist.remove(&package.name);
        proof {
            let seen = all.take(i as int);
            let now = all.take(i + 1);
            assert(hit == asked_for(all, names)[i as int]) by {
                if hit {
                    assert forall|j: int| 0 <= j < i implies (#[trigger] all[j]).name
                        != package.name@ by {
                        assert(seen[j].name != package.name@);
                    }
                } else if names.contains(package.name@) {
                    let j = choose|j: int|
                        0 <= j < seen.len() && (#[trigger] seen[j]).name == package.name@;
                    assert(all[j].name == package.name@);
                }
            }
            assert forall|name: Seq<char>| #[trigger]
                missing(now, names).contains(name) <==> missing(seen, names).remove(
                    package.name@,
                ).contains(name) by {
                if missing(now, names).contains(name) {
                    assert(now[i as int].name != name);
                    assert forall|j: int| 0 <= j < seen.len() implies (#[trigger] seen[j]).name
                        != name by {
                        assert(now[j].name != name);
                    }
                }
                if missing(seen, names).contains(name) && name != package.name@ {
                    assert forall|j: int| 0 <= j < now.len() implies (#[trigger] now[j]).name
                        != name by {
                        if j < i {
                            assert(seen[j].name != name);
                        }
                    }
                }
            }
            assert(missing(now, names) =~= missing(seen, names).remove(package.name@));
        }
        chosen.push(hit);
        i = i + 1;
    }
    assert(chosen@ =~= asked_for(all, names));
    assert(all.take(i as int) =~= all);
    insert_chosen(metadata, &chosen, targets);
    match workspace_hitlist.first() {
        None => Ok(()),
        Some(name) => Err(MissingPackage { name }),
    }
}

// ---------------------------------------------------------------------------
// Exclusion
// ---------------------------------------------------------------------------

/// Whether a glob pattern matches a name without path separators, as
/// `glob_match::glob_match` has it.
pub uninterp spec fn glob_matches(pattern: Seq<char>, name: Seq<char>) -> bool;

/// Whether a pattern and a name can be matched. Both are short enough: the
/// positions in a name are counted in 32 bits, and the braces of a pattern in
/// 31. The name has no path separator of any system.
pub open spec fn matchable(pattern: Seq<char>, name: Seq<char>) -> bool {
    &&& encode_utf8(pattern).len() < 0x8000_0000
    &&& encode_utf8(name).len() < 0xffff_ffff
    &&& !name.contains('/')
    &&& !name.contains('\\')
}

/// Calls `glob_match::glob_match`: whether the glob pattern matches the whole
/// name. The answer is the one named by `glob_matches`, which depends on the
/// two texts alone. Names with a path separator are left out: which characters
/// separate depends on the system, and with one in the name the search for a
/// match may not end, as with the pattern `{a/**/x,*y}` and the name `a/b/c`.
#[verifier::external_body]
fn glob_match(pattern: &String, name: &String) -> (yes: bool)
    requires
        matchable(pattern@, name@),
    ensures
        yes == glob_matches(pattern@, name@),
{
    glob_match::glob_match(pattern, name)
}

/// A name is excluded where one of the patterns matches it.
pub open spec fn is_excluded(exclude: Seq<Seq<char>>, name: Seq<char>) -> bool {
    exists|i: int| 0 <= i < exclude.len() && glob_matches(#[trigger] exclude[i], name)
}

fn is_excluded_name(exclude: &[String], name: &String) -> (yes: bool)
    requires
        forall|i: int| 0 <= i < exclude@.len() ==> matchable((#[trigger] exclude@[i])@, name@),
    ensures
        yes == is_excluded(texts(exclude@), name@),
{
    let mut i: usize = 0;
    while i < exclude.len()
        invariant
            i <= exclude@.len(),
            forall|k: int| 0 <= k < exclude@.len() ==> matchable((#[trigger] exclude@[k])@, name@),
            forall|k: int| 0 <= k < i ==> !glob_matches((#[trigger] exclude@[k])@, name@),
        decreases exclude@.len() - i,
    {
        if glob_match(&exclude[i], name) {
            assert(texts(exclude@)[i as int] == exclude@[i as int]@);
            return true;
        }
        i = i + 1;
    }
    assert forall|k: int| 0 <= k < exclude@.len() implies !glob_matches(
        #[trigger] texts(exclude@)[k],
        name@,
    ) by {
        assert(!glob_matches(exclude@[k]@, name@));
    }
    false
}

/// All patterns and the names of all packages can be matched.
pub open spec fn all_matchable(exclude: Seq<Seq<char>>, packages: Seq<PackageModel>) -> bool {
    forall|i: int, j: int|
        0 <= i < exclude.len() && 0 <= j < packages.len() ==> matchable(
            #[trigger] exclude[i],
            (#[trigger] packages[j]).name,
        )
}

/// Which packages glob patterns on their names exclude.
pub open spec fn excluded_by(exclude: Seq<Seq<char>>, packages: Seq<PackageModel>) -> Seq<bool> {
    packages.map_values(|package: PackageModel| is_excluded(exclude, package.name))
}

/// Which packages of a workspace glob patterns on their names exclude.
pub fn exclusions(exclude: &[String], metadata: &Metadata) -> (excluded: Vec<bool>)
    requires
        all_matchable(texts(exclude@), metadata@),
    ensures
        excluded@ == excluded_by(texts(exclude@), metadata@),
{
    let ghost patterns = texts(exclude@);
    let mut excluded: Vec<bool> = Vec::new();
    let mut j: usize = 0;
    while j < metadata.packages.len()
        invariant
            j <= metadata@.len(),
            excluded@.len() == j,
            patterns == texts(exclude@),
            all_matchable(patterns, metadata@),
            forall|k: int|
                0 <= k < j ==> #[trigger] excluded@[k] == is_excluded(patterns, metadata@[k].name),
        decreases metadata@.len() - j,
    {
        let name = &metadata.packages[j].name;
        assert forall|i: int| 0 <= i < exclude@.len() implies matchable(
            (#[trigger] exclude@[i])@,
            name@,
        ) by {
            assert(patterns[i] == exclude@[i]@);
            assert(metadata@[j as int].name == name@);
        }
        excluded.push(is_excluded_name(exclude, name));
        j = j + 1;
    }
    assert(excluded@ =~= excluded_by(patterns, metadata@));
    excluded
}

// ---------------------------------------------------------------------------
// The walk through a workspace
// ---------------------------------------------------------------------------

/// A dependency by path, that may lead out of the workspace.
#[derive(Debug)]
pub struct PathDependency {
    pub name: String,
    pub manifest_path: String,
}

pub struct PathDependencyModel {
    pub name: Seq<char>,
    pub manifest_path: Seq<char>,
}

impl View for PathDependency {
    type V = PathDependencyModel;

    open spec fn view(&self) -> PathDependencyModel {
        PathDependencyModel { name: self.name@, manifest_path: self.manifest_path@ }
    }
}

pub open spec fn path_dependency_models(dependencies: Seq<PathDependency>) -> Seq<
    PathDependencyModel,
> {
    dependencies.map_values(|dependency: PathDependency| dependency@)
}

/// Whether a manifest is that of one of the packages.
pub open spec fn is_member(packages: Seq<PackageModel>, manifest_path: Seq<char>) -> bool {
    exists|i: int| 0 <= i < packages.len() && (#[trigger] packages[i]).manifest_path == manifest_path
}

/// Those of some dependencies that lead out of the workspace, in order.
pub open spec fn leading_out(
    packages: Seq<PackageModel>,
    dependencies: Seq<DependencyModel>,
) -> Seq<PathDependencyModel>
    decreases dependencies.len(),
{
    if dependencies.len() == 0 {
        Seq::empty()
    } else {
        let before = leading_out(packages, dependencies.drop_last());
        let last = dependencies.last();
        match last.manifest_path {
            Some(manifest_path) => if is_member(packages, manifest_path) {
                before
            } else {
                before.push(PathDependencyModel { name: last.name, manifest_path })
            },
            None => before,
        }
    }
}

/// The dependencies of the first `count` packages, less the excluded ones, that
/// lead out of the workspace, in order.
pub open spec fn first_ways_out(
    packages: Seq<PackageModel>,
    excluded: Seq<bool>,
    count: nat,
) -> Seq<PathDependencyModel>
    decreases count,
{
    if count == 0 {
        Seq::empty()
    } else {
        let last = (count - 1) as nat;
        let before = first_ways_out(packages, excluded, last);
        if excluded[last as int] {
            before
        } else {
            before + leading_out(packages, packages[last as int].dependencies)
        }
    }
}

/// The dependencies of the packages that are not excluded, that lead out of the
/// workspace, in order.
pub open spec fn ways_out(packages: Seq<PackageModel>, excluded: Seq<bool>) -> Seq<
    PathDependencyModel,
> {
    first_ways_out(packages, excluded, packages.len())
}

/// The targets of the packages that are not excluded.
pub open spec fn kept_targets(packages: Seq<PackageModel>, excluded: Seq<bool>) -> Set<
    TargetModel,
> {
    chosen_targets(packages, excluded.map_values(|excluded: bool| !excluded))
}

/// The state of a walk: the targets that were found, the names of the
/// dependencies that were entered, and those that are still to be looked at,
/// the next one last.
#[verifier::ext_equal]
pub struct WalkModel {
    pub targets: Set<TargetModel>,
    pub visited: Set<Seq<char>>,
    pub pending: Seq<PathDependencyModel>,
}

/// The walk once the packages of a workspace are taken in: their targets are
/// found, and their ways out come before all others.
pub open spec fn taken_in(
    walk: WalkModel,
    packages: Seq<PackageModel>,
    excluded: Seq<bool>,
) -> WalkModel {
    WalkModel {
        targets: walk.targets.union(kept_targets(packages, excluded)),
        visited: walk.visited,
        pending: walk.pending + ways_out(packages, excluded).reverse(),
    }
}

/// The walk at its start, with the packages of the first workspace.
pub open spec fn started(packages: Seq<PackageModel>, excluded: Seq<bool>) -> WalkModel {
    taken_in(
        WalkModel { targets: Set::empty(), visited: Set::empty(), pending: Seq::empty() },
        packages,
        excluded,
    )
}

/// The walk once it has entered a dependency, with the packages found there.
pub open spec fn entered(
    walk: WalkModel,
    name: Seq<char>,
    packages: Seq<PackageModel>,
    excluded: Seq<bool>,
) -> WalkModel {
    taken_in(WalkModel { visited: walk.visited.insert(name), ..walk }, packages, excluded)
}

/// The next dependency to look at, and those that are pending after it: those
/// that were entered under the same name are passed over.
pub open spec fn next_of(
    visited: Set<Seq<char>>,
    pending: Seq<PathDependencyModel>,
) -> (Option<PathDependencyModel>, Seq<PathDependencyModel>)
    decreases pending.len(),
{
    if pending.len() == 0 {
        (None, pending)
    } else if visited.contains(pending.last().name) {
        next_of(visited, pending.drop_last())
    } else {
        (Some(pending.last()), pending.drop_last())
    }
}

/// A walk through a workspace, and through the workspaces that its packages
/// depend on by path. The caller reads manifests: it takes the next dependency,
/// and where its manifest exists enters it with the packages found there.
#[derive(Debug)]
pub struct WorkspaceWalk {
    targets: TargetSet,
    visited: NameSet,
    pending: Vec<PathDependency>,
}

impl View for WorkspaceWalk {
    type V = WalkModel;

    closed spec fn view(&self) -> WalkModel {
        WalkModel {
            targets: self.targets@,
            visited: self.visited@,
            pending: path_dependency_models(self.pending@),
        }
    }
}

fn is_member_path(metadata: &Metadata, manifest_path: &String) -> (yes: bool)
    requires
        packages_normal(metadata@),
        is_normal(manifest_path@),
    ensures
        yes == is_member(metadata@, manifest_path@),
{
    let mut i: usize = 0;
    while i < metadata.packages.len()
        invariant
            i <= metadata@.len(),
            forall|k: int| 0 <= k < i ==> (#[trigger] metadata@[k]).manifest_path != manifest_path@,
        decreases metadata@.len() - i,
    {
        assert(metadata@[i as int].manifest_path == metadata.packages@[i as int].manifest_path@);
        if metadata.packages[i].manifest_path == *manifest_path {
            return true;
        }
        i = i + 1;
    }
    false
}

/// Adds those of some dependencies that lead out of the workspace.
fn push_leading_out(
    metadata: &Metadata,
    dependencies: &Vec<Dependency>,
    found: &mut Vec<PathDependency>,
)
    requires
        packages_normal(metadata@),
        dependencies_normal(dependency_models(dependencies@)),
    ensures
        path_dependency_models(final(found)@) == path_dependency_models(old(found)@) + leading_out(
            metadata@,
            dependency_models(dependencies@),
        ),
{
    let ghost before = path_dependency_models(found@);
    let ghost all = dependency_models(dependencies@);
    let mut i: usize = 0;
    assert(before + leading_out(metadata@, all.take(0)) =~= before);
    while i < dependencies.len()
        invariant
            i <= dependencies@.len(),
            packages_normal(metadata@),
            all == dependency_models(dependencies@),
            dependencies_normal(all),
            path_dependency_models(found@) == before + leading_out(metadata@, all.take(i as int)),
        decreases dependencies@.len() - i,
    {
        let dependency = &dependencies[i];
        let ghost so_far = path_dependency_models(found@);
        proof {
            assert(all.take(i + 1).drop_last() =~= all.take(i as int));
            assert(all[i as int] == dependency@);
            assert(all.take(i + 1).last() == dependency@);
        }
        if let Some(manifest_path) = &dependency.manifest_path {
            if !is_member_path(metadata, manifest_path) {
                found.push(
                    PathDependency {
                        name: dependency.name.clone(),
                        manifest_path: manifest_path.clone(),
                    },
                );
                assert(path_dependency_models(found@) =~= so_far.push(found@.last()@));
            }
        }
        assert(path_dependency_models(found@) =~= before + leading_out(metadata@, all.take(i + 1)));
        i = i + 1;
    }
    assert(all.take(i as int) =~= all);
}

impl WorkspaceWalk {
    /// Nothing is there twice.
    pub closed spec fn wf(self) -> bool {
        self.targets.wf() && self.visited.wf()
    }

    fn take_in(&mut self, metadata: &Metadata, excluded: &Vec<bool>)
        requires
            old(self).wf(),
            packages_normal(metadata@),
            excluded@.len() == metadata@.len(),
        ensures
            final(self).wf(),
            final(self)@ == taken_in(old(self)@, metadata@, excluded@),
    {
        let ghost before = self@;
        let ghost packages = metadata@;
        let mut kept: Vec<bool> = Vec::new();
        let mut found: Vec<PathDependency> = Vec::new();
        let mut i: usize = 0;
        while i < metadata.packages.len()
            invariant
                i <= packages.len(),
                packages == metadata@,
                packages_normal(packages),
                excluded@.len() == packages.len(),
                kept@.len() == i,
                forall|k: int| 0 <= k < i ==> #[trigger] kept@[k] == !excluded@[k],
                path_dependency_models(found@) == first_ways_out(packages, excluded@, i as nat),
            decreases packages.len() - i,
        {
            assert(packages[i as int] == metadata.packages@[i as int]@);
            if !excluded[i] {
                push_leading_out(metadata, &metadata.packages[i].dependencies, &mut found);
            }
            kept.push(!excluded[i]);
            i = i + 1;
        }
        assert(kept@ =~= excluded@.map_values(|excluded: bool| !excluded));
        insert_chosen(metadata, &kept, &mut self.targets);

        let ghost ways = found@;
        let ghost pending = self.pending@;
        assert(ways.take(ways.len() as int) =~= ways);
        while found.len() > 0
            invariant
                found@ == ways.take(found@.len() as int),
                found@.len() <= ways.len(),
                self.targets.wf(),
                self.visited.wf(),
                self.targets@ == before.targets.union(kept_targets(packages, excluded@)),
                self.visited@ == before.visited,
                self.pending@ == pending + ways.skip(found@.len() as int).reverse(),
            decreases found@.len(),
        {
            let ghost left = found@.len() - 1;
            if let Some(way) = found.pop() {
                self.pending.push(way);
                proof {
                    assert(found@ =~= ways.take(left));
                    assert(ways.skip(left) =~= seq![way] + ways.skip(left + 1));
                    assert(self.pending@ =~= pending + ways.skip(left).reverse());
                }
            }
        }
        proof {
            assert(ways.skip(0) =~= ways);
            assert(path_dependency_models(self.pending@) =~= before.pending + ways_out(
                packages,
                excluded@,
            ).reverse());
            assert(self@ =~= taken_in(before, packages, excluded@));
        }
    }

    /// Starts a walk with the packages of a workspace.
    pub fn start(metadata: &Metadata, excluded: &Vec<bool>) -> (walk: WorkspaceWalk)
        requires
            packages_normal(metadata@),
            excluded@.len() == metadata@.len(),
        ensures
            walk.wf(),
            walk@ == started(metadata@, excluded@),
    {
        let mut walk = WorkspaceWalk {
            targets: TargetSet::new(),
            visited: NameSet::new(),
            pending: Vec::new(),
        };
        assert(walk@ =~= (WalkModel {
            targets: Set::empty(),
            visited: Set::empty(),
            pending: Seq::empty(),
        }));
        walk.take_in(metadata, excluded);
        walk
    }

    /// The next dependency to look at.
    pub fn next(&mut self) -> (dependency: Option<PathDependency>)
        requires
            old(self).wf(),
        ensures
            final(self).wf(),
            final(self)@ == (WalkModel {
                pending: next_of(old(self)@.visited, old(self)@.pending).1,
                ..old(self)@
            }),
            match dependency {
                Some(dependency) => next_of(old(self)@.visited, old(self)@.pending).0 == Some(
                    dependency@,
                ) && !final(self)@.visited.contains(dependency@.name),
                None => next_of(old(self)@.visited, old(self)@.pending).0 is None,
            },
    {
        let ghost before = self@;
        while self.pending.len() > 0
            invariant
                self.wf(),
                before == old(self)@,
                self@.targets == before.targets,
                self@.visited == before.visited,
                next_of(before.visited, self@.pending) == next_of(before.visited, before.pending),
            decreases self.pending@.len(),
        {
            let ghost pending = self@.pending;
            if let Some(dependency) = self.pending.pop() {
                assert(self@.pending =~= pending.drop_last());
                assert(pending.last() == dependency@);
                if !self.visited.contains(&dependency.name) {
                    return Some(dependency);
                }
            }
        }
        assert(self@.pending =~= Seq::<PathDependencyModel>::empty());
        None
    }

    /// Enters a dependency with the packages of its workspace.
    pub fn enter(&mut self, name: String, metadata: &Metadata, excluded: &Vec<bool>)
        requires
            old(self).wf(),
            packages_normal(metadata@),
            excluded@.len() == metadata@.len(),
        ensures
            final(self).wf(),
            final(self)@ == entered(old(self)@, name@, metadata@, excluded@),
    {
        let ghost before = self@;
        self.visited.insert(name);
        assert(self@ =~= (WalkModel { visited: before.visited.insert(name@), ..before }));
        self.take_in(metadata, excluded);
    }

    /// Starts a walk with the packages of a workspace, less those that glob
    /// patterns exclude.
    pub fn start_excluding(metadata: &Metadata, exclude: &[String]) -> (walk: WorkspaceWalk)
        requires
            packages_normal(metadata@),
            all_matchable(texts(exclude@), metadata@),
        ensures
            walk.wf(),
            walk@ == started(metadata@, excluded_by(texts(exclude@), metadata@)),
    {
        let excluded = exclusions(exclude, metadata);
        WorkspaceWalk::start(metadata, &excluded)
    }

    /// Enters a dependency with the packages of its workspace, less those that
    /// glob patterns exclude.
    pub fn enter_excluding(&mut self, name: String, metadata: &Metadata, exclude: &[String])
        requires
            old(self).wf(),
            packages_normal(metadata@),
            all_matchable(texts(exclude@), metadata@),
        ensures
            final(self).wf(),
            final(self)@ == entered(
                old(self)@,
                name@,
                metadata@,
                excluded_by(texts(exclude@), metadata@),
            ),
    {
        let excluded = exclusions(exclude, metadata);
        self.enter(name, metadata, &excluded);
    }

    /// The targets that were found.
    pub fn finish(self) -> (targets: TargetSet)
        requires
            self.wf(),
        ensures
            targets.wf(),
            targets@ == self@.targets,
    {
        self.targets
    }
}

// ---------------------------------------------------------------------------
// What a walk finds
// ---------------------------------------------------------------------------

/// The packages found at a manifest, and which of them are excluded; nothing
/// where the manifest does not exist.
pub type Manifests = spec_fn(Seq<char>) -> Option<(Seq<PackageModel>, Seq<bool>)>;

/// Looks at dependencies in order: one that was not visited and whose manifest
/// exists is visited, its targets are found, and its own ways out are looked at
/// before the dependencies after it. The names that were visited and the
/// targets that were found by then; nothing where that takes more than `depth`
/// nested visits.
pub open spec fn looked_at(
    manifests: Manifests,
    dependencies: Seq<PathDependencyModel>,
    visited: Set<Seq<char>>,
    targets: Set<TargetModel>,
    depth: nat,
) -> Option<(Set<Seq<char>>, Set<TargetModel>)>
    decreases depth, dependencies.len(),
{
    if dependencies.len() == 0 {
        Some((visited, targets))
    } else {
        let dependency = dependencies.first();
        let after = dependencies.drop_first();
        if visited.contains(dependency.name) {
            looked_at(manifests, after, visited, targets, depth)
        } else {
            match manifests(dependency.manifest_path) {
                None => looked_at(manifests, after, visited, targets, depth),
                Some((packages, excluded)) => if depth == 0 {
                    None
                } else {
                    match looked_at(
                        manifests,
                        ways_out(packages, excluded),
                        visited.insert(dependency.name),
                        targets.union(kept_targets(packages, excluded)),
                        (depth - 1) as nat,
                    ) {
                        None => None,
                        Some((visited, targets)) => looked_at(
                            manifests,
                            after,
                            visited,
                            targets,
                            depth,
                        ),
                    }
                },
            }
        }
    }
}

/// The targets that a walk finds which takes the next dependency, enters it
/// where its manifest exists, and so on until there is none; nothing where that
/// takes more than `rounds` rounds.
pub open spec fn found_by(manifests: Manifests, walk: WalkModel, rounds: nat) -> Option<
    Set<TargetModel>,
>
    decreases rounds,
{
    let (next, pending) = next_of(walk.visited, walk.pending);
    let left = WalkModel { pending, ..walk };
    match next {
        None => Some(walk.targets),
        Some(dependency) => if rounds == 0 {
            None
        } else {
            match manifests(dependency.manifest_path) {
                None => found_by(manifests, left, (rounds - 1) as nat),
                Some((packages, excluded)) => found_by(
                    manifests,
                    entered(left, dependency.name, packages, excluded),
                    (rounds - 1) as nat,
                ),
            }
        },
    }
}

/// A walk with dependencies ahead finds what it would find after they were
/// looked at.
proof fn lemma_looking_ahead(
    manifests: Manifests,
    dependencies: Seq<PathDependencyModel>,
    walk: WalkModel,
    depth: nat,
    rounds: nat,
) -> (more: nat)
    requires
        looked_at(manifests, dependencies, walk.visited, walk.targets, depth) is Some,
        ({
            let (visited, targets) = looked_at(
                manifests,
                dependencies,
                walk.visited,
                walk.targets,
                depth,
            ).unwrap();
            found_by(manifests, WalkModel { visited, targets, ..walk }, rounds) is Some
        }),
    ensures
        ({
            let (visited, targets) = looked_at(
                manifests,
                dependencies,
                walk.visited,
                walk.targets,
                depth,
            ).unwrap();
            found_by(
                manifests,
                WalkModel { pending: walk.pending + dependencies.reverse(), ..walk },
                more,
            ) == found_by(manifests, WalkModel { visited, targets, ..walk }, rounds)
        }),
    decreases depth, dependencies.len(),
{
    let all = WalkModel { pending: walk.pending + dependencies.reverse(), ..walk };
    if dependencies.len() == 0 {
        assert(all.pending =~= walk.pending);
        rounds
    } else {
        let dependency = dependencies.first();
        let after = dependencies.drop_first();
        let rest = WalkModel { pending: walk.pending + after.reverse(), ..walk };
        assert(all.pending =~= rest.pending.push(dependency));
        assert(all.pending.drop_last() =~= rest.pending);
        if walk.visited.contains(dependency.name) {
            lemma_looking_ahead(manifests, after, walk, depth, rounds)
        } else {
            match manifests(dependency.manifest_path) {
                None => {
                    let more = lemma_looking_ahead(manifests, after, walk, depth, rounds);
                    more + 1
                },
                Some((packages, excluded)) => {
                    let inner = WalkModel {
                        visited: walk.visited.insert(dependency.name),
                        targets: walk.targets.union(kept_targets(packages, excluded)),
                        pending: rest.pending,
                    };
                    let (visited, targets) = looked_at(
                        manifests,
                        ways_out(packages, excluded),
                        inner.visited,
                        inner.targets,
                        (depth - 1) as nat,
                    ).unwrap();
                    let later = WalkModel { visited, targets, ..walk };
                    let outer = lemma_looking_ahead(manifests, after, later, depth, rounds);
                    let more = lemma_looking_ahead(
                        manifests,
                        ways_out(packages, excluded),
                        inner,
                        (depth - 1) as nat,
                        outer,
                    );
                    more + 1
                },
            }
        }
    }
}

/// A walk finds the targets of the packages of the first workspace that are not
/// excluded, and those that are found where its ways out are looked at in
/// order, each together with its own, and none under a name that was visited.
pub proof fn law_walk_looks_at_all(
    manifests: Manifests,
    packages: Seq<PackageModel>,
    excluded: Seq<bool>,
    depth: nat,
)
    requires
        looked_at(
            manifests,
            ways_out(packages, excluded),
            Set::empty(),
            kept_targets(packages, excluded),
            depth,
        ) is Some,
    ensures
        exists|rounds: nat| #[trigger]
            found_by(manifests, started(packages, excluded), rounds) == Some(
                looked_at(
                    manifests,
                    ways_out(packages, excluded),
                    Set::empty(),
                    kept_targets(packages, excluded),
                    depth,
                ).unwrap().1,
            ),
{
    let walk = WalkModel {
        targets: kept_targets(packages, excluded),
        visited: Set::empty(),
        pending: Seq::empty(),
    };
    let more = lemma_looking_ahead(manifests, ways_out(packages, excluded), walk, depth, 0);
    assert(started(packages, excluded) =~= (WalkModel {
        pending: walk.pending + ways_out(packages, excluded).reverse(),
        ..walk
    }));
}

/// All ways out that are found at the manifests have names among `names`.
pub open spec fn names_within(manifests: Manifests, names: Set<Seq<char>>) -> bool {
    forall|path: Seq<char>|
        (#[trigger] manifests(path)) matches Some((packages, excluded)) ==> all_named(
            ways_out(packages, excluded),
            names,
        )
}

/// All dependencies have names among `names`.
pub open spec fn all_named(dependencies: Seq<PathDependencyModel>, names: Set<Seq<char>>) -> bool {
    forall|i: int| 0 <= i < dependencies.len() ==> names.contains((#[trigger] dependencies[i]).name)
}

/// No more visits are nested than there are names left to visit.
proof fn lemma_depth_suffices(
    manifests: Manifests,
    dependencies: Seq<PathDependencyModel>,
    visited: Set<Seq<char>>,
    targets: Set<TargetModel>,
    names: Set<Seq<char>>,
    depth: nat,
)
    requires
        names.finite(),
        names_within(manifests, names),
        all_named(dependencies, names),
        names.difference(visited).len() <= depth,
    ensures
        looked_at(manifests, dependencies, visited, targets, depth) is Some,
        visited.subset_of(
            looked_at(manifests, dependencies, visited, targets, depth).unwrap().0,
        ),
    decreases depth, dependencies.len(),
{
    if dependencies.len() > 0 {
        let dependency = dependencies.first();
        let after = dependencies.drop_first();
        assert(all_named(after, names));
        assert(names.contains(dependencies[0].name));
        if visited.contains(dependency.name) {
            lemma_depth_suffices(manifests, after, visited, targets, names, depth);
        } else {
            match manifests(dependency.manifest_path) {
                None => {
                    lemma_depth_suffices(manifests, after, visited, targets, names, depth);
                },
                Some((packages, excluded)) => {
                    let now = visited.insert(dependency.name);
                    let left = names.difference(visited);
                    assert(left.contains(dependency.name));
                    assert(names.difference(now) =~= left.remove(dependency.name));
                    assert(left.len() > 0);
                    let inner_targets = targets.union(kept_targets(packages, excluded));
                    let inner_depth = (depth - 1) as nat;
                    let inner = ways_out(packages, excluded);
                    lemma_depth_suffices(manifests, inner, now, inner_targets, names, inner_depth);
                    let (later, later_targets) = looked_at(
                        manifests,
                        inner,
                        now,
                        inner_targets,
                        inner_depth,
                    ).unwrap();
                    vstd::set_lib::lemma_len_subset(names.difference(later), left);
                    lemma_depth_suffices(manifests, after, later, later_targets, names, depth);
                },
            }
        }
    }
}

/// Where the dependencies have finitely many names, a walk ends, even where
/// they depend on each other in circles.
pub proof fn law_walk_ends(
    manifests: Manifests,
    packages: Seq<PackageModel>,
    excluded: Seq<bool>,
    names: Set<Seq<char>>,
)
    requires
        names.finite(),
        names_within(manifests, names),
        all_named(ways_out(packages, excluded), names),
    ensures
        looked_at(
            manifests,
            ways_out(packages, excluded),
            Set::empty(),
            kept_targets(packages, excluded),
            names.len(),
        ) is Some,
        exists|rounds: nat|
            (#[trigger] found_by(manifests, started(packages, excluded), rounds)) is Some,
{
    assert(names.difference(Set::empty()) =~= names);
    lemma_depth_suffices(
        manifests,
        ways_out(packages, excluded),
        Set::empty(),
        kept_targets(packages, excluded),
        names,
        names.len(),
    );
    law_walk_looks_at_all(manifests, packages, excluded, names.len());
}

/// Whatever is found at the manifests, a walk keeps the targets that it has
/// found and the names that it has visited, and visits no name twice.
pub proof fn law_walk_grows(
    walk: WalkModel,
    packages: Seq<PackageModel>,
    excluded: Seq<bool>,
)
    ensures
        ({
            let (next, pending) = next_of(walk.visited, walk.pending);
            &&& next is Some ==> !walk.visited.contains(next.unwrap().name)
            &&& next is Some ==> ({
                let name = next.unwrap().name;
                let after = entered(WalkModel { pending, ..walk }, name, packages, excluded);
                &&& walk.targets.subset_of(after.targets)
                &&& kept_targets(packages, excluded).subset_of(after.targets)
                &&& after.visited == walk.visited.insert(name)
            })
        }),
    decreases walk.pending.len(),
{
    if walk.pending.len() > 0 && walk.visited.contains(walk.pending.last().name) {
        law_walk_grows(
            WalkModel { pending: walk.pending.drop_last(), ..walk },
            packages,
            excluded,
        );
    }
}

/// Each way out of a workspace is a dependency of a package that is not
/// excluded, with a manifest that is of no package of the workspace.
pub proof fn law_ways_lead_out(packages: Seq<PackageModel>, excluded: Seq<bool>, i: int)
    requires
        0 <= i < ways_out(packages, excluded).len(),
    ensures
        !is_member(packages, ways_out(packages, excluded)[i].manifest_path),
        exists|k: int, d: int|
            #![trigger packages[k].dependencies[d]]
            0 <= k < packages.len() && !excluded[k] && 0 <= d < packages[k].dependencies.len()
                && packages[k].dependencies[d] == (DependencyModel {
                name: ways_out(packages, excluded)[i].name,
                manifest_path: Some(ways_out(packages, excluded)[i].manifest_path),
            }),
{
    lemma_first_ways_out(packages, excluded, packages.len(), i);
}

proof fn lemma_first_ways_out(
    packages: Seq<PackageModel>,
    excluded: Seq<bool>,
    count: nat,
    i: int,
)
    requires
        count <= packages.len(),
        0 <= i < first_ways_out(packages, excluded, count).len(),
    ensures
        ({
            let way = first_ways_out(packages, excluded, count)[i];
            &&& !is_member(packages, way.manifest_path)
            &&& exists|k: int, d: int|
                #![trigger packages[k].dependencies[d]]
                0 <= k < packages.len() && !excluded[k] && 0 <= d < packages[k].dependencies.len()
                    && packages[k].dependencies[d] == (DependencyModel {
                    name: way.name,
                    manifest_path: Some(way.manifest_path),
                })
        }),
    decreases count,
{
    let last = (count - 1) as nat;
    let before = first_ways_out(packages, excluded, last);
    if i < before.len() {
        lemma_first_ways_out(packages, excluded, last, i);
    } else {
        lemma_leading_out(packages, packages[last as int].dependencies, i - before.len());
    }
}

proof fn lemma_leading_out(
    packages: Seq<PackageModel>,
    dependencies: Seq<DependencyModel>,
    i: int,
)
    requires
        0 <= i < leading_out(packages, dependencies).len(),
    ensures
        ({
            let way = leading_out(packages, dependencies)[i];
            &&& !is_member(packages, way.manifest_path)
            &&& exists|d: int|
                0 <= d < dependencies.len() && #[trigger] dependencies[d] == (DependencyModel {
                    name: way.name,
                    manifest_path: Some(way.manifest_path),
                })
        }),
    decreases dependencies.len(),
{
    let before = leading_out(packages, dependencies.drop_last());
    if i < before.len() {
        lemma_leading_out(packages, dependencies.drop_last(), i);
        let way = before[i];
        let d = choose|d: int|
            0 <= d < dependencies.drop_last().len() && #[trigger] dependencies.drop_last()[d] == (
            DependencyModel { name: way.name, manifest_path: Some(way.manifest_path) });
        assert(dependencies[d] == dependencies.drop_last()[d]);
    } else {
        assert(dependencies[dependencies.len() - 1] == dependencies.last());
    }
}

// ---------------------------------------------------------------------------
// Reading metadata
// ---------------------------------------------------------------------------

/// The further options with which metadata is asked for after so many failures:
/// offline at first, once more without, and then no more.
pub open spec fn options_after(failures: nat) -> Option<Seq<Seq<char>>> {
    if failures == 0 {
        Some(seq!["--offline"@])
    } else if failures == 1 {
        Some(Seq::empty())
    } else {
        None
    }
}

/// The further options with which metadata is asked for after so many failures.
pub fn metadata_options(failures: usize) -> (options: Option<Vec<String>>)
    ensures
        match options {
            Some(options) => options_after(failures as nat) == Some(texts(options@)),
            None => options_after(failures as nat) is None,
        },
{
    if failures == 0 {
        let mut options: Vec<String> = Vec::new();
        options.push("--offline".to_owned());
        assert(texts(options@) =~= seq!["--offline"@]);
        Some(options)
    } else if failures == 1 {
        let options: Vec<String> = Vec::new();
        assert(texts(options@) =~= Seq::empty());
        Some(options)
    } else {
        None
    }
}

// ---------------------------------------------------------------------------
// What is found
// ---------------------------------------------------------------------------

/// The model of metadata shows each package, with its name, its manifest, its
/// targets and its dependencies, in their order.
pub proof fn law_metadata(metadata: Metadata)
    ensures
        metadata@.len() == metadata.packages@.len(),
        forall|i: int|
            0 <= i < metadata@.len() ==> (#[trigger] metadata@[i]).name
                == metadata.packages@[i].name@ && metadata@[i].manifest_path
                == metadata.packages@[i].manifest_path@ && metadata@[i].targets.len()
                == metadata.packages@[i].targets@.len() && metadata@[i].dependencies.len()
                == metadata.packages@[i].dependencies@.len(),
        forall|i: int, t: int|
            0 <= i < metadata@.len() && 0 <= t < metadata@[i].targets.len()
                ==> #[trigger] metadata@[i].targets[t] == metadata.packages@[i].targets@[t]@,
        forall|i: int, d: int|
            0 <= i < metadata@.len() && 0 <= d < metadata@[i].dependencies.len() ==> (
            #[trigger] metadata@[i].dependencies[d]).name
                == metadata.packages@[i].dependencies@[d].name@
                && match metadata.packages@[i].dependencies@[d].manifest_path {
                Some(path) => metadata@[i].dependencies[d].manifest_path == Some(path@),
                None => metadata@[i].dependencies[d].manifest_path is None,
            },
{
}

/// The targets at hand are those of the packages at hand: of the only package; of
/// all, at the root of the workspace; and always of a package whose manifest is
/// the one at hand.
pub proof fn law_root_targets(packages: Seq<PackageModel>, place: Place, target: TargetModel)
    ensures
        at_hand(packages.len(), place).len() == packages.len(),
        place.workspace_root@ == place.location@ ==> forall|i: int|
            0 <= i < packages.len() ==> #[trigger] at_hand(packages.len(), place)[i],
        forall|i: int|
            0 <= i < packages.len() && place.package_manifests@[i]@ == place.manifest@
                ==> #[trigger] at_hand(packages.len(), place)[i],
        packages.len() == 1 ==> at_hand(packages.len(), place)[0],
        chosen_targets(packages, at_hand(packages.len(), place)).contains(target) <==> exists|
            i: int,
            t: int,
        |
            0 <= i < packages.len() && 0 <= t < packages[i].targets.len()
                && #[trigger] packages[i].targets[t] == target && (packages.len() == 1
                || place.workspace_root@ == place.location@ || place.package_manifests@[i]@
                == place.manifest@),
{
    let chosen = at_hand(packages.len(), place);
    if chosen_targets(packages, chosen).contains(target) {
        let i = choose|i: int|
            0 <= i < packages.len() && chosen[i] && (#[trigger] packages[i]).targets.contains(
                target,
            );
        let t = choose|t: int|
            0 <= t < packages[i].targets.len() && packages[i].targets[t] == target;
        assert(packages[i].targets[t] == target);
    }
    if exists|i: int, t: int|
        0 <= i < packages.len() && 0 <= t < packages[i].targets.len()
            && #[trigger] packages[i].targets[t] == target && (packages.len() == 1
            || place.workspace_root@ == place.location@ || place.package_manifests@[i]@
            == place.manifest@) {
        let (i, t) = choose|i: int, t: int|
            0 <= i < packages.len() && 0 <= t < packages[i].targets.len()
                && #[trigger] packages[i].targets[t] == target && (packages.len() == 1
                || place.workspace_root@ == place.location@ || place.package_manifests@[i]@
                == place.manifest@);
        assert(chosen[i] && packages[i].targets.contains(target));
    }
}

/// The targets of packages that are asked for by name are those of the first
/// package of each name. A name is missing where no package has it.
pub proof fn law_package_targets(
    packages: Seq<PackageModel>,
    names: Seq<String>,
    target: TargetModel,
    name: Seq<char>,
)
    ensures
        chosen_targets(packages, asked_for(packages, texts(names).to_set())).contains(target)
            <==> exists|i: int, t: int, n: int|
            0 <= i < packages.len() && 0 <= t < packages[i].targets.len() && 0 <= n < names.len()
                && #[trigger] packages[i].targets[t] == target && (#[trigger] names[n])@
                == packages[i].name && forall|j: int|
                0 <= j < i ==> (#[trigger] packages[j]).name != packages[i].name,
        missing(packages, texts(names).to_set()).contains(name) <==> (exists|n: int|
            0 <= n < names.len() && (#[trigger] names[n])@ == name) && forall|i: int|
            0 <= i < packages.len() ==> (#[trigger] packages[i]).name != name,
{
    let set = texts(names).to_set();
    let chosen = asked_for(packages, set);
    if chosen_targets(packages, chosen).contains(target) {
        let i = choose|i: int|
            0 <= i < packages.len() && chosen[i] && (#[trigger] packages[i]).targets.contains(
                target,
            );
        let t = choose|t: int|
            0 <= t < packages[i].targets.len() && packages[i].targets[t] == target;
        assert(packages[i].targets[t] == target);
        let n = choose|n: int| 0 <= n < texts(names).len() && texts(names)[n] == packages[i].name;
        assert(names[n]@ == packages[i].name);
    }
    if exists|i: int, t: int, n: int|
        0 <= i < packages.len() && 0 <= t < packages[i].targets.len() && 0 <= n < names.len()
            && #[trigger] packages[i].targets[t] == target && (#[trigger] names[n])@
            == packages[i].name && forall|j: int|
            0 <= j < i ==> (#[trigger] packages[j]).name != packages[i].name {
        let (i, t, n) = choose|i: int, t: int, n: int|
            0 <= i < packages.len() && 0 <= t < packages[i].targets.len() && 0 <= n < names.len()
                && #[trigger] packages[i].targets[t] == target && (#[trigger] names[n])@
                == packages[i].name && forall|j: int|
                0 <= j < i ==> (#[trigger] packages[j]).name != packages[i].name;
        assert(texts(names)[n] == packages[i].name);
        assert(chosen[i] && packages[i].targets.contains(target));
    }
    if set.contains(name) {
        let n = choose|n: int| 0 <= n < texts(names).len() && texts(names)[n] == name;
        assert(names[n]@ == name);
    }
    if exists|n: int| 0 <= n < names.len() && (#[trigger] names[n])@ == name {
        let n = choose|n: int| 0 <= n < names.len() && (#[trigger] names[n])@ == name;
        assert(texts(names)[n] == name);
    }
}

/// What is told of a missing package is its name, between the same words for all.
pub proof fn law_message(error: MissingPackage)
    ensures
        error.spec_message() == "package `"@ + error.name@
            + "` is not a member of the workspace"@,
{
}

/// A package is excluded where one of the patterns matches its name. The targets
/// that are kept are those of all other packages.
pub proof fn law_kept_targets(
    packages: Seq<PackageModel>,
    exclude: Seq<Seq<char>>,
    target: TargetModel,
)
    ensures
        excluded_by(exclude, packages).len() == packages.len(),
        forall|i: int|
            0 <= i < packages.len() ==> (#[trigger] excluded_by(exclude, packages)[i] <==> exists|
                p: int,
            |
                0 <= p < exclude.len() && glob_matches(#[trigger] exclude[p], packages[i].name)),
        kept_targets(packages, excluded_by(exclude, packages)).contains(target) <==> exists|
            i: int,
            t: int,
        |
            0 <= i < packages.len() && 0 <= t < packages[i].targets.len()
                && #[trigger] packages[i].targets[t] == target && forall|p: int|
                0 <= p < exclude.len() ==> !glob_matches(#[trigger] exclude[p], packages[i].name),
{
    let excluded = excluded_by(exclude, packages);
    law_kept_targets_of(packages, excluded, target);
    if kept_targets(packages, excluded).contains(target) {
        let (i, t) = choose|i: int, t: int|
            0 <= i < packages.len() && 0 <= t < packages[i].targets.len()
                && #[trigger] packages[i].targets[t] == target && !excluded[i];
        assert(!is_excluded(exclude, packages[i].name));
    }
    if exists|i: int, t: int|
        0 <= i < packages.len() && 0 <= t < packages[i].targets.len()
            && #[trigger] packages[i].targets[t] == target && forall|p: int|
            0 <= p < exclude.len() ==> !glob_matches(#[trigger] exclude[p], packages[i].name) {
        let (i, t) = choose|i: int, t: int|
            0 <= i < packages.len() && 0 <= t < packages[i].targets.len()
                && #[trigger] packages[i].targets[t] == target && forall|p: int|
                0 <= p < exclude.len() ==> !glob_matches(#[trigger] exclude[p], packages[i].name);
        assert(!excluded[i]);
    }
}

/// The targets that are kept are those of all packages that are not excluded.
pub proof fn law_kept_targets_of(
    packages: Seq<PackageModel>,
    excluded: Seq<bool>,
    target: TargetModel,
)
    requires
        excluded.len() == packages.len(),
    ensures
        kept_targets(packages, excluded).contains(target) <==> exists|i: int, t: int|
            0 <= i < packages.len() && 0 <= t < packages[i].targets.len()
                && #[trigger] packages[i].targets[t] == target && !excluded[i],
{
    let chosen = excluded.map_values(|excluded: bool| !excluded);
    if kept_targets(packages, excluded).contains(target) {
        let i = choose|i: int|
            0 <= i < packages.len() && chosen[i] && (#[trigger] packages[i]).targets.contains(
                target,
            );
        let t = choose|t: int|
            0 <= t < packages[i].targets.len() && packages[i].targets[t] == target;
        assert(packages[i].targets[t] == target);
    }
    if exists|i: int, t: int|
        0 <= i < packages.len() && 0 <= t < packages[i].targets.len()
            && #[trigger] packages[i].targets[t] == target && !excluded[i] {
        let (i, t) = choose|i: int, t: int|
            0 <= i < packages.len() && 0 <= t < packages[i].targets.len()
                && #[trigger] packages[i].targets[t] == target && !excluded[i];
        assert(chosen[i] && packages[i].targets.contains(target));
    }
}

/// A dependency has a manifest that is of none of the packages.
pub open spec fn has_way_out(packages: Seq<PackageModel>, dependency: DependencyModel) -> bool {
    dependency.manifest_path matches Some(path) && forall|j: int|
        0 <= j < packages.len() ==> (#[trigger] packages[j]).manifest_path != path
}

/// One place among the dependencies of packages comes before another: with the
/// package, or within it.
pub open spec fn earlier(a: (int, int), b: (int, int)) -> bool {
    a.0 < b.0 || (a.0 == b.0 && a.1 < b.1)
}

/// The ways out of a workspace are all dependencies by path of the packages that
/// are not excluded, but those on packages of the workspace, each once, in the
/// order of the packages and of their dependencies; `from` are their places.
pub proof fn law_all_ways_out(packages: Seq<PackageModel>, excluded: Seq<bool>) -> (from: Seq<
    (int, int),
>)
    requires
        excluded.len() == packages.len(),
    ensures
        from.len() == ways_out(packages, excluded).len(),
        forall|n: int|
            0 <= n < from.len() ==> {
                let way = #[trigger] ways_out(packages, excluded)[n];
                let dependency = packages[from[n].0].dependencies[from[n].1];
                dependency.name == way.name && dependency.manifest_path == Some(way.manifest_path)
            },
        forall|n: int, m: int| 0 <= n < m < from.len() ==> earlier(from[n], from[m]),
        forall|k: int, d: int| #[trigger]
            from.contains((k, d)) <==> 0 <= k < packages.len() && 0 <= d
                < packages[k].dependencies.len() && !excluded[k] && has_way_out(
                packages,
                packages[k].dependencies[d],
            ),
{
    lemma_all_first_ways_out(packages, excluded, packages.len())
}

/// Each dependency by path of a package that is not excluded, on a manifest of no
/// package of the workspace, is a way out.
pub proof fn law_no_way_out_is_forgotten(
    packages: Seq<PackageModel>,
    excluded: Seq<bool>,
    k: int,
    d: int,
    path: Seq<char>,
)
    requires
        excluded.len() == packages.len(),
        0 <= k < packages.len(),
        !excluded[k],
        0 <= d < packages[k].dependencies.len(),
        packages[k].dependencies[d].manifest_path == Some(path),
        forall|j: int| 0 <= j < packages.len() ==> (#[trigger] packages[j]).manifest_path != path,
    ensures
        ways_out(packages, excluded).contains(
            PathDependencyModel { name: packages[k].dependencies[d].name, manifest_path: path },
        ),
{
    let from = law_all_ways_out(packages, excluded);
    assert(from.contains((k, d)));
    let n = choose|n: int| 0 <= n < from.len() && from[n] == (k, d);
    let way = ways_out(packages, excluded)[n];
    assert(way == (PathDependencyModel {
        name: packages[k].dependencies[d].name,
        manifest_path: path,
    }));
}

proof fn lemma_all_first_ways_out(
    packages: Seq<PackageModel>,
    excluded: Seq<bool>,
    count: nat,
) -> (from: Seq<(int, int)>)
    requires
        excluded.len() == packages.len(),
        count <= packages.len(),
    ensures
        from.len() == first_ways_out(packages, excluded, count).len(),
        forall|n: int|
            0 <= n < from.len() ==> {
                let way = #[trigger] first_ways_out(packages, excluded, count)[n];
                let dependency = packages[from[n].0].dependencies[from[n].1];
                dependency.name == way.name && dependency.manifest_path == Some(way.manifest_path)
            },
        forall|n: int, m: int| 0 <= n < m < from.len() ==> earlier(from[n], from[m]),
        forall|k: int, d: int| #[trigger]
            from.contains((k, d)) <==> 0 <= k < count && 0 <= d < packages[k].dependencies.len()
                && !excluded[k] && has_way_out(packages, packages[k].dependencies[d]),
    decreases count,
{
    if count == 0 {
        Seq::empty()
    } else {
        let last = (count - 1) as nat;
        let k0 = last as int;
        let before = lemma_all_first_ways_out(packages, excluded, last);
        if excluded[k0] {
            before
        } else {
            let dependencies = packages[k0].dependencies;
            let places = lemma_all_leading_out(packages, dependencies);
            let own = places.map_values(|d: int| (k0, d));
            let from = before + own;
            let ways = first_ways_out(packages, excluded, count);
            let earlier_ways = first_ways_out(packages, excluded, last);
            assert forall|n: int| 0 <= n < from.len() implies ({
                let way = #[trigger] ways[n];
                let dependency = packages[from[n].0].dependencies[from[n].1];
                dependency.name == way.name && dependency.manifest_path == Some(way.manifest_path)
            }) by {
                if n < before.len() {
                    assert(ways[n] == earlier_ways[n]);
                } else {
                    let m = n - before.len();
                    assert(ways[n] == leading_out(packages, dependencies)[m]);
                    assert(from[n] == (k0, places[m]));
                }
            }
            assert forall|k: int, d: int| #[trigger]
                from.contains((k, d)) <==> 0 <= k < count && 0 <= d
                    < packages[k].dependencies.len() && !excluded[k] && has_way_out(
                    packages,
                    packages[k].dependencies[d],
                ) by {
                if before.contains((k, d)) {
                    let n = choose|n: int| 0 <= n < before.len() && before[n] == (k, d);
                    assert(from[n] == (k, d));
                }
                if k == k0 && places.contains(d) {
                    let m = choose|m: int| 0 <= m < places.len() && places[m] == d;
                    assert(from[before.len() + m] == (k, d));
                }
                if from.contains((k, d)) {
                    let n = choose|n: int| 0 <= n < from.len() && from[n] == (k, d);
                    if n < before.len() {
                        assert(before[n] == (k, d));
                    } else {
                        assert(places[n - before.len()] == d);
                    }
                }
            }
            assert forall|n: int, m: int| 0 <= n < m < from.len() implies earlier(
                from[n],
                from[m],
            ) by {
                if n < before.len() {
                    assert(from[n] == before[n]);
                    assert(before.contains((from[n].0, from[n].1)));
                    if m < before.len() {
                        assert(from[m] == before[m]);
                    }
                } else {
                    assert(places[n - before.len()] < places[m - before.len()]);
                }
            }
            from
        }
    }
}

proof fn lemma_all_leading_out(
    packages: Seq<PackageModel>,
    dependencies: Seq<DependencyModel>,
) -> (places: Seq<int>)
    ensures
        in_order(places, dependencies.len()),
        places.len() == leading_out(packages, dependencies).len(),
        forall|n: int|
            0 <= n < places.len() ==> {
                let way = #[trigger] leading_out(packages, dependencies)[n];
                dependencies[places[n]].name == way.name && dependencies[places[n]].manifest_path
                    == Some(way.manifest_path)
            },
        forall|d: int|
            0 <= d < dependencies.len() ==> (#[trigger] places.contains(d) <==> has_way_out(
                packages,
                dependencies[d],
            )),
    decreases dependencies.len(),
{
    if dependencies.len() == 0 {
        Seq::empty()
    } else {
        let rest = dependencies.drop_last();
        let last = dependencies.last();
        let d0 = rest.len() as int;
        let before = lemma_all_leading_out(packages, rest);
        lemma_one_more_place(before, rest.len());
        let leads = last.manifest_path is Some && !is_member(packages, last.manifest_path->0);
        assert(leads == has_way_out(packages, last));
        let places = if leads {
            before.push(d0)
        } else {
            before
        };
        let ways = leading_out(packages, dependencies);
        assert forall|n: int| 0 <= n < places.len() implies ({
            let way = #[trigger] ways[n];
            dependencies[places[n]].name == way.name && dependencies[places[n]].manifest_path
                == Some(way.manifest_path)
        }) by {
            if n < before.len() {
                assert(ways[n] == leading_out(packages, rest)[n]);
                assert(rest[before[n]] == dependencies[places[n]]);
            }
        }
        assert forall|d: int| 0 <= d < dependencies.len() implies (#[trigger] places.contains(d)
            <==> has_way_out(packages, dependencies[d])) by {
            if d < d0 {
                assert(before.contains(d) <==> has_way_out(packages, rest[d]));
            }
        }
        places
    }
}

/// A walk takes in the targets that are kept, and puts the ways out before all
/// that is pending, the first of them to be looked at first. At its start it has
/// no more than that; where it enters a dependency, it visits its name.
pub proof fn law_walk_takes_in(
    walk: WalkModel,
    name: Seq<char>,
    packages: Seq<PackageModel>,
    excluded: Seq<bool>,
)
    ensures
        ({
            let start = started(packages, excluded);
            let after = entered(walk, name, packages, excluded);
            let ways = ways_out(packages, excluded);
            let kept = kept_targets(packages, excluded);
            &&& forall|target: TargetModel|
                start.targets.contains(target) == #[trigger] kept.contains(target)
            &&& forall|other: Seq<char>| !(#[trigger] start.visited.contains(other))
            &&& start.pending.len() == ways.len()
            &&& forall|n: int|
                0 <= n < ways.len() ==> #[trigger] start.pending[ways.len() - 1 - n] == ways[n]
            &&& forall|target: TargetModel| #[trigger]
                after.targets.contains(target) <==> walk.targets.contains(target) || kept.contains(
                    target,
                )
            &&& forall|other: Seq<char>| #[trigger]
                after.visited.contains(other) <==> walk.visited.contains(other) || other == name
            &&& after.pending.len() == walk.pending.len() + ways.len()
            &&& forall|n: int|
                0 <= n < walk.pending.len() ==> #[trigger] after.pending[n] == walk.pending[n]
            &&& forall|n: int|
                0 <= n < ways.len() ==> #[trigger] after.pending[after.pending.len() - 1 - n]
                    == ways[n]
        }),
{
}

/// The next dependency is the last pending one under a name that was not visited;
/// those behind it are dropped, and those before it stay. There is none only
/// where all names were visited.
pub proof fn law_next(visited: Set<Seq<char>>, pending: Seq<PathDependencyModel>)
    ensures
        match next_of(visited, pending) {
            (Some(next), left) => exists|n: int|
                0 <= n < pending.len() && #[trigger] pending[n] == next && !visited.contains(
                    next.name,
                ) && left == pending.take(n) && forall|m: int|
                    n < m < pending.len() ==> visited.contains((#[trigger] pending[m]).name),
            (None, left) => left.len() == 0 && forall|m: int|
                0 <= m < pending.len() ==> visited.contains((#[trigger] pending[m]).name),
        },
    decreases pending.len(),
{
    if pending.len() > 0 {
        let rest = pending.drop_last();
        let last = pending.len() - 1;
        if visited.contains(pending[last].name) {
            law_next(visited, rest);
            if let (Some(next), left) = next_of(visited, rest) {
                let n = choose|n: int|
                    0 <= n < rest.len() && #[trigger] rest[n] == next && !visited.contains(
                        next.name,
                    ) && left == rest.take(n) && forall|m: int|
                        n < m < rest.len() ==> visited.contains((#[trigger] rest[m]).name);
                assert(pending[n] == next);
                assert(pending.take(n) =~= rest.take(n));
                assert forall|m: int| n < m < pending.len() implies visited.contains(
                    (#[trigger] pending[m]).name,
                ) by {
                    if m < last {
                        assert(rest[m] == pending[m]);
                    }
                }
            } else {
                assert forall|m: int| 0 <= m < pending.len() implies visited.contains(
                    (#[trigger] pending[m]).name,
                ) by {
                    if m < last {
                        assert(rest[m] == pending[m]);
                    }
                }
            }
        } else {
            assert(pending[last] == pending.last());
            assert(pending.take(last) =~= rest);
        }
    }
}

/// Metadata is asked for at most twice: once with the option to stay offline,
/// and once without any.
pub proof fn law_metadata_options(failures: nat)
    ensures
        options_after(failures) is Some <==> failures < 2,
        options_after(0) matches Some(options) && options.len() == 1 && options[0] == "--offline"@,
        options_after(1) matches Some(options) && options.len() == 0,
{
}

/// The model of a dependency by path shows its name and its manifest.
pub proof fn law_path_dependency(dependency: PathDependency)
    ensures
        dependency@.name == dependency.name@,
        dependency@.manifest_path == dependency.manifest_path@,
{
}

} // verus!
