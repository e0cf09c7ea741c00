//! Targets of packages, and sets of them.
use vstd::prelude::*;

use crate::names::texts;
use crate::paths::is_normal;

verus! {

/// A single target (library, binary, example, ...) that a package provides.
#[derive(Clone, Debug, PartialEq, Eq, Hash)]
pub struct Target {
    pub name: String,
    pub kind: Vec<String>,
    pub crate_types: Vec<String>,
    pub required_features: Vec<String>,
    /// The path of the main source file, in its normal spelling.
    pub src_path: String,
    pub edition: String,
    pub doctest: bool,
    pub test: bool,
    pub doc: bool,
}

#[verifier::ext_equal]
pub struct TargetModel {
    pub name: Seq<char>,
    pub kind: Seq<Seq<char>>,
    pub crate_types: Seq<Seq<char>>,
    pub required_features: Seq<Seq<char>>,
    pub src_path: Seq<char>,
    pub edition: Seq<char>,
    pub doctest: bool,
    pub test: bool,
    pub doc: bool,
}

impl View for Target {
    type V = TargetModel;

    open spec fn view(&self) -> TargetModel {
        TargetModel {
            name: self.name@,
            kind: texts(self.kind@),
            crate_types: texts(self.crate_types@),
            required_features: texts(self.required_features@),
            src_path: self.src_path@,
            edition: self.edition@,
            doctest: self.doctest,
            test: self.test,
            doc: self.doc,
        }
    }
}

pub open spec fn target_models(targets: Seq<Target>) -> Seq<TargetModel> {
    targets.map_values(|target: Target| target@)
}

/// The source paths of the targets are spelled normally.
pub open spec fn targets_normal(targets: Seq<TargetModel>) -> bool {
    forall|i: int| 0 <= i < targets.len() ==> is_normal((#[trigger] targets[i]).src_path)
}

fn same_texts(a: &Vec<String>, b: &Vec<String>) -> (same: bool)
    ensures
        same == (texts(a@) == texts(b@)),
{
    if a.len() != b.len() {
        assert(texts(a@).len() != texts(b@).len());
        return false;
    }
    let mut i: usize = 0;
    while i < a.len()
        invariant
            i <= a@.len() == b@.len(),
            forall|k: int| 0 <= k < i ==> (#[trigger] a@[k])@ == b@[k]@,
        decreases a@.len() - i,
    {
        if a[i] != b[i] {
            assert(texts(a@)[i as int] != texts(b@)[i as int]);
            return false;
        }
        i = i + 1;
    }
    assert(texts(a@) =~= texts(b@));
    true
}

fn copy_texts(names: &Vec<String>) -> (copy: Vec<String>)
    ensures
        texts(copy@) == texts(names@),
{
    let mut copy: Vec<String> = Vec::new();
    let mut i: usize = 0;
    while i < names.len()
        invariant
            i <= names@.len(),
            copy@.len() == i,
            forall|k: int| 0 <= k < i ==> (#[trigger] copy@[k])@ == names@[k]@,
        decreases names@.len() - i,
    {
        copy.push(names[i].clone());
        i = i + 1;
    }
    assert(texts(copy@) =~= texts(names@));
    copy
}

impl Target {
    /// Whether two targets agree in everything.
    pub fn same_as(&self, other: &Target) -> (same: bool)
        requires
            is_normal(self@.src_path),
            is_normal(other@.src_path),
        ensures
            same == (self@ == other@),
    {
        self.name == other.name && same_texts(&self.kind, &other.kind) && same_texts(
            &self.crate_types,
            &other.crate_types,
        ) && same_texts(&self.required_features, &other.required_features) && self.src_path
            == other.src_path && self.edition == other.edition && self.doctest == other.doctest
            && self.test == other.test && self.doc == other.doc
    }

    /// A copy of the target.
    pub fn copied(&self) -> (copy: Target)
        ensures
            copy@ == self@,
    {
        Target {
            name: self.name.clone(),
            kind: copy_texts(&self.kind),
            crate_types: copy_texts(&self.crate_types),
            required_features: copy_texts(&self.required_features),
            src_path: self.src_path.clone(),
            edition: self.edition.clone(),
            doctest: self.doctest,
            test: self.test,
            doc: self.doc,
        }
    }
}

// ---------------------------------------------------------------------------
// Sets of targets
// ---------------------------------------------------------------------------

/// A set of targets.
#[derive(Debug)]
pub struct TargetSet {
    targets: Vec<Target>,
}

impl View for TargetSet {
    type V = Set<TargetModel>;

    closed spec fn view(&self) -> Set<TargetModel> {
        target_models(self.targets@).to_set()
    }
}

impl TargetSet {
    /// No target is there twice, and the source paths are spelled normally.
    pub closed spec fn wf(self) -> bool {
        target_models(self.targets@).no_duplicates() && targets_normal(target_models(self.targets@))
    }

    pub fn new() -> (set: TargetSet)
        ensures
            set.wf(),
            set@ == Set::<TargetModel>::empty(),
    {
        let set = TargetSet { targets: Vec::new() };
        assert(set@ =~= Set::<TargetModel>::empty());
        set
    }

    pub fn contains(&self, target: &Target) -> (yes: bool)
        requires
            self.wf(),
            is_normal(target@.src_path),
        ensures
            yes == self@.contains(target@),
    {
        let mut i: usize = 0;
        while i < self.targets.len()
            invariant
                i <= self.targets@.len(),
                self.wf(),
                is_normal(target@.src_path),
                forall|k: int| 0 <= k < i ==> (#[trigger] self.targets@[k])@ != target@,
            decreases self.targets@.len() - i,
        {
            assert(target_models(self.targets@)[i as int] == self.targets@[i as int]@);
            if self.targets[i].same_as(target) {
                assert(target_models(self.targets@)[i as int] == target@);
                return true;
            }
            i = i + 1;
        }
        assert forall|k: int| 0 <= k < target_models(self.targets@).len() implies target_models(
            self.targets@,
        )[k] != target@ by {
            assert(self.targets@[k]@ != target@);
        }
        false
    }

    /// Adds a target. Whether it was not there before.
    pub fn insert(&mut self, target: Target) -> (added: bool)
        requires
            old(self).wf(),
            is_normal(target@.src_path),
        ensures
            final(self).wf(),
            final(self)@ == old(self)@.insert(target@),
            added == !old(self)@.contains(target@),
    {
        if self.contains(&target) {
            assert(self@ =~= self@.insert(target@));
            return false;
        }
        let ghost before = target_models(self.targets@);
        self.targets.push(target);
        proof {
            assert(target_models(self.targets@) =~= before.push(target@));
            before.lemma_push_to_set_commute(target@);
            assert forall|i: int, j: int|
                0 <= i < before.len() + 1 && 0 <= j < before.len() + 1 && i != j implies before.push(
                target@,
            )[i] != before.push(target@)[j] by {
                if i < before.len() {
                    assert(before.contains(before[i]));
                }
                if j < before.len() {
                    assert(before.contains(before[j]));
                }
            }
        }
        true
    }

    /// Adds copies of all targets of a list.
    pub fn insert_all(&mut self, targets: &Vec<Target>)
        requires
            old(self).wf(),
            targets_normal(target_models(targets@)),
        ensures
            final(self).wf(),
            final(self)@ == old(self)@.union(target_models(targets@).to_set()),
    {
        let ghost before = self@;
        let ghost all = target_models(targets@);
        let mut i: usize = 0;
        assert(before.union(all.take(0).to_set()) =~= before);
        while i < targets.len()
            invariant
                i <= targets@.len(),
                self.wf(),
                all == target_models(targets@),
                targets_normal(all),
                self@ == before.union(all.take(i as int).to_set()),
            decreases targets@.len() - i,
        {
            assert(all[i as int] == targets@[i as int]@);
            self.insert(targets[i].copied());
            proof {
                assert(all.take(i + 1) =~= all.take(i as int).push(targets@[i as int]@));
                all.take(i as int).lemma_push_to_set_commute(targets@[i as int]@);
                assert(self@ =~= before.union(all.take(i + 1).to_set()));
            }
            i = i + 1;
        }
        assert(all.take(i as int) =~= all);
    }

    pub fn is_empty(&self) -> (yes: bool)
        ensures
            yes == (self@ == Set::<TargetModel>::empty()),
    {
        proof {
            if self.targets@.len() == 0 {
                assert(self@ =~= Set::<TargetModel>::empty());
            } else {
                assert(target_models(self.targets@)[0] == self.targets@[0]@);
                assert(self@.contains(self.targets@[0]@));
            }
        }
        self.targets.len() == 0
    }

    /// The targets of the set, each once.
    pub fn into_targets(self) -> (targets: Vec<Target>)
        requires
            self.wf(),
        ensures
            target_models(targets@).to_set() == self@,
            target_models(targets@).no_duplicates(),
            targets_normal(target_models(targets@)),
    {
        self.targets
    }
}

// ---------------------------------------------------------------------------
// Normalization
// ---------------------------------------------------------------------------

/// A target with its source path replaced, where another one is given.
pub open spec fn normalized(target: TargetModel, canonical: Option<Seq<char>>) -> TargetModel {
    match canonical {
        Some(src_path) => TargetModel { src_path, ..target },
        None => target,
    }
}

pub open spec fn text_of(text: Option<String>) -> Option<Seq<char>> {
    match text {
        Some(text) => Some(text@),
        None => None,
    }
}

/// Canonicalizes the source path of a target, so that the equality of targets
/// is robust to symlinks. `canonical` is the canonical form of the path; where
/// it has none, the target stays as it is.
pub fn normalize_target(target: Target, canonical: Option<String>) -> (normal: Target)
    ensures
        normal@ == normalized(target@, text_of(canonical)),
{
    let mut normal = target;
    if let Some(src_path) = canonical {
        normal.src_path = src_path;
    }
    normal
}

/// The normalized forms of targets, each given with the canonical form of its
/// path.
pub open spec fn all_normalized(targets: Seq<(Target, Option<String>)>) -> Seq<TargetModel> {
    targets.map_values(
        |target: (Target, Option<String>)| normalized(target.0@, text_of(target.1)),
    )
}

/// The set of the normalized forms of targets, each given with the canonical
/// form of its path. Targets that normalize to the same are one in it.
pub fn normalize_targets(targets: Vec<(Target, Option<String>)>) -> (set: TargetSet)
    requires
        targets_normal(all_normalized(targets@)),
    ensures
        set.wf(),
        set@ == all_normalized(targets@).to_set(),
{
    let ghost all = all_normalized(targets@);
    let mut set = TargetSet::new();
    let mut i: usize = 0;
    assert(all.take(0).to_set() =~= Set::<TargetModel>::empty());
    while i < targets.len()
        invariant
            i <= targets@.len(),
            set.wf(),
            all == all_normalized(targets@),
            targets_normal(all),
            set@ == all.take(i as int).to_set(),
        decreases targets@.len() - i,
    {
        let canonical = match &targets[i].1 {
            Some(path) => Some(path.clone()),
            None => None,
        };
        assert(all[i as int] == normalized(targets@[i as int].0@, text_of(canonical)));
        set.insert(normalize_target(targets[i].0.copied(), canonical));
        proof {
            assert(all.take(i + 1) =~= all.take(i as int).push(all[i as int]));
            all.take(i as int).lemma_push_to_set_commute(all[i as int]);
        }
        i = i + 1;
    }
    assert(all.take(i as int) =~= all);
    set
}

/// Targets that agree in all but the spelling of their source path, of which
/// both spellings have the same canonical form, are equal once normalized.
pub proof fn law_normalization_ignores_spelling(
    target: TargetModel,
    spelling: Seq<char>,
    canonical: Seq<char>,
)
    ensures
        normalized(target, Some(canonical)) == normalized(
            TargetModel { src_path: spelling, ..target },
            Some(canonical),
        ),
{
}

/// A target is found among normalized ones, whatever spelling of its source path
/// it was reached by: it is enough that both spellings have the same canonical
/// form.
pub proof fn law_lookup_ignores_spelling(
    targets: Seq<(Target, Option<String>)>,
    i: int,
    other: TargetModel,
    canonical: Seq<char>,
)
    requires
        0 <= i < targets.len(),
        text_of(targets[i].1) == Some(canonical),
        other == (TargetModel { src_path: other.src_path, ..targets[i].0@ }),
    ensures
        all_normalized(targets).to_set().contains(normalized(other, Some(canonical))),
{
    assert(all_normalized(targets)[i] == normalized(other, Some(canonical)));
}

/// Where the canonical form of a path is its own canonical form, normalized
/// targets stay as they are when they are normalized again. Without targets
/// there are no normalized ones.
pub proof fn law_normalized_targets_stay(
    targets: Seq<(Target, Option<String>)>,
    canonical: spec_fn(Seq<char>) -> Option<Seq<char>>,
)
    requires
        forall|i: int|
            0 <= i < targets.len() ==> text_of((#[trigger] targets[i]).1) == canonical(
                targets[i].0@.src_path,
            ),
        forall|path: Seq<char>|
            (#[trigger] canonical(path)) matches Some(own) ==> canonical(own) == Some(own),
    ensures
        forall|target: TargetModel| #[trigger]
            all_normalized(targets).to_set().contains(target) ==> normalized(
                target,
                canonical(target.src_path),
            ) == target,
        targets.len() == 0 ==> all_normalized(targets).to_set() == Set::<TargetModel>::empty(),
{
    let all = all_normalized(targets);
    assert forall|target: TargetModel| #[trigger] all.to_set().contains(target) implies normalized(
        target,
        canonical(target.src_path),
    ) == target by {
        let i = choose|i: int| 0 <= i < all.len() && all[i] == target;
        let from = targets[i];
        assert(text_of(from.1) == canonical(from.0@.src_path));
        assert(target == normalized(from.0@, canonical(from.0@.src_path)));
    }
    if targets.len() == 0 {
        assert(all.to_set() =~= Set::<TargetModel>::empty());
    }
}

/// Normalizing changes nothing but the source path, and that only to its
/// canonical form; to normalize again changes nothing more.
pub proof fn law_normalization_is_idempotent(target: TargetModel, canonical: Option<Seq<char>>)
    ensures
        normalized(normalized(target, canonical), canonical) == normalized(target, canonical),
        normalized(target, canonical) == (TargetModel {
            src_path: normalized(target, canonical).src_path,
            ..target
        }),
{
}

/// Two targets are the same where they agree in every field.
pub proof fn law_same_targets(a: Target, b: Target)
    ensures
        a@ == b@ <==> {
            &&& a.name@ == b.name@
            &&& texts(a.kind@) == texts(b.kind@)
            &&& texts(a.crate_types@) == texts(b.crate_types@)
            &&& texts(a.required_features@) == texts(b.required_features@)
            &&& a.src_path@ == b.src_path@
            &&& a.edition@ == b.edition@
            &&& a.doctest == b.doctest
            &&& a.test == b.test
            &&& a.doc == b.doc
        },
{
}

/// A normalized target has the canonical form of its path where there is one, and
/// its own path where there is none; in all else it is as it was. The normalized
/// targets are those of the targets, in their order.
pub proof fn law_normalized(targets: Seq<(Target, Option<String>)>)
    ensures
        all_normalized(targets).len() == targets.len(),
        forall|i: int|
            0 <= i < targets.len() ==> {
                let normal = #[trigger] all_normalized(targets)[i];
                let target = targets[i].0@;
                &&& targets[i].1 matches Some(path) ==> normal.src_path == path@
                &&& targets[i].1 is None ==> normal.src_path == target.src_path
                &&& normal.name == target.name
                &&& normal.kind == target.kind
                &&& normal.crate_types == target.crate_types
                &&& normal.required_features == target.required_features
                &&& normal.edition == target.edition
                &&& normal.doctest == target.doctest
                &&& normal.test == target.test
                &&& normal.doc == target.doc
            },
{
}

/// A target takes the canonical form of its path where there is one, and is as it
/// was in all else.
pub proof fn law_normalized_one(target: TargetModel, canonical: Seq<char>)
    ensures
        normalized(target, None) == target,
        normalized(target, Some(canonical)).src_path == canonical,
        (TargetModel { src_path: target.src_path, ..normalized(target, Some(canonical)) }) == target,
{
}

/// The model of a target shows its fields as they are.
pub proof fn law_target_fields(target: Target)
    ensures
        target@.name == target.name@,
        target@.src_path == target.src_path@,
        target@.edition == target.edition@,
        target@.doctest == target.doctest,
        target@.test == target.test,
        target@.doc == target.doc,
        target@.kind.len() == target.kind@.len(),
        forall|i: int| 0 <= i < target.kind@.len() ==> #[trigger] target@.kind[i] == target.kind@[i]@,
        target@.crate_types.len() == target.crate_types@.len(),
        forall|i: int|
            0 <= i < target.crate_types@.len() ==> #[trigger] target@.crate_types[i]
                == target.crate_types@[i]@,
        target@.required_features.len() == target.required_features@.len(),
        forall|i: int|
            0 <= i < target.required_features@.len() ==> #[trigger] target@.required_features[i]
                == target.required_features@[i]@,
{
}

} // verus!
