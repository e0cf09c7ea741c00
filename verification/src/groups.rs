//! Grouping diagnostics by the file that they are about.
use multimap::MultiMap;
use vstd::prelude::*;

use crate::paths::is_normal;
use crate::picks::{in_order, lemma_one_more_place};
use crate::unused::{
    all_wanted, diagnostic_models, wanted, DiagnosticModel, UnusedDiagnostic, UnusedDiagnosticKind,
    Wanted,
};

verus! {

// ---------------------------------------------------------------------------
// The map from keys to lists of values
// ---------------------------------------------------------------------------

#[verifier::external_type_specification]
#[verifier::external_body]
#[verifier::reject_recursive_types(K)]
#[verifier::reject_recursive_types(V)]
#[verifier::reject_recursive_types(S)]
pub struct ExMultiMap<K, V, S>(multimap::MultiMap<K, V, S>);

/// The values that a multimap holds under each key, in the order in which they
/// were inserted.
pub uninterp spec fn map_contents(map: MultiMap<String, usize>) -> Map<Seq<char>, Seq<usize>>;

/// [`MultiMap::new`]: an empty map.
#[verifier::external_body]
fn new_map() -> (map: MultiMap<String, usize>)
    ensures
        map_contents(map).dom() == Set::<Seq<char>>::empty(),
{
    MultiMap::new()
}

/// [`MultiMap::insert`]: a value under a key that is there already goes behind
/// the values of that key, one under a new key is its first.
#[verifier::external_body]
fn insert(map: &mut MultiMap<String, usize>, key: String, value: usize)
    ensures
        map_contents(*final(map)) == map_contents(*old(map)).insert(
            key@,
            if map_contents(*old(map)).dom().contains(key@) {
                map_contents(*old(map))[key@].push(value)
            } else {
                seq![value]
            },
        ),
{
    map.insert(key, value)
}

/// The [`IntoIterator`] of a [`MultiMap`]: each key once, with its values. The
/// order of the keys is left open.
#[verifier::external_body]
fn into_entries(map: MultiMap<String, usize>) -> (entries: Vec<(String, Vec<usize>)>)
    ensures
        forall|i: int|
            0 <= i < entries@.len() ==> map_contents(map).dom().contains(
                (#[trigger] entries@[i]).0@,
            ) && entries@[i].1@ == map_contents(map)[entries@[i].0@],
        forall|key: Seq<char>| #[trigger]
            map_contents(map).dom().contains(key) ==> exists|i: int|
                0 <= i < entries@.len() && (#[trigger] entries@[i]).0@ == key,
        forall|i: int, j: int|
            0 <= i < j < entries@.len() ==> (#[trigger] entries@[i]).0@ != (
            #[trigger] entries@[j]).0@,
{
    map.into_iter().collect()
}

// ---------------------------------------------------------------------------
// Diagnostics by file
// ---------------------------------------------------------------------------

/// What is unused in one file.
#[derive(Debug)]
pub struct FileDiagnostics {
    pub file_name: String,
    pub diagnostics: Vec<(UnusedDiagnosticKind, String, Option<usize>)>,
}

pub struct FileModel {
    pub file_name: Seq<char>,
    pub wanted: Seq<Wanted>,
}

impl View for FileDiagnostics {
    type V = FileModel;

    open spec fn view(&self) -> FileModel {
        FileModel { file_name: self.file_name@, wanted: all_wanted(self.diagnostics@) }
    }
}

pub open spec fn file_models(files: Seq<FileDiagnostics>) -> Seq<FileModel> {
    files.map_values(|file: FileDiagnostics| file@)
}

/// One of the diagnostics is about the file.
pub open spec fn is_mentioned(diagnostics: Seq<DiagnosticModel>, file_name: Seq<char>) -> bool {
    exists|i: int| 0 <= i < diagnostics.len() && (#[trigger] diagnostics[i]).file_name == file_name
}

/// What a diagnostic is about, on the line that it points at.
pub open spec fn wanted_by(diagnostic: DiagnosticModel) -> Wanted {
    Wanted { kind: diagnostic.kind, ident: diagnostic.ident, line: Some(diagnostic.line) }
}

/// What the diagnostics about one file are about, in their order.
pub open spec fn wanted_in(diagnostics: Seq<DiagnosticModel>, file_name: Seq<char>) -> Seq<Wanted>
    decreases diagnostics.len(),
{
    if diagnostics.len() == 0 {
        seq![]
    } else if diagnostics.last().file_name == file_name {
        wanted_in(diagnostics.drop_last(), file_name).push(wanted_by(diagnostics.last()))
    } else {
        wanted_in(diagnostics.drop_last(), file_name)
    }
}

/// The places of the diagnostics about one file.
spec fn places_in(diagnostics: Seq<DiagnosticModel>, file_name: Seq<char>) -> Seq<usize>
    decreases diagnostics.len(),
{
    if diagnostics.len() == 0 {
        seq![]
    } else if diagnostics.last().file_name == file_name {
        places_in(diagnostics.drop_last(), file_name).push((diagnostics.len() - 1) as usize)
    } else {
        places_in(diagnostics.drop_last(), file_name)
    }
}

/// The places of the diagnostics about a file lead to what these are about.
proof fn lemma_places_in(diagnostics: Seq<DiagnosticModel>, file_name: Seq<char>)
    requires
        diagnostics.len() <= usize::MAX,
    ensures
        places_in(diagnostics, file_name).len() == wanted_in(diagnostics, file_name).len(),
        forall|k: int|
            #![trigger places_in(diagnostics, file_name)[k]]
            0 <= k < places_in(diagnostics, file_name).len() ==> places_in(
                diagnostics,
                file_name,
            )[k] < diagnostics.len() && wanted_in(diagnostics, file_name)[k] == wanted_by(
                diagnostics[places_in(diagnostics, file_name)[k] as int],
            ),
    decreases diagnostics.len(),
{
    if diagnostics.len() > 0 {
        let rest = diagnostics.drop_last();
        lemma_places_in(rest, file_name);
        assert forall|k: int|
            #![trigger places_in(diagnostics, file_name)[k]]
            0 <= k < places_in(diagnostics, file_name).len() implies places_in(
            diagnostics,
            file_name,
        )[k] < diagnostics.len() && wanted_in(diagnostics, file_name)[k] == wanted_by(
            diagnostics[places_in(diagnostics, file_name)[k] as int],
        ) by {
            if k < places_in(rest, file_name).len() {
                assert(places_in(diagnostics, file_name)[k] == places_in(rest, file_name)[k]);
            }
        }
    }
}

/// The map holds the places of the diagnostics about each file, and nothing
/// else.
spec fn is_grouped(
    contents: Map<Seq<char>, Seq<usize>>,
    diagnostics: Seq<DiagnosticModel>,
) -> bool {
    &&& forall|file_name: Seq<char>| #[trigger]
        contents.dom().contains(file_name) <==> is_mentioned(diagnostics, file_name)
    &&& forall|file_name: Seq<char>| #[trigger]
        contents.dom().contains(file_name) ==> contents[file_name] == places_in(
            diagnostics,
            file_name,
        )
}

/// A file that no diagnostic is about has no places.
proof fn lemma_not_mentioned(diagnostics: Seq<DiagnosticModel>, file_name: Seq<char>)
    requires
        !is_mentioned(diagnostics, file_name),
    ensures
        places_in(diagnostics, file_name).len() == 0,
    decreases diagnostics.len(),
{
    if diagnostics.len() > 0 {
        assert(diagnostics[diagnostics.len() - 1].file_name != file_name);
        assert forall|i: int| 0 <= i < diagnostics.len() - 1 implies (
        #[trigger] diagnostics.drop_last()[i]).file_name != file_name by {
            assert(diagnostics[i].file_name != file_name);
        }
        lemma_not_mentioned(diagnostics.drop_last(), file_name);
    }
}

/// The files that the diagnostics are about are named by normal spellings.
pub open spec fn files_normal(diagnostics: Seq<DiagnosticModel>) -> bool {
    forall|i: int| 0 <= i < diagnostics.len() ==> is_normal((#[trigger] diagnostics[i]).file_name)
}

/// Groups the diagnostics by file. The order of the files is left open; the
/// diagnostics about one file keep their order.
pub fn group_diagnostics(diagnostics: &Vec<UnusedDiagnostic>) -> (files: Vec<FileDiagnostics>)
    requires
        files_normal(diagnostic_models(diagnostics@)),
    ensures
        forall|i: int|
            #![trigger files@[i]]
            0 <= i < files@.len() ==> is_mentioned(
                diagnostic_models(diagnostics@),
                files@[i]@.file_name,
            ) && files@[i]@.wanted == wanted_in(
                diagnostic_models(diagnostics@),
                files@[i]@.file_name,
            ),
        forall|file_name: Seq<char>| #[trigger]
            is_mentioned(diagnostic_models(diagnostics@), file_name) ==> exists|i: int|
                0 <= i < files@.len() && (#[trigger] files@[i])@.file_name == file_name,
        forall|i: int, j: int|
            0 <= i < j < files@.len() ==> (#[trigger] files@[i])@.file_name != (
            #[trigger] files@[j])@.file_name,
{
    let ghost models = diagnostic_models(diagnostics@);
    let mut map = new_map();
    let mut i: usize = 0;
    assert(models.take(0) =~= Seq::<DiagnosticModel>::empty());
    while i < diagnostics.len()
        invariant
            i <= diagnostics@.len(),
            models == diagnostic_models(diagnostics@),
            is_grouped(map_contents(map), models.take(i as int)),
        decreases diagnostics@.len() - i,
    {
        let ghost before = map_contents(map);
        insert(&mut map, diagnostics[i].span.file_name.clone(), i);
        proof {
            lemma_insert_groups(before, map_contents(map), models, i as int);
        }
        i = i + 1;
    }
    assert(models.take(i as int) =~= models);
    let ghost contents = map_contents(map);
    let entries = into_entries(map);
    let mut files: Vec<FileDiagnostics> = Vec::new();
    let mut k: usize = 0;
    while k < entries.len()
        invariant
            k <= entries@.len(),
            files@.len() == k,
            models == diagnostic_models(diagnostics@),
            is_grouped(contents, models),
            forall|j: int|
                0 <= j < entries@.len() ==> contents.dom().contains((#[trigger] entries@[j]).0@)
                    && entries@[j].1@ == contents[entries@[j].0@],
            forall|j: int|
                #![trigger files@[j]]
                0 <= j < k ==> files@[j]@.file_name == entries@[j].0@ && files@[j]@.wanted
                    == wanted_in(models, entries@[j].0@),
        decreases entries@.len() - k,
    {
        let (file_name, places) = &entries[k];
        assert(contents.dom().contains(entries@[k as int].0@));
        files.push(
            FileDiagnostics {
                file_name: file_name.clone(),
                diagnostics: diagnostics_at(diagnostics, places, Ghost(file_name@)),
            },
        );
        k = k + 1;
    }
    proof {
        assert forall|file_name: Seq<char>| #[trigger] is_mentioned(models, file_name) implies exists|
            i: int,
        | 0 <= i < files@.len() && (#[trigger] files@[i])@.file_name == file_name by {
            assert(contents.dom().contains(file_name));
            let i = choose|i: int| 0 <= i < entries@.len() && (#[trigger] entries@[i]).0@ == file_name;
            assert(files@[i]@.file_name == file_name);
        }
    }
    files
}

proof fn lemma_insert_groups(
    before: Map<Seq<char>, Seq<usize>>,
    after: Map<Seq<char>, Seq<usize>>,
    models: Seq<DiagnosticModel>,
    i: int,
)
    requires
        0 <= i < models.len() <= usize::MAX,
        is_grouped(before, models.take(i)),
        after == before.insert(
            models[i].file_name,
            if before.dom().contains(models[i].file_name) {
                before[models[i].file_name].push(i as usize)
            } else {
                seq![i as usize]
            },
        ),
    ensures
        is_grouped(after, models.take(i + 1)),
{
    let seen = models.take(i);
    let now = models.take(i + 1);
    assert(now.drop_last() =~= seen);
    assert forall|file_name: Seq<char>| #[trigger]
        after.dom().contains(file_name) <==> is_mentioned(now, file_name) by {
        if is_mentioned(seen, file_name) {
            let k = choose|k: int| 0 <= k < seen.len() && (#[trigger] seen[k]).file_name == file_name;
            assert(now[k].file_name == file_name);
        }
        if file_name == models[i].file_name {
            assert(now[i].file_name == file_name);
        }
        if is_mentioned(now, file_name) && file_name != models[i].file_name {
            let k = choose|k: int| 0 <= k < now.len() && (#[trigger] now[k]).file_name == file_name;
            assert(seen[k].file_name == file_name);
        }
    }
    assert forall|file_name: Seq<char>| #[trigger]
        after.dom().contains(file_name) implies after[file_name] == places_in(now, file_name) by {
        if file_name == models[i].file_name {
            if !before.dom().contains(file_name) {
                lemma_not_mentioned(seen, file_name);
                assert(places_in(seen, file_name).push(i as usize) =~= seq![i as usize]);
            }
        } else {
            assert(before.dom().contains(file_name));
        }
    }
}

/// The diagnostics at the places of one file.
fn diagnostics_at(
    diagnostics: &Vec<UnusedDiagnostic>,
    places: &Vec<usize>,
    Ghost(file_name): Ghost<Seq<char>>,
) -> (found: Vec<(UnusedDiagnosticKind, String, Option<usize>)>)
    requires
        places@ == places_in(diagnostic_models(diagnostics@), file_name),
    ensures
        all_wanted(found@) == wanted_in(diagnostic_models(diagnostics@), file_name),
{
    let ghost models = diagnostic_models(diagnostics@);
    proof {
        assert(diagnostics@.len() == diagnostics.len());
        lemma_places_in(models, file_name);
    }
    let mut found: Vec<(UnusedDiagnosticKind, String, Option<usize>)> = Vec::new();
    let mut k: usize = 0;
    while k < places.len()
        invariant
            k <= places@.len(),
            found@.len() == k,
            models == diagnostic_models(diagnostics@),
            places@ == places_in(models, file_name),
            places@.len() == wanted_in(models, file_name).len(),
            forall|j: int|
                0 <= j < places@.len() ==> #[trigger] places@[j] < models.len() && wanted_in(
                    models,
                    file_name,
                )[j] == wanted_by(models[places@[j] as int]),
            forall|j: int|
                0 <= j < k ==> wanted(#[trigger] found@[j]) == wanted_in(models, file_name)[j],
        decreases places@.len() - k,
    {
        let diagnostic = &diagnostics[places[k]];
        assert(models[places@[k as int] as int] == diagnostic@);
        found.push((diagnostic.kind, diagnostic.ident.clone(), Some(diagnostic.span.line_start)));
        k = k + 1;
    }
    assert(all_wanted(found@) =~= wanted_in(models, file_name));
    found
}

/// A file is mentioned where a diagnostic points at it. What is meant in a file
/// are the items of the kinds, of the names and on the lines that the
/// diagnostics about it give, each once and in their order; `about` are the
/// places of these diagnostics.
pub proof fn law_wanted_in(diagnostics: Seq<UnusedDiagnostic>, file_name: Seq<char>) -> (about: Seq<
    int,
>)
    ensures
        in_order(about, diagnostics.len()),
        forall|i: int|
            0 <= i < diagnostics.len() ==> (#[trigger] about.contains(i)
                <==> diagnostics[i].span.file_name@ == file_name),
        is_mentioned(diagnostic_models(diagnostics), file_name) <==> about.len() > 0,
        wanted_in(diagnostic_models(diagnostics), file_name).len() == about.len(),
        forall|k: int|
            0 <= k < about.len() ==> {
                let wanted = #[trigger] wanted_in(diagnostic_models(diagnostics), file_name)[k];
                let diagnostic = diagnostics[about[k]];
                wanted.kind == diagnostic.kind && wanted.ident == diagnostic.ident@ && wanted.line
                    == Some(diagnostic.span.line_start)
            },
    decreases diagnostics.len(),
{
    let models = diagnostic_models(diagnostics);
    if diagnostics.len() == 0 {
        Seq::empty()
    } else {
        let rest = diagnostics.drop_last();
        let n = rest.len() as int;
        assert(models.drop_last() =~= diagnostic_models(rest));
        assert(models.last() == diagnostics[n]@);
        let before = law_wanted_in(rest, file_name);
        lemma_one_more_place(before, rest.len());
        assert forall|i: int| 0 <= i < n implies #[trigger] rest[i] == diagnostics[i] by {}
        let about = if diagnostics[n].span.file_name@ == file_name {
            before.push(n)
        } else {
            before
        };
        assert forall|i: int| 0 <= i < diagnostics.len() implies (#[trigger] about.contains(i)
            <==> diagnostics[i].span.file_name@ == file_name) by {
            if i < n {
                assert(before.contains(i) <==> rest[i].span.file_name@ == file_name);
            }
        }
        if about.len() > 0 {
            assert(about.contains(about[0]));
            assert(models[about[0]].file_name == file_name);
        }
        if is_mentioned(models, file_name) {
            let i = choose|i: int|
                0 <= i < models.len() && (#[trigger] models[i]).file_name == file_name;
            assert(about.contains(i));
        }
        let wanted = wanted_in(models, file_name);
        assert forall|k: int| 0 <= k < about.len() implies ({
            let wanted = #[trigger] wanted[k];
            let diagnostic = diagnostics[about[k]];
            wanted.kind == diagnostic.kind && wanted.ident == diagnostic.ident@ && wanted.line
                == Some(diagnostic.span.line_start)
        }) by {
            if k < before.len() {
                assert(wanted[k] == wanted_in(diagnostic_models(rest), file_name)[k]);
                assert(rest[before[k]] == diagnostics[about[k]]);
            }
        }
        about
    }
}

/// The model of a file with its diagnostics shows its name, and what they mean.
pub proof fn law_file_models(files: Seq<FileDiagnostics>)
    ensures
        file_models(files).len() == files.len(),
        forall|i: int|
            0 <= i < files.len() ==> (#[trigger] file_models(files)[i]).file_name
                == files[i].file_name@ && file_models(files)[i].wanted == all_wanted(
                files[i].diagnostics@,
            ),
{
}

} // verus!
