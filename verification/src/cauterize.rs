//! From diagnostics to proposed changes of source files.
use vstd::prelude::*;
use vstd::slice::slice_to_vec;

use crate::chunks::law_deletion_shortens;
use crate::groups::{
    file_models, files_normal, group_diagnostics, is_mentioned, wanted_in, FileDiagnostics, FileModel,
};
use crate::parse::{parsed_source, SyntaxError, MAX_SOURCE};
use crate::paths::is_normal;
use crate::picks::{in_order, lemma_one_more_place, lemma_picks_of_picks, picks};
use crate::removal::{
    is_empty_block, law_kept_without_blocks, law_kept_without_items,
    law_no_empty_blocks_nothing_deleted, law_nothing_found_nothing_deleted,
    remove_empty_blocks, rust_delete, wanted_ranges, widened, without_empty_blocks, without_items,
};
use crate::search::{declarations, first_wanted};
use crate::syntax::NodeModel;
use crate::text::same_bytes;
use crate::unused::{
    all_wanted, diagnostic_models, DiagnosticModel, UnusedDiagnostic, UnusedDiagnosticKind, Wanted,
};

verus! {

// ---------------------------------------------------------------------------
// Changes
// ---------------------------------------------------------------------------

/// A proposed change of a file.
#[derive(Debug)]
pub struct Change {
    file_name: String,
    original_content: Vec<u8>,
    proposed_content: Vec<u8>,
}

pub struct ChangeModel {
    pub file_name: Seq<char>,
    pub original_content: Seq<u8>,
    pub proposed_content: Seq<u8>,
}

impl View for Change {
    type V = ChangeModel;

    closed spec fn view(&self) -> ChangeModel {
        ChangeModel {
            file_name: self.file_name@,
            original_content: self.original_content@,
            proposed_content: self.proposed_content@,
        }
    }
}

impl Change {
    /// A change proposes something else than what is there.
    #[verifier::type_invariant]
    spec fn differs(self) -> bool {
        self.original_content@ != self.proposed_content@
    }

    /// The file to change.
    pub fn file_name(&self) -> (file_name: &str)
        ensures
            file_name@ == self@.file_name,
    {
        self.file_name.as_str()
    }

    /// What the file holds. It is not what is proposed.
    pub fn original_content(&self) -> (content: &[u8])
        ensures
            content@ == self@.original_content,
            content@ != self@.proposed_content,
    {
        proof {
            use_type_invariant(self);
        }
        self.original_content.as_slice()
    }

    /// What the file is to hold. It is not what is there.
    pub fn proposed_content(&self) -> (content: &[u8])
        ensures
            content@ == self@.proposed_content,
            content@ != self@.original_content,
    {
        proof {
            use_type_invariant(self);
        }
        self.proposed_content.as_slice()
    }
}

pub open spec fn change_models(changes: Seq<Change>) -> Seq<ChangeModel> {
    changes.map_values(|change: Change| change@)
}

// ---------------------------------------------------------------------------
// One file
// ---------------------------------------------------------------------------

/// What is proposed for a source file: first the items that are meant go, then
/// the blocks that are empty. Or what is wrong with the file, before or after
/// the items went.
pub open spec fn proposal(bytes: Seq<u8>, wanted: Seq<Wanted>) -> Result<Seq<u8>, Seq<char>> {
    match parsed_source(bytes) {
        Ok(nodes) => {
            let removed_unused = without_items(bytes, nodes, wanted);
            match parsed_source(removed_unused) {
                Ok(nodes) => Ok(without_empty_blocks(removed_unused, nodes)),
                Err(message) => Err(message),
            }
        },
        Err(message) => Err(message),
    }
}

/// The change of a file, if what is proposed for it is not what it holds.
pub open spec fn change_of(
    file_name: Seq<char>,
    original_content: Seq<u8>,
    wanted: Seq<Wanted>,
) -> Result<Option<ChangeModel>, Seq<char>> {
    match proposal(original_content, wanted) {
        Ok(proposed_content) => if original_content == proposed_content {
            Ok(None)
        } else {
            Ok(Some(ChangeModel { file_name, original_content, proposed_content }))
        },
        Err(message) => Err(message),
    }
}

/// Proposes a change of one file. There is none where no actual change was
/// produced.
pub fn process_file(
    file_name: String,
    original_content: Vec<u8>,
    diagnostics: &[(UnusedDiagnosticKind, String, Option<usize>)],
) -> (change: Result<Option<Change>, SyntaxError>)
    requires
        original_content@.len() <= MAX_SOURCE,
    ensures
        match (change, change_of(file_name@, original_content@, all_wanted(diagnostics@))) {
            (Ok(Some(change)), Ok(Some(model))) => change@ == model,
            (Ok(None), Ok(None)) => true,
            (Err(error), Err(message)) => error.message@ == message,
            _ => false,
        },
{
    let removed_unused = rust_delete(original_content.as_slice(), diagnostics)?;
    proof {
        let bytes = original_content@;
        let nodes = parsed_source(bytes)->Ok_0;
        law_deletion_shortens(
            bytes,
            widened(bytes, wanted_ranges(bytes, nodes, all_wanted(diagnostics@))),
        );
    }
    let proposed_content = remove_empty_blocks(removed_unused.as_slice())?;
    if same_bytes(&original_content, &proposed_content) {
        return Ok(None);
    }
    Ok(Some(Change { file_name, original_content, proposed_content }))
}

// ---------------------------------------------------------------------------
// Many files
// ---------------------------------------------------------------------------

/// A file that could be read, named by the normal spelling of its path, and what
/// it holds.
#[derive(Debug)]
pub struct SourceFile {
    pub file_name: String,
    pub content: Vec<u8>,
}

pub struct SourceModel {
    pub file_name: Seq<char>,
    pub content: Seq<u8>,
}

impl View for SourceFile {
    type V = SourceModel;

    open spec fn view(&self) -> SourceModel {
        SourceModel { file_name: self.file_name@, content: self.content@ }
    }
}

pub open spec fn source_models(sources: Seq<SourceFile>) -> Seq<SourceModel> {
    sources.map_values(|source: SourceFile| source@)
}

/// What the first file of that name holds, if there is one.
pub open spec fn content_of(sources: Seq<SourceModel>, file_name: Seq<char>) -> Option<Seq<u8>>
    decreases sources.len(),
{
    if sources.len() == 0 {
        None
    } else {
        match content_of(sources.drop_last(), file_name) {
            Some(content) => Some(content),
            None => if sources.last().file_name == file_name {
                Some(sources.last().content)
            } else {
                None
            },
        }
    }
}

/// The change of a file among those that could be read. A file that could not
/// be read is left alone.
pub open spec fn change_for(
    sources: Seq<SourceModel>,
    file_name: Seq<char>,
    wanted: Seq<Wanted>,
) -> Result<Option<ChangeModel>, Seq<char>> {
    match content_of(sources, file_name) {
        Some(content) => change_of(file_name, content, wanted),
        None => Ok(None),
    }
}

/// The changes of the files, in their order, or what is wrong with the first
/// one that has no proposal.
pub open spec fn changes_of(
    files: Seq<FileModel>,
    sources: Seq<SourceModel>,
) -> Result<Seq<ChangeModel>, Seq<char>>
    decreases files.len(),
{
    if files.len() == 0 {
        Ok(seq![])
    } else {
        match changes_of(files.drop_last(), sources) {
            Ok(changes) => match change_for(
                sources,
                files.last().file_name,
                files.last().wanted,
            ) {
                Ok(Some(change)) => Ok(changes.push(change)),
                Ok(None) => Ok(changes),
                Err(message) => Err(message),
            },
            Err(message) => Err(message),
        }
    }
}

/// The files that could be read are named by normal spellings.
pub open spec fn sources_normal(sources: Seq<SourceModel>) -> bool {
    forall|i: int| 0 <= i < sources.len() ==> is_normal((#[trigger] sources[i]).file_name)
}

/// The files are named by normal spellings.
pub open spec fn names_normal(files: Seq<FileModel>) -> bool {
    forall|i: int| 0 <= i < files.len() ==> is_normal((#[trigger] files[i]).file_name)
}

/// The contents of the files can be given to the parser.
pub open spec fn contents_fit(sources: Seq<SourceModel>) -> bool {
    forall|i: int| 0 <= i < sources.len() ==> (#[trigger] sources[i]).content.len() <= MAX_SOURCE
}

fn find_content<'a>(sources: &'a [SourceFile], file_name: &String) -> (content: Option<&'a Vec<u8>>)
    requires
        contents_fit(source_models(sources@)),
    ensures
        match (content, content_of(source_models(sources@), file_name@)) {
            (Some(content), Some(model)) => content@ == model && model.len() <= MAX_SOURCE,
            (None, None) => true,
            _ => false,
        },
{
    let ghost models = source_models(sources@);
    let mut i: usize = 0;
    assert(models.take(0) =~= Seq::<SourceModel>::empty());
    while i < sources.len()
        invariant
            i <= sources@.len(),
            models == source_models(sources@),
            contents_fit(models),
            content_of(models.take(i as int), file_name@) is None,
        decreases sources@.len() - i,
    {
        assert(models.take(i + 1).drop_last() =~= models.take(i as int));
        assert(models[i as int] == sources@[i as int]@);
        if sources[i].file_name == *file_name {
            proof {
                lemma_content_persists(models, i + 1, file_name@);
            }
            return Some(&sources[i].content);
        }
        i = i + 1;
    }
    assert(models.take(i as int) =~= models);
    None
}

proof fn lemma_content_persists(sources: Seq<SourceModel>, n: int, file_name: Seq<char>)
    requires
        0 <= n <= sources.len(),
        content_of(sources.take(n), file_name) is Some,
    ensures
        content_of(sources, file_name) == content_of(sources.take(n), file_name),
    decreases sources.len() - n,
{
    if n == sources.len() {
        assert(sources.take(n) =~= sources);
    } else {
        assert(sources.take(n + 1).drop_last() =~= sources.take(n));
        lemma_content_persists(sources, n + 1, file_name);
    }
}

/// Processes a list of files, each with its diagnostics, into proposed changes.
/// Drops files that could not be read, and files where no actual change was
/// produced.
pub fn process_files(files: Vec<FileDiagnostics>, sources: &[SourceFile]) -> (changes: Result<
    Vec<Change>,
    SyntaxError,
>)
    requires
        names_normal(file_models(files@)),
        sources_normal(source_models(sources@)),
        contents_fit(source_models(sources@)),
    ensures
        match (changes, changes_of(file_models(files@), source_models(sources@))) {
            (Ok(changes), Ok(models)) => change_models(changes@) == models,
            (Err(error), Err(message)) => error.message@ == message,
            _ => false,
        },
{
    let ghost all = file_models(files@);
    let ghost contents = source_models(sources@);
    let mut changes: Vec<Change> = Vec::new();
    let mut i: usize = 0;
    assert(all.take(0) =~= Seq::<FileModel>::empty());
    assert(change_models(changes@) =~= Seq::<ChangeModel>::empty());
    while i < files.len()
        invariant
            i <= files@.len(),
            all == file_models(files@),
            contents == source_models(sources@),
            contents_fit(contents),
            changes_of(all.take(i as int), contents) is Ok,
            changes_of(all.take(i as int), contents)->Ok_0 == change_models(changes@),
        decreases files@.len() - i,
    {
        let file = &files[i];
        assert(all.take(i + 1).drop_last() =~= all.take(i as int));
        assert(all[i as int] == file@);
        if let Some(content) = find_content(sources, &file.file_name) {
            match process_file(
                file.file_name.clone(),
                slice_to_vec(content.as_slice()),
                file.diagnostics.as_slice(),
            ) {
                Ok(Some(change)) => {
                    let ghost before = change_models(changes@);
                    changes.push(change);
                    assert(change_models(changes@) =~= before.push(change@));
                },
                Ok(None) => {},
                Err(error) => {
                    proof {
                        lemma_error_persists(all, contents, i + 1);
                    }
                    return Err(error);
                },
            }
        }
        i = i + 1;
    }
    assert(all.take(i as int) =~= all);
    Ok(changes)
}

proof fn lemma_error_persists(files: Seq<FileModel>, sources: Seq<SourceModel>, n: int)
    requires
        0 <= n <= files.len(),
        changes_of(files.take(n), sources) is Err,
    ensures
        changes_of(files, sources) == changes_of(files.take(n), sources),
    decreases files.len() - n,
{
    if n == files.len() {
        assert(files.take(n) =~= files);
    } else {
        assert(files.take(n + 1).drop_last() =~= files.take(n));
        lemma_error_persists(files, sources, n + 1);
    }
}

/// `changes` are the changes of the files that `diagnostics` are about: one for
/// each file whose proposal is not what it holds, and no other.
pub open spec fn changes_match(
    changes: Seq<ChangeModel>,
    diagnostics: Seq<DiagnosticModel>,
    sources: Seq<SourceModel>,
) -> bool {
    &&& forall|file_name: Seq<char>| #[trigger]
        is_mentioned(diagnostics, file_name) ==> match change_for(
            sources,
            file_name,
            wanted_in(diagnostics, file_name),
        ) {
            Ok(Some(change)) => changes.contains(change),
            Ok(None) => true,
            Err(_) => false,
        }
    &&& forall|i: int|
        #![trigger changes[i]]
        0 <= i < changes.len() ==> is_mentioned(diagnostics, changes[i].file_name) && change_for(
            sources,
            changes[i].file_name,
            wanted_in(diagnostics, changes[i].file_name),
        ) == Ok::<Option<ChangeModel>, Seq<char>>(Some(changes[i]))
    &&& forall|i: int, j: int|
        0 <= i < j < changes.len() ==> (#[trigger] changes[i]).file_name != (
        #[trigger] changes[j]).file_name
}

/// Processes a list of diagnostics into proposed changes of the files that they
/// are about, of which `sources` are those that could be read. The order of the
/// changes is left open.
pub fn process_diagnostics(
    diagnostics: Vec<UnusedDiagnostic>,
    sources: &[SourceFile],
) -> (changes: Result<Vec<Change>, SyntaxError>)
    requires
        files_normal(diagnostic_models(diagnostics@)),
        sources_normal(source_models(sources@)),
        contents_fit(source_models(sources@)),
    ensures
        match changes {
            Ok(changes) => changes_match(
                change_models(changes@),
                diagnostic_models(diagnostics@),
                source_models(sources@),
            ),
            Err(error) => exists|file_name: Seq<char>| #[trigger]
                is_mentioned(diagnostic_models(diagnostics@), file_name) && change_for(
                    source_models(sources@),
                    file_name,
                    wanted_in(diagnostic_models(diagnostics@), file_name),
                ) == Err::<Option<ChangeModel>, Seq<char>>(error.message@),
        },
{
    let files = group_diagnostics(&diagnostics);
    let ghost models = diagnostic_models(diagnostics@);
    let ghost contents = source_models(sources@);
    let ghost all = file_models(files@);
    proof {
        assert forall|i: int| #![trigger all[i]] 0 <= i < all.len() implies is_mentioned(
            models,
            all[i].file_name,
        ) && all[i].wanted == wanted_in(models, all[i].file_name) by {
            assert(all[i] == files@[i]@);
        }
        assert forall|i: int| 0 <= i < all.len() implies is_normal(
            (#[trigger] all[i]).file_name,
        ) by {
            let k = choose|k: int|
                0 <= k < models.len() && (#[trigger] models[k]).file_name == all[i].file_name;
            assert(is_normal(models[k].file_name));
        }
        match changes_of(all, contents) {
            Ok(changes) => {
                lemma_changes(all, contents, models);
                assert forall|file_name: Seq<char>| #[trigger]
                    is_mentioned(models, file_name) implies match change_for(
                    contents,
                    file_name,
                    wanted_in(models, file_name),
                ) {
                    Ok(Some(change)) => changes.contains(change),
                    Ok(None) => true,
                    Err(_) => false,
                } by {
                    let k = choose|k: int|
                        0 <= k < files@.len() && (#[trigger] files@[k])@.file_name == file_name;
                    assert(all[k].file_name == file_name);
                }
                assert(forall|i: int, j: int|
                    0 <= i < j < all.len() ==> (#[trigger] all[i]).file_name != (
                    #[trigger] all[j]).file_name) by {
                    assert forall|i: int, j: int| 0 <= i < j < all.len() implies (
                    #[trigger] all[i]).file_name != (#[trigger] all[j]).file_name by {
                        assert(all[i] == files@[i]@);
                        assert(all[j] == files@[j]@);
                    }
                }
                lemma_changes_distinct(all, contents);
            },
            Err(message) => {
                let k = lemma_error_has_file(all, contents);
                assert(is_mentioned(models, all[k].file_name));
            },
        }
    }
    process_files(files, sources)
}

/// The changes of files are those of the single files.
proof fn lemma_changes(
    files: Seq<FileModel>,
    sources: Seq<SourceModel>,
    diagnostics: Seq<DiagnosticModel>,
)
    requires
        changes_of(files, sources) is Ok,
        forall|i: int|
            #![trigger files[i]]
            0 <= i < files.len() ==> is_mentioned(diagnostics, files[i].file_name)
                && files[i].wanted == wanted_in(diagnostics, files[i].file_name),
    ensures
        forall|i: int|
            #![trigger files[i]]
            0 <= i < files.len() ==> match change_for(
                sources,
                files[i].file_name,
                files[i].wanted,
            ) {
                Ok(Some(change)) => changes_of(files, sources)->Ok_0.contains(change),
                Ok(None) => true,
                Err(_) => false,
            },
        forall|i: int|
            #![trigger changes_of(files, sources)->Ok_0[i]]
            0 <= i < changes_of(files, sources)->Ok_0.len() ==> {
                let change = changes_of(files, sources)->Ok_0[i];
                is_mentioned(diagnostics, change.file_name) && change_for(
                    sources,
                    change.file_name,
                    wanted_in(diagnostics, change.file_name),
                ) == Ok::<Option<ChangeModel>, Seq<char>>(Some(change))
            },
    decreases files.len(),
{
    if files.len() > 0 {
        let rest = files.drop_last();
        let before = changes_of(rest, sources)->Ok_0;
        let changes = changes_of(files, sources)->Ok_0;
        lemma_changes(rest, sources, diagnostics);
        assert(files[files.len() - 1] == files.last());
        assert forall|i: int| #![trigger files[i]] 0 <= i < files.len() implies match change_for(
            sources,
            files[i].file_name,
            files[i].wanted,
        ) {
            Ok(Some(change)) => changes.contains(change),
            Ok(None) => true,
            Err(_) => false,
        } by {
            if i < rest.len() {
                assert(files[i] == rest[i]);
                if let Ok(Some(change)) = change_for(sources, files[i].file_name, files[i].wanted) {
                    let k = choose|k: int| 0 <= k < before.len() && before[k] == change;
                    assert(changes[k] == change);
                }
            } else if let Ok(Some(change)) = change_for(
                sources,
                files[i].file_name,
                files[i].wanted,
            ) {
                assert(changes[changes.len() - 1] == change);
            }
        }
        assert forall|i: int| #![trigger changes[i]] 0 <= i < changes.len() implies is_mentioned(
            diagnostics,
            changes[i].file_name,
        ) && change_for(
            sources,
            changes[i].file_name,
            wanted_in(diagnostics, changes[i].file_name),
        ) == Ok::<Option<ChangeModel>, Seq<char>>(Some(changes[i])) by {
            if i < before.len() {
                assert(changes[i] == before[i]);
            }
        }
    }
}

/// Changes of different files are changes of different files.
proof fn lemma_changes_distinct(files: Seq<FileModel>, sources: Seq<SourceModel>)
    requires
        changes_of(files, sources) is Ok,
        forall|i: int, j: int|
            0 <= i < j < files.len() ==> (#[trigger] files[i]).file_name != (
            #[trigger] files[j]).file_name,
    ensures
        forall|i: int, j: int|
            0 <= i < j < changes_of(files, sources)->Ok_0.len() ==> (#[trigger] changes_of(
                files,
                sources,
            )->Ok_0[i]).file_name != (#[trigger] changes_of(files, sources)->Ok_0[j]).file_name,
        forall|i: int|
            #![trigger changes_of(files, sources)->Ok_0[i]]
            0 <= i < changes_of(files, sources)->Ok_0.len() ==> exists|k: int|
                0 <= k < files.len() && (#[trigger] files[k]).file_name == changes_of(
                    files,
                    sources,
                )->Ok_0[i].file_name,
    decreases files.len(),
{
    if files.len() > 0 {
        let rest = files.drop_last();
        let before = changes_of(rest, sources)->Ok_0;
        let changes = changes_of(files, sources)->Ok_0;
        lemma_changes_distinct(rest, sources);
        assert forall|i: int| #![trigger changes[i]] 0 <= i < changes.len() implies exists|k: int|
            0 <= k < files.len() && (#[trigger] files[k]).file_name == changes[i].file_name by {
            if i < before.len() {
                assert(changes[i] == before[i]);
                let k = choose|k: int|
                    0 <= k < rest.len() && (#[trigger] rest[k]).file_name == before[i].file_name;
                assert(files[k].file_name == changes[i].file_name);
            } else {
                assert(files[files.len() - 1].file_name == changes[i].file_name);
            }
        }
        assert forall|i: int, j: int| 0 <= i < j < changes.len() implies (
        #[trigger] changes[i]).file_name != (#[trigger] changes[j]).file_name by {
            assert(changes[i] == before[i]);
            if j < before.len() {
                assert(changes[j] == before[j]);
            } else {
                let k = choose|k: int|
                    0 <= k < rest.len() && (#[trigger] rest[k]).file_name == before[i].file_name;
                assert(files[k].file_name != files[files.len() - 1].file_name);
            }
        }
    }
}

/// What is wrong is wrong with one of the files.
proof fn lemma_error_has_file(files: Seq<FileModel>, sources: Seq<SourceModel>) -> (k: int)
    requires
        changes_of(files, sources) is Err,
    ensures
        0 <= k < files.len(),
        change_for(sources, files[k].file_name, files[k].wanted) == Err::<
            Option<ChangeModel>,
            Seq<char>,
        >(changes_of(files, sources)->Err_0),
    decreases files.len(),
{
    if changes_of(files.drop_last(), sources) is Err {
        lemma_error_has_file(files.drop_last(), sources)
    } else {
        files.len() - 1
    }
}

// ---------------------------------------------------------------------------
// Committing changes
// ---------------------------------------------------------------------------

/// The errors among some outcomes, in order.
pub open spec fn failures<E>(outcomes: Seq<Result<(), E>>) -> Seq<E>
    decreases outcomes.len(),
{
    if outcomes.len() == 0 {
        seq![]
    } else {
        match outcomes.last() {
            Ok(_) => failures(outcomes.drop_last()),
            Err(error) => failures(outcomes.drop_last()).push(error),
        }
    }
}

/// The outcome of committing changes, by the outcome of writing each: it is
/// well where all went well, else all errors are reported.
pub fn commit_result<E>(outcomes: Vec<Result<(), E>>) -> (outcome: Result<(), Vec<E>>)
    ensures
        match outcome {
            Ok(_) => failures(outcomes@).len() == 0,
            Err(errors) => errors@ == failures(outcomes@) && errors@.len() > 0,
        },
{
    let ghost all = outcomes@;
    let mut errors: Vec<E> = Vec::new();
    assert(all.take(0) =~= Seq::<Result<(), E>>::empty());
    for outcome in iter: outcomes
        invariant
            iter.seq() == all,
            errors@ == failures(all.take(iter.index())),
    {
        assert(all.take(iter.index() + 1).drop_last() =~= all.take(iter.index()));
        if let Err(error) = outcome {
            errors.push(error);
        }
    }
    assert(all.take(all.len() as int) =~= all);
    if errors.len() == 0 {
        Ok(())
    } else {
        Err(errors)
    }
}

/// Committing goes well exactly where writing each change does.
pub proof fn law_commit_all_or_errors<E>(outcomes: Seq<Result<(), E>>)
    ensures
        failures(outcomes).len() == 0 <==> forall|i: int|
            0 <= i < outcomes.len() ==> #[trigger] outcomes[i] is Ok,
    decreases outcomes.len(),
{
    if outcomes.len() > 0 {
        let rest = outcomes.drop_last();
        law_commit_all_or_errors(rest);
        assert(forall|i: int| 0 <= i < rest.len() ==> rest[i] == #[trigger] outcomes[i]);
        if failures(outcomes).len() == 0 {
            assert forall|i: int| 0 <= i < outcomes.len() implies #[trigger] outcomes[i] is Ok by {
                if i < rest.len() {
                    assert(rest[i] is Ok);
                }
            }
        }
        if forall|i: int| 0 <= i < outcomes.len() ==> #[trigger] outcomes[i] is Ok {
            assert(outcomes[outcomes.len() - 1] is Ok);
            assert(forall|i: int| 0 <= i < rest.len() ==> #[trigger] rest[i] is Ok);
        }
    }
}

/// Where no diagnostic is about an item of a file, and the file has no empty
/// block, there is no change of the file.
pub proof fn law_no_op_is_no_change(
    file_name: Seq<char>,
    content: Seq<u8>,
    nodes: Seq<NodeModel>,
    wanted: Seq<Wanted>,
)
    requires
        parsed_source(content) == Ok::<Seq<NodeModel>, Seq<char>>(nodes),
        forall|i: int|
            0 <= i < wanted.len() ==> first_wanted(declarations(nodes), #[trigger] wanted[i])
                is None,
        forall|i: int| 0 <= i < nodes.len() ==> !is_empty_block((#[trigger] nodes[i]).shape),
    ensures
        change_of(file_name, content, wanted) == Ok::<Option<ChangeModel>, Seq<char>>(None),
{
    law_nothing_found_nothing_deleted(content, nodes, wanted);
    law_no_empty_blocks_nothing_deleted(content, nodes);
}

// ---------------------------------------------------------------------------
// What is proposed
// ---------------------------------------------------------------------------

/// What is proposed for a file with diagnostics is what is proposed, without any,
/// for what is left of it without the items that they mean; and that is what is
/// left without its empty blocks. A file that is not Rust has no proposal.
pub proof fn law_items_first_then_blocks(bytes: Seq<u8>, wanted: Seq<Wanted>)
    ensures
        match parsed_source(bytes) {
            Ok(nodes) => {
                &&& proposal(bytes, wanted) == proposal(
                    without_items(bytes, nodes, wanted),
                    Seq::empty(),
                )
                &&& proposal(bytes, Seq::empty()) == Ok::<Seq<u8>, Seq<char>>(
                    without_empty_blocks(bytes, nodes),
                )
            },
            Err(message) => proposal(bytes, wanted) == Err::<Seq<u8>, Seq<char>>(message),
        },
{
    if let Ok(nodes) = parsed_source(bytes) {
        let left = without_items(bytes, nodes, wanted);
        law_nothing_found_nothing_deleted(bytes, nodes, Seq::empty());
        if let Ok(nodes) = parsed_source(left) {
            law_nothing_found_nothing_deleted(left, nodes, Seq::empty());
        }
    }
}

/// What is proposed for a file is made of its bytes in their order: it is made by
/// deleting alone.
pub proof fn law_proposal_only_deletes(bytes: Seq<u8>, wanted: Seq<Wanted>) -> (kept: Seq<int>)
    ensures
        proposal(bytes, wanted) matches Ok(proposed) ==> picks(bytes, kept, proposed),
{
    match parsed_source(bytes) {
        Ok(nodes) => {
            let left = without_items(bytes, nodes, wanted);
            let first = law_kept_without_items(bytes, nodes, wanted);
            match parsed_source(left) {
                Ok(nodes) => {
                    let second = law_kept_without_blocks(left, nodes);
                    lemma_picks_of_picks(
                        bytes,
                        first,
                        left,
                        second,
                        without_empty_blocks(left, nodes),
                    )
                },
                Err(_) => first,
            }
        },
        Err(_) => Seq::empty(),
    }
}

/// There is a change of a file exactly where its proposal is not what it holds;
/// it shows the name of the file, what it holds and what is proposed. Without a
/// proposal what is wrong is told.
pub proof fn law_change_of(file_name: Seq<char>, content: Seq<u8>, wanted: Seq<Wanted>)
    ensures
        change_of(file_name, content, wanted) is Err <==> proposal(content, wanted) is Err,
        change_of(file_name, content, wanted) matches Err(message) ==> proposal(content, wanted)
            == Err::<Seq<u8>, Seq<char>>(message),
        change_of(file_name, content, wanted) == Ok::<Option<ChangeModel>, Seq<char>>(None)
            <==> proposal(content, wanted) == Ok::<Seq<u8>, Seq<char>>(content),
        change_of(file_name, content, wanted) matches Ok(Some(change)) ==> change.file_name
            == file_name && change.original_content == content && change.proposed_content
            != content && proposal(content, wanted) == Ok::<Seq<u8>, Seq<char>>(
            change.proposed_content,
        ),
{
}

/// What a file holds is what the first file of that name among those that could
/// be read holds. A file that is not among them has no change; one that is has
/// the change of what it holds.
pub proof fn law_change_for(sources: Seq<SourceFile>, file_name: Seq<char>, wanted: Seq<Wanted>)
    ensures
        match content_of(source_models(sources), file_name) {
            Some(content) => {
                &&& exists|i: int|
                    0 <= i < sources.len() && (#[trigger] sources[i]).file_name@ == file_name
                        && sources[i].content@ == content && forall|j: int|
                        0 <= j < i ==> (#[trigger] sources[j]).file_name@ != file_name
                &&& change_for(source_models(sources), file_name, wanted) == change_of(
                    file_name,
                    content,
                    wanted,
                )
            },
            None => {
                &&& forall|i: int|
                    0 <= i < sources.len() ==> (#[trigger] sources[i]).file_name@ != file_name
                &&& change_for(source_models(sources), file_name, wanted) == Ok::<
                    Option<ChangeModel>,
                    Seq<char>,
                >(None)
            },
        },
    decreases sources.len(),
{
    if sources.len() > 0 {
        let rest = sources.drop_last();
        assert(source_models(sources).drop_last() =~= source_models(rest));
        assert(source_models(sources).last() == sources[sources.len() - 1]@);
        law_change_for(rest, file_name, wanted);
        assert forall|j: int| 0 <= j < rest.len() implies #[trigger] sources[j] == rest[j] by {}
        if content_of(source_models(rest), file_name) is Some {
            let content = content_of(source_models(rest), file_name)->0;
            let i = choose|i: int|
                0 <= i < rest.len() && (#[trigger] rest[i]).file_name@ == file_name
                    && rest[i].content@ == content && forall|j: int|
                    0 <= j < i ==> (#[trigger] rest[j]).file_name@ != file_name;
            assert(sources[i].file_name@ == file_name);
            assert forall|j: int| 0 <= j < i implies (#[trigger] sources[j]).file_name@
                != file_name by {
                assert(rest[j].file_name@ != file_name);
            }
        } else if sources[rest.len() as int].file_name@ == file_name {
            assert forall|j: int| 0 <= j < rest.len() implies (#[trigger] sources[j]).file_name@
                != file_name by {
                assert(rest[j].file_name@ != file_name);
            }
        } else {
            assert forall|j: int| 0 <= j < sources.len() implies (#[trigger] sources[j]).file_name@
                != file_name by {
                if j < rest.len() {
                    assert(rest[j].file_name@ != file_name);
                }
            }
        }
    }
}

/// The changes of files are the changes of those that have one, in their order;
/// `changed` are the places of these. Where one has no proposal, what is wrong
/// with the first such is told.
pub proof fn law_changes_of(files: Seq<FileModel>, sources: Seq<SourceModel>) -> (changed: Seq<int>)
    ensures
        match changes_of(files, sources) {
            Ok(changes) => {
                &&& in_order(changed, files.len())
                &&& changed.len() == changes.len()
                &&& forall|k: int|
                    0 <= k < changes.len() ==> change_for(
                        sources,
                        files[changed[k]].file_name,
                        files[changed[k]].wanted,
                    ) == Ok::<Option<ChangeModel>, Seq<char>>(Some(#[trigger] changes[k]))
                &&& forall|i: int|
                    0 <= i < files.len() && !(#[trigger] changed.contains(i)) ==> change_for(
                        sources,
                        files[i].file_name,
                        files[i].wanted,
                    ) == Ok::<Option<ChangeModel>, Seq<char>>(None)
            },
            Err(message) => exists|k: int|
                0 <= k < files.len() && change_for(
                    sources,
                    (#[trigger] files[k]).file_name,
                    files[k].wanted,
                ) == Err::<Option<ChangeModel>, Seq<char>>(message) && forall|j: int|
                    0 <= j < k ==> change_for(
                        sources,
                        (#[trigger] files[j]).file_name,
                        files[j].wanted,
                    ) is Ok,
        },
    decreases files.len(),
{
    if files.len() == 0 {
        Seq::empty()
    } else {
        let rest = files.drop_last();
        let n = rest.len() as int;
        let before = law_changes_of(rest, sources);
        assert forall|j: int| 0 <= j < n implies #[trigger] files[j] == rest[j] by {}
        match changes_of(rest, sources) {
            Ok(earlier) => {
                lemma_one_more_place(before, rest.len());
                assert forall|j: int| 0 <= j < n implies change_for(
                    sources,
                    (#[trigger] files[j]).file_name,
                    files[j].wanted,
                ) is Ok by {
                    if before.contains(j) {
                        let k = choose|k: int| 0 <= k < before.len() && before[k] == j;
                        let change = earlier[k];
                        assert(change_for(
                            sources,
                            rest[before[k]].file_name,
                            rest[before[k]].wanted,
                        ) == Ok::<Option<ChangeModel>, Seq<char>>(Some(change)));
                        assert(rest[before[k]] == files[j]);
                    }
                }
                match change_for(sources, files[n].file_name, files[n].wanted) {
                    Ok(Some(change)) => {
                        let changed = before.push(n);
                        let changes = changes_of(files, sources)->Ok_0;
                        assert forall|k: int| 0 <= k < changes.len() implies change_for(
                            sources,
                            files[changed[k]].file_name,
                            files[changed[k]].wanted,
                        ) == Ok::<Option<ChangeModel>, Seq<char>>(Some(#[trigger] changes[k])) by {
                            if k < before.len() {
                                assert(changes[k] == earlier[k]);
                                assert(files[before[k]] == rest[before[k]]);
                            }
                        }
                        assert forall|i: int|
                            0 <= i < files.len() && !(#[trigger] changed.contains(
                                i,
                            )) implies change_for(sources, files[i].file_name, files[i].wanted)
                            == Ok::<Option<ChangeModel>, Seq<char>>(None) by {
                            assert(!before.contains(i));
                            assert(i != n);
                        }
                        changed
                    },
                    Ok(None) => {
                        assert forall|k: int| 0 <= k < earlier.len() implies change_for(
                            sources,
                            files[before[k]].file_name,
                            files[before[k]].wanted,
                        ) == Ok::<Option<ChangeModel>, Seq<char>>(Some(#[trigger] earlier[k])) by {
                            assert(files[before[k]] == rest[before[k]]);
                        }
                        before
                    },
                    Err(_) => before,
                }
            },
            Err(message) => {
                let k = choose|k: int|
                    0 <= k < rest.len() && change_for(
                        sources,
                        (#[trigger] rest[k]).file_name,
                        rest[k].wanted,
                    ) == Err::<Option<ChangeModel>, Seq<char>>(message) && forall|j: int|
                        0 <= j < k ==> change_for(
                            sources,
                            (#[trigger] rest[j]).file_name,
                            rest[j].wanted,
                        ) is Ok;
                assert(files[k] == rest[k]);
                assert forall|j: int| 0 <= j < k implies change_for(
                    sources,
                    (#[trigger] files[j]).file_name,
                    files[j].wanted,
                ) is Ok by {
                    assert(rest[j] == files[j]);
                }
                before
            },
        }
    }
}

/// Changes that match diagnostics are of the files that these point at: each is
/// the change of its file for all that the diagnostics about it mean, each file
/// has at most one, and none is left out.
pub proof fn law_changes_match(
    changes: Seq<ChangeModel>,
    diagnostics: Seq<UnusedDiagnostic>,
    sources: Seq<SourceFile>,
)
    requires
        changes_match(changes, diagnostic_models(diagnostics), source_models(sources)),
    ensures
        forall|i: int|
            0 <= i < changes.len() ==> exists|d: int|
                0 <= d < diagnostics.len() && (#[trigger] diagnostics[d]).span.file_name@ == (
                #[trigger] changes[i]).file_name,
        forall|i: int|
            0 <= i < changes.len() ==> change_for(
                source_models(sources),
                (#[trigger] changes[i]).file_name,
                wanted_in(diagnostic_models(diagnostics), changes[i].file_name),
            ) == Ok::<Option<ChangeModel>, Seq<char>>(Some(changes[i])),
        forall|i: int|
            0 <= i < changes.len() ==> (#[trigger] changes[i]).original_content
                != changes[i].proposed_content,
        forall|i: int, j: int|
            0 <= i < changes.len() && 0 <= j < changes.len() && (#[trigger] changes[i]).file_name
                == (#[trigger] changes[j]).file_name ==> i == j,
        forall|d: int|
            0 <= d < diagnostics.len() ==> match change_for(
                source_models(sources),
                (#[trigger] diagnostics[d]).span.file_name@,
                wanted_in(diagnostic_models(diagnostics), diagnostics[d].span.file_name@),
            ) {
                Ok(Some(change)) => exists|i: int|
                    0 <= i < changes.len() && #[trigger] changes[i] == change,
                Ok(None) => true,
                Err(_) => false,
            },
{
    let models = diagnostic_models(diagnostics);
    let contents = source_models(sources);
    assert forall|i: int| 0 <= i < changes.len() implies (exists|d: int|
        0 <= d < diagnostics.len() && (#[trigger] diagnostics[d]).span.file_name@
            == changes[i].file_name) && (#[trigger] changes[i]).original_content
        != changes[i].proposed_content by {
        let d = choose|d: int|
            0 <= d < models.len() && (#[trigger] models[d]).file_name == changes[i].file_name;
        assert(models[d] == diagnostics[d]@);
        let wanted = wanted_in(models, changes[i].file_name);
        law_change_for(sources, changes[i].file_name, wanted);
    }
    assert forall|d: int| 0 <= d < diagnostics.len() implies match change_for(
        contents,
        (#[trigger] diagnostics[d]).span.file_name@,
        wanted_in(models, diagnostics[d].span.file_name@),
    ) {
        Ok(Some(change)) => exists|i: int| 0 <= i < changes.len() && #[trigger] changes[i] == change,
        Ok(None) => true,
        Err(_) => false,
    } by {
        assert(models[d].file_name == diagnostics[d].span.file_name@);
        assert(is_mentioned(models, models[d].file_name));
    }
}

/// The errors of a commit are those of the writes that failed, in their order;
/// `failed` are the places of these.
pub proof fn law_failures<E>(outcomes: Seq<Result<(), E>>) -> (failed: Seq<int>)
    ensures
        in_order(failed, outcomes.len()),
        failed.len() == failures(outcomes).len(),
        forall|i: int|
            0 <= i < outcomes.len() ==> (#[trigger] failed.contains(i) <==> outcomes[i] is Err),
        forall|k: int|
            0 <= k < failed.len() ==> outcomes[failed[k]] == Err::<(), E>(
                #[trigger] failures(outcomes)[k],
            ),
    decreases outcomes.len(),
{
    if outcomes.len() == 0 {
        Seq::empty()
    } else {
        let rest = outcomes.drop_last();
        let n = rest.len() as int;
        let before = law_failures(rest);
        lemma_one_more_place(before, rest.len());
        let failed = if outcomes[n] is Err {
            before.push(n)
        } else {
            before
        };
        assert forall|i: int| 0 <= i < outcomes.len() implies (#[trigger] failed.contains(i)
            <==> outcomes[i] is Err) by {
            if i < n {
                assert(before.contains(i) <==> rest[i] is Err);
            }
        }
        assert forall|k: int| 0 <= k < failed.len() implies outcomes[failed[k]] == Err::<(), E>(
            #[trigger] failures(outcomes)[k],
        ) by {
            if k < before.len() {
                assert(failures(outcomes)[k] == failures(rest)[k]);
                assert(rest[before[k]] == outcomes[failed[k]]);
            }
        }
        failed
    }
}

} // verus!
