//! The indexer: every file that a traversal yields is hashed and recorded.
//!
//! For a readable file the content record is written first and the file
//! record after it, so a file record never names an identity that the catalog
//! lacks. A file that cannot be read is skipped and the traversal goes on; a
//! traversal that fails ends the run, and what was recorded before stays.

use crate::catalog::{
    lemma_insert_content_well_formed, Catalog, CatalogState, ContentId, ContentRow, FileRow,
    InsertOutcome,
};
use crate::hasher::{crc32c, hash};
use crate::options::IndexOptions;
use crate::severity::Severity;
use crate::walk::{Observation, Reading, WalkEntry};
use vstd::pervasive::unreached;
use vstd::prelude::*;

verus! {

/// The mime type recorded where the classifier knew none.
pub const UNKNOWN_MIME: &'static str = "N/A";

/// What became of one entry of the traversal.
#[derive(Clone, Copy, Debug, PartialEq, Eq, Structural)]
pub enum EntryOutcome {
    /// A directory: nothing to record.
    Directory,
    /// A file that could not be read: skipped.
    Unreadable,
    /// A file that was hashed, with what the two insertions reported.
    Indexed { id: ContentId, content: InsertOutcome, file: InsertOutcome },
    /// The traversal failed here: the run is over.
    TraversalFailed,
}

/// What an indexing run did: one outcome for each entry that it reached, and
/// the counts.
#[derive(Debug)]
pub struct IndexReport {
    /// What became of each entry that the run reached, in their order.
    pub outcomes: Vec<EntryOutcome>,
    /// Content records written.
    pub contents_added: usize,
    /// Identities that were recorded already: expected where content repeats.
    pub duplicate_contents: usize,
    /// File records written.
    pub files_added: usize,
    /// Paths that the host had already: not expected.
    pub duplicate_paths: usize,
    /// Files that could not be read.
    pub unreadable: usize,
    /// The traversal failed before its end.
    pub aborted: bool,
}

/// The mime type to record for what the classifier said.
pub open spec fn mime_or_unknown(mime: Option<Seq<char>>) -> Seq<char> {
    match mime {
        Some(mime) => mime,
        None => UNKNOWN_MIME@,
    }
}

/// The identity of what was read.
pub open spec fn identity(reading: Reading) -> ContentId {
    ContentId { hash: crc32c(reading.bytes), size: reading.size }
}

/// The catalog after `entry` was handled for `host`.
pub open spec fn catalog_after(
    host: Seq<char>,
    state: CatalogState,
    entry: Observation,
) -> CatalogState {
    match entry {
        Observation::File { path, read: Some(reading) } => state.insert_content(
            ContentRow { id: identity(reading), mime: mime_or_unknown(reading.mime) },
        ).insert_file(FileRow { host, full_path: path, id: identity(reading) }),
        _ => state,
    }
}

/// What handling `entry` for `host` reports.
pub open spec fn outcome_of(
    host: Seq<char>,
    state: CatalogState,
    entry: Observation,
) -> EntryOutcome {
    match entry {
        Observation::Directory { .. } => EntryOutcome::Directory,
        Observation::File { read: None, .. } => EntryOutcome::Unreadable,
        Observation::File { path, read: Some(reading) } => EntryOutcome::Indexed {
            id: identity(reading),
            content: state.content_outcome(identity(reading)),
            file: if state.has_file(host, path) {
                InsertOutcome::AlreadyExists
            } else {
                InsertOutcome::Inserted
            },
        },
        Observation::Failure => EntryOutcome::TraversalFailed,
    }
}

/// The result of a run in the model.
pub struct IndexRun {
    pub catalog: CatalogState,
    pub outcomes: Seq<EntryOutcome>,
}

impl IndexRun {
    /// The run met a failure of the traversal, and ended there.
    pub open spec fn aborted(self) -> bool {
        self.outcomes.len() > 0 && self.outcomes.last() == EntryOutcome::TraversalFailed
    }
}

/// Indexing `tree` for `host` into `state`: the entries are handled in order
/// up to the first failure of the traversal, or to the end.
pub open spec fn index_run(
    host: Seq<char>,
    state: CatalogState,
    tree: Seq<Observation>,
) -> IndexRun
    decreases tree.len(),
{
    if tree.len() == 0 {
        IndexRun { catalog: state, outcomes: Seq::empty() }
    } else {
        let before = index_run(host, state, tree.drop_last());
        if before.aborted() {
            before
        } else {
            IndexRun {
                catalog: catalog_after(host, before.catalog, tree.last()),
                outcomes: before.outcomes.push(outcome_of(host, before.catalog, tree.last())),
            }
        }
    }
}

/// The outcomes that wrote a content record.
pub open spec fn adds_content() -> spec_fn(EntryOutcome) -> bool {
    |outcome: EntryOutcome|
        outcome matches EntryOutcome::Indexed { content: InsertOutcome::Inserted, .. }
}

/// The outcomes that found their content recorded already.
pub open spec fn repeats_content() -> spec_fn(EntryOutcome) -> bool {
    |outcome: EntryOutcome|
        outcome matches EntryOutcome::Indexed { content: InsertOutcome::AlreadyExists, .. }
}

/// The outcomes that wrote a file record.
pub open spec fn adds_file() -> spec_fn(EntryOutcome) -> bool {
    |outcome: EntryOutcome|
        outcome matches EntryOutcome::Indexed { file: InsertOutcome::Inserted, .. }
}

/// The outcomes that found their path recorded already.
pub open spec fn repeats_path() -> spec_fn(EntryOutcome) -> bool {
    |outcome: EntryOutcome|
        outcome matches EntryOutcome::Indexed { file: InsertOutcome::AlreadyExists, .. }
}

/// The outcomes of files that could not be read.
pub open spec fn is_unreadable() -> spec_fn(EntryOutcome) -> bool {
    |outcome: EntryOutcome| outcome == EntryOutcome::Unreadable
}

/// How many of `outcomes` satisfy `kind`.
pub open spec fn count(outcomes: Seq<EntryOutcome>, kind: spec_fn(EntryOutcome) -> bool) -> nat {
    outcomes.filter(kind).len()
}

impl EntryOutcome {
    /// How loud the report of this outcome is: a path that was there already,
    /// an unreadable file and a failed traversal are errors; content that was
    /// there already is a warning; the rest is routine.
    pub open spec fn spec_severity(self) -> Severity {
        match self {
            EntryOutcome::Directory => Severity::Info,
            EntryOutcome::Unreadable => Severity::Error,
            EntryOutcome::TraversalFailed => Severity::Error,
            EntryOutcome::Indexed { file: InsertOutcome::AlreadyExists, .. } => Severity::Error,
            EntryOutcome::Indexed { content: InsertOutcome::AlreadyExists, .. } => {
                Severity::Warning
            },
            EntryOutcome::Indexed { .. } => Severity::Info,
        }
    }

    /// The severity at which this outcome is to be reported.
    #[verifier::when_used_as_spec(spec_severity)]
    pub fn severity(self) -> (severity: Severity)
        ensures
            severity == self.spec_severity(),
    {
        match self {
            EntryOutcome::Directory => Severity::Info,
            EntryOutcome::Unreadable => Severity::Error,
            EntryOutcome::TraversalFailed => Severity::Error,
            EntryOutcome::Indexed { file: InsertOutcome::AlreadyExists, .. } => Severity::Error,
            EntryOutcome::Indexed { content: InsertOutcome::AlreadyExists, .. } => {
                Severity::Warning
            },
            EntryOutcome::Indexed { .. } => Severity::Info,
        }
    }
}

/// Handles one entry of a traversal for `host`: a readable file is hashed,
/// its content record is inserted, then its file record.
pub fn index_entry(host: &String, catalog: &mut Catalog, entry: &WalkEntry) -> (outcome:
    EntryOutcome)
    requires
        old(catalog).well_formed(),
    ensures
        final(catalog).well_formed(),
        final(catalog)@ == catalog_after(host@, old(catalog)@, entry.deep_view()),
        outcome == outcome_of(host@, old(catalog)@, entry.deep_view()),
{
    match entry {
        WalkEntry::Directory { .. } => EntryOutcome::Directory,
        WalkEntry::Failure => EntryOutcome::TraversalFailed,
        WalkEntry::File { read: None, .. } => EntryOutcome::Unreadable,
        WalkEntry::File { path, read: Some(read) } => {
            let checksum = hash(read.bytes.as_slice());
            let id = ContentId { hash: checksum, size: read.size };
            let mime = match &read.mime {
                Some(mime) => mime.clone(),
                None => UNKNOWN_MIME.to_owned(),
            };
            let ghost content_row = ContentRow { id, mime: mime@ };
            proof {
                lemma_insert_content_well_formed(catalog@, content_row);
            }
            let content = catalog.insert_content(checksum, read.size, mime);
            let written = catalog.insert_file(host.clone(), path.clone(), checksum, read.size);
            let file = match written {
                Ok(outcome) => outcome,
                Err(_) => unreached(),
            };
            EntryOutcome::Indexed { id, content, file }
        },
    }
}

impl IndexReport {
    /// The report says what `run` did: the same outcomes, and each count is
    /// the number of outcomes of its kind.
    pub open spec fn tells(&self, run: IndexRun) -> bool {
        &&& self.outcomes@ == run.outcomes
        &&& self.contents_added == count(run.outcomes, adds_content())
        &&& self.duplicate_contents == count(run.outcomes, repeats_content())
        &&& self.files_added == count(run.outcomes, adds_file())
        &&& self.duplicate_paths == count(run.outcomes, repeats_path())
        &&& self.unreadable == count(run.outcomes, is_unreadable())
        &&& self.aborted == run.aborted()
    }
}

/// Once a run has met a failure of the traversal, further entries change
/// nothing.
pub proof fn lemma_aborted_run_is_final(
    host: Seq<char>,
    state: CatalogState,
    tree: Seq<Observation>,
    len: int,
)
    requires
        0 <= len <= tree.len(),
        index_run(host, state, tree.take(len)).aborted(),
    ensures
        index_run(host, state, tree) == index_run(host, state, tree.take(len)),
    decreases tree.len() - len,
{
    if len < tree.len() {
        assert(tree.drop_last().take(len) =~= tree.take(len));
        lemma_aborted_run_is_final(host, state, tree.drop_last(), len);
    } else {
        assert(tree.take(len) =~= tree);
    }
}

/// A run has one outcome for each entry that it reached.
pub proof fn lemma_run_length(host: Seq<char>, state: CatalogState, tree: Seq<Observation>)
    ensures
        index_run(host, state, tree).outcomes.len() <= tree.len(),
        !index_run(host, state, tree).aborted() ==> index_run(host, state, tree).outcomes.len()
            == tree.len(),
    decreases tree.len(),
{
    if tree.len() > 0 {
        lemma_run_length(host, state, tree.drop_last());
    }
}

/// Indexes what a traversal yielded for the host `opt.label`, entry by entry,
/// until the entries end or the traversal fails.
pub fn index(opt: &IndexOptions, catalog: &mut Catalog, tree: &Vec<WalkEntry>) -> (report:
    IndexReport)
    requires
        old(catalog).well_formed(),
    ensures
        final(catalog).well_formed(),
        final(catalog)@ == index_run(opt.label@, old(catalog)@, tree.deep_view()).catalog,
        report.tells(index_run(opt.label@, old(catalog)@, tree.deep_view())),
{
    let ghost model = tree.deep_view();
    let ghost start = catalog@;
    let ghost host = opt.label@;
    let mut report = IndexReport {
        outcomes: Vec::new(),
        contents_added: 0,
        duplicate_contents: 0,
        files_added: 0,
        duplicate_paths: 0,
        unreadable: 0,
        aborted: false,
    };
    let mut at: usize = 0;
    proof {
        reveal(Seq::filter);
        assert(model.take(0) =~= Seq::<Observation>::empty());
        assert(report.outcomes@ =~= Seq::<EntryOutcome>::empty());
    }
    while at < tree.len() && !report.aborted
        invariant
            at <= tree.len(),
            model == tree.deep_view(),
            host == opt.label@,
            catalog.well_formed(),
            catalog@ == index_run(host, start, model.take(at as int)).catalog,
            report.tells(index_run(host, start, model.take(at as int))),
            report.outcomes@.len() <= at,
        decreases tree.len() - at,
    {
        let ghost seen = report.outcomes@;
        let outcome = index_entry(&opt.label, catalog, &tree[at]);
        proof {
            assert(model.take(at + 1).drop_last() =~= model.take(at as int));
            assert(model.take(at + 1).last() == model[at as int]);
            seen.lemma_filter_push(outcome, adds_content());
            seen.lemma_filter_push(outcome, repeats_content());
            seen.lemma_filter_push(outcome, adds_file());
            seen.lemma_filter_push(outcome, repeats_path());
            seen.lemma_filter_push(outcome, is_unreadable());
            seen.lemma_filter_len(adds_content());
            seen.lemma_filter_len(repeats_content());
            seen.lemma_filter_len(adds_file());
            seen.lemma_filter_len(repeats_path());
            seen.lemma_filter_len(is_unreadable());
        }
        match outcome {
            EntryOutcome::Directory => {},
            EntryOutcome::Unreadable => {
                report.unreadable += 1;
            },
            EntryOutcome::TraversalFailed => {
                report.aborted = true;
            },
            EntryOutcome::Indexed { content, file, .. } => {
                match content {
                    InsertOutcome::Inserted => {
                        report.contents_added += 1;
                    },
                    InsertOutcome::AlreadyExists => {
                        report.duplicate_contents += 1;
                    },
                }
                match file {
                    InsertOutcome::Inserted => {
                        report.files_added += 1;
                    },
                    InsertOutcome::AlreadyExists => {
                        report.duplicate_paths += 1;
                    },
                }
            },
        }
        report.outcomes.push(outcome);
        at += 1;
    }
    proof {
        if report.aborted {
            lemma_aborted_run_is_final(host, start, model, at as int);
        } else {
            assert(model.take(at as int) =~= model);
        }
    }
    report
}

} // verus!
