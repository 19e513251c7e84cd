//! The integrity checker: every file that a host recorded is read again, and
//! its checksum is held against the recorded one.
//!
//! A file that is gone, or that cannot be read, counts as a mismatch like one
//! whose content changed. The checker writes nothing.

use crate::catalog::{Catalog, CatalogState, FileRecord, FileRow};
use crate::hasher::{crc32c, hash};
use crate::options::CheckIntegrityOptions;
use crate::severity::Severity;
use crate::walk::{content_at, find_readable, locates, Observation, PathIndex, WalkEntry};
use vstd::pervasive::unreached;
use vstd::prelude::*;

verus! {

/// What a check found: how many files still have their recorded checksum, how
/// many do not, and the paths of those, in the order of their records.
#[derive(Debug)]
pub struct IntegrityReport {
    /// Files that were read and have their recorded checksum.
    pub ok_count: usize,
    /// Files that are gone, cannot be read, or have another checksum.
    pub mismatch_count: usize,
    /// The paths of the mismatches, in the order in which they were found.
    pub mismatched: Vec<String>,
}

/// The file of `row` can be read in `tree` and has the recorded checksum.
pub open spec fn intact(row: FileRow, tree: Seq<Observation>) -> bool {
    content_at(tree, row.full_path) matches Some(bytes) && crc32c(bytes) == row.id.hash
}

/// The rows that are not intact in `tree`.
pub open spec fn damaged_in(tree: Seq<Observation>) -> spec_fn(FileRow) -> bool {
    |row: FileRow| !intact(row, tree)
}

/// The file rows of `host` in `state` that are not intact in `tree`, oldest
/// first.
pub open spec fn mismatches(host: Seq<char>, state: CatalogState, tree: Seq<Observation>) -> Seq<
    FileRow,
> {
    state.files_of(host).filter(damaged_in(tree))
}

/// The paths of `rows`, in their order.
pub open spec fn paths(rows: Seq<FileRow>) -> Seq<Seq<char>> {
    rows.map_values(|row: FileRow| row.full_path)
}

impl IntegrityReport {
    /// The report of a check that has looked at nothing yet.
    pub fn new() -> (report: IntegrityReport)
        ensures
            report.ok_count == 0,
            report.mismatch_count == 0,
            report.mismatched@ == Seq::<String>::empty(),
    {
        IntegrityReport { ok_count: 0, mismatch_count: 0, mismatched: Vec::new() }
    }

    /// Counts one file: as verified where `ok`, else as a mismatch, with its
    /// path.
    fn count(&mut self, record: &FileRecord, ok: bool)
        requires
            old(self).ok_count < usize::MAX,
            old(self).mismatch_count < usize::MAX,
        ensures
            final(self).follows(*old(self), record@, ok),
    {
        if ok {
            self.ok_count += 1;
        } else {
            let ghost listed = self.mismatched.deep_view();
            self.mismatch_count += 1;
            self.mismatched.push(record.full_path.clone());
            assert(self.mismatched.deep_view() =~= listed.push(record@.full_path));
        }
    }

    /// The report is `before` with one more file counted: as verified where
    /// `ok`, else as a mismatch, its path last in the list.
    pub open spec fn follows(&self, before: IntegrityReport, row: FileRow, ok: bool) -> bool {
        &&& self.ok_count == before.ok_count + if ok {
            1int
        } else {
            0int
        }
        &&& self.mismatch_count == before.mismatch_count + if ok {
            0int
        } else {
            1int
        }
        &&& self.mismatched.deep_view() == if ok {
            before.mismatched.deep_view()
        } else {
            before.mismatched.deep_view().push(row.full_path)
        }
    }

    /// Checks the file of `record` against `tree` and counts it: as verified
    /// where it is intact, else as a mismatch, with its path.
    pub fn note(&mut self, record: &FileRecord, tree: &Vec<WalkEntry>) -> (ok: bool)
        requires
            old(self).ok_count < usize::MAX,
            old(self).mismatch_count < usize::MAX,
        ensures
            ok == intact(record@, tree.deep_view()),
            final(self).follows(*old(self), record@, ok),
    {
        let ok = verify_record(record, tree);
        self.count(record, ok);
        ok
    }

    /// No mismatch was found.
    pub open spec fn spec_passed(&self) -> bool {
        self.mismatch_count == 0
    }

    /// Whether the check succeeded: it does when no mismatch was found.
    #[verifier::when_used_as_spec(spec_passed)]
    pub fn passed(&self) -> (passed: bool)
        ensures
            passed == self.spec_passed(),
    {
        self.mismatch_count == 0
    }

    /// How loud the closing line of the check is: a check that found a
    /// mismatch ends on an error.
    pub fn severity(&self) -> (severity: Severity)
        ensures
            severity == if self.spec_passed() {
                Severity::Info
            } else {
                Severity::Error
            },
    {
        if self.mismatch_count == 0 {
            Severity::Info
        } else {
            Severity::Error
        }
    }
}

/// Whether the entry that a search for the path of `record` found, if it
/// found one, has the recorded checksum.
fn checksum_matches(record: &FileRecord, tree: &Vec<WalkEntry>, found: Option<usize>) -> (ok: bool)
    requires
        locates(found, tree.deep_view(), record@.full_path),
    ensures
        ok == intact(record@, tree.deep_view()),
{
    match found {
        None => false,
        Some(at) => match &tree[at] {
            WalkEntry::File { read: Some(read), .. } => hash(read.bytes.as_slice())
                == record.hash,
            _ => unreached(),
        },
    }
}

/// Whether the file of `record` can be read in `tree` and still has the
/// recorded checksum.
pub fn verify_record(record: &FileRecord, tree: &Vec<WalkEntry>) -> (ok: bool)
    ensures
        ok == intact(record@, tree.deep_view()),
{
    checksum_matches(record, tree, find_readable(tree, &record.full_path))
}

/// Checks every file that `catalog` records for the host `opt.label` against
/// `tree`, which says what can be read at each path now.
pub fn check_integrity(
    opt: &CheckIntegrityOptions,
    catalog: &Catalog,
    tree: &Vec<WalkEntry>,
) -> (report: IntegrityReport)
    ensures
        report.mismatched.deep_view() == paths(
            mismatches(opt.label@, catalog@, tree.deep_view()),
        ),
        report.mismatch_count == mismatches(opt.label@, catalog@, tree.deep_view()).len(),
        report.mismatch_count == report.mismatched@.len(),
        report.ok_count + report.mismatch_count == catalog@.files_of(opt.label@).len(),
{
    let records = catalog.list_files(&opt.label);
    let ghost rows = records.deep_view();
    let ghost model = tree.deep_view();
    let places = PathIndex::build(tree);
    let mut report = IntegrityReport::new();
    let mut at: usize = 0;
    proof {
        reveal(Seq::filter);
        assert(rows.take(0) =~= Seq::<FileRow>::empty());
        assert(report.mismatched.deep_view() =~= paths(rows.take(0).filter(damaged_in(model))));
    }
    while at < records.len()
        invariant
            at <= records.len(),
            rows == records.deep_view(),
            model == tree.deep_view(),
            places.describes(model),
            report.mismatched.deep_view() == paths(rows.take(at as int).filter(damaged_in(model))),
            report.mismatch_count == rows.take(at as int).filter(damaged_in(model)).len(),
            report.mismatch_count == report.mismatched@.len(),
            report.ok_count + report.mismatch_count == at,
        decreases records.len() - at,
    {
        let ghost found = rows.take(at as int).filter(damaged_in(model));
        proof {
            assert(rows.take(at + 1) =~= rows.take(at as int).push(rows[at as int]));
            rows.take(at as int).lemma_filter_push(rows[at as int], damaged_in(model));
            assert(paths(found.push(rows[at as int])) =~= paths(found).push(
                rows[at as int].full_path,
            ));
        }
        let found = places.find(tree, &records[at].full_path);
        let ok = checksum_matches(&records[at], tree, found);
        report.count(&records[at], ok);
        at += 1;
    }
    assert(rows.take(at as int) =~= rows);
    report
}

} // verus!
