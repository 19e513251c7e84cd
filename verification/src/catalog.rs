//! The catalog: the file records and content records of one store.
//!
//! A catalog is append-only. Its mathematical model is [`CatalogState`], two
//! sequences of rows in insertion order; [`Catalog`] is the executable value,
//! and every operation on it is stated as a transition of the model.

use std::collections::HashSet;
use vstd::hash_set::StringHashSet;
use vstd::prelude::*;

verus! {

/// A content identity: the checksum and the size of a file's content. Two
/// files with the same identity are candidates for being duplicates, not
/// proven copies.
#[derive(Clone, Copy, Debug, PartialEq, Eq, Hash, Structural)]
pub struct ContentId {
    pub hash: u32,
    pub size: u64,
}

/// What an insertion did.
#[derive(Clone, Copy, Debug, PartialEq, Eq, Structural)]
pub enum InsertOutcome {
    /// The row is new and was appended.
    Inserted,
    /// A row with the same key was there already; the catalog did not change.
    AlreadyExists,
}

/// Why a row could not be stored, for a reason other than a duplicate key.
/// Such a failure ends the operation that met it.
#[derive(Clone, Copy, Debug, PartialEq, Eq, Structural)]
pub enum StoreError {
    /// A file row named a content identity that the catalog does not hold.
    UnknownContent,
    /// The storage engine failed.
    EngineFailure,
}

/// The model of a content record: an identity and the mime type first seen
/// for it.
pub struct ContentRow {
    pub id: ContentId,
    pub mime: Seq<char>,
}

/// The model of a file record: one path on one host, and the identity of what
/// was found there.
pub struct FileRow {
    pub host: Seq<char>,
    pub full_path: Seq<char>,
    pub id: ContentId,
}

/// One distinct content identity that was observed, with its mime type.
#[derive(Debug)]
pub struct ContentRecord {
    pub hash: u32,
    pub size: u64,
    pub mime: String,
}

/// One path on one host as it was when it was indexed.
#[derive(Debug)]
pub struct FileRecord {
    pub host: String,
    pub full_path: String,
    pub hash: u32,
    pub size: u64,
}

impl View for ContentRecord {
    type V = ContentRow;

    open spec fn view(&self) -> ContentRow {
        ContentRow { id: ContentId { hash: self.hash, size: self.size }, mime: self.mime@ }
    }
}

impl DeepView for ContentRecord {
    type V = ContentRow;

    open spec fn deep_view(&self) -> ContentRow {
        self@
    }
}

impl View for FileRecord {
    type V = FileRow;

    open spec fn view(&self) -> FileRow {
        FileRow {
            host: self.host@,
            full_path: self.full_path@,
            id: ContentId { hash: self.hash, size: self.size },
        }
    }
}

impl DeepView for FileRecord {
    type V = FileRow;

    open spec fn deep_view(&self) -> FileRow {
        self@
    }
}

impl ContentRecord {
    /// The identity that this record is kept under.
    pub fn id(&self) -> (id: ContentId)
        ensures
            id == self@.id,
    {
        ContentId { hash: self.hash, size: self.size }
    }

    /// A second record with the same fields.
    pub fn duplicate(&self) -> (copy: ContentRecord)
        ensures
            copy@ == self@,
    {
        ContentRecord { hash: self.hash, size: self.size, mime: self.mime.clone() }
    }
}

impl FileRecord {
    /// The identity of the content that was found at this path.
    pub fn id(&self) -> (id: ContentId)
        ensures
            id == self@.id,
    {
        ContentId { hash: self.hash, size: self.size }
    }

    /// A second record with the same fields.
    pub fn duplicate(&self) -> (copy: FileRecord)
        ensures
            copy@ == self@,
    {
        FileRecord {
            host: self.host.clone(),
            full_path: self.full_path.clone(),
            hash: self.hash,
            size: self.size,
        }
    }
}

/// The test that a row is one of `host`.
pub open spec fn of_host(host: Seq<char>) -> spec_fn(FileRow) -> bool {
    |row: FileRow| row.host == host
}

/// Some row of `contents` has the identity `id`.
pub open spec fn identity_among(contents: Seq<ContentRow>, id: ContentId) -> bool {
    exists|i: int| 0 <= i < contents.len() && (#[trigger] contents[i]).id == id
}

/// Some row of `files` is keyed by `host` and `full_path`.
pub open spec fn path_among(files: Seq<FileRow>, host: Seq<char>, full_path: Seq<char>) -> bool {
    exists|i: int|
        0 <= i < files.len() && (#[trigger] files[i]).host == host && files[i].full_path
            == full_path
}

/// The model of a catalog: its rows, oldest first.
#[verifier::ext_equal]
pub struct CatalogState {
    pub files: Seq<FileRow>,
    pub contents: Seq<ContentRow>,
}

impl CatalogState {
    /// The catalog without rows.
    pub open spec fn empty() -> CatalogState {
        CatalogState { files: Seq::empty(), contents: Seq::empty() }
    }

    /// Some content row has the identity `id`.
    pub open spec fn has_content(self, id: ContentId) -> bool {
        identity_among(self.contents, id)
    }

    /// Some file row is keyed by `host` and `full_path`.
    pub open spec fn has_file(self, host: Seq<char>, full_path: Seq<char>) -> bool {
        path_among(self.files, host, full_path)
    }

    /// No identity has two content rows, no host and path have two file rows,
    /// and every file row names an identity that has a content row.
    pub open spec fn well_formed(self) -> bool {
        &&& forall|i: int, j: int|
            0 <= i < j < self.contents.len() ==> (#[trigger] self.contents[i]).id
                != (#[trigger] self.contents[j]).id
        &&& forall|i: int, j: int|
            0 <= i < j < self.files.len() ==> !((#[trigger] self.files[i]).host == (
            #[trigger] self.files[j]).host && self.files[i].full_path == self.files[j].full_path)
        &&& forall|i: int|
            0 <= i < self.files.len() ==> self.has_content((#[trigger] self.files[i]).id)
    }

    /// What inserting a content row with identity `id` reports.
    pub open spec fn content_outcome(self, id: ContentId) -> InsertOutcome {
        if self.has_content(id) {
            InsertOutcome::AlreadyExists
        } else {
            InsertOutcome::Inserted
        }
    }

    /// The catalog after an attempt to insert `row`: the first row of an
    /// identity stays, a later one changes nothing.
    pub open spec fn insert_content(self, row: ContentRow) -> CatalogState {
        if self.has_content(row.id) {
            self
        } else {
            CatalogState { files: self.files, contents: self.contents.push(row) }
        }
    }

    /// What inserting `row` reports: a duplicate of host and path first, then
    /// an identity without a content row, else success.
    pub open spec fn file_outcome(self, row: FileRow) -> Result<InsertOutcome, StoreError> {
        if self.has_file(row.host, row.full_path) {
            Ok(InsertOutcome::AlreadyExists)
        } else if !self.has_content(row.id) {
            Err(StoreError::UnknownContent)
        } else {
            Ok(InsertOutcome::Inserted)
        }
    }

    /// The catalog after an attempt to insert `row`: it is appended exactly
    /// when [`Self::file_outcome`] is `Ok(Inserted)`.
    pub open spec fn insert_file(self, row: FileRow) -> CatalogState {
        if self.file_outcome(row) == Ok::<InsertOutcome, StoreError>(InsertOutcome::Inserted) {
            CatalogState { files: self.files.push(row), contents: self.contents }
        } else {
            self
        }
    }

    /// The file rows of `host`, oldest first.
    pub open spec fn files_of(self, host: Seq<char>) -> Seq<FileRow> {
        self.files.filter(of_host(host))
    }

    /// The identities of the content rows, oldest first.
    pub open spec fn content_ids(self) -> Seq<ContentId> {
        self.contents.map_values(|row: ContentRow| row.id)
    }
}

/// Inserting a content row keeps a catalog well formed.
pub proof fn lemma_insert_content_well_formed(state: CatalogState, row: ContentRow)
    requires
        state.well_formed(),
    ensures
        state.insert_content(row).well_formed(),
        state.insert_content(row).has_content(row.id),
{
    let after = state.insert_content(row);
    if state.has_content(row.id) {
    } else {
        assert(after.contents[state.contents.len() as int].id == row.id);
        assert forall|i: int| 0 <= i < after.files.len() implies after.has_content(
            (#[trigger] after.files[i]).id,
        ) by {
            let id = state.files[i].id;
            assert(state.has_content(id));
            let k = choose|k: int| 0 <= k < state.contents.len() && state.contents[k].id == id;
            assert(after.contents[k].id == id);
        }
    }
}

/// Inserting a file row keeps a catalog well formed.
pub proof fn lemma_insert_file_well_formed(state: CatalogState, row: FileRow)
    requires
        state.well_formed(),
    ensures
        state.insert_file(row).well_formed(),
{
    let after = state.insert_file(row);
    if state.file_outcome(row) == Ok::<InsertOutcome, StoreError>(InsertOutcome::Inserted) {
        let last = state.files.len() as int;
        assert forall|i: int, j: int| 0 <= i < j < after.files.len() implies !((
        #[trigger] after.files[i]).host == (#[trigger] after.files[j]).host
            && after.files[i].full_path == after.files[j].full_path) by {
            if j == last {
                assert(after.files[i] == state.files[i]);
            } else {
                assert(after.files[i] == state.files[i]);
                assert(after.files[j] == state.files[j]);
            }
        }
        assert forall|i: int| 0 <= i < after.files.len() implies after.has_content(
            (#[trigger] after.files[i]).id,
        ) by {
            let id = after.files[i].id;
            if i < last {
                assert(after.files[i] == state.files[i]);
            }
            assert(state.has_content(id));
            let k = choose|k: int| 0 <= k < state.contents.len() && state.contents[k].id == id;
            assert(after.contents[k].id == id);
        }
    }
}

/// What a pushed row adds to the identities among content rows.
pub proof fn lemma_identity_among_push(rows: Seq<ContentRow>, row: ContentRow, id: ContentId)
    ensures
        identity_among(rows.push(row), id) <==> identity_among(rows, id) || row.id == id,
{
    let more = rows.push(row);
    if identity_among(more, id) {
        let i = choose|i: int| 0 <= i < more.len() && (#[trigger] more[i]).id == id;
        if i < rows.len() {
            assert(rows[i].id == id);
        }
    }
    if identity_among(rows, id) {
        let i = choose|i: int| 0 <= i < rows.len() && (#[trigger] rows[i]).id == id;
        assert(more[i].id == id);
    }
    if row.id == id {
        assert(more[rows.len() as int].id == id);
    }
}

/// What a pushed row adds to the paths among file rows.
pub proof fn lemma_path_among_push(
    rows: Seq<FileRow>,
    row: FileRow,
    host: Seq<char>,
    full_path: Seq<char>,
)
    ensures
        path_among(rows.push(row), host, full_path) <==> path_among(rows, host, full_path) || (
        row.host == host && row.full_path == full_path),
{
    let more = rows.push(row);
    if path_among(more, host, full_path) {
        let i = choose|i: int|
            0 <= i < more.len() && (#[trigger] more[i]).host == host && more[i].full_path
                == full_path;
        if i < rows.len() {
            assert(rows[i].host == host && rows[i].full_path == full_path);
        }
    }
    if path_among(rows, host, full_path) {
        let i = choose|i: int|
            0 <= i < rows.len() && (#[trigger] rows[i]).host == host && rows[i].full_path
                == full_path;
        assert(more[i].host == host && more[i].full_path == full_path);
    }
    if row.host == host && row.full_path == full_path {
        assert(more[rows.len() as int] == row);
    }
}

/// An identity as one number: the checksum above the 64 bits of the size.
pub open spec fn spec_key(id: ContentId) -> u128 {
    (id.hash as int * 0x1_0000_0000_0000_0000 + id.size as int) as u128
}

/// Different identities have different keys.
pub proof fn lemma_key_injective(a: ContentId, b: ContentId)
    requires
        spec_key(a) == spec_key(b),
    ensures
        a == b,
{
}

impl ContentId {
    /// The identity as one number, for hashed lookup.
    pub fn key(self) -> (key: u128)
        ensures
            key == spec_key(self),
    {
        (self.hash as u128) * 0x1_0000_0000_0000_0000u128 + (self.size as u128)
    }
}

/// The paths that one host has in the catalog.
struct HostPaths {
    host: String,
    paths: StringHashSet,
}

/// Some entry of `hosts` is for `host` and holds `full_path`.
spec fn listed(hosts: Seq<HostPaths>, host: Seq<char>, full_path: Seq<char>) -> bool {
    exists|i: int|
        0 <= i < hosts.len() && (#[trigger] hosts[i]).host@ == host && hosts[i].paths@.contains(
            full_path,
        )
}

/// The catalog of one store.
///
/// The records are kept in insertion order. Beside them the catalog keeps
/// what makes a lookup cheap: the keys of its content identities, and for
/// each host the set of its paths.
pub struct Catalog {
    files: Vec<FileRecord>,
    contents: Vec<ContentRecord>,
    keys: HashSet<u128>,
    hosts: Vec<HostPaths>,
}

impl View for Catalog {
    type V = CatalogState;

    closed spec fn view(&self) -> CatalogState {
        CatalogState { files: self.files.deep_view(), contents: self.contents.deep_view() }
    }
}

impl Catalog {
    /// The lookup structures say what the records say.
    pub closed spec fn in_step(&self) -> bool {
        &&& forall|id: ContentId|
            #![trigger self.keys@.contains(spec_key(id))]
            #![trigger identity_among(self.contents.deep_view(), id)]
            self.keys@.contains(spec_key(id)) <==> identity_among(self.contents.deep_view(), id)
        &&& forall|i: int, j: int|
            0 <= i < j < self.hosts.len() ==> (#[trigger] self.hosts[i]).host@ != (
            #[trigger] self.hosts[j]).host@
        &&& forall|host: Seq<char>, full_path: Seq<char>|
            #![trigger listed(self.hosts@, host, full_path)]
            #![trigger path_among(self.files.deep_view(), host, full_path)]
            listed(self.hosts@, host, full_path) <==> path_among(
                self.files.deep_view(),
                host,
                full_path,
            )
    }

    /// The invariant of every catalog that this module hands out: its model
    /// is well formed, and its lookup structures are in step with its
    /// records.
    pub open spec fn well_formed(&self) -> bool {
        self@.well_formed() && self.in_step()
    }

    /// A catalog without rows.
    pub fn new() -> (catalog: Catalog)
        ensures
            catalog.well_formed(),
            catalog@ == CatalogState::empty(),
    {
        let catalog = Catalog {
            files: Vec::new(),
            contents: Vec::new(),
            keys: HashSet::new(),
            hosts: Vec::new(),
        };
        assert(catalog@ =~= CatalogState::empty());
        catalog
    }

    /// The number of file records.
    pub fn file_count(&self) -> (count: usize)
        ensures
            count == self@.files.len(),
    {
        self.files.len()
    }

    /// The number of content records.
    pub fn content_count(&self) -> (count: usize)
        ensures
            count == self@.contents.len(),
    {
        self.contents.len()
    }

    /// Whether a content record has the identity `id`.
    pub fn has_content(&self, id: ContentId) -> (found: bool)
        requires
            self.well_formed(),
        ensures
            found == self@.has_content(id),
    {
        broadcast use vstd::std_specs::hash::group_hash_axioms;

        let key = id.key();
        self.keys.contains(&key)
    }

    /// Where the paths of `host` are kept, if the host has any.
    fn find_host(&self, host: &String) -> (found: Option<usize>)
        ensures
            match found {
                Some(at) => at < self.hosts.len() && self.hosts[at as int].host@ == host@,
                None => forall|i: int|
                    0 <= i < self.hosts.len() ==> (#[trigger] self.hosts[i]).host@ != host@,
            },
    {
        let mut at: usize = 0;
        while at < self.hosts.len()
            invariant
                at <= self.hosts.len(),
                forall|i: int| 0 <= i < at ==> (#[trigger] self.hosts[i]).host@ != host@,
            decreases self.hosts.len() - at,
        {
            if self.hosts[at].host == *host {
                return Some(at);
            }
            at += 1;
        }
        None
    }

    /// Whether a file record is keyed by `host` and `full_path`.
    pub fn has_file(&self, host: &String, full_path: &String) -> (found: bool)
        requires
            self.well_formed(),
        ensures
            found == self@.has_file(host@, full_path@),
    {
        match self.find_host(host) {
            None => false,
            Some(at) => {
                let found = self.hosts[at].paths.contains(full_path.as_str());
                proof {
                    if listed(self.hosts@, host@, full_path@) {
                        let i = choose|i: int|
                            0 <= i < self.hosts.len() && (#[trigger] self.hosts[i]).host@ == host@
                                && self.hosts[i].paths@.contains(full_path@);
                        assert(i == at);
                    }
                    if found {
                        assert(self.hosts@[at as int].host@ == host@);
                    }
                }
                found
            },
        }
    }

    /// Records the content identity `(hash, size)` with `mime`, unless the
    /// identity is recorded already: then nothing changes, the mime first seen
    /// stays.
    pub fn insert_content(&mut self, hash: u32, size: u64, mime: String) -> (outcome:
        InsertOutcome)
        requires
            old(self).well_formed(),
        ensures
            final(self).well_formed(),
            final(self)@ == old(self)@.insert_content(
                ContentRow { id: ContentId { hash, size }, mime: mime@ },
            ),
            outcome == old(self)@.content_outcome(ContentId { hash, size }),
            final(self)@.has_content(ContentId { hash, size }),
    {
        broadcast use vstd::std_specs::hash::group_hash_axioms;

        let id = ContentId { hash, size };
        let ghost row = ContentRow { id, mime: mime@ };
        proof {
            lemma_insert_content_well_formed(self@, row);
        }
        if self.has_content(id) {
            return InsertOutcome::AlreadyExists;
        }
        let ghost rows = self.contents.deep_view();
        self.keys.insert(id.key());
        self.contents.push(ContentRecord { hash, size, mime });
        proof {
            assert(self.contents.deep_view() =~= rows.push(row));
            assert(self@ =~= old(self)@.insert_content(row));
            assert forall|other: ContentId|
                #![trigger self.keys@.contains(spec_key(other))]
                #![trigger identity_among(self.contents.deep_view(), other)]
                self.keys@.contains(spec_key(other)) <==> identity_among(
                    self.contents.deep_view(),
                    other,
                ) by {
                lemma_identity_among_push(rows, row, other);
                if spec_key(other) == spec_key(id) {
                    lemma_key_injective(other, id);
                }
                assert(old(self).keys@.contains(spec_key(other)) <==> identity_among(rows, other));
            }
        }
        InsertOutcome::Inserted
    }

    /// Records `full_path` on `host` with the identity `(hash, size)`. A path
    /// that the host has already is a conflict and changes nothing; an
    /// identity without a content record is refused.
    pub fn insert_file(
        &mut self,
        host: String,
        full_path: String,
        hash: u32,
        size: u64,
    ) -> (outcome: Result<InsertOutcome, StoreError>)
        requires
            old(self).well_formed(),
        ensures
            final(self).well_formed(),
            final(self)@ == old(self)@.insert_file(
                FileRow { host: host@, full_path: full_path@, id: ContentId { hash, size } },
            ),
            outcome == old(self)@.file_outcome(
                FileRow { host: host@, full_path: full_path@, id: ContentId { hash, size } },
            ),
            outcome is Ok ==> final(self)@.has_file(host@, full_path@),
    {
        let ghost row = FileRow {
            host: host@,
            full_path: full_path@,
            id: ContentId { hash, size },
        };
        proof {
            lemma_insert_file_well_formed(self@, row);
        }
        if self.has_file(&host, &full_path) {
            return Ok(InsertOutcome::AlreadyExists);
        }
        if !self.has_content(ContentId { hash, size }) {
            return Err(StoreError::UnknownContent);
        }
        let ghost rows = self.files.deep_view();
        let ghost hosts = self.hosts@;
        match self.find_host(&host) {
            Some(at) => {
                self.hosts[at].paths.insert(full_path.clone());
                proof {
                    let now = self.hosts@;
                    assert(now.len() == hosts.len());
                    assert(now[at as int].host@ == host@);
                    assert(now[at as int].paths@ == hosts[at as int].paths@.insert(full_path@));
                    assert forall|i: int| 0 <= i < now.len() && i != at implies now[i]
                        == hosts[i] by {}
                    assert forall|h: Seq<char>, p: Seq<char>| #[trigger]
                        listed(now, h, p) <==> listed(hosts, h, p) || (h == host@ && p
                            == full_path@) by {
                        if listed(now, h, p) {
                            let i = choose|i: int|
                                0 <= i < now.len() && (#[trigger] now[i]).host@ == h
                                    && now[i].paths@.contains(p);
                            if i != at {
                                assert(hosts[i].host@ == h && hosts[i].paths@.contains(p));
                            } else if p != full_path@ {
                                assert(hosts[i].host@ == h && hosts[i].paths@.contains(p));
                            }
                        }
                        if listed(hosts, h, p) {
                            let i = choose|i: int|
                                0 <= i < hosts.len() && (#[trigger] hosts[i]).host@ == h
                                    && hosts[i].paths@.contains(p);
                            assert(now[i].host@ == h && now[i].paths@.contains(p));
                        }
                        if h == host@ && p == full_path@ {
                            assert(now[at as int].host@ == h && now[at as int].paths@.contains(p));
                        }
                    }
                    assert forall|i: int, j: int| 0 <= i < j < now.len() implies (
                    #[trigger] now[i]).host@ != (#[trigger] now[j]).host@ by {
                        assert(now[i].host@ == hosts[i].host@);
                        assert(now[j].host@ == hosts[j].host@);
                    }
                }
            },
            None => {
                let mut paths = StringHashSet::new();
                paths.insert(full_path.clone());
                self.hosts.push(HostPaths { host: host.clone(), paths });
                proof {
                    let now = self.hosts@;
                    let last = hosts.len() as int;
                    assert(now[last].host@ == host@);
                    assert(now[last].paths@ == Set::<Seq<char>>::empty().insert(full_path@));
                    assert forall|h: Seq<char>, p: Seq<char>| #[trigger]
                        listed(now, h, p) <==> listed(hosts, h, p) || (h == host@ && p
                            == full_path@) by {
                        if listed(now, h, p) {
                            let i = choose|i: int|
                                0 <= i < now.len() && (#[trigger] now[i]).host@ == h
                                    && now[i].paths@.contains(p);
                            if i != last {
                                assert(hosts[i] == now[i]);
                            }
                        }
                        if listed(hosts, h, p) {
                            let i = choose|i: int|
                                0 <= i < hosts.len() && (#[trigger] hosts[i]).host@ == h
                                    && hosts[i].paths@.contains(p);
                            assert(now[i] == hosts[i]);
                        }
                        if h == host@ && p == full_path@ {
                            assert(now[last].host@ == h && now[last].paths@.contains(p));
                        }
                    }
                    assert forall|i: int, j: int| 0 <= i < j < now.len() implies (
                    #[trigger] now[i]).host@ != (#[trigger] now[j]).host@ by {
                        assert(now[i] == hosts[i]);
                        if j < last {
                            assert(now[j] == hosts[j]);
                        }
                    }
                }
            },
        }
        self.files.push(FileRecord { host, full_path, hash, size });
        proof {
            assert(self.files.deep_view() =~= rows.push(row));
            assert(self@ =~= old(self)@.insert_file(row));
            assert(self@.files[rows.len() as int] == row);
            assert forall|h: Seq<char>, p: Seq<char>|
                #![trigger listed(self.hosts@, h, p)]
                #![trigger path_among(self.files.deep_view(), h, p)]
                listed(self.hosts@, h, p) <==> path_among(self.files.deep_view(), h, p) by {
                lemma_path_among_push(rows, row, h, p);
                assert(listed(hosts, h, p) <==> path_among(rows, h, p));
            }
        }
        Ok(InsertOutcome::Inserted)
    }

    /// The file records of `host`, oldest first.
    pub fn list_files(&self, host: &String) -> (records: Vec<FileRecord>)
        ensures
            records.deep_view() == self@.files_of(host@),
    {
        let mut records: Vec<FileRecord> = Vec::new();
        let mut at: usize = 0;
        assert(self@.files.take(0) =~= Seq::<FileRow>::empty());
        proof {
            reveal(Seq::filter);
        }
        assert(records.deep_view() =~= self@.files.take(0).filter(of_host(host@)));
        while at < self.files.len()
            invariant
                at <= self.files.len(),
                records.deep_view() == self@.files.take(at as int).filter(of_host(host@)),
            decreases self.files.len() - at,
        {
            let ghost before = records.deep_view();
            proof {
                assert(self@.files.take(at + 1) =~= self@.files.take(at as int).push(
                    self@.files[at as int],
                ));
                self@.files.take(at as int).lemma_filter_push(
                    self@.files[at as int],
                    of_host(host@),
                );
            }
            if self.files[at].host == *host {
                records.push(self.files[at].duplicate());
                assert(records.deep_view() =~= before.push(self@.files[at as int]));
            }
            at += 1;
        }
        assert(self@.files.take(at as int) =~= self@.files);
        records
    }

    /// The identities of the content records, oldest first.
    pub fn content_ids(&self) -> (ids: Vec<ContentId>)
        ensures
            ids@ == self@.content_ids(),
    {
        let mut ids: Vec<ContentId> = Vec::new();
        let mut at: usize = 0;
        while at < self.contents.len()
            invariant
                at <= self.contents.len(),
                ids@ =~= self@.content_ids().take(at as int),
            decreases self.contents.len() - at,
        {
            ids.push(self.contents[at].id());
            at += 1;
        }
        assert(self@.content_ids().take(at as int) =~= self@.content_ids());
        ids
    }

    /// The content records, oldest first.
    pub fn list_content(&self) -> (records: Vec<ContentRecord>)
        ensures
            records.deep_view() == self@.contents,
    {
        let records = self.contents_since(0);
        assert(self@.contents.skip(0) =~= self@.contents);
        records
    }

    /// The content records that came after the first `count`, oldest first:
    /// what a catalog that held `count` content records has gained since.
    pub fn contents_since(&self, count: usize) -> (records: Vec<ContentRecord>)
        ensures
            records.deep_view() == if count <= self@.contents.len() {
                self@.contents.skip(count as int)
            } else {
                Seq::empty()
            },
    {
        let mut records: Vec<ContentRecord> = Vec::new();
        if count > self.contents.len() {
            assert(records.deep_view() =~= Seq::<ContentRow>::empty());
            return records;
        }
        let mut at: usize = count;
        while at < self.contents.len()
            invariant
                count <= at <= self.contents.len(),
                records.deep_view() =~= self@.contents.subrange(count as int, at as int),
            decreases self.contents.len() - at,
        {
            let ghost before = records.deep_view();
            records.push(self.contents[at].duplicate());
            assert(records.deep_view() =~= before.push(self@.contents[at as int]));
            at += 1;
        }
        assert(self@.contents.subrange(count as int, at as int) =~= self@.contents.skip(
            count as int,
        ));
        records
    }

    /// The file records that came after the first `count`, oldest first: what
    /// a catalog that held `count` file records has gained since.
    pub fn files_since(&self, count: usize) -> (records: Vec<FileRecord>)
        ensures
            records.deep_view() == if count <= self@.files.len() {
                self@.files.skip(count as int)
            } else {
                Seq::empty()
            },
    {
        let mut records: Vec<FileRecord> = Vec::new();
        if count > self.files.len() {
            assert(records.deep_view() =~= Seq::<FileRow>::empty());
            return records;
        }
        let mut at: usize = count;
        while at < self.files.len()
            invariant
                count <= at <= self.files.len(),
                records.deep_view() =~= self@.files.subrange(count as int, at as int),
            decreases self.files.len() - at,
        {
            let ghost before = records.deep_view();
            records.push(self.files[at].duplicate());
            assert(records.deep_view() =~= before.push(self@.files[at as int]));
            at += 1;
        }
        assert(self@.files.subrange(count as int, at as int) =~= self@.files.skip(count as int));
        records
    }
}

} // verus!
