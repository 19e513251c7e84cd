//! What a traversal of a directory tree yields, as plain values.
//!
//! Walking directories and reading files is the caller's business. The
//! library takes the outcome: one [`WalkEntry`] for each thing that the
//! traversal came across, in the order in which it came.

use vstd::hash_map::StringHashMap;
use vstd::prelude::*;

verus! {

/// What reading one file gave: the size that its metadata reports, its bytes,
/// and the mime type where a classifier knew one.
#[derive(Debug)]
pub struct FileContent {
    /// The size in bytes that the file's metadata reports.
    pub size: u64,
    /// The whole content.
    pub bytes: Vec<u8>,
    /// The mime type that a classifier gave, or `None` where it knew none.
    pub mime: Option<String>,
}

/// One step of a traversal.
#[derive(Debug)]
pub enum WalkEntry {
    /// A directory: it is noted and not hashed.
    Directory { path: String },
    /// Anything else, with what reading it gave, or `None` where it could not
    /// be read.
    File { path: String, read: Option<FileContent> },
    /// The traversal could not go on.
    Failure,
}

/// The model of a [`FileContent`].
pub struct Reading {
    pub size: u64,
    pub bytes: Seq<u8>,
    pub mime: Option<Seq<char>>,
}

/// The model of a [`WalkEntry`].
pub enum Observation {
    Directory { path: Seq<char> },
    File { path: Seq<char>, read: Option<Reading> },
    Failure,
}

impl DeepView for FileContent {
    type V = Reading;

    open spec fn deep_view(&self) -> Reading {
        Reading {
            size: self.size,
            bytes: self.bytes@,
            mime: match self.mime {
                Some(mime) => Some(mime@),
                None => None,
            },
        }
    }
}

impl DeepView for WalkEntry {
    type V = Observation;

    open spec fn deep_view(&self) -> Observation {
        match self {
            WalkEntry::Directory { path } => Observation::Directory { path: path@ },
            WalkEntry::File { path, read: Some(content) } => Observation::File {
                path: path@,
                read: Some(content.deep_view()),
            },
            WalkEntry::File { path, read: None } => Observation::File { path: path@, read: None },
            WalkEntry::Failure => Observation::Failure,
        }
    }
}

/// `entry` is a file at `path` that could be read.
pub open spec fn reads(entry: Observation, path: Seq<char>) -> bool {
    entry matches Observation::File { path: at, read: Some(_) } && at == path
}

/// The bytes of an entry that could be read.
pub open spec fn bytes_of(entry: Observation) -> Seq<u8>
    recommends
        entry matches Observation::File { read: Some(_), .. },
{
    entry->read.unwrap().bytes
}

/// What reading `path` gives in `tree`: the bytes of the first entry that is
/// a readable file at that path, or `None` where there is no such entry.
pub open spec fn content_at(tree: Seq<Observation>, path: Seq<char>) -> Option<Seq<u8>>
    decreases tree.len(),
{
    if tree.len() == 0 {
        None
    } else {
        match content_at(tree.drop_last(), path) {
            Some(bytes) => Some(bytes),
            None => if reads(tree.last(), path) {
                Some(bytes_of(tree.last()))
            } else {
                None
            },
        }
    }
}

/// What a longer tree adds to a shorter one never replaces what the shorter
/// one has at a path.
pub proof fn lemma_content_at_prefix(tree: Seq<Observation>, len: int, path: Seq<char>)
    requires
        0 <= len <= tree.len(),
        content_at(tree.take(len), path) is Some,
    ensures
        content_at(tree, path) == content_at(tree.take(len), path),
    decreases tree.len() - len,
{
    if len < tree.len() {
        assert(tree.drop_last().take(len) =~= tree.take(len));
        lemma_content_at_prefix(tree.drop_last(), len, path);
    } else {
        assert(tree.take(len) =~= tree);
    }
}

/// A path that no entry reads has no content.
pub proof fn lemma_content_at_none(tree: Seq<Observation>, path: Seq<char>)
    ensures
        content_at(tree, path) is None <==> forall|k: int|
            0 <= k < tree.len() ==> !reads(#[trigger] tree[k], path),
    decreases tree.len(),
{
    if tree.len() > 0 {
        lemma_content_at_none(tree.drop_last(), path);
        if content_at(tree, path) is None {
            assert forall|k: int| 0 <= k < tree.len() implies !reads(#[trigger] tree[k], path) by {
                if k < tree.len() - 1 {
                    assert(tree.drop_last()[k] == tree[k]);
                }
            }
        } else {
            if content_at(tree.drop_last(), path) is None {
                assert(reads(tree[tree.len() - 1], path));
            } else {
                let k = choose|k: int|
                    0 <= k < tree.drop_last().len() && reads(#[trigger] tree.drop_last()[k], path);
                assert(reads(tree[k], path));
            }
        }
    }
}

/// `found` is what a search for `path` in `tree` has to give: the place of the
/// first entry that is a readable file at `path`, whose bytes are the content
/// at that path, or nothing where the path has no content.
pub open spec fn locates(found: Option<usize>, tree: Seq<Observation>, path: Seq<char>) -> bool {
    match found {
        Some(at) => {
            &&& at < tree.len()
            &&& reads(tree[at as int], path)
            &&& forall|k: int| 0 <= k < at ==> !reads(#[trigger] tree[k], path)
            &&& content_at(tree, path) == Some(bytes_of(tree[at as int]))
        },
        None => content_at(tree, path) is None,
    }
}

/// For each path of a tree that can be read, the place of the entry that
/// gives its content: a tree is searched once, and each path is then found
/// without another pass.
pub(crate) struct PathIndex {
    places: StringHashMap<usize>,
}

impl PathIndex {
    /// The index holds, for every path, what a search of `tree` gives.
    pub(crate) closed spec fn describes(&self, tree: Seq<Observation>) -> bool {
        forall|path: Seq<char>|
            #![trigger self.places@.contains_key(path)]
            #![trigger content_at(tree, path)]
            locates(
                if self.places@.contains_key(path) {
                    Some(self.places@[path])
                } else {
                    None
                },
                tree,
                path,
            )
    }

    /// Indexes `tree`.
    pub(crate) fn build(tree: &Vec<WalkEntry>) -> (index: PathIndex)
        ensures
            index.describes(tree.deep_view()),
    {
        let ghost model = tree.deep_view();
        let mut index = PathIndex { places: StringHashMap::new() };
        let mut at: usize = 0;
        assert(model.take(0) =~= Seq::<Observation>::empty());
        while at < tree.len()
            invariant
                at <= tree.len(),
                model == tree.deep_view(),
                index.describes(model.take(at as int)),
            decreases tree.len() - at,
        {
            let ghost before = index.places@;
            let ghost seen = model.take(at as int);
            let ghost more = model.take(at + 1);
            proof {
                assert(more.drop_last() =~= seen);
                assert(more.last() == model[at as int]);
            }
            match &tree[at] {
                WalkEntry::File { path: here, read: Some(_) } => {
                    if !index.places.contains_key(here.as_str()) {
                        index.places.insert(here.clone(), at);
                    }
                },
                _ => {},
            }
            proof {
                let now = index.places@;
                assert forall|path: Seq<char>|
                    #![trigger now.contains_key(path)]
                    #![trigger content_at(more, path)]
                    locates(
                        if now.contains_key(path) {
                            Some(now[path])
                        } else {
                            None
                        },
                        more,
                        path,
                    ) by {
                    assert(locates(
                        if before.contains_key(path) {
                            Some(before[path])
                        } else {
                            None
                        },
                        seen,
                        path,
                    ));
                    if before.contains_key(path) {
                        let first = before[path] as int;
                        assert(more[first] == seen[first]);
                        assert forall|k: int| 0 <= k < first implies !reads(
                            #[trigger] more[k],
                            path,
                        ) by {
                            assert(more[k] == seen[k]);
                        }
                    } else if now.contains_key(path) {
                        lemma_content_at_none(seen, path);
                        assert forall|k: int| 0 <= k < at implies !reads(
                            #[trigger] more[k],
                            path,
                        ) by {
                            assert(more[k] == seen[k]);
                        }
                    }
                }
            }
            at += 1;
        }
        assert(model.take(at as int) =~= model);
        index
    }

    /// The first entry of `tree` that is a readable file at `path`, from the
    /// index of `tree`.
    pub(crate) fn find(&self, tree: &Vec<WalkEntry>, path: &String) -> (found: Option<usize>)
        requires
            self.describes(tree.deep_view()),
        ensures
            locates(found, tree.deep_view(), path@),
    {
        match self.places.get(path.as_str()) {
            Some(at) => Some(*at),
            None => None,
        }
    }
}

/// The first entry of `tree` that is a readable file at `path`.
pub fn find_readable(tree: &Vec<WalkEntry>, path: &String) -> (found: Option<usize>)
    ensures
        locates(found, tree.deep_view(), path@),
{
    let ghost model = tree.deep_view();
    let mut at: usize = 0;
    while at < tree.len()
        invariant
            at <= tree.len(),
            model == tree.deep_view(),
            forall|k: int| 0 <= k < at ==> !reads(#[trigger] model[k], path@),
        decreases tree.len() - at,
    {
        match &tree[at] {
            WalkEntry::File { path: here, read: Some(_) } => {
                if *here == *path {
                    proof {
                        let prefix = model.take(at + 1);
                        assert(prefix.drop_last() =~= model.take(at as int));
                        lemma_content_at_none(model.take(at as int), path@);
                        assert(prefix.last() == model[at as int]);
                        assert(content_at(prefix, path@) == Some(bytes_of(model[at as int])));
                        lemma_content_at_prefix(model, at + 1, path@);
                    }
                    return Some(at);
                }
            },
            _ => {},
        }
        at += 1;
    }
    proof {
        lemma_content_at_none(model, path@);
    }
    None
}

} // verus!
