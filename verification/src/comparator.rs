//! The comparator: which content identities of one catalog does another lack?
//!
//! Only identities are compared, not paths. The identities of the second
//! catalog go into a lookup set first; each identity of the first is then
//! tested against it. The relation has a direction: what the second catalog
//! holds beyond the first does not show.

use crate::catalog::{lemma_key_injective, spec_key, Catalog, CatalogState, ContentId};
use crate::severity::Severity;
use std::collections::HashSet;
use vstd::prelude::*;

verus! {

/// What a comparison found: how many identities the first catalog holds, and
/// those among them that the second lacks, in the order of the first.
#[derive(Debug)]
pub struct CompareReport {
    /// The number of content identities in the first catalog.
    pub entries: usize,
    /// The identities of the first catalog that the second lacks.
    pub missing: Vec<ContentId>,
}

/// The identities that are not among `others`.
pub open spec fn absent_from(others: Seq<ContentId>) -> spec_fn(ContentId) -> bool {
    |id: ContentId| !others.contains(id)
}

/// The identities of `first` that `second` lacks, in the order of `first`.
pub open spec fn gaps(first: CatalogState, second: CatalogState) -> Seq<ContentId> {
    first.content_ids().filter(absent_from(second.content_ids()))
}

impl CompareReport {
    /// The first catalog is covered: the second lacks none of its identities.
    pub open spec fn spec_covered(&self) -> bool {
        self.missing@.len() == 0
    }

    /// Whether the second catalog holds every identity of the first.
    #[verifier::when_used_as_spec(spec_covered)]
    pub fn covered(&self) -> (covered: bool)
        ensures
            covered == self.spec_covered(),
    {
        self.missing.len() == 0
    }

    /// How loud the closing line of the comparison is: a comparison that
    /// found a gap ends on an error.
    pub fn severity(&self) -> (severity: Severity)
        ensures
            severity == if self.spec_covered() {
                Severity::Info
            } else {
                Severity::Error
            },
    {
        if self.missing.len() == 0 {
            Severity::Info
        } else {
            Severity::Error
        }
    }

    /// The number of identities that the second catalog lacks.
    pub fn gap_count(&self) -> (count: usize)
        ensures
            count == self.missing@.len(),
    {
        self.missing.len()
    }
}

/// The keys of `ids`, as a lookup set.
fn lookup_set(ids: &Vec<ContentId>) -> (set: HashSet<u128>)
    ensures
        forall|id: ContentId|
            #![trigger set@.contains(spec_key(id))]
            #![trigger ids@.contains(id)]
            set@.contains(spec_key(id)) <==> ids@.contains(id),
{
    broadcast use vstd::std_specs::hash::group_hash_axioms;

    let mut set: HashSet<u128> = HashSet::new();
    let mut at: usize = 0;
    while at < ids.len()
        invariant
            at <= ids.len(),
            forall|id: ContentId|
                #![trigger set@.contains(spec_key(id))]
                #![trigger ids@.take(at as int).contains(id)]
                set@.contains(spec_key(id)) <==> ids@.take(at as int).contains(id),
        decreases ids.len() - at,
    {
        let ghost before = set@;
        set.insert(ids[at].key());
        proof {
            let seen = ids@.take(at as int);
            let next = ids@.take(at + 1);
            assert(next =~= seen.push(ids@[at as int]));
            assert forall|id: ContentId|
                #![trigger set@.contains(spec_key(id))]
                #![trigger next.contains(id)]
                set@.contains(spec_key(id)) <==> next.contains(id) by {
                if set@.contains(spec_key(id)) {
                    if before.contains(spec_key(id)) {
                        assert(seen.contains(id));
                        let k = choose|k: int| 0 <= k < seen.len() && seen[k] == id;
                        assert(next[k] == id);
                    } else {
                        lemma_key_injective(id, ids@[at as int]);
                        assert(next[at as int] == id);
                    }
                }
                if next.contains(id) {
                    let k = choose|k: int| 0 <= k < next.len() && next[k] == id;
                    if k < at {
                        assert(seen[k] == id);
                        assert(before.contains(spec_key(id)));
                    }
                }
            }
        }
        at += 1;
    }
    assert(ids@.take(at as int) =~= ids@);
    set
}

/// Compares two catalogs for coverage: every content identity of `first` is
/// looked up in `second`, and the ones that are not there are reported.
pub fn compare(first: &Catalog, second: &Catalog) -> (report: CompareReport)
    ensures
        report.entries == first@.contents.len(),
        report.missing@ == gaps(first@, second@),
{
    broadcast use vstd::std_specs::hash::group_hash_axioms;

    let theirs = second.content_ids();
    let known = lookup_set(&theirs);
    let ours = first.content_ids();
    let ghost absent = absent_from(second@.content_ids());
    let mut missing: Vec<ContentId> = Vec::new();
    let mut at: usize = 0;
    proof {
        reveal(Seq::filter);
        assert(ours@.take(0) =~= Seq::<ContentId>::empty());
        assert(missing@ =~= ours@.take(0).filter(absent));
    }
    while at < ours.len()
        invariant
            at <= ours.len(),
            theirs@ == second@.content_ids(),
            absent == absent_from(second@.content_ids()),
            forall|id: ContentId|
                #![trigger known@.contains(spec_key(id))]
                #![trigger theirs@.contains(id)]
                known@.contains(spec_key(id)) <==> theirs@.contains(id),
            missing@ == ours@.take(at as int).filter(absent),
        decreases ours.len() - at,
    {
        let id = ours[at];
        proof {
            assert(ours@.take(at + 1) =~= ours@.take(at as int).push(id));
            ours@.take(at as int).lemma_filter_push(id, absent);
        }
        let k = id.key();
        if !known.contains(&k) {
            missing.push(id);
        }
        at += 1;
    }
    assert(ours@.take(at as int) =~= ours@);
    CompareReport { entries: ours.len(), missing }
}

} // verus!
