//! What holds of the three operations together, proved over their models.

use crate::catalog::{
    lemma_identity_among_push, lemma_insert_content_well_formed, lemma_insert_file_well_formed,
    lemma_path_among_push, of_host, CatalogState, ContentId, ContentRow, FileRow, InsertOutcome,
};
use crate::comparator::{absent_from, gaps};
use crate::hasher::crc32c;
use crate::indexer::{
    adds_content, adds_file, catalog_after, count, identity, index_run, lemma_run_length,
    mime_or_unknown, outcome_of, EntryOutcome,
};
use crate::integrity::{damaged_in, intact, mismatches};
use crate::walk::{content_at, lemma_content_at_none, reads, Observation, Reading};
use vstd::prelude::*;

verus! {

/// A filter that nothing passes yields nothing.
proof fn lemma_filter_none<A>(s: Seq<A>, pred: spec_fn(A) -> bool)
    requires
        forall|i: int| 0 <= i < s.len() ==> !pred(#[trigger] s[i]),
    ensures
        s.filter(pred) == Seq::<A>::empty(),
    decreases s.len(),
{
    reveal(Seq::filter);
    if s.len() > 0 {
        assert forall|i: int| 0 <= i < s.drop_last().len() implies !pred(
            #[trigger] s.drop_last()[i],
        ) by {
            assert(s.drop_last()[i] == s[i]);
        }
        lemma_filter_none(s.drop_last(), pred);
    }
}

/// A filter that everything passes yields everything.
proof fn lemma_filter_all<A>(s: Seq<A>, pred: spec_fn(A) -> bool)
    requires
        forall|i: int| 0 <= i < s.len() ==> pred(#[trigger] s[i]),
    ensures
        s.filter(pred) == s,
    decreases s.len(),
{
    reveal(Seq::filter);
    if s.len() > 0 {
        assert forall|i: int| 0 <= i < s.drop_last().len() implies pred(
            #[trigger] s.drop_last()[i],
        ) by {
            assert(s.drop_last()[i] == s[i]);
        }
        lemma_filter_all(s.drop_last(), pred);
        assert(s.drop_last().push(s.last()) =~= s);
    }
}

/// A filter that one element passes yields that element.
proof fn lemma_filter_only<A>(s: Seq<A>, pred: spec_fn(A) -> bool, at: int)
    requires
        0 <= at < s.len(),
        pred(s[at]),
        forall|i: int| 0 <= i < s.len() && i != at ==> !pred(#[trigger] s[i]),
    ensures
        s.filter(pred) == seq![s[at]],
    decreases s.len(),
{
    reveal(Seq::filter);
    let rest = s.drop_last();
    if at == s.len() - 1 {
        assert forall|i: int| 0 <= i < rest.len() implies !pred(#[trigger] rest[i]) by {
            assert(rest[i] == s[i]);
        }
        lemma_filter_none(rest, pred);
        assert(Seq::<A>::empty().push(s.last()) =~= seq![s[at]]);
    } else {
        assert forall|i: int| 0 <= i < rest.len() && i != at implies !pred(#[trigger] rest[i]) by {
            assert(rest[i] == s[i]);
        }
        assert(rest[at] == s[at]);
        lemma_filter_only(rest, pred, at);
    }
}

/// `after` holds every row of `before`, in the same places.
pub open spec fn extends(after: CatalogState, before: CatalogState) -> bool {
    &&& before.files.len() <= after.files.len()
    &&& after.files.take(before.files.len() as int) == before.files
    &&& before.contents.len() <= after.contents.len()
    &&& after.contents.take(before.contents.len() as int) == before.contents
}

/// `state` has the records that indexing `entry` for `host` would write.
spec fn absorbs(state: CatalogState, host: Seq<char>, entry: Observation) -> bool {
    match entry {
        Observation::File { path, read: Some(reading) } => state.has_file(host, path)
            && state.has_content(identity(reading)),
        _ => true,
    }
}

/// What indexing `entry` reports where the catalog has its records already.
spec fn echo(entry: Observation) -> EntryOutcome {
    match entry {
        Observation::Directory { .. } => EntryOutcome::Directory,
        Observation::File { read: None, .. } => EntryOutcome::Unreadable,
        Observation::File { read: Some(reading), .. } => EntryOutcome::Indexed {
            id: identity(reading),
            content: InsertOutcome::AlreadyExists,
            file: InsertOutcome::AlreadyExists,
        },
        Observation::Failure => EntryOutcome::TraversalFailed,
    }
}

/// The outcome with both insertions turned into conflicts.
pub open spec fn repeated(outcome: EntryOutcome) -> EntryOutcome {
    match outcome {
        EntryOutcome::Indexed { id, .. } => EntryOutcome::Indexed {
            id,
            content: InsertOutcome::AlreadyExists,
            file: InsertOutcome::AlreadyExists,
        },
        other => other,
    }
}

/// What a catalog holds, every catalog that extends it holds too.
proof fn lemma_extends_keeps(after: CatalogState, before: CatalogState)
    requires
        extends(after, before),
    ensures
        forall|id: ContentId| before.has_content(id) ==> after.has_content(id),
        forall|host: Seq<char>, path: Seq<char>|
            before.has_file(host, path) ==> after.has_file(host, path),
{
    assert forall|id: ContentId| before.has_content(id) implies after.has_content(id) by {
        let k = choose|k: int| 0 <= k < before.contents.len() && before.contents[k].id == id;
        assert(after.contents.take(before.contents.len() as int)[k] == after.contents[k]);
    }
    assert forall|host: Seq<char>, path: Seq<char>|
        before.has_file(host, path) implies after.has_file(host, path) by {
        let k = choose|k: int|
            0 <= k < before.files.len() && before.files[k].host == host
                && before.files[k].full_path == path;
        assert(after.files.take(before.files.len() as int)[k] == after.files[k]);
    }
}

/// What extends an extension of a catalog extends the catalog.
proof fn lemma_extends_transitive(last: CatalogState, middle: CatalogState, first: CatalogState)
    requires
        extends(last, middle),
        extends(middle, first),
    ensures
        extends(last, first),
{
    assert(last.files.take(first.files.len() as int) =~= last.files.take(
        middle.files.len() as int,
    ).take(first.files.len() as int));
    assert(last.contents.take(first.contents.len() as int) =~= last.contents.take(
        middle.contents.len() as int,
    ).take(first.contents.len() as int));
}

/// Handling one entry only appends, and leaves the entry's records behind.
proof fn lemma_step(host: Seq<char>, state: CatalogState, entry: Observation)
    ensures
        extends(catalog_after(host, state, entry), state),
        absorbs(catalog_after(host, state, entry), host, entry),
        absorbs(state, host, entry) ==> catalog_after(host, state, entry) == state,
        absorbs(state, host, entry) ==> outcome_of(host, state, entry) == echo(entry),
        repeated(outcome_of(host, state, entry)) == echo(entry),
{
    match entry {
        Observation::File { path, read: Some(reading) } => {
            let id = identity(reading);
            let content_row = ContentRow { id, mime: mime_or_unknown(reading.mime) };
            let file_row = FileRow { host, full_path: path, id };
            let middle = state.insert_content(content_row);
            let after = middle.insert_file(file_row);
            assert(extends(middle, state)) by {
                assert(middle.files.take(state.files.len() as int) =~= state.files);
                assert(middle.contents.take(state.contents.len() as int) =~= state.contents);
            }
            assert(middle.has_content(id)) by {
                if !state.has_content(id) {
                    assert(middle.contents[state.contents.len() as int].id == id);
                }
            }
            assert(extends(after, middle)) by {
                assert(after.files.take(middle.files.len() as int) =~= middle.files);
                assert(after.contents.take(middle.contents.len() as int) =~= middle.contents);
            }
            lemma_extends_transitive(after, middle, state);
            lemma_extends_keeps(after, middle);
            assert(after.has_file(host, path)) by {
                if !middle.has_file(host, path) {
                    assert(after.files[middle.files.len() as int] == file_row);
                }
            }
        },
        _ => {
            assert(state.files.take(state.files.len() as int) =~= state.files);
            assert(state.contents.take(state.contents.len() as int) =~= state.contents);
        },
    }
}

/// Indexing only appends: every row that the catalog held before a run is
/// still there after it, in its place and unchanged.
pub proof fn law_indexing_only_appends(host: Seq<char>, state: CatalogState, tree: Seq<Observation>)
    ensures
        extends(index_run(host, state, tree).catalog, state),
    decreases tree.len(),
{
    if tree.len() == 0 {
        assert(state.files.take(state.files.len() as int) =~= state.files);
        assert(state.contents.take(state.contents.len() as int) =~= state.contents);
    } else {
        let before = index_run(host, state, tree.drop_last());
        law_indexing_only_appends(host, state, tree.drop_last());
        if !before.aborted() {
            lemma_step(host, before.catalog, tree.last());
            lemma_extends_transitive(
                index_run(host, state, tree).catalog,
                before.catalog,
                state,
            );
        }
    }
}

/// Indexing keeps the invariant of the catalog: after a run no identity has
/// two content rows, no host and path have two file rows, and every file row
/// names an identity that has a content row.
pub proof fn law_indexing_keeps_the_invariant(
    host: Seq<char>,
    state: CatalogState,
    tree: Seq<Observation>,
)
    requires
        state.well_formed(),
    ensures
        index_run(host, state, tree).catalog.well_formed(),
    decreases tree.len(),
{
    if tree.len() > 0 {
        let before = index_run(host, state, tree.drop_last());
        law_indexing_keeps_the_invariant(host, state, tree.drop_last());
        if !before.aborted() {
            match tree.last() {
                Observation::File { path, read: Some(reading) } => {
                    let id = identity(reading);
                    let content_row = ContentRow { id, mime: mime_or_unknown(reading.mime) };
                    lemma_insert_content_well_formed(before.catalog, content_row);
                    lemma_insert_file_well_formed(
                        before.catalog.insert_content(content_row),
                        FileRow { host, full_path: path, id },
                    );
                },
                _ => {},
            }
        }
    }
}

/// After a run the catalog has the records of every entry that the run
/// reached.
proof fn lemma_run_absorbs(host: Seq<char>, state: CatalogState, tree: Seq<Observation>, k: int)
    requires
        0 <= k < index_run(host, state, tree).outcomes.len(),
    ensures
        k < tree.len(),
        absorbs(index_run(host, state, tree).catalog, host, tree[k]),
    decreases tree.len(),
{
    lemma_run_length(host, state, tree);
    if tree.len() > 0 {
        let rest = tree.drop_last();
        let before = index_run(host, state, rest);
        lemma_run_length(host, state, rest);
        if before.aborted() {
            lemma_run_absorbs(host, state, rest, k);
        } else {
            lemma_step(host, before.catalog, tree.last());
            if k < tree.len() - 1 {
                lemma_run_absorbs(host, state, rest, k);
                lemma_extends_keeps(index_run(host, state, tree).catalog, before.catalog);
            }
        }
    }
}

/// Where a run stops depends on the tree alone, and so does the kind of each
/// outcome.
proof fn lemma_run_shape(host: Seq<char>, state: CatalogState, tree: Seq<Observation>)
    ensures
        index_run(host, state, tree).outcomes.len() <= tree.len(),
        forall|i: int|
            0 <= i < index_run(host, state, tree).outcomes.len() ==> repeated(
                #[trigger] index_run(host, state, tree).outcomes[i],
            ) == echo(tree[i]),
    decreases tree.len(),
{
    if tree.len() > 0 {
        let rest = tree.drop_last();
        let before = index_run(host, state, rest);
        lemma_run_shape(host, state, rest);
        lemma_run_length(host, state, rest);
        if !before.aborted() {
            lemma_step(host, before.catalog, tree.last());
        }
        let run = index_run(host, state, tree);
        assert forall|i: int| 0 <= i < run.outcomes.len() implies repeated(
            #[trigger] run.outcomes[i],
        ) == echo(tree[i]) by {
            if i < before.outcomes.len() {
                assert(run.outcomes[i] == before.outcomes[i]);
                assert(rest[i] == tree[i]);
            }
        }
    }
}

/// Two runs over one tree reach the same entries, whatever they start from.
proof fn lemma_runs_reach_the_same(
    host: Seq<char>,
    first: CatalogState,
    second: CatalogState,
    tree: Seq<Observation>,
)
    ensures
        index_run(host, first, tree).outcomes.len() == index_run(host, second, tree).outcomes.len(),
        index_run(host, first, tree).aborted() == index_run(host, second, tree).aborted(),
    decreases tree.len(),
{
    if tree.len() > 0 {
        lemma_runs_reach_the_same(host, first, second, tree.drop_last());
    }
}

/// A run over a catalog that has the records of every entry it reaches
/// changes nothing, and reports a conflict for each file.
proof fn lemma_rerun(host: Seq<char>, state: CatalogState, tree: Seq<Observation>)
    requires
        forall|k: int|
            0 <= k < index_run(host, state, tree).outcomes.len() ==> absorbs(
                state,
                host,
                #[trigger] tree[k],
            ),
    ensures
        index_run(host, state, tree).catalog == state,
        forall|i: int|
            0 <= i < index_run(host, state, tree).outcomes.len() ==> (
            #[trigger] index_run(host, state, tree).outcomes[i]) == echo(tree[i]),
    decreases tree.len(),
{
    lemma_run_length(host, state, tree);
    if tree.len() > 0 {
        let rest = tree.drop_last();
        let before = index_run(host, state, rest);
        let run = index_run(host, state, tree);
        lemma_run_length(host, state, rest);
        assert forall|k: int| 0 <= k < before.outcomes.len() implies absorbs(
            state,
            host,
            #[trigger] rest[k],
        ) by {
            assert(rest[k] == tree[k]);
        }
        lemma_rerun(host, state, rest);
        if !before.aborted() {
            assert(absorbs(state, host, tree[tree.len() - 1]));
            lemma_step(host, state, tree.last());
        }
        assert forall|i: int| 0 <= i < run.outcomes.len() implies (#[trigger] run.outcomes[i])
            == echo(tree[i]) by {
            if i < before.outcomes.len() {
                assert(run.outcomes[i] == before.outcomes[i]);
                assert(rest[i] == tree[i]);
            }
        }
    }
}

/// Indexing an unchanged tree a second time changes nothing: the catalog
/// keeps its records, so their counts, and the second run reports each file
/// that the first run reached as a conflict, of its content and of its path.
pub proof fn law_reindexing_changes_nothing(
    host: Seq<char>,
    state: CatalogState,
    tree: Seq<Observation>,
)
    ensures
        ({
            let first = index_run(host, state, tree);
            let second = index_run(host, first.catalog, tree);
            &&& second.catalog == first.catalog
            &&& second.catalog.files.len() == first.catalog.files.len()
            &&& second.catalog.contents.len() == first.catalog.contents.len()
            &&& second.outcomes == first.outcomes.map_values(
                |outcome: EntryOutcome| repeated(outcome),
            )
            &&& count(second.outcomes, adds_content()) == 0
            &&& count(second.outcomes, adds_file()) == 0
        }),
{
    let first = index_run(host, state, tree);
    let second = index_run(host, first.catalog, tree);
    lemma_runs_reach_the_same(host, state, first.catalog, tree);
    assert forall|k: int| 0 <= k < second.outcomes.len() implies absorbs(
        first.catalog,
        host,
        #[trigger] tree[k],
    ) by {
        lemma_run_absorbs(host, state, tree, k);
    }
    lemma_rerun(host, first.catalog, tree);
    lemma_run_shape(host, state, tree);
    assert(second.outcomes =~= first.outcomes.map_values(
        |outcome: EntryOutcome| repeated(outcome),
    ));
    lemma_filter_none(second.outcomes, adds_content());
    lemma_filter_none(second.outcomes, adds_file());
}

/// Every file row that a run appends is one of `host` and is intact in the
/// tree that was indexed.
proof fn lemma_run_adds_intact_rows(host: Seq<char>, state: CatalogState, tree: Seq<Observation>)
    ensures
        extends(index_run(host, state, tree).catalog, state),
        forall|i: int|
            state.files.len() <= i < index_run(host, state, tree).catalog.files.len() ==> {
                let row = #[trigger] index_run(host, state, tree).catalog.files[i];
                row.host == host && intact(row, tree)
            },
    decreases tree.len(),
{
    law_indexing_only_appends(host, state, tree);
    if tree.len() > 0 {
        let rest = tree.drop_last();
        let before = index_run(host, state, rest);
        let run = index_run(host, state, tree);
        lemma_run_adds_intact_rows(host, state, rest);
        law_indexing_only_appends(host, state, rest);
        lemma_run_length(host, state, rest);
        if !before.aborted() {
            lemma_step(host, before.catalog, tree.last());
        }
        assert forall|i: int| state.files.len() <= i < run.catalog.files.len() implies {
            let row = #[trigger] run.catalog.files[i];
            row.host == host && intact(row, tree)
        } by {
            let row = run.catalog.files[i];
            if i < before.catalog.files.len() {
                assert(run.catalog.files.take(before.catalog.files.len() as int)[i] == row);
                assert(before.catalog.files[i] == row);
                assert(intact(row, rest));
            } else {
                match tree.last() {
                    Observation::File { path, read: Some(reading) } => {
                        let id = identity(reading);
                        let middle = before.catalog.insert_content(
                            ContentRow { id, mime: mime_or_unknown(reading.mime) },
                        );
                        assert(!middle.has_file(host, path));
                        assert(row == FileRow { host, full_path: path, id });
                        lemma_content_at_none(rest, path);
                        assert forall|k: int| 0 <= k < rest.len() implies !reads(
                            #[trigger] rest[k],
                            path,
                        ) by {
                            if reads(rest[k], path) {
                                lemma_run_absorbs(host, state, rest, k);
                            }
                        }
                        assert(content_at(tree, path) == Some(reading.bytes));
                    },
                    _ => {},
                }
            }
        }
    }
}

/// The rows of one host in a well-formed catalog have distinct paths, and
/// each of them is a row of the catalog.
proof fn lemma_host_rows_distinct(files: Seq<FileRow>, host: Seq<char>)
    requires
        forall|i: int, j: int|
            0 <= i < j < files.len() ==> !((#[trigger] files[i]).host == (#[trigger] files[j]).host
                && files[i].full_path == files[j].full_path),
    ensures
        forall|i: int|
            0 <= i < files.filter(of_host(host)).len() ==> (#[trigger] files.filter(
                of_host(host),
            )[i]).host == host && files.contains(files.filter(of_host(host))[i]),
        forall|i: int, j: int|
            0 <= i < j < files.filter(of_host(host)).len() ==> (#[trigger] files.filter(
                of_host(host),
            )[i]).full_path != (#[trigger] files.filter(of_host(host))[j]).full_path,
    decreases files.len(),
{
    reveal(Seq::filter);
    if files.len() > 0 {
        let rest = files.drop_last();
        let rows = files.filter(of_host(host));
        let fewer = rest.filter(of_host(host));
        assert forall|i: int, j: int| 0 <= i < j < rest.len() implies !((#[trigger] rest[i]).host
            == (#[trigger] rest[j]).host && rest[i].full_path == rest[j].full_path) by {
            assert(rest[i] == files[i]);
            assert(rest[j] == files[j]);
        }
        lemma_host_rows_distinct(rest, host);
        assert forall|i: int| 0 <= i < rows.len() implies (#[trigger] rows[i]).host == host
            && files.contains(rows[i]) by {
            if i < fewer.len() {
                assert(rows[i] == fewer[i]);
                let k = choose|k: int| 0 <= k < rest.len() && rest[k] == fewer[i];
                assert(files[k] == rows[i]);
            } else {
                assert(files[files.len() - 1] == rows[i]);
            }
        }
        assert forall|i: int, j: int| 0 <= i < j < rows.len() implies (#[trigger] rows[i]).full_path
            != (#[trigger] rows[j]).full_path by {
            assert(rows[i] == fewer[i]);
            if j < fewer.len() {
                assert(rows[j] == fewer[j]);
            } else {
                let k = choose|k: int| 0 <= k < rest.len() && rest[k] == fewer[i];
                assert(files[k] == rows[i]);
                assert(files[files.len() - 1] == rows[j]);
            }
        }
    }
}

/// Indexing never adds a mismatch: the files that the tree shows damaged
/// after a run are those that it showed damaged before the run.
pub proof fn law_indexing_adds_no_mismatch(
    host: Seq<char>,
    state: CatalogState,
    tree: Seq<Observation>,
)
    ensures
        mismatches(host, index_run(host, state, tree).catalog, tree) == mismatches(
            host,
            state,
            tree,
        ),
{
    let after = index_run(host, state, tree).catalog;
    let old_len = state.files.len() as int;
    let added = after.files.subrange(old_len, after.files.len() as int);
    lemma_run_adds_intact_rows(host, state, tree);
    assert(after.files =~= state.files + added) by {
        assert(after.files.take(old_len) == state.files);
    }
    Seq::filter_distributes_over_add(state.files, added, of_host(host));
    let ours = added.filter(of_host(host));
    Seq::filter_distributes_over_add(state.files_of(host), ours, damaged_in(tree));
    assert forall|i: int| 0 <= i < added.len() implies of_host(host)(#[trigger] added[i]) by {
        assert(added[i] == after.files[old_len + i]);
    }
    lemma_filter_all(added, of_host(host));
    assert forall|i: int| 0 <= i < ours.len() implies !damaged_in(tree)(#[trigger] ours[i]) by {
        assert(ours[i] == after.files[old_len + i]);
    }
    lemma_filter_none(ours, damaged_in(tree));
    assert(mismatches(host, state, tree) + Seq::<FileRow>::empty() =~= mismatches(
        host,
        state,
        tree,
    ));
}

/// A check right after indexing an unmodified tree finds no mismatch, where
/// the catalog held no damaged file of the host before.
pub proof fn law_check_after_index_passes(
    host: Seq<char>,
    state: CatalogState,
    tree: Seq<Observation>,
)
    requires
        mismatches(host, state, tree).len() == 0,
    ensures
        mismatches(host, index_run(host, state, tree).catalog, tree).len() == 0,
{
    law_indexing_adds_no_mismatch(host, state, tree);
}

/// When one recorded file of a host stops being intact and what can be read
/// at every other path stays as it was, a check that passed before reports
/// that file, and no other.
proof fn lemma_single_damage(
    host: Seq<char>,
    state: CatalogState,
    before: Seq<Observation>,
    after: Seq<Observation>,
    at: int,
)
    requires
        state.well_formed(),
        mismatches(host, state, before).len() == 0,
        0 <= at < state.files_of(host).len(),
        !intact(state.files_of(host)[at], after),
        forall|path: Seq<char>|
            path != state.files_of(host)[at].full_path ==> #[trigger] content_at(after, path)
                == content_at(before, path),
    ensures
        mismatches(host, state, after) == seq![state.files_of(host)[at]],
{
    let rows = state.files_of(host);
    lemma_host_rows_distinct(state.files, host);
    assert forall|i: int| 0 <= i < rows.len() && i != at implies !damaged_in(after)(
        #[trigger] rows[i],
    ) by {
        if damaged_in(before)(rows[i]) {
            rows.lemma_filter_contains(damaged_in(before), i);
        }
        if i < at {
            assert(rows[i].full_path != rows[at].full_path);
        } else {
            assert(rows[at].full_path != rows[i].full_path);
        }
        assert(content_at(after, rows[i].full_path) == content_at(before, rows[i].full_path));
    }
    lemma_filter_only(rows, damaged_in(after), at);
}

/// When the content of one recorded file changes to bytes with another
/// checksum, and nothing else changes, a check that passed before reports
/// exactly one mismatch: that file.
pub proof fn law_changed_file_is_the_one_mismatch(
    host: Seq<char>,
    state: CatalogState,
    before: Seq<Observation>,
    after: Seq<Observation>,
    at: int,
    bytes: Seq<u8>,
)
    requires
        state.well_formed(),
        mismatches(host, state, before).len() == 0,
        0 <= at < state.files_of(host).len(),
        content_at(after, state.files_of(host)[at].full_path) == Some(bytes),
        crc32c(bytes) != state.files_of(host)[at].id.hash,
        forall|path: Seq<char>|
            path != state.files_of(host)[at].full_path ==> #[trigger] content_at(after, path)
                == content_at(before, path),
    ensures
        mismatches(host, state, after) == seq![state.files_of(host)[at]],
{
    lemma_single_damage(host, state, before, after, at);
}

/// When one recorded file can no longer be read, and nothing else changes, a
/// check that passed before reports it as a mismatch, and no other.
pub proof fn law_deleted_file_is_a_mismatch(
    host: Seq<char>,
    state: CatalogState,
    before: Seq<Observation>,
    after: Seq<Observation>,
    at: int,
)
    requires
        state.well_formed(),
        mismatches(host, state, before).len() == 0,
        0 <= at < state.files_of(host).len(),
        content_at(after, state.files_of(host)[at].full_path) is None,
        forall|path: Seq<char>|
            path != state.files_of(host)[at].full_path ==> #[trigger] content_at(after, path)
                == content_at(before, path),
    ensures
        mismatches(host, state, after) == seq![state.files_of(host)[at]],
{
    lemma_single_damage(host, state, before, after, at);
}

/// `entry` is a readable file whose content has the identity `id`.
spec fn shows(entry: Observation, id: ContentId) -> bool {
    entry matches Observation::File { read: Some(reading), .. } && identity(reading) == id
}

/// What one entry adds to what a catalog holds: its path for the host, and
/// the identity of its content.
proof fn lemma_step_adds(
    host: Seq<char>,
    state: CatalogState,
    entry: Observation,
    id: ContentId,
    other: Seq<char>,
    path: Seq<char>,
)
    ensures
        catalog_after(host, state, entry).has_content(id) <==> state.has_content(id) || shows(
            entry,
            id,
        ),
        catalog_after(host, state, entry).has_file(other, path) <==> state.has_file(other, path)
            || (other == host && reads(entry, path)),
{
    match entry {
        Observation::File { path: here, read: Some(reading) } => {
            let content_row = ContentRow {
                id: identity(reading),
                mime: mime_or_unknown(reading.mime),
            };
            let file_row = FileRow { host, full_path: here, id: identity(reading) };
            let middle = state.insert_content(content_row);
            lemma_identity_among_push(state.contents, content_row, id);
            lemma_identity_among_push(state.contents, content_row, identity(reading));
            lemma_path_among_push(middle.files, file_row, other, path);
        },
        _ => {},
    }
}

/// What a run that meets no failure of the traversal leaves in the catalog:
/// what was there, and the path and the identity of every readable file.
proof fn lemma_run_adds(
    host: Seq<char>,
    state: CatalogState,
    tree: Seq<Observation>,
    id: ContentId,
    other: Seq<char>,
    path: Seq<char>,
)
    requires
        forall|k: int| 0 <= k < tree.len() ==> #[trigger] tree[k] != Observation::Failure,
    ensures
        !index_run(host, state, tree).aborted(),
        index_run(host, state, tree).catalog.has_content(id) <==> state.has_content(id) || exists|
            k: int,
        |
            0 <= k < tree.len() && shows(#[trigger] tree[k], id),
        index_run(host, state, tree).catalog.has_file(other, path) <==> state.has_file(
            other,
            path,
        ) || (other == host && exists|k: int|
            0 <= k < tree.len() && reads(#[trigger] tree[k], path)),
    decreases tree.len(),
{
    if tree.len() > 0 {
        let rest = tree.drop_last();
        let before = index_run(host, state, rest);
        assert forall|k: int| 0 <= k < rest.len() implies #[trigger] rest[k]
            != Observation::Failure by {
            assert(rest[k] == tree[k]);
        }
        lemma_run_adds(host, state, rest, id, other, path);
        lemma_step_adds(host, before.catalog, tree.last(), id, other, path);
        assert(tree[tree.len() - 1] != Observation::Failure);
        if exists|k: int| 0 <= k < rest.len() && shows(#[trigger] rest[k], id) {
            let k = choose|k: int| 0 <= k < rest.len() && shows(#[trigger] rest[k], id);
            assert(shows(tree[k], id));
        }
        if exists|k: int| 0 <= k < rest.len() && reads(#[trigger] rest[k], path) {
            let k = choose|k: int| 0 <= k < rest.len() && reads(#[trigger] rest[k], path);
            assert(reads(tree[k], path));
        }
        if exists|k: int| 0 <= k < tree.len() && shows(#[trigger] tree[k], id) {
            let k = choose|k: int| 0 <= k < tree.len() && shows(#[trigger] tree[k], id);
            if k < rest.len() {
                assert(shows(rest[k], id));
            }
        }
        if exists|k: int| 0 <= k < tree.len() && reads(#[trigger] tree[k], path) {
            let k = choose|k: int| 0 <= k < tree.len() && reads(#[trigger] tree[k], path);
            if k < rest.len() {
                assert(reads(rest[k], path));
            }
        }
    }
}

/// Each entry of one tree is an entry of a tree with the same entries in
/// another order.
proof fn lemma_same_entries(first: Seq<Observation>, second: Seq<Observation>, k: int)
    requires
        first.to_multiset() == second.to_multiset(),
        0 <= k < first.len(),
    ensures
        exists|j: int| 0 <= j < second.len() && #[trigger] second[j] == first[k],
{
    first.to_multiset_ensures();
    second.to_multiset_ensures();
    let entry = first[k];
    assert(first.contains(entry));
    assert(first.to_multiset().count(entry) > 0);
    assert(second.to_multiset().count(entry) > 0);
    assert(second.contains(entry));
}

/// The order in which a traversal yields its entries does not decide what is
/// recorded: two runs over the same entries in different orders, neither
/// meeting a failure of the traversal, leave the same paths and the same
/// content identities in the catalog. (Which mime type an identity keeps, and
/// which content a path that occurs twice keeps, is decided by what came
/// first.)
pub proof fn law_order_does_not_decide_what_is_recorded(
    host: Seq<char>,
    state: CatalogState,
    first: Seq<Observation>,
    second: Seq<Observation>,
)
    requires
        first.to_multiset() == second.to_multiset(),
        forall|k: int| 0 <= k < first.len() ==> #[trigger] first[k] != Observation::Failure,
    ensures
        forall|id: ContentId|
            index_run(host, state, first).catalog.has_content(id) <==> index_run(
                host,
                state,
                second,
            ).catalog.has_content(id),
        forall|other: Seq<char>, path: Seq<char>|
            index_run(host, state, first).catalog.has_file(other, path) <==> index_run(
                host,
                state,
                second,
            ).catalog.has_file(other, path),
{
    assert forall|j: int| 0 <= j < second.len() implies #[trigger] second[j]
        != Observation::Failure by {
        lemma_same_entries(second, first, j);
    }
    assert forall|id: ContentId|
        index_run(host, state, first).catalog.has_content(id) <==> index_run(
            host,
            state,
            second,
        ).catalog.has_content(id) by {
        let nowhere = Seq::<char>::empty();
        lemma_run_adds(host, state, first, id, nowhere, nowhere);
        lemma_run_adds(host, state, second, id, nowhere, nowhere);
        if exists|k: int| 0 <= k < first.len() && shows(#[trigger] first[k], id) {
            let k = choose|k: int| 0 <= k < first.len() && shows(#[trigger] first[k], id);
            lemma_same_entries(first, second, k);
        }
        if exists|k: int| 0 <= k < second.len() && shows(#[trigger] second[k], id) {
            let k = choose|k: int| 0 <= k < second.len() && shows(#[trigger] second[k], id);
            lemma_same_entries(second, first, k);
        }
    }
    assert forall|other: Seq<char>, path: Seq<char>|
        index_run(host, state, first).catalog.has_file(other, path) <==> index_run(
            host,
            state,
            second,
        ).catalog.has_file(other, path) by {
        let any = ContentId { hash: 0, size: 0 };
        lemma_run_adds(host, state, first, any, other, path);
        lemma_run_adds(host, state, second, any, other, path);
        if exists|k: int| 0 <= k < first.len() && reads(#[trigger] first[k], path) {
            let k = choose|k: int| 0 <= k < first.len() && reads(#[trigger] first[k], path);
            lemma_same_entries(first, second, k);
        }
        if exists|k: int| 0 <= k < second.len() && reads(#[trigger] second[k], path) {
            let k = choose|k: int| 0 <= k < second.len() && reads(#[trigger] second[k], path);
            lemma_same_entries(second, first, k);
        }
    }
}

/// Hashing is a function of the bytes: the same content has the same
/// checksum, whatever its path, its size on record or its mime type.
pub proof fn law_hash_is_deterministic(first: Reading, second: Reading)
    requires
        first.bytes == second.bytes,
    ensures
        crc32c(first.bytes) == crc32c(second.bytes),
        identity(first).hash == identity(second).hash,
{
}

/// The gaps of a comparison are the difference of the two catalogs: an
/// identity is reported exactly when the first catalog holds it and the second
/// does not.
pub proof fn law_gaps_are_the_difference(first: CatalogState, second: CatalogState, id: ContentId)
    ensures
        gaps(first, second).contains(id) <==> first.has_content(id) && !second.has_content(id),
{
    let ours = first.content_ids();
    let theirs = second.content_ids();
    let absent = absent_from(theirs);
    let found = gaps(first, second);
    if found.contains(id) {
        let k = choose|k: int| 0 <= k < found.len() && found[k] == id;
        ours.lemma_filter_pred(absent, k);
        ours.lemma_filter_contains_rev(absent, id);
        let i = choose|i: int| 0 <= i < ours.len() && ours[i] == id;
        assert(first.contents[i].id == id);
    }
    if first.has_content(id) && !theirs.contains(id) {
        let i = choose|i: int| 0 <= i < first.contents.len() && first.contents[i].id == id;
        assert(ours[i] == id);
        ours.lemma_filter_contains(absent, i);
    }
    if second.has_content(id) {
        let j = choose|j: int| 0 <= j < second.contents.len() && second.contents[j].id == id;
        assert(theirs[j] == id);
    }
    if theirs.contains(id) {
        let j = choose|j: int| 0 <= j < theirs.len() && theirs[j] == id;
        assert(second.contents[j].id == id);
    }
}

/// Comparing a catalog against itself finds no gap.
pub proof fn law_compare_with_itself(state: CatalogState)
    ensures
        gaps(state, state) == Seq::<ContentId>::empty(),
{
    let ids = state.content_ids();
    lemma_filter_none(ids, absent_from(ids));
}

/// Comparing has a direction: against an empty catalog every identity is a
/// gap, while the empty catalog itself has none against any other.
pub proof fn law_compare_has_direction(full: CatalogState, empty: CatalogState)
    requires
        empty.contents.len() == 0,
    ensures
        gaps(full, empty) == full.content_ids(),
        gaps(empty, full) == Seq::<ContentId>::empty(),
{
    lemma_filter_all(full.content_ids(), absent_from(empty.content_ids()));
    lemma_filter_none(empty.content_ids(), absent_from(full.content_ids()));
}

} // verus!
