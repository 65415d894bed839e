//! The whole way from the items of a walk to the lines that are printed.

use vstd::prelude::*;
use crate::clock::now_seconds;
use crate::entry::{
    views, FileCandidate, FileCandidateView, RankedEntry, RankedEntryView, SortBy, WalkEntryView,
    WalkItem, WalkItemView,
};
use crate::path::{has_hidden_component, relative_from, relative_to};
use crate::permutation::{lemma_filter_keeps_same_elements, lemma_map_keeps_same_elements};
use crate::ranker::{
    cut, distinct_timestamps, lemma_ranked_ignores_arrival, lemma_top_ranked,
    lemma_top_ranked_origin, newest_first, select_top, top_ranked,
};
use crate::text::chars_of;
use crate::timestamp::{reading_of, timestamp, timestamp_or};
use crate::walker::{
    candidate_from, candidates, collect_candidates, is_candidate, is_regular_file,
    lemma_candidate_origin, lemma_no_candidates, root_accessible, WalkError,
};

verus! {

/// A candidate with its path made relative to `root` and its timestamp
/// resolved: the one that `sort_by` asks for, or `now` where the file has
/// none to give.
pub open spec fn resolved(
    candidate: FileCandidateView,
    root: Seq<char>,
    sort_by: SortBy,
    now: u64,
) -> RankedEntryView {
    RankedEntryView {
        path: relative_to(candidate.path, root),
        timestamp: timestamp_or(candidate.metadata, sort_by, now),
    }
}

/// Each of `found` resolved, in the same order.
pub open spec fn resolved_all(
    found: Seq<FileCandidateView>,
    root: Seq<char>,
    sort_by: SortBy,
    now: u64,
) -> Seq<RankedEntryView> {
    found.map_values(|candidate: FileCandidateView| resolved(candidate, root, sort_by, now))
}

/// The `n` most recent of `found`, newest first.
pub open spec fn ranking(
    found: Seq<FileCandidateView>,
    root: Seq<char>,
    n: nat,
    sort_by: SortBy,
    now: u64,
) -> Seq<RankedEntryView> {
    top_ranked(resolved_all(found, root, sort_by, now), n)
}

/// What a walk lists: the `n` most recent candidates among `items`, newest
/// first, or `RootInaccessible` where the walk could not read its root.
pub open spec fn listing(
    items: Seq<WalkItemView>,
    root: Seq<char>,
    n: nat,
    sort_by: SortBy,
    now: u64,
) -> Result<Seq<RankedEntryView>, WalkError> {
    if root_accessible(items) {
        Ok(ranking(candidates(items, root), root, n, sort_by, now))
    } else {
        Err(WalkError::RootInaccessible)
    }
}

/// `result` is `expected`, entry for entry.
pub open spec fn agrees(
    result: Result<Vec<RankedEntry>, WalkError>,
    expected: Result<Seq<RankedEntryView>, WalkError>,
) -> bool {
    match (result, expected) {
        (Ok(entries), Ok(ranked)) => views(entries@) == ranked,
        (Err(error), Err(cause)) => error == cause,
        _ => false,
    }
}

/// A listing holds `n` entries, or as many as the walk has candidates where
/// those are fewer.
pub proof fn lemma_listing_length(
    items: Seq<WalkItemView>,
    root: Seq<char>,
    n: nat,
    sort_by: SortBy,
    now: u64,
)
    requires
        root_accessible(items),
    ensures
        listing(items, root, n, sort_by, now)->Ok_0.len() == cut(
            n,
            candidates(items, root).len(),
        ),
{
    lemma_top_ranked(resolved_all(candidates(items, root), root, sort_by, now), n);
}

/// In a listing no entry stands before a more recent one.
pub proof fn lemma_listing_newest_first(
    items: Seq<WalkItemView>,
    root: Seq<char>,
    n: nat,
    sort_by: SortBy,
    now: u64,
)
    requires
        root_accessible(items),
    ensures
        newest_first(listing(items, root, n, sort_by, now)->Ok_0),
{
    lemma_top_ranked(resolved_all(candidates(items, root), root, sort_by, now), n);
}

/// Every entry of a listing is a candidate item of the walk, with its path
/// made relative and its timestamp resolved.
pub proof fn lemma_listed_entry_origin(
    items: Seq<WalkItemView>,
    root: Seq<char>,
    n: nat,
    sort_by: SortBy,
    now: u64,
    k: int,
)
    requires
        root_accessible(items),
        0 <= k < listing(items, root, n, sort_by, now)->Ok_0.len(),
    ensures
        exists|i: int|
            0 <= i < items.len() && is_candidate(#[trigger] items[i], root) && listing(
                items,
                root,
                n,
                sort_by,
                now,
            )->Ok_0[k] == resolved(candidate_from(items[i]), root, sort_by, now),
{
    let found = candidates(items, root);
    let all = resolved_all(found, root, sort_by, now);
    let entry = top_ranked(all, n)[k];
    lemma_top_ranked_origin(all, n, k);
    let j = choose|j: int| 0 <= j < all.len() && all[j] == entry;
    lemma_candidate_origin(items, root, j);
    let i = choose|i: int|
        0 <= i < items.len() && is_candidate(#[trigger] items[i], root) && found[j]
            == candidate_from(items[i]);
    assert(entry == resolved(candidate_from(items[i]), root, sort_by, now));
}

/// No entry of a listing is hidden or lies below a hidden directory.
pub proof fn lemma_nothing_hidden_is_listed(
    items: Seq<WalkItemView>,
    root: Seq<char>,
    n: nat,
    sort_by: SortBy,
    now: u64,
)
    requires
        root_accessible(items),
    ensures
        forall|k: int|
            0 <= k < listing(items, root, n, sort_by, now)->Ok_0.len() ==> !has_hidden_component(
                #[trigger] listing(items, root, n, sort_by, now)->Ok_0[k].path,
            ),
{
    let entries = listing(items, root, n, sort_by, now)->Ok_0;
    assert forall|k: int| 0 <= k < entries.len() implies !has_hidden_component(
        #[trigger] entries[k].path,
    ) by {
        lemma_listed_entry_origin(items, root, n, sort_by, now, k);
    }
}

/// A regular file that is not hidden is a candidate whether or not its
/// timestamp can be read, and where it cannot, the file is ranked as if it
/// had the timestamp `now`.
pub proof fn lemma_missing_timestamp_is_now(
    entry: WalkEntryView,
    root: Seq<char>,
    sort_by: SortBy,
    now: u64,
)
    requires
        is_regular_file(entry),
        !has_hidden_component(relative_to(entry.path, root)),
        reading_of(entry.metadata, sort_by) is Err,
    ensures
        is_candidate(WalkItemView::Found(entry), root),
        resolved(candidate_from(WalkItemView::Found(entry)), root, sort_by, now).timestamp == now,
{
}

/// Where no file is asked for, none is listed.
pub proof fn lemma_nothing_asked(
    items: Seq<WalkItemView>,
    root: Seq<char>,
    sort_by: SortBy,
    now: u64,
)
    requires
        root_accessible(items),
    ensures
        listing(items, root, 0, sort_by, now) == Ok::<Seq<RankedEntryView>, WalkError>(
            Seq::empty(),
        ),
{
    assert(listing(items, root, 0, sort_by, now)->Ok_0 =~= Seq::empty());
}

/// A walk that found no regular file outside hidden places lists nothing.
pub proof fn lemma_no_files_nothing_listed(
    items: Seq<WalkItemView>,
    root: Seq<char>,
    n: nat,
    sort_by: SortBy,
    now: u64,
)
    requires
        root_accessible(items),
        forall|i: int| 0 <= i < items.len() ==> !is_candidate(#[trigger] items[i], root),
    ensures
        listing(items, root, n, sort_by, now) == Ok::<Seq<RankedEntryView>, WalkError>(
            Seq::empty(),
        ),
{
    lemma_no_candidates(items, root);
    lemma_listing_length(items, root, n, sort_by, now);
    assert(listing(items, root, n, sort_by, now)->Ok_0 =~= Seq::empty());
}

/// Every candidate of the walk has the timestamp that `sort_by` asks for.
pub open spec fn timestamps_known(items: Seq<WalkItemView>, root: Seq<char>, sort_by: SortBy) -> bool {
    forall|k: int|
        0 <= k < candidates(items, root).len() ==> reading_of(
            (#[trigger] candidates(items, root)[k]).metadata,
            sort_by,
        ) is Ok
}

/// Where every candidate has a timestamp of its own, the listing does not
/// depend on the clock.
pub proof fn lemma_listing_ignores_clock(
    items: Seq<WalkItemView>,
    root: Seq<char>,
    n: nat,
    sort_by: SortBy,
    now: u64,
    later: u64,
)
    requires
        timestamps_known(items, root, sort_by),
    ensures
        listing(items, root, n, sort_by, now) == listing(items, root, n, sort_by, later),
{
    let found = candidates(items, root);
    assert(resolved_all(found, root, sort_by, now) =~= resolved_all(found, root, sort_by, later))
        by {
        assert forall|k: int| 0 <= k < found.len() implies resolved(found[k], root, sort_by, now)
            == resolved(found[k], root, sort_by, later) by {
            assert(reading_of(found[k].metadata, sort_by) is Ok);
        }
    }
}

/// Two walks that report the same items, in whatever order, list the same,
/// whenever each is made, provided that every candidate has a timestamp of
/// its own and no two candidates have the same.
pub proof fn lemma_listing_ignores_walk_order(
    first: Seq<WalkItemView>,
    second: Seq<WalkItemView>,
    root: Seq<char>,
    n: nat,
    sort_by: SortBy,
    first_now: u64,
    second_now: u64,
)
    requires
        root_accessible(first),
        root_accessible(second),
        first.to_multiset() == second.to_multiset(),
        timestamps_known(first, root, sort_by),
        distinct_timestamps(resolved_all(candidates(first, root), root, sort_by, first_now)),
    ensures
        listing(first, root, n, sort_by, first_now) == listing(
            second,
            root,
            n,
            sort_by,
            second_now,
        ),
{
    broadcast use vstd::seq_lib::group_to_multiset_ensures;

    let test = |item: WalkItemView| is_candidate(item, root);
    let make = |item: WalkItemView| candidate_from(item);
    let resolve = |candidate: FileCandidateView| resolved(candidate, root, sort_by, first_now);
    let first_found = candidates(first, root);
    let second_found = candidates(second, root);
    lemma_filter_keeps_same_elements(first, second, test);
    lemma_map_keeps_same_elements(first.filter(test), second.filter(test), make);
    lemma_map_keeps_same_elements(first_found, second_found, resolve);
    let first_all = resolved_all(first_found, root, sort_by, first_now);
    let second_all = resolved_all(second_found, root, sort_by, second_now);
    assert(second_all =~= resolved_all(second_found, root, sort_by, first_now)) by {
        assert forall|k: int| 0 <= k < second_found.len() implies resolved(
            second_found[k],
            root,
            sort_by,
            second_now,
        ) == resolved(second_found[k], root, sort_by, first_now) by {
            assert(second_found.contains(second_found[k]));
            assert(first_found.to_multiset().count(second_found[k]) > 0);
            assert(first_found.contains(second_found[k]));
            let j = choose|j: int| 0 <= j < first_found.len() && first_found[j] == second_found[k];
            assert(reading_of(first_found[j].metadata, sort_by) is Ok);
        }
    }
    lemma_ranked_ignores_arrival(first_all, second_all, n);
}

/// The `n` most recent of `found`, newest first, with paths relative to
/// `root`. A file without the timestamp that `sort_by` asks for is ranked as
/// if it had the timestamp `now`.
pub fn rank_candidates(
    found: &Vec<FileCandidate>,
    root: &str,
    n: usize,
    sort_by: SortBy,
    now: u64,
) -> (top: Vec<RankedEntry>)
    ensures
        views(top@) == ranking(views(found@), root@, n as nat, sort_by, now),
        top.len() == cut(n as nat, found.len() as nat),
        newest_first(views(top@)),
{
    let root_chars: Vec<char> = chars_of(root);
    let ghost all = resolved_all(views(found@), root@, sort_by, now);
    let mut entries: Vec<RankedEntry> = Vec::new();
    let mut at: usize = 0;
    while at < found.len()
        invariant
            at <= found.len(),
            root_chars@ == root@,
            all == resolved_all(views(found@), root@, sort_by, now),
            views(entries@) == all.take(at as int),
        decreases found.len() - at,
    {
        let candidate: &FileCandidate = &found[at];
        let entry = RankedEntry {
            path: relative_from(candidate.path.as_str(), &root_chars),
            timestamp: timestamp(candidate, sort_by, now),
        };
        let ghost before = views(entries@);
        assert(entry@ == all[at as int]);
        entries.push(entry);
        assert(views(entries@) =~= before.push(all[at as int]));
        assert(all.take(at + 1) =~= all.take(at as int).push(all[at as int]));
        at = at + 1;
    }
    assert(views(entries@) =~= all);
    select_top(entries, n)
}

/// What the walk lists when the clock stands at `now`.
pub fn build_entries_at(
    items: &Vec<WalkItem>,
    root: &str,
    n: usize,
    sort_by: SortBy,
    now: u64,
) -> (result: Result<Vec<RankedEntry>, WalkError>)
    ensures
        agrees(result, listing(views(items@), root@, n as nat, sort_by, now)),
        result is Ok <==> root_accessible(views(items@)),
        result is Ok ==> newest_first(views(result->Ok_0@)),
        result is Ok ==> result->Ok_0.len() == cut(
            n as nat,
            candidates(views(items@), root@).len(),
        ),
{
    match collect_candidates(items, root) {
        Ok(found) => Ok(rank_candidates(&found, root, n, sort_by, now)),
        Err(error) => Err(error),
    }
}

/// What the walk lists. The clock is read once, before any file is looked
/// at, and every file without a timestamp of its own is given that reading.
/// Where no file is without one, the clock does not matter.
pub fn build_entries(items: &Vec<WalkItem>, root: &str, n: usize, sort_by: SortBy) -> (result:
    Result<Vec<RankedEntry>, WalkError>)
    ensures
        exists|now: u64|
            agrees(result, #[trigger] listing(views(items@), root@, n as nat, sort_by, now)),
        timestamps_known(views(items@), root@, sort_by) ==> forall|now: u64|
            agrees(result, #[trigger] listing(views(items@), root@, n as nat, sort_by, now)),
        result is Ok <==> root_accessible(views(items@)),
        result is Ok ==> newest_first(views(result->Ok_0@)),
        result is Ok ==> result->Ok_0.len() == cut(
            n as nat,
            candidates(views(items@), root@).len(),
        ),
{
    let now: u64 = now_seconds();
    proof {
        if timestamps_known(views(items@), root@, sort_by) {
            assert forall|other: u64|
                listing(views(items@), root@, n as nat, sort_by, now) == #[trigger] listing(
                    views(items@),
                    root@,
                    n as nat,
                    sort_by,
                    other,
                ) by {
                lemma_listing_ignores_clock(views(items@), root@, n as nat, sort_by, now, other);
            }
        }
    }
    build_entries_at(items, root, n, sort_by, now)
}

/// The paths of `entries`, one line each, in the same order.
pub open spec fn lines_of(entries: Seq<RankedEntryView>) -> Seq<Seq<char>> {
    entries.map_values(|entry: RankedEntryView| entry.path)
}

/// The lines to print for `entries`: the path of each, in the same order.
pub fn output_lines(entries: &Vec<RankedEntry>) -> (lines: Vec<String>)
    ensures
        views(lines@) == lines_of(views(entries@)),
        lines.len() == entries.len(),
{
    let mut lines: Vec<String> = Vec::new();
    let mut at: usize = 0;
    while at < entries.len()
        invariant
            at <= entries.len(),
            views(lines@) == lines_of(views(entries@)).take(at as int),
        decreases entries.len() - at,
    {
        let ghost before = views(lines@);
        let ghost paths = lines_of(views(entries@));
        lines.push(entries[at].path.clone());
        assert(views(lines@) =~= before.push(paths[at as int]));
        assert(paths.take(at + 1) =~= paths.take(at as int).push(paths[at as int]));
        at = at + 1;
    }
    assert(views(lines@) =~= lines_of(views(entries@)));
    lines
}

} // verus!
