//! Ranking: the `n` most recent entries, newest first.
//!
//! The order is the one a stable sort by descending timestamp gives: entries
//! with the same timestamp stay in the order in which they arrived.

use vstd::prelude::*;
use vstd::seq_lib::{to_multiset_insert, lemma_multiset_commutative};
use crate::entry::{RankedEntry, RankedEntryView, views};

verus! {

/// No entry stands before a more recent one.
pub open spec fn newest_first(entries: Seq<RankedEntryView>) -> bool {
    forall|i: int, j: int|
        0 <= i <= j < entries.len() ==> entries[i].timestamp >= entries[j].timestamp
}

/// Where an entry with `timestamp` goes in `entries`: right behind the last
/// entry that is at least as recent.
pub open spec fn slot(entries: Seq<RankedEntryView>, timestamp: u64) -> int
    decreases entries.len(),
{
    if entries.len() == 0 || entries.last().timestamp >= timestamp {
        entries.len() as int
    } else {
        slot(entries.drop_last(), timestamp)
    }
}

/// `entries` with `entry` put in its slot.
pub open spec fn place(entries: Seq<RankedEntryView>, entry: RankedEntryView) -> Seq<
    RankedEntryView,
> {
    entries.insert(slot(entries, entry.timestamp), entry)
}

/// `entries` in ranked order: each entry, in the order of arrival, is put in
/// its slot among those that came before it.
pub open spec fn ranked(entries: Seq<RankedEntryView>) -> Seq<RankedEntryView>
    decreases entries.len(),
{
    if entries.len() == 0 {
        Seq::empty()
    } else {
        place(ranked(entries.drop_last()), entries.last())
    }
}

/// How many entries a ranking of `available` entries cut off at `n` holds.
pub open spec fn cut(n: nat, available: nat) -> nat {
    if n <= available {
        n
    } else {
        available
    }
}

/// The first `n` entries of the ranked order, or all of them where there are
/// fewer.
pub open spec fn top_ranked(entries: Seq<RankedEntryView>, n: nat) -> Seq<RankedEntryView> {
    ranked(entries).take(cut(n, entries.len()) as int)
}

/// The slot lies within the sequence, every entry from the slot on is older
/// than `timestamp`, and the entry before the slot is not.
pub proof fn lemma_slot(entries: Seq<RankedEntryView>, timestamp: u64)
    ensures
        0 <= slot(entries, timestamp) <= entries.len(),
        forall|j: int|
            slot(entries, timestamp) <= j < entries.len() ==> entries[j].timestamp < timestamp,
        slot(entries, timestamp) > 0 ==> entries[slot(entries, timestamp) - 1].timestamp
            >= timestamp,
    decreases entries.len(),
{
    if entries.len() == 0 || entries.last().timestamp >= timestamp {
    } else {
        let earlier = entries.drop_last();
        lemma_slot(earlier, timestamp);
        assert forall|j: int| slot(entries, timestamp) <= j < entries.len() implies entries[j].timestamp
            < timestamp by {
            if j < earlier.len() {
                assert(entries[j] == earlier[j]);
            }
        }
    }
}

/// Putting an entry in its slot keeps the order, and adds that entry and no
/// other.
pub proof fn lemma_place(entries: Seq<RankedEntryView>, entry: RankedEntryView)
    requires
        newest_first(entries),
    ensures
        newest_first(place(entries, entry)),
        place(entries, entry).len() == entries.len() + 1,
        place(entries, entry).to_multiset() == entries.to_multiset().insert(entry),
{
    let at: int = slot(entries, entry.timestamp);
    lemma_slot(entries, entry.timestamp);
    entries.insert_ensures(at, entry);
    to_multiset_insert(entries, at, entry);
    let placed = place(entries, entry);
    assert forall|i: int, j: int| 0 <= i <= j < placed.len() implies placed[i].timestamp
        >= placed[j].timestamp by {
        let before_i: int = if i < at { i } else { i - 1 };
        let before_j: int = if j < at { j } else { j - 1 };
        if i != at {
            assert(placed[i] == entries[before_i]);
        }
        if j != at {
            assert(placed[j] == entries[before_j]);
        }
        if i < at && j == at {
            assert(entries[i].timestamp >= entries[at - 1].timestamp);
        }
    }
}

/// The ranked order holds each entry as often as the input does, and no
/// entry stands before a more recent one.
pub proof fn lemma_ranked(entries: Seq<RankedEntryView>)
    ensures
        ranked(entries).len() == entries.len(),
        newest_first(ranked(entries)),
        ranked(entries).to_multiset() == entries.to_multiset(),
    decreases entries.len(),
{
    if entries.len() == 0 {
        assert(entries =~= ranked(entries));
    } else {
        let earlier = entries.drop_last();
        lemma_ranked(earlier);
        lemma_place(ranked(earlier), entries.last());
        assert(earlier.push(entries.last()) =~= entries);
        vstd::seq_lib::to_multiset_build(earlier, entries.last());
    }
}

/// A ranking cut off at `n` holds `n` entries, or all where there are fewer,
/// and no entry in it stands before a more recent one.
pub proof fn lemma_top_ranked(entries: Seq<RankedEntryView>, n: nat)
    ensures
        top_ranked(entries, n).len() == cut(n, entries.len()),
        newest_first(top_ranked(entries, n)),
{
    lemma_ranked(entries);
}

/// Entries that are in order already are ranked as they stand.
pub proof fn lemma_ranked_keeps_order(entries: Seq<RankedEntryView>)
    requires
        newest_first(entries),
    ensures
        ranked(entries) == entries,
    decreases entries.len(),
{
    if entries.len() == 0 {
        assert(ranked(entries) =~= entries);
    } else {
        let earlier = entries.drop_last();
        let last = entries.last();
        assert forall|i: int, j: int| 0 <= i <= j < earlier.len() implies earlier[i].timestamp
            >= earlier[j].timestamp by {
            assert(earlier[i] == entries[i] && earlier[j] == entries[j]);
        }
        lemma_ranked_keeps_order(earlier);
        lemma_slot(earlier, last.timestamp);
        let at = slot(earlier, last.timestamp);
        if at < earlier.len() {
            assert(earlier[at] == entries[at]);
            assert(entries[at].timestamp >= entries[entries.len() - 1].timestamp);
        }
        assert(earlier.insert(at, last) =~= entries);
    }
}

/// Ranking a second time changes nothing.
pub proof fn lemma_ranked_twice(entries: Seq<RankedEntryView>)
    ensures
        ranked(ranked(entries)) == ranked(entries),
{
    lemma_ranked(entries);
    lemma_ranked_keeps_order(ranked(entries));
}

/// No two entries have the same timestamp.
pub open spec fn distinct_timestamps(entries: Seq<RankedEntryView>) -> bool {
    forall|i: int, j: int|
        0 <= i < j < entries.len() ==> entries[i].timestamp != entries[j].timestamp
}

/// The timestamps of `entries`, in the same order.
spec fn timestamps(entries: Seq<RankedEntryView>) -> Seq<u64> {
    entries.map_values(|entry: RankedEntryView| entry.timestamp)
}

/// Ranking keeps the timestamps, each as often as it occurs.
proof fn lemma_ranked_timestamps(entries: Seq<RankedEntryView>)
    ensures
        timestamps(ranked(entries)).to_multiset() == timestamps(entries).to_multiset(),
    decreases entries.len(),
{
    if entries.len() == 0 {
        assert(timestamps(ranked(entries)) =~= timestamps(entries));
    } else {
        let earlier = entries.drop_last();
        let last = entries.last();
        let before = ranked(earlier);
        let at = slot(before, last.timestamp);
        lemma_ranked_timestamps(earlier);
        lemma_slot(before, last.timestamp);
        assert(timestamps(before.insert(at, last)) =~= timestamps(before).insert(
            at,
            last.timestamp,
        ));
        to_multiset_insert(timestamps(before), at, last.timestamp);
        assert(timestamps(entries) =~= timestamps(earlier).push(last.timestamp));
        vstd::seq_lib::to_multiset_build(timestamps(earlier), last.timestamp);
    }
}

/// Entries whose timestamps all differ still have timestamps that all
/// differ once they are ranked.
proof fn lemma_ranked_distinct(entries: Seq<RankedEntryView>)
    requires
        distinct_timestamps(entries),
    ensures
        distinct_timestamps(ranked(entries)),
{
    let given = timestamps(entries);
    let sorted = timestamps(ranked(entries));
    lemma_ranked(entries);
    lemma_ranked_timestamps(entries);
    assert(given.no_duplicates());
    given.lemma_multiset_has_no_duplicates();
    sorted.lemma_multiset_has_no_duplicates_conv();
    assert forall|i: int, j: int| 0 <= i < j < ranked(entries).len() implies ranked(
        entries,
    )[i].timestamp != ranked(entries)[j].timestamp by {
        assert(sorted[i] == ranked(entries)[i].timestamp);
        assert(sorted[j] == ranked(entries)[j].timestamp);
    }
}

/// Two sequences that are both in order, hold the same entries, and have no
/// timestamp twice are the same sequence.
proof fn lemma_order_is_unique(first: Seq<RankedEntryView>, second: Seq<RankedEntryView>)
    requires
        newest_first(first),
        newest_first(second),
        distinct_timestamps(first),
        first.to_multiset() == second.to_multiset(),
    ensures
        first == second,
    decreases first.len(),
{
    broadcast use vstd::multiset::group_multiset_axioms;
    broadcast use vstd::seq_lib::group_to_multiset_ensures;

    vstd::seq_lib::to_multiset_len(first);
    vstd::seq_lib::to_multiset_len(second);
    if first.len() == 0 {
        assert(first =~= second);
    } else {
        assert(first.to_multiset().contains(first[0]));
        assert(second.contains(first[0]));
        assert(second.to_multiset().contains(second[0]));
        assert(first.contains(second[0]));
        let i = choose|i: int| 0 <= i < second.len() && second[i] == first[0];
        let j = choose|j: int| 0 <= j < first.len() && first[j] == second[0];
        assert(second[0].timestamp >= second[i].timestamp);
        assert(first[0].timestamp >= first[j].timestamp);
        assert(j == 0);
        let first_rest = first.drop_first();
        let second_rest = second.drop_first();
        assert(first_rest =~= first.remove(0));
        assert(second_rest =~= second.remove(0));
        assert forall|a: int, b: int| 0 <= a <= b < first_rest.len() implies first_rest[a].timestamp
            >= first_rest[b].timestamp by {
            assert(first_rest[a] == first[a + 1] && first_rest[b] == first[b + 1]);
        }
        assert forall|a: int, b: int|
            0 <= a <= b < second_rest.len() implies second_rest[a].timestamp
            >= second_rest[b].timestamp by {
            assert(second_rest[a] == second[a + 1] && second_rest[b] == second[b + 1]);
        }
        assert forall|a: int, b: int| 0 <= a < b < first_rest.len() implies first_rest[a].timestamp
            != first_rest[b].timestamp by {
            assert(first_rest[a] == first[a + 1] && first_rest[b] == first[b + 1]);
        }
        lemma_order_is_unique(first_rest, second_rest);
        assert(first =~= seq![first[0]] + first_rest);
        assert(second =~= seq![second[0]] + second_rest);
    }
}

/// Where no two entries have the same timestamp, the order in which they
/// arrive does not matter: the same entries in another order are ranked the
/// same, and cut off the same.
pub proof fn lemma_ranked_ignores_arrival(
    first: Seq<RankedEntryView>,
    second: Seq<RankedEntryView>,
    n: nat,
)
    requires
        first.to_multiset() == second.to_multiset(),
        distinct_timestamps(first),
    ensures
        ranked(first) == ranked(second),
        top_ranked(first, n) == top_ranked(second, n),
{
    lemma_ranked(first);
    lemma_ranked(second);
    lemma_ranked_distinct(first);
    lemma_order_is_unique(ranked(first), ranked(second));
}

/// Whatever is listed was among the entries.
pub proof fn lemma_top_ranked_origin(entries: Seq<RankedEntryView>, n: nat, k: int)
    requires
        0 <= k < top_ranked(entries, n).len(),
    ensures
        entries.contains(top_ranked(entries, n)[k]),
{
    broadcast use vstd::seq_lib::group_to_multiset_ensures;

    lemma_ranked(entries);
    let whole = ranked(entries);
    assert(whole[k] == top_ranked(entries, n)[k]);
    assert(whole.contains(whole[k]));
    assert(whole.to_multiset().count(whole[k]) > 0);
}

/// What a ranking cut off at `n` leaves out.
pub open spec fn left_out(entries: Seq<RankedEntryView>, n: nat) -> Seq<RankedEntryView> {
    ranked(entries).skip(cut(n, entries.len()) as int)
}

/// Every entry is either listed or left out, and no entry that is left out
/// is more recent than one that is listed.
pub proof fn lemma_top_are_most_recent(entries: Seq<RankedEntryView>, n: nat)
    ensures
        top_ranked(entries, n).to_multiset().add(left_out(entries, n).to_multiset())
            == entries.to_multiset(),
        forall|i: int, j: int|
            0 <= i < top_ranked(entries, n).len() && 0 <= j < left_out(entries, n).len()
                ==> #[trigger] top_ranked(entries, n)[i].timestamp >= #[trigger] left_out(
                entries,
                n,
            )[j].timestamp,
{
    let whole = ranked(entries);
    let kept = cut(n, entries.len()) as int;
    lemma_ranked(entries);
    lemma_multiset_commutative(whole.take(kept), whole.skip(kept));
    assert(whole.take(kept) + whole.skip(kept) =~= whole);
    assert forall|i: int, j: int|
        0 <= i < top_ranked(entries, n).len() && 0 <= j < left_out(entries, n).len()
            implies #[trigger] top_ranked(entries, n)[i].timestamp >= #[trigger] left_out(
            entries,
            n,
        )[j].timestamp by {
        assert(top_ranked(entries, n)[i] == whole[i]);
        assert(left_out(entries, n)[j] == whole[kept + j]);
    }
}

/// The entries of `entries` with the timestamp `timestamp`, in order.
pub open spec fn with_timestamp(entries: Seq<RankedEntryView>, timestamp: u64) -> Seq<
    RankedEntryView,
> {
    entries.filter(|entry: RankedEntryView| entry.timestamp == timestamp)
}

/// Ranking is stable: entries with the same timestamp stand in the ranked
/// order as they arrived.
pub proof fn lemma_ranked_is_stable(entries: Seq<RankedEntryView>, timestamp: u64)
    ensures
        with_timestamp(ranked(entries), timestamp) == with_timestamp(entries, timestamp),
    decreases entries.len(),
{
    let same = |entry: RankedEntryView| entry.timestamp == timestamp;
    if entries.len() == 0 {
        assert(ranked(entries) =~= entries);
    } else {
        let earlier = entries.drop_last();
        let last = entries.last();
        let before = ranked(earlier);
        let at = slot(before, last.timestamp);
        lemma_ranked_is_stable(earlier, timestamp);
        lemma_ranked(earlier);
        lemma_slot(before, last.timestamp);
        let head = before.take(at);
        let tail = before.skip(at);
        assert(before =~= head + tail);
        assert(before.insert(at, last) =~= head.push(last) + tail);
        Seq::filter_distributes_over_add(head, tail, same);
        Seq::filter_distributes_over_add(head.push(last), tail, same);
        head.lemma_filter_push(last, same);
        assert(entries =~= earlier.push(last));
        earlier.lemma_filter_push(last, same);
        if last.timestamp == timestamp {
            assert forall|k: int| 0 <= k < tail.len() implies !same(#[trigger] tail[k]) by {
                assert(tail[k] == before[at + k]);
            }
            tail.lemma_all_neg_filter_empty(same);
            assert(tail.filter(same) =~= Seq::empty());
        }
    }
}

/// Two sequences that are both in order and hold, for each timestamp, the
/// same entries in the same order are the same sequence.
proof fn lemma_stable_order_is_unique(first: Seq<RankedEntryView>, second: Seq<RankedEntryView>)
    requires
        newest_first(first),
        newest_first(second),
        forall|timestamp: u64|
            #[trigger] with_timestamp(first, timestamp) == with_timestamp(second, timestamp),
    ensures
        first == second,
    decreases first.len() + second.len(),
{
    broadcast use vstd::seq_lib::group_filter_ensures;

    if first.len() == 0 && second.len() == 0 {
        assert(first =~= second);
    } else {
        let shown = if first.len() > 0 {
            first[0].timestamp
        } else {
            second[0].timestamp
        };
        let same = |entry: RankedEntryView| entry.timestamp == shown;
        assert(with_timestamp(first, shown) == with_timestamp(second, shown));
        if first.len() > 0 {
            first.lemma_filter_contains(same, 0);
        } else {
            second.lemma_filter_contains(same, 0);
        }
        let shared = with_timestamp(first, shown);
        assert(shared.len() > 0);
        assert(first.len() > 0 && second.len() > 0) by {
            first.lemma_filter_len(same);
            second.lemma_filter_len(same);
        }
        let newest = first[0].timestamp;
        let other = second[0].timestamp;
        assert(newest == other) by {
            if newest != other {
                let missing = if newest > other {
                    newest
                } else {
                    other
                };
                let among = |entry: RankedEntryView| entry.timestamp == missing;
                let found = with_timestamp(first, missing);
                assert(found == with_timestamp(second, missing));
                if newest > other {
                    first.lemma_filter_contains(among, 0);
                } else {
                    second.lemma_filter_contains(among, 0);
                }
                assert(found.contains(found[0]));
                first.lemma_filter_pred(among, 0);
                first.lemma_filter_contains_rev(among, found[0]);
                second.lemma_filter_contains_rev(among, found[0]);
                let i = choose|i: int| 0 <= i < first.len() && first[i] == found[0];
                let j = choose|j: int| 0 <= j < second.len() && second[j] == found[0];
                assert(first[0].timestamp >= first[i].timestamp);
                assert(second[0].timestamp >= second[j].timestamp);
            }
        }
        let first_rest = first.drop_first();
        let second_rest = second.drop_first();
        assert(first =~= seq![first[0]] + first_rest);
        assert(second =~= seq![second[0]] + second_rest);
        assert forall|timestamp: u64| #[trigger]
            with_timestamp(first_rest, timestamp) == with_timestamp(second_rest, timestamp) by {
            let test = |entry: RankedEntryView| entry.timestamp == timestamp;
            first_rest.lemma_filter_prepend(first[0], test);
            second_rest.lemma_filter_prepend(second[0], test);
            assert(with_timestamp(first, timestamp) == with_timestamp(second, timestamp));
            if timestamp == newest {
                let whole = with_timestamp(first, timestamp);
                assert(with_timestamp(first_rest, timestamp) =~= whole.drop_first());
                assert(with_timestamp(second_rest, timestamp) =~= whole.drop_first());
            } else {
                assert(with_timestamp(first_rest, timestamp) =~= with_timestamp(first, timestamp));
                assert(with_timestamp(second_rest, timestamp) =~= with_timestamp(
                    second,
                    timestamp,
                ));
            }
        }
        assert(first[0] == second[0]) by {
            let test = |entry: RankedEntryView| entry.timestamp == newest;
            first_rest.lemma_filter_prepend(first[0], test);
            second_rest.lemma_filter_prepend(second[0], test);
            assert(with_timestamp(first, newest) == with_timestamp(second, newest));
            assert(with_timestamp(first, newest)[0] == first[0]);
            assert(with_timestamp(second, newest)[0] == second[0]);
        }
        assert forall|a: int, b: int| 0 <= a <= b < first_rest.len() implies first_rest[a].timestamp
            >= first_rest[b].timestamp by {
            assert(first_rest[a] == first[a + 1] && first_rest[b] == first[b + 1]);
        }
        assert forall|a: int, b: int|
            0 <= a <= b < second_rest.len() implies second_rest[a].timestamp
            >= second_rest[b].timestamp by {
            assert(second_rest[a] == second[a + 1] && second_rest[b] == second[b + 1]);
        }
        lemma_stable_order_is_unique(first_rest, second_rest);
    }
}

/// The ranked order is the stable one, and the only one: a sequence that is
/// in order and holds, for each timestamp, the entries that `entries` holds
/// with it, in the same order, is the ranked order of `entries`.
pub proof fn lemma_ranked_is_the_stable_order(
    entries: Seq<RankedEntryView>,
    ordered: Seq<RankedEntryView>,
)
    requires
        newest_first(ordered),
        forall|timestamp: u64|
            #[trigger] with_timestamp(ordered, timestamp) == with_timestamp(entries, timestamp),
    ensures
        ordered == ranked(entries),
{
    lemma_ranked(entries);
    assert forall|timestamp: u64| #[trigger]
        with_timestamp(ordered, timestamp) == with_timestamp(ranked(entries), timestamp) by {
        lemma_ranked_is_stable(entries, timestamp);
    }
    lemma_stable_order_is_unique(ordered, ranked(entries));
}

/// Cutting the ranking off at `n` can be done as one goes: an entry that is
/// put in its slot among the first `n` of the entries before it, and the
/// result cut off at `n` again, gives the first `n` of all.
proof fn lemma_place_within(entries: Seq<RankedEntryView>, entry: RankedEntryView, n: nat)
    requires
        newest_first(entries),
    ensures
        place(entries, entry).take(cut(n, entries.len() + 1) as int) == place(
            entries.take(cut(n, entries.len()) as int),
            entry,
        ).take(cut(n, entries.len() + 1) as int),
{
    let kept = cut(n, entries.len()) as int;
    let head = entries.take(kept);
    let all_at: int = slot(entries, entry.timestamp);
    let head_at: int = slot(head, entry.timestamp);
    lemma_slot(entries, entry.timestamp);
    lemma_slot(head, entry.timestamp);
    if n > entries.len() {
        assert(head =~= entries);
    } else {
        if all_at <= kept {
            if head_at < all_at {
                assert(head[head_at] == entries[head_at]);
                assert(entries[head_at].timestamp >= entries[all_at - 1].timestamp);
            }
            if head_at > all_at {
                assert(head[head_at - 1] == entries[head_at - 1]);
            }
            assert(head_at == all_at);
        } else {
            if head_at < kept {
                assert(head[head_at] == entries[head_at]);
                assert(entries[head_at].timestamp >= entries[all_at - 1].timestamp);
            }
            assert(head_at == kept);
        }
        entries.insert_ensures(all_at, entry);
        head.insert_ensures(head_at, entry);
        assert(place(entries, entry).take(kept) =~= place(head, entry).take(kept));
    }
}

/// The slot of an entry with `timestamp` in `best`.
fn slot_in(best: &Vec<RankedEntry>, timestamp: u64) -> (at: usize)
    ensures
        at <= best.len(),
        at as int == slot(views(best@), timestamp),
{
    let ghost ranking = views(best@);
    let mut at: usize = best.len();
    assert(ranking.take(at as int) =~= ranking);
    while at > 0 && best[at - 1].timestamp < timestamp
        invariant
            at <= best.len(),
            ranking == views(best@),
            slot(ranking, timestamp) == slot(ranking.take(at as int), timestamp),
        decreases at,
    {
        assert(ranking.take(at as int).drop_last() =~= ranking.take(at - 1));
        at = at - 1;
    }
    at
}

/// The `n` most recent of `entries`, newest first; entries with the same
/// timestamp stay in the order in which they stand in `entries`.
pub fn select_top(entries: Vec<RankedEntry>, n: usize) -> (top: Vec<RankedEntry>)
    ensures
        views(top@) == top_ranked(views(entries@), n as nat),
        top.len() == cut(n as nat, entries.len() as nat),
        newest_first(views(top@)),
{
    broadcast use vstd::std_specs::vec::axiom_spec_into_iter;

    let ghost all = views(entries@);
    let mut best: Vec<RankedEntry> = Vec::new();
    assert(views(best@) =~= top_ranked(all.take(0), n as nat));
    for entry in it: entries
        invariant
            views(it.seq()) == all,
            best.len() <= n,
            views(best@) == top_ranked(all.take(it.index() as int), n as nat),
    {
        let ghost seen = all.take(it.index() as int);
        let ghost before = views(best@);
        proof {
            assert(all.take(it.index() + 1).drop_last() =~= seen);
            assert(all.take(it.index() + 1).last() == entry@);
            lemma_ranked(seen);
            lemma_place_within(ranked(seen), entry@, n as nat);
        }
        let at: usize = slot_in(&best, entry.timestamp);
        if at < n {
            best.insert(at, entry);
            assert(views(best@) =~= before.insert(at as int, entry@));
            if best.len() > n {
                best.pop();
            }
            assert(views(best@) =~= place(before, entry@).take(cut(n as nat, seen.len() + 1) as int));
        } else {
            proof {
                lemma_slot(before, entry.timestamp);
                before.insert_ensures(at as int, entry@);
            }
            assert(before =~= place(before, entry@).take(cut(n as nat, seen.len() + 1) as int));
        }
    }
    proof {
        assert(all.take(all.len() as int) =~= all);
        lemma_top_ranked(all, n as nat);
    }
    best
}

} // verus!
