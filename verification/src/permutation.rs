//! Sequences that hold the same elements, each as often, in whatever order.
//!
//! Picking elements by a test, and replacing each element by what a function
//! makes of it, both turn two such sequences into two such sequences.

use vstd::prelude::*;
use vstd::seq_lib::{
    lemma_multiset_commutative, to_multiset_build, to_multiset_insert, to_multiset_len,
    to_multiset_remove,
};

verus! {

/// An element of `first` and where it stands in `second`, with what is left
/// of both when it is taken out: the rests hold the same elements again.
proof fn lemma_take_one_out<A>(first: Seq<A>, second: Seq<A>) -> (at: int)
    requires
        first.to_multiset() == second.to_multiset(),
        first.len() > 0,
    ensures
        0 <= at < second.len(),
        second[at] == first.last(),
        first.drop_last().to_multiset() == second.remove(at).to_multiset(),
{
    broadcast use vstd::multiset::group_multiset_axioms;
    broadcast use vstd::seq_lib::group_to_multiset_ensures;

    let last = first.last();
    assert(first =~= first.drop_last().push(last));
    to_multiset_build(first.drop_last(), last);
    assert(first.contains(last));
    assert(second.to_multiset().count(last) > 0);
    assert(second.contains(last));
    let at = choose|at: int| 0 <= at < second.len() && second[at] == last;
    to_multiset_remove(second, at);
    assert(first.drop_last().to_multiset() =~= first.to_multiset().remove(last));
    at
}

/// Replacing each element by what `make` makes of it keeps two sequences
/// that hold the same elements in step.
pub proof fn lemma_map_keeps_same_elements<A, B>(
    first: Seq<A>,
    second: Seq<A>,
    make: spec_fn(A) -> B,
)
    requires
        first.to_multiset() == second.to_multiset(),
    ensures
        first.map_values(make).to_multiset() == second.map_values(make).to_multiset(),
    decreases first.len(),
{
    to_multiset_len(first);
    to_multiset_len(second);
    if first.len() == 0 {
        assert(first.map_values(make) =~= second.map_values(make));
    } else {
        let at = lemma_take_one_out(first, second);
        let first_rest = first.drop_last();
        let second_rest = second.remove(at);
        let made = make(first.last());
        lemma_map_keeps_same_elements(first_rest, second_rest, make);
        assert(first.map_values(make) =~= first_rest.map_values(make).push(made));
        to_multiset_build(first_rest.map_values(make), made);
        assert(second.map_values(make) =~= second_rest.map_values(make).insert(at, made));
        to_multiset_insert(second_rest.map_values(make), at, made);
    }
}

/// Picking the elements that pass `test` keeps two sequences that hold the
/// same elements in step.
pub proof fn lemma_filter_keeps_same_elements<A>(
    first: Seq<A>,
    second: Seq<A>,
    test: spec_fn(A) -> bool,
)
    requires
        first.to_multiset() == second.to_multiset(),
    ensures
        first.filter(test).to_multiset() == second.filter(test).to_multiset(),
    decreases first.len(),
{
    broadcast use vstd::multiset::group_multiset_axioms;

    to_multiset_len(first);
    to_multiset_len(second);
    if first.len() == 0 {
        assert(first =~= second);
    } else {
        let at = lemma_take_one_out(first, second);
        let first_rest = first.drop_last();
        let second_rest = second.remove(at);
        let last = first.last();
        lemma_filter_keeps_same_elements(first_rest, second_rest, test);
        assert(first =~= first_rest.push(last));
        first_rest.lemma_filter_push(last, test);
        let head = second.take(at);
        let tail = second.skip(at + 1);
        assert(second =~= head.push(last) + tail);
        assert(second_rest =~= head + tail);
        Seq::filter_distributes_over_add(head.push(last), tail, test);
        Seq::filter_distributes_over_add(head, tail, test);
        head.lemma_filter_push(last, test);
        lemma_multiset_commutative(head.push(last).filter(test), tail.filter(test));
        lemma_multiset_commutative(head.filter(test), tail.filter(test));
        if test(last) {
            to_multiset_build(head.filter(test), last);
            to_multiset_build(first_rest.filter(test), last);
            assert(second.filter(test).to_multiset() =~= second_rest.filter(
                test,
            ).to_multiset().insert(last));
        }
    }
}

} // verus!
