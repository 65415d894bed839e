//! From the items of a walk to the files that may be listed.
//!
//! The first item of a walk stands for its root. A walk whose root cannot be
//! read as a directory fails as a whole. Below a readable root, an item that
//! could not be listed is passed over, and so is everything that is not a
//! regular file or that lies in a hidden place.

use vstd::prelude::*;
use crate::entry::{
    views, FileCandidate, FileCandidateView, FileKind, WalkEntry, WalkEntryView, WalkItem,
    WalkItemView,
};
use crate::path::{
    has_hidden_component, is_hidden_below, joined, lemma_relative_of_joined, relative_to,
    SEPARATOR,
};
use crate::text::chars_of;

verus! {

/// Why a walk gives no candidates at all.
#[derive(Clone, Copy, Debug, PartialEq, Eq, Structural)]
pub enum WalkError {
    /// The root is missing, is not a directory, or cannot be read.
    RootInaccessible,
}

/// The walk reports its root as a directory whose contents it could read.
pub open spec fn root_accessible(items: Seq<WalkItemView>) -> bool {
    items.len() > 0 && match items[0] {
        WalkItemView::Failed => false,
        WalkItemView::Found(root) => root.file_type == Some(FileKind::Directory)
            && !root.contents_unreadable,
    }
}

/// The entry is known to be a regular file.
pub open spec fn is_regular_file(entry: WalkEntryView) -> bool {
    entry.file_type == Some(FileKind::File)
}

/// The item is a regular file that, seen from `root`, is not hidden and
/// does not lie below a hidden directory.
pub open spec fn is_candidate(item: WalkItemView, root: Seq<char>) -> bool {
    match item {
        WalkItemView::Failed => false,
        WalkItemView::Found(entry) => is_regular_file(entry) && !has_hidden_component(
            relative_to(entry.path, root),
        ),
    }
}

/// The candidate that an item gives: its path and its timestamps. An item
/// that could not be listed has neither, and is never a candidate.
pub open spec fn candidate_from(item: WalkItemView) -> FileCandidateView {
    match item {
        WalkItemView::Failed => FileCandidateView { path: Seq::empty(), metadata: None },
        WalkItemView::Found(entry) => FileCandidateView {
            path: entry.path,
            metadata: entry.metadata,
        },
    }
}

/// The candidates among `items`, in the order of the walk.
pub open spec fn candidates(items: Seq<WalkItemView>, root: Seq<char>) -> Seq<FileCandidateView> {
    items.filter(|item: WalkItemView| is_candidate(item, root)).map_values(
        |item: WalkItemView| candidate_from(item),
    )
}

/// What one more item adds to the candidates: itself, if it is one, and
/// nothing otherwise.
pub proof fn lemma_candidates_push(items: Seq<WalkItemView>, item: WalkItemView, root: Seq<char>)
    ensures
        candidates(items.push(item), root) == if is_candidate(item, root) {
            candidates(items, root).push(candidate_from(item))
        } else {
            candidates(items, root)
        },
{
    let test = |item: WalkItemView| is_candidate(item, root);
    let make = |item: WalkItemView| candidate_from(item);
    items.lemma_filter_push(item, test);
    if is_candidate(item, root) {
        items.filter(test).lemma_push_map_commute(make, item);
    }
}

/// Every candidate comes from an item of the walk that was listed, is a
/// regular file, and is not hidden.
pub proof fn lemma_candidate_origin(items: Seq<WalkItemView>, root: Seq<char>, k: int)
    requires
        0 <= k < candidates(items, root).len(),
    ensures
        exists|i: int|
            0 <= i < items.len() && is_candidate(#[trigger] items[i], root) && candidates(
                items,
                root,
            )[k] == candidate_from(items[i]),
{
    let test = |item: WalkItemView| is_candidate(item, root);
    let kept = items.filter(test);
    items.lemma_filter_pred(test, k);
    assert(kept.contains(kept[k]));
    items.lemma_filter_contains_rev(test, kept[k]);
    let i = choose|i: int| 0 <= i < items.len() && items[i] == kept[k];
    assert(is_candidate(items[i], root));
}

/// Every item of the walk that was listed, is a regular file, and is not
/// hidden gives a candidate.
pub proof fn lemma_candidate_kept(items: Seq<WalkItemView>, root: Seq<char>, i: int)
    requires
        0 <= i < items.len(),
        is_candidate(items[i], root),
    ensures
        candidates(items, root).contains(candidate_from(items[i])),
{
    let test = |item: WalkItemView| is_candidate(item, root);
    let kept = items.filter(test);
    items.lemma_filter_contains(test, i);
    let k = choose|k: int| 0 <= k < kept.len() && kept[k] == items[i];
    assert(candidates(items, root)[k] == candidate_from(items[i]));
}

/// An item that could not be listed gives no candidate, wherever in the walk
/// it stands.
pub proof fn lemma_failed_item_is_skipped(items: Seq<WalkItemView>, root: Seq<char>, at: int)
    requires
        0 <= at <= items.len(),
    ensures
        candidates(items.insert(at, WalkItemView::Failed), root) == candidates(items, root),
{
    let test = |item: WalkItemView| is_candidate(item, root);
    let head = items.take(at);
    let tail = items.skip(at);
    assert(items =~= head + tail);
    assert(items.insert(at, WalkItemView::Failed) =~= head.push(WalkItemView::Failed) + tail);
    Seq::filter_distributes_over_add(head, tail, test);
    Seq::filter_distributes_over_add(head.push(WalkItemView::Failed), tail, test);
    head.lemma_filter_push(WalkItemView::Failed, test);
}

/// An entry that, seen from the root, is hidden or lies below a hidden
/// directory is no candidate, whatever else holds of it.
pub proof fn lemma_hidden_entry_is_no_candidate(
    entry: WalkEntryView,
    root: Seq<char>,
    below: Seq<char>,
)
    requires
        entry.path == joined(root, below),
        below.len() == 0 || below[0] != SEPARATOR,
        has_hidden_component(below),
    ensures
        !is_candidate(WalkItemView::Found(entry), root),
{
    lemma_relative_of_joined(root, below);
}

/// A walk without a candidate item has no candidates.
pub proof fn lemma_no_candidates(items: Seq<WalkItemView>, root: Seq<char>)
    requires
        forall|i: int| 0 <= i < items.len() ==> !is_candidate(#[trigger] items[i], root),
    ensures
        candidates(items, root).len() == 0,
{
    let test = |item: WalkItemView| is_candidate(item, root);
    items.lemma_all_neg_filter_empty(test);
}

/// Whether `entry` is known to be a regular file.
pub fn is_file(entry: &WalkEntry) -> (regular: bool)
    ensures
        regular == is_regular_file(entry@),
{
    match entry.file_type {
        Some(FileKind::File) => true,
        _ => false,
    }
}

/// Whether the walk reports its root as a directory that it could read.
pub fn root_is_accessible(items: &Vec<WalkItem>) -> (accessible: bool)
    ensures
        accessible == root_accessible(views(items@)),
{
    if items.len() == 0 {
        return false;
    }
    match &items[0] {
        WalkItem::Failed => false,
        WalkItem::Found(root) => {
            let is_directory: bool = match root.file_type {
                Some(FileKind::Directory) => true,
                _ => false,
            };
            is_directory && !root.contents_unreadable
        },
    }
}

/// The files among `items` that may be listed, in the order of the walk, or
/// `RootInaccessible` where the walk could not read its root.
pub fn collect_candidates(items: &Vec<WalkItem>, root: &str) -> (result: Result<
    Vec<FileCandidate>,
    WalkError,
>)
    ensures
        match result {
            Ok(found) => root_accessible(views(items@)) && views(found@) == candidates(
                views(items@),
                root@,
            ),
            Err(error) => error == WalkError::RootInaccessible && !root_accessible(views(items@)),
        },
{
    if !root_is_accessible(items) {
        return Err(WalkError::RootInaccessible);
    }
    let root_chars: Vec<char> = chars_of(root);
    let ghost all = views(items@);
    let mut found: Vec<FileCandidate> = Vec::new();
    proof {
        reveal(Seq::filter);
        assert(views(found@) =~= candidates(all.take(0), root@));
    }
    let mut at: usize = 0;
    while at < items.len()
        invariant
            at <= items.len(),
            all == views(items@),
            root_chars@ == root@,
            views(found@) == candidates(all.take(at as int), root@),
        decreases items.len() - at,
    {
        proof {
            assert(all.take(at + 1) =~= all.take(at as int).push(all[at as int]));
            lemma_candidates_push(all.take(at as int), all[at as int], root@);
        }
        match &items[at] {
            WalkItem::Failed => {},
            WalkItem::Found(entry) => {
                if is_file(entry) && !is_hidden_below(entry.path.as_str(), &root_chars) {
                    let ghost before = views(found@);
                    found.push(
                        FileCandidate { path: entry.path.clone(), metadata: entry.metadata },
                    );
                    assert(views(found@) =~= before.push(candidate_from(all[at as int])));
                }
            },
        }
        at = at + 1;
    }
    assert(all.take(at as int) =~= all);
    Ok(found)
}

} // verus!
