//! Paths as text: what lies below the root of a walk, and what is hidden.

use vstd::prelude::*;
use vstd::string::StrSliceExecFns;
use crate::text::chars_of;

verus! {

/// The character between the names of a path.
pub const SEPARATOR: char = '/';

/// The character that a hidden name starts with.
pub const HIDDEN_MARK: char = '.';

/// `text` without one leading separator, if it has one.
pub open spec fn without_leading_separator(text: Seq<char>) -> Seq<char> {
    if text.len() > 0 && text[0] == SEPARATOR {
        text.skip(1)
    } else {
        text
    }
}

/// `path` as seen from `root`: without the root in front, and without the
/// separator that follows the root. A path that does not begin with the root
/// is left as it is.
pub open spec fn relative_to(path: Seq<char>, root: Seq<char>) -> Seq<char> {
    if root.is_prefix_of(path) {
        without_leading_separator(path.skip(root.len() as int))
    } else {
        path
    }
}

/// `root` and, below it, `name`: with a separator between the two unless the
/// root is empty or ends in one.
pub open spec fn joined(root: Seq<char>, name: Seq<char>) -> Seq<char> {
    if root.len() == 0 || root.last() == SEPARATOR {
        root + name
    } else {
        root.push(SEPARATOR) + name
    }
}

/// A name begins at index `at` of `path`.
pub open spec fn name_starts_at(path: Seq<char>, at: int) -> bool {
    0 <= at < path.len() && (at == 0 || path[at - 1] == SEPARATOR)
}

/// One of the names that `path` is made of begins with the hidden mark: the
/// path names a hidden entry, or something below a hidden directory.
pub open spec fn has_hidden_component(path: Seq<char>) -> bool {
    exists|at: int| #[trigger] name_starts_at(path, at) && path[at] == HIDDEN_MARK
}

/// A name is hidden: it begins with the hidden mark.
pub open spec fn is_hidden_name(name: Seq<char>) -> bool {
    name.len() > 0 && name[0] == HIDDEN_MARK
}

/// Seen from the root, what was joined to the root is what was joined.
pub proof fn lemma_relative_of_joined(root: Seq<char>, name: Seq<char>)
    requires
        name.len() == 0 || name[0] != SEPARATOR,
    ensures
        relative_to(joined(root, name), root) == name,
{
    let whole = joined(root, name);
    assert(whole.subrange(0, root.len() as int) =~= root);
    if root.len() == 0 || root.last() == SEPARATOR {
        assert(whole.skip(root.len() as int) =~= name);
    } else {
        assert(whole.skip(root.len() as int) =~= seq![SEPARATOR] + name);
        assert(whole.skip(root.len() as int).skip(1) =~= name);
    }
}

/// An entry with a hidden name is hidden wherever it lies.
pub proof fn lemma_hidden_name_is_hidden(parent: Seq<char>, name: Seq<char>)
    requires
        is_hidden_name(name),
    ensures
        has_hidden_component(joined(parent, name)),
{
    let whole = joined(parent, name);
    let at: int = whole.len() - name.len();
    assert(whole[at] == name[0]);
    assert(name_starts_at(whole, at));
}

/// Whatever lies below a hidden place is hidden.
pub proof fn lemma_below_hidden_is_hidden(parent: Seq<char>, name: Seq<char>)
    requires
        has_hidden_component(parent),
    ensures
        has_hidden_component(joined(parent, name)),
{
    let whole = joined(parent, name);
    let at = choose|at: int| #[trigger] name_starts_at(parent, at) && parent[at] == HIDDEN_MARK;
    assert(whole[at] == parent[at]);
    if at > 0 {
        assert(whole[at - 1] == parent[at - 1]);
    }
    assert(name_starts_at(whole, at));
}

/// Whether `text` begins with `prefix`.
fn starts_with(text: &Vec<char>, prefix: &Vec<char>) -> (found: bool)
    ensures
        found == prefix@.is_prefix_of(text@),
{
    if prefix.len() > text.len() {
        return false;
    }
    let mut at: usize = 0;
    while at < prefix.len()
        invariant
            at <= prefix.len() <= text.len(),
            prefix@.take(at as int) == text@.take(at as int),
        decreases prefix.len() - at,
    {
        if prefix[at] != text[at] {
            assert(text@.subrange(0, prefix.len() as int)[at as int] != prefix@[at as int]);
            return false;
        }
        assert(prefix@.take(at + 1) =~= prefix@.take(at as int).push(prefix@[at as int]));
        assert(text@.take(at + 1) =~= text@.take(at as int).push(text@[at as int]));
        at = at + 1;
    }
    assert(prefix@ =~= prefix@.take(at as int));
    true
}

/// Where in `text` the part below `root` begins: `text` from there on is
/// `text` as seen from `root`.
fn relative_start(text: &Vec<char>, root: &Vec<char>) -> (from: usize)
    ensures
        from <= text.len(),
        text@.skip(from as int) == relative_to(text@, root@),
{
    if starts_with(text, root) {
        let mut from: usize = root.len();
        if from < text.len() && text[from] == SEPARATOR {
            from = from + 1;
            assert(text@.skip(root.len() as int).skip(1) =~= text@.skip(root.len() + 1));
        }
        from
    } else {
        assert(text@.skip(0) =~= text@);
        0
    }
}

/// Whether `text` from index `from` on names a hidden entry or something
/// below one.
fn hidden_from(text: &Vec<char>, from: usize) -> (hidden: bool)
    requires
        from <= text.len(),
    ensures
        hidden == has_hidden_component(text@.skip(from as int)),
{
    let ghost path = text@.skip(from as int);
    let mut at: usize = from;
    let mut at_name_start: bool = true;
    while at < text.len()
        invariant
            from <= at <= text.len(),
            path == text@.skip(from as int),
            at < text.len() ==> at_name_start == name_starts_at(path, at - from),
            forall|before: int|
                0 <= before < at - from ==> !(#[trigger] name_starts_at(path, before)
                    && path[before] == HIDDEN_MARK),
        decreases text.len() - at,
    {
        if at_name_start && text[at] == HIDDEN_MARK {
            assert(name_starts_at(path, at - from) && path[at - from] == HIDDEN_MARK);
            return true;
        }
        at_name_start = text[at] == SEPARATOR;
        at = at + 1;
    }
    false
}

/// The path of an entry as seen from the root of the walk, the root given
/// by its characters.
pub fn relative_from(path: &str, root: &Vec<char>) -> (relative: String)
    ensures
        relative@ == relative_to(path@, root@),
{
    let text: Vec<char> = chars_of(path);
    let from: usize = relative_start(&text, root);
    path.substring_char(from, text.len()).to_owned()
}

/// The path of an entry as seen from the root of the walk.
pub fn relative_path(path: &str, root: &str) -> (relative: String)
    ensures
        relative@ == relative_to(path@, root@),
{
    let root_chars: Vec<char> = chars_of(root);
    relative_from(path, &root_chars)
}

/// Whether `path` names a hidden entry or something below one.
pub fn is_hidden(path: &str) -> (hidden: bool)
    ensures
        hidden == has_hidden_component(path@),
{
    let text: Vec<char> = chars_of(path);
    assert(text@.skip(0) =~= path@);
    hidden_from(&text, 0)
}

/// Whether `path`, as seen from the root of the walk, names a hidden entry
/// or something below one. The root is given by its characters.
pub fn is_hidden_below(path: &str, root: &Vec<char>) -> (hidden: bool)
    ensures
        hidden == has_hidden_component(relative_to(path@, root@)),
{
    let text: Vec<char> = chars_of(path);
    let from: usize = relative_start(&text, root);
    hidden_from(&text, from)
}

} // verus!
