//! The two arguments that are text: how many files to list, and by which
//! timestamp.

use vstd::prelude::*;
use crate::entry::SortBy;
use crate::text::chars_of;

verus! {

/// How many files are listed where no count is given.
pub const DEFAULT_COUNT: usize = 10;

/// An argument that cannot be used.
#[derive(Clone, Copy, Debug, PartialEq, Eq, Structural)]
pub enum InvalidArgument {
    /// The count is not a number, is negative, or is too large.
    Count,
    /// The sort key is neither `modified` nor `created`.
    SortKey,
}

/// `symbol` is one of the ten decimal digits.
pub open spec fn is_digit(symbol: char) -> bool {
    '0' <= symbol <= '9'
}

/// The number that a decimal digit stands for.
pub open spec fn digit_value(symbol: char) -> nat {
    (symbol as nat - '0' as nat) as nat
}

/// Every character of `text` is a decimal digit.
pub open spec fn all_digits(text: Seq<char>) -> bool {
    forall|at: int| 0 <= at < text.len() ==> is_digit(#[trigger] text[at])
}

/// The number that a row of decimal digits stands for.
pub open spec fn decimal_value(digits: Seq<char>) -> nat
    decreases digits.len(),
{
    if digits.len() == 0 {
        0
    } else {
        decimal_value(digits.drop_last()) * 10 + digit_value(digits.last())
    }
}

/// `text` without a leading plus sign, if it has one.
pub open spec fn without_sign(text: Seq<char>) -> Seq<char> {
    if text.len() > 0 && text[0] == '+' {
        text.skip(1)
    } else {
        text
    }
}

/// The number that `text` stands for: one or more decimal digits, with or
/// without a plus sign in front. Anything else stands for no number.
pub open spec fn number_in(text: Seq<char>) -> Option<nat> {
    let digits = without_sign(text);
    if digits.len() > 0 && all_digits(digits) {
        Some(decimal_value(digits))
    } else {
        None
    }
}

/// The count that an argument asks for: [`DEFAULT_COUNT`] where there is no
/// argument, and else the number in it, which must fit in a `usize`.
pub open spec fn count_from(arg: Option<Seq<char>>) -> Result<usize, InvalidArgument> {
    match arg {
        None => Ok(DEFAULT_COUNT),
        Some(text) => match number_in(text) {
            Some(value) => if value <= usize::MAX {
                Ok(value as usize)
            } else {
                Err(InvalidArgument::Count)
            },
            None => Err(InvalidArgument::Count),
        },
    }
}

/// A row of digits stands for at least as much as any of its beginnings.
pub proof fn lemma_decimal_value_grows(digits: Seq<char>, length: int)
    requires
        0 <= length <= digits.len(),
    ensures
        decimal_value(digits.take(length)) <= decimal_value(digits),
    decreases digits.len(),
{
    if length == digits.len() {
        assert(digits.take(length) =~= digits);
    } else {
        lemma_decimal_value_grows(digits.drop_last(), length);
        assert(digits.drop_last().take(length) =~= digits.take(length));
    }
}

/// The text of an argument as an optional sequence of characters.
pub open spec fn text_of(arg: Option<&str>) -> Option<Seq<char>> {
    match arg {
        None => None,
        Some(text) => Some(text@),
    }
}

/// How many files to list at most: the number that `arg` holds, or
/// [`DEFAULT_COUNT`] where there is no argument.
pub fn maximum_number_of_entries_to_print(arg: Option<&str>) -> (result: Result<
    usize,
    InvalidArgument,
>)
    ensures
        result == count_from(text_of(arg)),
{
    let text: Vec<char> = match arg {
        None => {
            return Ok(DEFAULT_COUNT);
        },
        Some(text) => chars_of(text),
    };
    let first: usize = if text.len() > 0 && text[0] == '+' {
        1
    } else {
        0
    };
    if first == text.len() {
        return Err(InvalidArgument::Count);
    }
    let ghost digits = without_sign(text@);
    assert(digits =~= text@.skip(first as int));
    let mut value: usize = 0;
    let mut at: usize = first;
    while at < text.len()
        invariant
            first <= at <= text.len(),
            text_of(arg) == Some(text@),
            digits == without_sign(text@),
            digits == text@.skip(first as int),
            all_digits(digits.take(at - first)),
            value as nat == decimal_value(digits.take(at - first)),
        decreases text.len() - at,
    {
        let symbol: char = text[at];
        let ghost seen = digits.take(at - first);
        let ghost next = digits.take(at - first + 1);
        proof {
            assert(next.drop_last() =~= seen);
            assert(next.last() == symbol);
        }
        if symbol < '0' || symbol > '9' {
            assert(!is_digit(digits[at - first]));
            return Err(InvalidArgument::Count);
        }
        let digit: usize = (symbol as u32 - '0' as u32) as usize;
        let grown: Option<usize> = match value.checked_mul(10) {
            Some(tenfold) => tenfold.checked_add(digit),
            None => None,
        };
        match grown {
            Some(sum) => {
                value = sum;
            },
            None => {
                proof {
                    assert(decimal_value(next) > usize::MAX);
                    lemma_decimal_value_grows(digits, at - first + 1);
                }
                return Err(InvalidArgument::Count);
            },
        }
        assert forall|k: int| 0 <= k < next.len() implies is_digit(#[trigger] next[k]) by {
            if k < seen.len() {
                assert(next[k] == seen[k]);
            }
        }
        at = at + 1;
    }
    assert(digits.take(at - first) =~= digits);
    Ok(value)
}

/// The sort key that an argument names: `modified` where there is no
/// argument, and else the one of `modified` and `created` that it spells.
pub open spec fn sort_key_from(arg: Option<Seq<char>>) -> Result<SortBy, InvalidArgument> {
    match arg {
        None => Ok(SortBy::Modified),
        Some(text) => if text == "modified"@ {
            Ok(SortBy::Modified)
        } else if text == "created"@ {
            Ok(SortBy::Created)
        } else {
            Err(InvalidArgument::SortKey)
        },
    }
}

/// The timestamp to rank by: the one that `arg` names, or the time of the
/// last modification where there is no argument.
pub fn sort_by_from(arg: Option<&str>) -> (result: Result<SortBy, InvalidArgument>)
    ensures
        result == sort_key_from(text_of(arg)),
{
    match arg {
        None => Ok(SortBy::Modified),
        Some(text) => {
            let key: String = text.to_owned();
            if key == "modified".to_owned() {
                Ok(SortBy::Modified)
            } else if key == "created".to_owned() {
                Ok(SortBy::Created)
            } else {
                Err(InvalidArgument::SortKey)
            }
        },
    }
}

} // verus!
