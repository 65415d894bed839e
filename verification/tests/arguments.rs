use lister::args::{
    maximum_number_of_entries_to_print, sort_by_from, InvalidArgument, DEFAULT_COUNT,
};
use lister::entry::SortBy;

#[test]
fn count_defaults_to_ten() {
    assert_eq!(DEFAULT_COUNT, 10);
    assert_eq!(maximum_number_of_entries_to_print(None), Ok(10));
}

#[test]
fn count_is_read_as_a_decimal_number() {
    assert_eq!(maximum_number_of_entries_to_print(Some("0")), Ok(0));
    assert_eq!(maximum_number_of_entries_to_print(Some("1")), Ok(1));
    assert_eq!(maximum_number_of_entries_to_print(Some("5")), Ok(5));
    assert_eq!(maximum_number_of_entries_to_print(Some("10")), Ok(10));
    assert_eq!(maximum_number_of_entries_to_print(Some("100")), Ok(100));
    assert_eq!(maximum_number_of_entries_to_print(Some("1234567890")), Ok(1234567890));
}

#[test]
fn count_may_have_a_plus_sign_and_leading_zeros() {
    assert_eq!(maximum_number_of_entries_to_print(Some("+7")), Ok(7));
    assert_eq!(maximum_number_of_entries_to_print(Some("007")), Ok(7));
    assert_eq!(maximum_number_of_entries_to_print(Some("+007")), Ok(7));
    assert_eq!(maximum_number_of_entries_to_print(Some("000")), Ok(0));
}

#[test]
fn count_without_digits_is_refused() {
    assert_eq!(maximum_number_of_entries_to_print(Some("")), Err(InvalidArgument::Count));
    assert_eq!(maximum_number_of_entries_to_print(Some("+")), Err(InvalidArgument::Count));
    assert_eq!(maximum_number_of_entries_to_print(Some("-")), Err(InvalidArgument::Count));
}

#[test]
fn negative_count_is_refused() {
    assert_eq!(maximum_number_of_entries_to_print(Some("-1")), Err(InvalidArgument::Count));
    assert_eq!(maximum_number_of_entries_to_print(Some("-0")), Err(InvalidArgument::Count));
    assert_eq!(maximum_number_of_entries_to_print(Some("-10")), Err(InvalidArgument::Count));
}

#[test]
fn count_that_is_no_number_is_refused() {
    for text in ["abc", "1.5", "1e3", " 5", "5 ", "0x10", "++1", "+-1", "1+", "ten", "١٢", "5\n"] {
        assert_eq!(
            maximum_number_of_entries_to_print(Some(text)),
            Err(InvalidArgument::Count),
            "{:?}",
            text
        );
    }
}

#[test]
fn count_up_to_the_largest_usize_is_accepted() {
    let largest = format!("{}", usize::MAX);
    assert_eq!(maximum_number_of_entries_to_print(Some(&largest)), Ok(usize::MAX));
    let padded = format!("+000{}", usize::MAX);
    assert_eq!(maximum_number_of_entries_to_print(Some(&padded)), Ok(usize::MAX));
}

#[test]
fn count_beyond_the_largest_usize_is_refused() {
    let beyond = format!("{}", usize::MAX as u128 + 1);
    assert_eq!(maximum_number_of_entries_to_print(Some(&beyond)), Err(InvalidArgument::Count));
    let tenfold = format!("{}0", usize::MAX);
    assert_eq!(maximum_number_of_entries_to_print(Some(&tenfold)), Err(InvalidArgument::Count));
    let long = "9".repeat(60);
    assert_eq!(maximum_number_of_entries_to_print(Some(&long)), Err(InvalidArgument::Count));
    let spoiled = format!("{}x", "9".repeat(60));
    assert_eq!(maximum_number_of_entries_to_print(Some(&spoiled)), Err(InvalidArgument::Count));
}

#[test]
fn count_agrees_with_the_standard_parser() {
    let largest = format!("{}", usize::MAX);
    let beyond = format!("{}", usize::MAX as u128 + 1);
    let texts = [
        "", "0", "1", "9", "10", "42", "+42", "-42", "+", "-", "++4", "4+", "04", "4 ", " 4",
        "4.0", "four", "4_000", "12345678901234567890123", "٤", "4a", "a4", "+0", "-0",
        largest.as_str(), beyond.as_str(),
    ];
    for text in texts {
        assert_eq!(
            maximum_number_of_entries_to_print(Some(text)).ok(),
            text.parse::<usize>().ok(),
            "{:?}",
            text
        );
    }
}

#[test]
fn sort_key_defaults_to_modified() {
    assert_eq!(sort_by_from(None), Ok(SortBy::Modified));
}

#[test]
fn sort_key_is_one_of_two_words() {
    assert_eq!(sort_by_from(Some("modified")), Ok(SortBy::Modified));
    assert_eq!(sort_by_from(Some("created")), Ok(SortBy::Created));
}

#[test]
fn other_sort_keys_are_refused() {
    for text in ["", "size", "Created", "MODIFIED", "created ", " modified", "accessed", "create"] {
        assert_eq!(sort_by_from(Some(text)), Err(InvalidArgument::SortKey), "{:?}", text);
    }
}
