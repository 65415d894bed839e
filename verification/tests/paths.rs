use lister::path::{
    is_hidden, is_hidden_below, relative_from, relative_path, HIDDEN_MARK, SEPARATOR,
};
use lister::text::chars_of;

#[test]
fn marks_are_slash_and_dot() {
    assert_eq!(SEPARATOR, '/');
    assert_eq!(HIDDEN_MARK, '.');
}

#[test]
fn chars_of_gives_each_character() {
    assert_eq!(chars_of(""), Vec::<char>::new());
    assert_eq!(chars_of("a/b"), vec!['a', '/', 'b']);
    assert_eq!(chars_of("é/ü"), vec!['é', '/', 'ü']);
}

#[test]
fn relative_path_drops_the_root_and_its_separator() {
    assert_eq!(relative_path("./a/b", "."), "a/b");
    assert_eq!(relative_path("foo/a", "foo"), "a");
    assert_eq!(relative_path("/home/me/x/y.txt", "/home/me"), "x/y.txt");
    assert_eq!(relative_path("foo/bar/baz/qux", "foo/bar"), "baz/qux");
}

#[test]
fn relative_path_with_a_root_that_ends_in_a_separator() {
    assert_eq!(relative_path("foo/a", "foo/"), "a");
    assert_eq!(relative_path("/a", "/"), "a");
    assert_eq!(relative_path("/a/b", "/"), "a/b");
    assert_eq!(relative_path("./a", "./"), "a");
}

#[test]
fn relative_path_drops_one_separator_only() {
    assert_eq!(relative_path("foo//a", "foo"), "/a");
    assert_eq!(relative_path("foo//a", "foo/"), "a");
}

#[test]
fn relative_path_of_the_root_itself_is_empty() {
    assert_eq!(relative_path("foo", "foo"), "");
    assert_eq!(relative_path("foo/", "foo"), "");
    assert_eq!(relative_path("", ""), "");
}

#[test]
fn relative_path_with_an_empty_root() {
    assert_eq!(relative_path("a/b", ""), "a/b");
    assert_eq!(relative_path("/a/b", ""), "a/b");
}

#[test]
fn path_outside_the_root_is_left_as_it_is() {
    assert_eq!(relative_path("bar/a", "foo"), "bar/a");
    assert_eq!(relative_path("fo", "foo"), "fo");
    assert_eq!(relative_path("a/foo/b", "foo"), "a/foo/b");
    assert_eq!(relative_path("Foo/a", "foo"), "Foo/a");
}

#[test]
fn relative_path_counts_characters_not_bytes() {
    assert_eq!(relative_path("dir/é/ü.txt", "dir"), "é/ü.txt");
    assert_eq!(relative_path("bücher/roman.txt", "bücher"), "roman.txt");
    assert_eq!(relative_path("数据/文件/一.txt", "数据"), "文件/一.txt");
    assert_eq!(relative_path("b\u{fc}cher/a", "bu\u{308}cher"), "b\u{fc}cher/a");
}

#[test]
fn relative_from_takes_the_root_as_characters() {
    let root = chars_of("./");
    assert_eq!(relative_from("./src/main.rs", &root), "src/main.rs");
    let other = chars_of("src");
    assert_eq!(relative_from("src/main.rs", &other), "main.rs");
    assert_eq!(relative_from("lib/main.rs", &other), "lib/main.rs");
}

#[test]
fn hidden_names_start_with_a_dot() {
    assert!(is_hidden(".git"));
    assert!(is_hidden(".D"));
    assert!(is_hidden("."));
    assert!(is_hidden(".."));
    assert!(!is_hidden("git"));
    assert!(!is_hidden("a.b"));
    assert!(!is_hidden("a."));
    assert!(!is_hidden(""));
}

#[test]
fn whatever_lies_below_a_hidden_directory_is_hidden() {
    assert!(is_hidden(".git/config"));
    assert!(is_hidden("a/.cache/b/c.txt"));
    assert!(is_hidden("a/b/.c"));
    assert!(is_hidden("/.a"));
}

#[test]
fn a_dot_inside_a_name_hides_nothing() {
    assert!(!is_hidden("a/b.c/d.e"));
    assert!(!is_hidden("a./b"));
    assert!(!is_hidden("src/main.rs"));
    assert!(!is_hidden("a/b/c"));
    assert!(!is_hidden("é/ü.txt"));
}

#[test]
fn hidden_below_the_root_looks_past_the_root() {
    let root = chars_of("/home/me/.config");
    assert!(!is_hidden_below("/home/me/.config/a.toml", &root));
    assert!(!is_hidden_below("/home/me/.config/sub/a.toml", &root));
    assert!(is_hidden_below("/home/me/.config/.secret", &root));
    assert!(is_hidden_below("/home/me/.config/sub/.cache/x", &root));
    let here = chars_of(".");
    assert!(!is_hidden_below("./src/main.rs", &here));
    assert!(is_hidden_below("./.git/config", &here));
}

#[test]
fn hidden_below_the_root_of_a_path_outside_the_root() {
    let root = chars_of("src");
    assert!(is_hidden_below(".git/config", &root));
    assert!(!is_hidden_below("lib/a.rs", &root));
}
