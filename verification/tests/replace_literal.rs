use replacer::{check_args, replace_literal};

#[test]
fn replaces_a_single_occurrence() {
    assert_eq!(replace_literal("Where you see X", "X", "D"), "Where you see D");
}

#[test]
fn replaces_all_occurrences_left_to_right() {
    assert_eq!(replace_literal("one X two X three X", "X", "Y"), "one Y two Y three Y");
}

#[test]
fn matches_do_not_overlap() {
    assert_eq!(replace_literal("aaa", "aa", "b"), "ba");
}

#[test]
fn absent_token_leaves_text_unchanged() {
    assert_eq!(replace_literal("untouched text", "X", "Y"), "untouched text");
}

#[test]
fn empty_token_matches_every_boundary() {
    assert_eq!(replace_literal("abc", "", "-"), "-a-b-c-");
}

#[test]
fn empty_text_with_empty_token_is_one_value() {
    assert_eq!(replace_literal("", "", "-"), "-");
}

#[test]
fn token_longer_than_text_is_a_no_op() {
    assert_eq!(replace_literal("ab", "abc", "x"), "ab");
}

#[test]
fn value_may_contain_the_token_without_rescanning() {
    assert_eq!(replace_literal("X", "X", "XX"), "XX");
}

#[test]
fn multibyte_characters_are_replaced_whole() {
    assert_eq!(replace_literal("gr\u{fc}n und gr\u{fc}n", "gr\u{fc}n", "blau"), "blau und blau");
}

#[test]
fn too_few_arguments_are_refused() {
    let args = vec![
        String::from("replacer"),
        String::from("template.txt"),
        String::from("vars.json"),
    ];
    assert!(!check_args(&args));
}

#[test]
fn required_arguments_are_accepted() {
    let args = vec![
        String::from("replacer"),
        String::from("template.txt"),
        String::from("vars.json"),
        String::from("txt"),
    ];
    assert!(check_args(&args));
}

#[test]
fn destination_argument_is_accepted_too() {
    let args = vec![
        String::from("replacer"),
        String::from("template.txt"),
        String::from("vars.json"),
        String::from("html"),
        String::from("out.txt"),
    ];
    assert!(check_args(&args));
}

#[test]
fn no_arguments_are_refused() {
    let args: Vec<String> = Vec::new();
    assert!(!check_args(&args));
}
