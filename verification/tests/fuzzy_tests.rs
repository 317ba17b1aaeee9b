use streaks::{close_match, lev};

#[test]
fn distance_of_equal_names_is_zero() {
    assert_eq!(lev("workout", "workout"), 0);
    assert_eq!(lev("", ""), 0);
}

#[test]
fn distance_to_the_empty_name_is_the_length() {
    assert_eq!(lev("abc", ""), 3);
    assert_eq!(lev("", "abcd"), 4);
}

#[test]
fn distance_counts_single_edits() {
    assert_eq!(lev("kitten", "sitting"), 3);
    assert_eq!(lev("flaw", "lawn"), 2);
    assert_eq!(lev("gym", "gum"), 1);
    assert_eq!(lev("gym", "gyms"), 1);
    assert_eq!(lev("gyms", "gym"), 1);
}

#[test]
fn distance_of_a_transposition_is_two() {
    assert_eq!(lev("workout", "workuot"), 2);
}

#[test]
fn distance_counts_characters_not_bytes() {
    assert_eq!(lev("é", "e"), 1);
    assert_eq!(lev("abcdefé", "abcdef"), 1);
}

#[test]
fn transposed_letters_are_a_close_match() {
    assert!(close_match("workout", "workuot"));
}

#[test]
fn short_names_tolerate_one_edit_only() {
    assert!(!close_match("ab", "xy"));
    assert!(close_match("ab", "ax"));
}

#[test]
fn one_letter_names_tolerate_no_edit() {
    assert!(!close_match("a", "b"));
    assert!(close_match("a", "a"));
    assert!(!close_match("a", "ab"));
}

#[test]
fn no_name_tolerates_more_than_three_edits() {
    assert!(close_match("abcdefghij", "abcdefgxyz"));
    assert!(!close_match("abcdefghij", "abcdefwxyz"));
}

#[test]
fn budget_follows_the_shorter_name() {
    // distance 2, the shorter name has three letters: budget 1
    assert!(!close_match("abc", "abcde"));
    // distance 2, the shorter name has four letters: budget 2
    assert!(close_match("abcd", "abcdef"));
}
