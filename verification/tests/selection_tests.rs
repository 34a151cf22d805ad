use anime_dupe_finder::selection::parse_user_input;
use anime_dupe_finder::selection::SelectionError;

#[test]
fn range_expands_inclusively() {
    let r = parse_user_input(&String::from("0-2"), 5);
    assert_eq!(Ok(vec![String::from("0"), String::from("1"), String::from("2")]), r);
}

#[test]
fn cancel_parses_for_any_count() {
    assert_eq!(Ok(vec![String::from("c")]), parse_user_input(&String::from("c"), 0));
    assert_eq!(Ok(vec![String::from("c")]), parse_user_input(&String::from("c"), 3));
    assert_eq!(Ok(vec![String::from("c")]), parse_user_input(&String::from("C"), 17));
}

#[test]
fn bound_above_count_is_an_error() {
    let r = parse_user_input(&String::from("7"), 3);
    assert_eq!(Err(SelectionError::BoundExceeded { bound: String::from("7"), max: 3 }), r);
}

#[test]
fn empty_input_is_no_selection() {
    assert_eq!(Err(SelectionError::NoSelection), parse_user_input(&String::from(""), 4));
    assert_eq!(Err(SelectionError::NoSelection), parse_user_input(&String::from("nope"), 4));
}

#[test]
fn descending_range_bounds_are_swapped() {
    let r = parse_user_input(&String::from("2-0"), 5);
    assert_eq!(Ok(vec![String::from("0"), String::from("1"), String::from("2")]), r);
}

#[test]
fn whitespace_around_the_dash_is_allowed() {
    let r = parse_user_input(&String::from("1 - 3"), 5);
    assert_eq!(
        Ok(vec![String::from("1"), String::from("2"), String::from("3")]),
        r
    );
}

#[test]
fn bound_equal_to_count_passes() {
    // The check is against the count itself, not the last zero-based index.
    assert_eq!(Ok(vec![String::from("3")]), parse_user_input(&String::from("3"), 3));
}

#[test]
fn bare_integers_pass_through_verbatim() {
    assert_eq!(Ok(vec![String::from("007")]), parse_user_input(&String::from("007"), 10));
}

#[test]
fn tokens_may_be_separated_by_commas() {
    let r = parse_user_input(&String::from("0,2, c"), 4);
    assert_eq!(
        Ok(vec![String::from("0"), String::from("2"), String::from("c")]),
        r
    );
}

#[test]
fn range_bound_above_count_reports_the_high_bound() {
    let r = parse_user_input(&String::from("1-9"), 4);
    assert_eq!(Err(SelectionError::BoundExceeded { bound: String::from("9"), max: 4 }), r);
}

#[test]
fn error_messages_name_the_bound_and_the_count() {
    let e = SelectionError::BoundExceeded { bound: String::from("7"), max: 3 };
    assert_eq!("7 is greater than the max index (3)", e.message());
    assert_eq!("No selection(s) made.", SelectionError::NoSelection.message());
}

#[test]
fn token_stuck_to_a_word_is_not_a_selection() {
    assert_eq!(Err(SelectionError::NoSelection), parse_user_input(&String::from("12a"), 20));
}

#[test]
fn range_glued_to_a_word_falls_back_to_its_first_bound() {
    assert_eq!(Ok(vec![String::from("1")]), parse_user_input(&String::from("1-2x"), 5));
}

#[test]
fn whitespace_separated_tokens_all_count() {
    let r = parse_user_input(&String::from("0 1 2"), 5);
    assert_eq!(
        Ok(vec![String::from("0"), String::from("1"), String::from("2")]),
        r
    );
}
