use yoke::report::{build_report, join, ParseError, Report};

fn names(list: &[&str]) -> Vec<String> {
    list.iter().map(|name| name.to_string()).collect()
}

#[test]
fn join_puts_the_separator_between() {
    assert_eq!(join(&names(&[]), " or "), "");
    assert_eq!(join(&names(&["a"]), " or "), "a");
    assert_eq!(join(&names(&["a", "b", "c"]), " or "), "a or b or c");
    assert_eq!(join(&names(&["", ""]), ","), ",");
}

#[test]
fn an_invalid_token_is_reported_where_it_stands() {
    assert_eq!(
        build_report(&ParseError::InvalidToken { location: 4 }),
        Report {
            reason: "unrecognized token".to_string(),
            start: 4,
            end: 4
        }
    );
}

#[test]
fn an_early_end_says_what_was_expected() {
    assert_eq!(
        build_report(&ParseError::UnrecognizedEof {
            location: 9,
            expected: names(&["\"}\"", "\"return\""]),
        }),
        Report {
            reason: "unexpected eof. expected \"}\" or \"return\"".to_string(),
            start: 9,
            end: 9
        }
    );
}

#[test]
fn a_wrong_token_is_named_with_what_was_expected() {
    assert_eq!(
        build_report(&ParseError::UnrecognizedToken {
            start: 2,
            token: "=".to_string(),
            end: 3,
            expected: names(&["name"]),
        }),
        Report {
            reason: "unrecognized token =. expected name".to_string(),
            start: 2,
            end: 3
        }
    );
}

#[test]
fn an_extra_token_is_named() {
    assert_eq!(
        build_report(&ParseError::ExtraToken {
            start: 7,
            token: "}".to_string(),
            end: 8,
        }),
        Report {
            reason: "unexpected extra token: }".to_string(),
            start: 7,
            end: 8
        }
    );
}

#[test]
fn an_error_of_the_grammar_is_passed_on() {
    assert_eq!(
        build_report(&ParseError::User {
            error: "arity too large".to_string(),
        }),
        Report {
            reason: "arity too large".to_string(),
            start: 0,
            end: 0
        }
    );
}
