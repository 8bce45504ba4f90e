use logpeek::matcher::Matcher;
use logpeek::matcher::MatcherKind;
use logpeek::matcher::ReMatcher;
use logpeek::error::Error;

#[test]
fn it_should_match_re() {
    let matcher = ReMatcher::new("test");

    assert!(matcher.matches("test: Message").unwrap());
}

#[test]
fn it_should_not_match_re() {
    let matcher = ReMatcher::new("test");

    assert!(!matcher.matches("warning: Message").unwrap());
}

#[test]
fn it_should_invert_matcher() {
    let matcher = Matcher::new(
        MatcherKind::Re(ReMatcher::new("test")),
        vec![],
        vec![],
        true,
    );
    assert!(!matcher.matches("test: Message").unwrap());
    assert!(matcher.matches("warning: Message").unwrap());
}

#[test]
fn it_should_process_or() {
    let matcher = Matcher::new(
        MatcherKind::Re(ReMatcher::new("test")),
        vec![Matcher::new(
            MatcherKind::Re(ReMatcher::new("warning")),
            vec![],
            vec![],
            false,
        )],
        vec![],
        false,
    );
    assert!(matcher.matches("test: Message").unwrap());
    assert!(matcher.matches("warning: Message").unwrap());
    assert!(!matcher.matches("error: Message").unwrap());
}

#[test]
fn it_should_process_and() {
    let matcher = Matcher::new(
        MatcherKind::Re(ReMatcher::new("test")),
        vec![],
        vec![
            Matcher::new(
                MatcherKind::Re(ReMatcher::new("warning")),
                vec![],
                vec![],
                false,
            ),
            Matcher::new(
                MatcherKind::Re(ReMatcher::new("and")),
                vec![],
                vec![],
                false,
            ),
        ],
        false,
    );
    assert!(!matcher.matches("test: Message").unwrap());
    assert!(!matcher.matches("warning: Message").unwrap());
    assert!(!matcher.matches("error: Message").unwrap());
    assert!(!matcher.matches("test warning: Message").unwrap());
    assert!(matcher.matches("test and warning: Message").unwrap());
}

#[test]
fn it_should_always_be_true() {
    let matcher = Matcher::new(MatcherKind::AlwaysTrue, vec![], vec![], false);

    assert!(matcher.matches("test: Message").unwrap());
}

#[test]
fn it_should_always_be_false() {
    let matcher = Matcher::new(MatcherKind::AlwaysFalse, vec![], vec![], false);

    assert!(!matcher.matches("test: Message").unwrap());
}

#[test]
fn invalid_pattern_is_reported_when_reached() {
    let matcher = ReMatcher::new("(");

    assert!(matches!(
        matcher.matches("test: Message"),
        Err(Error::RegexError(_))
    ));
}

#[test]
fn or_sibling_is_skipped_when_base_is_true() {
    let broken = Matcher::new(MatcherKind::Re(ReMatcher::new("(")), vec![], vec![], false);
    let matcher = Matcher::new(MatcherKind::AlwaysTrue, vec![broken], vec![], false);

    assert!(matcher.matches("test: Message").unwrap());
}

#[test]
fn and_sibling_is_skipped_when_base_is_false() {
    let broken = Matcher::new(MatcherKind::Re(ReMatcher::new("(")), vec![], vec![], false);
    let matcher = Matcher::new(MatcherKind::AlwaysFalse, vec![], vec![broken], false);

    assert!(!matcher.matches("test: Message").unwrap());
}

#[test]
fn or_then_and_passes_combine_in_order() {
    let matcher = Matcher::new(
        MatcherKind::Re(ReMatcher::new("test")),
        vec![Matcher::new(
            MatcherKind::Re(ReMatcher::new("warning")),
            vec![],
            vec![],
            false,
        )],
        vec![Matcher::new(
            MatcherKind::Re(ReMatcher::new("Message")),
            vec![],
            vec![],
            false,
        )],
        false,
    );
    assert!(matcher.matches("warning: Message").unwrap());
    assert!(!matcher.matches("warning only").unwrap());
}

#[test]
fn or_sibling_error_surfaces_when_it_is_reached() {
    let broken = Matcher::new(MatcherKind::Re(ReMatcher::new("(")), vec![], vec![], false);
    let matcher = Matcher::new(MatcherKind::AlwaysFalse, vec![broken], vec![], false);

    assert!(matches!(
        matcher.matches("test: Message"),
        Err(Error::RegexError(_))
    ));
}

#[test]
fn and_sibling_error_surfaces_when_it_is_reached() {
    let broken = Matcher::new(MatcherKind::Re(ReMatcher::new("(")), vec![], vec![], false);
    let matcher = Matcher::new(MatcherKind::AlwaysTrue, vec![], vec![broken], false);

    assert!(matches!(
        matcher.matches("test: Message"),
        Err(Error::RegexError(_))
    ));
}
