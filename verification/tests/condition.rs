use logpeek::condition::Condition;
use logpeek::matcher::Matcher;
use logpeek::matcher::MatcherKind;
use logpeek::matcher::ReMatcher;
use logpeek::matchresult::BasicMatchResult;
use logpeek::matchresult::MatchResult;

#[test]
fn it_should_process_if() {
    let cond = Condition::new(
        Matcher::new(
            MatcherKind::Re(ReMatcher::new("test")),
            vec![],
            vec![],
            false,
        ),
        MatchResult::Basic(BasicMatchResult::new("Then Result!")),
        false,
        None,
    );

    assert_eq!(&cond.check("test: Message", None).unwrap(), "Then Result!");
}

#[test]
fn it_should_output_input() {
    let cond = Condition::new(
        Matcher::new(
            MatcherKind::Re(ReMatcher::new("test")),
            vec![],
            vec![],
            false,
        ),
        MatchResult::Basic(BasicMatchResult::new("Then {} Result!")),
        true,
        None,
    );

    assert_eq!(
        &cond.check("test: Message", None).unwrap(),
        "Then test: Message Result!"
    );
}

#[test]
fn it_should_not_process_else_if_none() {
    let cond = Condition::new(
        Matcher::new(
            MatcherKind::Re(ReMatcher::new("warning")),
            vec![],
            vec![],
            false,
        ),
        MatchResult::Basic(BasicMatchResult::new("Then Result!")),
        false,
        None,
    );

    assert_eq!(&cond.check("test: Message", None).unwrap(), "");
}

#[test]
fn it_should_process_else() {
    let cond = Condition::new(
        Matcher::new(
            MatcherKind::Re(ReMatcher::new("warning")),
            vec![],
            vec![],
            false,
        ),
        MatchResult::Basic(BasicMatchResult::new("Then Result!")),
        false,
        Some(Condition::new(
            Matcher::new(
                MatcherKind::Re(ReMatcher::new("test")),
                vec![],
                vec![],
                false,
            ),
            MatchResult::Basic(BasicMatchResult::new("Else Result!")),
            false,
            None,
        )),
    );

    assert_eq!(&cond.check("test: Message", None).unwrap(), "Else Result!");
}

#[test]
fn deep_chain_renders_only_the_matching_link() {
    let third = Condition::new(
        Matcher::new(
            MatcherKind::Re(ReMatcher::new("test")),
            vec![],
            vec![],
            false,
        ),
        MatchResult::Basic(BasicMatchResult::new("Third!")),
        false,
        None,
    );
    let second = Condition::new(
        Matcher::new(
            MatcherKind::Re(ReMatcher::new("error")),
            vec![],
            vec![],
            false,
        ),
        MatchResult::Basic(BasicMatchResult::new("Second!")),
        false,
        Some(third),
    );
    let first = Condition::new(
        Matcher::new(
            MatcherKind::Re(ReMatcher::new("warning")),
            vec![],
            vec![],
            false,
        ),
        MatchResult::Basic(BasicMatchResult::new("First!")),
        false,
        Some(second),
    );

    assert_eq!(&first.check("test: Message", None).unwrap(), "Third!");
}

#[test]
fn deep_chain_with_no_match_renders_nothing() {
    let second = Condition::new(
        Matcher::new(
            MatcherKind::Re(ReMatcher::new("error")),
            vec![],
            vec![],
            false,
        ),
        MatchResult::Basic(BasicMatchResult::new("Second!")),
        false,
        None,
    );
    let first = Condition::new(
        Matcher::new(
            MatcherKind::Re(ReMatcher::new("warning")),
            vec![],
            vec![],
            false,
        ),
        MatchResult::Basic(BasicMatchResult::new("First!")),
        false,
        Some(second),
    );

    assert_eq!(&first.check("test: Message", None).unwrap(), "");
}

#[test]
fn echo_fills_every_placeholder() {
    let cond = Condition::new(
        Matcher::new(MatcherKind::AlwaysTrue, vec![], vec![], false),
        MatchResult::Basic(BasicMatchResult::new("{} and {}")),
        true,
        None,
    );

    assert_eq!(&cond.check("x", None).unwrap(), "x and x");
}
