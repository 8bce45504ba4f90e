use logpeek::condition::Condition;
use logpeek::config::Config;
use logpeek::error::Error;
use logpeek::matcher::Matcher;
use logpeek::matcher::MatcherKind;
use logpeek::matcher::ReMatcher;
use logpeek::matchresult::BasicMatchResult;
use logpeek::matchresult::MatchResult;

fn sample_config() -> Config {
    let nested_or = Matcher::new(
        MatcherKind::Re(ReMatcher::new("warn(ing)?")),
        vec![],
        vec![],
        false,
    );
    let nested_and = Matcher::new(MatcherKind::AlwaysTrue, vec![], vec![], true);
    let second = Condition::new(
        Matcher::new(MatcherKind::AlwaysFalse, vec![], vec![], false),
        MatchResult::Basic(BasicMatchResult::new("fallback {}")),
        true,
        None,
    );
    let first = Condition::new(
        Matcher::new(
            MatcherKind::Re(ReMatcher::new("quote \" slash \\ tab \t end")),
            vec![nested_or],
            vec![nested_and],
            true,
        ),
        MatchResult::Basic(BasicMatchResult::new("line one\nline two")),
        false,
        Some(second),
    );
    Config::new(vec![first, Condition::new(
        Matcher::new(MatcherKind::AlwaysTrue, vec![], vec![], false),
        MatchResult::Basic(BasicMatchResult::new("always")),
        false,
        None,
    )])
}

#[test]
fn encoding_then_decoding_then_encoding_reproduces_the_document() {
    let config = sample_config();
    let document = config.to_json();
    let decoded = Config::from_json(&document).unwrap();

    assert_eq!(decoded.to_json(), document);
}

#[test]
fn decoded_config_behaves_like_the_original() {
    let config = sample_config();
    let decoded = Config::from_json(&config.to_json()).unwrap();

    for line in ["warning: Message", "test: Message", "quote \" slash \\ tab \t end"] {
        assert_eq!(
            config.check(line, None).unwrap(),
            decoded.check(line, None).unwrap()
        );
    }
}

#[test]
fn the_document_is_valid_json_for_serde() {
    let document = sample_config().to_json();
    let value: Result<serde_json::Value, serde_json::Error> =
        serde_json::from_str(&document);

    assert!(value.is_ok());
}

#[test]
fn a_simple_document_decodes_to_a_working_config() {
    let document = "{\"conditions\":[{\"if_match\":{\"kind\":{\"Re\":{\"expr\":\"test\"}},\"or\":[],\"and\":[],\"not\":false},\"then_result\":{\"Basic\":{\"message\":\"Then Result!\"}},\"output_input\":false,\"else_then\":null}]}";
    let config = Config::from_json(document).unwrap();

    assert_eq!(&config.check("test: Message", None).unwrap(), "Then Result!\n");
    assert_eq!(config.to_json(), document);
}

#[test]
fn a_malformed_document_is_rejected() {
    assert!(matches!(
        Config::from_json("{\"conditions\":[}"),
        Err(Error::MalformedConfig(_))
    ));
    assert!(matches!(
        Config::from_json(""),
        Err(Error::MalformedConfig(_))
    ));
    assert!(matches!(
        Config::from_json("{\"conditions\":[]} trailing"),
        Err(Error::MalformedConfig(_))
    ));
}

#[test]
fn an_empty_config_round_trips() {
    let config = Config::new(vec![]);
    let document = config.to_json();

    assert_eq!(document, "{\"conditions\":[]}");
    let decoded = Config::from_json(&document).unwrap();
    assert_eq!(decoded.to_json(), document);
}

#[test]
fn lists_with_several_siblings_round_trip() {
    let or_one = Matcher::new(MatcherKind::Re(ReMatcher::new("alpha")), vec![], vec![], false);
    let or_two = Matcher::new(MatcherKind::Re(ReMatcher::new("beta")), vec![], vec![], false);
    let and_one = Matcher::new(MatcherKind::AlwaysTrue, vec![], vec![], false);
    let and_two = Matcher::new(MatcherKind::Re(ReMatcher::new("gamma")), vec![], vec![], true);
    let cond = Condition::new(
        Matcher::new(
            MatcherKind::Re(ReMatcher::new("delta")),
            vec![or_one, or_two],
            vec![and_one, and_two],
            false,
        ),
        MatchResult::Basic(BasicMatchResult::new("seen")),
        false,
        None,
    );
    let config = Config::new(vec![cond]);
    let document = config.to_json();
    let decoded = Config::from_json(&document).unwrap();

    assert_eq!(decoded.to_json(), document);
    for line in ["alpha line", "beta and gamma", "delta line", "plain"] {
        assert_eq!(
            config.check(line, None).unwrap(),
            decoded.check(line, None).unwrap()
        );
    }
}
