use logpeek::condition::Condition;
use logpeek::config::Config;
use logpeek::error::Error;
use logpeek::interface::Opts;
use logpeek::matcher::Matcher;
use logpeek::matcher::MatcherKind;
use logpeek::matcher::ReMatcher;
use logpeek::matchresult::BasicMatchResult;
use logpeek::matchresult::MatchResult;

fn simple_condition(pattern: &str, message: &str) -> Condition {
    Condition::new(
        Matcher::new(
            MatcherKind::Re(ReMatcher::new(pattern)),
            vec![],
            vec![],
            false,
        ),
        MatchResult::Basic(BasicMatchResult::new(message)),
        false,
        None,
    )
}

#[test]
fn it_should_run_all_conditions() {
    let config = Config::new(vec![
        simple_condition("test", "Then Result 1!"),
        simple_condition("test", "Then Result 2!"),
        simple_condition("warning", "Then Result 3!"),
    ]);

    assert_eq!(
        &config.check("test: Message", None).unwrap(),
        "Then Result 1!\nThen Result 2!\n"
    );
}

#[test]
fn empty_outputs_contribute_no_line() {
    let config = Config::new(vec![
        simple_condition("test", ""),
        simple_condition("test", "Something"),
    ]);

    assert_eq!(&config.check("test: Message", None).unwrap(), "Something\n");
}

#[test]
fn no_match_yields_empty_output() {
    let config = Config::new(vec![simple_condition("warning", "Then Result!")]);

    assert_eq!(&config.check("test: Message", None).unwrap(), "");
}

#[test]
fn config_propagates_the_first_error() {
    let config = Config::new(vec![
        simple_condition("warning", "ok"),
        simple_condition("(", "broken"),
    ]);

    assert!(matches!(
        config.check("test: Message", None),
        Err(Error::RegexError(_))
    ));
}

#[test]
fn error_kinds_map_to_exit_codes() {
    assert_eq!(Error::RegexError(String::from("x")).exit_code(), 65);
    assert_eq!(Error::SerdeJsonError(String::from("x")).exit_code(), 65);
    assert_eq!(Error::MalformedConfig(String::from("x")).exit_code(), 65);
    assert_eq!(Error::IOError(String::from("x")).exit_code(), 74);
}

#[test]
fn primitive_options_build_the_single_rule_config() {
    let opts = Opts {
        input_file: None,
        config_file: None,
        json: None,
        not: false,
        print_input: false,
        print_json: false,
        output: Some(String::from("Then Result!")),
        regex: Some(String::from("test")),
    };
    let config = opts.primitive_config();

    assert_eq!(&config.check("test: Message", None).unwrap(), "Then Result!\n");
    assert_eq!(&config.check("warning: Message", None).unwrap(), "");
}

#[test]
fn primitive_options_respect_negation_and_echo() {
    let opts = Opts {
        input_file: None,
        config_file: None,
        json: None,
        not: true,
        print_input: true,
        print_json: false,
        output: Some(String::from("saw {}")),
        regex: Some(String::from("test")),
    };
    let config = opts.primitive_config();

    assert_eq!(&config.check("warning: Message", None).unwrap(), "saw warning: Message\n");
    assert_eq!(&config.check("test: Message", None).unwrap(), "");
}
