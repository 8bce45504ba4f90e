use logpeek::matchresult::BasicMatchResult;
use logpeek::matchresult::MatchResult;

#[test]
fn it_should_convert_results_to_string() {
    let res = MatchResult::Basic(BasicMatchResult::new("message!"));

    assert_eq!(&res.to_string(), "message!");
}
