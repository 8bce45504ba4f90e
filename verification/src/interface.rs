//! The plain option set a caller hands in, and the single-rule
//! configuration built from its primitive knobs.

use vstd::prelude::*;
use crate::condition::Condition;
use crate::config::Config;
use crate::matcher::Matcher;
use crate::matcher::MatcherKind;
use crate::matcher::ReMatcher;
use crate::matchresult::BasicMatchResult;
use crate::matchresult::MatchResult;
use crate::matchresult::message_of;

verus! {

/// The caller's options as plain values: where the lines come from, how
/// the configuration is built, and whether the active configuration is
/// printed back out.
pub struct Opts {
    /// Read lines from this file instead of the standard input.
    pub input_file: Option<String>,
    /// Load the whole configuration from this file and ignore the
    /// primitive knobs.
    pub config_file: Option<String>,
    /// Decode the whole configuration from this inline document and ignore
    /// the primitive knobs.
    pub json: Option<String>,
    /// Negate the primitive rule.
    pub not: bool,
    /// Echo the input line into `{}` placeholders of the primitive output.
    pub print_input: bool,
    /// Print the active configuration as a structured document.
    pub print_json: bool,
    /// The output template of the primitive rule.
    pub output: Option<String>,
    /// The regular expression of the primitive rule.
    pub regex: Option<String>,
}

/// The text of an optional string, the empty text when it is absent.
pub open spec fn text_or_empty(s: Option<String>) -> Seq<char> {
    match s {
        Option::Some(x) => x@,
        Option::None => Seq::<char>::empty(),
    }
}

impl Opts {
    /// The single-rule configuration the primitive knobs describe: one
    /// condition whose rule is the given pattern (empty when none is
    /// given), negated on demand, with no siblings and no else-chain,
    /// rendering the given output template and echoing the input on
    /// demand.
    pub fn primitive_config(&self) -> (c: Config)
        ensures
            c.conditions@.len() == 1,
            ({
                let cond = c.conditions@[0];
                &&& cond.if_match.kind matches MatcherKind::Re(re) && re.expr@ == text_or_empty(
                    self.regex,
                )
                &&& cond.if_match.or@.len() == 0
                &&& cond.if_match.and@.len() == 0
                &&& cond.if_match.not == self.not
                &&& message_of(cond.then_result) == text_or_empty(self.output)
                &&& cond.output_input == self.print_input
                &&& cond.else_then is None
            }),
    {
        proof {
            reveal_strlit("");
            assert(""@ =~= Seq::<char>::empty());
        }
        let pattern: &str = match &self.regex {
            Option::Some(s) => s.as_str(),
            Option::None => "",
        };
        let template: &str = match &self.output {
            Option::Some(s) => s.as_str(),
            Option::None => "",
        };
        let cond = Condition::new(
            Matcher::new(
                MatcherKind::Re(ReMatcher::new(pattern)),
                Vec::new(),
                Vec::new(),
                self.not,
            ),
            MatchResult::Basic(BasicMatchResult::new(template)),
            self.print_input,
            None,
        );
        let mut conditions: Vec<Condition> = Vec::new();
        conditions.push(cond);
        Config::new(conditions)
    }
}

} // verus!
