//! The if/else-if unit: a rule, the output it renders on a match, and an
//! optional chained fallback condition.

use vstd::prelude::*;
use vstd::string::StrSliceExecFns;
use vstd::string::StringExecFns;
use crate::error::Error;
use crate::matcher::Matcher;
use crate::matcher::eval;
use crate::matchresult::MatchResult;
use crate::matchresult::message_of;

verus! {

/// `template` with every occurrence of the `{}` placeholder replaced by
/// `input`, scanning left to right without overlap.
pub open spec fn replace_spec(template: Seq<char>, input: Seq<char>) -> Seq<char>
    decreases template.len(),
{
    if template.len() >= 2 && template[0] == '{' && template[1] == '}' {
        input + replace_spec(template.skip(2), input)
    } else if template.len() == 0 {
        Seq::<char>::empty()
    } else {
        seq![template[0]] + replace_spec(template.skip(1), input)
    }
}

/// The rendering of a result for one line: the bare message, or the message
/// with every `{}` filled by the line when input echo is on.
pub open spec fn render_of(r: MatchResult, echo: bool, input: Seq<char>) -> Seq<char> {
    if echo {
        replace_spec(message_of(r), input)
    } else {
        message_of(r)
    }
}

/// Relies on String::push: appends one character at the end.
#[verifier::external_body]
pub(crate) fn push_char(s: &mut String, c: char)
    ensures
        final(s)@ == old(s)@.push(c),
{
    s.push(c);
}

/// Replaces every occurrence of the `{}` placeholder in `template` with
/// `input`.
fn replace_placeholders(template: &str, input: &str) -> (out: String)
    ensures
        out@ == replace_spec(template@, input@),
{
    let n = template.unicode_len();
    let mut out = String::new();
    let mut i: usize = 0;
    proof {
        assert(template@.skip(0) =~= template@);
        assert(Seq::<char>::empty() + replace_spec(template@, input@) =~= replace_spec(
            template@,
            input@,
        ));
    }
    while i < n
        invariant
            n == template@.len(),
            i <= n,
            replace_spec(template@, input@) == out@ + replace_spec(
                template@.skip(i as int),
                input@,
            ),
        decreases n - i,
    {
        let ghost prev = out@;
        let ghost rest = template@.skip(i as int);
        let c = template.get_char(i);
        if c == '{' && i + 1 < n && template.get_char(i + 1) == '}' {
            proof {
                assert(rest[0] == '{' && rest[1] == '}');
                assert(rest.skip(2) =~= template@.skip(i + 2));
            }
            out.append(input);
            i = i + 2;
            proof {
                assert(out@ =~= prev + input@);
                assert(prev + (input@ + replace_spec(template@.skip(i as int), input@)) =~= out@
                    + replace_spec(template@.skip(i as int), input@));
            }
        } else {
            proof {
                assert(rest[0] == c);
                assert(rest.len() >= 2 ==> !(rest[0] == '{' && rest[1] == '}'));
                assert(rest.skip(1) =~= template@.skip(i + 1));
            }
            push_char(&mut out, c);
            i = i + 1;
            proof {
                assert(out@ =~= prev + seq![c]);
                assert(prev + (seq![c] + replace_spec(template@.skip(i as int), input@)) =~= out@
                    + replace_spec(template@.skip(i as int), input@));
            }
        }
    }
    proof {
        assert(template@.skip(n as int) =~= Seq::<char>::empty());
        assert(out@ + replace_spec(Seq::<char>::empty(), input@) =~= out@);
    }
    out
}

/// A condition: if its rule matches, its result is rendered; otherwise the
/// chained else-condition, if any, is evaluated in its place. The chain is
/// exclusively owned, so it is a strict list, never shared.
pub struct Condition {
    pub if_match: Matcher,
    pub then_result: MatchResult,
    pub output_input: bool,
    pub else_then: Option<Box<Condition>>,
}

/// The meaning of a condition chain on one line: `None` when evaluation
/// reaches an invalid pattern; otherwise the rendering of the first rule
/// in the chain that matches, or the empty string when every rule fails.
/// Exactly one branch is taken per evaluation.
pub open spec fn cond_eval(c: Condition, input: Seq<char>) -> Option<Seq<char>>
    decreases c,
{
    match eval(c.if_match, input) {
        Option::None => Option::<Seq<char>>::None,
        Option::Some(true) => Option::<Seq<char>>::Some(
            render_of(c.then_result, c.output_input, input),
        ),
        Option::Some(false) => match c.else_then {
            Option::None => Option::<Seq<char>>::Some(Seq::<char>::empty()),
            Option::Some(e) => cond_eval(*e, input),
        },
    }
}

impl Condition {
    /// Builds a condition, boxing the else-branch so that callers never
    /// handle the owned pointer themselves.
    pub fn new(
        if_match: Matcher,
        then_result: MatchResult,
        output_input: bool,
        else_then: Option<Condition>,
    ) -> (c: Self)
        ensures
            c.if_match == if_match,
            c.then_result == then_result,
            c.output_input == output_input,
            else_then is Some <==> c.else_then is Some,
            else_then is Some ==> *c.else_then->0 == else_then->0,
    {
        match else_then {
            Option::Some(e) => Condition {
                if_match,
                then_result,
                output_input,
                else_then: Some(Box::new(e)),
            },
            Option::None => Condition { if_match, then_result, output_input, else_then: None },
        }
    }

    /// Appends this chain's output for `input` to `output`: the rendering
    /// of the first matching rule, or nothing when every rule fails.
    fn exec(&self, input: &str, path: Option<&str>, output: &mut String) -> (r: Result<
        (),
        Error,
    >)
        ensures
            r is Ok <==> cond_eval(*self, input@) is Some,
            r is Ok ==> final(output)@ == old(output)@ + cond_eval(*self, input@)->0,
            r is Err ==> final(output)@ == old(output)@,
            r is Err ==> r->Err_0 is RegexError,
        decreases *self,
    {
        match self.if_match.matches(input) {
            Err(e) => Err(e),
            Ok(true) => {
                let text = self.then_result.to_string();
                if self.output_input {
                    let rendered = replace_placeholders(text.as_str(), input);
                    output.append(rendered.as_str());
                } else {
                    output.append(text.as_str());
                }
                Ok(())
            },
            Ok(false) => {
                match &self.else_then {
                    Option::Some(e) => e.exec(input, path, output),
                    Option::None => {
                        proof {
                            assert(old(output)@ + Seq::<char>::empty() =~= old(output)@);
                        }
                        Ok(())
                    },
                }
            },
        }
    }

    /// The chain's output for one line: the rendering of the first rule
    /// that matches, the empty string when every rule fails, or the first
    /// evaluation error reached. `path` tags the line's source and is kept
    /// for rules scoped by path; the present rules ignore it.
    pub fn check(&self, input: &str, path: Option<&str>) -> (r: Result<String, Error>)
        ensures
            r is Ok <==> cond_eval(*self, input@) is Some,
            r is Ok ==> r->Ok_0@ == cond_eval(*self, input@)->0,
            r is Err ==> r->Err_0 is RegexError,
    {
        let mut output = String::new();
        match self.exec(input, path, &mut output) {
            Ok(()) => {
                proof {
                    assert(Seq::<char>::empty() + cond_eval(*self, input@)->0 =~= cond_eval(
                        *self,
                        input@,
                    )->0);
                }
                Ok(output)
            },
            Err(e) => Err(e),
        }
    }
}

/// The number of conditions in the chain, the head included.
pub open spec fn chain_len(c: Condition) -> nat
    decreases c,
{
    match c.else_then {
        Option::None => 1,
        Option::Some(e) => 1 + chain_len(*e),
    }
}

/// The `k`-th condition of the chain, counting the head as 0.
pub open spec fn chain_at(c: Condition, k: int) -> Condition
    decreases c,
{
    if k <= 0 {
        c
    } else {
        match c.else_then {
            Option::None => c,
            Option::Some(e) => chain_at(*e, k - 1),
        }
    }
}

/// Else-chain law, the hit case: when the first `k` rules of the chain all
/// fail and the rule of link `k` matches, the chain's output is exactly the
/// rendering of link `k`'s result — no other link contributes.
pub proof fn lemma_else_chain_hits(c: Condition, input: Seq<char>, k: int)
    requires
        0 <= k < chain_len(c),
        forall|j: int| 0 <= j < k ==> eval(#[trigger] chain_at(c, j).if_match, input)
            == Some(false),
        eval(chain_at(c, k).if_match, input) == Some(true),
    ensures
        cond_eval(c, input) == Some(
            render_of(chain_at(c, k).then_result, chain_at(c, k).output_input, input),
        ),
    decreases c,
{
    if k == 0 {
        assert(chain_at(c, 0) == c);
    } else {
        assert(chain_at(c, 0) == c);
        assert(eval(c.if_match, input) == Some(false));
        let e = *c.else_then->0;
        assert(chain_at(c, k) == chain_at(e, k - 1));
        assert forall|j: int| 0 <= j < k - 1 implies eval(
            #[trigger] chain_at(e, j).if_match,
            input,
        ) == Some(false) by {
            assert(chain_at(c, j + 1) == chain_at(e, j));
        }
        lemma_else_chain_hits(e, input, k - 1);
    }
}

/// Else-chain law, the miss case: when every rule of the chain fails, the
/// chain's output is the empty string.
pub proof fn lemma_else_chain_misses(c: Condition, input: Seq<char>)
    requires
        forall|j: int| 0 <= j < chain_len(c) ==> eval(
            #[trigger] chain_at(c, j).if_match,
            input,
        ) == Some(false),
    ensures
        cond_eval(c, input) == Some(Seq::<char>::empty()),
    decreases c,
{
    assert(chain_at(c, 0) == c);
    assert(eval(c.if_match, input) == Some(false));
    match c.else_then {
        Option::None => {
        },
        Option::Some(e) => {
            assert forall|j: int| 0 <= j < chain_len(*e) implies eval(
                #[trigger] chain_at(*e, j).if_match,
                input,
            ) == Some(false) by {
                assert(chain_at(c, j + 1) == chain_at(*e, j));
            }
            lemma_else_chain_misses(*e, input);
        },
    }
}

} // verus!
