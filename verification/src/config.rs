//! The ordered collection of conditions, evaluated together per line.

use vstd::prelude::*;
use vstd::string::StringExecFns;
use crate::condition::Condition;
use crate::condition::cond_eval;
use crate::condition::push_char;
use crate::error::Error;

verus! {

/// The aggregated output of the conditions from index `i` on: each
/// condition's output, when non-empty, followed by exactly one newline, in
/// declaration order; `None` as soon as one condition's evaluation fails.
pub open spec fn config_eval_from(conds: Seq<Condition>, input: Seq<char>, i: int) -> Option<
    Seq<char>,
>
    decreases conds.len() - i,
{
    if i < 0 || i >= conds.len() {
        Option::<Seq<char>>::Some(Seq::<char>::empty())
    } else {
        match cond_eval(conds[i], input) {
            Option::None => Option::<Seq<char>>::None,
            Option::Some(o) => match config_eval_from(conds, input, i + 1) {
                Option::None => Option::<Seq<char>>::None,
                Option::Some(rest) => Option::<Seq<char>>::Some(
                    if o.len() == 0 {
                        rest
                    } else {
                        o + seq!['\n'] + rest
                    },
                ),
            },
        }
    }
}

/// The complete derived output of a configuration for one line.
pub open spec fn config_eval(c: Config, input: Seq<char>) -> Option<Seq<char>> {
    config_eval_from(c.conditions@, input, 0)
}

/// All conditions needed for execution, in declaration order. The order is
/// significant: outputs are concatenated in it, and no condition observes
/// another's output.
pub struct Config {
    pub conditions: Vec<Condition>,
}

impl Config {
    pub fn new(conditions: Vec<Condition>) -> (c: Self)
        ensures
            c.conditions == conditions,
    {
        Config { conditions }
    }

    /// Evaluates every condition against the line in declaration order and
    /// concatenates the non-empty outputs, each followed by one newline.
    /// The result is empty exactly when no condition produced output. The
    /// first evaluation error aborts the line and is handed back. `path`
    /// tags the line's source; the present rules ignore it.
    pub fn check(&self, input: &str, path: Option<&str>) -> (r: Result<String, Error>)
        ensures
            r is Ok <==> config_eval(*self, input@) is Some,
            r is Ok ==> r->Ok_0@ == config_eval(*self, input@)->0,
            r is Err ==> r->Err_0 is RegexError,
    {
        let mut output = String::new();
        let mut i: usize = 0;
        while i < self.conditions.len()
            invariant
                i <= self.conditions@.len(),
                match config_eval_from(self.conditions@, input@, i as int) {
                    Option::None => config_eval(*self, input@) is None,
                    Option::Some(rest) => config_eval(*self, input@) == Some(output@ + rest),
                },
            decreases self.conditions@.len() - i,
        {
            let ghost prev = output@;
            match self.conditions[i].check(input, path) {
                Err(e) => {
                    return Err(e);
                },
                Ok(res) => {
                    if !res.as_str().is_empty() {
                        output.append(res.as_str());
                        push_char(&mut output, '\n');
                        proof {
                            assert(output@ =~= prev + (res@ + seq!['\n']));
                        }
                    }
                    i = i + 1;
                    proof {
                        match config_eval_from(self.conditions@, input@, i as int) {
                            Option::None => {
                            },
                            Option::Some(rest) => {
                                if res@.len() == 0 {
                                    assert(output@ + rest =~= prev + rest);
                                } else {
                                    assert(output@ + rest =~= prev + (res@ + seq!['\n']
                                        + rest));
                                }
                            },
                        }
                    }
                },
            }
        }
        proof {
            assert(output@ + Seq::<char>::empty() =~= output@);
        }
        Ok(output)
    }
}

/// The concatenation of the non-empty strings among `outs`, each followed
/// by exactly one newline, in order.
pub open spec fn join_nonempty(outs: Seq<Seq<char>>) -> Seq<char>
    decreases outs.len(),
{
    if outs.len() == 0 {
        Seq::<char>::empty()
    } else if outs[0].len() == 0 {
        join_nonempty(outs.drop_first())
    } else {
        outs[0] + seq!['\n'] + join_nonempty(outs.drop_first())
    }
}

/// Aggregation law: when every condition of the configuration produces an
/// output (possibly empty), the configuration's output is exactly the
/// non-empty ones concatenated in order, each followed by one newline.
pub proof fn lemma_config_aggregation(
    conds: Seq<Condition>,
    input: Seq<char>,
    outs: Seq<Seq<char>>,
)
    requires
        outs.len() == conds.len(),
        forall|i: int| 0 <= i < conds.len() ==> cond_eval(#[trigger] conds[i], input)
            == Some(outs[i]),
    ensures
        config_eval_from(conds, input, 0) == Some(join_nonempty(outs)),
    decreases conds.len(),
{
    if conds.len() == 0 {
    } else {
        let tail = conds.drop_first();
        let touts = outs.drop_first();
        assert forall|i: int| 0 <= i < tail.len() implies cond_eval(#[trigger] tail[i], input)
            == Some(touts[i]) by {
            assert(tail[i] == conds[i + 1]);
            assert(touts[i] == outs[i + 1]);
        }
        lemma_config_aggregation(tail, input, touts);
        lemma_config_eval_shift(conds, input, 1);
        assert(conds.skip(1) =~= tail);
        assert(cond_eval(conds[0], input) == Some(outs[0]));
    }
}

/// Starting the aggregation at index `k` is the same as aggregating the
/// list with its first `k` conditions dropped.
proof fn lemma_config_eval_shift(conds: Seq<Condition>, input: Seq<char>, k: int)
    requires
        0 <= k <= conds.len(),
    ensures
        config_eval_from(conds, input, k) == config_eval_from(conds.skip(k), input, 0),
    decreases conds.len() - k,
{
    let rest = conds.skip(k);
    if k >= conds.len() {
        assert(rest.len() == 0);
    } else {
        assert(rest[0] == conds[k]);
        lemma_config_eval_shift(conds, input, k + 1);
        lemma_config_eval_shift(rest, input, 1);
        assert(conds.skip(k + 1) =~= rest.skip(1));
    }
}

} // verus!
