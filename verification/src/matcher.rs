//! The boolean combinator tree: a leaf predicate with OR siblings, AND
//! siblings and a negation flag, evaluated with short-circuiting.

use vstd::prelude::*;
use crate::error::Error;

verus! {

/// Whether `pattern` compiles as a regular expression; names the success of
/// regex::Regex::new, which depends on the pattern alone.
pub uninterp spec fn regex_pattern_ok(pattern: Seq<char>) -> bool;

/// Whether a match for `pattern` occurs anywhere in `input`; names the
/// result of regex::Regex::is_match, which depends on the pattern and the
/// input alone.
pub uninterp spec fn regex_found(pattern: Seq<char>, input: Seq<char>) -> bool;

/// Relies on regex::Regex::new and regex::Regex::is_match: a pattern either
/// compiles or is refused, deterministically in the pattern; a compiled
/// pattern reports whether a match occurs anywhere in the input (unanchored),
/// a function of the pattern and the input alone. A refusal comes back as
/// its message text.
#[verifier::external_body]
fn regex_match(pattern: &str, input: &str) -> (r: Result<bool, String>)
    ensures
        r is Ok <==> regex_pattern_ok(pattern@),
        r is Ok ==> r->Ok_0 == regex_found(pattern@, input@),
{
    match regex::Regex::new(pattern) {
        Ok(re) => Ok(re.is_match(input)),
        Err(e) => Err(format!("{}", e)),
    }
}

/// A regular-expression predicate. The pattern is compiled when the
/// predicate is evaluated, not when it is built, so a malformed pattern
/// surfaces only on a line whose evaluation reaches it.
#[derive(Clone)]
pub struct ReMatcher {
    pub expr: String,
}

impl ReMatcher {
    pub fn new(expr: &str) -> (m: Self)
        ensures
            m.expr@ == expr@,
    {
        ReMatcher { expr: expr.to_owned() }
    }

    /// Whether the pattern is found anywhere in `input`.
    pub fn matches(&self, input: &str) -> (r: Result<bool, Error>)
        ensures
            r is Ok <==> regex_pattern_ok(self.expr@),
            r is Ok ==> r->Ok_0 == regex_found(self.expr@, input@),
            r is Err ==> r->Err_0 is RegexError,
    {
        match regex_match(self.expr.as_str(), input) {
            Ok(b) => Ok(b),
            Err(e) => Err(Error::RegexError(e)),
        }
    }
}

impl Default for ReMatcher {
    fn default() -> (m: Self)
        ensures
            m.expr@.len() == 0,
    {
        ReMatcher { expr: String::new() }
    }
}

/// The leaf predicate of a matcher.
#[derive(Clone)]
pub enum MatcherKind {
    Re(ReMatcher),
    AlwaysTrue,
    AlwaysFalse,
}

/// Whether the leaf predicate can be evaluated without error: a regex leaf
/// needs a pattern that compiles; the constant leaves cannot fail.
pub open spec fn kind_ok(k: MatcherKind) -> bool {
    match k {
        MatcherKind::Re(re) => regex_pattern_ok(re.expr@),
        MatcherKind::AlwaysTrue => true,
        MatcherKind::AlwaysFalse => true,
    }
}

/// The value of the leaf predicate on `input`, when it evaluates at all.
pub open spec fn kind_value(k: MatcherKind, input: Seq<char>) -> bool {
    match k {
        MatcherKind::Re(re) => regex_found(re.expr@, input),
        MatcherKind::AlwaysTrue => true,
        MatcherKind::AlwaysFalse => false,
    }
}

impl MatcherKind {
    /// Whether the leaf predicate holds of `input`.
    pub fn matches(&self, input: &str) -> (r: Result<bool, Error>)
        ensures
            r is Ok <==> kind_ok(*self),
            r is Ok ==> r->Ok_0 == kind_value(*self, input@),
            r is Err ==> r->Err_0 is RegexError,
    {
        match self {
            MatcherKind::Re(re) => re.matches(input),
            MatcherKind::AlwaysTrue => Ok(true),
            MatcherKind::AlwaysFalse => Ok(false),
        }
    }
}

impl Default for MatcherKind {
    fn default() -> (k: Self)
        ensures
            k is AlwaysFalse,
    {
        MatcherKind::AlwaysFalse
    }
}

/// A combinator node: a leaf predicate, an ordered list of OR siblings, an
/// ordered list of AND siblings, and a negation flag for the leaf.
pub struct Matcher {
    pub kind: MatcherKind,
    pub or: Vec<Matcher>,
    pub and: Vec<Matcher>,
    pub not: bool,
}

/// The meaning of a matcher on one input line: `None` when the evaluation
/// reaches an invalid pattern, `Some` of the boolean outcome otherwise.
/// The leaf is evaluated first and XORed with `not`; the OR pass then runs
/// over the OR siblings in order, stopping at the first `true`; its outcome
/// is ANDed against each AND sibling in order, stopping at the first
/// `false`. A sibling the short-circuit skips is never evaluated, so an
/// invalid pattern in it cannot surface.
pub open spec fn eval(m: Matcher, input: Seq<char>) -> Option<bool>
    decreases m, m.or@.len() + m.and@.len() + 1nat,
{
    if !kind_ok(m.kind) {
        Option::<bool>::None
    } else {
        let base = kind_value(m.kind, input) != m.not;
        match eval_or(m, input, 0, base) {
            Option::None => Option::<bool>::None,
            Option::Some(b) => eval_and(m, input, 0, b),
        }
    }
}

/// The OR pass from sibling `i` on, with running result `acc`.
pub open spec fn eval_or(m: Matcher, input: Seq<char>, i: int, acc: bool) -> Option<bool>
    decreases m, m.or@.len() - i,
{
    if acc {
        Option::<bool>::Some(true)
    } else if i < 0 || i >= m.or@.len() {
        Option::<bool>::Some(acc)
    } else {
        match eval(m.or@[i], input) {
            Option::None => Option::<bool>::None,
            Option::Some(b) => eval_or(m, input, i + 1, acc || b),
        }
    }
}

/// The AND pass from sibling `i` on, with running result `acc`.
pub open spec fn eval_and(m: Matcher, input: Seq<char>, i: int, acc: bool) -> Option<bool>
    decreases m, m.and@.len() - i,
{
    if !acc {
        Option::<bool>::Some(false)
    } else if i < 0 || i >= m.and@.len() {
        Option::<bool>::Some(acc)
    } else {
        match eval(m.and@[i], input) {
            Option::None => Option::<bool>::None,
            Option::Some(b) => eval_and(m, input, i + 1, acc && b),
        }
    }
}

impl Matcher {
    pub fn new(kind: MatcherKind, or: Vec<Matcher>, and: Vec<Matcher>, not: bool) -> (m: Self)
        ensures
            m.kind == kind,
            m.or == or,
            m.and == and,
            m.not == not,
    {
        Matcher { kind, or, and, not }
    }

    /// Evaluates the combinator tree against one input line, exactly as
    /// `eval` describes it; the error of the first invalid pattern reached
    /// is handed back unchanged.
    pub fn matches(&self, input: &str) -> (r: Result<bool, Error>)
        ensures
            r is Ok <==> eval(*self, input@) is Some,
            r is Ok ==> eval(*self, input@) == Some(r->Ok_0),
            r is Err ==> r->Err_0 is RegexError,
        decreases *self,
    {
        let base = match self.kind.matches(input) {
            Ok(b) => b,
            Err(e) => {
                return Err(e);
            },
        };
        let mut result = base != self.not;
        let ghost base_r: bool = result;

        let mut i: usize = 0;
        while i < self.or.len() && !result
            invariant
                i <= self.or@.len(),
                kind_ok(self.kind),
                base_r == (kind_value(self.kind, input@) != self.not),
                eval_or(*self, input@, i as int, result) == eval_or(*self, input@, 0, base_r),
            decreases self.or@.len() - i,
        {
            proof {
                assert(decreases_to!(self.or => self.or@));
                assert(decreases_to!(self.or@ => self.or@[i as int]));
            }
            match self.or[i].matches(input) {
                Ok(b) => {
                    result = result || b;
                    i = i + 1;
                },
                Err(e) => {
                    proof {
                        assert(eval_or(*self, input@, 0, base_r) is None);
                        assert(eval(*self, input@) is None);
                    }
                    return Err(e);
                },
            }
        }
        let ghost or_r: bool = result;
        proof {
            assert(eval_or(*self, input@, 0, base_r) == Some(or_r));
        }

        let mut j: usize = 0;
        while j < self.and.len() && result
            invariant
                j <= self.and@.len(),
                kind_ok(self.kind),
                base_r == (kind_value(self.kind, input@) != self.not),
                eval_or(*self, input@, 0, base_r) == Some(or_r),
                eval_and(*self, input@, j as int, result) == eval_and(*self, input@, 0, or_r),
            decreases self.and@.len() - j,
        {
            proof {
                assert(decreases_to!(self.and => self.and@));
                assert(decreases_to!(self.and@ => self.and@[j as int]));
            }
            match self.and[j].matches(input) {
                Ok(b) => {
                    result = result && b;
                    j = j + 1;
                },
                Err(e) => {
                    proof {
                        assert(eval_and(*self, input@, 0, or_r) is None);
                        assert(eval(*self, input@) is None);
                    }
                    return Err(e);
                },
            }
        }
        proof {
            assert(eval_and(*self, input@, 0, or_r) == Some(result));
            assert(eval(*self, input@) == Some(result));
        }
        Ok(result)
    }
}

impl Default for Matcher {
    fn default() -> (m: Self)
        ensures
            m.kind is AlwaysFalse,
            m.or@.len() == 0,
            m.and@.len() == 0,
            !m.not,
    {
        Matcher { kind: MatcherKind::AlwaysFalse, or: Vec::new(), and: Vec::new(), not: false }
    }
}

/// Negation law: a matcher with `not` set and no siblings evaluates to the
/// opposite of its leaf predicate, and fails exactly when the leaf fails.
pub proof fn lemma_negate(m: Matcher, input: Seq<char>)
    requires
        m.not,
        m.or@.len() == 0,
        m.and@.len() == 0,
    ensures
        kind_ok(m.kind) ==> eval(m, input) == Some(!kind_value(m.kind, input)),
        !kind_ok(m.kind) ==> eval(m, input) is None,
{
    if kind_ok(m.kind) {
        let base = kind_value(m.kind, input) != m.not;
        assert(eval_or(m, input, 0, base) == Some(base));
        assert(eval_and(m, input, 0, base) == Some(base));
    }
}

/// OR short-circuit law: when the (possibly negated) leaf is true, no OR
/// sibling is consulted at all — the outcome is decided by the AND pass
/// alone, so an invalid pattern among the OR siblings surfaces no error.
pub proof fn lemma_or_short_circuit(m: Matcher, input: Seq<char>)
    requires
        kind_ok(m.kind),
        kind_value(m.kind, input) != m.not,
    ensures
        eval(m, input) == eval_and(m, input, 0, true),
        m.and@.len() == 0 ==> eval(m, input) == Some(true),
{
    assert(eval_or(m, input, 0, true) == Some(true));
}

/// AND short-circuit law: when the (possibly negated) leaf is false and
/// there is no OR sibling to rescue it, no AND sibling is consulted — the
/// matcher is false, and an invalid pattern among the AND siblings surfaces
/// no error.
pub proof fn lemma_and_short_circuit(m: Matcher, input: Seq<char>)
    requires
        kind_ok(m.kind),
        kind_value(m.kind, input) == m.not,
        m.or@.len() == 0,
    ensures
        eval(m, input) == Some(false),
{
    assert(eval_or(m, input, 0, false) == Some(false));
    assert(eval_and(m, input, 0, false) == Some(false));
}

} // verus!
