//! The output side of a rule: what is rendered when a condition matches.

use vstd::prelude::*;

verus! {

/// A response that a condition can render as output when its rule matches.
pub trait MatchResponse: Clone {

}

/// The output produced when a condition is met.
#[derive(Clone)]
pub enum MatchResult {
    Basic(BasicMatchResult),
}

impl MatchResponse for MatchResult {

}

/// The text a match result renders, before any input echo is applied.
pub open spec fn message_of(r: MatchResult) -> Seq<char> {
    match r {
        MatchResult::Basic(b) => b.message@,
    }
}

impl MatchResult {
    /// Renders the result as its bare message text.
    pub fn to_string(&self) -> (s: String)
        ensures
            s@ == message_of(*self),
    {
        match self {
            MatchResult::Basic(res) => res.to_string(),
        }
    }
}

impl Default for MatchResult {
    fn default() -> (r: Self)
        ensures
            message_of(r).len() == 0,
    {
        MatchResult::Basic(BasicMatchResult::default())
    }
}

/// A static output message; `{}` placeholders in it are filled by the
/// owning condition when input echo is enabled.
#[derive(Clone)]
pub struct BasicMatchResult {
    pub message: String,
}

impl BasicMatchResult {
    pub fn new(message: &str) -> (r: Self)
        ensures
            r.message@ == message@,
    {
        BasicMatchResult { message: message.to_owned() }
    }

    /// The bare message text.
    pub fn to_string(&self) -> (s: String)
        ensures
            s@ == self.message@,
    {
        self.message.clone()
    }
}

impl Default for BasicMatchResult {
    fn default() -> (r: Self)
        ensures
            r.message@.len() == 0,
    {
        BasicMatchResult { message: String::new() }
    }
}

} // verus!
