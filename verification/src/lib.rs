//! A line-oriented text classification engine: a serializable tree of
//! regular-expression rules is evaluated against each input line, and the
//! outputs of the rules that match are aggregated into one derived string.

pub mod codec;
pub mod condition;
pub mod config;
pub mod error;
pub mod interface;
pub mod matcher;
pub mod matchresult;

pub use condition::Condition;
pub use config::Config;
pub use error::Error;
pub use interface::Opts;
pub use matcher::Matcher;
pub use matcher::MatcherKind;
pub use matcher::ReMatcher;
pub use matchresult::BasicMatchResult;
pub use matchresult::MatchResponse;
pub use matchresult::MatchResult;
