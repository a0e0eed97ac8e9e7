//! Ownership of repository paths, read from the text of a CODEOWNERS file.
//!
//! [`build_rules`] reads the rules of a file from its text, and [`resolve`]
//! finds the owners of a path under them: those of the last rule whose
//! pattern matches the path.

pub mod chars;
pub mod example;
pub mod glob;
pub mod invocation;
pub mod locate;
pub mod report;
pub mod resolve;
pub mod rules;
pub mod text;

pub use example::Example;
pub use resolve::{resolve, ResolutionResult};
pub use rules::{build_rules, Rule, RuleSet};
