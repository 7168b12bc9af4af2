//! A Markdown linter: each rule walks the document tree that comrak parses a
//! text into and reports where the text breaks the rule.
pub mod document;
pub mod markdown;
pub mod rule;
pub mod text;
pub mod violation;
