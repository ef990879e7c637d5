//! Filling JSON templates from text with regular expressions.
pub mod field;
pub mod template;
pub mod args;
