//! Streaming Markdown to ANSI terminal text.
pub mod inline;
pub mod block;
pub mod render;
pub mod args;
