//! Flattening structured documents into `path <sep> type <sep> value` lines,
//! and building them back.
pub mod path;
pub mod line;
pub mod env;
pub mod doc;
pub mod order;
pub mod unflat;
pub mod rebuild;
pub mod roundtrip;
pub mod args;
pub mod times;
pub mod norm;
