//! The chat client's context and the pieces of its requests.
pub mod context;
pub mod roundtrip;
pub mod request;
pub mod args;
