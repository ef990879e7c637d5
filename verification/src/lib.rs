use vstd::prelude::*;

pub mod text;
pub mod jsonlite;
pub mod jflat;
pub mod md;
pub mod jex;
pub mod llm;
pub mod version;
pub mod editor;
pub mod ww;

verus! {

} // verus!
