//! The version line the tools print.
use vstd::prelude::*;
use crate::text::push_str;

verus! {

/// The version of this package.
pub const VERSION: &'static str = "0.1.0";

/// `name version - desc`, then the copyright line.
pub open spec fn version_text(name: Seq<char>, desc: Seq<char>) -> Seq<char> {
    name + " "@ + VERSION@ + " - "@ + desc + "\nCopyright 2026 lumiknit<aasr4r4@gmail.com>"@
}

/// The text `-v` prints (see `version_text`).
pub fn version_description(name: &str, desc: &str) -> (r: String)
    ensures
        r@ == version_text(name@, desc@),
{
    let mut r = String::new();
    push_str(&mut r, name);
    push_str(&mut r, " ");
    push_str(&mut r, VERSION);
    push_str(&mut r, " - ");
    push_str(&mut r, desc);
    push_str(&mut r, "\nCopyright 2026 lumiknit<aasr4r4@gmail.com>");
    assert(r@ =~= version_text(name@, desc@));
    r
}

} // verus!
