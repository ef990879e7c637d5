//! Which editor to open.
use vstd::prelude::*;

verus! {

/// The editor: `$VISUAL`, else `$EDITOR`, else `vi` (the two values given
/// as read from the environment).
pub fn pick_editor(visual: Option<String>, editor: Option<String>) -> (r: String)
    ensures
        r@ == match visual {
            Some(v) => v@,
            None => match editor {
                Some(e) => e@,
                None => "vi"@,
            },
        },
{
    match visual {
        Some(v) => v,
        None => match editor {
            Some(e) => e,
            None => "vi".to_string(),
        },
    }
}

} // verus!
