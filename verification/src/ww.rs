//! The command line of `ww`, and the name of its scratch file.
use vstd::prelude::*;
use crate::llm::args::opt_view;
use crate::text::{eq_str, push_str, strs};

verus! {

/// `ww`'s flags and the extension of its scratch file.
pub struct WwFlags {
    pub help: bool,
    pub version: bool,
    pub ext: Option<String>,
}

pub struct WwFlagsV {
    pub help: bool,
    pub version: bool,
    pub ext: Option<Seq<char>>,
}

pub open spec fn ww_flags_view(f: WwFlags) -> WwFlagsV {
    WwFlagsV { help: f.help, version: f.version, ext: opt_view(f.ext) }
}

/// Reads the arguments from the first on: `-h`/`--help` and `-v` set their
/// flags; the first argument that does not start with `-` is the
/// extension; other arguments are ignored.
pub open spec fn ww_flags_spec(args: Seq<Seq<char>>, st: WwFlagsV) -> WwFlagsV
    decreases args.len(),
{
    if args.len() == 0 {
        st
    } else {
        let a = args[0];
        let next = if a == "-h"@ || a == "--help"@ {
            WwFlagsV { help: true, ..st }
        } else if a == "-v"@ {
            WwFlagsV { version: true, ..st }
        } else if !(a.len() > 0 && a[0] == '-') && st.ext is None {
            WwFlagsV { ext: Some(a), ..st }
        } else {
            st
        };
        ww_flags_spec(args.drop_first(), next)
    }
}

/// Reads `ww`'s arguments (the program name left out), as `ww_flags_spec`
/// says from no flags and no extension.
pub fn parse_ww_args(argv: &Vec<String>) -> (r: WwFlags)
    ensures
        ww_flags_view(r) == ww_flags_spec(
            strs(argv@),
            WwFlagsV { help: false, version: false, ext: None },
        ),
{
    let ghost all = strs(argv@);
    let mut f = WwFlags { help: false, version: false, ext: None };
    let mut i: usize = 0;
    assert(all.skip(0) =~= all);
    while i < argv.len()
        invariant
            i <= argv@.len(),
            all == strs(argv@),
            ww_flags_spec(all.skip(i as int), ww_flags_view(f)) == ww_flags_spec(
                all,
                WwFlagsV { help: false, version: false, ext: None },
            ),
        decreases argv@.len() - i,
    {
        let ghost rest = all.skip(i as int);
        let s = argv[i].as_str();
        assert(rest[0] == s@);
        assert(rest.drop_first() =~= all.skip(i + 1));
        if eq_str(s, "-h") || eq_str(s, "--help") {
            f.help = true;
        } else if eq_str(s, "-v") {
            f.version = true;
        } else if !starts_with_dash(s) && f.ext.is_none() {
            f.ext = Some(s.to_string());
        }
        i = i + 1;
    }
    assert(all.skip(i as int).len() == 0);
    f
}

/// Whether `s` starts with `-`.
fn starts_with_dash(s: &str) -> (b: bool)
    ensures
        b == (s@.len() > 0 && s@[0] == '-'),
{
    let v = crate::text::chars_of(s);
    v.len() > 0 && v[0] == '-'
}

/// The suffix of the scratch file: `.EXT`, or nothing without an extension.
pub fn temp_suffix(ext: &Option<String>) -> (r: String)
    ensures
        r@ == match ext {
            Some(e) => seq!['.'] + e@,
            None => Seq::empty(),
        },
{
    let mut r = String::new();
    if let Some(e) = ext {
        crate::text::push_char(&mut r, '.');
        push_str(&mut r, e.as_str());
    }
    r
}

} // verus!
