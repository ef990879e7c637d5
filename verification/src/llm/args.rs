//! The command line of `llm`.
use vstd::prelude::*;
use crate::text::{eq_str, strs};

verus! {

/// The flags and values of `llm`'s command line.
pub struct LlmArgs {
    pub help: bool,
    pub version: bool,
    pub dry_run: bool,
    pub init: bool,
    pub model: bool,
    pub system: Option<String>,
    pub extra: Option<String>,
    pub prefix: Option<String>,
}

pub struct LlmArgsV {
    pub help: bool,
    pub version: bool,
    pub dry_run: bool,
    pub init: bool,
    pub model: bool,
    pub system: Option<Seq<char>>,
    pub extra: Option<Seq<char>>,
    pub prefix: Option<Seq<char>>,
}

pub open spec fn opt_view(o: Option<String>) -> Option<Seq<char>> {
    match o {
        Some(s) => Some(s@),
        None => None,
    }
}

pub open spec fn llm_args_view(a: LlmArgs) -> LlmArgsV {
    LlmArgsV {
        help: a.help,
        version: a.version,
        dry_run: a.dry_run,
        init: a.init,
        model: a.model,
        system: opt_view(a.system),
        extra: opt_view(a.extra),
        prefix: opt_view(a.prefix),
    }
}

pub open spec fn llm_defaults() -> LlmArgsV {
    LlmArgsV {
        help: false,
        version: false,
        dry_run: false,
        init: false,
        model: false,
        system: None,
        extra: None,
        prefix: None,
    }
}

/// Reads the arguments from the first on: `-h`/`--help`, `-v`, `-D`,
/// `-init` and `-model` set their flags; `-system` and `-e` take the next
/// argument (none when there is none); any other argument is the prefix.
/// A later occurrence wins.
pub open spec fn llm_args_spec(args: Seq<Seq<char>>, st: LlmArgsV) -> LlmArgsV
    decreases args.len(),
{
    if args.len() == 0 {
        st
    } else {
        let a = args[0];
        let next = if args.len() >= 2 {
            Some(args[1])
        } else {
            None
        };
        let after = if args.len() >= 2 {
            args.skip(2)
        } else {
            Seq::empty()
        };
        if a == "-h"@ || a == "--help"@ {
            llm_args_spec(args.drop_first(), LlmArgsV { help: true, ..st })
        } else if a == "-v"@ {
            llm_args_spec(args.drop_first(), LlmArgsV { version: true, ..st })
        } else if a == "-D"@ {
            llm_args_spec(args.drop_first(), LlmArgsV { dry_run: true, ..st })
        } else if a == "-init"@ {
            llm_args_spec(args.drop_first(), LlmArgsV { init: true, ..st })
        } else if a == "-model"@ {
            llm_args_spec(args.drop_first(), LlmArgsV { model: true, ..st })
        } else if a == "-system"@ {
            llm_args_spec(after, LlmArgsV { system: next, ..st })
        } else if a == "-e"@ {
            llm_args_spec(after, LlmArgsV { extra: next, ..st })
        } else {
            llm_args_spec(args.drop_first(), LlmArgsV { prefix: Some(a), ..st })
        }
    }
}

/// What `llm` does.
#[derive(Clone, Copy, PartialEq, Eq, Structural, Debug)]
pub enum LlmAction {
    Version,
    Help,
    Init,
    Models,
    Chat,
}

/// Reads `llm`'s arguments (the program name left out), as `llm_args_spec`
/// says from no flags and no values.
pub fn parse_llm_args(argv: &Vec<String>) -> (r: LlmArgs)
    ensures
        llm_args_view(r) == llm_args_spec(strs(argv@), llm_defaults()),
{
    let ghost all = strs(argv@);
    let mut a = LlmArgs {
        help: false,
        version: false,
        dry_run: false,
        init: false,
        model: false,
        system: None,
        extra: None,
        prefix: None,
    };
    let mut i: usize = 0;
    assert(all.skip(0) =~= all);
    while i < argv.len()
        invariant
            i <= argv@.len(),
            all == strs(argv@),
            llm_args_spec(all.skip(i as int), llm_args_view(a)) == llm_args_spec(all, llm_defaults()),
        decreases argv@.len() - i,
    {
        let ghost rest = all.skip(i as int);
        let s = argv[i].as_str();
        assert(rest[0] == s@);
        assert(rest.drop_first() =~= all.skip(i + 1));
        if eq_str(s, "-h") || eq_str(s, "--help") {
            a.help = true;
            i = i + 1;
        } else if eq_str(s, "-v") {
            a.version = true;
            i = i + 1;
        } else if eq_str(s, "-D") {
            a.dry_run = true;
            i = i + 1;
        } else if eq_str(s, "-init") {
            a.init = true;
            i = i + 1;
        } else if eq_str(s, "-model") {
            a.model = true;
            i = i + 1;
        } else if eq_str(s, "-system") || eq_str(s, "-e") {
            let next = if i + 1 < argv.len() {
                assert(rest[1] == argv@[i + 1]@);
                Some(argv[i + 1].clone())
            } else {
                None
            };
            if eq_str(s, "-system") {
                a.system = next;
            } else {
                a.extra = next;
            }
            if i + 1 < argv.len() {
                assert(rest.skip(2) =~= all.skip(i + 2));
                i = i + 2;
            } else {
                assert(all.skip(i + 1) =~= Seq::<Seq<char>>::empty());
                i = i + 1;
            }
        } else {
            a.prefix = Some(s.to_string());
            i = i + 1;
        }
    }
    assert(all.skip(i as int).len() == 0);
    a
}

impl LlmArgs {
    /// What to do: the version wins over the help, the help over `-init`,
    /// `-init` over `-model`; chatting is the default.
    pub fn action(&self) -> (r: LlmAction)
        ensures
            r == (if self.version {
                LlmAction::Version
            } else if self.help {
                LlmAction::Help
            } else if self.init {
                LlmAction::Init
            } else if self.model {
                LlmAction::Models
            } else {
                LlmAction::Chat
            }),
    {
        if self.version {
            LlmAction::Version
        } else if self.help {
            LlmAction::Help
        } else if self.init {
            LlmAction::Init
        } else if self.model {
            LlmAction::Models
        } else {
            LlmAction::Chat
        }
    }
}

} // verus!
