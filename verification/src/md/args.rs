//! The command line of `md`.
use vstd::prelude::*;
use crate::llm::args::opt_view;
use crate::text::{eq_str, strs};

verus! {

/// What `md` was asked to do: run dry (no files saved), the prefix of the
/// saved files, and the command that prints code blocks (if one is given).
pub struct MdArgs {
    pub dry: bool,
    pub prefix: String,
    pub command: Option<String>,
}

pub struct MdArgsV {
    pub dry: bool,
    pub prefix: Seq<char>,
    pub command: Option<Seq<char>>,
}

/// The outcome of reading the command line.
pub enum MdCommand {
    Help,
    Version,
    Run(MdArgs),
    Fail(String),
}

pub enum MdCommandV {
    Help,
    Version,
    Run(MdArgsV),
    Fail(Seq<char>),
}

pub open spec fn md_command_view(c: MdCommand) -> MdCommandV {
    match c {
        MdCommand::Help => MdCommandV::Help,
        MdCommand::Version => MdCommandV::Version,
        MdCommand::Run(a) => MdCommandV::Run(
            MdArgsV { dry: a.dry, prefix: a.prefix@, command: opt_view(a.command) },
        ),
        MdCommand::Fail(m) => MdCommandV::Fail(m@),
    }
}

/// Reads the arguments from the first on: `-v` and `-h`/`--help` stop at
/// once; `-dry`; `-p PREFIX`; `-C COMMAND`; a missing value is an error;
/// other arguments are ignored.
pub open spec fn md_args_spec(args: Seq<Seq<char>>, st: MdArgsV) -> MdCommandV
    decreases args.len(),
{
    if args.len() == 0 {
        MdCommandV::Run(st)
    } else {
        let a = args[0];
        if a == "-v"@ {
            MdCommandV::Version
        } else if a == "-h"@ || a == "--help"@ {
            MdCommandV::Help
        } else if a == "-dry"@ {
            md_args_spec(args.drop_first(), MdArgsV { dry: true, ..st })
        } else if a == "-p"@ {
            if args.len() < 2 {
                MdCommandV::Fail("-p requires an argument"@)
            } else {
                md_args_spec(args.skip(2), MdArgsV { prefix: args[1], ..st })
            }
        } else if a == "-C"@ {
            if args.len() < 2 {
                MdCommandV::Fail("-C requires a command argument"@)
            } else {
                md_args_spec(args.skip(2), MdArgsV { command: Some(args[1]), ..st })
            }
        } else {
            md_args_spec(args.drop_first(), st)
        }
    }
}

/// Reads `md`'s arguments (the program name left out), as `md_args_spec`
/// says from no dry run, the prefix `.md-` and no command.
pub fn parse_md_args(argv: &Vec<String>) -> (r: MdCommand)
    ensures
        md_command_view(r) == md_args_spec(
            strs(argv@),
            MdArgsV { dry: false, prefix: ".md-"@, command: None },
        ),
{
    let ghost all = strs(argv@);
    let mut dry = false;
    let mut prefix = ".md-".to_string();
    let mut command: Option<String> = None;
    let mut i: usize = 0;
    assert(all.skip(0) =~= all);
    while i < argv.len()
        invariant
            i <= argv@.len(),
            all == strs(argv@),
            md_args_spec(
                all.skip(i as int),
                MdArgsV { dry, prefix: prefix@, command: opt_view(command) },
            ) == md_args_spec(all, MdArgsV { dry: false, prefix: ".md-"@, command: None }),
        decreases argv@.len() - i,
    {
        let ghost rest = all.skip(i as int);
        let a = argv[i].as_str();
        assert(rest[0] == a@);
        assert(rest.drop_first() =~= all.skip(i + 1));
        if eq_str(a, "-v") {
            return MdCommand::Version;
        } else if eq_str(a, "-h") || eq_str(a, "--help") {
            return MdCommand::Help;
        } else if eq_str(a, "-dry") {
            dry = true;
            i = i + 1;
        } else if eq_str(a, "-p") || eq_str(a, "-C") {
            let is_prefix = eq_str(a, "-p");
            if i + 1 >= argv.len() {
                if is_prefix {
                    return MdCommand::Fail("-p requires an argument".to_string());
                } else {
                    return MdCommand::Fail("-C requires a command argument".to_string());
                }
            }
            let v = argv[i + 1].clone();
            assert(rest[1] == v@);
            assert(rest.skip(2) =~= all.skip(i + 2));
            if is_prefix {
                prefix = v;
            } else {
                command = Some(v);
            }
            i = i + 2;
        } else {
            i = i + 1;
        }
    }
    assert(all.skip(i as int).len() == 0);
    MdCommand::Run(MdArgs { dry, prefix, command })
}

} // verus!
