//! The command line of `jflat`.
use vstd::prelude::*;
use crate::jflat::doc::{fmt_named, Fmt};
use crate::text::{eq_str, push_str, strs};

verus! {

/// What `jflat` was asked to do: the format forced on the input, whether
/// entries are sorted, the separator, and the format to unflatten into.
pub struct JflatArgs {
    pub force_fmt: Option<Fmt>,
    pub sort: bool,
    pub sep: String,
    pub unflatten: Option<Fmt>,
}

pub struct JflatArgsV {
    pub force_fmt: Option<Fmt>,
    pub sort: bool,
    pub sep: Seq<char>,
    pub unflatten: Option<Fmt>,
}

/// The outcome of reading the command line: print the help or the
/// version, run, or stop with a message.
pub enum JflatCommand {
    Help,
    Version,
    Run(JflatArgs),
    Fail(String),
}

pub enum JflatCommandV {
    Help,
    Version,
    Run(JflatArgsV),
    Fail(Seq<char>),
}

pub open spec fn jflat_args_view(a: JflatArgs) -> JflatArgsV {
    JflatArgsV { force_fmt: a.force_fmt, sort: a.sort, sep: a.sep@, unflatten: a.unflatten }
}

pub open spec fn jflat_command_view(c: JflatCommand) -> JflatCommandV {
    match c {
        JflatCommand::Help => JflatCommandV::Help,
        JflatCommand::Version => JflatCommandV::Version,
        JflatCommand::Run(a) => JflatCommandV::Run(jflat_args_view(a)),
        JflatCommand::Fail(m) => JflatCommandV::Fail(m@),
    }
}

/// Sorted output, tab-separated, nothing forced, flattening.
pub open spec fn jflat_defaults() -> JflatArgsV {
    JflatArgsV { force_fmt: None, sort: true, sep: "\t"@, unflatten: None }
}

/// Reads the arguments from the first on, starting from `st`: `-h` or
/// `--help` and `-v` stop at once; `-nosort`; `-sep SEP`; `-f FMT` forces
/// the input format and `-u FMT` unflattens into a format; anything else,
/// a missing value or an unknown format is an error.
pub open spec fn jflat_args_spec(args: Seq<Seq<char>>, st: JflatArgsV) -> JflatCommandV
    decreases args.len(),
{
    if args.len() == 0 {
        JflatCommandV::Run(st)
    } else {
        let a = args[0];
        if a == "-h"@ || a == "--help"@ {
            JflatCommandV::Help
        } else if a == "-v"@ {
            JflatCommandV::Version
        } else if a == "-nosort"@ {
            jflat_args_spec(args.drop_first(), JflatArgsV { sort: false, ..st })
        } else if a == "-sep"@ {
            if args.len() < 2 {
                JflatCommandV::Fail("-sep requires a value"@)
            } else {
                jflat_args_spec(args.skip(2), JflatArgsV { sep: args[1], ..st })
            }
        } else if a == "-f"@ || a == "-u"@ {
            if args.len() < 2 {
                JflatCommandV::Fail(
                    if a == "-f"@ {
                        "-f requires a format"@
                    } else {
                        "-u requires a format"@
                    },
                )
            } else {
                match fmt_named(args[1]) {
                    None => JflatCommandV::Fail("unknown format: "@ + args[1]),
                    Some(f) => jflat_args_spec(
                        args.skip(2),
                        if a == "-f"@ {
                            JflatArgsV { force_fmt: Some(f), ..st }
                        } else {
                            JflatArgsV { unflatten: Some(f), ..st }
                        },
                    ),
                }
            }
        } else {
            JflatCommandV::Fail("unknown argument: "@ + a)
        }
    }
}

/// The text `a` followed by `b`.
fn joined(a: &str, b: &str) -> (r: String)
    ensures
        r@ == a@ + b@,
{
    let mut r = String::new();
    push_str(&mut r, a);
    push_str(&mut r, b);
    r
}

/// Reads `jflat`'s arguments (the program name left out), as
/// `jflat_args_spec` says from the defaults.
pub fn parse_jflat_args(argv: &Vec<String>) -> (r: JflatCommand)
    ensures
        jflat_command_view(r) == jflat_args_spec(strs(argv@), jflat_defaults()),
{
    let ghost all = strs(argv@);
    let mut force_fmt: Option<Fmt> = None;
    let mut sort = true;
    let mut sep = "\t".to_string();
    let mut unflatten: Option<Fmt> = None;
    let mut i: usize = 0;
    assert(all.skip(0) =~= all);
    while i < argv.len()
        invariant
            i <= argv@.len(),
            all == strs(argv@),
            jflat_args_spec(
                all.skip(i as int),
                JflatArgsV { force_fmt, sort, sep: sep@, unflatten },
            ) == jflat_args_spec(all, jflat_defaults()),
        decreases argv@.len() - i,
    {
        let ghost rest = all.skip(i as int);
        let a = argv[i].as_str();
        assert(rest[0] == a@);
        assert(rest.drop_first() =~= all.skip(i + 1));
        if eq_str(a, "-h") || eq_str(a, "--help") {
            return JflatCommand::Help;
        } else if eq_str(a, "-v") {
            return JflatCommand::Version;
        } else if eq_str(a, "-nosort") {
            sort = false;
            i = i + 1;
        } else if eq_str(a, "-sep") {
            if i + 1 >= argv.len() {
                return JflatCommand::Fail("-sep requires a value".to_string());
            }
            assert(rest[1] == argv@[i + 1]@);
            assert(rest.skip(2) =~= all.skip(i + 2));
            sep = argv[i + 1].clone();
            i = i + 2;
        } else if eq_str(a, "-f") || eq_str(a, "-u") {
            let force = eq_str(a, "-f");
            if i + 1 >= argv.len() {
                if force {
                    return JflatCommand::Fail("-f requires a format".to_string());
                } else {
                    return JflatCommand::Fail("-u requires a format".to_string());
                }
            }
            let s = argv[i + 1].as_str();
            assert(rest[1] == s@);
            assert(rest.skip(2) =~= all.skip(i + 2));
            match Fmt::parse(s) {
                None => {
                    return JflatCommand::Fail(joined("unknown format: ", s));
                },
                Some(f) => {
                    if force {
                        force_fmt = Some(f);
                    } else {
                        unflatten = Some(f);
                    }
                },
            }
            i = i + 2;
        } else {
            return JflatCommand::Fail(joined("unknown argument: ", a));
        }
    }
    assert(all.skip(i as int).len() == 0);
    JflatCommand::Run(JflatArgs { force_fmt, sort, sep, unflatten })
}

} // verus!
