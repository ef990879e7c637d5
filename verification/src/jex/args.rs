//! The command line of `jex`.
use vstd::prelude::*;
use crate::jex::template::Mode;
use crate::text::{eq_str, strs};

verus! {

/// Where a template comes from: the text of an `-e` argument, or a file.
pub enum TemplateSource {
    Inline(String),
    File(String),
}

pub enum TemplateSourceV {
    Inline(Seq<char>),
    File(Seq<char>),
}

/// How reading the command line ended: at `-h`/`--help`, at `-v`, at an
/// error, or at its end.
pub enum JexEnd {
    Help,
    Version,
    Fail(String),
    Done,
}

pub enum JexEndV {
    Help,
    Version,
    Fail(Seq<char>),
    Done,
}

/// The templates named before reading stopped, each with the mode that
/// the flag before it set; whether the input is read whole (`-g`); and how
/// reading ended. The templates are loaded in order before the end is
/// acted on.
pub struct JexArgs {
    pub global: bool,
    pub sources: Vec<(Mode, TemplateSource)>,
    pub end: JexEnd,
}

pub struct JexArgsV {
    pub global: bool,
    pub sources: Seq<(Mode, TemplateSourceV)>,
    pub end: JexEndV,
}

pub open spec fn source_view(s: TemplateSource) -> TemplateSourceV {
    match s {
        TemplateSource::Inline(t) => TemplateSourceV::Inline(t@),
        TemplateSource::File(p) => TemplateSourceV::File(p@),
    }
}

pub open spec fn sources_view(v: Seq<(Mode, TemplateSource)>) -> Seq<(Mode, TemplateSourceV)> {
    v.map_values(|x: (Mode, TemplateSource)| (x.0, source_view(x.1)))
}

pub open spec fn end_view(e: JexEnd) -> JexEndV {
    match e {
        JexEnd::Help => JexEndV::Help,
        JexEnd::Version => JexEndV::Version,
        JexEnd::Fail(m) => JexEndV::Fail(m@),
        JexEnd::Done => JexEndV::Done,
    }
}

pub open spec fn jex_args_view(a: JexArgs) -> JexArgsV {
    JexArgsV { global: a.global, sources: sources_view(a.sources@), end: end_view(a.end) }
}

/// The message for a command line that names no template.
pub open spec fn no_template_message() -> Seq<char> {
    "error: at least one template file or -e <json> required\nusage: jex [options] ( [-a|-1] <file.json> | [-a|-1] -e '<json>' )+"@
}

/// Reads the arguments from the first on: `-h`/`--help` and `-v` stop;
/// `-g` reads the input whole; `-a` and `-1` set the mode of the next
/// template (which then goes back to all-match); `-e TEXT` is an inline
/// template and any other argument a template file. At the end, no
/// template at all is an error.
pub open spec fn jex_args_spec(
    args: Seq<Seq<char>>,
    global: bool,
    pending: Mode,
    sources: Seq<(Mode, TemplateSourceV)>,
) -> JexArgsV
    decreases args.len(),
{
    if args.len() == 0 {
        JexArgsV {
            global,
            sources,
            end: if sources.len() == 0 {
                JexEndV::Fail(no_template_message())
            } else {
                JexEndV::Done
            },
        }
    } else {
        let a = args[0];
        if a == "-h"@ || a == "--help"@ {
            JexArgsV { global, sources, end: JexEndV::Help }
        } else if a == "-v"@ {
            JexArgsV { global, sources, end: JexEndV::Version }
        } else if a == "-g"@ {
            jex_args_spec(args.drop_first(), true, pending, sources)
        } else if a == "-a"@ {
            jex_args_spec(args.drop_first(), global, Mode::Always, sources)
        } else if a == "-1"@ {
            jex_args_spec(args.drop_first(), global, Mode::AtLeastOne, sources)
        } else if a == "-e"@ {
            if args.len() < 2 {
                JexArgsV {
                    global,
                    sources,
                    end: JexEndV::Fail("-e requires a JSON string argument"@),
                }
            } else {
                jex_args_spec(
                    args.skip(2),
                    global,
                    Mode::AllMatch,
                    sources.push((pending, TemplateSourceV::Inline(args[1]))),
                )
            }
        } else {
            jex_args_spec(
                args.drop_first(),
                global,
                Mode::AllMatch,
                sources.push((pending, TemplateSourceV::File(a))),
            )
        }
    }
}

/// Reads `jex`'s arguments (the program name left out), as `jex_args_spec`
/// says from line-by-line input, all-match mode and no template.
pub fn parse_jex_args(argv: &Vec<String>) -> (r: JexArgs)
    ensures
        jex_args_view(r) == jex_args_spec(strs(argv@), false, Mode::AllMatch, Seq::empty()),
{
    let ghost all = strs(argv@);
    let mut global = false;
    let mut pending = Mode::AllMatch;
    let mut sources: Vec<(Mode, TemplateSource)> = Vec::new();
    let mut i: usize = 0;
    assert(all.skip(0) =~= all);
    assert(sources_view(sources@) =~= Seq::<(Mode, TemplateSourceV)>::empty());
    while i < argv.len()
        invariant
            i <= argv@.len(),
            all == strs(argv@),
            jex_args_spec(all.skip(i as int), global, pending, sources_view(sources@)) == jex_args_spec(
                all,
                false,
                Mode::AllMatch,
                Seq::empty(),
            ),
        decreases argv@.len() - i,
    {
        let ghost rest = all.skip(i as int);
        let ghost before = sources_view(sources@);
        let a = argv[i].as_str();
        assert(rest[0] == a@);
        assert(rest.drop_first() =~= all.skip(i + 1));
        if eq_str(a, "-h") || eq_str(a, "--help") {
            return JexArgs { global, sources, end: JexEnd::Help };
        } else if eq_str(a, "-v") {
            return JexArgs { global, sources, end: JexEnd::Version };
        } else if eq_str(a, "-g") {
            global = true;
            i = i + 1;
        } else if eq_str(a, "-a") {
            pending = Mode::Always;
            i = i + 1;
        } else if eq_str(a, "-1") {
            pending = Mode::AtLeastOne;
            i = i + 1;
        } else if eq_str(a, "-e") {
            if i + 1 >= argv.len() {
                let m = "-e requires a JSON string argument".to_string();
                return JexArgs { global, sources, end: JexEnd::Fail(m) };
            }
            let t = argv[i + 1].clone();
            assert(rest[1] == t@);
            assert(rest.skip(2) =~= all.skip(i + 2));
            sources.push((pending, TemplateSource::Inline(t)));
            assert(sources_view(sources@) =~= before.push((pending, TemplateSourceV::Inline(t@))));
            pending = Mode::AllMatch;
            i = i + 2;
        } else {
            let p = a.to_string();
            sources.push((pending, TemplateSource::File(p)));
            assert(sources_view(sources@) =~= before.push((pending, TemplateSourceV::File(a@))));
            pending = Mode::AllMatch;
            i = i + 1;
        }
    }
    assert(all.skip(i as int).len() == 0);
    if sources.len() == 0 {
        let mut m = String::new();
        crate::text::push_str(&mut m, "error: at least one template file or -e <json> required\nusage: jex [options] ( [-a|-1] <file.json> | [-a|-1] -e '<json>' )+");
        JexArgs { global, sources, end: JexEnd::Fail(m) }
    } else {
        JexArgs { global, sources, end: JexEnd::Done }
    }
}

} // verus!
