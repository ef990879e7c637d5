use lumiknit_cli_edc::jex::args::{parse_jex_args, JexEnd, TemplateSource};
use lumiknit_cli_edc::jex::template::Mode;
use lumiknit_cli_edc::jflat::args::{parse_jflat_args, JflatCommand};
use lumiknit_cli_edc::jflat::doc::Fmt;
use lumiknit_cli_edc::llm::args::{parse_llm_args, LlmAction};
use lumiknit_cli_edc::md::args::{parse_md_args, MdCommand};
use lumiknit_cli_edc::ww::{parse_ww_args, temp_suffix};

fn argv(xs: &[&str]) -> Vec<String> {
    xs.iter().map(|s| s.to_string()).collect()
}

#[test]
fn jflat_args_defaults() {
    match parse_jflat_args(&argv(&[])) {
        JflatCommand::Run(a) => {
            assert_eq!(a.force_fmt, None);
            assert!(a.sort);
            assert_eq!(a.sep, "\t");
            assert_eq!(a.unflatten, None);
        }
        _ => panic!("expected run"),
    }
}

#[test]
fn jflat_args_all_options() {
    match parse_jflat_args(&argv(&["-nosort", "-sep", ",", "-f", "yml", "-u", "toml"])) {
        JflatCommand::Run(a) => {
            assert_eq!(a.force_fmt, Some(Fmt::Yaml));
            assert!(!a.sort);
            assert_eq!(a.sep, ",");
            assert_eq!(a.unflatten, Some(Fmt::Toml));
        }
        _ => panic!("expected run"),
    }
}

#[test]
fn jflat_args_errors_and_stops() {
    let msg = |xs: &[&str]| match parse_jflat_args(&argv(xs)) {
        JflatCommand::Fail(m) => m,
        _ => panic!("expected failure"),
    };
    assert_eq!(msg(&["-sep"]), "-sep requires a value");
    assert_eq!(msg(&["-f"]), "-f requires a format");
    assert_eq!(msg(&["-u"]), "-u requires a format");
    assert_eq!(msg(&["-f", "xml"]), "unknown format: xml");
    assert_eq!(msg(&["-x"]), "unknown argument: -x");
    assert!(matches!(parse_jflat_args(&argv(&["-h", "-x"])), JflatCommand::Help));
    assert!(matches!(parse_jflat_args(&argv(&["-nosort", "-v"])), JflatCommand::Version));
    assert!(matches!(parse_jflat_args(&argv(&["-x", "-h"])), JflatCommand::Fail(_)));
}

#[test]
fn jex_args_modes_apply_to_next_template() {
    let a = parse_jex_args(&argv(&["-g", "-a", "t.json", "-1", "-e", "{}", "u.json"]));
    assert!(a.global);
    assert!(matches!(a.end, JexEnd::Done));
    assert_eq!(a.sources.len(), 3);
    assert!(matches!(&a.sources[0], (Mode::Always, TemplateSource::File(p)) if p == "t.json"));
    assert!(matches!(&a.sources[1], (Mode::AtLeastOne, TemplateSource::Inline(t)) if t == "{}"));
    assert!(matches!(&a.sources[2], (Mode::AllMatch, TemplateSource::File(p)) if p == "u.json"));
}

#[test]
fn jex_args_endings() {
    let a = parse_jex_args(&argv(&[]));
    match a.end {
        JexEnd::Fail(m) => assert!(m.starts_with("error: at least one template file")),
        _ => panic!("expected failure"),
    }
    let a = parse_jex_args(&argv(&["a.json", "-e"]));
    assert_eq!(a.sources.len(), 1);
    assert!(matches!(a.end, JexEnd::Fail(m) if m == "-e requires a JSON string argument"));
    let a = parse_jex_args(&argv(&["a.json", "-h", "b.json"]));
    assert_eq!(a.sources.len(), 1);
    assert!(matches!(a.end, JexEnd::Help));
    assert!(matches!(parse_jex_args(&argv(&["-v"])).end, JexEnd::Version));
}

#[test]
fn llm_args_values_and_action() {
    let a = parse_llm_args(&argv(&["-D", "-e", "more", "-system", "be brief", "ctx"]));
    assert!(a.dry_run);
    assert_eq!(a.extra.as_deref(), Some("more"));
    assert_eq!(a.system.as_deref(), Some("be brief"));
    assert_eq!(a.prefix.as_deref(), Some("ctx"));
    assert_eq!(a.action(), LlmAction::Chat);
    let a = parse_llm_args(&argv(&["-model", "-init", "-system"]));
    assert_eq!(a.system, None);
    assert_eq!(a.action(), LlmAction::Init);
    assert_eq!(parse_llm_args(&argv(&["-model"])).action(), LlmAction::Models);
    assert_eq!(parse_llm_args(&argv(&["-h", "-v"])).action(), LlmAction::Version);
    assert_eq!(parse_llm_args(&argv(&["-h", "-init"])).action(), LlmAction::Help);
}

#[test]
fn md_args_options() {
    match parse_md_args(&argv(&["-dry", "-p", "out-", "-C", "bat -p", "junk"])) {
        MdCommand::Run(a) => {
            assert!(a.dry);
            assert_eq!(a.prefix, "out-");
            assert_eq!(a.command.as_deref(), Some("bat -p"));
        }
        _ => panic!("expected run"),
    }
    match parse_md_args(&argv(&[])) {
        MdCommand::Run(a) => {
            assert!(!a.dry);
            assert_eq!(a.prefix, ".md-");
            assert_eq!(a.command, None);
        }
        _ => panic!("expected run"),
    }
    assert!(matches!(parse_md_args(&argv(&["-p"])), MdCommand::Fail(m) if m == "-p requires an argument"));
    assert!(matches!(parse_md_args(&argv(&["-C"])), MdCommand::Fail(m) if m == "-C requires a command argument"));
    assert!(matches!(parse_md_args(&argv(&["-h"])), MdCommand::Help));
}

#[test]
fn ww_args_first_plain_argument_is_extension() {
    let f = parse_ww_args(&argv(&["-x", "md", "txt"]));
    assert!(!f.help && !f.version);
    assert_eq!(f.ext.as_deref(), Some("md"));
    assert_eq!(temp_suffix(&f.ext), ".md");
    let f = parse_ww_args(&argv(&["-v", "--help"]));
    assert!(f.help && f.version);
    assert_eq!(temp_suffix(&f.ext), "");
}
