use lumiknit_cli_edc::md::block::{is_hr, lang_ext, numbered_filename};
use lumiknit_cli_edc::md::inline::render_inline;
use lumiknit_cli_edc::md::render::{CodePrinter, Renderer};

fn strip_ansi(s: &str) -> String {
    let mut out = String::new();
    let mut chars = s.chars().peekable();
    while let Some(c) = chars.next() {
        if c == '\x1b' && chars.peek() == Some(&'[') {
            chars.next();
            while let Some(&d) = chars.peek() {
                chars.next();
                if d.is_ascii_alphabetic() {
                    break;
                }
            }
        } else {
            out.push(c);
        }
    }
    out
}

fn render_raw(input: &str) -> String {
    let mut out = String::new();
    let mut r = Renderer::new(true, ".md-".to_string(), CodePrinter::Ansi);
    for line in input.lines() {
        r.render_line(line, None, &mut out);
    }
    r.finish(&mut out);
    out
}

fn render_str(input: &str) -> String {
    strip_ansi(&render_raw(input))
}

fn inline(input: &str) -> String {
    let mut out = String::new();
    render_inline(input, &mut out);
    strip_ansi(&out)
}

#[test]
fn inline_plain() {
    assert_eq!(inline("hello world"), "hello world");
}

#[test]
fn inline_bold() {
    let s = inline("**bold**");
    assert!(s.contains("bold"), "got: {s}");
}

#[test]
fn inline_italic() {
    let s = inline("_italic_");
    assert!(s.contains("italic"), "got: {s}");
}

#[test]
fn inline_code() {
    let s = inline("`code`");
    assert!(s.contains("code"), "got: {s}");
}

#[test]
fn inline_strikethrough() {
    let s = inline("~~strike~~");
    assert!(s.contains("strike"), "got: {s}");
}

#[test]
fn inline_link() {
    let s = inline("[text](https://example.com)");
    assert!(s.contains("[text](https://example.com)"), "got: {s}");
}

#[test]
fn inline_not_a_link_missing_url() {
    let s = inline("[foo]");
    assert!(s.contains("[foo]"), "got: {s}");
}

#[test]
fn heading_h1() {
    let s = render_str("# Title");
    assert!(s.contains("# Title"), "got: {s}");
}

#[test]
fn heading_h3() {
    let s = render_str("### Sub");
    assert!(s.contains("### Sub"), "got: {s}");
}

#[test]
fn unordered_list() {
    let s = render_str("- item one\n- item two");
    assert!(s.contains("item one"), "got: {s}");
    assert!(s.contains("item two"), "got: {s}");
}

#[test]
fn ordered_list() {
    let s = render_str("1. first\n2. second");
    assert!(s.contains("first"), "got: {s}");
    assert!(s.contains("second"), "got: {s}");
}

#[test]
fn blockquote() {
    let s = render_str("> quoted");
    assert!(s.contains(">"), "got: {s}");
    assert!(s.contains("quoted"), "got: {s}");
}

#[test]
fn horizontal_rule() {
    let s = render_str("---");
    assert!(s.contains("---"), "got: {s}");
}

#[test]
fn code_block_dry() {
    let input = "```rust\nfn main() {}\n```";
    let s = render_str(input);
    assert!(s.contains("rust"), "got: {s}");
    assert!(s.contains("fn main() {}"), "got: {s}");
}

#[test]
fn paragraph_wrapping() {
    // Two consecutive lines without blank line are joined with a space
    let s = render_str("line one\nline two");
    assert!(s.contains("line one"), "got: {s}");
    assert!(s.contains("line two"), "got: {s}");
}

#[test]
fn blank_line_separates_paragraphs() {
    let s = render_str("para one\n\npara two");
    assert!(s.contains("para one"), "got: {s}");
    assert!(s.contains("para two"), "got: {s}");
}

#[test]
fn hr_dashes() {
    assert!(is_hr("---"));
}
#[test]
fn hr_stars() {
    assert!(is_hr("***"));
}
#[test]
fn hr_underscores() {
    assert!(is_hr("___"));
}
#[test]
fn hr_with_spaces() {
    assert!(is_hr("- - -"));
}
#[test]
fn hr_too_short() {
    assert!(!is_hr("--"));
}
#[test]
fn hr_mixed_chars() {
    assert!(!is_hr("-_-"));
}

// ---- exact outputs ----

#[test]
fn inline_exact_codes() {
    let mut out = String::new();
    render_inline("a **b** `c`", &mut out);
    assert_eq!(out, "a \x1b[0m\x1b[1mb\x1b[0m \x1b[0m\x1b[32mc\x1b[0m");
}

#[test]
fn inline_link_without_close_paren_drops_rest() {
    assert_eq!(inline("[t](http://x"), "[t]");
}

#[test]
fn inline_bracket_without_close_is_verbatim() {
    assert_eq!(inline("a [b c"), "a [b c");
}

#[test]
fn paragraph_lines_are_joined_with_a_space() {
    assert_eq!(render_str("line one\nline two"), "line one line two\n");
    assert_eq!(render_str("a\nb\n\nc"), "a b\n\nc\n");
}

#[test]
fn paragraph_line_continues_without_newline() {
    let mut out = String::new();
    let mut r = Renderer::new(true, ".md-".to_string(), CodePrinter::Ansi);
    r.render_line("line one", None, &mut out);
    r.render_line("line two", None, &mut out);
    assert_eq!(out, "line one line two");
    assert!(r.needs_newline);
    r.finish(&mut out);
    assert_eq!(out, "line one line two\n");
}

#[test]
fn blocks_of_different_kinds_get_blank_line() {
    assert_eq!(render_str("# T\npara"), "# T\n\npara\n");
}

#[test]
fn code_block_dry_exact() {
    let s = render_str("```rust\nfn main() {}\n```");
    assert_eq!(s, "```rust  .md-???.rs\nfn main() {}\n```\n");
}

#[test]
fn code_block_saved_when_not_dry() {
    let mut r = Renderer::new(false, "p-".to_string(), CodePrinter::Ansi);
    let mut out = String::new();
    assert_eq!(r.opens_block("```py"), Some("py"));
    r.render_line("```py", Some("p-001.py".to_string()), &mut out);
    r.render_line("print(1)", None, &mut out);
    let end = r.render_line("```", None, &mut out);
    assert!(end.code.is_none());
    assert_eq!(end.save, Some(("p-001.py".to_string(), "print(1)\n".to_string())));
}

#[test]
fn external_printer_gets_code() {
    let mut r = Renderer::new(true, "p-".to_string(), CodePrinter::from_cmd("bat  --plain"));
    let mut out = String::new();
    r.render_line("~~~sh", None, &mut out);
    r.render_line("ls", None, &mut out);
    let end = r.render_line("~~~", None, &mut out);
    assert_eq!(end.code, Some(("sh".to_string(), "ls\n".to_string())));
    assert!(end.save.is_none());
}

#[test]
fn from_cmd_splits_words() {
    match CodePrinter::from_cmd("  bat --theme=Nord ") {
        CodePrinter::External(v) => assert_eq!(v, vec!["bat".to_string(), "--theme=Nord".to_string()]),
        CodePrinter::Ansi => panic!("expected external"),
    }
}

#[test]
fn lang_ext_table() {
    assert_eq!(lang_ext("Rust"), "rs");
    assert_eq!(lang_ext("C++"), "cpp");
    assert_eq!(lang_ext("yml"), "yaml");
    assert_eq!(lang_ext("unknown"), "txt");
    assert_eq!(lang_ext(""), "txt");
    for l in ["Rust", "PY", "c#", "Shell", "zsh", "TXT", "unknown", "YAML"] {
        assert_eq!(lang_ext(l), lang_ext(&l.to_ascii_lowercase()));
        assert_eq!(lang_ext(lang_ext(l)), lang_ext(l));
    }
}

#[test]
fn numbered_filenames() {
    assert_eq!(numbered_filename(".md-", 1, "py"), ".md-001.py");
    assert_eq!(numbered_filename("x", 1234, "rs"), "x1234.rs");
}

#[test]
fn printer_command_adds_language_and_stdin() {
    let p = CodePrinter::from_cmd("bat --theme=Nord");
    let (prog, args) = p.command("rust").expect("external printer");
    assert_eq!(prog, "bat");
    assert_eq!(args, vec!["--theme=Nord", "--language=rust", "-"]);
    let (prog, args) = p.command("").expect("external printer");
    assert_eq!(prog, "bat");
    assert_eq!(args, vec!["--theme=Nord", "-"]);
    assert!(CodePrinter::Ansi.command("rust").is_none());
    assert!(CodePrinter::from_cmd("   ").command("rust").is_none());
}

#[test]
fn auto_detect_picks_bat_when_found() {
    match CodePrinter::auto_detect(true) {
        CodePrinter::External(v) => assert_eq!(
            v,
            vec!["bat", "--pager=never", "--color=always", "--style=plain", "--theme=ansi"]
        ),
        _ => panic!("expected bat"),
    }
    assert!(matches!(CodePrinter::auto_detect(false), CodePrinter::Ansi));
}

#[test]
fn code_span_keeps_markup_literal() {
    for s in ["*a* _b_ ~~c~~ [d](e)", "", "**x**"] {
        let mut out = String::new();
        render_inline(&format!("`{s}`"), &mut out);
        assert_eq!(out, format!("\x1b[0m\x1b[32m{s}\x1b[0m"));
    }
}
