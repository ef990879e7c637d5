use lumiknit_cli_edc::jex::field::{parse_field, split_on_slash, unescape_slash, Field};
use lumiknit_cli_edc::jex::template::{compile, parse_template, process, Mode, Rule};
use lumiknit_cli_edc::jflat::doc::Doc;

fn doc_json(d: &Doc) -> serde_json::Value {
    match d {
        Doc::Null => serde_json::Value::Null,
        Doc::Bool(b) => serde_json::Value::Bool(*b),
        Doc::Number(n) => serde_json::from_str(n).expect("number text"),
        Doc::Str(s) | Doc::Time(s) => serde_json::Value::String(s.clone()),
        Doc::Array(a) => serde_json::Value::Array(a.iter().map(doc_json).collect()),
        Doc::Object(m) => serde_json::Value::Object(
            m.iter().map(|(k, x)| (k.clone(), doc_json(x))).collect(),
        ),
    }
}

fn load_template(src: &str) -> Doc {
    parse_template(src).unwrap_or_else(|e| panic!("invalid JSON: {e}\n  {src}"))
}

fn make_rule(json: &str, mode: Mode) -> Rule {
    Rule { mode, compiled: compile(&load_template(json)).ok().expect("compile failed") }
}

fn apply_rule(json: &str, mode: Mode, input: &str) -> Option<String> {
    let rule = make_rule(json, mode);
    rule.apply_and_check(input).map(|v| doc_json(&v).to_string())
}

fn run_process(json: &str, mode: Mode, input: &str) -> String {
    let rules = vec![make_rule(json, mode)];
    process(input, &rules).iter().map(|v| format!("{}\n", doc_json(v))).collect()
}

#[test]
fn literal_plain_string() {
    let f = parse_field("hello").ok().unwrap();
    assert!(matches!(f, Field::Literal(Doc::Str(s)) if s == "hello"));
}

#[test]
fn literal_escaped_slash_prefix() {
    let f = parse_field("//path").ok().unwrap();
    assert!(matches!(f, Field::Literal(Doc::Str(s)) if s == "/path"));
}

#[test]
fn regex_find_match() {
    let out = apply_rule(r#"{"x":"/hello/"}"#, Mode::AllMatch, "say hello world");
    assert_eq!(out, Some(r#"{"x":"hello"}"#.to_string()));
}

#[test]
fn regex_no_match_all_mode() {
    let out = apply_rule(r#"{"x":"/nothere/"}"#, Mode::AllMatch, "something else");
    assert_eq!(out, None);
}

#[test]
fn regex_replace_capture_group() {
    let out = apply_rule(r#"{"v":"/user=(\\w+)/$1/"}"#, Mode::AllMatch, "user=alice");
    assert_eq!(out, Some(r#"{"v":"alice"}"#.to_string()));
}

#[test]
fn mode_always_outputs_even_without_match() {
    let out = apply_rule(r#"{"x":"/nothere/"}"#, Mode::Always, "something else");
    assert!(out.is_some());
    assert!(out.unwrap().contains("null"));
}

#[test]
fn mode_at_least_one_with_one_match() {
    let out = apply_rule(r#"{"a":"/found/","b":"/missing/"}"#, Mode::AtLeastOne, "found it");
    assert!(out.is_some());
}

#[test]
fn mode_at_least_one_none_match() {
    let out = apply_rule(r#"{"a":"/no/","b":"/nope/"}"#, Mode::AtLeastOne, "something else");
    assert_eq!(out, None);
}

#[test]
fn nested_object_template() {
    let out = apply_rule(r#"{"outer":{"inner":"/\\d+/"}}"#, Mode::AllMatch, "code 42");
    assert_eq!(out, Some(r#"{"outer":{"inner":"42"}}"#.to_string()));
}

#[test]
fn array_template() {
    let out = apply_rule(r#"["/\\w+/","/\\d+/"]"#, Mode::AllMatch, "abc 123");
    assert_eq!(out, Some(r#"["abc","123"]"#.to_string()));
}

#[test]
fn process_outputs_one_line_per_match() {
    let rules = vec![
        make_rule(r#"{"n":"/\\d+/"}"#, Mode::AllMatch),
        make_rule(r#"{"w":"/[a-z]+/"}"#, Mode::AllMatch),
    ];
    let s: String =
        process("hello 42", &rules).iter().map(|v| format!("{}\n", doc_json(v))).collect();
    let lines: Vec<&str> = s.lines().collect();
    assert_eq!(lines.len(), 2, "expected 2 output lines, got: {s}");
}

#[test]
fn process_no_match_no_output() {
    let s = run_process(r#"{"x":"/NOTHING/"}"#, Mode::AllMatch, "abc");
    assert!(s.is_empty(), "expected empty output, got: {s}");
}

#[test]
fn fixed_bool_value() {
    let out = apply_rule(r#"{"ok":true}"#, Mode::Always, "anything");
    assert_eq!(out, Some(r#"{"ok":true}"#.to_string()));
}

// ---- more cases ----

#[test]
fn split_on_slash_respects_escapes() {
    assert_eq!(split_on_slash(r"a\/b/c"), (r"a\/b".to_string(), Some("c".to_string())));
    assert_eq!(split_on_slash("abc"), ("abc".to_string(), None));
    assert_eq!(split_on_slash("/x"), ("".to_string(), Some("x".to_string())));
    for s in [r"a\/b/c", r"a\\/b", "abc", r"x\", "/", r"\//\/"] {
        let (a, b) = split_on_slash(s);
        match b {
            None => assert_eq!(a, s),
            Some(b) => assert_eq!(format!("{a}/{b}"), s),
        }
        assert_eq!(split_on_slash(&a).1, None);
    }
}

#[test]
fn unescape_slash_replaces_pairs() {
    assert_eq!(unescape_slash(r"a\/b\/c"), "a/b/c");
    assert_eq!(unescape_slash(r"a\\b"), r"a\\b");
}

#[test]
fn invalid_regex_is_reported() {
    let e = parse_field("/(/").err().unwrap();
    assert!(e.starts_with("invalid regex \"(\": "), "got: {e}");
}

#[test]
fn regex_flags_apply() {
    let out = apply_rule(r#"{"x":"/HELLO/$0/i"}"#, Mode::AllMatch, "say hello");
    assert_eq!(out, Some(r#"{"x":"hello"}"#.to_string()));
}

#[test]
fn at_least_one_without_regex_passes() {
    let out = apply_rule(r#"{"k":1}"#, Mode::AtLeastOne, "x");
    assert_eq!(out, Some(r#"{"k":1}"#.to_string()));
}

#[test]
fn compile_error_in_nested_field() {
    let t = load_template(r#"{"a":["ok","/[/"]}"#);
    assert!(compile(&t).is_err());
}

#[test]
fn empty_replacement_gives_empty_text() {
    let out = apply_rule(r#"{"x":"/HELLO//i"}"#, Mode::AllMatch, "say hello");
    assert_eq!(out, Some(r#"{"x":""}"#.to_string()));
}

#[test]
fn apply_counts_regexes_and_matches() {
    let t = load_template(r#"{"a": "/[0-9]+/", "b": ["/x(y)/$1/", "lit", 3], "c": {"d": "/zzz/"}}"#);
    let c = compile(&t).ok().expect("compile failed");
    let (v, m, n) = c.apply("12 xy");
    assert_eq!((m, n), (2, 3));
    assert_eq!(
        doc_json(&v),
        serde_json::from_str::<serde_json::Value>(r#"{"a": "12", "b": ["y", "lit", 3], "c": {"d": null}}"#).unwrap()
    );
    let (_, m2, n2) = c.apply("nothing here");
    assert_eq!((m2, n2), (0, 3));
}
