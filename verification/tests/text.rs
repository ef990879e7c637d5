use lumiknit_cli_edc::editor::pick_editor;
use lumiknit_cli_edc::jflat::doc::{entry_line, flatten, use_toml, Doc, Fmt};
use lumiknit_cli_edc::jflat::env::{bash_quote, path_to_env_key};
use lumiknit_cli_edc::jflat::line::{lines, split_line};
use lumiknit_cli_edc::jflat::path::{canon_path, fmt_path, needs_quoting, parse_path, Seg};
use lumiknit_cli_edc::jflat::unflat::{do_unflatten, json_to_toml, leaf_to_json, unflatten_checked};
use lumiknit_cli_edc::jsonlite::{quote, quote_readable, unquote};
use lumiknit_cli_edc::version::version_description;

#[test]
fn quote_escapes() {
    assert_eq!(quote("a\"b\\c\n\u{1}é"), "\"a\\\"b\\\\c\\n\\u0001\\u00e9\"");
    assert_eq!(quote_readable("é\t"), "\"é\\t\"");
}

#[test]
fn quote_readable_escapes_every_control_char() {
    assert_eq!(quote_readable("\u{7f}"), "\"\\u007f\"");
    assert_eq!(quote_readable("a\u{85}b\u{9f}"), "\"a\\u0085b\\u009f\"");
    assert_eq!(quote_readable("\u{a0}\u{7e}"), "\"\u{a0}\u{7e}\"");
    assert_eq!(quote("\u{7f}\u{85}"), "\"\u{7f}\\u0085\"");
    assert_eq!(unquote(&quote_readable("x\u{7f}\u{80}y")), "x\u{7f}\u{80}y");
}

#[test]
fn quote_output_is_plain_ascii() {
    for s in ["", "\u{0}\u{1f}\u{7f}", "é\u{1f600}", "\"\\"] {
        let q = quote(s);
        assert!(q.is_ascii() && q.len() >= 2 && q.starts_with('"') && q.ends_with('"'));
        assert!(q.bytes().all(|b| b >= 0x20));
    }
}

#[test]
fn unquote_reverses_quote() {
    for s in ["", "plain", "a\"b", "tab\there", "\u{1f600} emoji", "\\/"] {
        assert_eq!(unquote(&quote(s)), s);
        assert_eq!(unquote(&quote_readable(s)), s);
    }
}

#[test]
fn unquote_surrogate_pair() {
    assert_eq!(unquote("\"\\ud83d\\ude00\""), "\u{1f600}");
}

#[test]
fn path_text_forms() {
    let p = vec![Seg::Key("a".into()), Seg::Idx(12), Seg::Key("".into())];
    assert_eq!(fmt_path(&p, "\t"), ".a[12].\"\"");
    assert!(needs_quoting("x\ty", "\t"));
    assert!(!needs_quoting("xy", "\t"));
    assert_eq!(canon_path(&[Seg::Key("k".into())]), ".k");
    assert_eq!(parse_path("."), Vec::<Seg>::new());
    assert_eq!(parse_path("[x]"), vec![Seg::Idx(0)]);
}

#[test]
fn env_keys_and_quotes() {
    let p = vec![Seg::Key("a b".into()), Seg::Idx(3), Seg::Key("__c__".into())];
    assert_eq!(path_to_env_key(&p), "A_B_3__C");
    assert_eq!(bash_quote("x'y"), "'x'\\''y'");
}

#[test]
fn splitting_lines() {
    assert_eq!(
        split_line(".\"a\tb\"\tstring\t\"v\tw\"", "\t"),
        Some((".\"a\tb\"".to_string(), "string".to_string(), "\"v\tw\"".to_string()))
    );
    assert_eq!(split_line("no separators", "\t"), None);
    assert_eq!(lines("a\r\nb\n\nc"), vec!["a".to_string(), "b".to_string(), "".to_string(), "c".to_string()]);
}

#[test]
fn flatten_exact_entries() {
    let d = Doc::Object(vec![
        ("b".to_string(), Doc::Array(vec![Doc::Number("1".into()), Doc::Null])),
        ("a".to_string(), Doc::Str("x\"y".into())),
    ]);
    let e = flatten(&d, false);
    let lines: Vec<String> = e.iter().map(|x| entry_line(x, "\t")).collect();
    assert_eq!(lines, vec![".b[0]\tnumber\t1", ".b[1]\tnull\tnull", ".a\tstring\t\"x\\\"y\""]);
    let s: Vec<String> = flatten(&d, true).iter().map(|x| entry_line(x, " ")).collect();
    assert_eq!(s, vec![".a string \"x\\\"y\"", ".b[0] number 1", ".b[1] null null"]);
}

#[test]
fn index_sorts_before_key_and_by_value() {
    let d = Doc::Array((0..11).map(|i| Doc::Number(i.to_string())).collect());
    let s = flatten(&d, true);
    assert_eq!(fmt_path(&s[10].path, "\t"), "[10]");
    assert_eq!(fmt_path(&s[2].path, "\t"), "[2]");
}

#[test]
fn format_names() {
    assert_eq!(Fmt::parse("yml"), Some(Fmt::Yaml));
    assert_eq!(Fmt::parse("env"), Some(Fmt::Env));
    assert_eq!(Fmt::parse("xml"), None);
    assert!(use_toml("a = 1", None));
    assert!(!use_toml("{\"a\": 1}", None));
    assert!(use_toml("anything", Some(Fmt::Toml)));
    assert!(!use_toml("a = 1", Some(Fmt::Yaml)));
}

#[test]
fn leaf_types() {
    assert!(matches!(leaf_to_json("boolean", "yes").unwrap(), Doc::Bool(false)));
    assert!(matches!(leaf_to_json("time", "1979-05-27").unwrap(), Doc::Str(s) if s == "1979-05-27"));
    assert_eq!(leaf_to_json("weird", "x").err(), Some("unknown type: weird".to_string()));
    assert!(leaf_to_json("number", "x1").is_err());
}

#[test]
fn unflatten_errors() {
    assert_eq!(
        do_unflatten("oops\n", Fmt::Json, "\t").err(),
        Some("malformed line: oops".to_string())
    );
    assert_eq!(
        do_unflatten(".a\tnumber\t1\n.a.b\tnumber\t2\n", Fmt::Json, "\t").err(),
        Some("expected object node".to_string())
    );
    assert_eq!(
        do_unflatten(".a\tnull\tnull\n", Fmt::Toml, "\t").err(),
        Some("TOML does not support null".to_string())
    );
    assert!(unflatten_checked("é\tx\ty\n", Fmt::Json, "\t").is_none());
}

#[test]
fn unflatten_toml_times() {
    let d = do_unflatten(".t\ttime\t1979-05-27T07:32:00Z\n.s\tstring\t\"x\"\n", Fmt::Toml, "\t")
        .unwrap();
    match d {
        Doc::Object(m) => {
            assert_eq!(m.len(), 2);
            assert_eq!(m[0].0, "s");
            assert!(matches!(&m[1].1, Doc::Time(t) if t == "1979-05-27T07:32:00Z"));
        }
        _ => panic!("expected table"),
    }
    let bad = json_to_toml(&Doc::Str("nope".into()), &vec![], &vec![".".to_string()]);
    assert_eq!(bad.err(), Some("invalid datetime: nope".to_string()));
}

#[test]
fn unflatten_pads_arrays() {
    let d = do_unflatten("[2]\tstring\t\"c\"\n", Fmt::Json, "\t").unwrap();
    match d {
        Doc::Array(a) => {
            assert_eq!(a.len(), 3);
            assert!(matches!(a[0], Doc::Null));
        }
        _ => panic!("expected array"),
    }
}

#[test]
fn version_text() {
    assert_eq!(
        version_description("md", "renderer"),
        "md 0.1.0 - renderer\nCopyright 2026 lumiknit<aasr4r4@gmail.com>"
    );
}

#[test]
fn editor_choice() {
    assert_eq!(pick_editor(None, Some("nano".into())), "nano");
    assert_eq!(pick_editor(Some("code".into()), Some("nano".into())), "code");
    assert_eq!(pick_editor(None, None), "vi");
}

#[test]
fn toml_fails_exactly_on_null_or_bad_time() {
    let times = vec![".t".to_string()];
    let doc = |t: Doc, n: Doc| {
        Doc::Object(vec![("t".to_string(), t), ("n".to_string(), Doc::Array(vec![n]))])
    };
    let ok = json_to_toml(&doc(Doc::Str("1979-05-27".into()), Doc::Bool(true)), &vec![], &times);
    assert!(ok.is_ok());
    let null_only = json_to_toml(&doc(Doc::Str("1979-05-27".into()), Doc::Null), &vec![], &times);
    assert_eq!(null_only.err(), Some("TOML does not support null".to_string()));
    let date_only = json_to_toml(&doc(Doc::Str("x".into()), Doc::Number("1".into())), &vec![], &times);
    assert_eq!(date_only.err(), Some("invalid datetime: x".to_string()));
    let both = json_to_toml(&doc(Doc::Str("x".into()), Doc::Null), &vec![], &times);
    assert_eq!(both.err(), Some("invalid datetime: x".to_string()));
    let untimed = json_to_toml(&Doc::Str("x".into()), &vec![], &vec![]);
    assert!(untimed.is_ok());
}

#[test]
fn split_line_reads_back_fmt_path() {
    let paths = vec![
        vec![],
        vec![Seg::Key("a b".into()), Seg::Idx(3)],
        vec![Seg::Key("tab\there".into()), Seg::Key("".into())],
        vec![Seg::Key("quoted \"x\"".into())],
        vec![Seg::Key("line\nbreak".into()), Seg::Key("é\n".into())],
        vec![Seg::Key("é.x".into()), Seg::Idx(0)],
    ];
    for segs in paths {
        let p = fmt_path(&segs, "\t");
        for (t, v) in [("string", "\"v\""), ("odd type!", "a\tb"), ("", "")] {
            let line = format!("{p}\t{t}\t{v}");
            assert_eq!(split_line(&line, "\t"), Some((p.clone(), t.to_string(), v.to_string())));
        }
    }
}

#[test]
fn flatten_one_entry_per_leaf_in_order() {
    let d = Doc::Object(vec![
        ("a".to_string(), Doc::Array(vec![Doc::Number("1".into()), Doc::Object(vec![])])),
        ("b".to_string(), Doc::Str("x\u{7f}".into())),
        ("c".to_string(), Doc::Null),
        ("d".to_string(), Doc::Array(vec![])),
        ("e".to_string(), Doc::Bool(false)),
        ("f".to_string(), Doc::Time("1979-05-27".into())),
    ]);
    let es = flatten(&d, false);
    let got: Vec<(Vec<Seg>, &str, String)> =
        es.iter().map(|e| (e.path.clone(), e.typ, e.val.clone())).collect();
    let k = |s: &str| Seg::Key(s.to_string());
    assert_eq!(
        got,
        vec![
            (vec![k("a"), Seg::Idx(0)], "number", "1".to_string()),
            (vec![k("a"), Seg::Idx(1)], "object", "{}".to_string()),
            (vec![k("b")], "string", "\"x\\u007f\"".to_string()),
            (vec![k("c")], "null", "null".to_string()),
            (vec![k("d")], "array", "[]".to_string()),
            (vec![k("e")], "boolean", "false".to_string()),
            (vec![k("f")], "time", "1979-05-27".to_string()),
        ]
    );
}
