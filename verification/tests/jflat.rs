use lumiknit_cli_edc::jflat::doc::{entry_line, flatten as flatten_doc, use_toml, Doc, Entry, Fmt};
use lumiknit_cli_edc::jflat::env::{do_unflatten_env, path_to_env_key};
use lumiknit_cli_edc::jflat::path::{fmt_path, parse_path, Seg};
use lumiknit_cli_edc::jflat::unflat::{do_unflatten, insert_json};

fn fmt_float(f: f64) -> String {
    if f.is_finite() && f.fract() == 0.0 && f.abs() < 9.007_199_254_740_992e15 {
        (f as i64).to_string()
    } else {
        format!("{f}")
    }
}

fn yaml_doc(v: &serde_yml::Value) -> Doc {
    match v {
        serde_yml::Value::Null => Doc::Null,
        serde_yml::Value::Bool(b) => Doc::Bool(*b),
        serde_yml::Value::Number(n) => Doc::Number(fmt_float(n.as_f64())),
        serde_yml::Value::String(s) => Doc::Str(s.clone()),
        serde_yml::Value::Sequence(a) => Doc::Array(a.iter().map(yaml_doc).collect()),
        serde_yml::Value::Mapping(m) => {
            Doc::Object(m.iter().map(|(k, x)| (k.clone(), yaml_doc(x))).collect())
        }
        serde_yml::Value::Tagged(t) => yaml_doc(t.value()),
    }
}

fn toml_doc(v: &toml::Value) -> Doc {
    match v {
        toml::Value::String(s) => Doc::Str(s.clone()),
        toml::Value::Integer(i) => Doc::Number(i.to_string()),
        toml::Value::Float(f) => Doc::Number(fmt_float(*f)),
        toml::Value::Boolean(b) => Doc::Bool(*b),
        toml::Value::Datetime(d) => Doc::Time(d.to_string()),
        toml::Value::Array(a) => Doc::Array(a.iter().map(toml_doc).collect()),
        toml::Value::Table(t) => {
            Doc::Object(t.iter().map(|(k, x)| (k.clone(), toml_doc(x))).collect())
        }
    }
}

fn doc_json(d: &Doc) -> serde_json::Value {
    match d {
        Doc::Null => serde_json::Value::Null,
        Doc::Bool(b) => serde_json::Value::Bool(*b),
        Doc::Number(n) => serde_json::from_str(n).expect("number text"),
        Doc::Str(s) | Doc::Time(s) => serde_json::Value::String(s.clone()),
        Doc::Array(a) => serde_json::Value::Array(a.iter().map(doc_json).collect()),
        Doc::Object(m) => serde_json::Value::Object(
            m.iter().map(|(k, x)| (k.clone(), doc_json(x))).collect(),
        ),
    }
}

fn do_flatten(input: &str, force: Option<Fmt>, sort: bool) -> Result<Vec<Entry>, String> {
    let doc = if use_toml(input, force) {
        toml_doc(&toml::from_str::<toml::Value>(input).map_err(|e| e.to_string())?)
    } else {
        yaml_doc(&serde_yml::from_str::<serde_yml::Value>(input).map_err(|e| e.to_string())?)
    };
    Ok(flatten_doc(&doc, sort))
}

fn flatten(input: &str) -> Vec<String> {
    let entries = do_flatten(input, None, true).expect("flatten failed");
    entries
        .iter()
        .map(|e| format!("{}\t{}\t{}", fmt_path(&e.path, "\t"), e.typ, e.val))
        .collect()
}

fn roundtrip_json(input: &str) -> serde_json::Value {
    let entries = do_flatten(input, None, true).expect("flatten failed");
    let flat: String = entries
        .iter()
        .map(|e| format!("{}\t{}\t{}\n", fmt_path(&e.path, "\t"), e.typ, e.val))
        .collect();
    doc_json(&do_unflatten(&flat, Fmt::Json, "\t").expect("unflatten failed"))
}

fn unflatten_json(flat: &str) -> serde_json::Value {
    doc_json(&do_unflatten(flat, Fmt::Json, "\t").unwrap())
}

#[test]
fn flat_simple_object() {
    let lines = flatten(r#"{"a":1,"b":"hello"}"#);
    assert!(lines.iter().any(|l| l.contains(".a") && l.contains("number") && l.contains("1")));
    assert!(lines.iter().any(|l| l.contains(".b") && l.contains("string") && l.contains("hello")));
}

#[test]
fn flat_nested_object() {
    let lines = flatten(r#"{"x":{"y":42}}"#);
    assert_eq!(lines.len(), 1);
    assert!(lines[0].contains(".x.y") && lines[0].contains("42"), "got: {:?}", lines);
}

#[test]
fn flat_array() {
    let lines = flatten(r#"[1,2,3]"#);
    assert_eq!(lines.len(), 3);
    assert!(lines[0].contains("[0]"));
    assert!(lines[2].contains("[2]"));
}

#[test]
fn flat_null_and_bool() {
    let lines = flatten(r#"{"n":null,"b":true,"f":false}"#);
    assert!(lines.iter().any(|l| l.contains(".n") && l.contains("null")));
    assert!(lines.iter().any(|l| l.contains(".b") && l.contains("boolean") && l.contains("true")));
    assert!(lines.iter().any(|l| l.contains(".f") && l.contains("false")));
}

#[test]
fn flat_empty_object() {
    let lines = flatten(r#"{"empty":{}}"#);
    assert_eq!(lines.len(), 1);
    assert!(lines[0].contains(".empty") && lines[0].contains("object") && lines[0].contains("{}"));
}

#[test]
fn flat_empty_array() {
    let lines = flatten(r#"{"arr":[]}"#);
    assert_eq!(lines.len(), 1);
    assert!(lines[0].contains(".arr") && lines[0].contains("array") && lines[0].contains("[]"));
}

#[test]
fn flat_key_with_special_chars() {
    let lines = flatten(r#"{"a.b":1}"#);
    assert_eq!(lines.len(), 1);
    assert!(lines[0].contains("\"a.b\""), "key should be quoted, got: {:?}", lines);
}

#[test]
fn flat_sorted_keys() {
    let entries = do_flatten(r#"{"z":1,"a":2,"m":3}"#, None, true).unwrap();
    let keys: Vec<_> = entries.iter().map(|e| fmt_path(&e.path, "\t")).collect();
    let mut sorted = keys.clone();
    sorted.sort();
    assert_eq!(keys, sorted, "output should be sorted");
}

#[test]
fn unflatten_simple() {
    let v = unflatten_json(".a\tnumber\t1\n.b\tstring\t\"hello\"\n");
    assert_eq!(v["a"], serde_json::Value::from(1));
    assert_eq!(v["b"], serde_json::Value::from("hello"));
}

#[test]
fn unflatten_array() {
    let v = unflatten_json("[0]\tnumber\t10\n[1]\tnumber\t20\n");
    assert_eq!(v, serde_json::from_str::<serde_json::Value>("[10, 20]").unwrap());
}

#[test]
fn unflatten_empty_object() {
    let v = unflatten_json(".x\tobject\t{}\n");
    assert_eq!(v["x"], serde_json::from_str::<serde_json::Value>("{}").unwrap());
}

#[test]
fn unflatten_skips_blank_lines() {
    let v = unflatten_json(".a\tnumber\t1\n\n.b\tnumber\t2\n");
    assert_eq!(v["a"], 1);
    assert_eq!(v["b"], 2);
}

#[test]
fn roundtrip_flat_object() {
    let orig: serde_json::Value = serde_json::from_str(r#"{"a":1,"b":"hello","c":true}"#).unwrap();
    let rt = roundtrip_json(r#"{"a":1,"b":"hello","c":true}"#);
    assert_eq!(orig, rt);
}

#[test]
fn roundtrip_nested() {
    let orig: serde_json::Value = serde_json::from_str(r#"{"x":{"y":{"z":99}}}"#).unwrap();
    let rt = roundtrip_json(r#"{"x":{"y":{"z":99}}}"#);
    assert_eq!(orig, rt);
}

#[test]
fn roundtrip_array_of_objects() {
    let json = r#"[{"a":1},{"a":2}]"#;
    let orig: serde_json::Value = serde_json::from_str(json).unwrap();
    let rt = roundtrip_json(json);
    assert_eq!(orig, rt);
}

#[test]
fn roundtrip_mixed_types() {
    let json = r#"{"n":null,"b":false,"i":42,"s":"hi","arr":[1,2]}"#;
    let orig: serde_json::Value = serde_json::from_str(json).unwrap();
    let rt = roundtrip_json(json);
    assert_eq!(orig, rt);
}

#[test]
fn roundtrip_empty_containers() {
    let json = r#"{"e":{},"a":[]}"#;
    let orig: serde_json::Value = serde_json::from_str(json).unwrap();
    let rt = roundtrip_json(json);
    assert_eq!(orig, rt);
}

fn env(json: &str) -> Vec<(String, String)> {
    let entries = do_flatten(json, None, true).expect("flatten failed");
    let flat: String = entries
        .iter()
        .map(|e| format!("{}\t{}\t{}\n", fmt_path(&e.path, "\t"), e.typ, e.val))
        .collect();
    let out = do_unflatten_env(&flat, "\t").expect("unflatten_env failed");
    out.lines()
        .map(|l| {
            let (k, v) = l.split_once('=').unwrap();
            (k.to_string(), v.to_string())
        })
        .collect()
}

#[test]
fn env_simple_keys() {
    let pairs = env(r#"{"host":"localhost","port":8080}"#);
    assert!(pairs.iter().any(|(k, v)| k == "HOST" && v == "'localhost'"));
    assert!(pairs.iter().any(|(k, v)| k == "PORT" && v == "8080"));
}

#[test]
fn env_nested_key() {
    let pairs = env(r#"{"db":{"host":"srv"}}"#);
    assert!(pairs.iter().any(|(k, v)| k == "DB_HOST" && v == "'srv'"));
}

#[test]
fn env_array_index() {
    let pairs = env(r#"{"hosts":["a","b"]}"#);
    assert!(pairs.iter().any(|(k, v)| k == "HOSTS_0" && v == "'a'"));
    assert!(pairs.iter().any(|(k, v)| k == "HOSTS_1" && v == "'b'"));
}

#[test]
fn env_null_is_empty_value() {
    let out = do_unflatten_env(".x\tnull\tnull\n", "\t").unwrap();
    assert_eq!(out, "X=\n");
}

#[test]
fn env_boolean() {
    let pairs = env(r#"{"enabled":true}"#);
    assert!(pairs.iter().any(|(k, v)| k == "ENABLED" && v == "true"));
}

#[test]
fn env_special_chars_in_key_collapsed() {
    let out = do_unflatten_env(".my-key\tstring\t\"val\"\n", "\t").unwrap();
    assert_eq!(out, "MY_KEY='val'\n");
}

#[test]
fn env_key_leading_trailing_underscore_stripped() {
    let out = do_unflatten_env(".\"-leading\"\tstring\t\"v\"\n", "\t").unwrap();
    assert_eq!(out, "LEADING='v'\n");
}

#[test]
fn env_string_single_quote_escaped() {
    let out = do_unflatten_env(".key\tstring\t\"it's\"\n", "\t").unwrap();
    assert_eq!(out, "KEY='it'\\''s'\n");
}

#[test]
fn env_empty_containers_skipped() {
    let pairs = env(r#"{"empty":{},"arr":[],"x":1}"#);
    assert!(!pairs.iter().any(|(k, _)| k == "EMPTY" || k == "ARR"));
    assert!(pairs.iter().any(|(k, _)| k == "X"));
}

#[test]
fn env_duplicate_keys_both_output() {
    let flat = ".foo.bar\tstring\t\"a\"\n.foo_bar\tstring\t\"b\"\n";
    let out = do_unflatten_env(flat, "\t").unwrap();
    let lines: Vec<&str> = out.lines().collect();
    assert_eq!(lines.len(), 2);
    assert!(lines.iter().all(|l| l.starts_with("FOO_BAR=")));
}

#[test]
fn parse_fmt_path_roundtrip() {
    let segs = vec![Seg::Key("a".into()), Seg::Idx(0), Seg::Key("b".into())];
    let s = fmt_path(&segs, "\t");
    let parsed = parse_path(&s);
    assert_eq!(parsed, segs);
}

#[test]
fn parse_fmt_path_quoted_key() {
    let segs = vec![Seg::Key("a.b".into())];
    let s = fmt_path(&segs, "\t");
    assert!(s.contains('"'), "dotted key must be quoted: {s}");
    let parsed = parse_path(&s);
    assert_eq!(parsed, segs);
}

#[test]
fn root_path() {
    assert_eq!(fmt_path(&[], "\t"), ".");
}

#[test]
fn roundtrip_document_order_with_comma_separator() {
    let doc = Doc::Object(vec![
        ("a b".to_string(), Doc::Array(vec![
            Doc::Number("1".to_string()),
            Doc::Array(vec![]),
            Doc::Str("say \"hi\"\n".to_string()),
        ])),
        ("k.x".to_string(), Doc::Object(vec![("zX|".to_string(), Doc::Bool(false))])),
        ("n".to_string(), Doc::Null),
    ]);
    for sep in [",", "X", "|", "::", "=>"] {
        for sort in [false, true] {
            let text: String = flatten_doc(&doc, sort)
                .iter()
                .map(|e| format!("{}\n", entry_line(e, sep)))
                .collect();
            let back = do_unflatten(&text, Fmt::Yaml, sep).expect("unflatten failed");
            assert_eq!(doc_json(&back), doc_json(&doc));
        }
    }
}

#[test]
fn env_key_only_name_characters() {
    let path = vec![
        Seg::Key("-é x-".to_string()),
        Seg::Idx(12),
        Seg::Key("a.b".to_string()),
        Seg::Key("__".to_string()),
    ];
    let key = path_to_env_key(&path);
    assert_eq!(key, "X_12_A_B");
    assert!(key.chars().all(|c| c.is_ascii_uppercase() || c.is_ascii_digit() || c == '_'));
    assert_eq!(path_to_env_key(&[Seg::Key("--".to_string())]), "");
}

#[test]
fn env_key_empty_only_without_letters_or_digits() {
    assert_eq!(path_to_env_key(&[]), "");
    assert_eq!(path_to_env_key(&[Seg::Key("é-".to_string()), Seg::Key("".to_string())]), "");
    assert_eq!(path_to_env_key(&[Seg::Key("--".to_string()), Seg::Idx(0)]), "0");
    assert_eq!(path_to_env_key(&[Seg::Key("_".to_string()), Seg::Key("é9".to_string())]), "9");
}

fn same_doc(a: &Doc, b: &Doc) -> bool {
    match (a, b) {
        (Doc::Null, Doc::Null) => true,
        (Doc::Bool(x), Doc::Bool(y)) => x == y,
        (Doc::Number(x), Doc::Number(y)) | (Doc::Str(x), Doc::Str(y)) | (Doc::Time(x), Doc::Time(y)) => x == y,
        (Doc::Array(x), Doc::Array(y)) => x.len() == y.len() && x.iter().zip(y).all(|(p, q)| same_doc(p, q)),
        (Doc::Object(x), Doc::Object(y)) => {
            x.len() == y.len() && x.iter().zip(y).all(|((k, p), (l, q))| k == l && same_doc(p, q))
        }
        _ => false,
    }
}

#[test]
fn roundtrip_toml_keeps_datetimes() {
    let input = "a = 1979-05-27T07:32:00Z\nname = \"x\"\n\n[t]\nd = 1979-05-27\nlist = [1, 2]\n";
    let doc = toml_doc(&toml::from_str::<toml::Value>(input).unwrap());
    for sort in [false, true] {
        let text: String = flatten_doc(&doc, sort)
            .iter()
            .map(|e| format!("{}\n", entry_line(e, "\t")))
            .collect();
        let back = do_unflatten(&text, Fmt::Toml, "\t").expect("unflatten failed");
        assert!(same_doc(&back, &doc));
        let json = do_unflatten(&text, Fmt::Json, "\t").expect("unflatten failed");
        assert!(matches!(&json, Doc::Object(m) if matches!(&m[0], (k, Doc::Str(s)) if k == "a" && s == "1979-05-27T07:32:00Z")));
    }
}

#[test]
fn roundtrip_puts_keys_in_order() {
    let doc = Doc::Object(vec![
        ("z".to_string(), Doc::Number("1".to_string())),
        ("a".to_string(), Doc::Object(vec![
            ("y".to_string(), Doc::Bool(true)),
            ("b".to_string(), Doc::Null),
        ])),
    ]);
    let sorted = Doc::Object(vec![
        ("a".to_string(), Doc::Object(vec![
            ("b".to_string(), Doc::Null),
            ("y".to_string(), Doc::Bool(true)),
        ])),
        ("z".to_string(), Doc::Number("1".to_string())),
    ]);
    for sort in [false, true] {
        let text: String = flatten_doc(&doc, sort)
            .iter()
            .map(|e| format!("{}\n", entry_line(e, "\t")))
            .collect();
        let back = do_unflatten(&text, Fmt::Json, "\t").expect("unflatten failed");
        assert!(same_doc(&back, &sorted));
    }
}

#[test]
fn insert_doc_keeps_nodes_made_before_an_error() {
    let mut root = Doc::Null;
    let path = vec![Seg::Key("a".to_string()), Seg::Idx(1)];
    let r = insert_json(&mut root, &path, "bogus", "x");
    assert_eq!(r, Err("unknown type: bogus".to_string()));
    let expected = Doc::Object(vec![("a".to_string(), Doc::Array(vec![Doc::Null, Doc::Null]))]);
    assert!(same_doc(&root, &expected));

    let mut root = Doc::Object(vec![("a".to_string(), Doc::Number("1".to_string()))]);
    let path = vec![Seg::Key("a".to_string()), Seg::Key("b".to_string())];
    let r = insert_json(&mut root, &path, "null", "null");
    assert_eq!(r, Err("expected object node".to_string()));
    let expected = Doc::Object(vec![("a".to_string(), Doc::Number("1".to_string()))]);
    assert!(same_doc(&root, &expected));

    let r = insert_json(&mut root, &vec![Seg::Key("c".to_string())], "boolean", "true");
    assert_eq!(r, Ok(()));
    let expected = Doc::Object(vec![
        ("a".to_string(), Doc::Number("1".to_string())),
        ("c".to_string(), Doc::Bool(true)),
    ]);
    assert!(same_doc(&root, &expected));
}

#[test]
fn env_fails_exactly_on_a_stopping_line() {
    assert!(do_unflatten_env(".a\tnumber\t1\nno separators\n", "\t").is_err());
    assert!(do_unflatten_env(".a\tweird\t1\n", "\t").is_err());
    assert_eq!(do_unflatten_env(".\"--\"\tweird\t1\n", "\t"), Ok(String::new()));
    assert_eq!(do_unflatten_env("\n.a\tobject\t{}\n.b\tboolean\ttrue\n", "\t"), Ok("B=true\n".to_string()));
}
