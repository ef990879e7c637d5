use lumiknit_cli_edc::llm::context::{ChatConfig, Message};
use lumiknit_cli_edc::llm::request::{
    build_json_body, chat_args, chat_input, context_path, curl_line, extract_delta_content,
    model_ids, read_header, shell_quote, status_ok, stream_event, Header, StreamEvent,
};

fn sample() -> ChatConfig {
    let mut c = ChatConfig::new(None);
    c.api_key_env = Some("MY_KEY".to_string());
    c.messages.push(Message::new("system", "be brief"));
    c.messages.push(Message::new("user", "hi\nthere"));
    c
}

#[test]
fn new_config_defaults() {
    let c = ChatConfig::new(None);
    assert_eq!(c.model, "gpt-5.5");
    assert!(c.api_key_env.is_none() && c.api_url.is_none() && c.messages.is_empty());
    assert_eq!(ChatConfig::new(Some("m1".to_string())).model, "m1");
}

#[test]
fn serialize_layout() {
    let c = sample();
    let b = c.serialize();
    assert_eq!(
        b,
        b"model\ngpt-5.5\0api_key_env\nMY_KEY\0\0system\nbe brief\0user\nhi\nthere\0".to_vec()
    );
}

#[test]
fn parse_reads_back() {
    let c = sample();
    let p = ChatConfig::parse(&c.serialize(), Some("other".to_string()));
    assert_eq!(p.model, "gpt-5.5");
    assert_eq!(p.api_key_env.as_deref(), Some("MY_KEY"));
    assert!(p.api_url.is_none());
    assert_eq!(p.messages.len(), 2);
    assert_eq!(p.messages[1].role, "user");
    assert_eq!(p.messages[1].content, "hi\nthere");
}

#[test]
fn parse_ignores_unknown_and_keeps_default_model() {
    let p = ChatConfig::parse(b"color\nred\0\0\0noline\0", Some("dm".to_string()));
    assert_eq!(p.model, "dm");
    assert!(p.messages.is_empty());
}

#[test]
fn parse_without_separator_is_all_settings() {
    let p = ChatConfig::parse(b"api_url\nhttp://h/", None);
    assert_eq!(p.api_url.as_deref(), Some("http://h/"));
    assert_eq!(p.resolve_base_url(None), "http://h");
}

#[test]
fn base_url_names() {
    let c = ChatConfig::new(None);
    assert_eq!(c.resolve_base_url(None), "https://api.openai.com/v1");
    assert_eq!(
        c.resolve_base_url(Some("google".to_string())),
        "https://generativelanguage.googleapis.com/v1beta/openai"
    );
    assert_eq!(c.resolve_base_url(Some("openrouter".to_string())), "https://openrouter.ai/api/v1");
    assert_eq!(c.resolve_base_url(Some("http://x//".to_string())), "http://x");
}

#[test]
fn api_key_variable() {
    assert_eq!(ChatConfig::new(None).api_key_var(), "OPENAI_API_KEY");
    assert_eq!(sample().api_key_var(), "MY_KEY");
}

#[test]
fn context_file_name() {
    assert_eq!(context_path(".llm"), ".llm.context");
}

#[test]
fn shell_quoting() {
    assert_eq!(shell_quote("-sNi"), "-sNi");
    assert_eq!(shell_quote("a b"), "'a b'");
    assert_eq!(shell_quote("it's"), "'it'\\''s'");
    assert_eq!(shell_quote(""), "");
}

#[test]
fn curl_command_line() {
    let args = vec!["-s".to_string(), "x y".to_string()];
    assert_eq!(curl_line(&args), "curl -s 'x y'");
}

#[test]
fn json_body() {
    let mut c = ChatConfig::new(Some("m".to_string()));
    c.messages.push(Message::new("user", "q\"1"));
    assert_eq!(
        build_json_body(&c),
        r#"{"model":"m","messages":[{"role":"user","content":"q\"1"}],"stream":true}"#
    );
    c.messages.push(Message::new("assistant", "a"));
    assert!(build_json_body(&c).contains(r#"},{"role":"assistant""#));
}

#[test]
fn delta_content() {
    let line = r#"{"choices":[{"delta":{"content":"Hel\"lo\n"}}]}"#;
    assert_eq!(extract_delta_content(line), Some("Hel\"lo\n".to_string()));
    assert_eq!(extract_delta_content(r#"{"delta":{"content":""}}"#), None);
    assert_eq!(extract_delta_content(r#"{"delta":{}}"#), None);
}

#[test]
fn stream_events() {
    assert!(matches!(stream_event("data: [DONE]"), StreamEvent::Done));
    assert!(matches!(stream_event(": ping"), StreamEvent::Skip));
    match stream_event(r#"data: {"content":"x"}"#) {
        StreamEvent::Delta(d) => assert_eq!(d, "x"),
        _ => panic!("expected text"),
    }
}

#[test]
fn header_lines() {
    assert!(matches!(read_header("HTTP/2 200 \r\n"), Header::Status(200)));
    assert!(matches!(read_header("HTTP/1.1 abc OK"), Header::Status(0)));
    assert!(matches!(read_header("\r\n"), Header::End));
    assert!(matches!(read_header("content-type: x"), Header::Other));
    assert!(status_ok(204) && !status_ok(404) && !status_ok(0));
}

#[test]
fn chat_message_input() {
    assert_eq!(chat_input("  q \n", None), Some("q".to_string()));
    assert_eq!(chat_input(" q ", Some("extra ")), Some("q\n\nextra".to_string()));
    assert_eq!(chat_input("  ", None), None);
    assert_eq!(chat_input("", Some("x")), Some("x".to_string()));
}

#[test]
fn model_listing() {
    let body = r#"{"data":[{"id":"gpt-a","x":1},{"id":"gpt-b"}]}"#;
    assert_eq!(model_ids(body), vec!["gpt-a".to_string(), "gpt-b".to_string()]);
    assert!(model_ids("{}").is_empty());
}

#[test]
fn chat_request_arguments() {
    let a = chat_args("https://h/v1", "K", "{}");
    assert_eq!(a[3], "https://h/v1/chat/completions");
    assert_eq!(a[7], "Authorization: Bearer K");
    assert_eq!(a.len(), 10);
}

#[test]
fn api_key_from_variable_or_message() {
    let c = ChatConfig::new(None);
    assert_eq!(c.resolve_api_key(Some("k1".to_string())), Ok("k1".to_string()));
    assert_eq!(c.resolve_api_key(None), Err("env 'OPENAI_API_KEY' is not set".to_string()));
    assert_eq!(sample().resolve_api_key(None), Err("env 'MY_KEY' is not set".to_string()));
}
