//! The pieces of a chat request and of its streamed answer.
use vstd::prelude::*;
use crate::jflat::env::{sh_quoted, strip_end};
use crate::jflat::line::{find_exec, find_from};
use crate::jsonlite::{quote, quote_readable, quoted, unescape_body, unquote, unquote_inner};
use crate::llm::context::{opt_str, ChatConfig, msgs_view};
use crate::md::block::{split_words, words};
use crate::text::{
    chars_of, eq_str, parse_unsigned, parse_unsigned_exec, push_char, push_str, string_of, trim,
    trim_bounds, trim_end, skip_ws_backward,
};

verus! {

/// Where the API is: the configured address, else `env_base` (the value of
/// `OPENAI_BASE_URL`), else `openai`; the names `openai`, `google` and
/// `openrouter` stand for their services' addresses, and any other address
/// loses its trailing slashes.
pub open spec fn base_url_spec(api_url: Option<Seq<char>>, env_base: Option<Seq<char>>) -> Seq<char> {
    let raw = match api_url {
        Some(u) => u,
        None => match env_base {
            Some(e) => e,
            None => "openai"@,
        },
    };
    if raw == "openai"@ {
        "https://api.openai.com/v1"@
    } else if raw == "google"@ {
        "https://generativelanguage.googleapis.com/v1beta/openai"@
    } else if raw == "openrouter"@ {
        "https://openrouter.ai/api/v1"@
    } else {
        strip_end(raw, '/')
    }
}

fn strip_slashes(s: &str) -> (r: String)
    ensures
        r@ == strip_end(s@, '/'),
{
    let v = chars_of(s);
    let mut hi = v.len();
    assert(v@.take(hi as int) =~= v@);
    while hi > 0 && v[hi - 1] == '/'
        invariant
            hi <= v@.len(),
            v@ == s@,
            strip_end(s@, '/') == strip_end(v@.take(hi as int), '/'),
        decreases hi,
    {
        assert(v@.take(hi as int).drop_last() =~= v@.take(hi - 1));
        hi = hi - 1;
    }
    assert(v@.take(hi as int) =~= v@.subrange(0, hi as int));
    string_of(&v, 0, hi)
}

impl ChatConfig {
    /// The API address (see `base_url_spec`).
    pub fn resolve_base_url(&self, env_base: Option<String>) -> (r: String)
        ensures
            r@ == base_url_spec(opt_str(self.api_url), opt_str(env_base)),
    {
        let raw = match &self.api_url {
            Some(u) => u.clone(),
            None => match env_base {
                Some(e) => e,
                None => "openai".to_string(),
            },
        };
        let s = raw.as_str();
        if eq_str(s, "openai") {
            "https://api.openai.com/v1".to_string()
        } else if eq_str(s, "google") {
            "https://generativelanguage.googleapis.com/v1beta/openai".to_string()
        } else if eq_str(s, "openrouter") {
            "https://openrouter.ai/api/v1".to_string()
        } else {
            strip_slashes(s)
        }
    }

    /// The environment variable that holds the API key: the configured one,
    /// else `OPENAI_API_KEY`.
    pub fn api_key_var(&self) -> (r: String)
        ensures
            r@ == match opt_str(self.api_key_env) {
                Some(v) => v,
                None => "OPENAI_API_KEY"@,
            },
    {
        match &self.api_key_env {
            Some(v) => v.clone(),
            None => "OPENAI_API_KEY".to_string(),
        }
    }

    /// The API key, given the value of the variable `api_key_var` names as
    /// read from the environment: that value, or, when it is not set, the
    /// message `env 'VAR' is not set`.
    pub fn resolve_api_key(&self, value: Option<String>) -> (r: Result<String, String>)
        ensures
            match value {
                Some(v) => r matches Ok(k) && k@ == v@,
                None => r matches Err(m) && m@ == "env '"@ + match opt_str(self.api_key_env) {
                    Some(v) => v,
                    None => "OPENAI_API_KEY"@,
                } + "' is not set"@,
            },
    {
        match value {
            Some(v) => Ok(v),
            None => {
                let mut m = String::new();
                push_str(&mut m, "env '");
                let var = self.api_key_var();
                push_str(&mut m, var.as_str());
                push_str(&mut m, "' is not set");
                Err(m)
            },
        }
    }
}

/// The context file for a prefix: the prefix and `.context`.
pub fn context_path(prefix: &str) -> (r: String)
    ensures
        r@ == prefix@ + ".context"@,
{
    let mut r = String::new();
    push_str(&mut r, prefix);
    push_str(&mut r, ".context");
    r
}

/// A character a shell word may hold unquoted.
pub open spec fn shell_safe(c: char) -> bool {
    ('a' <= c && c <= 'z') || ('A' <= c && c <= 'Z') || ('0' <= c && c <= '9') || c == '-' || c
        == '_' || c == '.' || c == '/' || c == ':' || c == ',' || c == '='
}

/// `s` as a shell word: itself if every character is safe, else in single
/// quotes (see `sh_quoted`).
pub open spec fn shell_word(s: Seq<char>) -> Seq<char> {
    if forall|i: int| 0 <= i < s.len() ==> shell_safe(#[trigger] s[i]) {
        s
    } else {
        sh_quoted(s)
    }
}

/// Quotes `s` for a shell where it needs it (see `shell_word`).
pub fn shell_quote(s: &str) -> (r: String)
    ensures
        r@ == shell_word(s@),
{
    let v = chars_of(s);
    let mut i: usize = 0;
    while i < v.len()
        invariant
            i <= v@.len(),
            v@ == s@,
            forall|j: int| 0 <= j < i ==> shell_safe(#[trigger] v@[j]),
        decreases v@.len() - i,
    {
        let c = v[i];
        let ok = ('a' <= c && c <= 'z') || ('A' <= c && c <= 'Z') || ('0' <= c && c <= '9') || c
            == '-' || c == '_' || c == '.' || c == '/' || c == ':' || c == ',' || c == '=';
        if !ok {
            assert(!shell_safe(s@[i as int]));
            return crate::jflat::env::bash_quote(s);
        }
        i = i + 1;
    }
    s.to_string()
}

/// `curl` and the arguments, each quoted where it needs it, with spaces
/// between.
pub open spec fn curl_text(args: Seq<Seq<char>>) -> Seq<char>
    decreases args.len(),
{
    if args.len() == 0 {
        "curl"@
    } else {
        curl_text(args.drop_last()) + seq![' '] + shell_word(args.last())
    }
}

/// The command line that runs `curl` with `args` (what a dry run prints).
pub fn curl_line(args: &Vec<String>) -> (r: String)
    ensures
        r@ == curl_text(args@.map_values(|a: String| a@)),
{
    let ghost av = args@.map_values(|a: String| a@);
    let mut r = String::new();
    push_str(&mut r, "curl");
    let mut i: usize = 0;
    while i < args.len()
        invariant
            i <= args@.len(),
            av == args@.map_values(|a: String| a@),
            r@ == curl_text(av.take(i as int)),
        decreases args@.len() - i,
    {
        push_char(&mut r, ' ');
        let q = shell_quote(args[i].as_str());
        push_str(&mut r, q.as_str());
        assert(av.take(i + 1).drop_last() =~= av.take(i as int));
        assert(av[i as int] == args@[i as int]@);
        i = i + 1;
    }
    assert(av.take(args@.len() as int) =~= av);
    r
}

/// One message of a request: its role quoted, its content quoted readably.
pub open spec fn message_json(m: (Seq<char>, Seq<char>)) -> Seq<char> {
    "{\"role\":"@ + quoted(m.0, false) + ",\"content\":"@ + quoted(m.1, true) + "}"@
}

/// The messages, comma-separated.
pub open spec fn messages_json(ms: Seq<(Seq<char>, Seq<char>)>) -> Seq<char>
    decreases ms.len(),
{
    if ms.len() == 0 {
        Seq::empty()
    } else if ms.len() == 1 {
        message_json(ms[0])
    } else {
        messages_json(ms.drop_last()) + ","@ + message_json(ms.last())
    }
}

/// The body of a chat request: the model, the messages, and streaming on.
pub open spec fn body_spec(model: Seq<char>, ms: Seq<(Seq<char>, Seq<char>)>) -> Seq<char> {
    "{\"model\":"@ + quoted(model, false) + ",\"messages\":["@ + messages_json(ms)
        + "],\"stream\":true}"@
}

/// The JSON body of a chat request (see `body_spec`).
pub fn build_json_body(config: &ChatConfig) -> (r: String)
    ensures
        r@ == body_spec(config.model@, msgs_view(config.messages@)),
{
    let ghost mv = msgs_view(config.messages@);
    let mut msgs = String::new();
    let mut i: usize = 0;
    while i < config.messages.len()
        invariant
            i <= config.messages@.len(),
            mv == msgs_view(config.messages@),
            msgs@ == messages_json(mv.take(i as int)),
        decreases config.messages@.len() - i,
    {
        let m = &config.messages[i];
        if i > 0 {
            push_str(&mut msgs, ",");
        }
        push_str(&mut msgs, "{\"role\":");
        push_str(&mut msgs, quote(m.role.as_str()).as_str());
        push_str(&mut msgs, ",\"content\":");
        push_str(&mut msgs, quote_readable(m.content.as_str()).as_str());
        push_str(&mut msgs, "}");
        assert(mv.take(i + 1).drop_last() =~= mv.take(i as int));
        assert(mv[i as int] == (m.role@, m.content@));
        proof {
            if i == 0 {
                assert(mv.take(1)[0] == mv[0]);
            }
        }
        i = i + 1;
        assert(msgs@ =~= messages_json(mv.take(i as int)));
    }
    assert(mv.take(config.messages@.len() as int) =~= mv);
    let mut r = String::new();
    push_str(&mut r, "{\"model\":");
    push_str(&mut r, quote(config.model.as_str()).as_str());
    push_str(&mut r, ",\"messages\":[");
    push_str(&mut r, msgs.as_str());
    push_str(&mut r, "],\"stream\":true}");
    assert(r@ =~= body_spec(config.model@, mv));
    r
}

/// Where the string literal that starts at `rest[0]` ends: after the first
/// `"` from index `j` that no backslash escapes, or at the end.
pub open spec fn literal_end(rest: Seq<char>, j: int) -> int
    decreases rest.len() + 2 - j,
{
    if j < 0 || j >= rest.len() {
        rest.len() as int
    } else if rest[j] == '\\' {
        literal_end(rest, j + 2)
    } else if rest[j] == '"' {
        j + 1
    } else {
        literal_end(rest, j + 1)
    }
}

proof fn lemma_literal_end(rest: Seq<char>, j: int)
    requires
        0 <= j,
    ensures
        0 <= literal_end(rest, j) <= rest.len(),
    decreases rest.len() + 2 - j,
{
    if j < rest.len() && rest[j] != '"' {
        if rest[j] == '\\' {
            lemma_literal_end(rest, j + 2);
        } else {
            lemma_literal_end(rest, j + 1);
        }
    }
}

/// The text of the `content` string of a streamed event: the string literal
/// after the first `"content":"`, decoded; nothing if there is none or it
/// is empty.
pub open spec fn delta_spec(line: Seq<char>) -> Option<Seq<char>> {
    match find_from(line, "\"content\":\""@, 0) {
        None => None,
        Some(k) => {
            let rest = line.skip(k + 10);
            let decoded = unescape_body(unquote_inner(rest.take(literal_end(rest, 1))));
            if decoded.len() == 0 {
                None
            } else {
                Some(decoded)
            }
        },
    }
}

/// The new text an event line carries (see `delta_spec`).
pub fn extract_delta_content(line: &str) -> (r: Option<String>)
    ensures
        opt_str(r) == delta_spec(line@),
{
    let v = chars_of(line);
    let pat = chars_of("\"content\":\"");
    proof {
        reveal_strlit("\"content\":\"");
    }
    let found = find_exec(&v, 0, &pat);
    assert(v@.skip(0) =~= v@);
    assert(pat@ == "\"content\":\""@);
    assert(pat@.len() == 11);
    if found.is_none() {
        return None;
    }
    let k = found.unwrap();
    assert(k + 11 <= v@.len());
    let start = k + 10;
    let ghost rest = line@.skip(start as int);
    proof {
        lemma_literal_end(rest, 1);
    }
    let n = v.len();
    let mut j: usize = start + 1;
    let mut end = n;
    while j < n
        invariant_except_break
            start + 1 <= j,
            start < n,
            n == v@.len(),
            v@ == line@,
            rest == line@.skip(start as int),
            literal_end(rest, 1) == literal_end(rest, j - start),
            end == n,
        ensures
            start < n,
            n == v@.len(),
            start + literal_end(rest, 1) == end,
            end <= n,
        decreases n - j,
    {
        assert(rest[j - start] == v@[j as int]);
        if v[j] == '\\' {
            if n - j < 2 {
                assert(literal_end(rest, j - start + 2) == rest.len());
                j = n;
                break;
            }
            j = j + 2;
        } else if v[j] == '"' {
            end = j + 1;
            assert(literal_end(rest, j - start) == j - start + 1);
            break;
        } else {
            j = j + 1;
        }
    }
    let lit = string_of(&v, start, end);
    assert(lit@ =~= rest.take(literal_end(rest, 1)));
    let decoded = unquote(lit.as_str());
    if decoded.as_str().is_empty() {
        None
    } else {
        Some(decoded)
    }
}

/// The message to send: the input trimmed, then a blank line and `extra` if
/// given, all trimmed again; nothing if that is empty.
pub open spec fn chat_input_spec(input: Seq<char>, extra: Option<Seq<char>>) -> Option<Seq<char>> {
    let t = trim(input);
    let s = match extra {
        Some(e) => t + seq!['\n', '\n'] + e,
        None => t,
    };
    if trim(s).len() == 0 {
        None
    } else {
        Some(trim(s))
    }
}

fn trimmed(s: &str) -> (r: String)
    ensures
        r@ == trim(s@),
{
    let v = chars_of(s);
    let (lo, hi) = trim_bounds(&v);
    string_of(&v, lo, hi)
}

/// The message to send (see `chat_input_spec`).
pub fn chat_input(input: &str, extra: Option<&str>) -> (r: Option<String>)
    ensures
        opt_str(r) == chat_input_spec(
            input@,
            match extra {
                Some(e) => Some(e@),
                None => None,
            },
        ),
{
    let t = trimmed(input);
    let s = match extra {
        Some(e) => {
            let ghost t0 = t@;
            let mut s = t;
            push_char(&mut s, '\n');
            push_char(&mut s, '\n');
            push_str(&mut s, e);
            assert(s@ =~= t0 + seq!['\n', '\n'] + e@);
            s
        },
        None => t,
    };
    let u = trimmed(s.as_str());
    if u.as_str().is_empty() {
        None
    } else {
        Some(u)
    }
}

/// What a line of the response head says.
pub enum Header {
    /// The blank line that ends the head (or the end of the stream).
    End,
    /// A status line, with its code (0 if it is not a number).
    Status(u16),
    /// Any other line.
    Other,
}

/// What a head line says: blank (after trimming its end) ends the head; a
/// line starting with `HTTP/` gives the code in its second word, if it has
/// one.
pub open spec fn header_spec(line: Seq<char>) -> Header {
    let t = trim_end(line);
    if t.len() == 0 {
        Header::End
    } else if t.len() >= 5 && t.take(5) == "HTTP/"@ && words(t).len() >= 2 {
        Header::Status(
            match parse_unsigned(words(t)[1], 65535) {
                Some(v) => v as u16,
                None => 0,
            },
        )
    } else {
        Header::Other
    }
}

/// Reads a line of the response head (see `header_spec`).
pub fn read_header(line: &str) -> (r: Header)
    ensures
        r == header_spec(line@),
{
    let v = chars_of(line);
    let hi = skip_ws_backward(&v, 0, v.len());
    assert(v@.subrange(0, v@.len() as int) =~= line@);
    let t = string_of(&v, 0, hi);
    if hi == 0 {
        return Header::End;
    }
    let tv = chars_of(t.as_str());
    proof {
        reveal_strlit("HTTP/");
    }
    if hi >= 5 && tv[0] == 'H' && tv[1] == 'T' && tv[2] == 'T' && tv[3] == 'P' && tv[4] == '/' {
        assert(t@.take(5) =~= "HTTP/"@);
        let ws = split_words(t.as_str());
        if ws.len() >= 2 {
            let wv = chars_of(ws[1].as_str());
            let code = match parse_unsigned_exec(&wv, 0, wv.len(), 65535) {
                Some(c) => c as u16,
                None => 0,
            };
            assert(wv@.subrange(0, wv@.len() as int) =~= words(t@)[1]);
            return Header::Status(code);
        }
        return Header::Other;
    }
    proof {
        if t@.len() >= 5 && t@.take(5) == "HTTP/"@ {
            assert(t@[0] == t@.take(5)[0]);
            assert(t@[1] == t@.take(5)[1]);
            assert(t@[2] == t@.take(5)[2]);
            assert(t@[3] == t@.take(5)[3]);
            assert(t@[4] == t@.take(5)[4]);
        }
    }
    Header::Other
}

/// A success status (2xx).
pub fn status_ok(code: u16) -> (b: bool)
    ensures
        b == (200 <= code < 300),
{
    200 <= code && code < 300
}

/// What a line of the streamed body is.
pub enum StreamEvent {
    /// Nothing to show.
    Skip,
    /// The end of the answer.
    Done,
    /// New text of the answer.
    Delta(String),
}

/// What a body line is: a `data: ` line that is `[DONE]` ends the answer,
/// another gives the text in its `content` (see `delta_spec`); other lines
/// and empty texts are skipped.
pub open spec fn stream_spec(line: Seq<char>) -> Option<Option<Seq<char>>> {
    if line.len() >= 6 && line.take(6) == "data: "@ {
        let data = line.skip(6);
        if data == "[DONE]"@ {
            None
        } else {
            Some(delta_spec(data))
        }
    } else {
        Some(None)
    }
}

/// Reads a line of the streamed body (see `stream_spec`: `None` is the end).
pub fn stream_event(line: &str) -> (r: StreamEvent)
    ensures
        match stream_spec(line@) {
            None => r is Done,
            Some(None) => r is Skip,
            Some(Some(d)) => r matches StreamEvent::Delta(x) && x@ == d,
        },
{
    let v = chars_of(line);
    proof {
        reveal_strlit("data: ");
    }
    let n = v.len();
    if !(n >= 6 && v[0] == 'd' && v[1] == 'a' && v[2] == 't' && v[3] == 'a' && v[4] == ':' && v[5]
        == ' ') {
        proof {
            if line@.len() >= 6 && line@.take(6) == "data: "@ {
                assert(line@[0] == line@.take(6)[0]);
                assert(line@[1] == line@.take(6)[1]);
                assert(line@[2] == line@.take(6)[2]);
                assert(line@[3] == line@.take(6)[3]);
                assert(line@[4] == line@.take(6)[4]);
                assert(line@[5] == line@.take(6)[5]);
            }
        }
        return StreamEvent::Skip;
    }
    assert(line@.take(6) =~= "data: "@);
    let data = string_of(&v, 6, n);
    assert(data@ =~= line@.skip(6));
    if eq_str(data.as_str(), "[DONE]") {
        return StreamEvent::Done;
    }
    match extract_delta_content(data.as_str()) {
        Some(d) => StreamEvent::Delta(d),
        None => StreamEvent::Skip,
    }
}

/// The model ids in a models listing: the text after each `"id":"` up to the
/// next `"`.
pub open spec fn ids_spec(s: Seq<char>) -> Seq<Seq<char>>
    decreases s.len(),
{
    match find_from(s, "\"id\":\""@, 0) {
        None => Seq::empty(),
        Some(p) => {
            proof {
                crate::jflat::line::lemma_find_from_bounds(s, "\"id\":\""@, 0);
                reveal_strlit("\"id\":\"");
            }
            let t = s.skip(p + 6);
            match find_from(t, seq!['"'], 0) {
                Some(e) => {
                    proof {
                        crate::jflat::line::lemma_find_from_bounds(t, seq!['"'], 0);
                    }
                    seq![t.take(e)] + ids_spec(t.skip(e + 1))
                },
                None => ids_spec(t),
            }
        },
    }
}

/// The model ids in a models listing (see `ids_spec`).
pub fn model_ids(body: &str) -> (r: Vec<String>)
    ensures
        r@.map_values(|x: String| x@) == ids_spec(body@),
{
    let v = chars_of(body);
    let pat = chars_of("\"id\":\"");
    let quote_ch = vec!['"'];
    proof {
        reveal_strlit("\"id\":\"");
    }
    assert(pat@ == "\"id\":\""@);
    assert(pat@.len() == 6);
    assert(quote_ch@ =~= seq!['"']);
    let n = v.len();
    let mut r: Vec<String> = Vec::new();
    let mut i: usize = 0;
    assert(v@.skip(0) =~= v@);
    while i <= n
        invariant
            n == v@.len(),
            v@ == body@,
            pat@ == "\"id\":\""@,
            pat@.len() == 6,
            quote_ch@ == seq!['"'],
            i <= n,
            ids_spec(body@) == r@.map_values(|x: String| x@) + ids_spec(v@.skip(i as int)),
        decreases n + 1 - i,
    {
        let ghost s = v@.skip(i as int);
        let ghost before = r@.map_values(|x: String| x@);
        match find_exec(&v, i, &pat) {
            None => {
                assert(ids_spec(s) =~= Seq::<Seq<char>>::empty());
                assert(before + ids_spec(s) =~= before);
                return r;
            },
            Some(p) => {
                let a = p + 6;
                let ghost t = v@.skip(a as int);
                assert(s.skip(p - i + 6) =~= t);
                match find_exec(&v, a, &quote_ch) {
                    Some(e) => {
                        r.push(string_of(&v, a, e));
                        assert(t.take(e - a) =~= v@.subrange(a as int, e as int));
                        assert(t.skip(e - a + 1) =~= v@.skip(e + 1));
                        assert(r@.map_values(|x: String| x@) =~= before.push(t.take(e - a)));
                        i = e + 1;
                    },
                    None => {
                        i = a;
                    },
                }
            },
        }
    }
    r
}

/// The arguments of the request that lists the models.
pub fn models_args(base_url: &str, api_key: &str) -> (r: Vec<String>)
    ensures
        r@.map_values(|x: String| x@) == seq![
            "-s"@,
            "--fail-with-body"@,
            base_url@ + "/models"@,
            "-H"@,
            "Authorization: Bearer "@ + api_key@,
        ],
{
    let mut url = String::new();
    push_str(&mut url, base_url);
    push_str(&mut url, "/models");
    let mut auth = String::new();
    push_str(&mut auth, "Authorization: Bearer ");
    push_str(&mut auth, api_key);
    let r = vec!["-s".to_string(), "--fail-with-body".to_string(), url, "-H".to_string(), auth];
    assert(r@.map_values(|x: String| x@) =~= seq![
        "-s"@,
        "--fail-with-body"@,
        base_url@ + "/models"@,
        "-H"@,
        "Authorization: Bearer "@ + api_key@,
    ]);
    r
}

/// The arguments of a streamed chat request with the JSON `body`.
pub fn chat_args(base_url: &str, api_key: &str, body: &str) -> (r: Vec<String>)
    ensures
        r@.map_values(|x: String| x@) == seq![
            "-sNi"@,
            "-X"@,
            "POST"@,
            base_url@ + "/chat/completions"@,
            "-H"@,
            "Content-Type: application/json"@,
            "-H"@,
            "Authorization: Bearer "@ + api_key@,
            "-d"@,
            body@,
        ],
{
    let mut url = String::new();
    push_str(&mut url, base_url);
    push_str(&mut url, "/chat/completions");
    let mut auth = String::new();
    push_str(&mut auth, "Authorization: Bearer ");
    push_str(&mut auth, api_key);
    let r = vec![
        "-sNi".to_string(),
        "-X".to_string(),
        "POST".to_string(),
        url,
        "-H".to_string(),
        "Content-Type: application/json".to_string(),
        "-H".to_string(),
        auth,
        "-d".to_string(),
        body.to_string(),
    ];
    assert(r@.map_values(|x: String| x@) =~= seq![
        "-sNi"@,
        "-X"@,
        "POST"@,
        base_url@ + "/chat/completions"@,
        "-H"@,
        "Content-Type: application/json"@,
        "-H"@,
        "Authorization: Bearer "@ + api_key@,
        "-d"@,
        body@,
    ]);
    r
}

} // verus!
