//! The chat context: settings and messages, kept in a file between runs.
use vstd::prelude::*;
use vstd::utf8::{decode_utf8, encode_utf8, valid_utf8};
use crate::text::{chars_of, eq_str, string_of};

verus! {

/// One chat message.
pub struct Message {
    pub role: String,
    pub content: String,
}

impl Message {
    pub fn new(role: &str, content: &str) -> (m: Message)
        ensures
            m.role@ == role@,
            m.content@ == content@,
    {
        Message { role: role.to_string(), content: content.to_string() }
    }
}

/// The model, the variable holding the API key, the API address, and the
/// conversation so far.
pub struct ChatConfig {
    pub model: String,
    pub api_key_env: Option<String>,
    pub api_url: Option<String>,
    pub messages: Vec<Message>,
}

/// What a configuration stands for.
pub struct ConfigV {
    pub model: Seq<char>,
    pub api_key_env: Option<Seq<char>>,
    pub api_url: Option<Seq<char>>,
    pub messages: Seq<(Seq<char>, Seq<char>)>,
}

pub open spec fn opt_str(o: Option<String>) -> Option<Seq<char>> {
    match o {
        Some(s) => Some(s@),
        None => None,
    }
}

pub open spec fn msgs_view(m: Seq<Message>) -> Seq<(Seq<char>, Seq<char>)> {
    m.map_values(|x: Message| (x.role@, x.content@))
}

pub open spec fn config_view(c: ChatConfig) -> ConfigV {
    ConfigV {
        model: c.model@,
        api_key_env: opt_str(c.api_key_env),
        api_url: opt_str(c.api_url),
        messages: msgs_view(c.messages@),
    }
}

/// The model used when none is set.
pub open spec fn default_model(env: Option<Seq<char>>) -> Seq<char> {
    match env {
        Some(m) => m,
        None => "gpt-5.5"@,
    }
}

pub open spec fn fresh_config(env: Option<Seq<char>>) -> ConfigV {
    ConfigV { model: default_model(env), api_key_env: None, api_url: None, messages: Seq::empty() }
}

/// What `String::from_utf8_lossy` makes of bytes that are not valid UTF-8
/// (each invalid part becomes U+FFFD).
pub uninterp spec fn lossy_text(b: Seq<u8>) -> Seq<char>;

/// The text of some bytes: their characters if they are valid UTF-8, else
/// what the lossy decoding makes of them.
pub open spec fn utf8_text(b: Seq<u8>) -> Seq<char> {
    if valid_utf8(b) {
        decode_utf8(b)
    } else {
        lossy_text(b)
    }
}

/// Decodes bytes with `String::from_utf8_lossy`: valid UTF-8 gives its
/// characters, as the function's documentation says; otherwise the result
/// depends on the bytes alone and is named `lossy_text`.
#[verifier::external_body]
fn lossy(b: &[u8]) -> (r: String)
    ensures
        valid_utf8(b@) ==> r@ == decode_utf8(b@),
        !valid_utf8(b@) ==> r@ == lossy_text(b@),
{
    String::from_utf8_lossy(b).into_owned()
}

impl ChatConfig {
    /// A fresh configuration: the model named by `env_model` (the value of
    /// `OPENAI_DEFAULT_MODEL`, if set) or `gpt-5.5`, and no messages.
    pub fn new(env_model: Option<String>) -> (c: ChatConfig)
        ensures
            config_view(c) == fresh_config(opt_str(env_model)),
    {
        let model = match env_model {
            Some(m) => m,
            None => "gpt-5.5".to_string(),
        };
        let messages: Vec<Message> = Vec::new();
        assert(msgs_view(messages@) =~= Seq::empty());
        ChatConfig { model, api_key_env: None, api_url: None, messages }
    }
}

// ---- the file format ----------------------------------------------------------------

/// The first index `p` with two zero bytes at `p` and `p + 1`.
pub open spec fn find00(d: Seq<u8>, p: int) -> Option<int>
    decreases d.len() - p,
{
    if p < 0 || p + 1 >= d.len() {
        None
    } else if d[p] == 0 && d[p + 1] == 0 {
        Some(p)
    } else {
        find00(d, p + 1)
    }
}

/// The settings part and the messages part: split at the first two zero
/// bytes in a row, or all settings.
pub open spec fn sections(d: Seq<u8>) -> (Seq<u8>, Seq<u8>) {
    match find00(d, 0) {
        Some(p) => (d.take(p), d.skip(p + 2)),
        None => (d, Seq::empty()),
    }
}

/// The first zero byte of `d`.
pub open spec fn zero_at(d: Seq<u8>) -> Option<int>
    decreases d.len(),
{
    if d.len() == 0 {
        None
    } else if d[0] == 0 {
        Some(0)
    } else {
        match zero_at(d.drop_first()) {
            Some(k) => Some(k + 1),
            None => None,
        }
    }
}

pub proof fn lemma_zero_at(d: Seq<u8>)
    ensures
        zero_at(d) matches Some(k) ==> 0 <= k < d.len() && d[k] == 0 && forall|j: int|
            0 <= j < k ==> #[trigger] d[j] != 0,
        zero_at(d) is None ==> forall|j: int| 0 <= j < d.len() ==> #[trigger] d[j] != 0,
    decreases d.len(),
{
    if d.len() > 0 {
        lemma_zero_at(d.drop_first());
        assert forall|j: int| 0 < j < d.len() implies d[j] == d.drop_first()[j - 1] by {}
    }
}

/// The pieces of `d` between zero bytes (`<[u8]>::split`): one more than
/// there are zeros.
pub open spec fn split0(d: Seq<u8>) -> Seq<Seq<u8>>
    decreases d.len(),
{
    match zero_at(d) {
        None => seq![d],
        Some(z) => {
            proof {
                lemma_zero_at(d);
            }
            seq![d.take(z)] + split0(d.skip(z + 1))
        },
    }
}

/// The first `'\n'` of `s`.
pub open spec fn nl_at(s: Seq<char>) -> Option<int>
    decreases s.len(),
{
    if s.len() == 0 {
        None
    } else if s[0] == '\n' {
        Some(0)
    } else {
        match nl_at(s.drop_first()) {
            Some(k) => Some(k + 1),
            None => None,
        }
    }
}

pub proof fn lemma_nl_at(s: Seq<char>)
    ensures
        nl_at(s) matches Some(k) ==> 0 <= k < s.len() && s[k] == '\n' && forall|j: int|
            0 <= j < k ==> #[trigger] s[j] != '\n',
        nl_at(s) is None ==> forall|j: int| 0 <= j < s.len() ==> #[trigger] s[j] != '\n',
    decreases s.len(),
{
    if s.len() > 0 {
        lemma_nl_at(s.drop_first());
        assert forall|j: int| 0 < j < s.len() implies s[j] == s.drop_first()[j - 1] by {}
    }
}

/// `s` split at its first newline (`str::split_once('\n')`).
pub open spec fn split_nl(s: Seq<char>) -> Option<(Seq<char>, Seq<char>)> {
    match nl_at(s) {
        Some(k) => Some((s.take(k), s.skip(k + 1))),
        None => None,
    }
}

/// A settings record applied: `model`, `api_key_env` and `api_url` set
/// their field; anything else is ignored.
pub open spec fn apply_record(c: ConfigV, rec: Seq<u8>) -> ConfigV {
    match split_nl(utf8_text(rec)) {
        Some((k, v)) => if k == "model"@ {
            ConfigV { model: v, ..c }
        } else if k == "api_key_env"@ {
            ConfigV { api_key_env: Some(v), ..c }
        } else if k == "api_url"@ {
            ConfigV { api_url: Some(v), ..c }
        } else {
            c
        },
        None => c,
    }
}

/// The settings records applied in order.
pub open spec fn apply_records(c: ConfigV, recs: Seq<Seq<u8>>) -> ConfigV
    decreases recs.len(),
{
    if recs.len() == 0 {
        c
    } else {
        apply_records(apply_record(c, recs[0]), recs.drop_first())
    }
}

/// The messages of the message records: a non-empty record is role, a
/// newline, and content; one without a newline is skipped.
pub open spec fn read_messages(recs: Seq<Seq<u8>>) -> Seq<(Seq<char>, Seq<char>)>
    decreases recs.len(),
{
    if recs.len() == 0 {
        Seq::empty()
    } else {
        (if recs[0].len() == 0 {
            Seq::empty()
        } else {
            match split_nl(utf8_text(recs[0])) {
                Some(m) => seq![m],
                None => Seq::empty(),
            }
        }) + read_messages(recs.drop_first())
    }
}

/// The configuration a context file holds.
pub open spec fn parse_spec(d: Seq<u8>, env: Option<Seq<char>>) -> ConfigV {
    let (cfg, msgs) = sections(d);
    ConfigV {
        messages: read_messages(split0(msgs)),
        ..apply_records(fresh_config(env), split0(cfg))
    }
}

/// One settings record as bytes: key, newline, value, zero.
pub open spec fn record(k: Seq<char>, v: Seq<char>) -> Seq<u8> {
    encode_utf8(k) + seq![10u8] + encode_utf8(v) + seq![0u8]
}

pub open spec fn message_records(ms: Seq<(Seq<char>, Seq<char>)>) -> Seq<u8>
    decreases ms.len(),
{
    if ms.len() == 0 {
        Seq::empty()
    } else {
        message_records(ms.drop_last()) + record(ms.last().0, ms.last().1)
    }
}

/// The bytes of a context file: the model, the key variable and the address
/// if set, a zero byte, then the messages.
pub open spec fn serialize_spec(c: ConfigV) -> Seq<u8> {
    record("model"@, c.model) + (match c.api_key_env {
        Some(v) => record("api_key_env"@, v),
        None => Seq::empty(),
    }) + (match c.api_url {
        Some(v) => record("api_url"@, v),
        None => Seq::empty(),
    }) + seq![0u8] + message_records(c.messages)
}

fn push_bytes(out: &mut Vec<u8>, s: &str)
    ensures
        final(out)@ == old(out)@ + encode_utf8(s@),
{
    let b = s.as_bytes();
    let mut i: usize = 0;
    while i < b.len()
        invariant
            i <= b@.len(),
            b@ == encode_utf8(s@),
            out@ == old(out)@ + b@.take(i as int),
        decreases b@.len() - i,
    {
        out.push(b[i]);
        i = i + 1;
        assert(out@ =~= old(out)@ + b@.take(i as int));
    }
    assert(b@.take(b@.len() as int) =~= b@);
}

fn push_record(out: &mut Vec<u8>, k: &str, v: &str)
    ensures
        final(out)@ == old(out)@ + record(k@, v@),
{
    push_bytes(out, k);
    out.push(10u8);
    push_bytes(out, v);
    out.push(0u8);
    assert(out@ =~= old(out)@ + record(k@, v@));
}

/// The first zero byte in `d[lo..hi]`, or `hi`.
fn zero_from(d: &[u8], lo: usize, hi: usize) -> (z: usize)
    requires
        lo <= hi <= d@.len(),
    ensures
        lo <= z <= hi,
        match zero_at(d@.subrange(lo as int, hi as int)) {
            Some(k) => z == lo + k,
            None => z == hi,
        },
{
    let ghost s = d@.subrange(lo as int, hi as int);
    proof {
        lemma_zero_at(s);
    }
    let mut z = lo;
    while z < hi && d[z] != 0
        invariant
            lo <= z <= hi <= d@.len(),
            s == d@.subrange(lo as int, hi as int),
            forall|j: int| lo <= j < z ==> #[trigger] d@[j] != 0,
        decreases hi - z,
    {
        z = z + 1;
    }
    proof {
        if z < hi {
            assert(s[z - lo] == 0);
        }
        match zero_at(s) {
            Some(k) => {
                assert(s[k] == d@[lo + k]);
                if z < hi {
                    assert(s[z - lo] == d@[z as int]);
                }
            },
            None => {
                if z < hi {
                    assert(s[z - lo] == d@[z as int]);
                }
            },
        }
    }
    z
}

/// The bytes `d[lo..hi]`.
fn bytes_of(d: &[u8], lo: usize, hi: usize) -> (r: Vec<u8>)
    requires
        lo <= hi <= d@.len(),
    ensures
        r@ == d@.subrange(lo as int, hi as int),
{
    let mut r: Vec<u8> = Vec::new();
    let mut i = lo;
    while i < hi
        invariant
            lo <= i <= hi <= d@.len(),
            r@ == d@.subrange(lo as int, i as int),
        decreases hi - i,
    {
        r.push(d[i]);
        i = i + 1;
        assert(r@ =~= d@.subrange(lo as int, i as int));
    }
    r
}

/// `s` split at its first newline.
fn split_newline(s: &str) -> (r: Option<(String, String)>)
    ensures
        match split_nl(s@) {
            Some(p) => r matches Some(x) && x.0@ == p.0 && x.1@ == p.1,
            None => r is None,
        },
{
    let v = chars_of(s);
    proof {
        lemma_nl_at(s@);
    }
    let mut i: usize = 0;
    while i < v.len()
        invariant
            i <= v@.len(),
            v@ == s@,
            forall|j: int| 0 <= j < i ==> #[trigger] v@[j] != '\n',
        decreases v@.len() - i,
    {
        if v[i] == '\n' {
            proof {
                lemma_nl_at(s@);
            }
            let a = string_of(&v, 0, i);
            let b = string_of(&v, i + 1, v.len());
            proof {
                if let Some(k) = nl_at(s@) {
                    if k != i {
                        assert(s@[k] == '\n');
                    }
                }
            }
            assert(b@ =~= s@.skip(i + 1));
            assert(a@ =~= s@.take(i as int));
            return Some((a, b));
        }
        i = i + 1;
    }
    proof {
        lemma_nl_at(s@);
        if let Some(k) = nl_at(s@) {
            assert(s@[k] == '\n');
        }
    }
    None
}

/// The first index of two zero bytes in a row.
fn find_zero_pair(d: &[u8]) -> (r: Option<usize>)
    ensures
        r matches Some(p) ==> find00(d@, 0) == Some(p as int) && p + 1 < d@.len(),
        r is None <==> find00(d@, 0) is None,
{
    let n = d.len();
    let mut p: usize = 0;
    while n > 0 && p < n - 1
        invariant
            n == d@.len(),
            p <= n,
            find00(d@, 0) == find00(d@, p as int),
        decreases n - p,
    {
        if d[p] == 0 && d[p + 1] == 0 {
            return Some(p);
        }
        p = p + 1;
    }
    None
}

impl ChatConfig {
    /// The bytes of the context file (see `serialize_spec`).
    pub fn serialize(&self) -> (r: Vec<u8>)
        ensures
            r@ == serialize_spec(config_view(*self)),
    {
        let mut out: Vec<u8> = Vec::new();
        push_record(&mut out, "model", self.model.as_str());
        let ghost a = out@;
        match &self.api_key_env {
            Some(v) => push_record(&mut out, "api_key_env", v.as_str()),
            None => {},
        }
        let ghost b = out@;
        match &self.api_url {
            Some(v) => push_record(&mut out, "api_url", v.as_str()),
            None => {},
        }
        out.push(0u8);
        let ghost head = out@;
        let mut i: usize = 0;
        while i < self.messages.len()
            invariant
                i <= self.messages@.len(),
                out@ == head + message_records(msgs_view(self.messages@).take(i as int)),
            decreases self.messages@.len() - i,
        {
            let m = &self.messages[i];
            push_record(&mut out, m.role.as_str(), m.content.as_str());
            assert(msgs_view(self.messages@).take(i + 1).drop_last() =~= msgs_view(
                self.messages@,
            ).take(i as int));
            assert(msgs_view(self.messages@)[i as int] == (m.role@, m.content@));
            i = i + 1;
            assert(out@ =~= head + message_records(msgs_view(self.messages@).take(i as int)));
        }
        assert(msgs_view(self.messages@).take(self.messages@.len() as int) =~= msgs_view(
            self.messages@,
        ));
        assert(out@ =~= serialize_spec(config_view(*self)));
        out
    }

    /// Applies one settings record (see `apply_record`).
    fn apply_rec(&mut self, rec: &[u8])
        ensures
            config_view(*final(self)) == apply_record(config_view(*old(self)), rec@),
    {
        let text = lossy(rec);
        match split_newline(text.as_str()) {
            Some((k, v)) => {
                if eq_str(k.as_str(), "model") {
                    self.model = v;
                } else if eq_str(k.as_str(), "api_key_env") {
                    self.api_key_env = Some(v);
                } else if eq_str(k.as_str(), "api_url") {
                    self.api_url = Some(v);
                }
            },
            None => {},
        }
    }

    /// Reads a context file (see `parse_spec`); a fresh configuration
    /// (model from `env_model`) is the starting point.
    pub fn parse(data: &[u8], env_model: Option<String>) -> (c: ChatConfig)
        ensures
            config_view(c) == parse_spec(data@, opt_str(env_model)),
    {
        let mut config = ChatConfig::new(env_model);
        let ghost start = config_view(config);
        let n = data.len();
        let (cfg_end, msg_start) = match find_zero_pair(data) {
            Some(p) => {
                assert(data@.take(p as int) =~= data@.subrange(0, p as int));
                assert(data@.skip(p + 2) =~= data@.subrange(p + 2, n as int));
                (p, p + 2)
            },
            None => {
                assert(data@.subrange(0, n as int) =~= data@);
                assert(data@.subrange(n as int, n as int) =~= Seq::<u8>::empty());
                (n, n)
            },
        };
        // settings records
        let mut lo: usize = 0;
        loop
            invariant_except_break
                lo <= cfg_end <= n,
                n == data@.len(),
                apply_records(config_view(config), split0(data@.subrange(lo as int, cfg_end as int)))
                    == apply_records(start, split0(sections(data@).0)),
                sections(data@).0 == data@.subrange(0, cfg_end as int),
            ensures
                config_view(config) == apply_records(start, split0(sections(data@).0)),
            decreases cfg_end - lo,
        {
            let ghost rest = data@.subrange(lo as int, cfg_end as int);
            let ghost old_cv = config_view(config);
            let z = zero_from(data, lo, cfg_end);
            proof {
                lemma_zero_at(rest);
            }
            let rec = bytes_of(data, lo, z);
            config.apply_rec(rec.as_slice());
            if z == cfg_end {
                assert(split0(rest) == seq![rest]);
                assert(seq![rest].drop_first() =~= Seq::<Seq<u8>>::empty());
                assert(rec@ == rest);
                assert(apply_records(old_cv, seq![rest]) == apply_records(
                    apply_record(old_cv, rest),
                    Seq::<Seq<u8>>::empty(),
                ));
                break;
            }
            proof {
                lemma_zero_at(rest);
                assert(rest.take(z - lo) =~= data@.subrange(lo as int, z as int));
                assert(rest.skip(z - lo + 1) =~= data@.subrange(z + 1, cfg_end as int));
                assert((seq![rest.take(z - lo)] + split0(rest.skip(z - lo + 1))).drop_first() =~= split0(rest.skip(z - lo + 1)));
            }
            lo = z + 1;
        }
        // message records
        let mut msgs: Vec<Message> = Vec::new();
        let mut lo: usize = msg_start;
        assert(msgs_view(msgs@) =~= Seq::empty());
        loop
            invariant_except_break
                msg_start <= lo <= n,
                n == data@.len(),
                msgs_view(msgs@) + read_messages(split0(data@.subrange(lo as int, n as int)))
                    == read_messages(split0(sections(data@).1)),
                sections(data@).1 == data@.subrange(msg_start as int, n as int),
            ensures
                msgs_view(msgs@) == read_messages(split0(sections(data@).1)),
            decreases n - lo,
        {
            let ghost rest = data@.subrange(lo as int, n as int);
            let ghost before = msgs_view(msgs@);
            let z = zero_from(data, lo, n);
            proof {
                lemma_zero_at(rest);
            }
            let ghost piece = if z == n { rest } else { rest.take(z - lo) };
            assert(data@.subrange(lo as int, z as int) =~= piece);
            if z > lo {
                let rec = bytes_of(data, lo, z);
                let text = lossy(rec.as_slice());
                match split_newline(text.as_str()) {
                    Some((role, content)) => {
                        msgs.push(Message { role, content });
                    },
                    None => {},
                }
            }
            if z == n {
                assert(split0(rest) == seq![rest]);
                assert(seq![rest].drop_first() =~= Seq::<Seq<u8>>::empty());
                assert(read_messages(seq![rest]) =~= (if rest.len() == 0 {
                    Seq::empty()
                } else {
                    match split_nl(utf8_text(rest)) {
                        Some(m) => seq![m],
                        None => Seq::empty(),
                    }
                }) + read_messages(Seq::<Seq<u8>>::empty()));
                assert(msgs_view(msgs@) =~= before + read_messages(seq![rest]));
                break;
            }
            proof {
                assert(rest.skip(z - lo + 1) =~= data@.subrange(z + 1, n as int));
                let tail = split0(rest.skip(z - lo + 1));
                assert((seq![piece] + tail).drop_first() =~= tail);
                assert(split0(rest) == seq![piece] + tail);
                assert(msgs_view(msgs@) + read_messages(tail) =~= before + read_messages(split0(rest)));
            }
            lo = z + 1;
        }
        config.messages = msgs;
        config
    }
}

} // verus!
