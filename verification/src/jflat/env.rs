//! Turning flat lines into shell variable assignments.
use vstd::prelude::*;
use crate::jflat::line::{lines, lines_of, split_breaks, split_line, split_line_breaks, split_spec};
use crate::jflat::path::{parse_path, parse_path_spec, path_view, Seg, SegV};
use crate::jsonlite::{unescape_body, unquote, unquote_inner};
use crate::text::{chars_of, dec_val, decimal, eq_str, lemma_decimal_parses, push_char, push_decimal, push_str};

verus! {

/// The text a segment contributes to a variable name.
pub open spec fn seg_raw(g: SegV) -> Seq<char> {
    match g {
        SegV::Key(k) => k,
        SegV::Idx(i) => decimal(i),
    }
}

pub open spec fn is_alnum(c: char) -> bool {
    ('a' <= c && c <= 'z') || ('A' <= c && c <= 'Z') || ('0' <= c && c <= '9')
}

/// `char::to_ascii_uppercase`.
pub open spec fn upper(c: char) -> char {
    if 'a' <= c && c <= 'z' {
        (c as int - 32) as char
    } else {
        c
    }
}

/// Letters and digits upper-cased, every run of other characters one `_`
/// (`prev` says whether a `_` was just written).
pub open spec fn collapse(raw: Seq<char>, prev: bool) -> Seq<char>
    decreases raw.len(),
{
    if raw.len() == 0 {
        Seq::empty()
    } else if is_alnum(raw[0]) {
        seq![upper(raw[0])] + collapse(raw.drop_first(), false)
    } else if !prev {
        seq!['_'] + collapse(raw.drop_first(), true)
    } else {
        collapse(raw.drop_first(), true)
    }
}

/// One segment's part of a name: collapsed, and ending in one `_`.
pub open spec fn env_chunk(raw: Seq<char>) -> Seq<char> {
    let c = collapse(raw, false);
    if c.len() > 0 && c.last() == '_' {
        c
    } else {
        c + seq!['_']
    }
}

/// The chunks of all segments of `p`, one after the other.
pub open spec fn env_raw(p: Seq<SegV>) -> Seq<char>
    decreases p.len(),
{
    if p.len() == 0 {
        Seq::empty()
    } else {
        env_raw(p.drop_last()) + env_chunk(seg_raw(p.last()))
    }
}

/// `s` without trailing `c`s.
pub open spec fn strip_end(s: Seq<char>, c: char) -> Seq<char>
    decreases s.len(),
{
    if s.len() > 0 && s.last() == c {
        strip_end(s.drop_last(), c)
    } else {
        s
    }
}

/// `s` without leading `c`s.
pub open spec fn strip_start(s: Seq<char>, c: char) -> Seq<char>
    decreases s.len(),
{
    if s.len() > 0 && s[0] == c {
        strip_start(s.drop_first(), c)
    } else {
        s
    }
}

/// The shell variable name for the path `p`.
pub open spec fn env_key(p: Seq<SegV>) -> Seq<char> {
    strip_start(strip_end(env_raw(p), '_'), '_')
}

fn push_chunk(out: &mut String, raw: &str)
    ensures
        final(out)@ == old(out)@ + env_chunk(raw@),
{
    let v = chars_of(raw);
    let n = v.len();
    let ghost start = out@;
    let mut prev = false;
    let mut i: usize = 0;
    assert(v@.skip(0) =~= v@);
    assert(start + collapse(v@, false) =~= out@ + collapse(v@.skip(0), prev));
    while i < n
        invariant
            n == v@.len(),
            i <= n,
            out@ + collapse(v@.skip(i as int), prev) == start + collapse(v@, false),
            prev <==> (out@.len() > start.len() && out@.last() == '_'),
            out@.len() >= start.len(),
            out@.subrange(0, start.len() as int) == start,
        decreases n - i,
    {
        let ghost before = out@;
        let ghost rest = v@.skip(i as int);
        let c = v[i];
        assert(rest.drop_first() =~= v@.skip(i + 1));
        if ('a' <= c && c <= 'z') || ('A' <= c && c <= 'Z') || ('0' <= c && c <= '9') {
            let u = if 'a' <= c && c <= 'z' {
                ((c as u32 - 32) as u8) as char
            } else {
                c
            };
            assert(u == upper(c));
            push_char(out, u);
            prev = false;
            assert(out@ + collapse(v@.skip(i + 1), prev) =~= before + collapse(rest, false));
            assert(collapse(rest, false) == collapse(rest, true));
        } else if !prev {
            push_char(out, '_');
            prev = true;
            assert(out@ + collapse(v@.skip(i + 1), prev) =~= before + collapse(rest, false));
        }
        assert(out@.subrange(0, start.len() as int) =~= start);
        i = i + 1;
    }
    assert(v@.skip(n as int) =~= Seq::<char>::empty());
    let ghost c = collapse(v@, false);
    assert(out@ =~= start + c);
    if !prev {
        push_char(out, '_');
    }
    assert(final(out)@ =~= old(out)@ + env_chunk(raw@));
}

/// The shell variable name for a path: every segment's text with letters and
/// digits upper-cased and other runs made one `_`, segments joined by `_`,
/// and no `_` at either end.
pub fn path_to_env_key(segs: &[Seg]) -> (res: String)
    ensures
        res@ == env_key(path_view(segs@)),
{
    let mut key = String::new();
    let mut i: usize = 0;
    while i < segs.len()
        invariant
            i <= segs@.len(),
            key@ == env_raw(path_view(segs@.take(i as int))),
        decreases segs@.len() - i,
    {
        let ghost before = key@;
        match &segs[i] {
            Seg::Key(k) => push_chunk(&mut key, k.as_str()),
            Seg::Idx(x) => {
                let mut d = String::new();
                push_decimal(&mut d, *x);
                assert(d@ =~= decimal(*x as nat));
                push_chunk(&mut key, d.as_str());
            },
        }
        assert(path_view(segs@.take(i + 1)).drop_last() =~= path_view(segs@.take(i as int)));
        i = i + 1;
    }
    assert(segs@.take(segs@.len() as int) =~= segs@);
    let v = chars_of(key.as_str());
    let mut hi = v.len();
    assert(v@.take(hi as int) =~= v@);
    while hi > 0 && v[hi - 1] == '_'
        invariant
            hi <= v@.len(),
            strip_end(v@, '_') == strip_end(v@.take(hi as int), '_'),
        decreases hi,
    {
        assert(v@.take(hi as int).drop_last() =~= v@.take(hi - 1));
        hi = hi - 1;
    }
    let mut lo: usize = 0;
    while lo < hi && v[lo] == '_'
        invariant
            lo <= hi <= v@.len(),
            strip_start(v@.take(hi as int), '_') == strip_start(v@.subrange(lo as int, hi as int), '_'),
        decreases hi - lo,
    {
        assert(v@.subrange(lo as int, hi as int).drop_first() =~= v@.subrange(lo + 1, hi as int));
        lo = lo + 1;
    }
    assert(v@.take(hi as int) =~= v@.subrange(0, hi as int));
    crate::text::string_of(&v, lo, hi)
}

/// `s` with each `'` written as `'\''`.
pub open spec fn sh_escape(s: Seq<char>) -> Seq<char>
    decreases s.len(),
{
    if s.len() == 0 {
        Seq::empty()
    } else {
        sh_escape(s.drop_last()) + if s.last() == '\'' {
            seq!['\'', '\\', '\'', '\'']
        } else {
            seq![s.last()]
        }
    }
}

/// `s` in single quotes for a POSIX shell.
pub open spec fn sh_quoted(s: Seq<char>) -> Seq<char> {
    seq!['\''] + sh_escape(s) + seq!['\'']
}

/// Quotes `s` for a POSIX shell: in single quotes, each `'` as `'\''`.
pub fn bash_quote(s: &str) -> (res: String)
    ensures
        res@ == sh_quoted(s@),
{
    let v = chars_of(s);
    let mut out = String::new();
    push_char(&mut out, '\'');
    let mut i: usize = 0;
    while i < v.len()
        invariant
            i <= v@.len(),
            out@ == seq!['\''] + sh_escape(v@.take(i as int)),
        decreases v@.len() - i,
    {
        if v[i] == '\'' {
            push_char(&mut out, '\'');
            push_char(&mut out, '\\');
            push_char(&mut out, '\'');
            push_char(&mut out, '\'');
        } else {
            push_char(&mut out, v[i]);
        }
        assert(v@.take(i + 1).drop_last() =~= v@.take(i as int));
        i = i + 1;
        assert(out@ =~= seq!['\''] + sh_escape(v@.take(i as int)));
    }
    assert(v@.take(v@.len() as int) =~= v@);
    push_char(&mut out, '\'');
    out
}

/// What one flat line contributes to the shell output.
pub enum EnvLine {
    /// Nothing (an empty line, an empty name, a container).
    Skip,
    /// This `NAME=value` line.
    Emit(Seq<char>),
    /// The conversion stops with this message.
    Fail(Seq<char>),
    /// The byte-wise split of the line would panic (see `split_breaks`).
    Panics,
}

/// The value written for a leaf of type `t` whose field is `v`, or `None`
/// for a type that writes nothing; `Fail` for an unknown type.
pub open spec fn env_value(t: Seq<char>, v: Seq<char>) -> Option<Option<Seq<char>>> {
    if t == "null"@ {
        Some(Some(Seq::empty()))
    } else if t == "boolean"@ || t == "number"@ || t == "time"@ {
        Some(Some(v))
    } else if t == "string"@ {
        Some(Some(sh_quoted(unescape_body(unquote_inner(v)))))
    } else if t == "object"@ || t == "array"@ {
        Some(None)
    } else {
        None
    }
}

/// What the flat line `line` becomes.
pub open spec fn env_line(line: Seq<char>, sep: Seq<char>) -> EnvLine {
    if line.len() == 0 {
        EnvLine::Skip
    } else if split_breaks(line, sep) {
        EnvLine::Panics
    } else {
        match split_spec(line, sep) {
            None => EnvLine::Fail("malformed line: "@ + line),
            Some(f) => {
                let key = env_key(parse_path_spec(f.0));
                if key.len() == 0 {
                    EnvLine::Skip
                } else {
                    match env_value(f.1, f.2) {
                        None => EnvLine::Fail("unknown type: "@ + f.1),
                        Some(None) => EnvLine::Skip,
                        Some(Some(val)) => EnvLine::Emit(key + seq!['='] + val + seq!['\n']),
                    }
                }
            },
        }
    }
}

/// The outcome of converting the lines `ls`, first to last: the text, the
/// first failure, or a panic.
pub enum EnvRun {
    Done(Seq<char>),
    Failed(Seq<char>),
    Panics,
}

pub open spec fn env_run(ls: Seq<Seq<char>>, sep: Seq<char>) -> EnvRun
    decreases ls.len(),
{
    if ls.len() == 0 {
        EnvRun::Done(Seq::empty())
    } else {
        match env_run(ls.drop_last(), sep) {
            EnvRun::Done(o) => match env_line(ls.last(), sep) {
                EnvLine::Skip => EnvRun::Done(o),
                EnvLine::Emit(t) => EnvRun::Done(o + t),
                EnvLine::Fail(e) => EnvRun::Failed(e),
                EnvLine::Panics => EnvRun::Panics,
            },
            other => other,
        }
    }
}

/// The outcome of `do_unflatten_env(input, sep)`.
pub open spec fn unflatten_env_spec(input: Seq<char>, sep: Seq<char>) -> EnvRun {
    env_run(lines_of(input), sep)
}

/// Converts flat lines into `NAME=value` shell assignments, one per leaf:
/// `null` gives an empty value, strings are unquoted and put in single
/// quotes, booleans, numbers and times are copied, containers and paths
/// whose name is empty are skipped. A line without two separators, or
/// with another type, stops the conversion with an error.
pub fn do_unflatten_env(input: &str, sep: &str) -> (res: Result<String, String>)
    requires
        !(unflatten_env_spec(input@, sep@) is Panics),
    ensures
        match unflatten_env_spec(input@, sep@) {
            EnvRun::Done(o) => res matches Ok(r) && r@ == o,
            EnvRun::Failed(e) => res matches Err(m) && m@ == e,
            EnvRun::Panics => false,
        },
{
    let ls = lines(input);
    let ghost lv = lines_of(input@);
    let mut out = String::new();
    let mut i: usize = 0;
    proof {
        lemma_run_prefix(lv, sep@, 0);
    }
    while i < ls.len()
        invariant
            i <= ls@.len(),
            ls@.len() == lv.len(),
            lv == lines_of(input@),
            forall|k: int| 0 <= k < ls@.len() ==> #[trigger] ls@[k]@ == lv[k],
            !(env_run(lv, sep@) is Panics),
            env_run(lv.take(i as int), sep@) == EnvRun::Done(out@),
        decreases ls@.len() - i,
    {
        let line = ls[i].as_str();
        proof {
            lemma_run_prefix(lv, sep@, i + 1);
            assert(lv.take(i + 1).drop_last() =~= lv.take(i as int));
            assert(lv.take(i + 1).last() == line@);
        }
        let ghost before = out@;
        match env_line_exec(line, sep) {
            LineOut::Skip => {},
            LineOut::Emit(t) => {
                push_str(&mut out, t.as_str());
            },
            LineOut::Fail(e) => {
                proof {
                    lemma_failed_stays(lv, sep@, i + 1);
                }
                return Err(e);
            },
        }
        i = i + 1;
    }
    assert(lv.take(ls@.len() as int) =~= lv);
    Ok(out)
}

/// Whether `do_unflatten_env(input, sep)` would reach a line whose byte-wise
/// split panics (`split_breaks`) before it ends.
pub fn unflatten_env_panics(input: &str, sep: &str) -> (b: bool)
    ensures
        b == (unflatten_env_spec(input@, sep@) is Panics),
{
    let ls = lines(input);
    let ghost lv = lines_of(input@);
    let mut i: usize = 0;
    while i < ls.len()
        invariant
            i <= ls@.len(),
            ls@.len() == lv.len(),
            lv == lines_of(input@),
            forall|k: int| 0 <= k < ls@.len() ==> #[trigger] ls@[k]@ == lv[k],
            env_run(lv.take(i as int), sep@) is Done,
        decreases ls@.len() - i,
    {
        let line = ls[i].as_str();
        proof {
            assert(lv.take(i + 1).drop_last() =~= lv.take(i as int));
            assert(lv.take(i + 1).last() == line@);
        }
        if !line.is_empty() && split_line_breaks(line, sep) {
            proof {
                lemma_failed_stays(lv, sep@, i + 1);
            }
            return true;
        }
        match env_line_exec(line, sep) {
            LineOut::Fail(_) => {
                proof {
                    lemma_failed_stays(lv, sep@, i + 1);
                }
                return false;
            },
            _ => {},
        }
        i = i + 1;
    }
    assert(lv.take(ls@.len() as int) =~= lv);
    false
}

/// One line's result, as `env_line` gives it.
enum LineOut {
    Skip,
    Emit(String),
    Fail(String),
}

/// A prefix of a run that does not panic does not panic either.
proof fn lemma_run_prefix(ls: Seq<Seq<char>>, sep: Seq<char>, n: int)
    requires
        0 <= n <= ls.len(),
        !(env_run(ls, sep) is Panics),
    ensures
        !(env_run(ls.take(n), sep) is Panics),
    decreases ls.len() - n,
{
    if n < ls.len() {
        lemma_run_prefix(ls, sep, n + 1);
        assert(ls.take(n + 1).drop_last() =~= ls.take(n));
    } else {
        assert(ls.take(n) =~= ls);
    }
}

/// Once a prefix of the lines has failed or panicked, the whole run ends the
/// same way.
proof fn lemma_failed_stays(ls: Seq<Seq<char>>, sep: Seq<char>, n: int)
    requires
        0 <= n <= ls.len(),
        !(env_run(ls.take(n), sep) is Done),
    ensures
        env_run(ls, sep) == env_run(ls.take(n), sep),
    decreases ls.len() - n,
{
    if n < ls.len() {
        assert(ls.take(n + 1).drop_last() =~= ls.take(n));
        lemma_failed_stays(ls, sep, n + 1);
    } else {
        assert(ls.take(n) =~= ls);
    }
}

fn message(prefix: &str, tail: &str) -> (res: String)
    ensures
        res@ == prefix@ + tail@,
{
    let mut m = String::new();
    push_str(&mut m, prefix);
    push_str(&mut m, tail);
    assert(m@ =~= prefix@ + tail@);
    m
}

fn env_line_exec(line: &str, sep: &str) -> (r: LineOut)
    requires
        !(env_line(line@, sep@) is Panics),
    ensures
        match env_line(line@, sep@) {
            EnvLine::Skip => r is Skip,
            EnvLine::Emit(t) => r matches LineOut::Emit(s) && s@ == t,
            EnvLine::Fail(e) => r matches LineOut::Fail(s) && s@ == e,
            EnvLine::Panics => false,
        },
{
    if line.is_empty() {
        return LineOut::Skip;
    }
    assert(line@.len() > 0);
    let parts = split_line(line, sep);
    let (path_s, typ, val) = match parts {
        None => return LineOut::Fail(message("malformed line: ", line)),
        Some(t) => t,
    };
    let path = parse_path(path_s.as_str());
    let key = path_to_env_key(&path);
    if key.as_str().is_empty() {
        return LineOut::Skip;
    }
    let t = typ.as_str();
    let value: String;
    if eq_str(t, "null") {
        value = String::new();
    } else if eq_str(t, "boolean") || eq_str(t, "number") || eq_str(t, "time") {
        value = val;
    } else if eq_str(t, "string") {
        value = bash_quote(unquote(val.as_str()).as_str());
    } else if eq_str(t, "object") || eq_str(t, "array") {
        return LineOut::Skip;
    } else {
        return LineOut::Fail(message("unknown type: ", t));
    }
    let mut o = key;
    push_char(&mut o, '=');
    push_str(&mut o, value.as_str());
    push_char(&mut o, '\n');
    assert(o@ =~= env_key(parse_path_spec(path_s@)) + seq!['='] + value@ + seq!['\n']);
    LineOut::Emit(o)
}

// ---- what a variable name is made of -------------------------------------------------

/// A character of a shell variable name as written here: an upper-case
/// ASCII letter, a digit or `_`.
pub open spec fn name_char(c: char) -> bool {
    ('A' <= c && c <= 'Z') || ('0' <= c && c <= '9') || c == '_'
}

pub open spec fn name_chars(s: Seq<char>) -> bool {
    forall|i: int| 0 <= i < s.len() ==> name_char(#[trigger] s[i])
}

proof fn lemma_name_chars_concat(a: Seq<char>, b: Seq<char>)
    requires
        name_chars(a),
        name_chars(b),
    ensures
        name_chars(a + b),
{
    assert forall|i: int| 0 <= i < (a + b).len() implies name_char(#[trigger] (a + b)[i]) by {
        if i < a.len() {
            assert((a + b)[i] == a[i]);
        } else {
            assert((a + b)[i] == b[i - a.len()]);
        }
    }
}

proof fn lemma_collapse_chars(raw: Seq<char>, prev: bool)
    ensures
        name_chars(collapse(raw, prev)),
    decreases raw.len(),
{
    if raw.len() > 0 {
        let c = raw[0];
        if is_alnum(c) {
            lemma_collapse_chars(raw.drop_first(), false);
            assert(name_char(upper(c)));
            lemma_name_chars_concat(seq![upper(c)], collapse(raw.drop_first(), false));
        } else if !prev {
            lemma_collapse_chars(raw.drop_first(), true);
            lemma_name_chars_concat(seq!['_'], collapse(raw.drop_first(), true));
        } else {
            lemma_collapse_chars(raw.drop_first(), true);
        }
    }
}

proof fn lemma_env_raw_chars(p: Seq<SegV>)
    ensures
        name_chars(env_raw(p)),
    decreases p.len(),
{
    if p.len() > 0 {
        lemma_env_raw_chars(p.drop_last());
        let raw = seg_raw(p.last());
        lemma_collapse_chars(raw, false);
        lemma_name_chars_concat(collapse(raw, false), seq!['_']);
        lemma_name_chars_concat(env_raw(p.drop_last()), env_chunk(raw));
    }
}

proof fn lemma_strip_end(s: Seq<char>, c: char)
    ensures
        strip_end(s, c).len() <= s.len(),
        strip_end(s, c) == s.take(strip_end(s, c).len() as int),
        strip_end(s, c).len() > 0 ==> strip_end(s, c).last() != c,
    decreases s.len(),
{
    if s.len() > 0 && s.last() == c {
        lemma_strip_end(s.drop_last(), c);
        let r = strip_end(s.drop_last(), c);
        assert(s.drop_last().take(r.len() as int) =~= s.take(r.len() as int));
    } else {
        assert(s.take(s.len() as int) =~= s);
    }
}

proof fn lemma_strip_start(s: Seq<char>, c: char)
    ensures
        strip_start(s, c).len() <= s.len(),
        strip_start(s, c) == s.skip(s.len() - strip_start(s, c).len()),
        strip_start(s, c).len() > 0 ==> strip_start(s, c)[0] != c,
    decreases s.len(),
{
    if s.len() > 0 && s[0] == c {
        lemma_strip_start(s.drop_first(), c);
        let r = strip_start(s.drop_first(), c);
        assert(s.drop_first().skip(s.drop_first().len() - r.len()) =~= s.skip(s.len() - r.len()));
    } else {
        assert(s.skip(0) =~= s);
    }
}

/// A variable name made from a path holds only upper-case ASCII letters,
/// digits and `_`, and neither begins nor ends with `_`.
pub proof fn env_key_is_shell_name(p: Seq<SegV>)
    ensures
        name_chars(env_key(p)),
        env_key(p).len() > 0 ==> env_key(p)[0] != '_' && env_key(p).last() != '_',
{
    let raw = env_raw(p);
    lemma_env_raw_chars(p);
    lemma_strip_end(raw, '_');
    let e = strip_end(raw, '_');
    lemma_strip_start(e, '_');
    let k = strip_start(e, '_');
    assert(name_chars(e)) by {
        assert forall|i: int| 0 <= i < e.len() implies name_char(#[trigger] e[i]) by {
            assert(e[i] == raw.take(e.len() as int)[i]);
            assert(raw[i] == raw.take(e.len() as int)[i]);
        }
    }
    assert forall|i: int| 0 <= i < k.len() implies name_char(#[trigger] k[i]) by {
        assert(k[i] == e.skip(e.len() - k.len())[i]);
        assert(e[e.len() - k.len() + i] == e.skip(e.len() - k.len())[i]);
    }
    if k.len() > 0 {
        assert(k.last() == e.last()) by {
            assert(k[k.len() - 1] == e.skip(e.len() - k.len())[k.len() - 1]);
        }
    }
}

/// Whether `s` holds an ASCII letter or digit.
pub open spec fn has_alnum(s: Seq<char>) -> bool {
    exists|j: int| 0 <= j < s.len() && is_alnum(#[trigger] s[j])
}

/// Whether every character of `s` is `c`.
pub open spec fn all_is(s: Seq<char>, c: char) -> bool {
    forall|j: int| 0 <= j < s.len() ==> #[trigger] s[j] == c
}

/// A segment that gives a variable name nothing: a key without ASCII
/// letters or digits (an index always gives its digits).
pub open spec fn unnamed(g: SegV) -> bool {
    match g {
        SegV::Key(k) => !has_alnum(k),
        SegV::Idx(_) => false,
    }
}

proof fn lemma_all_is_concat(a: Seq<char>, b: Seq<char>, c: char)
    ensures
        all_is(a + b, c) <==> all_is(a, c) && all_is(b, c),
{
    if all_is(a + b, c) {
        assert forall|j: int| 0 <= j < a.len() implies #[trigger] a[j] == c by {
            assert((a + b)[j] == a[j]);
        }
        assert forall|j: int| 0 <= j < b.len() implies #[trigger] b[j] == c by {
            assert((a + b)[a.len() + j] == b[j]);
        }
    }
    if all_is(a, c) && all_is(b, c) {
        assert forall|j: int| 0 <= j < (a + b).len() implies #[trigger] (a + b)[j] == c by {
            if j < a.len() {
                assert((a + b)[j] == a[j]);
            } else {
                assert((a + b)[j] == b[j - a.len()]);
            }
        }
    }
}

proof fn lemma_has_alnum_cons(s: Seq<char>)
    requires
        s.len() > 0,
    ensures
        has_alnum(s) <==> is_alnum(s[0]) || has_alnum(s.drop_first()),
{
    if has_alnum(s) {
        let j = choose|j: int| 0 <= j < s.len() && is_alnum(#[trigger] s[j]);
        if j > 0 {
            assert(s.drop_first()[j - 1] == s[j]);
        }
    }
    if has_alnum(s.drop_first()) {
        let j = choose|j: int| 0 <= j < s.drop_first().len() && is_alnum(#[trigger] s.drop_first()[j]);
        assert(s[j + 1] == s.drop_first()[j]);
    }
    if is_alnum(s[0]) {
        assert(is_alnum(s[0]));
    }
}

proof fn lemma_collapse_blank(raw: Seq<char>, prev: bool)
    ensures
        all_is(collapse(raw, prev), '_') <==> !has_alnum(raw),
    decreases raw.len(),
{
    if raw.len() > 0 {
        lemma_has_alnum_cons(raw);
        let c = raw[0];
        if is_alnum(c) {
            let t = collapse(raw, prev);
            assert(t[0] == upper(c));
            assert(upper(c) != '_');
        } else if !prev {
            lemma_collapse_blank(raw.drop_first(), true);
            lemma_all_is_concat(seq!['_'], collapse(raw.drop_first(), true), '_');
        } else {
            lemma_collapse_blank(raw.drop_first(), true);
        }
    }
}

proof fn lemma_env_raw_blank(p: Seq<SegV>)
    ensures
        all_is(env_raw(p), '_') <==> forall|i: int| 0 <= i < p.len() ==> unnamed(#[trigger] p[i]),
    decreases p.len(),
{
    if p.len() > 0 {
        lemma_env_raw_blank(p.drop_last());
        let raw = seg_raw(p.last());
        let c = collapse(raw, false);
        lemma_collapse_blank(raw, false);
        lemma_all_is_concat(c, seq!['_'], '_');
        lemma_all_is_concat(env_raw(p.drop_last()), env_chunk(raw), '_');
        match p.last() {
            SegV::Idx(n) => {
                lemma_decimal_parses(n);
                assert(dec_val(decimal(n)[0]) is Some);
                assert(is_alnum(decimal(n)[0]));
            },
            SegV::Key(_) => {},
        }
        if forall|i: int| 0 <= i < p.len() ==> unnamed(#[trigger] p[i]) {
            assert forall|i: int| 0 <= i < p.drop_last().len() implies unnamed(
                #[trigger] p.drop_last()[i],
            ) by {
                assert(p.drop_last()[i] == p[i]);
            }
            assert(unnamed(p[p.len() - 1]));
        }
        if all_is(env_raw(p), '_') {
            assert forall|i: int| 0 <= i < p.len() implies unnamed(#[trigger] p[i]) by {
                if i < p.len() - 1 {
                    assert(p.drop_last()[i] == p[i]);
                }
            }
        }
    }
}

proof fn lemma_strip_end_blank(s: Seq<char>, c: char)
    ensures
        strip_end(s, c).len() == 0 <==> all_is(s, c),
    decreases s.len(),
{
    if s.len() > 0 {
        if s.last() == c {
            lemma_strip_end_blank(s.drop_last(), c);
            lemma_all_is_concat(s.drop_last(), seq![c], c);
            assert(s =~= s.drop_last() + seq![c]);
        } else {
            assert(s[s.len() - 1] != c);
        }
    }
}

proof fn lemma_strip_start_blank(s: Seq<char>, c: char)
    ensures
        strip_start(s, c).len() == 0 <==> all_is(s, c),
    decreases s.len(),
{
    if s.len() > 0 {
        if s[0] == c {
            lemma_strip_start_blank(s.drop_first(), c);
            lemma_all_is_concat(seq![c], s.drop_first(), c);
            assert(s =~= seq![c] + s.drop_first());
        } else {
            assert(s[0] != c);
        }
    }
}

/// A variable name made from a path is empty exactly when no segment of
/// the path holds an ASCII letter or digit: every segment is a key made
/// of other characters only.
pub proof fn env_key_empty_iff_unnamed(p: Seq<SegV>)
    ensures
        env_key(p).len() == 0 <==> forall|i: int| 0 <= i < p.len() ==> unnamed(#[trigger] p[i]),
{
    let raw = env_raw(p);
    let e = strip_end(raw, '_');
    lemma_env_raw_blank(p);
    lemma_strip_end_blank(raw, '_');
    lemma_strip_end(raw, '_');
    lemma_strip_start_blank(e, '_');
    if e.len() > 0 {
        assert(e[e.len() - 1] != '_');
    }
}

/// The types a flat line may carry.
pub open spec fn known_type(t: Seq<char>) -> bool {
    t == "null"@ || t == "boolean"@ || t == "number"@ || t == "time"@ || t == "string"@ || t
        == "object"@ || t == "array"@
}

/// A line that stops the conversion: not empty, and either without its two
/// separators, or with a non-empty variable name and a type that is not
/// known (a line whose split would panic is none of these).
pub open spec fn line_fails(l: Seq<char>, sep: Seq<char>) -> bool {
    &&& l.len() > 0
    &&& !split_breaks(l, sep)
    &&& match split_spec(l, sep) {
        None => true,
        Some(f) => env_key(parse_path_spec(f.0)).len() > 0 && !known_type(f.1),
    }
}

proof fn lemma_env_run_fails(ls: Seq<Seq<char>>, sep: Seq<char>)
    requires
        !(env_run(ls, sep) is Panics),
    ensures
        env_run(ls, sep) is Failed <==> exists|k: int| 0 <= k < ls.len() && line_fails(#[trigger] ls[k], sep),
    decreases ls.len(),
{
    if ls.len() > 0 {
        let front = ls.drop_last();
        lemma_env_run_fails(front, sep);
        if exists|k: int| 0 <= k < front.len() && line_fails(#[trigger] front[k], sep) {
            let k = choose|k: int| 0 <= k < front.len() && line_fails(#[trigger] front[k], sep);
            assert(ls[k] == front[k]);
        }
        if exists|k: int| 0 <= k < ls.len() && line_fails(#[trigger] ls[k], sep) {
            let k = choose|k: int| 0 <= k < ls.len() && line_fails(#[trigger] ls[k], sep);
            if k < ls.len() - 1 {
                assert(front[k] == ls[k]);
            }
        }
        assert(ls.last() == ls[ls.len() - 1]);
    }
}

/// `do_unflatten_env` (on input where it does not panic) fails exactly when
/// some line stops the conversion: a non-empty line without its two
/// separators, or one with a non-empty variable name and an unknown type.
pub proof fn unflatten_env_fails_iff(input: Seq<char>, sep: Seq<char>)
    requires
        !(unflatten_env_spec(input, sep) is Panics),
    ensures
        unflatten_env_spec(input, sep) is Failed <==> exists|k: int|
            0 <= k < lines_of(input).len() && line_fails(#[trigger] lines_of(input)[k], sep),
{
    lemma_env_run_fails(lines_of(input), sep);
}

} // verus!
