//! A small JSON string-literal codec.
use vstd::prelude::*;
use crate::text::{chars_of, push_char, trim, trim_bounds, trim_end, trim_start};

verus! {

/// The lowercase hexadecimal digit for `d` (`0 <= d < 16`).
pub open spec fn hex_digit(d: int) -> char {
    if d < 10 {
        (48 + d) as char
    } else {
        (87 + d) as char
    }
}

/// The four lowercase hexadecimal digits of `v` (`{:04x}` for `v < 0x10000`).
pub open spec fn hex4(v: int) -> Seq<char> {
    seq![
        hex_digit((v / 4096) % 16),
        hex_digit((v / 256) % 16),
        hex_digit((v / 16) % 16),
        hex_digit(v % 16),
    ]
}

/// The escape `\uXXXX` for the code unit `v`.
pub open spec fn u_escape(v: int) -> Seq<char> {
    seq!['\\', 'u'] + hex4(v)
}

/// The escape that both quoting styles use for `c`, if any: `"`, `\`,
/// and the control characters below U+0020.
pub open spec fn control_escape(c: char) -> Option<Seq<char>> {
    if c == '"' {
        Some(seq!['\\', '"'])
    } else if c == '\\' {
        Some(seq!['\\', '\\'])
    } else if c == '\n' {
        Some(seq!['\\', 'n'])
    } else if c == '\r' {
        Some(seq!['\\', 'r'])
    } else if c == '\t' {
        Some(seq!['\\', 't'])
    } else if c == '\x08' {
        Some(seq!['\\', 'b'])
    } else if c == '\x0C' {
        Some(seq!['\\', 'f'])
    } else if (c as u32) < 0x20 {
        Some(u_escape(c as int))
    } else {
        None
    }
}

/// How `quote` writes `c`: ASCII as is, other characters as `\uXXXX`,
/// above U+FFFF as a surrogate pair.
pub open spec fn ascii_escape(c: char) -> Seq<char> {
    match control_escape(c) {
        Some(e) => e,
        None => if (c as u32) < 0x80 {
            seq![c]
        } else if (c as u32) <= 0xFFFF {
            u_escape(c as int)
        } else {
            u_escape(0xD800 + (c as int - 0x10000) / 1024) + u_escape(
                0xDC00 + (c as int - 0x10000) % 1024,
            )
        },
    }
}

/// Whether `c` is a control character above U+0020: DEL and the C1
/// controls U+0080 to U+009F.
pub open spec fn is_high_control(c: char) -> bool {
    0x7F <= (c as u32) && (c as u32) <= 0x9F
}

/// How `quote_readable` writes `c`: printable characters as they are,
/// every control character escaped.
pub open spec fn readable_escape(c: char) -> Seq<char> {
    match control_escape(c) {
        Some(e) => e,
        None => if is_high_control(c) {
            u_escape(c as int)
        } else {
            seq![c]
        },
    }
}

/// The escaped characters of `s` (between the quotes), in either style.
pub open spec fn escape_body(s: Seq<char>, readable: bool) -> Seq<char>
    decreases s.len(),
{
    if s.len() == 0 {
        seq![]
    } else {
        escape_body(s.drop_last(), readable) + if readable {
            readable_escape(s.last())
        } else {
            ascii_escape(s.last())
        }
    }
}

/// The literal `quote` (`readable == false`) or `quote_readable` produces for `s`.
pub open spec fn quoted(s: Seq<char>, readable: bool) -> Seq<char> {
    seq!['"'] + escape_body(s, readable) + seq!['"']
}

fn hex_char(d: u32) -> (c: char)
    requires
        d < 16,
    ensures
        c == hex_digit(d as int),
{
    if d < 10 {
        ((48 + d) as u8) as char
    } else {
        ((87 + d) as u8) as char
    }
}

fn push_u_escape(out: &mut String, v: u32)
    requires
        v < 0x10000,
    ensures
        final(out)@ == old(out)@ + u_escape(v as int),
{
    push_char(out, '\\');
    push_char(out, 'u');
    push_char(out, hex_char((v / 4096) % 16));
    push_char(out, hex_char((v / 256) % 16));
    push_char(out, hex_char((v / 16) % 16));
    push_char(out, hex_char(v % 16));
    assert(final(out)@ =~= old(out)@ + u_escape(v as int));
}

fn push_escaped(out: &mut String, c: char, readable: bool)
    ensures
        final(out)@ == old(out)@ + if readable {
            readable_escape(c)
        } else {
            ascii_escape(c)
        },
{
    let ghost e = if readable {
        readable_escape(c)
    } else {
        ascii_escape(c)
    };
    if c == '"' {
        push_char(out, '\\');
        push_char(out, '"');
    } else if c == '\\' {
        push_char(out, '\\');
        push_char(out, '\\');
    } else if c == '\n' {
        push_char(out, '\\');
        push_char(out, 'n');
    } else if c == '\r' {
        push_char(out, '\\');
        push_char(out, 'r');
    } else if c == '\t' {
        push_char(out, '\\');
        push_char(out, 't');
    } else if c == '\x08' {
        push_char(out, '\\');
        push_char(out, 'b');
    } else if c == '\x0C' {
        push_char(out, '\\');
        push_char(out, 'f');
    } else if (c as u32) < 0x20 {
        push_u_escape(out, c as u32);
    } else if readable && 0x7F <= (c as u32) && (c as u32) <= 0x9F {
        push_u_escape(out, c as u32);
    } else if readable || (c as u32) < 0x80 {
        push_char(out, c);
    } else {
        let u = c as u32;
        if u <= 0xFFFF {
            push_u_escape(out, u);
        } else {
            let w = u - 0x10000;
            push_u_escape(out, 0xD800 + w / 1024);
            push_u_escape(out, 0xDC00 + w % 1024);
        }
    }
    assert(final(out)@ =~= old(out)@ + e);
}

fn quote_with(s: &str, readable: bool) -> (res: String)
    ensures
        res@ == quoted(s@, readable),
{
    let mut out = String::new();
    push_char(&mut out, '"');
    for c in it: s.chars()
        invariant
            it.seq() == s@,
            out@ == seq!['"'] + escape_body(it.seq().take(it.index() as int), readable),
    {
        let ghost before = it.seq().take(it.index() as int);
        push_escaped(&mut out, c, readable);
        assert(it.seq().take(it.index() + 1).drop_last() =~= before);
    }
    assert(s@.take(s@.len() as int) =~= s@);
    push_char(&mut out, '"');
    out
}

/// Encode a string as a JSON string literal, escaping all non-ASCII
/// as \uXXXX (or surrogate pairs for codepoints above U+FFFF).
pub fn quote(s: &str) -> (res: String)
    ensures
        res@ == quoted(s@, false),
{
    quote_with(s, false)
}

/// Encode a string as a JSON string literal, keeping printable UTF-8
/// characters as-is. Only escapes control characters (below U+0020, DEL,
/// and U+0080 to U+009F), `"`, and `\`.
pub fn quote_readable(s: &str) -> (res: String)
    ensures
        res@ == quoted(s@, true),
{
    quote_with(s, true)
}


/// The value of a hexadecimal digit, if `c` is one.
pub open spec fn hex_val(c: char) -> Option<int> {
    if '0' <= c && c <= '9' {
        Some(c as int - 48)
    } else if 'a' <= c && c <= 'f' {
        Some(c as int - 87)
    } else if 'A' <= c && c <= 'F' {
        Some(c as int - 55)
    } else {
        None
    }
}

/// The value of the hexadecimal digits `s` (all of them must be digits).
pub open spec fn hex_value(s: Seq<char>) -> Option<int>
    decreases s.len(),
{
    if s.len() == 0 {
        Some(0)
    } else {
        match (hex_value(s.drop_last()), hex_val(s.last())) {
            (Some(a), Some(d)) => Some(a * 16 + d),
            _ => None,
        }
    }
}

/// `u16::from_str_radix(s, 16)` for a string of at most four characters:
/// an optional `+`, then at least one hexadecimal digit.
pub open spec fn parse_hex(s: Seq<char>) -> Option<int> {
    if s.len() == 0 {
        None
    } else if s[0] == '+' {
        if s.len() == 1 {
            None
        } else {
            hex_value(s.drop_first())
        }
    } else {
        hex_value(s)
    }
}

/// The first `n` elements of `s`, or all of `s` when it is shorter.
pub open spec fn take_upto(s: Seq<char>, n: int) -> Seq<char> {
    if s.len() <= n {
        s
    } else {
        s.take(n)
    }
}

/// `s` without its first `n` elements (empty when it is shorter).
pub open spec fn skip_upto(s: Seq<char>, n: int) -> Seq<char> {
    if s.len() <= n {
        Seq::empty()
    } else {
        s.skip(n)
    }
}

/// Whether `v` is a Unicode scalar value (`char::from_u32(v).is_some()`).
pub open spec fn is_scalar(v: int) -> bool {
    0 <= v <= 0x10FFFF && !(0xD800 <= v <= 0xDFFF)
}

/// The character `v`, or nothing when `v` is no scalar value.
pub open spec fn scalar_chars(v: int) -> Seq<char> {
    if is_scalar(v) {
        seq![v as char]
    } else {
        Seq::empty()
    }
}

/// The character that the one-character escape `\e` stands for.
pub open spec fn simple_unescape(e: char) -> char {
    if e == 'n' {
        '\n'
    } else if e == 'r' {
        '\r'
    } else if e == 't' {
        '\t'
    } else if e == 'b' {
        '\x08'
    } else if e == 'f' {
        '\x0C'
    } else {
        e
    }
}

/// After a high surrogate: the low code unit that follows as `\uXXXX`
/// (0 when there is none or it does not parse), and what is left.
/// Whatever was looked at to find it is consumed.
pub open spec fn low_unit(after: Seq<char>) -> (int, Seq<char>) {
    if after.len() >= 1 && after[0] == '\\' {
        if after.len() >= 2 && after[1] == 'u' {
            let t = after.skip(2);
            (
                match parse_hex(take_upto(t, 4)) {
                    Some(v) => v,
                    None => 0,
                },
                skip_upto(t, 4),
            )
        } else {
            (0, skip_upto(after, 2))
        }
    } else {
        (0, skip_upto(after, 1))
    }
}

/// The decoded text of the escaped characters `s`.
pub open spec fn unescape_body(s: Seq<char>) -> Seq<char>
    decreases s.len(),
{
    if s.len() == 0 {
        Seq::empty()
    } else if s[0] != '\\' {
        seq![s[0]] + unescape_body(s.drop_first())
    } else if s.len() == 1 {
        Seq::empty()
    } else if s[1] != 'u' {
        seq![simple_unescape(s[1])] + unescape_body(s.skip(2))
    } else {
        let rest = s.skip(2);
        let after = skip_upto(rest, 4);
        match parse_hex(take_upto(rest, 4)) {
            None => unescape_body(after),
            Some(hi) => if 0xD800 <= hi <= 0xDBFF {
                let low = low_unit(after).0;
                (if 0xDC00 <= low <= 0xDFFF {
                    scalar_chars(0x10000 + (hi - 0xD800) * 1024 + (low - 0xDC00))
                } else {
                    Seq::empty()
                }) + unescape_body(low_unit(after).1)
            } else {
                scalar_chars(hi) + unescape_body(after)
            },
        }
    }
}

/// What `unquote` decodes: the trimmed input, without its surrounding
/// double-quotes when it has both.
pub open spec fn unquote_inner(s: Seq<char>) -> Seq<char> {
    let t = trim(s);
    if t.len() >= 2 && t[0] == '"' && t.last() == '"' {
        t.subrange(1, t.len() - 1)
    } else {
        t
    }
}

fn hex_val_exec(c: char) -> (r: Option<u32>)
    ensures
        match hex_val(c) {
            Some(d) => r == Some(d as u32),
            None => r is None,
        },
{
    if '0' <= c && c <= '9' {
        Some(c as u32 - 48)
    } else if 'a' <= c && c <= 'f' {
        Some(c as u32 - 87)
    } else if 'A' <= c && c <= 'F' {
        Some(c as u32 - 55)
    } else {
        None
    }
}

/// `parse_hex` of `v[lo..hi]`, which holds at most four characters.
fn parse_hex_exec(v: &Vec<char>, lo: usize, hi: usize) -> (r: Option<u32>)
    requires
        lo <= hi <= v@.len(),
        hi - lo <= 4,
    ensures
        match parse_hex(v@.subrange(lo as int, hi as int)) {
            Some(d) => r == Some(d as u32) && 0 <= d < 0x10000,
            None => r is None,
        },
{
    let ghost s = v@.subrange(lo as int, hi as int);
    if lo == hi {
        return None;
    }
    let mut start = lo;
    if v[lo] == '+' {
        if hi - lo == 1 {
            return None;
        }
        start = lo + 1;
        assert(s.drop_first() =~= v@.subrange(start as int, hi as int));
    }
    let mut acc: u32 = 0;
    let mut k = start;
    assert(v@.subrange(start as int, start as int) =~= Seq::<char>::empty());
    proof {
        lemma_pow16_small((hi - start) as int);
    }
    while k < hi
        invariant
            lo <= start <= k <= hi <= v@.len(),
            hi - lo <= 4,
            hex_value(v@.subrange(start as int, k as int)) == Some(acc as int),
            acc < pow16(k - start),
            pow16(hi - start) <= 0x10000,
            s == v@.subrange(lo as int, hi as int),
            lo < hi,
            v@[lo as int] != '+' ==> start == lo,
            v@[lo as int] == '+' ==> start == lo + 1 && hi - lo > 1,
        decreases hi - k,
    {
        assert(v@.subrange(start as int, k + 1).drop_last() =~= v@.subrange(start as int, k as int));
        proof {
            lemma_pow16_mono((k + 1 - start) as int, (hi - start) as int);
        }
        match hex_val_exec(v[k]) {
            Some(d) => {
                assert(acc * 16 + d < pow16(k + 1 - start)) by (nonlinear_arith)
                    requires
                        acc < pow16(k - start),
                        d < 16,
                        pow16(k + 1 - start) == 16 * pow16(k - start),
                ;
                acc = acc * 16 + d;
            },
            None => {
                proof {
                    assert(v@.subrange(start as int, hi as int)[k - start] == v@[k as int]);
                    lemma_hex_value_none(v@.subrange(start as int, hi as int), (k - start) as int);
                    if v@[lo as int] != '+' {
                        assert(s =~= v@.subrange(start as int, hi as int));
                    } else {
                        assert(s.drop_first() =~= v@.subrange(start as int, hi as int));
                    }
                }
                return None;
            },
        }
        k = k + 1;
    }
    proof {
        if v@[lo as int] != '+' {
            assert(s =~= v@.subrange(start as int, hi as int));
        } else {
            assert(s.drop_first() =~= v@.subrange(start as int, hi as int));
        }
    }
    Some(acc)
}

pub open spec fn pow16(n: int) -> int
    decreases n,
{
    if n <= 0 {
        1
    } else {
        16 * pow16(n - 1)
    }
}

proof fn lemma_pow16_small(n: int)
    requires
        0 <= n <= 4,
    ensures
        pow16(n) <= 0x10000,
{
    reveal_with_fuel(pow16, 5);
}

proof fn lemma_pow16_mono(a: int, b: int)
    requires
        0 <= a <= b,
    ensures
        pow16(a) <= pow16(b),
        pow16(a) >= 1,
    decreases b,
{
    if b > a {
        lemma_pow16_mono(a, b - 1);
    } else if a > 0 {
        lemma_pow16_mono(a - 1, a - 1);
    }
}

/// A non-digit anywhere makes the whole value fail.
proof fn lemma_hex_value_none(s: Seq<char>, k: int)
    requires
        0 <= k < s.len(),
        hex_val(s[k]) is None,
    ensures
        hex_value(s) is None,
    decreases s.len(),
{
    if k < s.len() - 1 {
        lemma_hex_value_none(s.drop_last(), k);
    }
}

/// `char::from_u32`: the character with scalar value `v`, or `None` when
/// `v` is a surrogate or above U+10FFFF.
#[verifier::external_body]
fn char_from(v: u32) -> (r: Option<char>)
    ensures
        r is Some <==> is_scalar(v as int),
        r matches Some(c) ==> c as u32 == v && c == v as char,
{
    char::from_u32(v)
}

/// Pushes the character with scalar value `v`, if it is one.
fn push_scalar(out: &mut String, v: u32)
    ensures
        final(out)@ == old(out)@ + scalar_chars(v as int),
{
    if let Some(ch) = char_from(v) {
        push_char(out, ch);
        assert(ch == v as char);
        assert(final(out)@ =~= old(out)@ + scalar_chars(v as int));
    } else {
        assert(final(out)@ =~= old(out)@ + scalar_chars(v as int));
    }
}

/// The bounds of `take_upto(v[lo..hi], 4)`.
fn upto4(lo: usize, hi: usize) -> (m: usize)
    requires
        lo <= hi,
    ensures
        lo <= m <= hi,
        m - lo <= 4,
        hi - lo <= 4 ==> m == hi,
        hi - lo > 4 ==> m == lo + 4,
{
    if hi - lo <= 4 {
        hi
    } else {
        lo + 4
    }
}

/// After a high surrogate at `v[j..hi]`: `low_unit`, with what is left
/// given as its start index.
fn low_unit_exec(v: &Vec<char>, j: usize, hi: usize) -> (r: (u32, usize))
    requires
        j <= hi <= v@.len(),
    ensures
        j <= r.1 <= hi,
        r.1 > j || j == hi,
        low_unit(v@.subrange(j as int, hi as int)) == (r.0 as int, v@.subrange(r.1 as int, hi as int)),
{
    let ghost after = v@.subrange(j as int, hi as int);
    if j < hi && v[j] == '\\' {
        if hi - j >= 2 && v[j + 1] == 'u' {
            let t0 = j + 2;
            let t1 = upto4(t0, hi);
            let ghost t = after.skip(2);
            assert(t =~= v@.subrange(t0 as int, hi as int));
            assert(take_upto(t, 4) =~= v@.subrange(t0 as int, t1 as int));
            assert(skip_upto(t, 4) =~= v@.subrange(t1 as int, hi as int));
            let low = match parse_hex_exec(v, t0, t1) {
                Some(l) => l,
                None => 0,
            };
            (low, t1)
        } else {
            let k = if hi - j <= 2 { hi } else { j + 2 };
            assert(skip_upto(after, 2) =~= v@.subrange(k as int, hi as int));
            (0, k)
        }
    } else {
        let k = if hi - j <= 1 { hi } else { j + 1 };
        assert(skip_upto(after, 1) =~= v@.subrange(k as int, hi as int));
        (0, k)
    }
}

/// Decodes the `\u` escape that starts at `v[i]`; returns where decoding goes on.
fn decode_u_escape(out: &mut String, v: &Vec<char>, i: usize, hi: usize) -> (k: usize)
    requires
        i + 2 <= hi <= v@.len(),
        v@[i as int] == '\\',
        v@[i + 1] == 'u',
    ensures
        i < k <= hi,
        final(out)@ + unescape_body(v@.subrange(k as int, hi as int)) == old(out)@ + unescape_body(
            v@.subrange(i as int, hi as int),
        ),
{
    let ghost s = v@.subrange(i as int, hi as int);
    let r0 = i + 2;
    let r1 = upto4(r0, hi);
    let ghost rest = s.skip(2);
    assert(rest =~= v@.subrange(r0 as int, hi as int));
    assert(take_upto(rest, 4) =~= v@.subrange(r0 as int, r1 as int));
    assert(skip_upto(rest, 4) =~= v@.subrange(r1 as int, hi as int));
    match parse_hex_exec(v, r0, r1) {
        None => r1,
        Some(h) => {
            if 0xD800 <= h && h <= 0xDBFF {
                let (low, j) = low_unit_exec(v, r1, hi);
                if 0xDC00 <= low && low <= 0xDFFF {
                    push_scalar(out, 0x10000 + (h - 0xD800) * 1024 + (low - 0xDC00));
                } else {
                    assert(out@ =~= out@ + Seq::<char>::empty());
                }
                j
            } else {
                push_scalar(out, h);
                r1
            }
        },
    }
}

/// Decodes the escape or character at `v[i]`; returns where decoding goes on.
fn decode_step(out: &mut String, v: &Vec<char>, i: usize, hi: usize) -> (k: usize)
    requires
        i < hi <= v@.len(),
    ensures
        i < k <= hi,
        final(out)@ + unescape_body(v@.subrange(k as int, hi as int)) == old(out)@ + unescape_body(
            v@.subrange(i as int, hi as int),
        ),
{
    let ghost s = v@.subrange(i as int, hi as int);
    let c = v[i];
    if c != '\\' {
        push_char(out, c);
        assert(s.drop_first() =~= v@.subrange(i + 1, hi as int));
        assert(final(out)@ + unescape_body(v@.subrange(i + 1, hi as int)) =~= old(out)@
            + unescape_body(s));
        i + 1
    } else if hi - i == 1 {
        assert(unescape_body(v@.subrange(hi as int, hi as int)) =~= Seq::<char>::empty());
        assert(unescape_body(s) =~= Seq::<char>::empty());
        assert(out@ + Seq::<char>::empty() =~= out@);
        hi
    } else if v[i + 1] != 'u' {
        let e = v[i + 1];
        let d = if e == 'n' {
            '\n'
        } else if e == 'r' {
            '\r'
        } else if e == 't' {
            '\t'
        } else if e == 'b' {
            '\x08'
        } else if e == 'f' {
            '\x0C'
        } else {
            e
        };
        push_char(out, d);
        assert(s.skip(2) =~= v@.subrange(i + 2, hi as int));
        assert(final(out)@ + unescape_body(v@.subrange(i + 2, hi as int)) =~= old(out)@
            + unescape_body(s));
        i + 2
    } else {
        decode_u_escape(out, v, i, hi)
    }
}

/// Decode a JSON string literal. Accepts input with or without
/// surrounding double-quotes.
pub fn unquote(s: &str) -> (res: String)
    ensures
        res@ == unescape_body(unquote_inner(s@)),
{
    let v = chars_of(s);
    let (mut lo, mut hi) = trim_bounds(&v);
    if hi - lo >= 2 && v[lo] == '"' && v[hi - 1] == '"' {
        assert(v@.subrange(lo as int, hi as int).subrange(1, (hi - lo) - 1) =~= v@.subrange(
            lo + 1,
            hi - 1,
        ));
        lo = lo + 1;
        hi = hi - 1;
    }
    let ghost inner = v@.subrange(lo as int, hi as int);
    let mut out = String::new();
    let mut i = lo;
    assert(out@ + inner =~= inner);
    while i < hi
        invariant
            lo <= i <= hi <= v@.len(),
            out@ + unescape_body(v@.subrange(i as int, hi as int)) == unescape_body(inner),
        decreases hi - i,
    {
        i = decode_step(&mut out, &v, i, hi);
    }
    assert(unescape_body(v@.subrange(hi as int, hi as int)) =~= Seq::<char>::empty());
    assert(out@ =~= out@ + Seq::<char>::empty());
    out
}


// ---- laws -------------------------------------------------------------------

proof fn lemma_hex_digit(d: int)
    requires
        0 <= d < 16,
    ensures
        hex_val(hex_digit(d)) == Some(d),
        hex_digit(d) != '+',
        hex_digit(d) != '\\',
{
}

proof fn lemma_parse_hex4(v: int)
    requires
        0 <= v < 0x10000,
    ensures
        parse_hex(hex4(v)) == Some(v),
        take_upto(hex4(v), 4) == hex4(v),
{
    let h = hex4(v);
    let d0 = (v / 4096) % 16;
    let d1 = (v / 256) % 16;
    let d2 = (v / 16) % 16;
    let d3 = v % 16;
    assert(0 <= d0 < 16 && 0 <= d1 < 16 && 0 <= d2 < 16 && 0 <= d3 < 16);
    lemma_hex_digit(d0);
    lemma_hex_digit(d1);
    lemma_hex_digit(d2);
    lemma_hex_digit(d3);
    assert(h.drop_last().drop_last().drop_last().drop_last() =~= Seq::<char>::empty());
    assert(h.drop_last().drop_last().drop_last() =~= seq![hex_digit(d0)]);
    assert(h.drop_last().drop_last() =~= seq![hex_digit(d0), hex_digit(d1)]);
    assert(h.drop_last() =~= seq![hex_digit(d0), hex_digit(d1), hex_digit(d2)]);
    let one = seq![hex_digit(d0)];
    assert(one.drop_last() =~= Seq::<char>::empty());
    assert(hex_value(one.drop_last()) == Some(0int));
    assert(one.last() == hex_digit(d0));
    assert(hex_value(one) == Some(d0));
    assert(hex_value(h.drop_last().drop_last().drop_last()) == Some(d0));
    assert(hex_value(h.drop_last().drop_last()) == Some(d0 * 16 + d1));
    assert(hex_value(h.drop_last()) == Some((d0 * 16 + d1) * 16 + d2));
    assert(((d0 * 16 + d1) * 16 + d2) * 16 + d3 == v) by (nonlinear_arith)
        requires
            d0 == (v / 4096) % 16,
            d1 == (v / 256) % 16,
            d2 == (v / 16) % 16,
            d3 == v % 16,
            0 <= v < 0x10000,
    ;
}

/// Decoding `\uXXXX` (not a high surrogate) followed by `rest`.
proof fn lemma_unescape_u(v: int, rest: Seq<char>)
    requires
        0 <= v < 0x10000,
        !(0xD800 <= v <= 0xDBFF),
    ensures
        unescape_body(u_escape(v) + rest) == scalar_chars(v) + unescape_body(rest),
{
    let s = u_escape(v) + rest;
    lemma_parse_hex4(v);
    assert(s.skip(2) =~= hex4(v) + rest);
    assert(take_upto(s.skip(2), 4) =~= hex4(v));
    assert(skip_upto(s.skip(2), 4) =~= rest);
}

/// Decoding a surrogate pair followed by `rest`.
proof fn lemma_unescape_pair(hi: int, lo: int, rest: Seq<char>)
    requires
        0xD800 <= hi <= 0xDBFF,
        0xDC00 <= lo <= 0xDFFF,
    ensures
        unescape_body(u_escape(hi) + u_escape(lo) + rest) == scalar_chars(
            0x10000 + (hi - 0xD800) * 1024 + (lo - 0xDC00),
        ) + unescape_body(rest),
{
    let s = u_escape(hi) + u_escape(lo) + rest;
    lemma_parse_hex4(hi);
    lemma_parse_hex4(lo);
    let after = u_escape(lo) + rest;
    assert(s.skip(2) =~= hex4(hi) + after);
    assert(take_upto(s.skip(2), 4) =~= hex4(hi));
    assert(skip_upto(s.skip(2), 4) =~= after);
    assert(after.skip(2) =~= hex4(lo) + rest);
    assert(take_upto(after.skip(2), 4) =~= hex4(lo));
    assert(skip_upto(after.skip(2), 4) =~= rest);
    assert(low_unit(after) == (lo, rest));
}

/// The escape of one character decodes back to it, whatever follows.
proof fn lemma_unescape_one(c: char, readable: bool, rest: Seq<char>)
    ensures
        unescape_body(
            (if readable {
                readable_escape(c)
            } else {
                ascii_escape(c)
            }) + rest,
        ) == seq![c] + unescape_body(rest),
{
    let e = if readable {
        readable_escape(c)
    } else {
        ascii_escape(c)
    };
    let s = e + rest;
    let u = c as u32;
    if control_escape(c) is Some && (c == '"' || c == '\\' || c == '\n' || c == '\r' || c == '\t'
        || c == '\x08' || c == '\x0C') {
        assert(s.skip(2) =~= rest);
    } else if control_escape(c) is Some {
        lemma_unescape_u(u as int, rest);
        assert(scalar_chars(u as int) =~= seq![c]);
    } else if readable && is_high_control(c) {
        lemma_unescape_u(u as int, rest);
        assert(scalar_chars(u as int) =~= seq![c]);
    } else if readable || u < 0x80 {
        assert(s.drop_first() =~= rest);
    } else if u <= 0xFFFF {
        lemma_unescape_u(u as int, rest);
        assert(scalar_chars(u as int) =~= seq![c]);
    } else {
        let w = u as int - 0x10000;
        let hi = 0xD800 + w / 1024;
        let lo = 0xDC00 + w % 1024;
        assert(e =~= u_escape(hi) + u_escape(lo));
        assert(s =~= u_escape(hi) + u_escape(lo) + rest);
        lemma_unescape_pair(hi, lo, rest);
        assert(0x10000 + (hi - 0xD800) * 1024 + (lo - 0xDC00) == u);
        assert(scalar_chars(u as int) =~= seq![c]);
    }
}

proof fn lemma_escape_body_cons(s: Seq<char>, readable: bool)
    requires
        s.len() > 0,
    ensures
        escape_body(s, readable) == (if readable {
            readable_escape(s[0])
        } else {
            ascii_escape(s[0])
        }) + escape_body(s.drop_first(), readable),
    decreases s.len(),
{
    if s.len() == 1 {
        assert(s.drop_last() =~= Seq::<char>::empty());
        assert(s.drop_first() =~= Seq::<char>::empty());
        assert(escape_body(s, readable) =~= escape_body(Seq::<char>::empty(), readable) + (if readable {
            readable_escape(s[0])
        } else {
            ascii_escape(s[0])
        }));
    } else {
        lemma_escape_body_cons(s.drop_last(), readable);
        assert(s.drop_last().drop_first() =~= s.drop_first().drop_last());
        assert(s.drop_first().last() == s.last());
    }
}

proof fn lemma_unescape_escape(s: Seq<char>, readable: bool)
    ensures
        unescape_body(escape_body(s, readable)) == s,
    decreases s.len(),
{
    if s.len() > 0 {
        lemma_escape_body_cons(s, readable);
        lemma_unescape_escape(s.drop_first(), readable);
        lemma_unescape_one(s[0], readable, escape_body(s.drop_first(), readable));
        assert(s =~= seq![s[0]] + s.drop_first());
    }
}

/// `unquote` gives back the text that `quote` or `quote_readable` encoded,
/// for every text.
pub proof fn unquote_inverts_quote(s: Seq<char>, readable: bool)
    ensures
        unescape_body(unquote_inner(quoted(s, readable))) == s,
{
    let q = quoted(s, readable);
    assert(q[0] == '"');
    assert(q.last() == '"');
    assert(trim_start(q) == q);
    assert(trim_end(q) == q);
    assert(q.subrange(1, q.len() - 1) =~= escape_body(s, readable));
    lemma_unescape_escape(s, readable);
}

/// Every character of `t` is printable ASCII (U+0020 to U+007F).
pub open spec fn plain_ascii(t: Seq<char>) -> bool {
    forall|i: int| 0 <= i < t.len() ==> 0x20 <= (#[trigger] t[i] as u32) && (t[i] as u32) < 0x80
}

proof fn lemma_plain_ascii_concat(a: Seq<char>, b: Seq<char>)
    requires
        plain_ascii(a),
        plain_ascii(b),
    ensures
        plain_ascii(a + b),
{
    assert forall|i: int| 0 <= i < (a + b).len() implies 0x20 <= (#[trigger] (a + b)[i] as u32)
        && ((a + b)[i] as u32) < 0x80 by {
        if i < a.len() {
            assert((a + b)[i] == a[i]);
        } else {
            assert((a + b)[i] == b[i - a.len()]);
        }
    }
}

proof fn lemma_u_escape_plain(v: int)
    requires
        0 <= v,
    ensures
        plain_ascii(u_escape(v)),
{
    let t = u_escape(v);
    assert(t =~= seq!['\\', 'u', hex_digit((v / 4096) % 16), hex_digit((v / 256) % 16),
        hex_digit((v / 16) % 16), hex_digit(v % 16)]);
    assert forall|i: int| 0 <= i < t.len() implies 0x20 <= (#[trigger] t[i] as u32) && (t[i] as u32)
        < 0x80 by {
        if i >= 2 {
            let d = if i == 2 {
                (v / 4096) % 16
            } else if i == 3 {
                (v / 256) % 16
            } else if i == 4 {
                (v / 16) % 16
            } else {
                v % 16
            };
            assert(t[i] == hex_digit(d));
        }
    }
}

proof fn lemma_ascii_escape_plain(c: char)
    ensures
        plain_ascii(ascii_escape(c)),
{
    let u = c as u32;
    if control_escape(c) is Some && (c == '"' || c == '\\' || c == '\n' || c == '\r' || c == '\t'
        || c == '\x08' || c == '\x0C') {
    } else if control_escape(c) is Some {
        lemma_u_escape_plain(u as int);
    } else if u < 0x80 {
    } else if u <= 0xFFFF {
        lemma_u_escape_plain(u as int);
    } else {
        let w = u as int - 0x10000;
        lemma_u_escape_plain(0xD800 + w / 1024);
        lemma_u_escape_plain(0xDC00 + w % 1024);
        lemma_plain_ascii_concat(u_escape(0xD800 + w / 1024), u_escape(0xDC00 + w % 1024));
    }
}

proof fn lemma_ascii_body_plain(s: Seq<char>)
    ensures
        plain_ascii(escape_body(s, false)),
    decreases s.len(),
{
    if s.len() > 0 {
        lemma_ascii_body_plain(s.drop_last());
        lemma_ascii_escape_plain(s.last());
        lemma_plain_ascii_concat(escape_body(s.drop_last(), false), ascii_escape(s.last()));
    }
}

/// What `quote` writes is ASCII, starts and ends with a double quote, and
/// holds no control character below U+0020, for every text.
pub proof fn quote_is_plain_ascii(s: Seq<char>)
    ensures
        quoted(s, false).len() >= 2,
        quoted(s, false)[0] == '"',
        quoted(s, false).last() == '"',
        plain_ascii(quoted(s, false)),
{
    lemma_ascii_body_plain(s);
    lemma_plain_ascii_concat(seq!['"'], escape_body(s, false));
    lemma_plain_ascii_concat(seq!['"'] + escape_body(s, false), seq!['"']);
}

} // verus!
