//! Path segments and their text form (`.key`, `."quoted key"`, `[index]`).
use vstd::prelude::*;
use crate::text::{
    chars_of, decimal, lemma_decimal_parses, parse_unsigned, parse_unsigned_exec, push_char,
    push_decimal, string_of, dec_val,
};

verus! {

/// One step of a path into a document: an object key or an array index.
#[derive(Clone, PartialEq, Eq, Debug)]
pub enum Seg {
    Key(String),
    Idx(usize),
}

/// What a segment stands for.
pub enum SegV {
    Key(Seq<char>),
    Idx(nat),
}

impl View for Seg {
    type V = SegV;

    open spec fn view(&self) -> SegV {
        match self {
            Seg::Key(k) => SegV::Key(k@),
            Seg::Idx(i) => SegV::Idx(*i as nat),
        }
    }
}

/// The view of a path.
pub open spec fn path_view(p: Seq<Seg>) -> Seq<SegV> {
    p.map_values(|s: Seg| s@)
}

/// A copy of `s`.
pub fn copy_seg(s: &Seg) -> (r: Seg)
    ensures
        r@ == s@,
{
    match s {
        Seg::Key(k) => Seg::Key(k.clone()),
        Seg::Idx(i) => Seg::Idx(*i),
    }
}

/// A copy of the path `p`.
pub fn copy_path(p: &Vec<Seg>) -> (r: Vec<Seg>)
    ensures
        path_view(r@) == path_view(p@),
{
    let mut r: Vec<Seg> = Vec::new();
    let mut i: usize = 0;
    while i < p.len()
        invariant
            i <= p@.len(),
            r@.len() == i,
            forall|j: int| 0 <= j < i ==> #[trigger] r@[j]@ == p@[j]@,
        decreases p@.len() - i,
    {
        r.push(copy_seg(&p[i]));
        i = i + 1;
    }
    assert(path_view(r@) =~= path_view(p@));
    r
}

/// Whether `pat` occurs in `s` starting at index `i`.
pub open spec fn occurs_at(s: Seq<char>, pat: Seq<char>, i: int) -> bool {
    0 <= i && i + pat.len() <= s.len() && s.subrange(i, i + pat.len()) == pat
}

/// `s.contains(pat)`.
pub open spec fn contains_seq(s: Seq<char>, pat: Seq<char>) -> bool {
    exists|i: int| occurs_at(s, pat, i)
}

/// The characters that force a key to be written in quotes.
pub open spec fn is_path_special(c: char) -> bool {
    c == '.' || c == '[' || c == ']' || c == '"' || c == '\\' || c == '\n'
}

/// Whether the key `k` must be quoted when written with separator `sep`.
pub open spec fn must_quote(k: Seq<char>, sep: Seq<char>) -> bool {
    k.len() == 0 || contains_seq(k, sep) || exists|i: int| 0 <= i < k.len() && is_path_special(k[i])
}

/// `k` with `"` and `\` escaped by a backslash.
pub open spec fn escape_key(k: Seq<char>) -> Seq<char>
    decreases k.len(),
{
    if k.len() == 0 {
        Seq::empty()
    } else {
        escape_key(k.drop_last()) + if k.last() == '"' || k.last() == '\\' {
            seq!['\\', k.last()]
        } else {
            seq![k.last()]
        }
    }
}

/// The text of one segment.
pub open spec fn seg_text(s: SegV, sep: Seq<char>) -> Seq<char> {
    match s {
        SegV::Key(k) => if must_quote(k, sep) {
            seq!['.', '"'] + escape_key(k) + seq!['"']
        } else {
            seq!['.'] + k
        },
        SegV::Idx(i) => seq!['['] + decimal(i) + seq![']'],
    }
}

/// The text of the segments of `p`, one after the other.
pub open spec fn segs_text(p: Seq<SegV>, sep: Seq<char>) -> Seq<char>
    decreases p.len(),
{
    if p.len() == 0 {
        Seq::empty()
    } else {
        segs_text(p.drop_last(), sep) + seg_text(p.last(), sep)
    }
}

/// The text of a path: `.` for the root.
pub open spec fn path_text(p: Seq<SegV>, sep: Seq<char>) -> Seq<char> {
    if p.len() == 0 {
        seq!['.']
    } else {
        segs_text(p, sep)
    }
}

/// Whether `pat` occurs in `v` at index `i`.
pub fn occurs_at_exec(v: &Vec<char>, pat: &Vec<char>, i: usize) -> (b: bool)
    ensures
        b == occurs_at(v@, pat@, i as int),
{
    if i > v.len() || pat.len() > v.len() - i {
        return false;
    }
    let n = v.len();
    let mut k: usize = 0;
    while k < pat.len()
        invariant
            n == v@.len(),
            i <= v@.len(),
            i + pat@.len() <= v@.len(),
            k <= pat@.len(),
            forall|j: int| 0 <= j < k ==> v@[i + j] == pat@[j],
        decreases pat@.len() - k,
    {
        if v[i + k] != pat[k] {
            assert(v@.subrange(i as int, i + pat@.len())[k as int] != pat@[k as int]);
            return false;
        }
        k = k + 1;
    }
    assert(v@.subrange(i as int, i + pat@.len()) =~= pat@);
    true
}

/// Whether `pat` occurs in `v`.
pub fn contains_exec(v: &Vec<char>, pat: &Vec<char>) -> (b: bool)
    ensures
        b == contains_seq(v@, pat@),
{
    if pat.len() > v.len() {
        return false;
    }
    let n = v.len() - pat.len();
    let mut i: usize = 0;
    loop
        invariant
            pat@.len() <= v@.len(),
            n == v@.len() - pat@.len(),
            i <= n,
            forall|j: int| 0 <= j < i ==> !occurs_at(v@, pat@, j),
        decreases n - i,
    {
        if occurs_at_exec(v, pat, i) {
            return true;
        }
        if i == n {
            return false;
        }
        i = i + 1;
    }
}

/// Whether the key `k` must be quoted in a path written with separator `sep`.
pub fn needs_quoting(k: &str, sep: &str) -> (b: bool)
    ensures
        b == must_quote(k@, sep@),
{
    let kv = chars_of(k);
    if kv.len() == 0 {
        return true;
    }
    let sv = chars_of(sep);
    if contains_exec(&kv, &sv) {
        return true;
    }
    let mut i: usize = 0;
    while i < kv.len()
        invariant
            i <= kv@.len(),
            kv@ == k@,
            forall|j: int| 0 <= j < i ==> !is_path_special(kv@[j]),
        decreases kv@.len() - i,
    {
        let c = kv[i];
        if c == '.' || c == '[' || c == ']' || c == '"' || c == '\\' || c == '\n' {
            assert(is_path_special(k@[i as int]));
            return true;
        }
        i = i + 1;
    }
    false
}

fn push_seg(out: &mut String, seg: &Seg, sep: &str)
    ensures
        final(out)@ == old(out)@ + seg_text(seg@, sep@),
{
    match seg {
        Seg::Key(k) => {
            if !needs_quoting(k.as_str(), sep) {
                push_char(out, '.');
                out.append(k.as_str());
            } else {
                push_char(out, '.');
                push_char(out, '"');
                let kv = chars_of(k.as_str());
                let ghost start = out@;
                let mut i: usize = 0;
                while i < kv.len()
                    invariant
                        i <= kv@.len(),
                        out@ == start + escape_key(kv@.take(i as int)),
                    decreases kv@.len() - i,
                {
                    let c = kv[i];
                    if c == '"' || c == '\\' {
                        push_char(out, '\\');
                    }
                    push_char(out, c);
                    assert(kv@.take(i + 1).drop_last() =~= kv@.take(i as int));
                    i = i + 1;
                    assert(out@ =~= start + escape_key(kv@.take(i as int)));
                }
                assert(kv@.take(kv@.len() as int) =~= kv@);
                push_char(out, '"');
            }
        },
        Seg::Idx(i) => {
            push_char(out, '[');
            push_decimal(out, *i);
            push_char(out, ']');
        },
    }
    assert(final(out)@ =~= old(out)@ + seg_text(seg@, sep@));
}

/// The text of the path `segs` written with separator `sep`.
pub fn fmt_path(segs: &[Seg], sep: &str) -> (res: String)
    ensures
        res@ == path_text(path_view(segs@), sep@),
{
    let mut s = String::new();
    if segs.len() == 0 {
        push_char(&mut s, '.');
        return s;
    }
    let mut i: usize = 0;
    while i < segs.len()
        invariant
            i <= segs@.len(),
            s@ == segs_text(path_view(segs@.take(i as int)), sep@),
        decreases segs@.len() - i,
    {
        push_seg(&mut s, &segs[i], sep);
        assert(path_view(segs@.take(i + 1)).drop_last() =~= path_view(segs@.take(i as int)));
        i = i + 1;
    }
    assert(segs@.take(segs@.len() as int) =~= segs@);
    s
}

/// The internal canonical path (separator `\0`), used to identify paths.
pub fn canon_path(segs: &[Seg]) -> (res: String)
    ensures
        res@ == path_text(path_view(segs@), seq!['\0']),
{
    let sep = "\0";
    proof {
        reveal_strlit("\0");
    }
    assert(sep@ =~= seq!['\0']);
    fmt_path(segs, sep)
}


// ---- reading a path back ------------------------------------------------------

/// A quoted key that follows `."`: the key up to the closing `"` (a backslash
/// takes the next character literally), and what follows that quote.
pub open spec fn read_quoted(r: Seq<char>) -> (Seq<char>, Seq<char>)
    decreases r.len(),
{
    if r.len() == 0 {
        (Seq::empty(), Seq::empty())
    } else if r[0] == '"' {
        (Seq::empty(), r.drop_first())
    } else if r[0] == '\\' {
        if r.len() == 1 {
            (Seq::empty(), Seq::empty())
        } else {
            let t = read_quoted(r.skip(2));
            (seq![r[1]] + t.0, t.1)
        }
    } else {
        let t = read_quoted(r.drop_first());
        (seq![r[0]] + t.0, t.1)
    }
}

/// The length of an unquoted key: up to the next `.` or `[`.
pub open spec fn bare_len(r: Seq<char>) -> nat
    decreases r.len(),
{
    if r.len() == 0 || r[0] == '.' || r[0] == '[' {
        0
    } else {
        1 + bare_len(r.drop_first())
    }
}

/// An index after `[`: the text up to `]`, and what follows the `]`.
pub open spec fn read_bracket(r: Seq<char>) -> (Seq<char>, Seq<char>)
    decreases r.len(),
{
    if r.len() == 0 {
        (Seq::empty(), Seq::empty())
    } else if r[0] == ']' {
        (Seq::empty(), r.drop_first())
    } else {
        let t = read_bracket(r.drop_first());
        (seq![r[0]] + t.0, t.1)
    }
}

pub proof fn lemma_read_quoted_len(r: Seq<char>)
    ensures
        read_quoted(r).1.len() <= r.len(),
    decreases r.len(),
{
    if r.len() > 0 && r[0] == '\\' && r.len() > 1 {
        lemma_read_quoted_len(r.skip(2));
    } else if r.len() > 0 && r[0] != '"' && r[0] != '\\' {
        lemma_read_quoted_len(r.drop_first());
    }
}

pub proof fn lemma_read_bracket_len(r: Seq<char>)
    ensures
        read_bracket(r).1.len() <= r.len(),
    decreases r.len(),
{
    if r.len() > 0 && r[0] != ']' {
        lemma_read_bracket_len(r.drop_first());
    }
}

pub proof fn lemma_bare_len(r: Seq<char>)
    ensures
        bare_len(r) <= r.len(),
    decreases r.len(),
{
    if r.len() > 0 && r[0] != '.' && r[0] != '[' {
        lemma_bare_len(r.drop_first());
    }
}

/// The segments that the text `s` spells, read from the front until a
/// character that starts no segment.
pub open spec fn parse_segs(s: Seq<char>) -> Seq<SegV>
    decreases s.len(),
{
    if s.len() == 0 {
        Seq::empty()
    } else if s[0] == '.' {
        let r = s.drop_first();
        if r.len() > 0 && r[0] == '"' {
            let t = read_quoted(r.drop_first());
            proof {
                lemma_read_quoted_len(r.drop_first());
            }
            seq![SegV::Key(t.0)] + parse_segs(t.1)
        } else {
            let n = bare_len(r);
            proof {
                lemma_bare_len(r);
            }
            seq![SegV::Key(r.take(n as int))] + parse_segs(r.skip(n as int))
        }
    } else if s[0] == '[' {
        let t = read_bracket(s.drop_first());
        proof {
            lemma_read_bracket_len(s.drop_first());
        }
        seq![
            SegV::Idx(
                match parse_unsigned(t.0, usize::MAX as int) {
                    Some(v) => v as nat,
                    None => 0,
                },
            ),
        ] + parse_segs(t.1)
    } else {
        Seq::empty()
    }
}

/// The path that the text `s` spells: `.` is the root.
pub open spec fn parse_path_spec(s: Seq<char>) -> Seq<SegV> {
    if s == seq!['.'] {
        Seq::empty()
    } else {
        parse_segs(s)
    }
}

fn read_quoted_exec(v: &Vec<char>, i: usize) -> (r: (String, usize))
    requires
        i <= v@.len(),
    ensures
        i <= r.1 <= v@.len(),
        read_quoted(v@.subrange(i as int, v@.len() as int)) == (r.0@, v@.subrange(
            r.1 as int,
            v@.len() as int,
        )),
{
    let n = v.len();
    let mut key = String::new();
    let mut j = i;
    loop
        invariant
            n == v@.len(),
            i <= j <= n,
            read_quoted(v@.subrange(i as int, n as int)) == ({
                let t = read_quoted(v@.subrange(j as int, n as int));
                (key@ + t.0, t.1)
            }),
        decreases n - j,
    {
        let ghost r = v@.subrange(j as int, n as int);
        if j == n {
            assert(key@ + Seq::<char>::empty() =~= key@);
            return (key, n);
        }
        let c = v[j];
        if c == '"' {
            assert(r.drop_first() =~= v@.subrange(j + 1, n as int));
            assert(key@ + Seq::<char>::empty() =~= key@);
            return (key, j + 1);
        } else if c == '\\' {
            if n - j == 1 {
                assert(key@ + Seq::<char>::empty() =~= key@);
                assert(v@.subrange(n as int, n as int) =~= Seq::<char>::empty());
                return (key, n);
            }
            let ghost k0 = key@;
            push_char(&mut key, v[j + 1]);
            assert(r.skip(2) =~= v@.subrange(j + 2, n as int));
            let ghost t = read_quoted(v@.subrange(j + 2, n as int));
            assert(k0 + (seq![v@[j + 1]] + t.0) =~= key@ + t.0);
            j = j + 2;
        } else {
            let ghost k0 = key@;
            push_char(&mut key, c);
            assert(r.drop_first() =~= v@.subrange(j + 1, n as int));
            let ghost t = read_quoted(v@.subrange(j + 1, n as int));
            assert(k0 + (seq![c] + t.0) =~= key@ + t.0);
            j = j + 1;
        }
    }
}

fn read_bracket_exec(v: &Vec<char>, i: usize) -> (r: (usize, usize, usize))
    requires
        i <= v@.len(),
    ensures
        i <= r.0 <= r.1 <= v@.len(),
        r.0 <= r.2 <= v@.len(),
        read_bracket(v@.subrange(i as int, v@.len() as int)) == (v@.subrange(
            i as int,
            r.0 as int,
        ), v@.subrange(r.2 as int, v@.len() as int)),
{
    let n = v.len();
    let mut j = i;
    loop
        invariant
            n == v@.len(),
            i <= j <= n,
            read_bracket(v@.subrange(i as int, n as int)) == ({
                let t = read_bracket(v@.subrange(j as int, n as int));
                (v@.subrange(i as int, j as int) + t.0, t.1)
            }),
        decreases n - j,
    {
        let ghost r = v@.subrange(j as int, n as int);
        if j == n {
            assert(v@.subrange(i as int, j as int) + Seq::<char>::empty() =~= v@.subrange(
                i as int,
                j as int,
            ));
            return (j, j, n);
        }
        if v[j] == ']' {
            assert(r.drop_first() =~= v@.subrange(j + 1, n as int));
            assert(v@.subrange(i as int, j as int) + Seq::<char>::empty() =~= v@.subrange(
                i as int,
                j as int,
            ));
            return (j, j + 1, j + 1);
        }
        assert(r.drop_first() =~= v@.subrange(j + 1, n as int));
        let ghost t = read_bracket(v@.subrange(j + 1, n as int));
        assert(v@.subrange(i as int, j as int) + (seq![v@[j as int]] + t.0) =~= v@.subrange(
            i as int,
            j + 1,
        ) + t.0);
        j = j + 1;
    }
}

fn bare_end(v: &Vec<char>, i: usize) -> (e: usize)
    requires
        i <= v@.len(),
    ensures
        i <= e <= v@.len(),
        bare_len(v@.subrange(i as int, v@.len() as int)) == e - i,
{
    let n = v.len();
    let mut j = i;
    while j < n && v[j] != '.' && v[j] != '['
        invariant
            n == v@.len(),
            i <= j <= n,
            bare_len(v@.subrange(i as int, n as int)) == (j - i) + bare_len(
                v@.subrange(j as int, n as int),
            ),
        decreases n - j,
    {
        assert(v@.subrange(j as int, n as int).drop_first() =~= v@.subrange(j + 1, n as int));
        j = j + 1;
    }
    j
}

/// Reads a path written by `fmt_path` (or by hand): `.key`, `."quoted"`,
/// `[index]`, in any sequence; `.` alone is the root. An index that does not
/// parse as a number is 0.
pub fn parse_path(s: &str) -> (res: Vec<Seg>)
    ensures
        path_view(res@) == parse_path_spec(s@),
{
    let v = chars_of(s);
    let n = v.len();
    let mut segs: Vec<Seg> = Vec::new();
    if n == 1 && v[0] == '.' {
        assert(s@ =~= seq!['.']);
        return segs;
    }
    assert(s@ != seq!['.']) by {
        if s@ == seq!['.'] {
            assert(v@.len() == 1 && v@[0] == '.');
        }
    }
    let mut i: usize = 0;
    assert(v@.subrange(0, n as int) =~= v@);
    assert(path_view(segs@) + parse_segs(v@) =~= parse_segs(v@));
    while i < n
        invariant
            n == v@.len(),
            v@ == s@,
            i <= n,
            path_view(segs@) + parse_segs(v@.subrange(i as int, n as int)) == parse_segs(v@),
        decreases n - i,
    {
        let ghost rest = v@.subrange(i as int, n as int);
        let ghost before = path_view(segs@);
        let c = v[i];
        if c == '.' {
            let ghost r = rest.drop_first();
            assert(r =~= v@.subrange(i + 1, n as int));
            if i + 1 < n && v[i + 1] == '"' {
                assert(r.drop_first() =~= v@.subrange(i + 2, n as int));
                let (key, next) = read_quoted_exec(&v, i + 2);
                segs.push(Seg::Key(key));
                assert(path_view(segs@) =~= before.push(SegV::Key(key@)));
                assert(before + parse_segs(rest) =~= path_view(segs@) + parse_segs(
                    v@.subrange(next as int, n as int),
                ));
                i = next;
            } else {
                let e = bare_end(&v, i + 1);
                let key = string_of(&v, i + 1, e);
                assert(r.take((e - (i + 1)) as int) =~= v@.subrange(i + 1, e as int));
                assert(r.skip((e - (i + 1)) as int) =~= v@.subrange(e as int, n as int));
                segs.push(Seg::Key(key));
                assert(path_view(segs@) =~= before.push(SegV::Key(key@)));
                assert(before + parse_segs(rest) =~= path_view(segs@) + parse_segs(
                    v@.subrange(e as int, n as int),
                ));
                i = e;
                if e == n {
                    assert(path_view(segs@) + parse_segs(v@.subrange(i as int, n as int))
                        == parse_segs(v@));
                }
            }
        } else if c == '[' {
            assert(rest.drop_first() =~= v@.subrange(i + 1, n as int));
            let (num_end, _close, next) = read_bracket_exec(&v, i + 1);
            let max = usize::MAX as u64;
            assert(max as int == usize::MAX as int);
            let idx = match parse_unsigned_exec(&v, i + 1, num_end, max) {
                Some(x) => x as usize,
                None => 0,
            };
            let ghost t = read_bracket(rest.drop_first());
            assert(t.0 == v@.subrange(i + 1, num_end as int));
            assert(t.1 == v@.subrange(next as int, n as int));
            assert(idx as nat == match parse_unsigned(t.0, usize::MAX as int) {
                Some(w) => w as nat,
                None => 0,
            });
            assert(parse_segs(rest) == seq![SegV::Idx(idx as nat)] + parse_segs(t.1));
            segs.push(Seg::Idx(idx));
            assert(path_view(segs@) =~= before.push(SegV::Idx(idx as nat)));
            assert(before + parse_segs(rest) =~= path_view(segs@) + parse_segs(
                v@.subrange(next as int, n as int),
            ));
            i = next;
        } else {
            assert(parse_segs(rest) =~= Seq::<SegV>::empty());
            assert(path_view(segs@) =~= parse_segs(v@));
            return segs;
        }
    }
    assert(parse_segs(v@.subrange(n as int, n as int)) =~= Seq::<SegV>::empty());
    assert(path_view(segs@) =~= parse_segs(v@));
    segs
}


// ---- the text of a path reads back as the path ------------------------------

/// Whether `t` can follow a segment's text: empty, or the start of another segment.
pub open spec fn seg_boundary(t: Seq<char>) -> bool {
    t.len() == 0 || t[0] == '.' || t[0] == '['
}

pub proof fn lemma_escape_key_cons(k: Seq<char>)
    requires
        k.len() > 0,
    ensures
        escape_key(k) == (if k[0] == '"' || k[0] == '\\' {
            seq!['\\', k[0]]
        } else {
            seq![k[0]]
        }) + escape_key(k.drop_first()),
    decreases k.len(),
{
    if k.len() == 1 {
        assert(k.drop_last() =~= Seq::<char>::empty());
        assert(k.drop_first() =~= Seq::<char>::empty());
        assert(escape_key(k.drop_first()) =~= Seq::<char>::empty());
        assert(escape_key(k) =~= escape_key(k.drop_last()) + (if k[0] == '"' || k[0] == '\\' {
            seq!['\\', k[0]]
        } else {
            seq![k[0]]
        }));
    } else {
        lemma_escape_key_cons(k.drop_last());
        assert(k.drop_last().drop_first() =~= k.drop_first().drop_last());
    }
}

proof fn lemma_read_quoted_escape(k: Seq<char>, t: Seq<char>)
    ensures
        read_quoted(escape_key(k) + seq!['"'] + t) == (k, t),
    decreases k.len(),
{
    let s = escape_key(k) + seq!['"'] + t;
    if k.len() == 0 {
        assert(escape_key(k) =~= Seq::<char>::empty());
        assert(s =~= seq!['"'] + t);
        assert(s.drop_first() =~= t);
    } else {
        lemma_escape_key_cons(k);
        lemma_read_quoted_escape(k.drop_first(), t);
        let rest = escape_key(k.drop_first()) + seq!['"'] + t;
        if k[0] == '"' || k[0] == '\\' {
            assert(s =~= seq!['\\', k[0]] + rest);
            assert(s.skip(2) =~= rest);
        } else {
            assert(s =~= seq![k[0]] + rest);
            assert(s.drop_first() =~= rest);
        }
        assert(seq![k[0]] + k.drop_first() =~= k);
    }
}

proof fn lemma_bare_len_key(k: Seq<char>, t: Seq<char>)
    requires
        forall|i: int| 0 <= i < k.len() ==> !is_path_special(#[trigger] k[i]),
        seg_boundary(t),
    ensures
        bare_len(k + t) == k.len(),
    decreases k.len(),
{
    if k.len() == 0 {
        assert(k + t =~= t);
    } else {
        assert((k + t).drop_first() =~= k.drop_first() + t);
        assert forall|i: int| 0 <= i < k.drop_first().len() implies !is_path_special(
            #[trigger] k.drop_first()[i],
        ) by {
            assert(k.drop_first()[i] == k[i + 1]);
        }
        lemma_bare_len_key(k.drop_first(), t);
        assert(!is_path_special(k[0]));
    }
}

proof fn lemma_read_bracket_decimal(d: Seq<char>, t: Seq<char>)
    requires
        forall|i: int| 0 <= i < d.len() ==> dec_val(#[trigger] d[i]) is Some,
    ensures
        read_bracket(d + seq![']'] + t) == (d, t),
    decreases d.len(),
{
    let s = d + seq![']'] + t;
    if d.len() == 0 {
        assert(s =~= seq![']'] + t);
        assert(s.drop_first() =~= t);
    } else {
        assert(s.drop_first() =~= d.drop_first() + seq![']'] + t);
        assert forall|i: int| 0 <= i < d.drop_first().len() implies dec_val(
            #[trigger] d.drop_first()[i],
        ) is Some by {
            assert(d.drop_first()[i] == d[i + 1]);
        }
        lemma_read_bracket_decimal(d.drop_first(), t);
        assert(dec_val(d[0]) is Some);
        assert(seq![d[0]] + d.drop_first() =~= d);
    }
}

/// Reading one segment's text back, whatever segments follow.
proof fn lemma_parse_seg(g: SegV, sep: Seq<char>, t: Seq<char>)
    requires
        seg_boundary(t),
        g matches SegV::Idx(i) ==> i <= usize::MAX,
    ensures
        parse_segs(seg_text(g, sep) + t) == seq![g] + parse_segs(t),
        seg_text(g, sep).len() >= 2,
        seg_boundary(seg_text(g, sep)),
{
    let s = seg_text(g, sep) + t;
    match g {
        SegV::Key(k) => {
            if must_quote(k, sep) {
                let r = s.drop_first();
                assert(r =~= seq!['"'] + escape_key(k) + seq!['"'] + t);
                assert(r.drop_first() =~= escape_key(k) + seq!['"'] + t);
                lemma_read_quoted_escape(k, t);
            } else {
                let r = s.drop_first();
                assert(r =~= k + t);
                assert forall|i: int| 0 <= i < k.len() implies !is_path_special(#[trigger] k[i]) by {}
                lemma_bare_len_key(k, t);
                assert(r.take(k.len() as int) =~= k);
                assert(r.skip(k.len() as int) =~= t);
                assert(!is_path_special(k[0]));
            }
        },
        SegV::Idx(i) => {
            lemma_decimal_parses(i);
            let d = decimal(i);
            assert(s.drop_first() =~= d + seq![']'] + t);
            lemma_read_bracket_decimal(d, t);
            assert(parse_unsigned(d, usize::MAX as int) == Some(i as int));
        },
    }
}

pub proof fn lemma_segs_text_cons(p: Seq<SegV>, sep: Seq<char>)
    requires
        p.len() > 0,
    ensures
        segs_text(p, sep) == seg_text(p[0], sep) + segs_text(p.drop_first(), sep),
    decreases p.len(),
{
    if p.len() == 1 {
        assert(p.drop_last() =~= Seq::<SegV>::empty());
        assert(p.drop_first() =~= Seq::<SegV>::empty());
        assert(segs_text(p.drop_last(), sep) =~= Seq::<char>::empty());
        assert(p.last() == p[0]);
        assert(segs_text(p, sep) =~= seg_text(p[0], sep));
        assert(segs_text(p.drop_first(), sep) =~= Seq::<char>::empty());
        assert(seg_text(p[0], sep) + Seq::<char>::empty() =~= seg_text(p[0], sep));
    } else {
        lemma_segs_text_cons(p.drop_last(), sep);
        assert(p.drop_last().drop_first() =~= p.drop_first().drop_last());
        assert(p.drop_first().last() == p.last());
    }
}

pub proof fn lemma_parse_segs_text(p: Seq<SegV>, sep: Seq<char>)
    requires
        forall|i: int| 0 <= i < p.len() ==> (#[trigger] p[i] matches SegV::Idx(x) ==> x <= usize::MAX),
    ensures
        parse_segs(segs_text(p, sep)) == p,
        seg_boundary(segs_text(p, sep)),
        p.len() > 0 ==> segs_text(p, sep).len() >= 2,
    decreases p.len(),
{
    if p.len() == 0 {
        assert(segs_text(p, sep) =~= Seq::<char>::empty());
        assert(parse_segs(Seq::<char>::empty()) =~= p);
    } else {
        lemma_segs_text_cons(p, sep);
        let q = p.drop_first();
        assert forall|i: int| 0 <= i < q.len() implies (#[trigger] q[i] matches SegV::Idx(x) ==> x
            <= usize::MAX) by {
            assert(q[i] == p[i + 1]);
        }
        lemma_parse_segs_text(q, sep);
        assert(p[0] matches SegV::Idx(x) ==> x <= usize::MAX);
        lemma_parse_seg(p[0], sep, segs_text(q, sep));
        assert(seq![p[0]] + q =~= p);
        let full = seg_text(p[0], sep) + segs_text(q, sep);
        assert(full[0] == seg_text(p[0], sep)[0]);
    }
}

/// `parse_path` reads back every path that `fmt_path` writes, whatever the
/// separator.
pub proof fn parse_path_inverts_fmt_path(p: Seq<Seg>, sep: Seq<char>)
    ensures
        parse_path_spec(path_text(path_view(p), sep)) == path_view(p),
{
    let pv = path_view(p);
    assert forall|i: int| 0 <= i < pv.len() implies (#[trigger] pv[i] matches SegV::Idx(x) ==> x
        <= usize::MAX) by {
        assert(pv[i] == p[i]@);
    }
    lemma_parse_segs_text(pv, sep);
    if pv.len() == 0 {
        assert(path_text(pv, sep) =~= seq!['.']);
    } else {
        assert(path_text(pv, sep) != seq!['.']) by {
            if path_text(pv, sep) == seq!['.'] {
                assert(path_text(pv, sep).len() == 1);
            }
        }
    }
}

} // verus!
