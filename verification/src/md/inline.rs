//! Inline Markdown (emphasis, code spans, strike-through, links) as ANSI
//! escape codes.
use vstd::prelude::*;
use crate::text::{chars_of, push_char, push_range, push_str};

verus! {

pub const RESET: &'static str = "\x1b[0m";
pub const BOLD: &'static str = "\x1b[1m";
pub const ITALIC: &'static str = "\x1b[3m";
pub const STRIKE: &'static str = "\x1b[9m";
pub const RED: &'static str = "\x1b[31m";
pub const GREEN: &'static str = "\x1b[32m";
pub const YELLOW: &'static str = "\x1b[33m";
pub const CYAN: &'static str = "\x1b[36m";
pub const BOLD_RED_UNDERLINE: &'static str = "\x1b[1;31;4m";

/// The inline styles in force.
#[derive(Clone, Copy)]
pub struct Style {
    pub bold: bool,
    pub italic: bool,
    pub code: bool,
    pub strike: bool,
}

/// The codes that reset the terminal and switch the styles on: a code span
/// is green and nothing else; otherwise bold, italic, and red strike-through.
pub open spec fn style_codes(bold: bool, italic: bool, code: bool, strike: bool) -> Seq<char> {
    RESET@ + if code {
        GREEN@
    } else {
        (if bold {
            BOLD@
        } else {
            Seq::empty()
        }) + (if italic {
            ITALIC@
        } else {
            Seq::empty()
        }) + (if strike {
            STRIKE@ + RED@
        } else {
            Seq::empty()
        })
    }
}

pub open spec fn codes_of(st: Style) -> Seq<char> {
    style_codes(st.bold, st.italic, st.code, st.strike)
}

/// Writes the codes for the given styles (see `style_codes`).
pub fn apply(out: &mut String, bold: bool, italic: bool, code: bool, strike: bool)
    ensures
        final(out)@ == old(out)@ + style_codes(bold, italic, code, strike),
{
    push_str(out, RESET);
    if code {
        push_str(out, GREEN);
        return;
    }
    let ghost mid = out@;
    if bold {
        push_str(out, BOLD);
    }
    if italic {
        push_str(out, ITALIC);
    }
    if strike {
        push_str(out, STRIKE);
        push_str(out, RED);
    }
    assert(out@ =~= old(out)@ + style_codes(bold, italic, code, strike));
}

/// The first index of `c` in `s`.
pub open spec fn find_char(s: Seq<char>, c: char) -> Option<int>
    decreases s.len(),
{
    if s.len() == 0 {
        None
    } else if s[0] == c {
        Some(0)
    } else {
        match find_char(s.drop_first(), c) {
            Some(k) => Some(k + 1),
            None => None,
        }
    }
}

pub proof fn lemma_find_char(s: Seq<char>, c: char)
    ensures
        find_char(s, c) matches Some(k) ==> 0 <= k < s.len() && s[k] == c && forall|j: int|
            0 <= j < k ==> #[trigger] s[j] != c,
        find_char(s, c) is None ==> forall|j: int| 0 <= j < s.len() ==> #[trigger] s[j] != c,
    decreases s.len(),
{
    if s.len() > 0 {
        lemma_find_char(s.drop_first(), c);
        assert forall|j: int| 0 < j < s.len() implies s[j] == s.drop_first()[j - 1] by {}
    }
}

/// The end of the line: a reset if any style is still on.
pub open spec fn inline_end(st: Style) -> Seq<char> {
    if st.bold || st.italic || st.code || st.strike {
        RESET@
    } else {
        Seq::empty()
    }
}

/// What `[` followed by `rest` becomes outside a code span, and what is left
/// to read after it: a link `[text](url)` in cyan (then the styles again);
/// `[text]` without `(` verbatim; `[text](` without `)` as `[text]`, the rest
/// dropped; a `[` without `]` verbatim with all that follows.
#[verifier::opaque]
pub open spec fn bracket(rest: Seq<char>, st: Style) -> (Seq<char>, Seq<char>) {
    match find_char(rest, ']') {
        None => (seq!['['] + rest, Seq::empty()),
        Some(j) => {
            let text = rest.take(j);
            let after = rest.skip(j + 1);
            if after.len() > 0 && after[0] == '(' {
                let tail = after.drop_first();
                match find_char(tail, ')') {
                    Some(k) => (
                        CYAN@ + seq!['['] + text + seq![']', '('] + tail.take(k) + seq![')']
                            + RESET@ + codes_of(st),
                        tail.skip(k + 1),
                    ),
                    None => (seq!['['] + text + seq![']'], Seq::empty()),
                }
            } else {
                (seq!['['] + text + seq![']'], after)
            }
        },
    }
}

pub proof fn lemma_bracket_len(rest: Seq<char>, st: Style)
    ensures
        bracket(rest, st).1.len() < rest.len() + 1,
{
    reveal(bracket);
    lemma_find_char(rest, ']');
    if let Some(j) = find_char(rest, ']') {
        let after = rest.skip(j + 1);
        if after.len() > 0 && after[0] == '(' {
            lemma_find_char(after.drop_first(), ')');
        }
    }
}

/// The rendering of `s` read in the styles `st`: a backquote toggles a code
/// span; outside one, a doubled `*` or `_` toggles bold, a single one
/// italic, `~~` strike-through, and `[` may start a link (see `bracket`);
/// each toggle writes the codes of the new styles.
#[verifier::opaque]
pub open spec fn inline_from(s: Seq<char>, st: Style) -> Seq<char>
    decreases s.len(),
{
    if s.len() == 0 {
        inline_end(st)
    } else {
        let c = s[0];
        let rest = s.drop_first();
        if c == '`' {
            let n = Style { code: !st.code, ..st };
            codes_of(n) + inline_from(rest, n)
        } else if (c == '*' || c == '_') && !st.code {
            if rest.len() > 0 && rest[0] == c {
                let n = Style { bold: !st.bold, ..st };
                codes_of(n) + inline_from(rest.drop_first(), n)
            } else {
                let n = Style { italic: !st.italic, ..st };
                codes_of(n) + inline_from(rest, n)
            }
        } else if c == '~' && !st.code && rest.len() > 0 && rest[0] == '~' {
            let n = Style { strike: !st.strike, ..st };
            codes_of(n) + inline_from(rest.drop_first(), n)
        } else if c == '[' && !st.code {
            proof {
                lemma_bracket_len(rest, st);
            }
            bracket(rest, st).0 + inline_from(bracket(rest, st).1, st)
        } else {
            seq![c] + inline_from(rest, st)
        }
    }
}

pub open spec fn plain() -> Style {
    Style { bold: false, italic: false, code: false, strike: false }
}

proof fn lemma_inline_empty(st: Style)
    ensures
        inline_from(Seq::empty(), st) == inline_end(st),
{
    reveal(inline_from);
}

/// One step of `inline_from` on a non-empty text, each case as the spec
/// function reads it.
proof fn lemma_inline_step(s: Seq<char>, st: Style)
    requires
        s.len() > 0,
    ensures
        ({
            let c = s[0];
            let rest = s.drop_first();
            if c == '`' {
                let n = Style { code: !st.code, ..st };
                inline_from(s, st) == codes_of(n) + inline_from(rest, n)
            } else if (c == '*' || c == '_') && !st.code {
                if rest.len() > 0 && rest[0] == c {
                    let n = Style { bold: !st.bold, ..st };
                    inline_from(s, st) == codes_of(n) + inline_from(rest.drop_first(), n)
                } else {
                    let n = Style { italic: !st.italic, ..st };
                    inline_from(s, st) == codes_of(n) + inline_from(rest, n)
                }
            } else if c == '~' && !st.code && rest.len() > 0 && rest[0] == '~' {
                let n = Style { strike: !st.strike, ..st };
                inline_from(s, st) == codes_of(n) + inline_from(rest.drop_first(), n)
            } else if c == '[' && !st.code {
                inline_from(s, st) == bracket(rest, st).0 + inline_from(bracket(rest, st).1, st)
            } else {
                inline_from(s, st) == seq![c] + inline_from(rest, st)
            }
        }),
{
    reveal(inline_from);
}

/// The first index at or after `lo` where `v` holds `c`.
fn find_char_from(v: &Vec<char>, lo: usize, c: char) -> (r: Option<usize>)
    requires
        lo <= v@.len(),
    ensures
        match find_char(v@.skip(lo as int), c) {
            Some(k) => r == Some((lo + k) as usize),
            None => r is None,
        },
{
    let ghost s = v@.skip(lo as int);
    proof {
        lemma_find_char(s, c);
    }
    let mut j = lo;
    while j < v.len()
        invariant
            lo <= j <= v@.len(),
            s == v@.skip(lo as int),
            forall|x: int| lo <= x < j ==> #[trigger] v@[x] != c,
            find_char(s, c) matches Some(k) ==> 0 <= k < s.len() && s[k] == c && forall|x: int|
                0 <= x < k ==> #[trigger] s[x] != c,
            find_char(s, c) is None ==> forall|x: int| 0 <= x < s.len() ==> #[trigger] s[x] != c,
        decreases v@.len() - j,
    {
        if v[j] == c {
            assert(s[j - lo] == c);
            proof {
                if let Some(k) = find_char(s, c) {
                    if k < j - lo {
                        assert(s[k] == v@[lo + k]);
                    }
                }
            }
            return Some(j);
        }
        assert(s[j - lo] != c);
        j = j + 1;
    }
    proof {
        if let Some(k) = find_char(s, c) {
            assert(s[k] == v@[lo + k]);
        }
    }
    None
}

/// Writes the link whose text is `v[lo..j]` and whose url is `v[j+2..k]`.
fn render_link(v: &Vec<char>, lo: usize, j: usize, k: usize, st: Style, out: &mut String)
    requires
        lo <= j,
        j + 2 <= k <= v@.len(),
    ensures
        final(out)@ == old(out)@ + (CYAN@ + seq!['['] + v@.subrange(lo as int, j as int) + seq![
            ']',
            '(',
        ] + v@.subrange(j + 2, k as int) + seq![')'] + RESET@ + codes_of(st)),
{
    let ghost o = out@;
    push_str(out, CYAN);
    push_char(out, '[');
    push_range(out, v, lo, j);
    push_char(out, ']');
    push_char(out, '(');
    push_range(out, v, j + 2, k);
    push_char(out, ')');
    push_str(out, RESET);
    apply(out, st.bold, st.italic, st.code, st.strike);
    assert(out@ =~= o + (CYAN@ + seq!['['] + v@.subrange(lo as int, j as int) + seq![']', '(']
        + v@.subrange(j + 2, k as int) + seq![')'] + RESET@ + codes_of(st)));
}

/// Writes what `[` followed by `v[rest_lo..]` becomes (see `bracket`) and
/// returns where reading goes on.
#[verifier::spinoff_prover]
#[verifier::rlimit(40)]
fn render_bracket(v: &Vec<char>, rest_lo: usize, st: Style, out: &mut String) -> (next: usize)
    requires
        rest_lo <= v@.len(),
    ensures
        rest_lo <= next <= v@.len(),
        final(out)@ == old(out)@ + bracket(v@.skip(rest_lo as int), st).0,
        v@.skip(next as int) == bracket(v@.skip(rest_lo as int), st).1,
{
    let n = v.len();
    let ghost rest = v@.skip(rest_lo as int);
    let ghost o = out@;
    proof {
        lemma_find_char(rest, ']');
        reveal(bracket);
    }
    match find_char_from(v, rest_lo, ']') {
        None => {
            push_char(out, '[');
            push_range(out, v, rest_lo, n);
            assert(v@.subrange(rest_lo as int, n as int) =~= rest);
            assert(v@.skip(n as int) =~= Seq::<char>::empty());
            assert(out@ =~= o + bracket(rest, st).0);
            n
        },
        Some(j) => {
            let after = j + 1;
            assert(rest.take(j - rest_lo) =~= v@.subrange(rest_lo as int, j as int));
            assert(rest.skip(j - rest_lo + 1) =~= v@.skip(after as int));
            if after < n && v[after] == '(' {
                let ghost tail = v@.skip(after + 1);
                assert(v@.skip(after as int).drop_first() =~= tail);
                assert(v@.skip(after as int)[0] == v@[after as int]);
                proof {
                    lemma_find_char(tail, ')');
                }
                match find_char_from(v, after + 1, ')') {
                    Some(k) => {
                        render_link(v, rest_lo, j, k, st, out);
                        assert(tail.take(k - after - 1) =~= v@.subrange(after + 1, k as int));
                        assert(tail.skip(k - after - 1 + 1) =~= v@.skip(k + 1));
                        assert(out@ =~= o + bracket(rest, st).0);
                        k + 1
                    },
                    None => {
                        push_char(out, '[');
                        push_range(out, v, rest_lo, j);
                        push_char(out, ']');
                        assert(v@.skip(n as int) =~= Seq::<char>::empty());
                        assert(out@ =~= o + bracket(rest, st).0);
                        n
                    },
                }
            } else {
                push_char(out, '[');
                push_range(out, v, rest_lo, j);
                push_char(out, ']');
                proof {
                    if after < n {
                        assert(v@.skip(after as int)[0] == v@[after as int]);
                    }
                }
                assert(out@ =~= o + bracket(rest, st).0);
                after
            }
        },
    }
}

/// Renders the token at `v[i]` and returns where reading goes on and the
/// styles after it.
#[verifier::spinoff_prover]
#[verifier::rlimit(40)]
fn inline_step(v: &Vec<char>, i: usize, st: Style, out: &mut String) -> (r: (usize, Style))
    requires
        i < v@.len(),
    ensures
        i < r.0 <= v@.len(),
        old(out)@ + inline_from(v@.skip(i as int), st) == final(out)@ + inline_from(
            v@.skip(r.0 as int),
            r.1,
        ),
{
    let n = v.len();
    let ghost s = v@.skip(i as int);
    let c = v[i];
    assert(s[0] == c);
    assert(s.drop_first() =~= v@.skip(i + 1));
    proof {
        lemma_inline_step(s, st);
    }
    if c == '`' {
        let n2 = Style { code: !st.code, ..st };
        apply(out, n2.bold, n2.italic, n2.code, n2.strike);
        (i + 1, n2)
    } else if (c == '*' || c == '_') && !st.code {
        if i + 1 < n && v[i + 1] == c {
            let n2 = Style { bold: !st.bold, ..st };
            assert(s.drop_first()[0] == v@[i + 1]);
            assert(s.drop_first().drop_first() =~= v@.skip(i + 2));
            apply(out, n2.bold, n2.italic, n2.code, n2.strike);
            (i + 2, n2)
        } else {
            proof {
                if i + 1 < n {
                    assert(s.drop_first()[0] == v@[i + 1]);
                }
            }
            let n2 = Style { italic: !st.italic, ..st };
            apply(out, n2.bold, n2.italic, n2.code, n2.strike);
            (i + 1, n2)
        }
    } else if c == '~' && !st.code && i + 1 < n && v[i + 1] == '~' {
        let n2 = Style { strike: !st.strike, ..st };
        assert(s.drop_first()[0] == v@[i + 1]);
        assert(s.drop_first().drop_first() =~= v@.skip(i + 2));
        apply(out, n2.bold, n2.italic, n2.code, n2.strike);
        (i + 2, n2)
    } else if c == '[' && !st.code {
        proof {
            if c == '~' && i + 1 < n {
                assert(s.drop_first()[0] == v@[i + 1]);
            }
        }
        let next = render_bracket(v, i + 1, st, out);
        (next, st)
    } else {
        proof {
            if c == '~' && !st.code && i + 1 < n {
                assert(s.drop_first()[0] == v@[i + 1]);
            }
        }
        push_char(out, c);
        (i + 1, st)
    }
}

/// Writes `text` with its inline Markdown as ANSI codes (see `inline_from`),
/// starting with no style, and resets at the end if a style is left on.
pub fn render_inline(text: &str, out: &mut String)
    ensures
        final(out)@ == old(out)@ + inline_from(text@, plain()),
{
    let v = chars_of(text);
    let n = v.len();
    let mut st = Style { bold: false, italic: false, code: false, strike: false };
    let mut i: usize = 0;
    assert(v@.skip(0) =~= v@);
    while i < n
        invariant
            n == v@.len(),
            v@ == text@,
            i <= n,
            old(out)@ + inline_from(text@, plain()) == out@ + inline_from(v@.skip(i as int), st),
        decreases n - i,
    {
        let r = inline_step(&v, i, st, out);
        i = r.0;
        st = r.1;
    }
    assert(v@.skip(n as int) =~= Seq::<char>::empty());
    proof {
        lemma_inline_empty(st);
    }
    if st.bold || st.italic || st.code || st.strike {
        push_str(out, RESET);
    }
}

/// No character of `s` starts markup: no backquote, `*`, `_`, `~` or `[`.
pub open spec fn markup_free(s: Seq<char>) -> bool {
    forall|i: int|
        0 <= i < s.len() ==> #[trigger] s[i] != '`' && s[i] != '*' && s[i] != '_' && s[i] != '~'
            && s[i] != '['
}

/// Text without markup characters is written as it is.
pub proof fn plain_text_unchanged(s: Seq<char>)
    requires
        markup_free(s),
    ensures
        inline_from(s, plain()) == s,
    decreases s.len(),
{
    if s.len() == 0 {
        lemma_inline_empty(plain());
        assert(s =~= Seq::<char>::empty());
    } else {
        lemma_inline_step(s, plain());
        assert(markup_free(s.drop_first())) by {
            assert forall|i: int| 0 <= i < s.drop_first().len() implies #[trigger] s.drop_first()[i]
                != '`' && s.drop_first()[i] != '*' && s.drop_first()[i] != '_'
                && s.drop_first()[i] != '~' && s.drop_first()[i] != '[' by {
                assert(s.drop_first()[i] == s[i + 1]);
            }
        }
        plain_text_unchanged(s.drop_first());
        assert(s[0] != '`' && s[0] != '*' && s[0] != '_' && s[0] != '~' && s[0] != '[');
        assert(seq![s[0]] + s.drop_first() =~= s);
    }
}

/// Inside a code span every character up to the next backquote is written
/// as it is: `*`, `_`, `~~` and `[` toggle nothing there.
pub proof fn code_span_text_literal(s: Seq<char>, rest: Seq<char>, st: Style)
    requires
        st.code,
        !s.contains('`'),
    ensures
        inline_from(s + rest, st) == s + inline_from(rest, st),
    decreases s.len(),
{
    if s.len() == 0 {
        assert(s + rest =~= rest);
    } else {
        let t = s + rest;
        assert(t[0] == s[0]);
        assert(s[0] != '`') by {
            if s[0] == '`' {
                assert(s.contains('`'));
            }
        }
        lemma_inline_step(t, st);
        assert(t.drop_first() =~= s.drop_first() + rest);
        assert(!s.drop_first().contains('`')) by {
            if s.drop_first().contains('`') {
                let k = choose|k: int| 0 <= k < s.drop_first().len() && s.drop_first()[k] == '`';
                assert(s[k + 1] == '`');
            }
        }
        code_span_text_literal(s.drop_first(), rest, st);
        assert(seq![s[0]] + (s.drop_first() + inline_from(rest, st)) =~= s + inline_from(rest, st));
    }
}

/// A whole line that is one code span, `` `s` ``, is green text `s`
/// between resets, whatever markup characters `s` holds.
pub proof fn code_span_line(s: Seq<char>)
    requires
        !s.contains('`'),
    ensures
        inline_from(seq!['`'] + s + seq!['`'], plain()) == RESET@ + GREEN@ + s + RESET@,
{
    let line = seq!['`'] + s + seq!['`'];
    let on = Style { code: true, ..plain() };
    lemma_inline_step(line, plain());
    assert(line.drop_first() =~= s + seq!['`']);
    code_span_text_literal(s, seq!['`'], on);
    lemma_inline_step(seq!['`'], on);
    assert(seq!['`'].drop_first() =~= Seq::<char>::empty());
    lemma_inline_empty(plain());
    assert(Style { code: !on.code, ..on } == plain());
    assert(codes_of(on) == RESET@ + GREEN@);
    assert(codes_of(plain()) =~= RESET@);
    assert(inline_end(plain()) =~= Seq::<char>::empty());
    assert(line.drop_first() =~= s + seq!['`']);
}

/// Text without markup characters is written as it is, whatever styles are
/// on, and reading goes on after it in the same styles.
pub proof fn plain_run_passes_through(s: Seq<char>, rest: Seq<char>, st: Style)
    requires
        markup_free(s),
    ensures
        inline_from(s + rest, st) == s + inline_from(rest, st),
    decreases s.len(),
{
    if s.len() == 0 {
        assert(s + rest =~= rest);
    } else {
        let t = s + rest;
        assert(t[0] == s[0]);
        assert(s[0] != '`' && s[0] != '*' && s[0] != '_' && s[0] != '~' && s[0] != '[');
        lemma_inline_step(t, st);
        assert(t.drop_first() =~= s.drop_first() + rest);
        assert(markup_free(s.drop_first())) by {
            assert forall|i: int| 0 <= i < s.drop_first().len() implies #[trigger] s.drop_first()[i]
                != '`' && s.drop_first()[i] != '*' && s.drop_first()[i] != '_'
                && s.drop_first()[i] != '~' && s.drop_first()[i] != '[' by {
                assert(s.drop_first()[i] == s[i + 1]);
            }
        }
        plain_run_passes_through(s.drop_first(), rest, st);
        assert(seq![s[0]] + (s.drop_first() + inline_from(rest, st)) =~= s + inline_from(rest, st));
    }
}

/// A line `*s*` or `_s_` (with `s` plain, non-empty text) is `s` in italics:
/// the reset and italic codes, `s`, and a reset.
pub proof fn single_mark_is_italic(c: char, s: Seq<char>)
    requires
        c == '*' || c == '_',
        s.len() > 0,
        markup_free(s),
    ensures
        inline_from(seq![c] + s + seq![c], plain()) == RESET@ + ITALIC@ + s + RESET@,
{
    let line = seq![c] + s + seq![c];
    let on = Style { italic: true, ..plain() };
    assert(s[0] != '*' && s[0] != '_');
    lemma_inline_step(line, plain());
    assert(line.drop_first() =~= s + seq![c]);
    plain_run_passes_through(s, seq![c], on);
    lemma_inline_step(seq![c], on);
    assert(seq![c].drop_first() =~= Seq::<char>::empty());
    lemma_inline_empty(plain());
    assert(Style { italic: !on.italic, ..on } == plain());
    assert(codes_of(on) =~= RESET@ + ITALIC@);
    assert(codes_of(plain()) =~= RESET@);
    assert(inline_end(plain()) =~= Seq::<char>::empty());
}

/// A line `**s**` or `__s__` (with `s` plain, non-empty text) is `s` in
/// bold: the reset and bold codes, `s`, and a reset.
pub proof fn double_mark_is_bold(c: char, s: Seq<char>)
    requires
        c == '*' || c == '_',
        s.len() > 0,
        markup_free(s),
    ensures
        inline_from(seq![c, c] + s + seq![c, c], plain()) == RESET@ + BOLD@ + s + RESET@,
{
    let line = seq![c, c] + s + seq![c, c];
    let on = Style { bold: true, ..plain() };
    lemma_inline_step(line, plain());
    assert(line.drop_first() =~= seq![c] + s + seq![c, c]);
    assert(line.drop_first().drop_first() =~= s + seq![c, c]);
    plain_run_passes_through(s, seq![c, c], on);
    let tail = seq![c, c];
    lemma_inline_step(tail, on);
    assert(tail.drop_first() =~= seq![c]);
    assert(tail.drop_first().drop_first() =~= Seq::<char>::empty());
    lemma_inline_empty(plain());
    assert(Style { bold: !on.bold, ..on } == plain());
    assert(codes_of(on) =~= RESET@ + BOLD@);
    assert(codes_of(plain()) =~= RESET@);
    assert(inline_end(plain()) =~= Seq::<char>::empty());
}

/// A line `~~s~~` (with `s` plain, non-empty text) is `s` struck through in
/// red: the reset, strike and red codes, `s`, and a reset.
pub proof fn tilde_pair_is_strike(s: Seq<char>)
    requires
        s.len() > 0,
        markup_free(s),
    ensures
        inline_from(seq!['~', '~'] + s + seq!['~', '~'], plain()) == RESET@ + STRIKE@ + RED@ + s + RESET@,
{
    let line = seq!['~', '~'] + s + seq!['~', '~'];
    let on = Style { strike: true, ..plain() };
    lemma_inline_step(line, plain());
    assert(line.drop_first() =~= seq!['~'] + s + seq!['~', '~']);
    assert(line.drop_first().drop_first() =~= s + seq!['~', '~']);
    plain_run_passes_through(s, seq!['~', '~'], on);
    let tail = seq!['~', '~'];
    lemma_inline_step(tail, on);
    assert(tail.drop_first() =~= seq!['~']);
    assert(tail.drop_first().drop_first() =~= Seq::<char>::empty());
    lemma_inline_empty(plain());
    assert(Style { strike: !on.strike, ..on } == plain());
    assert(codes_of(on) =~= RESET@ + STRIKE@ + RED@);
    assert(codes_of(plain()) =~= RESET@);
    assert(inline_end(plain()) =~= Seq::<char>::empty());
}

/// The terminal codes are the standard SGR sequences: reset `ESC[0m`, bold
/// `ESC[1m`, italic `ESC[3m`, strike-through `ESC[9m`, red `ESC[31m`, green
/// `ESC[32m`, yellow `ESC[33m`, cyan `ESC[36m`.
pub proof fn codes_are_sgr()
    ensures
        RESET@ == seq!['\x1b', '[', '0', 'm'],
        BOLD@ == seq!['\x1b', '[', '1', 'm'],
        ITALIC@ == seq!['\x1b', '[', '3', 'm'],
        STRIKE@ == seq!['\x1b', '[', '9', 'm'],
        RED@ == seq!['\x1b', '[', '3', '1', 'm'],
        GREEN@ == seq!['\x1b', '[', '3', '2', 'm'],
        YELLOW@ == seq!['\x1b', '[', '3', '3', 'm'],
        CYAN@ == seq!['\x1b', '[', '3', '6', 'm'],
{
    reveal_strlit("\x1b[0m");
    reveal_strlit("\x1b[1m");
    reveal_strlit("\x1b[3m");
    reveal_strlit("\x1b[9m");
    reveal_strlit("\x1b[31m");
    reveal_strlit("\x1b[32m");
    reveal_strlit("\x1b[33m");
    reveal_strlit("\x1b[36m");
    assert(RESET@ =~= seq!['\x1b', '[', '0', 'm']);
    assert(BOLD@ =~= seq!['\x1b', '[', '1', 'm']);
    assert(ITALIC@ =~= seq!['\x1b', '[', '3', 'm']);
    assert(STRIKE@ =~= seq!['\x1b', '[', '9', 'm']);
    assert(RED@ =~= seq!['\x1b', '[', '3', '1', 'm']);
    assert(GREEN@ =~= seq!['\x1b', '[', '3', '2', 'm']);
    assert(YELLOW@ =~= seq!['\x1b', '[', '3', '3', 'm']);
    assert(CYAN@ =~= seq!['\x1b', '[', '3', '6', 'm']);
}

} // verus!
