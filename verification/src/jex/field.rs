//! Template fields: a plain string, or `/pattern/replacement/flags` that
//! extracts text from the input with a regular expression.
use vstd::prelude::*;
use crate::jflat::doc::{Doc, DocV};
use crate::text::{chars_of, push_char, push_str, string_of};

verus! {

/// What `Regex::new` says of a pattern: `None` when it compiles, else the
/// text of its error.
pub uninterp spec fn regex_fails(p: Seq<char>) -> Option<Seq<char>>;

/// The text of the leftmost-first match of the pattern `p` in `input`
/// (`Regex::find`), or `None` when there is none or `p` does not compile.
pub uninterp spec fn regex_first(p: Seq<char>, input: Seq<char>) -> Option<Seq<char>>;

/// The replacement `rep` expanded with the groups of the first match of
/// `p` in `input` (`Regex::captures` and `Captures::expand`), or `None`
/// when there is no match or `p` does not compile.
pub uninterp spec fn regex_expanded(p: Seq<char>, rep: Seq<char>, input: Seq<char>) -> Option<
    Seq<char>,
>;

/// How `{:?}` writes a string (quoted, with escapes).
pub uninterp spec fn str_debug(s: Seq<char>) -> Seq<char>;

pub open spec fn opt_view(o: Option<String>) -> Option<Seq<char>> {
    match o {
        Some(s) => Some(s@),
        None => None,
    }
}

/// Compiles `p` with `regex::Regex::new` and gives the error's text if it
/// fails; the outcome depends on the pattern alone (`regex_fails`).
#[verifier::external_body]
fn regex_error(p: &str) -> (r: Option<String>)
    ensures
        opt_view(r) == regex_fails(p@),
{
    regex::Regex::new(p).err().map(|e| e.to_string())
}

/// Compiles `p` and returns the text of its first match in `input`
/// (`Regex::find`); named `regex_first`.
#[verifier::external_body]
pub(crate) fn regex_find(p: &str, input: &str) -> (r: Option<String>)
    ensures
        opt_view(r) == regex_first(p@, input@),
{
    let re = regex::Regex::new(p).ok()?;
    re.find(input).map(|m| m.as_str().to_string())
}

/// Compiles `p`, takes the groups of its first match in `input`
/// (`Regex::captures`) and expands `rep` with them (`Captures::expand`);
/// named `regex_expanded`.
#[verifier::external_body]
pub(crate) fn regex_expand(p: &str, rep: &str, input: &str) -> (r: Option<String>)
    ensures
        opt_view(r) == regex_expanded(p@, rep@, input@),
{
    let re = regex::Regex::new(p).ok()?;
    let caps = re.captures(input)?;
    let mut out = String::new();
    caps.expand(rep, &mut out);
    Some(out)
}

/// Writes `s` as `{:?}` does (`str_debug`).
#[verifier::external_body]
fn debug_text(s: &str) -> (r: String)
    ensures
        r@ == str_debug(s@),
{
    format!("{:?}", s)
}

/// The index of the first `/` in `s` at or after `i` that no backslash
/// escapes (a backslash escapes the character after it).
pub open spec fn slash_at(s: Seq<char>, i: int) -> Option<int>
    decreases s.len() + 2 - i,
{
    if i < 0 || i >= s.len() {
        None
    } else if s[i] == '\\' {
        slash_at(s, i + 2)
    } else if s[i] == '/' {
        Some(i)
    } else {
        slash_at(s, i + 1)
    }
}

proof fn lemma_slash_at(s: Seq<char>, i: int)
    ensures
        slash_at(s, i) matches Some(k) ==> i <= k < s.len() && s[k] == '/',
    decreases s.len() + 2 - i,
{
    if 0 <= i < s.len() && s[i] != '/' {
        if s[i] == '\\' {
            lemma_slash_at(s, i + 2);
        } else {
            lemma_slash_at(s, i + 1);
        }
    }
}

/// `s` split at its first unescaped `/`: the part before, and the part after
/// if there is a slash.
pub open spec fn slash_split(s: Seq<char>) -> (Seq<char>, Option<Seq<char>>) {
    match slash_at(s, 0) {
        Some(i) => (s.take(i), Some(s.skip(i + 1))),
        None => (s, None),
    }
}

/// Splits `s` at its first `/` that no backslash escapes (see `slash_split`).
pub fn split_on_slash(s: &str) -> (r: (String, Option<String>))
    ensures
        r.0@ == slash_split(s@).0,
        opt_view(r.1) == slash_split(s@).1,
{
    let v = chars_of(s);
    let n = v.len();
    let mut i: usize = 0;
    proof {
        lemma_slash_at(s@, 0);
    }
    while i < n
        invariant
            n == v@.len(),
            v@ == s@,
            slash_at(s@, 0) == slash_at(s@, i as int),
        decreases n - i,
    {
        if v[i] == '\\' {
            if n - i < 2 {
                assert(slash_at(s@, i + 2) is None);
                return (s.to_string(), None);
            }
            i = i + 2;
        } else if v[i] == '/' {
            let a = string_of(&v, 0, i);
            let b = string_of(&v, i + 1, n);
            assert(a@ =~= s@.take(i as int));
            assert(b@ =~= s@.skip(i + 1));
            return (a, Some(b));
        } else {
            i = i + 1;
        }
    }
    (s.to_string(), None)
}

/// Cutting `s` at its first unescaped slash leaves no unescaped slash
/// before the cut.
proof fn lemma_slash_before_cut(s: Seq<char>, j: int, i: int)
    requires
        0 <= j,
        slash_at(s, j) == Some(i),
    ensures
        slash_at(s.take(i), j) is None,
    decreases s.len() + 2 - j,
{
    lemma_slash_at(s, j);
    if j < i {
        let t = s.take(i);
        assert(t[j] == s[j]);
        if s[j] == '\\' {
            lemma_slash_at(s, j + 2);
            lemma_slash_before_cut(s, j + 2, i);
        } else {
            lemma_slash_before_cut(s, j + 1, i);
        }
    }
}

/// `split_on_slash` cuts `s` at its first unescaped slash and drops that
/// slash: with no such slash the first part is all of `s`, with one the two
/// parts and the slash between them make up `s`, and the first part holds no
/// unescaped slash.
pub proof fn split_on_slash_law(s: Seq<char>)
    ensures
        slash_split(s).1 is None <==> slash_at(s, 0) is None,
        slash_split(s).1 is None ==> slash_split(s).0 == s,
        slash_split(s).1 matches Some(b) ==> s == slash_split(s).0 + seq!['/'] + b,
        slash_at(slash_split(s).0, 0) is None,
{
    lemma_slash_at(s, 0);
    match slash_at(s, 0) {
        Some(i) => {
            assert(s =~= s.take(i) + seq!['/'] + s.skip(i + 1));
            lemma_slash_before_cut(s, 0, i);
        },
        None => {},
    }
}

/// `s` with each `\/` made `/`, from left to right.
pub open spec fn unslash(s: Seq<char>) -> Seq<char>
    decreases s.len(),
{
    if s.len() == 0 {
        Seq::empty()
    } else if s.len() >= 2 && s[0] == '\\' && s[1] == '/' {
        seq!['/'] + unslash(s.skip(2))
    } else {
        seq![s[0]] + unslash(s.drop_first())
    }
}

/// `s` with each `\/` replaced by `/` (see `unslash`).
pub fn unescape_slash(s: &str) -> (r: String)
    ensures
        r@ == unslash(s@),
{
    let v = chars_of(s);
    let n = v.len();
    let mut out = String::new();
    let mut i: usize = 0;
    assert(v@.skip(0) =~= v@);
    while i < n
        invariant
            n == v@.len(),
            v@ == s@,
            i <= n,
            out@ + unslash(v@.skip(i as int)) == unslash(s@),
        decreases n - i,
    {
        let ghost rest = v@.skip(i as int);
        let ghost o = out@;
        assert(rest[0] == v@[i as int]);
        if i + 1 < n && v[i] == '\\' && v[i + 1] == '/' {
            push_char(&mut out, '/');
            assert(rest[1] == v@[i + 1]);
            assert(rest.skip(2) =~= v@.skip(i + 2));
            i = i + 2;
        } else {
            push_char(&mut out, v[i]);
            proof {
                if i + 1 < n {
                    assert(rest[1] == v@[i + 1]);
                }
            }
            assert(rest.drop_first() =~= v@.skip(i + 1));
            i = i + 1;
        }
        assert(out@ + unslash(v@.skip(i as int)) =~= o + unslash(rest));
    }
    assert(v@.skip(n as int) =~= Seq::<char>::empty());
    assert(out@ =~= out@ + unslash(Seq::<char>::empty()));
    out
}

/// A template string compiled.
pub enum Field {
    /// Put in as it is.
    Literal(Doc),
    /// A regular expression (flags included, as `(?flags)pattern`) whose
    /// first match, or the replacement expanded with its groups, is put in.
    Regex { pattern: String, replace: Option<String> },
}

/// What a field stands for.
pub enum FieldV {
    Literal(DocV),
    Regex(Seq<char>, Option<Seq<char>>),
}

pub open spec fn field_view(f: Field) -> FieldV {
    match f {
        Field::Literal(d) => FieldV::Literal(d@),
        Field::Regex { pattern, replace } => FieldV::Regex(pattern@, opt_view(replace)),
    }
}

/// The pattern with its flags: `(?flags)pattern`, or the pattern alone.
pub open spec fn with_flags(pattern: Seq<char>, flags: Seq<char>) -> Seq<char> {
    if flags.len() == 0 {
        pattern
    } else {
        seq!['(', '?'] + flags + seq![')'] + pattern
    }
}

/// What a template string compiles to: `//x` is the literal `/x`; a string
/// not starting with `/` is itself; `/pattern/replacement/flags` (the last
/// two parts optional, `\/` an escaped slash in the first two) is a regular
/// expression, or an error naming the pattern if it does not compile.
pub open spec fn field_spec(s: Seq<char>) -> Result<FieldV, Seq<char>> {
    if s.len() >= 2 && s[0] == '/' && s[1] == '/' {
        Ok(FieldV::Literal(DocV::Str(s.drop_first())))
    } else if !(s.len() >= 1 && s[0] == '/') {
        Ok(FieldV::Literal(DocV::Str(s)))
    } else {
        let (pattern_raw, rest) = slash_split(s.drop_first());
        let (replace, flags) = match rest {
            None => (None, Seq::empty()),
            Some(r) => match slash_split(r) {
                (rep, Some(f)) => (Some(unslash(rep)), f),
                (f, None) => (None, f),
            },
        };
        let pattern = unslash(pattern_raw);
        let full = with_flags(pattern, flags);
        match regex_fails(full) {
            None => Ok(FieldV::Regex(full, replace)),
            Some(e) => Err("invalid regex "@ + str_debug(pattern) + ": "@ + e),
        }
    }
}

/// The pattern with its flags (see `with_flags`); `Regex::new` checks it.
pub fn build_regex(pattern: &str, flags: &str) -> (r: Result<String, String>)
    ensures
        match regex_fails(with_flags(pattern@, flags@)) {
            None => r matches Ok(p) && p@ == with_flags(pattern@, flags@),
            Some(e) => r matches Err(m) && m@ == e,
        },
{
    let mut full = String::new();
    if flags.is_empty() {
        push_str(&mut full, pattern);
    } else {
        push_char(&mut full, '(');
        push_char(&mut full, '?');
        push_str(&mut full, flags);
        push_char(&mut full, ')');
        push_str(&mut full, pattern);
    }
    assert(full@ =~= with_flags(pattern@, flags@));
    match regex_error(full.as_str()) {
        None => Ok(full),
        Some(e) => Err(e),
    }
}

/// Compiles a template string (see `field_spec`).
pub fn parse_field(s: &str) -> (r: Result<Field, String>)
    ensures
        match field_spec(s@) {
            Ok(f) => r matches Ok(x) && field_view(x) == f,
            Err(e) => r matches Err(m) && m@ == e,
        },
{
    let v = chars_of(s);
    let n = v.len();
    if n >= 2 && v[0] == '/' && v[1] == '/' {
        let t = string_of(&v, 1, n);
        assert(t@ =~= s@.drop_first());
        return Ok(Field::Literal(Doc::Str(t)));
    }
    if !(n >= 1 && v[0] == '/') {
        return Ok(Field::Literal(Doc::Str(s.to_string())));
    }
    let inner = string_of(&v, 1, n);
    assert(inner@ =~= s@.drop_first());
    let (pattern_raw, rest) = split_on_slash(inner.as_str());
    let (replace, flags): (Option<String>, String) = match rest {
        None => (None, String::new()),
        Some(r) => {
            let (a, b) = split_on_slash(r.as_str());
            match b {
                Some(f) => (Some(unescape_slash(a.as_str())), f),
                None => (None, a),
            }
        },
    };
    let pattern = unescape_slash(pattern_raw.as_str());
    match build_regex(pattern.as_str(), flags.as_str()) {
        Ok(full) => Ok(Field::Regex { pattern: full, replace }),
        Err(e) => {
            let mut m = String::new();
            push_str(&mut m, "invalid regex ");
            push_str(&mut m, debug_text(pattern.as_str()).as_str());
            push_str(&mut m, ": ");
            push_str(&mut m, e.as_str());
            Err(m)
        },
    }
}

/// A first unescaped slash of `a` is the first one in every text that
/// starts with `a`.
proof fn lemma_slash_prefix(a: Seq<char>, r: Seq<char>, j: int, k: int)
    requires
        0 <= j,
        a.len() <= r.len(),
        r.take(a.len() as int) == a,
        slash_at(a, j) == Some(k),
    ensures
        slash_at(r, j) == Some(k),
    decreases a.len() + 2 - j,
{
    lemma_slash_at(a, j);
    assert(r[j] == r.take(a.len() as int)[j]);
    if a[j] == '\\' {
        lemma_slash_prefix(a, r, j + 2, k);
    } else if a[j] != '/' {
        lemma_slash_prefix(a, r, j + 1, k);
    }
}

/// `p` is a part of a field that a slash ends: in `p` followed by `/`, the
/// first slash that no backslash escapes is the one after `p`.
pub open spec fn slash_ended(p: Seq<char>) -> bool {
    slash_at(p + seq!['/'], 0) == Some(p.len() as int)
}

/// The regular expression for the pattern `p` (with `\/` made `/`) and the
/// flags `f`: the pattern alone, or `(?f)` in front of it.
pub open spec fn flagged(p: Seq<char>, f: Seq<char>) -> Seq<char> {
    if f.len() == 0 {
        unslash(p)
    } else {
        seq!['(', '?'] + f + seq![')'] + unslash(p)
    }
}

/// `p` followed by `/` and `rest` splits at that slash.
proof fn lemma_split_after(p: Seq<char>, rest: Seq<char>)
    requires
        slash_ended(p),
    ensures
        slash_split(p + seq!['/'] + rest) == (p, Some(rest)),
{
    let a = p + seq!['/'];
    let r = p + seq!['/'] + rest;
    assert(r.take(a.len() as int) =~= a);
    lemma_slash_prefix(a, r, 0, p.len() as int);
    assert(r.take(p.len() as int) =~= p);
    assert(r.skip(p.len() as int + 1) =~= rest);
}

/// A field `/p/f` (a pattern, one more unescaped slash, flags with no
/// unescaped slash) is the regular expression `p` with the flags `f` and no
/// replacement; it fails exactly when that expression does not compile.
pub proof fn pattern_flags_field(p: Seq<char>, f: Seq<char>)
    requires
        p.len() > 0,
        slash_ended(p),
        slash_at(f, 0) is None,
    ensures
        field_spec(seq!['/'] + p + seq!['/'] + f) is Ok <==> regex_fails(flagged(p, f)) is None,
        field_spec(seq!['/'] + p + seq!['/'] + f) is Ok ==> field_spec(seq!['/'] + p + seq!['/'] + f)
            == Ok::<FieldV, Seq<char>>(FieldV::Regex(flagged(p, f), None)),
{
    let s = seq!['/'] + p + seq!['/'] + f;
    assert(p[0] != '/');
    assert(s[1] == p[0]);
    assert(s.drop_first() =~= p + seq!['/'] + f);
    lemma_split_after(p, f);
}

/// A field `/p/r/f` (a pattern, a replacement, flags, with unescaped
/// slashes between them only) is the regular expression `p` with the flags
/// `f` and the replacement `r` (with `\/` made `/`); it fails exactly when
/// that expression does not compile.
pub proof fn pattern_replacement_flags_field(p: Seq<char>, r: Seq<char>, f: Seq<char>)
    requires
        p.len() > 0,
        slash_ended(p),
        slash_ended(r),
        slash_at(f, 0) is None,
    ensures
        field_spec(seq!['/'] + p + seq!['/'] + r + seq!['/'] + f) is Ok <==> regex_fails(flagged(p, f))
            is None,
        field_spec(seq!['/'] + p + seq!['/'] + r + seq!['/'] + f) is Ok ==> field_spec(
            seq!['/'] + p + seq!['/'] + r + seq!['/'] + f,
        ) == Ok::<FieldV, Seq<char>>(FieldV::Regex(flagged(p, f), Some(unslash(r)))),
{
    let s = seq!['/'] + p + seq!['/'] + r + seq!['/'] + f;
    assert(p[0] != '/');
    assert(s[1] == p[0]);
    assert(s.drop_first() =~= p + seq!['/'] + (r + seq!['/'] + f));
    lemma_split_after(p, r + seq!['/'] + f);
    lemma_split_after(r, f);
}

} // verus!
