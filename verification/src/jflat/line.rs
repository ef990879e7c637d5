//! Splitting text into lines, and a flat line into its three fields.
use vstd::prelude::*;
use crate::jflat::path::{occurs_at, occurs_at_exec};
use crate::text::{chars_of, string_of};

verus! {

/// The first index at or after `j` where `pat` occurs in `s` (`str::find`).
pub open spec fn find_from(s: Seq<char>, pat: Seq<char>, j: int) -> Option<int>
    decreases s.len() + 1 - j,
{
    if j < 0 || j + pat.len() > s.len() {
        None
    } else if occurs_at(s, pat, j) {
        Some(j)
    } else {
        find_from(s, pat, j + 1)
    }
}

/// Where a line's first separator outside double-quotes stands.
pub enum Scan {
    /// The separator starts at this index.
    Found(int),
    /// There is none.
    Missing,
    /// A non-ASCII character outside quotes comes before it: the byte-wise
    /// scan then slices the line inside that character, which panics.
    Broken,
}

/// Scans `line` from `i` for `sep`, skipping double-quoted parts (where a
/// backslash escapes the next character).
pub open spec fn scan_sep(line: Seq<char>, sep: Seq<char>, i: int, in_q: bool) -> Scan
    decreases line.len() + 1 - i,
{
    if i < 0 || i >= line.len() {
        Scan::Missing
    } else if in_q {
        if line[i] == '\\' {
            scan_sep(line, sep, i + 2, true)
        } else if line[i] == '"' {
            scan_sep(line, sep, i + 1, false)
        } else {
            scan_sep(line, sep, i + 1, true)
        }
    } else if line[i] == '"' {
        scan_sep(line, sep, i + 1, true)
    } else if occurs_at(line, sep, i) {
        Scan::Found(i)
    } else if line[i] as int >= 0x80 {
        Scan::Broken
    } else {
        scan_sep(line, sep, i + 1, false)
    }
}

/// Whether splitting `line` at `sep` would slice inside a character.
pub open spec fn split_breaks(line: Seq<char>, sep: Seq<char>) -> bool {
    scan_sep(line, sep, 0, false) is Broken
}

/// The three fields of a flat line: the path (up to the first separator
/// outside quotes), the type (up to the next separator), and the rest.
pub open spec fn split_spec(line: Seq<char>, sep: Seq<char>) -> Option<
    (Seq<char>, Seq<char>, Seq<char>),
> {
    match scan_sep(line, sep, 0, false) {
        Scan::Found(i) => {
            let rest = line.skip(i + sep.len());
            match find_from(rest, sep, 0) {
                Some(j) => Some((line.take(i), rest.take(j), rest.skip(j + sep.len()))),
                None => None,
            }
        },
        _ => None,
    }
}

/// `find_from(v[lo..], pat, 0)`, as an index into `v`.
pub fn find_exec(v: &Vec<char>, lo: usize, pat: &Vec<char>) -> (r: Option<usize>)
    requires
        lo <= v@.len(),
    ensures
        r is None <==> find_from(v@.skip(lo as int), pat@, 0) is None,
        r matches Some(k) ==> lo <= k && k + pat@.len() <= v@.len() && find_from(
            v@.skip(lo as int),
            pat@,
            0,
        ) == Some(k - lo),
{
    let n = v.len();
    let ghost s = v@.skip(lo as int);
    let mut j = lo;
    loop
        invariant
            n == v@.len(),
            lo <= j <= n,
            s == v@.skip(lo as int),
            find_from(s, pat@, 0) == find_from(s, pat@, j - lo),
        decreases n - j,
    {
        if pat.len() > n - j {
            assert(s.len() == n - lo);
            return None;
        }
        if occurs_at_exec(v, pat, j) {
            assert(s.subrange(j - lo, j - lo + pat@.len()) =~= v@.subrange(
                j as int,
                j + pat@.len(),
            ));
            return Some(j);
        }
        assert(s.subrange(j - lo, j - lo + pat@.len()) =~= v@.subrange(
            j as int,
            j + pat@.len(),
        ));
        if j == n {
            assert(pat@.len() > 0) by {
                if pat@.len() == 0 {
                    assert(v@.subrange(j as int, j as int) =~= pat@);
                }
            }
            return None;
        }
        j = j + 1;
    }
}

/// Scans `v` for `sep` as `scan_sep` does.
fn scan_exec(v: &Vec<char>, sv: &Vec<char>) -> (r: (u8, usize))
    ensures
        r.0 == 0 ==> scan_sep(v@, sv@, 0, false) == Scan::Found(r.1 as int),
        r.0 == 1 ==> scan_sep(v@, sv@, 0, false) is Missing,
        r.0 == 2 ==> scan_sep(v@, sv@, 0, false) is Broken,
        r.0 <= 2,
        r.0 == 0 ==> r.1 + sv@.len() <= v@.len(),
{
    let n = v.len();
    let mut i: usize = 0;
    let mut in_q = false;
    while i < n
        invariant
            n == v@.len(),
            i <= n + 1,
            scan_sep(v@, sv@, 0, false) == scan_sep(v@, sv@, i as int, in_q),
        decreases n + 1 - i,
    {
        let c = v[i];
        if in_q {
            if c == '\\' {
                assert(scan_sep(v@, sv@, i as int, true) == scan_sep(v@, sv@, i + 2, true));
                if n - i < 2 {
                    assert(scan_sep(v@, sv@, i + 2, true) is Missing);
                    assert(scan_sep(v@, sv@, n as int, true) is Missing);
                }
                i = if n - i >= 2 { i + 2 } else { n };
                continue;
            }
            if c == '"' {
                in_q = false;
            }
        } else if c == '"' {
            in_q = true;
        } else if occurs_at_exec(v, sv, i) {
            return (0, i);
        } else if c >= '\u{80}' {
            return (2, i);
        }
        i = i + 1;
    }
    (1, 0)
}

/// Splits a flat line into path, type and value at the separator `sep`
/// (the first separator outside double-quotes ends the path).
pub fn split_line(line: &str, sep: &str) -> (res: Option<(String, String, String)>)
    requires
        !split_breaks(line@, sep@),
    ensures
        match split_spec(line@, sep@) {
            Some(t) => res matches Some(r) && r.0@ == t.0 && r.1@ == t.1 && r.2@ == t.2,
            None => res is None,
        },
{
    let v = chars_of(line);
    let sv = chars_of(sep);
    let n = v.len();
    let (kind, i) = scan_exec(&v, &sv);
    if kind != 0 {
        return None;
    }
    let start = i + sv.len();
    assert(scan_sep(line@, sep@, 0, false) == Scan::Found(i as int));
    let ghost rest = line@.skip(start as int);
    assert(rest == line@.skip(i + sep@.len()));
    match find_exec(&v, start, &sv) {
        None => {
            assert(find_from(rest, sep@, 0) is None);
            None
        },
        Some(j) => {
            assert(find_from(rest, sep@, 0) == Some(j - start));
            let path = string_of(&v, 0, i);
            let typ = string_of(&v, start, j);
            let val = string_of(&v, j + sv.len(), v.len());
            assert(line@.take(i as int) =~= v@.subrange(0, i as int));
            assert(rest.take(j - start) =~= v@.subrange(start as int, j as int));
            assert(rest.skip(j - start + sv@.len()) =~= v@.subrange(
                j + sv@.len(),
                v@.len() as int,
            ));
            Some((path, typ, val))
        },
    }
}

/// Whether `split_line(line, sep)` is outside what the byte-wise split
/// accepts (see `Scan::Broken`).
pub fn split_line_breaks(line: &str, sep: &str) -> (b: bool)
    ensures
        b == split_breaks(line@, sep@),
{
    let v = chars_of(line);
    let sv = chars_of(sep);
    let (kind, _i) = scan_exec(&v, &sv);
    kind == 2
}

// ---- lines ----------------------------------------------------------------------

/// `l` without one trailing `\r`.
pub open spec fn strip_cr(l: Seq<char>) -> Seq<char> {
    if l.len() > 0 && l.last() == '\r' {
        l.drop_last()
    } else {
        l
    }
}

/// The lines of `s` (`str::lines`): split at `\n`, a `\r` before a `\n` is
/// dropped, and a final `\n` ends the last line rather than starting another.
pub open spec fn lines_of(s: Seq<char>) -> Seq<Seq<char>>
    decreases s.len(),
{
    if s.len() == 0 {
        Seq::empty()
    } else {
        match find_from(s, seq!['\n'], 0) {
            None => seq![s],
            Some(j) => {
                proof {
                    lemma_find_from_bounds(s, seq!['\n'], 0);
                }
                seq![strip_cr(s.take(j))] + lines_of(s.skip(j + 1))
            },
        }
    }
}

pub proof fn lemma_find_from_bounds(s: Seq<char>, pat: Seq<char>, j: int)
    ensures
        find_from(s, pat, j) matches Some(k) ==> j <= k && k + pat.len() <= s.len() && occurs_at(
            s,
            pat,
            k,
        ),
    decreases s.len() + 1 - j,
{
    if !(j < 0 || j + pat.len() > s.len()) && !occurs_at(s, pat, j) {
        lemma_find_from_bounds(s, pat, j + 1);
    }
}

/// The lines of `s`, as `lines_of` says.
pub fn lines(s: &str) -> (res: Vec<String>)
    ensures
        res@.len() == lines_of(s@).len(),
        forall|i: int| 0 <= i < res@.len() ==> #[trigger] res@[i]@ == lines_of(s@)[i],
{
    let v = chars_of(s);
    let n = v.len();
    let nl = vec!['\n'];
    assert(nl@ =~= seq!['\n']);
    let mut res: Vec<String> = Vec::new();
    let mut i: usize = 0;
    assert(v@.skip(0) =~= v@);
    while i < n
        invariant
            n == v@.len(),
            v@ == s@,
            nl@ == seq!['\n'],
            i <= n,
            lines_of(s@) == res@.map_values(|r: String| r@) + lines_of(v@.skip(i as int)),
        decreases n - i,
    {
        let ghost rest = v@.skip(i as int);
        let ghost before = res@.map_values(|r: String| r@);
        match find_exec(&v, i, &nl) {
            None => {
                res.push(string_of(&v, i, n));
                assert(v@.subrange(i as int, n as int) =~= rest);
                assert(v@.skip(n as int) =~= Seq::<char>::empty());
                assert(res@.map_values(|r: String| r@) =~= before + seq![rest]);
                i = n;
            },
            Some(j) => {
                proof {
                    lemma_find_from_bounds(rest, seq!['\n'], 0);
                }
                let end = if j > i && v[j - 1] == '\r' { j - 1 } else { j };
                res.push(string_of(&v, i, end));
                assert(strip_cr(rest.take(j - i)) =~= v@.subrange(i as int, end as int));
                assert(rest.skip(j - i + 1) =~= v@.skip(j + 1));
                assert(res@.map_values(|r: String| r@) =~= before + seq![
                    strip_cr(rest.take(j - i)),
                ]);
                i = j + 1;
            },
        }
    }
    assert(v@.skip(n as int) =~= Seq::<char>::empty());
    assert(lines_of(Seq::<char>::empty()) =~= Seq::<Seq<char>>::empty());
    assert(lines_of(s@) =~= res@.map_values(|r: String| r@));
    assert forall|i: int| 0 <= i < res@.len() implies #[trigger] res@[i]@ == lines_of(s@)[i] by {
        assert(res@.map_values(|r: String| r@)[i] == res@[i]@);
    }
    res
}

} // verus!
