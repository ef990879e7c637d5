//! The flat text of a document, read back, gives the document.
use vstd::prelude::*;
use crate::jflat::doc::{
    doc_view, flat, flat_items, flat_members, insert_pos, items_view, lemma_insert_pos, lemma_items_view,
    lemma_members_view, members_view, sort_orders_and_keeps, sort_spec, sorted_by_path, Doc,
    DocV, Fmt,
};
use crate::jflat::line::{find_from, lemma_find_from_bounds, lines_of, scan_sep, split_breaks, split_spec, strip_cr, Scan};
use crate::jflat::path::{
    contains_seq, escape_key, is_path_special, lemma_escape_key_cons, lemma_parse_segs_text,
    must_quote, occurs_at, parse_path_spec, path_text, seg_text, segs_text,
    SegV,
};
use crate::jflat::order::{
    chars_lt, lemma_chars_lt_irreflexive, lemma_path_lt_irreflexive, path_lt,
};
use crate::jflat::rebuild::{
    all_leaves_of, flat_entries_are_leaves, flat_lists_every_leaf, leaf_at, flat_items_v, flat_members_v, flat_v, ins_all, lemma_flat_shift, lemma_rebuild, lemma_tree_ok_norm,
    lemma_tree_ok_unique, tree_ok, under_path,
};
use crate::jflat::norm::{
    keys_increasing, keys_sorted, lemma_flat_norm_multiset, lemma_keys_sorted_norm, lemma_norm_fixed, norm,
    sorted_items, sorted_members,
};
use crate::jflat::unflat::{unflat_run, unflatten_spec, UnflatRun};
use crate::jflat::env::{env_key, env_line, sh_quoted, EnvLine};
use crate::jsonlite::{unescape_body, unquote_inner};
use crate::jflat::times::{
    canon, lemma_canon_injective, lemma_flat_untimed, lemma_ins_all_alike, lemma_time_paths, lemma_toml_back,
    lemma_toml_ok_norm, lemma_untimed_norm, same_leaves, time_paths, times_cover, toml_ok, untimed,
};
use crate::jsonlite::{control_escape, escape_body, quoted, readable_escape, hex4, hex_digit, is_high_control};
use crate::text::{decimal, dec_val, lemma_decimal_parses};

verus! {

// ---- views ------------------------------------------------------------------------

proof fn lemma_flat_view(d: Doc, p: Seq<SegV>)
    ensures
        flat(d, p) == flat_v(doc_view(d), p),
    decreases d, 1int,
{
    match d {
        Doc::Array(items) => {
            if items@.len() > 0 {
                lemma_items_view(items@, items@.len() as int);
                assert(decreases_to!(d => d->Array_0));
                assert(decreases_to!(items => items@));
                lemma_flat_items_view(items@, p, items@.len() as int);
            }
        },
        Doc::Object(ms) => {
            if ms@.len() > 0 {
                lemma_members_view(ms@, ms@.len() as int);
                assert(decreases_to!(d => d->Object_0));
                assert(decreases_to!(ms => ms@));
                lemma_flat_members_view(ms@, p, ms@.len() as int);
            }
        },
        _ => {},
    }
}

proof fn lemma_flat_items_view(items: Seq<Doc>, p: Seq<SegV>, n: int)
    requires
        0 <= n <= items.len(),
    ensures
        flat_items(items, p, n) == flat_items_v(items_view(items, items.len() as int), p, n),
    decreases items, n,
{
    lemma_items_view(items, items.len() as int);
    if n > 0 {
        lemma_flat_items_view(items, p, n - 1);
        lemma_flat_view(items[n - 1], p.push(SegV::Idx((n - 1) as nat)));
    }
}

proof fn lemma_flat_members_view(ms: Seq<(String, Doc)>, p: Seq<SegV>, n: int)
    requires
        0 <= n <= ms.len(),
    ensures
        flat_members(ms, p, n) == flat_members_v(members_view(ms, ms.len() as int), p, n),
    decreases ms, n,
{
    lemma_members_view(ms, ms.len() as int);
    if n > 0 {
        lemma_flat_members_view(ms, p, n - 1);
        assert(decreases_to!(ms => ms[n - 1]));
        lemma_flat_view(ms[n - 1].1, p.push(SegV::Key(ms[n - 1].0@)));
    }
}

// ---- splitting a line -------------------------------------------------------------

/// A letter of one of the type names (`null`, `boolean`, `number`,
/// `string`, `time`, `array`, `object`).
pub open spec fn type_char(ch: char) -> bool {
    ch == 'a' || ch == 'b' || ch == 'c' || ch == 'e' || ch == 'g' || ch == 'i' || ch == 'j' || ch == 'l'
        || ch == 'm' || ch == 'n' || ch == 'o' || ch == 'r' || ch == 's' || ch == 't' || ch == 'u' || ch
        == 'y'
}

/// A character that no path or type name can hide in a separator: no
/// letter of a type name, no digit, not `.`, `[`, `]`, `"`, nor a newline.
pub open spec fn sep_char(ch: char) -> bool {
    &&& !type_char(ch)
    &&& !('0' <= ch && ch <= '9')
    &&& ch != '.' && ch != '[' && ch != ']' && ch != '"' && ch != '\n'
}

/// A separator made of such characters (a key that holds it is written
/// quoted).
pub open spec fn good_sep(sep: Seq<char>) -> bool {
    sep.len() > 0 && forall|i: int| 0 <= i < sep.len() ==> sep_char(#[trigger] sep[i])
}

/// A separator cannot start at a character that is none of its own.
proof fn lemma_no_occurrence(s: Seq<char>, sep: Seq<char>, i: int)
    requires
        good_sep(sep),
        0 <= i < s.len(),
        !sep_char(s[i]),
    ensures
        !occurs_at(s, sep, i),
{
    if occurs_at(s, sep, i) {
        assert(s.subrange(i, i + sep.len())[0] == s[i]);
        assert(sep_char(sep[0]));
    }
}

/// An occurrence of `pat` at `x` comes no earlier than the first one found
/// from `j`.
proof fn lemma_find_first(w: Seq<char>, pat: Seq<char>, j: int, x: int)
    requires
        0 <= j <= x,
        occurs_at(w, pat, x),
    ensures
        find_from(w, pat, j) matches Some(y) && j <= y <= x,
    decreases x - j,
{
    if !occurs_at(w, pat, j) {
        lemma_find_first(w, pat, j + 1, x);
    }
}

/// Scanning over characters that are no quote, where no separator starts,
/// and that are ASCII.
proof fn lemma_scan_plain(s: Seq<char>, sep: Seq<char>, i: int, j: int)
    requires
        0 <= i <= j <= s.len(),
        forall|k: int|
            i <= k < j ==> #[trigger] s[k] != '"' && !occurs_at(s, sep, k) && (s[k] as int) < 0x80,
    ensures
        scan_sep(s, sep, i, false) == scan_sep(s, sep, j, false),
    decreases j - i,
{
    if i < j {
        assert(s[i] != '"' && !occurs_at(s, sep, i) && (s[i] as int) < 0x80);
        lemma_scan_plain(s, sep, i + 1, j);
    }
}

/// Scanning over a quoted key's escaped text and its closing quote.
proof fn lemma_scan_quoted(s: Seq<char>, sep: Seq<char>, i: int, k: Seq<char>)
    requires
        0 <= i,
        i + escape_key(k).len() + 1 <= s.len(),
        s.subrange(i, i + escape_key(k).len() + 1) == escape_key(k) + seq!['"'],
    ensures
        scan_sep(s, sep, i, true) == scan_sep(s, sep, i + escape_key(k).len() + 1, false),
    decreases k.len(),
{
    let w = escape_key(k) + seq!['"'];
    if k.len() == 0 {
        assert(escape_key(k) =~= Seq::<char>::empty());
        assert(s[i] == s.subrange(i, i + 1)[0]);
        assert(w[0] == '"');
    } else {
        lemma_escape_key_cons(k);
        let rest = k.drop_first();
        let n = escape_key(k).len();
        if k[0] == '"' || k[0] == '\\' {
            assert(s[i] == s.subrange(i, i + n + 1)[0]);
            assert(w[0] == '\\');
            assert(s.subrange(i + 2, i + 2 + escape_key(rest).len() + 1) =~= escape_key(rest) + seq!['"']) by {
                assert forall|x: int| 0 <= x < escape_key(rest).len() + 1 implies s.subrange(
                    i + 2,
                    i + 2 + escape_key(rest).len() + 1,
                )[x] == (escape_key(rest) + seq!['"'])[x] by {
                    assert(s.subrange(i, i + n + 1)[x + 2] == s[i + 2 + x]);
                    assert(w[x + 2] == (escape_key(rest) + seq!['"'])[x]);
                }
            }
            lemma_scan_quoted(s, sep, i + 2, rest);
        } else {
            assert(s[i] == s.subrange(i, i + n + 1)[0]);
            assert(w[0] == k[0]);
            assert(s.subrange(i + 1, i + 1 + escape_key(rest).len() + 1) =~= escape_key(rest) + seq!['"']) by {
                assert forall|x: int| 0 <= x < escape_key(rest).len() + 1 implies s.subrange(
                    i + 1,
                    i + 1 + escape_key(rest).len() + 1,
                )[x] == (escape_key(rest) + seq!['"'])[x] by {
                    assert(s.subrange(i, i + n + 1)[x + 1] == s[i + 1 + x]);
                    assert(w[x + 1] == (escape_key(rest) + seq!['"'])[x]);
                }
            }
            lemma_scan_quoted(s, sep, i + 1, rest);
        }
    }
}

/// Every character of `s` is ASCII.
pub open spec fn ascii(s: Seq<char>) -> bool {
    forall|i: int| 0 <= i < s.len() ==> (#[trigger] s[i] as int) < 0x80
}

/// A path whose text the separator `sep` can follow: keys hold no newline,
/// keys written bare are ASCII, indices fit a machine word.
pub open spec fn path_ok(p: Seq<SegV>, sep: Seq<char>) -> bool {
    forall|i: int|
        0 <= i < p.len() ==> match #[trigger] p[i] {
            SegV::Key(k) => (forall|j: int| 0 <= j < k.len() ==> k[j] != '\n') && (!must_quote(k, sep)
                ==> ascii(k)),
            SegV::Idx(n) => n <= usize::MAX,
        }
}

/// A key written bare that ends a line's path, with the separator after it,
/// holds the separator first where the separator itself starts (an end of
/// the key and a start of the separator do not make up one).
pub open spec fn tail_key_ok(k: Seq<char>, sep: Seq<char>) -> bool {
    !must_quote(k, sep) ==> find_from(k + sep, sep, 0) == Some(k.len() as int)
}

/// The last segment of a line's path, as `tail_key_ok` says.
pub open spec fn tail_ok(p: Seq<SegV>, sep: Seq<char>) -> bool {
    p.len() > 0 ==> (p.last() matches SegV::Key(k) ==> tail_key_ok(k, sep))
}

/// A path whose lines split back with separator `sep`: a key written
/// without quotes is ASCII (a quoted key may hold anything, newlines too),
/// an index fits a machine word.
pub open spec fn split_path_ok(p: Seq<SegV>, sep: Seq<char>) -> bool {
    forall|i: int|
        0 <= i < p.len() ==> match #[trigger] p[i] {
            SegV::Key(k) => !must_quote(k, sep) ==> ascii(k),
            SegV::Idx(n) => n <= usize::MAX,
        }
}

proof fn lemma_path_ok_splits(p: Seq<SegV>, sep: Seq<char>)
    requires
        path_ok(p, sep),
    ensures
        split_path_ok(p, sep),
{
    assert forall|i: int| 0 <= i < p.len() implies match #[trigger] p[i] {
        SegV::Key(k) => !must_quote(k, sep) ==> ascii(k),
        SegV::Idx(n) => n <= usize::MAX,
    } by {
        assert(path_ok(p, sep));
    }
}

/// What follows the text of a path at `e` in `s`: the start of another
/// segment (no separator character), or the separator, after a last
/// segment as `tail_ok` says.
pub open spec fn follows(s: Seq<char>, e: int, sep: Seq<char>, p: Seq<SegV>) -> bool {
    ||| (0 <= e < s.len() && !sep_char(s[e]))
    ||| (0 <= e && e + sep.len() <= s.len() && s.subrange(e, e + sep.len()) == sep && tail_ok(p, sep))
}

proof fn lemma_scan_seg(s: Seq<char>, sep: Seq<char>, i: int, g: SegV)
    requires
        good_sep(sep),
        0 <= i,
        i + seg_text(g, sep).len() <= s.len(),
        s.subrange(i, i + seg_text(g, sep).len()) == seg_text(g, sep),
        g matches SegV::Key(k) ==> (!must_quote(k, sep) ==> ascii(k)),
        follows(s, i + seg_text(g, sep).len(), sep, seq![g]),
    ensures
        scan_sep(s, sep, i, false) == scan_sep(s, sep, i + seg_text(g, sep).len(), false),
{
    let t = seg_text(g, sep);
    let n = t.len();
    let e = i + n;
    assert forall|x: int| 0 <= x < n implies s[i + x] == t[x] by {
        assert(s.subrange(i, i + n)[x] == s[i + x]);
    }
    match g {
        SegV::Idx(v) => {
            lemma_decimal_parses(v);
            let d = decimal(v);
            assert forall|k: int| i <= k < e implies #[trigger] s[k] != '"' && !occurs_at(s, sep, k) && (
            s[k] as int) < 0x80 by {
                assert(s[k] == t[k - i]);
                if k - i == 0 {
                    assert(t[0] == '[');
                } else if k - i == n - 1 {
                    assert(t[n - 1] == ']');
                } else {
                    assert(t[k - i] == d[k - i - 1]);
                    assert(dec_val(d[k - i - 1]) is Some);
                }
                lemma_no_occurrence(s, sep, k);
            }
            lemma_scan_plain(s, sep, i, e);
        },
        SegV::Key(k) => {
            assert(t[0] == '.');
            lemma_no_occurrence(s, sep, i);
            if must_quote(k, sep) {
                assert(t[1] == '"');
                assert(s[i + 1] == '"');
                let m = escape_key(k).len();
                assert(s.subrange(i + 2, i + 2 + m + 1) =~= escape_key(k) + seq!['"']) by {
                    assert forall|x: int| 0 <= x < m + 1 implies s.subrange(i + 2, i + 2 + m + 1)[x]
                        == (escape_key(k) + seq!['"'])[x] by {
                        assert(s[i + 2 + x] == t[x + 2]);
                        assert(t[x + 2] == (escape_key(k) + seq!['"'])[x]);
                    }
                }
                lemma_scan_quoted(s, sep, i + 2, k);
                assert(n == 2 + m + 1);
                assert(scan_sep(s, sep, i, false) == scan_sep(s, sep, i + 1, false));
                assert(scan_sep(s, sep, i + 1, false) == scan_sep(s, sep, i + 2, true));
            } else {
                assert(n == k.len() + 1);
                assert forall|x: int| 0 <= x < k.len() implies #[trigger] s[i + 1 + x] == k[x] by {
                    assert(s[i + 1 + x] == t[x + 1]);
                }
                assert forall|p: int| i <= p < e implies #[trigger] s[p] != '"' && !occurs_at(s, sep, p)
                    && (s[p] as int) < 0x80 by {
                    if p > i {
                        let x = p - i - 1;
                        assert(s[i + 1 + x] == t[x + 1]);
                        assert(s[p] == k[x]);
                        assert(!is_path_special(k[x]));
                        if occurs_at(s, sep, p) {
                            if p + sep.len() <= e {
                                assert(k.subrange(x, x + sep.len()) =~= sep) by {
                                    assert forall|y: int| 0 <= y < sep.len() implies k.subrange(
                                        x,
                                        x + sep.len(),
                                    )[y] == sep[y] by {
                                        assert(s.subrange(p, p + sep.len())[y] == s[p + y]);
                                        assert(s[i + 1 + (x + y)] == k[x + y]);
                                    }
                                }
                                assert(occurs_at(k, sep, x));
                                assert(contains_seq(k, sep));
                            } else {
                                assert(s[e] == s.subrange(p, p + sep.len())[e - p]);
                                assert(sep_char(sep[e - p]));
                                let w = k + sep;
                                assert(s.subrange(e, e + sep.len()) == sep);
                                assert(tail_key_ok(k, sep));
                                assert(occurs_at(w, sep, x)) by {
                                    assert(w.subrange(x, x + sep.len()) =~= sep) by {
                                        assert forall|y: int| 0 <= y < sep.len() implies w.subrange(
                                            x,
                                            x + sep.len(),
                                        )[y] == sep[y] by {
                                            assert(s.subrange(p, p + sep.len())[y] == s[p + y]);
                                            if x + y < k.len() {
                                                assert(s[i + 1 + (x + y)] == k[x + y]);
                                            } else {
                                                assert(s.subrange(e, e + sep.len())[x + y - k.len()]
                                                    == s[e + (x + y - k.len())]);
                                            }
                                        }
                                    }
                                }
                                lemma_find_first(w, sep, 0, x);
                            }
                        }
                    }
                }
                lemma_scan_plain(s, sep, i, e);
            }
        },
    }
}

proof fn lemma_scan_segs(s: Seq<char>, sep: Seq<char>, p: Seq<SegV>)
    requires
        good_sep(sep),
        split_path_ok(p, sep),
        segs_text(p, sep).len() <= s.len(),
        s.take(segs_text(p, sep).len() as int) == segs_text(p, sep),
        follows(s, segs_text(p, sep).len() as int, sep, p),
    ensures
        scan_sep(s, sep, 0, false) == scan_sep(s, sep, segs_text(p, sep).len() as int, false),
    decreases p.len(),
{
    if p.len() > 0 {
        let q = p.drop_last();
        let a = segs_text(q, sep);
        let b = seg_text(p.last(), sep);
        assert(segs_text(p, sep) == a + b);
        assert forall|i: int| 0 <= i < q.len() implies match #[trigger] q[i] {
            SegV::Key(k) => !must_quote(k, sep) ==> ascii(k),
            SegV::Idx(n) => n <= usize::MAX,
        } by {
            assert(q[i] == p[i]);
        }
        assert(s.take(a.len() as int) =~= a) by {
            assert forall|x: int| 0 <= x < a.len() implies s.take(a.len() as int)[x] == a[x] by {
                assert(s.take((a + b).len() as int)[x] == (a + b)[x]);
            }
        }
        let g = p.last();
        assert(g == p[p.len() - 1]);
        assert(s[a.len() as int] == b[0]) by {
            assert(s.take((a + b).len() as int)[a.len() as int] == (a + b)[a.len() as int]);
        }
        assert(b[0] == '.' || b[0] == '[');
        lemma_scan_segs(s, sep, q);
        assert(s.subrange(a.len() as int, (a.len() + b.len()) as int) =~= b) by {
            assert forall|x: int| 0 <= x < b.len() implies s.subrange(a.len() as int, (a.len() + b.len()) as int)[x]
                == b[x] by {
                assert(s.take((a + b).len() as int)[a.len() + x] == (a + b)[a.len() + x]);
            }
        }
        assert(tail_ok(p, sep) ==> tail_ok(seq![g], sep));
        lemma_scan_seg(s, sep, a.len() as int, g);
    }
}

/// Only letters of type names.
pub open spec fn letters(t: Seq<char>) -> bool {
    forall|i: int| 0 <= i < t.len() ==> type_char(#[trigger] t[i])
}

proof fn lemma_find_after_letters(r: Seq<char>, sep: Seq<char>, t: Seq<char>, j: int)
    requires
        good_sep(sep),
        letters(t),
        0 <= j <= t.len(),
        t.len() + sep.len() <= r.len(),
        r.take(t.len() as int) == t,
        r.subrange(t.len() as int, (t.len() + sep.len()) as int) == sep,
    ensures
        find_from(r, sep, j) == Some(t.len() as int),
    decreases t.len() - j,
{
    if j < t.len() {
        assert(r[j] == r.take(t.len() as int)[j]);
        assert(type_char(t[j]));
        lemma_no_occurrence(r, sep, j);
        lemma_find_after_letters(r, sep, t, j + 1);
    }
}

/// The flat line of an entry.
pub open spec fn flat_line(e: (Seq<SegV>, Seq<char>, Seq<char>), sep: Seq<char>) -> Seq<char> {
    path_text(e.0, sep) + sep + e.1 + sep + e.2
}

/// A line splits back into the path text, the type and the value.
proof fn lemma_split_flat_line(e: (Seq<SegV>, Seq<char>, Seq<char>), sep: Seq<char>)
    requires
        good_sep(sep),
        path_ok(e.0, sep),
        tail_ok(e.0, sep),
        letters(e.1),
    ensures
        !split_breaks(flat_line(e, sep), sep),
        split_spec(flat_line(e, sep), sep) == Some((path_text(e.0, sep), e.1, e.2)),
{
    let r = e.1 + sep;
    assert(r.take(e.1.len() as int) =~= e.1);
    assert(r.subrange(e.1.len() as int, (e.1.len() + sep.len()) as int) =~= sep);
    lemma_find_after_letters(r, sep, e.1, 0);
    lemma_path_ok_splits(e.0, sep);
    split_line_reads_back(e.0, e.1, e.2, sep);
}

/// A first occurrence of `pat` in `a` is the first one in every text that
/// starts with `a`.
proof fn lemma_find_in_prefix(a: Seq<char>, r: Seq<char>, pat: Seq<char>, j: int, k: int)
    requires
        0 <= j,
        a.len() <= r.len(),
        r.take(a.len() as int) == a,
        find_from(a, pat, j) == Some(k),
    ensures
        find_from(r, pat, j) == Some(k),
    decreases k - j,
{
    lemma_find_from_bounds(a, pat, j);
    assert(r.subrange(j, j + pat.len()) =~= a.subrange(j, j + pat.len()));
    if j < k {
        lemma_find_in_prefix(a, r, pat, j + 1, k);
    }
}

/// A type field that the separator cannot be found in: the first
/// separator in `t` followed by the separator is the one after `t` (for a
/// one-character separator: `t` does not hold it).
pub open spec fn type_field_ok(t: Seq<char>, sep: Seq<char>) -> bool {
    find_from(t + sep, sep, 0) == Some(t.len() as int)
}

/// A flat line made of a path written with `fmt_path`, a type field and
/// any value splits back into exactly these three, for every separator made
/// of separator characters and every path whose keys written without quotes
/// are ASCII (the last one as `tail_ok` says; quoted keys may hold anything,
/// newlines too).
pub proof fn split_line_reads_back(p: Seq<SegV>, t: Seq<char>, v: Seq<char>, sep: Seq<char>)
    requires
        good_sep(sep),
        split_path_ok(p, sep),
        tail_ok(p, sep),
        type_field_ok(t, sep),
    ensures
        !split_breaks(path_text(p, sep) + sep + t + sep + v, sep),
        split_spec(path_text(p, sep) + sep + t + sep + v, sep) == Some((path_text(p, sep), t, v)),
{
    let pt = path_text(p, sep);
    let line = pt + sep + t + sep + v;
    let l = pt.len() as int;
    let z = sep.len() as int;
    assert(line.take(l) =~= pt);
    assert(line.subrange(l, l + z) =~= sep);
    if p.len() == 0 {
        assert(pt == seq!['.']);
        assert(line[0] == '.');
        lemma_no_occurrence(line, sep, 0);
        lemma_scan_plain(line, sep, 0, 1);
    } else {
        lemma_scan_segs(line, sep, p);
    }
    assert(occurs_at(line, sep, l));
    assert(scan_sep(line, sep, l, false) == Scan::Found(l));
    let rest = line.skip(l + z);
    assert(rest =~= t + sep + v);
    assert(rest.take((t + sep).len() as int) =~= t + sep);
    lemma_find_in_prefix(t + sep, rest, sep, 0, t.len() as int);
    assert(rest.skip(t.len() as int + z) =~= v);
}

/// A text without `c`, followed by `c`, first shows `c` where `c` was put.
proof fn lemma_first_after(w: Seq<char>, c: char)
    requires
        !w.contains(c),
    ensures
        find_from(w + seq![c], seq![c], 0) == Some(w.len() as int),
{
    let s = w + seq![c];
    assert forall|k: int| 0 <= k < w.len() implies #[trigger] s[k] != c by {
        assert(s[k] == w[k]);
    }
    lemma_find_char(s, c, 0, w.len() as int);
}

/// With the tab as separator: a flat line made of `fmt_path`'s text, a type
/// field without tab and any value splits back into exactly these three,
/// for every path whose keys written without quotes are ASCII.
pub proof fn split_line_tab_reads_back(p: Seq<SegV>, t: Seq<char>, v: Seq<char>)
    requires
        split_path_ok(p, "\t"@),
        !t.contains('\t'),
    ensures
        !split_breaks(path_text(p, "\t"@) + "\t"@ + t + "\t"@ + v, "\t"@),
        split_spec(path_text(p, "\t"@) + "\t"@ + t + "\t"@ + v, "\t"@) == Some(
            (path_text(p, "\t"@), t, v),
        ),
{
    let tab = "\t"@;
    reveal_strlit("\t");
    assert(tab =~= seq!['\t']);
    assert(sep_char(tab[0]));
    assert(good_sep(tab));
    lemma_first_after(t, '\t');
    if p.len() > 0 {
        if let SegV::Key(k) = p.last() {
            if !must_quote(k, tab) {
                assert(!k.contains('\t')) by {
                    if k.contains('\t') {
                        let j = choose|j: int| 0 <= j < k.len() && k[j] == '\t';
                        assert(k.subrange(j, j + 1) =~= tab);
                        assert(occurs_at(k, tab, j));
                    }
                }
                lemma_first_after(k, '\t');
            }
        }
    }
    split_line_reads_back(p, t, v, tab);
}

// ---- no line breaks inside a line ---------------------------------------------------

/// `s` holds no newline.
pub open spec fn no_nl(s: Seq<char>) -> bool {
    forall|i: int| 0 <= i < s.len() ==> #[trigger] s[i] != '\n'
}

proof fn lemma_no_nl_concat(a: Seq<char>, b: Seq<char>)
    requires
        no_nl(a),
        no_nl(b),
    ensures
        no_nl(a + b),
{
    assert forall|i: int| 0 <= i < (a + b).len() implies #[trigger] (a + b)[i] != '\n' by {
        if i < a.len() {
            assert((a + b)[i] == a[i]);
        } else {
            assert((a + b)[i] == b[i - a.len()]);
        }
    }
}

proof fn lemma_escape_key_no_nl(k: Seq<char>)
    requires
        no_nl(k),
    ensures
        no_nl(escape_key(k)),
    decreases k.len(),
{
    if k.len() > 0 {
        assert(no_nl(k.drop_last())) by {
            assert forall|i: int| 0 <= i < k.drop_last().len() implies #[trigger] k.drop_last()[i] != '\n' by {
                assert(k.drop_last()[i] == k[i]);
            }
        }
        lemma_escape_key_no_nl(k.drop_last());
        let t = if k.last() == '"' || k.last() == '\\' {
            seq!['\\', k.last()]
        } else {
            seq![k.last()]
        };
        assert(k.last() == k[k.len() - 1]);
        assert(no_nl(t));
        lemma_no_nl_concat(escape_key(k.drop_last()), t);
    }
}

proof fn lemma_seg_text_no_nl(g: SegV, sep: Seq<char>)
    requires
        no_nl(sep),
        g matches SegV::Key(k) ==> no_nl(k),
    ensures
        no_nl(seg_text(g, sep)),
{
    let t = seg_text(g, sep);
    match g {
        SegV::Idx(v) => {
            lemma_decimal_parses(v);
            let d = decimal(v);
            assert forall|i: int| 0 <= i < t.len() implies #[trigger] t[i] != '\n' by {
                if 0 < i < t.len() - 1 {
                    assert(t[i] == d[i - 1]);
                    assert(dec_val(d[i - 1]) is Some);
                }
            }
        },
        SegV::Key(k) => {
            if must_quote(k, sep) {
                lemma_escape_key_no_nl(k);
                lemma_no_nl_concat(seq!['.', '"'], escape_key(k));
                lemma_no_nl_concat(seq!['.', '"'] + escape_key(k), seq!['"']);
            } else {
                lemma_no_nl_concat(seq!['.'], k);
            }
        },
    }
}

proof fn lemma_path_text_no_nl(p: Seq<SegV>, sep: Seq<char>)
    requires
        no_nl(sep),
        path_ok(p, sep),
    ensures
        no_nl(path_text(p, sep)),
        path_text(p, sep).len() > 0,
{
    if p.len() == 0 {
    } else {
        lemma_segs_text_no_nl(p, sep);
    }
}

proof fn lemma_segs_text_no_nl(p: Seq<SegV>, sep: Seq<char>)
    requires
        no_nl(sep),
        path_ok(p, sep),
    ensures
        no_nl(segs_text(p, sep)),
        p.len() > 0 ==> segs_text(p, sep).len() > 0,
    decreases p.len(),
{
    if p.len() > 0 {
        let q = p.drop_last();
        assert forall|i: int| 0 <= i < q.len() implies match #[trigger] q[i] {
            SegV::Key(k) => (forall|j: int| 0 <= j < k.len() ==> k[j] != '\n') && (!must_quote(
                k,
                sep,
            ) ==> ascii(k)),
            SegV::Idx(n) => n <= usize::MAX,
        } by {
            assert(q[i] == p[i]);
        }
        lemma_segs_text_no_nl(q, sep);
        let g = p.last();
        assert(g == p[p.len() - 1]);
        assert(g matches SegV::Key(k) ==> no_nl(k));
        lemma_seg_text_no_nl(g, sep);
        lemma_no_nl_concat(segs_text(q, sep), seg_text(g, sep));
        assert(seg_text(g, sep).len() > 0);
    }
}

proof fn lemma_hex_digit(x: int)
    requires
        0 <= x < 16,
    ensures
        hex_digit(x) != '\n',
{
}

proof fn lemma_readable_escape_no_nl(ch: char)
    ensures
        no_nl(readable_escape(ch)),
{
    match control_escape(ch) {
        Some(e) => {
            if (ch as u32) < 0x20 && ch != '"' && ch != '\\' && ch != '\n' && ch != '\r' && ch != '\t'
                && ch != '\x08' && ch != '\x0C' {
                let v = ch as int;
                lemma_hex_digit((v / 4096) % 16);
                lemma_hex_digit((v / 256) % 16);
                lemma_hex_digit((v / 16) % 16);
                lemma_hex_digit(v % 16);
                assert(no_nl(hex4(v)));
                lemma_no_nl_concat(seq!['\\', 'u'], hex4(v));
            }
        },
        None => {
            if is_high_control(ch) {
                let v = ch as int;
                lemma_hex_digit((v / 4096) % 16);
                lemma_hex_digit((v / 256) % 16);
                lemma_hex_digit((v / 16) % 16);
                lemma_hex_digit(v % 16);
                assert(no_nl(hex4(v)));
                lemma_no_nl_concat(seq!['\\', 'u'], hex4(v));
            }
        },
    }
}

proof fn lemma_escape_body_no_nl(s: Seq<char>)
    ensures
        no_nl(escape_body(s, true)),
    decreases s.len(),
{
    if s.len() > 0 {
        lemma_escape_body_no_nl(s.drop_last());
        lemma_readable_escape_no_nl(s.last());
        lemma_no_nl_concat(escape_body(s.drop_last(), true), readable_escape(s.last()));
    }
}

// ---- what the entries of a document are like -----------------------------------------

/// An entry whose line reads back: its path can be written and read with the
/// separator `sep` (and ends as `tail_ok` says), its type is a word, and its
/// value is a non-empty text with no newline that does not end in a
/// carriage return.
pub open spec fn entry_ok(e: (Seq<SegV>, Seq<char>, Seq<char>), sep: Seq<char>) -> bool {
    &&& path_ok(e.0, sep)
    &&& tail_ok(e.0, sep)
    &&& letters(e.1)
    &&& e.2.len() > 0
    &&& no_nl(e.2)
    &&& e.2.last() != '\r'
}

/// A key that a flat line can carry with separator `sep`: no newline, and
/// ASCII if it is written without quotes.
pub open spec fn key_ok(k: Seq<char>, sep: Seq<char>) -> bool {
    &&& no_nl(k)
    &&& (!must_quote(k, sep) ==> ascii(k))
}

/// Whether `d` gives one entry of its own (a scalar, or an empty array or
/// object) rather than the entries of its items or members.
pub open spec fn is_leaf(d: DocV) -> bool {
    match d {
        DocV::Array(items) => items.len() == 0,
        DocV::Object(ms) => ms.len() == 0,
        _ => true,
    }
}

/// A document whose flat lines read back with separator `sep`: keys as
/// `key_ok` says (and a key whose value is a leaf as `tail_key_ok` says),
/// number and date-time texts non-empty with no newline and not ending in a
/// carriage return, and arrays no longer than a machine word counts.
pub open spec fn text_ok(d: DocV, sep: Seq<char>) -> bool
    decreases d, 0int,
{
    match d {
        DocV::Number(n) => n.len() > 0 && no_nl(n) && n.last() != '\r',
        DocV::Time(t) => t.len() > 0 && no_nl(t) && t.last() != '\r',
        DocV::Array(items) => items.len() <= usize::MAX && items_text_ok(items, sep, items.len() as int),
        DocV::Object(ms) => members_text_ok(ms, sep, ms.len() as int),
        _ => true,
    }
}

pub open spec fn items_text_ok(items: Seq<DocV>, sep: Seq<char>, n: int) -> bool
    decreases items, n,
{
    if n <= 0 || n > items.len() {
        true
    } else {
        items_text_ok(items, sep, n - 1) && text_ok(items[n - 1], sep)
    }
}

pub open spec fn members_text_ok(ms: Seq<(Seq<char>, DocV)>, sep: Seq<char>, n: int) -> bool
    decreases ms, n,
{
    if n <= 0 || n > ms.len() {
        true
    } else {
        members_text_ok(ms, sep, n - 1) && key_ok(ms[n - 1].0, sep) && text_ok(ms[n - 1].1, sep) && (
        is_leaf(ms[n - 1].1) ==> tail_key_ok(ms[n - 1].0, sep))
    }
}

/// Every entry of `es` is as `entry_ok` says.
pub open spec fn all_ok(es: Seq<(Seq<SegV>, Seq<char>, Seq<char>)>, sep: Seq<char>) -> bool {
    forall|i: int| 0 <= i < es.len() ==> entry_ok(#[trigger] es[i], sep)
}

proof fn lemma_all_ok_concat(
    a: Seq<(Seq<SegV>, Seq<char>, Seq<char>)>,
    b: Seq<(Seq<SegV>, Seq<char>, Seq<char>)>,
    sep: Seq<char>,
)
    requires
        all_ok(a, sep),
        all_ok(b, sep),
    ensures
        all_ok(a + b, sep),
{
    assert forall|i: int| 0 <= i < (a + b).len() implies entry_ok(#[trigger] (a + b)[i], sep) by {
        if i < a.len() {
            assert((a + b)[i] == a[i]);
        } else {
            assert((a + b)[i] == b[i - a.len()]);
        }
    }
}

proof fn lemma_path_ok_push(p: Seq<SegV>, g: SegV, sep: Seq<char>)
    requires
        path_ok(p, sep),
        match g {
            SegV::Key(k) => key_ok(k, sep),
            SegV::Idx(n) => n <= usize::MAX,
        },
    ensures
        path_ok(p.push(g), sep),
{
    assert forall|i: int| 0 <= i < p.push(g).len() implies match #[trigger] p.push(g)[i] {
        SegV::Key(k) => (forall|j: int| 0 <= j < k.len() ==> k[j] != '\n') && (!must_quote(
            k,
            sep,
        ) ==> ascii(k)),
        SegV::Idx(n) => n <= usize::MAX,
    } by {
        if i < p.len() {
            assert(p.push(g)[i] == p[i]);
        }
    }
}

proof fn lemma_literals()
    ensures
        letters("null"@) && letters("boolean"@) && letters("number"@) && letters("string"@)
            && letters("time"@) && letters("array"@) && letters("object"@),
        "null"@.len() > 0 && no_nl("null"@) && "null"@.last() != '\r',
        "true"@.len() > 0 && no_nl("true"@) && "true"@.last() != '\r',
        "false"@.len() > 0 && no_nl("false"@) && "false"@.last() != '\r',
        "[]"@.len() > 0 && no_nl("[]"@) && "[]"@.last() != '\r',
        "{}"@.len() > 0 && no_nl("{}"@) && "{}"@.last() != '\r',
{
    reveal_strlit("null");
    reveal_strlit("boolean");
    reveal_strlit("number");
    reveal_strlit("string");
    reveal_strlit("time");
    reveal_strlit("array");
    reveal_strlit("object");
    reveal_strlit("true");
    reveal_strlit("false");
    reveal_strlit("[]");
    reveal_strlit("{}");
}

proof fn lemma_entries_ok(d: DocV, p: Seq<SegV>, sep: Seq<char>)
    requires
        text_ok(d, sep),
        path_ok(p, sep),
        is_leaf(d) ==> tail_ok(p, sep),
        no_nl(sep),
    ensures
        all_ok(flat_v(d, p), sep),
    decreases d, 0int,
{
    lemma_literals();
    match d {
        DocV::Array(items) => {
            if items.len() > 0 {
                lemma_items_entries_ok(items, p, sep, items.len() as int);
            }
        },
        DocV::Object(ms) => {
            if ms.len() > 0 {
                lemma_members_entries_ok(ms, p, sep, ms.len() as int);
            }
        },
        DocV::Str(s) => {
            lemma_escape_body_no_nl(s);
            lemma_no_nl_concat(seq!['"'], escape_body(s, true));
            lemma_no_nl_concat(seq!['"'] + escape_body(s, true), seq!['"']);
        },
        _ => {},
    }
}

proof fn lemma_items_entries_ok(items: Seq<DocV>, p: Seq<SegV>, sep: Seq<char>, n: int)
    requires
        0 <= n <= items.len(),
        items.len() <= usize::MAX,
        items_text_ok(items, sep, n),
        path_ok(p, sep),
        no_nl(sep),
    ensures
        all_ok(flat_items_v(items, p, n), sep),
    decreases items, n,
{
    if n > 0 {
        lemma_items_entries_ok(items, p, sep, n - 1);
        let g = SegV::Idx((n - 1) as nat);
        lemma_path_ok_push(p, g, sep);
        assert(p.push(g).last() == g);
        lemma_entries_ok(items[n - 1], p.push(g), sep);
        lemma_all_ok_concat(flat_items_v(items, p, n - 1), flat_v(items[n - 1], p.push(g)), sep);
    }
}

proof fn lemma_members_entries_ok(ms: Seq<(Seq<char>, DocV)>, p: Seq<SegV>, sep: Seq<char>, n: int)
    requires
        0 <= n <= ms.len(),
        members_text_ok(ms, sep, n),
        path_ok(p, sep),
        no_nl(sep),
    ensures
        all_ok(flat_members_v(ms, p, n), sep),
    decreases ms, n,
{
    if n > 0 {
        lemma_members_entries_ok(ms, p, sep, n - 1);
        let g = SegV::Key(ms[n - 1].0);
        lemma_path_ok_push(p, g, sep);
        assert(p.push(g).last() == g);
        assert(decreases_to!(ms => ms[n - 1]));
        lemma_entries_ok(ms[n - 1].1, p.push(g), sep);
        lemma_all_ok_concat(flat_members_v(ms, p, n - 1), flat_v(ms[n - 1].1, p.push(g)), sep);
    }
}


// ---- the flat text and its lines ------------------------------------------------------

/// The text that flat entries are written as: each line followed by a newline.
pub open spec fn flat_text(es: Seq<(Seq<SegV>, Seq<char>, Seq<char>)>, sep: Seq<char>) -> Seq<char>
    decreases es.len(),
{
    if es.len() == 0 {
        Seq::empty()
    } else {
        flat_line(es[0], sep) + seq!['\n'] + flat_text(es.drop_first(), sep)
    }
}

/// The flat lines of entries.
pub open spec fn flat_lines(es: Seq<(Seq<SegV>, Seq<char>, Seq<char>)>, sep: Seq<char>) -> Seq<Seq<char>> {
    es.map_values(|e: (Seq<SegV>, Seq<char>, Seq<char>)| flat_line(e, sep))
}

proof fn lemma_occurs_one(s: Seq<char>, c: char, i: int)
    ensures
        occurs_at(s, seq![c], i) <==> (0 <= i < s.len() && s[i] == c),
{
    if 0 <= i < s.len() {
        if s[i] == c {
            assert(s.subrange(i, i + 1) =~= seq![c]);
        } else if s.subrange(i, i + 1) == seq![c] {
            assert(s.subrange(i, i + 1)[0] == s[i]);
        }
    }
}

/// A good separator holds no newline.
proof fn lemma_good_sep_no_nl(sep: Seq<char>)
    requires
        good_sep(sep),
    ensures
        no_nl(sep),
{
    assert forall|i: int| 0 <= i < sep.len() implies #[trigger] sep[i] != '\n' by {
        assert(sep_char(sep[i]));
    }
}

proof fn lemma_find_char(s: Seq<char>, ch: char, j: int, m: int)
    requires
        0 <= j <= m < s.len(),
        s[m] == ch,
        forall|k: int| j <= k < m ==> #[trigger] s[k] != ch,
    ensures
        find_from(s, seq![ch], j) == Some(m),
    decreases m - j,
{
    lemma_occurs_one(s, ch, j);
    if j < m {
        lemma_find_char(s, ch, j + 1, m);
    }
}

proof fn lemma_line_shape(e: (Seq<SegV>, Seq<char>, Seq<char>), sep: Seq<char>)
    requires
        entry_ok(e, sep),
        no_nl(sep),
    ensures
        no_nl(flat_line(e, sep)),
        flat_line(e, sep).len() > 0,
        flat_line(e, sep).last() != '\r',
{
    lemma_path_text_no_nl(e.0, sep);
    assert(no_nl(sep));
    assert(no_nl(e.1));
    lemma_no_nl_concat(path_text(e.0, sep), sep);
    lemma_no_nl_concat(path_text(e.0, sep) + sep, e.1);
    lemma_no_nl_concat(path_text(e.0, sep) + sep + e.1, sep);
    lemma_no_nl_concat(path_text(e.0, sep) + sep + e.1 + sep, e.2);
    let l = flat_line(e, sep);
    assert(l.last() == e.2.last());
}

proof fn lemma_lines_of_flat_text(es: Seq<(Seq<SegV>, Seq<char>, Seq<char>)>, sep: Seq<char>)
    requires
        all_ok(es, sep),
        no_nl(sep),
    ensures
        lines_of(flat_text(es, sep)) == flat_lines(es, sep),
    decreases es.len(),
{
    if es.len() == 0 {
        assert(flat_lines(es, sep) =~= Seq::<Seq<char>>::empty());
    } else {
        let rest = es.drop_first();
        assert(all_ok(rest, sep)) by {
            assert forall|i: int| 0 <= i < rest.len() implies entry_ok(#[trigger] rest[i], sep) by {
                assert(rest[i] == es[i + 1]);
            }
        }
        lemma_lines_of_flat_text(rest, sep);
        assert(entry_ok(es[0], sep));
        lemma_line_shape(es[0], sep);
        let l = flat_line(es[0], sep);
        let s = flat_text(es, sep);
        let r = flat_text(rest, sep);
        assert(s == l + seq!['\n'] + r);
        let m = l.len() as int;
        assert forall|k: int| 0 <= k < m implies #[trigger] s[k] != '\n' by {
            assert(s[k] == l[k]);
        }
        assert(s[m] == '\n');
        lemma_find_char(s, '\n', 0, m);
        assert(s.take(m) =~= l);
        assert(s.skip(m + 1) =~= r);
        assert(strip_cr(l) == l);
        assert(flat_lines(es, sep) =~= seq![l] + flat_lines(rest, sep));
    }
}

// ---- reading the lines back --------------------------------------------------------------

proof fn lemma_parse_path_text(p: Seq<SegV>, sep: Seq<char>)
    requires
        split_path_ok(p, sep),
    ensures
        parse_path_spec(path_text(p, sep)) == p,
{
    assert forall|i: int| 0 <= i < p.len() implies (#[trigger] p[i] matches SegV::Idx(x) ==> x
        <= usize::MAX) by {
        assert(match p[i] {
            SegV::Key(k) => !must_quote(k, sep) ==> ascii(k),
            SegV::Idx(n) => n <= usize::MAX,
        });
    }
    lemma_parse_segs_text(p, sep);
    if p.len() == 0 {
        assert(path_text(p, sep) =~= seq!['.']);
    } else {
        assert(path_text(p, sep) != seq!['.']) by {
            if path_text(p, sep) == seq!['.'] {
                assert(path_text(p, sep).len() == 1);
            }
        }
    }
}

proof fn lemma_unflat_lines(es: Seq<(Seq<SegV>, Seq<char>, Seq<char>)>, sep: Seq<char>)
    requires
        good_sep(sep),
        all_ok(es, sep),
        ins_all(DocV::Null, es) is Ok,
    ensures
        unflat_run(flat_lines(es, sep), sep) matches UnflatRun::Built(r, times)
            && ins_all(DocV::Null, es) == Ok::<DocV, Seq<char>>(r) && times == time_paths(es),
    decreases es.len(),
{
    let ls = flat_lines(es, sep);
    if es.len() > 0 {
        let q = es.drop_last();
        assert(all_ok(q, sep)) by {
            assert forall|i: int| 0 <= i < q.len() implies entry_ok(#[trigger] q[i], sep) by {
                assert(q[i] == es[i]);
            }
        }
        lemma_unflat_lines(q, sep);
        lemma_good_sep_no_nl(sep);
        assert(ls.drop_last() =~= flat_lines(q, sep));
        let e = es.last();
        assert(e == es[es.len() - 1]);
        assert(entry_ok(e, sep));
        lemma_line_shape(e, sep);
        assert(ls.last() == flat_line(e, sep));
        lemma_split_flat_line(e, sep);
        lemma_path_ok_splits(e.0, sep);
        lemma_parse_path_text(e.0, sep);
    }
}

// ---- document order is path order ------------------------------------------------------

/// Each entry's path comes before the paths of the entries after it.
pub open spec fn ascending(es: Seq<(Seq<SegV>, Seq<char>, Seq<char>)>) -> bool {
    forall|i: int, j: int| 0 <= i < j < es.len() ==> path_lt(#[trigger] es[i].0, #[trigger] es[j].0)
}

proof fn lemma_ascending_concat(
    a: Seq<(Seq<SegV>, Seq<char>, Seq<char>)>,
    b: Seq<(Seq<SegV>, Seq<char>, Seq<char>)>,
)
    requires
        ascending(a),
        ascending(b),
        forall|i: int, j: int|
            0 <= i < a.len() && 0 <= j < b.len() ==> path_lt(#[trigger] a[i].0, #[trigger] b[j].0),
    ensures
        ascending(a + b),
{
    let s = a + b;
    assert forall|i: int, j: int| 0 <= i < j < s.len() implies path_lt(#[trigger] s[i].0, #[trigger] s[j].0) by {
        if j < a.len() {
            assert(s[i] == a[i] && s[j] == a[j]);
        } else if i < a.len() {
            assert(s[i] == a[i] && s[j] == b[j - a.len()]);
        } else {
            assert(s[i] == b[i - a.len()] && s[j] == b[j - a.len()]);
        }
    }
}

proof fn lemma_ascending_under(g: SegV, es: Seq<(Seq<SegV>, Seq<char>, Seq<char>)>)
    requires
        ascending(es),
    ensures
        ascending(under_path(seq![g], es)),
        forall|i: int|
            0 <= i < es.len() ==> (#[trigger] under_path(seq![g], es)[i]).0.len() > 0
                && under_path(seq![g], es)[i].0[0] == g,
{
    let u = under_path(seq![g], es);
    assert forall|i: int, j: int| 0 <= i < j < u.len() implies path_lt(#[trigger] u[i].0, #[trigger] u[j].0) by {
        let x = es[i].0;
        let y = es[j].0;
        assert(u[i].0 == seq![g] + x);
        assert(u[j].0 == seq![g] + y);
        assert((seq![g] + x).drop_first() =~= x);
        assert((seq![g] + y).drop_first() =~= y);
        assert(path_lt(x, y));
    }
    assert forall|i: int| 0 <= i < es.len() implies (#[trigger] u[i]).0.len() > 0 && u[i].0[0] == g by {
        assert(u[i].0 == seq![g] + es[i].0);
    }
}

/// Every entry's path starts with an index below `n`.
pub open spec fn idx_heads_below(es: Seq<(Seq<SegV>, Seq<char>, Seq<char>)>, n: int) -> bool {
    forall|i: int|
        0 <= i < es.len() ==> (#[trigger] es[i]).0.len() > 0 && (es[i].0[0] matches SegV::Idx(k)
            && k < n)
}

/// Every entry's path starts with a key that comes before the keys of the
/// members from `m` on.
pub open spec fn key_heads_before(
    es: Seq<(Seq<SegV>, Seq<char>, Seq<char>)>,
    ms: Seq<(Seq<char>, DocV)>,
    m: int,
) -> bool {
    forall|i: int|
        0 <= i < es.len() ==> (#[trigger] es[i]).0.len() > 0 && (es[i].0[0] matches SegV::Key(k)
            && forall|t: int| m <= t < ms.len() ==> chars_lt(k, #[trigger] ms[t].0))
}

proof fn lemma_flat_ascending(d: DocV)
    requires
        keys_sorted(d),
    ensures
        ascending(flat_v(d, Seq::empty())),
    decreases d, 0int,
{
    match d {
        DocV::Array(items) => {
            if items.len() > 0 {
                lemma_items_ascending(items, items.len() as int);
            }
        },
        DocV::Object(ms) => {
            if ms.len() > 0 {
                lemma_members_ascending(ms, ms.len() as int);
            }
        },
        _ => {},
    }
}

proof fn lemma_items_ascending(items: Seq<DocV>, n: int)
    requires
        0 <= n <= items.len(),
        sorted_items(items, n),
    ensures
        ascending(flat_items_v(items, Seq::empty(), n)),
        idx_heads_below(flat_items_v(items, Seq::empty(), n), n),
    decreases items, n,
{
    let e = Seq::<SegV>::empty();
    if n > 0 {
        lemma_items_ascending(items, n - 1);
        let a = flat_items_v(items, e, n - 1);
        let g = SegV::Idx((n - 1) as nat);
        lemma_flat_ascending(items[n - 1]);
        lemma_flat_shift(items[n - 1], e.push(g));
        assert(e.push(g) =~= seq![g]);
        let b = flat_v(items[n - 1], seq![g]);
        lemma_ascending_under(g, flat_v(items[n - 1], e));
        assert forall|i: int, j: int| 0 <= i < a.len() && 0 <= j < b.len() implies path_lt(
            #[trigger] a[i].0,
            #[trigger] b[j].0,
        ) by {
            assert(a[i].0.len() > 0 && (a[i].0[0] matches SegV::Idx(k) && k < n - 1));
            assert(b[j].0.len() > 0 && b[j].0[0] == g);
        }
        lemma_ascending_concat(a, b);
        let s = a + b;
        assert(s == flat_items_v(items, e, n));
        assert forall|i: int| 0 <= i < s.len() implies (#[trigger] s[i]).0.len() > 0 && (
        s[i].0[0] matches SegV::Idx(k) && k < n) by {
            if i < a.len() {
                assert(s[i] == a[i]);
            } else {
                assert(s[i] == b[i - a.len()]);
            }
        }
    }
}

proof fn lemma_members_ascending(ms: Seq<(Seq<char>, DocV)>, n: int)
    requires
        0 <= n <= ms.len(),
        sorted_members(ms, n),
        keys_increasing(ms),
    ensures
        ascending(flat_members_v(ms, Seq::empty(), n)),
        key_heads_before(flat_members_v(ms, Seq::empty(), n), ms, n),
    decreases ms, n,
{
    let e = Seq::<SegV>::empty();
    if n > 0 {
        lemma_members_ascending(ms, n - 1);
        let a = flat_members_v(ms, e, n - 1);
        let key = ms[n - 1].0;
        let g = SegV::Key(key);
        assert(decreases_to!(ms => ms[n - 1]));
        lemma_flat_ascending(ms[n - 1].1);
        lemma_flat_shift(ms[n - 1].1, e.push(g));
        assert(e.push(g) =~= seq![g]);
        let b = flat_v(ms[n - 1].1, seq![g]);
        lemma_ascending_under(g, flat_v(ms[n - 1].1, e));
        lemma_chars_lt_irreflexive(key);
        assert forall|i: int, j: int| 0 <= i < a.len() && 0 <= j < b.len() implies path_lt(
            #[trigger] a[i].0,
            #[trigger] b[j].0,
        ) by {
            assert(a[i].0.len() > 0 && (a[i].0[0] matches SegV::Key(k) && forall|t: int|
                n - 1 <= t < ms.len() ==> chars_lt(k, #[trigger] ms[t].0)));
            assert(b[j].0.len() > 0 && b[j].0[0] == g);
            if let SegV::Key(k) = a[i].0[0] {
                assert(chars_lt(k, ms[n - 1].0));
            }
        }
        lemma_ascending_concat(a, b);
        let s = a + b;
        assert(s == flat_members_v(ms, e, n));
        assert forall|i: int| 0 <= i < s.len() implies (#[trigger] s[i]).0.len() > 0 && (
        s[i].0[0] matches SegV::Key(k) && forall|t: int| n <= t < ms.len() ==> chars_lt(k, #[trigger] ms[t].0)) by {
            if i < a.len() {
                assert(s[i] == a[i]);
                assert(a[i].0.len() > 0 && (a[i].0[0] matches SegV::Key(k) && forall|t: int|
                    n - 1 <= t < ms.len() ==> chars_lt(k, #[trigger] ms[t].0)));
            } else {
                assert(s[i] == b[i - a.len()]);
                assert(s[i].0[0] == g);
                assert forall|t: int| n <= t < ms.len() implies chars_lt(key, #[trigger] ms[t].0) by {
                    assert(chars_lt(ms[n - 1].0, ms[t].0));
                }
            }
        }
    }
}

// ---- sorting, and the order of keys ---------------------------------------------------

proof fn lemma_insert_pos_paths(
    r1: Seq<(Seq<SegV>, Seq<char>, Seq<char>)>,
    r2: Seq<(Seq<SegV>, Seq<char>, Seq<char>)>,
    e1: (Seq<SegV>, Seq<char>, Seq<char>),
    e2: (Seq<SegV>, Seq<char>, Seq<char>),
)
    requires
        r1.len() == r2.len(),
        forall|i: int| 0 <= i < r1.len() ==> (#[trigger] r1[i]).0 == r2[i].0,
        e1.0 == e2.0,
    ensures
        insert_pos(r1, e1) == insert_pos(r2, e2),
    decreases r1.len(),
{
    if r1.len() > 0 {
        assert(r1[0].0 == r2[0].0);
        assert forall|i: int| 0 <= i < r1.drop_first().len() implies (#[trigger] r1.drop_first()[i]).0
            == r2.drop_first()[i].0 by {
            assert(r1.drop_first()[i] == r1[i + 1] && r2.drop_first()[i] == r2[i + 1]);
        }
        lemma_insert_pos_paths(r1.drop_first(), r2.drop_first(), e1, e2);
    }
}

/// Sorting moves entries by their paths alone.
proof fn lemma_sort_same_leaves(
    a: Seq<(Seq<SegV>, Seq<char>, Seq<char>)>,
    b: Seq<(Seq<SegV>, Seq<char>, Seq<char>)>,
)
    requires
        same_leaves(a, b),
    ensures
        same_leaves(sort_spec(a), sort_spec(b)),
    decreases a.len(),
{
    if a.len() > 0 {
        let a1 = a.drop_last();
        let b1 = b.drop_last();
        assert(same_leaves(a1, b1)) by {
            assert forall|i: int| 0 <= i < a1.len() implies (#[trigger] a1[i]).0 == b1[i].0 && leaf_spec_eq(
                a1[i],
                b1[i],
            ) by {
                assert(a1[i] == a[i] && b1[i] == b[i]);
            }
        }
        lemma_sort_same_leaves(a1, b1);
        let r1 = sort_spec(a1);
        let r2 = sort_spec(b1);
        assert(a.last() == a[a.len() - 1] && b.last() == b[b.len() - 1]);
        lemma_insert_pos_paths(r1, r2, a.last(), b.last());
        lemma_insert_pos(r1, a.last());
        let k = insert_pos(r1, a.last());
        let s1 = r1.insert(k, a.last());
        let s2 = r2.insert(k, b.last());
        assert forall|i: int| 0 <= i < s1.len() implies (#[trigger] s1[i]).0 == s2[i].0 && leaf_spec_eq(
            s1[i],
            s2[i],
        ) by {
            if i < k {
                assert(s1[i] == r1[i] && s2[i] == r2[i]);
            } else if i > k {
                assert(s1[i] == r1[i - 1] && s2[i] == r2[i - 1]);
            }
        }
    }
}

/// Two entries read back alike.
pub open spec fn leaf_spec_eq(x: (Seq<SegV>, Seq<char>, Seq<char>), y: (Seq<SegV>, Seq<char>, Seq<char>)) -> bool {
    crate::jflat::unflat::leaf_spec(x.1, x.2) == crate::jflat::unflat::leaf_spec(y.1, y.2)
}

/// A sorted run of entries and an ascending one with the same entries are
/// the same.
proof fn lemma_sorted_unique(
    s1: Seq<(Seq<SegV>, Seq<char>, Seq<char>)>,
    s2: Seq<(Seq<SegV>, Seq<char>, Seq<char>)>,
)
    requires
        sorted_by_path(s1),
        ascending(s2),
        s1.to_multiset() == s2.to_multiset(),
    ensures
        s1 == s2,
    decreases s1.len(),
{
    broadcast use vstd::seq_lib::group_to_multiset_ensures;

    vstd::seq_lib::to_multiset_len(s1);
    vstd::seq_lib::to_multiset_len(s2);
    if s1.len() == 0 {
        assert(s2.len() == 0);
        assert(s1 =~= s2);
    } else {
        assert(s2.len() == s1.len());
        assert(s1.to_multiset().count(s1[0]) > 0) by {
            assert(s1.contains(s1[0]));
        }
        assert(s2.contains(s1[0]));
        let j = choose|j: int| 0 <= j < s2.len() && s2[j] == s1[0];
        assert(s2.to_multiset().count(s2[0]) > 0) by {
            assert(s2.contains(s2[0]));
        }
        assert(s1.contains(s2[0]));
        let i = choose|i: int| 0 <= i < s1.len() && s1[i] == s2[0];
        if j > 0 {
            assert(path_lt(s2[0].0, s2[j].0));
            if i > 0 {
                assert(!path_lt(s1[i].0, s1[0].0));
            } else {
                lemma_path_lt_irreflexive(s2[0].0);
            }
        }
        assert(s1[0] == s2[0]);
        let t1 = s1.drop_first();
        let t2 = s2.drop_first();
        assert(s1.remove(0) =~= t1);
        assert(s2.remove(0) =~= t2);
        assert(t1.to_multiset() == t2.to_multiset());
        assert forall|a: int, b: int| 0 <= a < b < t1.len() implies !path_lt(#[trigger] t1[b].0, #[trigger] t1[a].0) by {
            assert(t1[a] == s1[a + 1] && t1[b] == s1[b + 1]);
        }
        assert forall|a: int, b: int| 0 <= a < b < t2.len() implies path_lt(#[trigger] t2[a].0, #[trigger] t2[b].0) by {
            assert(t2[a] == s2[a + 1] && t2[b] == s2[b + 1]);
        }
        lemma_sorted_unique(t1, t2);
        assert(s1 =~= s2) by {
            assert forall|x: int| 0 <= x < s1.len() implies s1[x] == s2[x] by {
                if x > 0 {
                    assert(s1[x] == t1[x - 1] && s2[x] == t2[x - 1]);
                }
            }
        }
    }
}

/// Sorting the entries of a document whose objects have each key once
/// gives the entries of its normal form.
proof fn lemma_sort_flat_norm(d: DocV)
    requires
        tree_ok(d),
    ensures
        sort_spec(flat_v(d, Seq::empty())) == flat_v(norm(d), Seq::empty()),
        ascending(flat_v(norm(d), Seq::empty())),
{
    let e = Seq::<SegV>::empty();
    lemma_tree_ok_unique(d);
    lemma_keys_sorted_norm(d);
    lemma_flat_ascending(norm(d));
    lemma_flat_norm_multiset(d, e);
    sort_orders_and_keeps(flat_v(d, e));
    lemma_sorted_unique(sort_spec(flat_v(d, e)), flat_v(norm(d), e));
}

/// Each entry of `a` is one of `b` when they hold the same entries.
proof fn lemma_same_entries_member(
    a: Seq<(Seq<SegV>, Seq<char>, Seq<char>)>,
    b: Seq<(Seq<SegV>, Seq<char>, Seq<char>)>,
    i: int,
)
    requires
        a.to_multiset() == b.to_multiset(),
        0 <= i < a.len(),
    ensures
        exists|j: int| 0 <= j < b.len() && b[j] == a[i],
{
    broadcast use vstd::seq_lib::group_to_multiset_ensures;

    assert(a.contains(a[i]));
    assert(b.to_multiset().count(a[i]) > 0);
    assert(b.contains(a[i]));
}

/// The date-time paths remembered while reading `es` cover the entries of
/// `n`, an ascending run with the same entries.
proof fn lemma_times_cover_same(
    es: Seq<(Seq<SegV>, Seq<char>, Seq<char>)>,
    n: Seq<(Seq<SegV>, Seq<char>, Seq<char>)>,
    sep: Seq<char>,
)
    requires
        es.to_multiset() == n.to_multiset(),
        ascending(n),
        all_ok(es, sep),
    ensures
        times_cover(n, time_paths(es)),
{
    reveal_strlit("string");
    reveal_strlit("time");
    assert("string"@.len() == 6 && "time"@.len() == 4);
    let t = time_paths(es);
    assert forall|j: int| 0 <= j < n.len() implies ((#[trigger] n[j]).1 == "string"@ ==> !t.contains(
        canon(n[j].0),
    )) && (n[j].1 == "time"@ ==> t.contains(canon(n[j].0))) by {
        lemma_same_entries_member(n, es, j);
        let k = choose|k: int| 0 <= k < es.len() && es[k] == n[j];
        lemma_time_paths(es, canon(n[j].0));
        assert(entry_ok(es[k], sep));
        if n[j].1 == "string"@ && t.contains(canon(n[j].0)) {
            let i = choose|i: int|
                0 <= i < es.len() && (#[trigger] es[i]).1 == "time"@ && canon(es[i].0) == canon(n[j].0);
            assert(entry_ok(es[i], sep));
            assert forall|x: int| 0 <= x < es[i].0.len() implies (#[trigger] es[i].0[x] matches SegV::Idx(
                v,
            ) ==> v <= usize::MAX) by {
                assert(path_ok(es[i].0, sep));
            }
            assert forall|x: int| 0 <= x < n[j].0.len() implies (#[trigger] n[j].0[x] matches SegV::Idx(
                v,
            ) ==> v <= usize::MAX) by {
                assert(path_ok(es[k].0, sep));
            }
            lemma_canon_injective(es[i].0, n[j].0);
            lemma_same_entries_member(es, n, i);
            let m = choose|m: int| 0 <= m < n.len() && n[m] == es[i];
            if m < j {
                assert(path_lt(n[m].0, n[j].0));
                lemma_path_lt_irreflexive(n[j].0);
            } else if m > j {
                assert(path_lt(n[j].0, n[m].0));
                lemma_path_lt_irreflexive(n[j].0);
            }
        }
    }
}

// ---- the laws --------------------------------------------------------------------------

/// The flat text of `d` that `jflat` writes: its entries, sorted by path or
/// in document order, one line each, with the separator `sep`.
pub open spec fn flat_output(d: Doc, sort: bool, sep: Seq<char>) -> Seq<char> {
    flat_text(
        if sort {
            sort_spec(flat(d, Seq::empty()))
        } else {
            flat(d, Seq::empty())
        },
        sep,
    )
}

/// Reading the flat text of `d` builds `d` with its date-times as strings
/// and its keys in order, and remembers the paths of the date-times.
proof fn lemma_read_back(d: Doc, sort: bool, sep: Seq<char>)
    requires
        good_sep(sep),
        tree_ok(untimed(d@)),
        text_ok(d@, sep),
    ensures
        ({
            let es = if sort {
                sort_spec(flat(d, Seq::empty()))
            } else {
                flat(d, Seq::empty())
            };
            &&& unflat_run(lines_of(flat_output(d, sort, sep)), sep) == UnflatRun::Built(
                norm(untimed(d@)),
                time_paths(es),
            )
            &&& es.to_multiset() == flat_v(d@, Seq::empty()).to_multiset()
            &&& all_ok(es, sep)
        }),
{
    broadcast use vstd::seq_lib::group_to_multiset_ensures;

    let e = Seq::<SegV>::empty();
    let dd = untimed(d@);
    let es0 = flat_v(d@, e);
    let eu = flat_v(dd, e);
    lemma_flat_view(d, e);
    lemma_flat_untimed(d@, e);
    lemma_rebuild(dd);
    lemma_good_sep_no_nl(sep);
    lemma_entries_ok(d@, e, sep);
    lemma_tree_ok_unique(dd);
    lemma_keys_sorted_norm(dd);
    lemma_norm_fixed(norm(dd));
    let es = if sort {
        sort_spec(es0)
    } else {
        es0
    };
    if sort {
        sort_orders_and_keeps(es0);
        lemma_sort_same_leaves(es0, eu);
        lemma_ins_all_alike(DocV::Null, sort_spec(es0), sort_spec(eu));
        lemma_sort_flat_norm(dd);
        lemma_tree_ok_norm(dd);
        lemma_rebuild(norm(dd));
        assert forall|i: int| 0 <= i < es.len() implies entry_ok(#[trigger] es[i], sep) by {
            lemma_same_entries_member(es, es0, i);
        }
    } else {
        lemma_ins_all_alike(DocV::Null, es0, eu);
    }
    lemma_lines_of_flat_text(es, sep);
    lemma_unflat_lines(es, sep);
}

/// Unflattening, to JSON or YAML, the flat text of a document gives the
/// document back, its date-times as strings (their texts) and the members
/// of its objects in key order. This holds of every document with no key
/// twice in an object, whose numbers read back as themselves, with no key,
/// number or date-time text that holds a newline and no bare key beyond
/// ASCII, written with a separator whose characters no path or type name
/// holds outside quotes (`good_sep`), and where no bare key that ends a
/// path runs on into the separator after it (`tail_key_ok`).
pub proof fn unflatten_reads_back_flatten(d: Doc, sort: bool, sep: Seq<char>, fmt: Fmt)
    requires
        good_sep(sep),
        tree_ok(untimed(d@)),
        text_ok(d@, sep),
        fmt == Fmt::Json || fmt == Fmt::Yaml,
    ensures
        unflatten_spec(flat_output(d, sort, sep), fmt, sep) == Some(
            Ok::<DocV, Seq<char>>(norm(untimed(d@))),
        ),
{
    lemma_read_back(d, sort, sep);
}

/// Unflattening to TOML the flat text of a document that TOML can hold (no
/// null, date-time texts that the TOML reader reads back as themselves)
/// gives the document back, date-times included and the members of its
/// objects in key order, under the conditions of
/// `unflatten_reads_back_flatten`.
pub proof fn unflatten_reads_back_flatten_toml(d: Doc, sort: bool, sep: Seq<char>)
    requires
        good_sep(sep),
        tree_ok(untimed(d@)),
        text_ok(d@, sep),
        toml_ok(d@),
    ensures
        unflatten_spec(flat_output(d, sort, sep), Fmt::Toml, sep) == Some(
            Ok::<DocV, Seq<char>>(norm(d@)),
        ),
{
    let e = Seq::<SegV>::empty();
    let es = if sort {
        sort_spec(flat(d, e))
    } else {
        flat(d, e)
    };
    lemma_read_back(d, sort, sep);
    let dn = norm(d@);
    let n = flat_v(dn, e);
    lemma_untimed_norm(d@);
    lemma_toml_ok_norm(d@);
    lemma_flat_norm_multiset(d@, e);
    lemma_sort_flat_norm(untimed(d@));
    lemma_flat_untimed(dn, e);
    let nu = flat_v(untimed(dn), e);
    assert forall|i: int, j: int| 0 <= i < j < n.len() implies path_lt(#[trigger] n[i].0, #[trigger] n[j].0) by {
        assert(n[i].0 == nu[i].0 && n[j].0 == nu[j].0);
    }
    lemma_times_cover_same(es, n, sep);
    lemma_toml_back(dn, e, time_paths(es));
}

/// The entries `flatten` gives for a document (before any sorting) are its
/// leaves: each names a leaf of the document at its path, with its type and
/// value, and each leaf has its entry.
pub proof fn flatten_entries_are_the_leaves(d: Doc)
    ensures
        all_leaves_of(doc_view(d), flat(d, Seq::empty())),
        forall|q: Seq<SegV>, t: Seq<char>, v: Seq<char>|
            #[trigger] leaf_at(doc_view(d), q, t, v) <==> flat(d, Seq::empty()).contains((q, t, v)),
{
    lemma_flat_view(d, Seq::empty());
    flat_entries_are_leaves(doc_view(d), Seq::empty());
    assert forall|q: Seq<SegV>, t: Seq<char>, v: Seq<char>|
        #[trigger] leaf_at(doc_view(d), q, t, v) <==> flat(d, Seq::empty()).contains((q, t, v)) by {
        flat_lists_every_leaf(doc_view(d), q, t, v);
    }
}

/// What a flat line becomes as a shell assignment, for a line written as
/// `flatten` writes it (a path, the separator, a type field, the separator,
/// any value). With an empty variable name nothing is written. Otherwise:
/// `boolean`, `number` and `time` give `NAME=value` with the value copied;
/// `null` gives `NAME=`; `string` gives the unquoted text in shell quotes;
/// `object` and `array` give nothing; any other type stops the conversion
/// with `unknown type: ` and the type.
pub proof fn env_line_of_flat_line(p: Seq<SegV>, t: Seq<char>, v: Seq<char>, sep: Seq<char>)
    requires
        good_sep(sep),
        split_path_ok(p, sep),
        tail_ok(p, sep),
        type_field_ok(t, sep),
    ensures
        ({
            let line = path_text(p, sep) + sep + t + sep + v;
            let key = env_key(p);
            let r = env_line(line, sep);
            &&& key.len() == 0 ==> r == EnvLine::Skip
            &&& key.len() > 0 && (t == "boolean"@ || t == "number"@ || t == "time"@) ==> r
                == EnvLine::Emit(key + seq!['='] + v + seq!['\n'])
            &&& key.len() > 0 && t == "null"@ ==> r == EnvLine::Emit(key + seq!['=', '\n'])
            &&& key.len() > 0 && t == "string"@ ==> r == EnvLine::Emit(
                key + seq!['='] + sh_quoted(unescape_body(unquote_inner(v))) + seq!['\n'],
            )
            &&& key.len() > 0 && (t == "object"@ || t == "array"@) ==> r == EnvLine::Skip
            &&& key.len() > 0 && !(t == "null"@ || t == "boolean"@ || t == "number"@ || t == "time"@
                || t == "string"@ || t == "object"@ || t == "array"@) ==> r == EnvLine::Fail(
                "unknown type: "@ + t,
            )
        }),
{
    let line = path_text(p, sep) + sep + t + sep + v;
    split_line_reads_back(p, t, v, sep);
    lemma_parse_path_text(p, sep);
    assert(path_text(p, sep).len() > 0) by {
        if p.len() == 0 {
            assert(path_text(p, sep) == seq!['.']);
        } else {
            assert(path_text(p, sep) == segs_text(p, sep));
            lemma_parse_segs_text(p, sep);
        }
    }
    assert(line.len() > 0);
    reveal_strlit("null");
    assert("null"@ =~= seq!['n', 'u', 'l', 'l']);
    reveal_strlit("boolean");
    assert("boolean"@ =~= seq!['b', 'o', 'o', 'l', 'e', 'a', 'n']);
    reveal_strlit("number");
    assert("number"@ =~= seq!['n', 'u', 'm', 'b', 'e', 'r']);
    reveal_strlit("time");
    assert("time"@ =~= seq!['t', 'i', 'm', 'e']);
    reveal_strlit("string");
    assert("string"@ =~= seq!['s', 't', 'r', 'i', 'n', 'g']);
    reveal_strlit("object");
    assert("object"@ =~= seq!['o', 'b', 'j', 'e', 'c', 't']);
    reveal_strlit("array");
    assert("array"@ =~= seq!['a', 'r', 'r', 'a', 'y']);
    let key = env_key(p);
    assert(key + seq!['='] + Seq::<char>::empty() + seq!['\n'] =~= key + seq!['=', '\n']);
}

} // verus!
