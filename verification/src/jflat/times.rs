//! Date-times through flat lines: read back as strings, and as date-times
//! again when the output is TOML.
use vstd::prelude::*;
use crate::jflat::doc::DocV;
use crate::jflat::path::{lemma_parse_segs_text, parse_path_spec, path_text, SegV};
use crate::jflat::rebuild::{flat_items_v, flat_members_v, flat_v, ins_all};
use crate::jflat::unflat::{insert_spec, leaf_spec, padded, key_find, toml_datetime_text, toml_items, toml_members, toml_spec};
use crate::jsonlite::{quoted, unquote_inverts_quote};
use crate::jflat::norm::{
    lemma_key_slot_bounds, lemma_norm_items, lemma_norm_members_from, lemma_norm_members_len, norm, norm_items,
    norm_members,
};
use crate::jflat::unflat::key_slot;

verus! {

// ---- a document with its date-times as strings --------------------------------------

/// `d` with every date-time written as the string of its text, which is
/// what reading its flat lines back gives.
pub open spec fn untimed(d: DocV) -> DocV
    decreases d, 0int,
{
    match d {
        DocV::Time(t) => DocV::Str(t),
        DocV::Array(items) => DocV::Array(untimed_items(items, items.len() as int)),
        DocV::Object(ms) => DocV::Object(untimed_members(ms, ms.len() as int)),
        other => other,
    }
}

pub open spec fn untimed_items(items: Seq<DocV>, n: int) -> Seq<DocV>
    decreases items, n,
{
    if n <= 0 || n > items.len() {
        Seq::empty()
    } else {
        untimed_items(items, n - 1).push(untimed(items[n - 1]))
    }
}

pub open spec fn untimed_members(ms: Seq<(Seq<char>, DocV)>, n: int) -> Seq<(Seq<char>, DocV)>
    decreases ms, n,
{
    if n <= 0 || n > ms.len() {
        Seq::empty()
    } else {
        untimed_members(ms, n - 1).push((ms[n - 1].0, untimed(ms[n - 1].1)))
    }
}

pub proof fn lemma_untimed_items(items: Seq<DocV>, n: int)
    requires
        0 <= n <= items.len(),
    ensures
        untimed_items(items, n).len() == n,
        forall|i: int| 0 <= i < n ==> #[trigger] untimed_items(items, n)[i] == untimed(items[i]),
    decreases n,
{
    if n > 0 {
        lemma_untimed_items(items, n - 1);
    }
}

pub proof fn lemma_untimed_members(ms: Seq<(Seq<char>, DocV)>, n: int)
    requires
        0 <= n <= ms.len(),
    ensures
        untimed_members(ms, n).len() == n,
        forall|i: int|
            0 <= i < n ==> #[trigger] untimed_members(ms, n)[i] == (ms[i].0, untimed(ms[i].1)),
    decreases n,
{
    if n > 0 {
        lemma_untimed_members(ms, n - 1);
    }
}

// ---- entries that read back alike ------------------------------------------------------

/// Two runs of entries with the same paths, whose leaves read back alike.
pub open spec fn same_leaves(
    a: Seq<(Seq<SegV>, Seq<char>, Seq<char>)>,
    b: Seq<(Seq<SegV>, Seq<char>, Seq<char>)>,
) -> bool {
    &&& a.len() == b.len()
    &&& forall|i: int|
        0 <= i < a.len() ==> (#[trigger] a[i]).0 == b[i].0 && leaf_spec(a[i].1, a[i].2) == leaf_spec(
            b[i].1,
            b[i].2,
        )
}

proof fn lemma_same_leaves_concat(
    a: Seq<(Seq<SegV>, Seq<char>, Seq<char>)>,
    b: Seq<(Seq<SegV>, Seq<char>, Seq<char>)>,
    x: Seq<(Seq<SegV>, Seq<char>, Seq<char>)>,
    y: Seq<(Seq<SegV>, Seq<char>, Seq<char>)>,
)
    requires
        same_leaves(a, b),
        same_leaves(x, y),
    ensures
        same_leaves(a + x, b + y),
{
    assert forall|i: int| 0 <= i < (a + x).len() implies (#[trigger] (a + x)[i]).0 == (b + y)[i].0
        && leaf_spec((a + x)[i].1, (a + x)[i].2) == leaf_spec((b + y)[i].1, (b + y)[i].2) by {
        if i < a.len() {
            assert((a + x)[i] == a[i] && (b + y)[i] == b[i]);
        } else {
            assert((a + x)[i] == x[i - a.len()] && (b + y)[i] == y[i - a.len()]);
        }
    }
}

/// A date-time reads back as the string of its text, as that string does.
proof fn lemma_time_leaf(t: Seq<char>)
    ensures
        leaf_spec("time"@, t) == leaf_spec("string"@, quoted(t, true)),
        leaf_spec("time"@, t) == Ok::<DocV, Seq<char>>(DocV::Str(t)),
{
    reveal_strlit("null");
    reveal_strlit("boolean");
    reveal_strlit("number");
    reveal_strlit("string");
    reveal_strlit("time");
    assert("null"@.len() == 4 && "boolean"@.len() == 7 && "number"@.len() == 6);
    assert("string"@.len() == 6 && "time"@.len() == 4);
    assert("time"@[0] != "null"@[0]);
    assert("string"@[0] != "number"@[0]);
    unquote_inverts_quote(t, true);
}

pub proof fn lemma_flat_untimed(d: DocV, p: Seq<SegV>)
    ensures
        same_leaves(flat_v(d, p), flat_v(untimed(d), p)),
    decreases d, 1int,
{
    match d {
        DocV::Time(t) => {
            lemma_time_leaf(t);
        },
        DocV::Array(items) => {
            lemma_untimed_items(items, items.len() as int);
            if items.len() > 0 {
                lemma_flat_untimed_items(items, p, items.len() as int);
            }
        },
        DocV::Object(ms) => {
            lemma_untimed_members(ms, ms.len() as int);
            if ms.len() > 0 {
                lemma_flat_untimed_members(ms, p, ms.len() as int);
            }
        },
        _ => {},
    }
}

proof fn lemma_flat_untimed_items(items: Seq<DocV>, p: Seq<SegV>, n: int)
    requires
        0 <= n <= items.len(),
    ensures
        same_leaves(
            flat_items_v(items, p, n),
            flat_items_v(untimed_items(items, items.len() as int), p, n),
        ),
    decreases items, n,
{
    let u = untimed_items(items, items.len() as int);
    lemma_untimed_items(items, items.len() as int);
    if n > 0 {
        lemma_flat_untimed_items(items, p, n - 1);
        let q = p.push(SegV::Idx((n - 1) as nat));
        lemma_flat_untimed(items[n - 1], q);
        assert(u[n - 1] == untimed(items[n - 1]));
        lemma_same_leaves_concat(
            flat_items_v(items, p, n - 1),
            flat_items_v(u, p, n - 1),
            flat_v(items[n - 1], q),
            flat_v(u[n - 1], q),
        );
    }
}

proof fn lemma_flat_untimed_members(ms: Seq<(Seq<char>, DocV)>, p: Seq<SegV>, n: int)
    requires
        0 <= n <= ms.len(),
    ensures
        same_leaves(
            flat_members_v(ms, p, n),
            flat_members_v(untimed_members(ms, ms.len() as int), p, n),
        ),
    decreases ms, n,
{
    let u = untimed_members(ms, ms.len() as int);
    lemma_untimed_members(ms, ms.len() as int);
    if n > 0 {
        lemma_flat_untimed_members(ms, p, n - 1);
        let q = p.push(SegV::Key(ms[n - 1].0));
        assert(decreases_to!(ms => ms[n - 1]));
        lemma_flat_untimed(ms[n - 1].1, q);
        assert(u[n - 1] == (ms[n - 1].0, untimed(ms[n - 1].1)));
        lemma_same_leaves_concat(
            flat_members_v(ms, p, n - 1),
            flat_members_v(u, p, n - 1),
            flat_v(ms[n - 1].1, q),
            flat_v(u[n - 1].1, q),
        );
    }
}

/// Inserting a leaf depends on its type and value only through the node
/// they stand for.
proof fn lemma_insert_leaf_alike(
    root: DocV,
    path: Seq<SegV>,
    t1: Seq<char>,
    v1: Seq<char>,
    t2: Seq<char>,
    v2: Seq<char>,
)
    requires
        leaf_spec(t1, v1) == leaf_spec(t2, v2),
    ensures
        insert_spec(root, path, t1, v1) == insert_spec(root, path, t2, v2),
    decreases path.len(),
{
    if path.len() > 0 {
        match path[0] {
            SegV::Key(k) => {
                let node = if root is Null {
                    DocV::Object(Seq::empty())
                } else {
                    root
                };
                if let DocV::Object(ms) = node {
                    let j = key_find(ms, k);
                    let child = if j < ms.len() {
                        ms[j].1
                    } else {
                        DocV::Null
                    };
                    lemma_insert_leaf_alike(child, path.drop_first(), t1, v1, t2, v2);
                }
            },
            SegV::Idx(i) => {
                let node = if root is Null {
                    DocV::Array(Seq::empty())
                } else {
                    root
                };
                if let DocV::Array(items) = node {
                    let q = padded(items, i);
                    lemma_insert_leaf_alike(q[i as int], path.drop_first(), t1, v1, t2, v2);
                }
            },
        }
    }
}

/// Entries that read back alike build the same document.
pub proof fn lemma_ins_all_alike(
    root: DocV,
    a: Seq<(Seq<SegV>, Seq<char>, Seq<char>)>,
    b: Seq<(Seq<SegV>, Seq<char>, Seq<char>)>,
)
    requires
        same_leaves(a, b),
    ensures
        ins_all(root, a) == ins_all(root, b),
    decreases a.len(),
{
    if a.len() > 0 {
        let a1 = a.drop_last();
        let b1 = b.drop_last();
        assert(same_leaves(a1, b1)) by {
            assert forall|i: int| 0 <= i < a1.len() implies (#[trigger] a1[i]).0 == b1[i].0
                && leaf_spec(a1[i].1, a1[i].2) == leaf_spec(b1[i].1, b1[i].2) by {
                assert(a1[i] == a[i] && b1[i] == b[i]);
            }
        }
        lemma_ins_all_alike(root, a1, b1);
        assert(a.last() == a[a.len() - 1] && b.last() == b[b.len() - 1]);
        if let Ok(r) = ins_all(root, a1) {
            lemma_insert_leaf_alike(r, a.last().0, a.last().1, a.last().2, b.last().1, b.last().2);
        }
    }
}

// ---- date-times back for TOML ------------------------------------------------------------

/// The text by which unflattening remembers the path of a date-time leaf.
pub open spec fn canon(p: Seq<SegV>) -> Seq<char> {
    path_text(p, seq!['\0'])
}

/// The remembered paths of the date-time entries of `es`, in order.
pub open spec fn time_paths(es: Seq<(Seq<SegV>, Seq<char>, Seq<char>)>) -> Seq<Seq<char>>
    decreases es.len(),
{
    if es.len() == 0 {
        Seq::empty()
    } else if es.last().1 == "time"@ {
        time_paths(es.drop_last()).push(canon(es.last().0))
    } else {
        time_paths(es.drop_last())
    }
}

pub proof fn lemma_time_paths(es: Seq<(Seq<SegV>, Seq<char>, Seq<char>)>, x: Seq<char>)
    ensures
        time_paths(es).contains(x) <==> exists|i: int|
            0 <= i < es.len() && (#[trigger] es[i]).1 == "time"@ && canon(es[i].0) == x,
    decreases es.len(),
{
    if es.len() > 0 {
        let q = es.drop_last();
        lemma_time_paths(q, x);
        let t = time_paths(es);
        if t.contains(x) {
            if time_paths(q).contains(x) {
                let i = choose|i: int| 0 <= i < q.len() && (#[trigger] q[i]).1 == "time"@ && canon(q[i].0) == x;
                assert(es[i] == q[i]);
            } else {
                let k = choose|k: int| 0 <= k < t.len() && t[k] == x;
                assert(es.last().1 == "time"@);
                assert(t == time_paths(q).push(canon(es.last().0)));
                if k < time_paths(q).len() {
                    assert(t[k] == time_paths(q)[k]);
                    assert(time_paths(q).contains(x));
                }
                assert(es[es.len() - 1] == es.last());
            }
        }
        if exists|i: int| 0 <= i < es.len() && (#[trigger] es[i]).1 == "time"@ && canon(es[i].0) == x {
            let i = choose|i: int| 0 <= i < es.len() && (#[trigger] es[i]).1 == "time"@ && canon(es[i].0) == x;
            if i < q.len() {
                assert(q[i] == es[i]);
                assert(time_paths(q).contains(x));
                let k = choose|k: int| 0 <= k < time_paths(q).len() && time_paths(q)[k] == x;
                if es.last().1 == "time"@ {
                    assert(t[k] == x);
                }
            } else {
                assert(es[i] == es.last());
                assert(t[t.len() - 1] == x);
            }
        }
    }
}

/// Paths whose indices fit a machine word are told apart by their text.
pub proof fn lemma_canon_injective(p: Seq<SegV>, q: Seq<SegV>)
    requires
        forall|i: int| 0 <= i < p.len() ==> (#[trigger] p[i] matches SegV::Idx(x) ==> x <= usize::MAX),
        forall|i: int| 0 <= i < q.len() ==> (#[trigger] q[i] matches SegV::Idx(x) ==> x <= usize::MAX),
        canon(p) == canon(q),
    ensures
        p == q,
{
    lemma_parse_canon(p);
    lemma_parse_canon(q);
}

proof fn lemma_parse_canon(p: Seq<SegV>)
    requires
        forall|i: int| 0 <= i < p.len() ==> (#[trigger] p[i] matches SegV::Idx(x) ==> x <= usize::MAX),
    ensures
        parse_path_spec(canon(p)) == p,
{
    let sep = seq!['\0'];
    lemma_parse_segs_text(p, sep);
    if p.len() == 0 {
        assert(path_text(p, sep) =~= seq!['.']);
    } else {
        assert(path_text(p, sep) != seq!['.']) by {
            if path_text(p, sep) == seq!['.'] {
                assert(path_text(p, sep).len() == 1);
            }
        }
    }
}

/// A document that TOML can hold as it is: no null, and every date-time
/// text read back by the TOML reader as itself.
pub open spec fn toml_ok(d: DocV) -> bool
    decreases d, 0int,
{
    match d {
        DocV::Null => false,
        DocV::Time(t) => toml_datetime_text(t) == Some(t),
        DocV::Array(items) => toml_items_ok(items, items.len() as int),
        DocV::Object(ms) => toml_members_ok(ms, ms.len() as int),
        _ => true,
    }
}

pub open spec fn toml_items_ok(items: Seq<DocV>, n: int) -> bool
    decreases items, n,
{
    if n <= 0 || n > items.len() {
        true
    } else {
        toml_items_ok(items, n - 1) && toml_ok(items[n - 1])
    }
}

pub open spec fn toml_members_ok(ms: Seq<(Seq<char>, DocV)>, n: int) -> bool
    decreases ms, n,
{
    if n <= 0 || n > ms.len() {
        true
    } else {
        toml_members_ok(ms, n - 1) && toml_ok(ms[n - 1].1)
    }
}

/// The remembered paths `times` hold those of the date-time entries of `es`
/// and none of its string entries.
pub open spec fn times_cover(es: Seq<(Seq<SegV>, Seq<char>, Seq<char>)>, times: Seq<Seq<char>>) -> bool {
    forall|i: int|
        0 <= i < es.len() ==> ((#[trigger] es[i]).1 == "string"@ ==> !times.contains(canon(es[i].0)))
            && (es[i].1 == "time"@ ==> times.contains(canon(es[i].0)))
}

proof fn lemma_times_cover_split(
    a: Seq<(Seq<SegV>, Seq<char>, Seq<char>)>,
    b: Seq<(Seq<SegV>, Seq<char>, Seq<char>)>,
    times: Seq<Seq<char>>,
)
    requires
        times_cover(a + b, times),
    ensures
        times_cover(a, times),
        times_cover(b, times),
{
    assert forall|i: int| 0 <= i < a.len() implies ((#[trigger] a[i]).1 == "string"@ ==> !times.contains(
        canon(a[i].0),
    )) && (a[i].1 == "time"@ ==> times.contains(canon(a[i].0))) by {
        assert((a + b)[i] == a[i]);
    }
    assert forall|i: int| 0 <= i < b.len() implies ((#[trigger] b[i]).1 == "string"@ ==> !times.contains(
        canon(b[i].0),
    )) && (b[i].1 == "time"@ ==> times.contains(canon(b[i].0))) by {
        assert((a + b)[a.len() + i] == b[i]);
    }
}

/// With the date-time paths remembered, the TOML form of the document read
/// back is the document itself.
pub proof fn lemma_toml_back(d: DocV, p: Seq<SegV>, times: Seq<Seq<char>>)
    requires
        toml_ok(d),
        times_cover(flat_v(d, p), times),
    ensures
        toml_spec(untimed(d), p, times) == Ok::<DocV, Seq<char>>(d),
    decreases d, 1int,
{
    reveal_strlit("string");
    reveal_strlit("time");
    assert("string"@.len() == 6 && "time"@.len() == 4);
    match d {
        DocV::Str(s) => {
            assert(flat_v(d, p)[0].1 == "string"@);
        },
        DocV::Time(t) => {
            assert(flat_v(d, p)[0].1 == "time"@);
        },
        DocV::Array(items) => {
            lemma_untimed_items(items, items.len() as int);
            if items.len() > 0 {
                lemma_toml_back_items(items, p, times, items.len() as int);
                assert(items.take(items.len() as int) =~= items);
            } else {
                assert(untimed_items(items, 0) =~= items);
            }
        },
        DocV::Object(ms) => {
            lemma_untimed_members(ms, ms.len() as int);
            if ms.len() > 0 {
                lemma_toml_back_members(ms, p, times, ms.len() as int);
                assert(ms.take(ms.len() as int) =~= ms);
            } else {
                assert(untimed_members(ms, 0) =~= ms);
            }
        },
        _ => {},
    }
}

proof fn lemma_toml_back_items(items: Seq<DocV>, p: Seq<SegV>, times: Seq<Seq<char>>, n: int)
    requires
        0 <= n <= items.len(),
        toml_items_ok(items, n),
        times_cover(flat_items_v(items, p, n), times),
    ensures
        toml_items(untimed_items(items, items.len() as int), p, times, n) == Ok::<
            Seq<DocV>,
            Seq<char>,
        >(items.take(n)),
    decreases items, n,
{
    let u = untimed_items(items, items.len() as int);
    lemma_untimed_items(items, items.len() as int);
    if n > 0 {
        let q = p.push(SegV::Idx((n - 1) as nat));
        lemma_times_cover_split(flat_items_v(items, p, n - 1), flat_v(items[n - 1], q), times);
        lemma_toml_back_items(items, p, times, n - 1);
        lemma_toml_back(items[n - 1], q, times);
        assert(u[n - 1] == untimed(items[n - 1]));
        assert(items.take(n - 1).push(items[n - 1]) =~= items.take(n));
    } else {
        assert(items.take(0) =~= Seq::<DocV>::empty());
    }
}

proof fn lemma_toml_back_members(
    ms: Seq<(Seq<char>, DocV)>,
    p: Seq<SegV>,
    times: Seq<Seq<char>>,
    n: int,
)
    requires
        0 <= n <= ms.len(),
        toml_members_ok(ms, n),
        times_cover(flat_members_v(ms, p, n), times),
    ensures
        toml_members(untimed_members(ms, ms.len() as int), p, times, n) == Ok::<
            Seq<(Seq<char>, DocV)>,
            Seq<char>,
        >(ms.take(n)),
    decreases ms, n,
{
    let u = untimed_members(ms, ms.len() as int);
    lemma_untimed_members(ms, ms.len() as int);
    if n > 0 {
        let q = p.push(SegV::Key(ms[n - 1].0));
        lemma_times_cover_split(flat_members_v(ms, p, n - 1), flat_v(ms[n - 1].1, q), times);
        lemma_toml_back_members(ms, p, times, n - 1);
        assert(decreases_to!(ms => ms[n - 1]));
        lemma_toml_back(ms[n - 1].1, q, times);
        assert(u[n - 1] == (ms[n - 1].0, untimed(ms[n - 1].1)));
        assert(ms.take(n - 1).push(ms[n - 1]) =~= ms.take(n));
    } else {
        assert(ms.take(0) =~= Seq::<(Seq<char>, DocV)>::empty());
    }
}

// ---- date-times and key order ------------------------------------------------------------

proof fn lemma_key_slot_keys(s: Seq<(Seq<char>, DocV)>, t: Seq<(Seq<char>, DocV)>, k: Seq<char>)
    requires
        s.len() == t.len(),
        forall|i: int| 0 <= i < s.len() ==> (#[trigger] s[i]).0 == t[i].0,
    ensures
        key_slot(s, k) == key_slot(t, k),
    decreases s.len(),
{
    if s.len() > 0 {
        assert(s[0].0 == t[0].0);
        assert forall|i: int| 0 <= i < s.drop_first().len() implies (#[trigger] s.drop_first()[i]).0
            == t.drop_first()[i].0 by {
            assert(s.drop_first()[i] == s[i + 1] && t.drop_first()[i] == t[i + 1]);
        }
        lemma_key_slot_keys(s.drop_first(), t.drop_first(), k);
    }
}

/// Writing date-times as strings and putting keys in order can be done in
/// either order.
pub proof fn lemma_untimed_norm(d: DocV)
    ensures
        untimed(norm(d)) == norm(untimed(d)),
    decreases d, 1int,
{
    match d {
        DocV::Array(items) => {
            let l = items.len() as int;
            let ni = norm_items(items, l);
            let ui = untimed_items(items, l);
            lemma_norm_items(items, l);
            lemma_untimed_items(items, l);
            lemma_untimed_items(ni, l);
            lemma_norm_items(ui, l);
            assert forall|i: int| 0 <= i < l implies #[trigger] untimed_items(ni, l)[i] == norm_items(ui, l)[i] by {
                lemma_untimed_norm(items[i]);
            }
            assert(untimed_items(ni, l) =~= norm_items(ui, l));
            assert(norm(d) == DocV::Array(ni));
            assert(untimed(d) == DocV::Array(ui));
            assert(untimed(DocV::Array(ni)) == DocV::Array(untimed_items(ni, l)));
            assert(norm(DocV::Array(ui)) == DocV::Array(norm_items(ui, l)));
            assert(untimed(norm(d)) == norm(untimed(d)));
        },
        DocV::Object(ms) => {
            let l = ms.len() as int;
            lemma_untimed_norm_members(ms, l);
            lemma_norm_members_len(ms, l);
            lemma_untimed_members(ms, l);
            let nm = norm_members(ms, l);
            let um = untimed_members(ms, l);
            assert(norm(d) == DocV::Object(nm));
            assert(untimed(d) == DocV::Object(um));
            assert(untimed(DocV::Object(nm)) == DocV::Object(untimed_members(nm, l)));
            assert(norm(DocV::Object(um)) == DocV::Object(norm_members(um, l)));
            assert(untimed(norm(d)) == norm(untimed(d)));
        },
        _ => {},
    }
}

proof fn lemma_untimed_norm_members(ms: Seq<(Seq<char>, DocV)>, n: int)
    requires
        0 <= n <= ms.len(),
    ensures
        untimed_members(norm_members(ms, n), n) == norm_members(
            untimed_members(ms, ms.len() as int),
            n,
        ),
    decreases ms, n,
{
    let um = untimed_members(ms, ms.len() as int);
    lemma_untimed_members(ms, ms.len() as int);
    lemma_norm_members_len(ms, n);
    if n == 0 {
        assert(untimed_members(norm_members(ms, 0), 0) =~= norm_members(um, 0));
    } else {
        lemma_untimed_norm_members(ms, n - 1);
        let a = norm_members(ms, n - 1);
        lemma_norm_members_len(ms, n - 1);
        let key = ms[n - 1].0;
        let m = (key, norm(ms[n - 1].1));
        let k = key_slot(a, key);
        lemma_key_slot_bounds(a, key);
        let b = a.insert(k, m);
        assert(b == norm_members(ms, n));
        let ua = untimed_members(a, n - 1);
        lemma_untimed_members(a, n - 1);
        lemma_untimed_members(b, n);
        assert(decreases_to!(ms => ms[n - 1]));
        lemma_untimed_norm(ms[n - 1].1);
        assert(untimed_members(b, n) =~= ua.insert(k, (key, untimed(norm(ms[n - 1].1))))) by {
            assert forall|i: int| 0 <= i < n implies #[trigger] untimed_members(b, n)[i] == ua.insert(
                k,
                (key, untimed(norm(ms[n - 1].1))),
            )[i] by {
                if i < k {
                    assert(b[i] == a[i]);
                } else if i > k {
                    assert(b[i] == a[i - 1]);
                }
            }
        }
        assert forall|i: int| 0 <= i < ua.len() implies (#[trigger] ua[i]).0 == a[i].0 by {}
        lemma_key_slot_keys(ua, a, key);
        assert(um[n - 1] == (key, untimed(ms[n - 1].1)));
    }
}

proof fn lemma_toml_members_at(ms: Seq<(Seq<char>, DocV)>, n: int, i: int)
    requires
        0 <= i < n <= ms.len(),
        toml_members_ok(ms, n),
    ensures
        toml_ok(ms[i].1),
    decreases n,
{
    if i < n - 1 {
        lemma_toml_members_at(ms, n - 1, i);
    }
}

proof fn lemma_toml_members_intro(s: Seq<(Seq<char>, DocV)>, n: int)
    requires
        0 <= n <= s.len(),
        forall|j: int| 0 <= j < n ==> toml_ok(#[trigger] s[j].1),
    ensures
        toml_members_ok(s, n),
    decreases n,
{
    if n > 0 {
        lemma_toml_members_intro(s, n - 1);
    }
}

/// What TOML can hold stays so with keys in order.
pub proof fn lemma_toml_ok_norm(d: DocV)
    requires
        toml_ok(d),
    ensures
        toml_ok(norm(d)),
    decreases d, 1int,
{
    match d {
        DocV::Array(items) => {
            lemma_norm_items(items, items.len() as int);
            lemma_toml_items_norm(items, items.len() as int);
        },
        DocV::Object(ms) => {
            let l = ms.len() as int;
            let nm = norm_members(ms, l);
            lemma_norm_members_len(ms, l);
            assert forall|j: int| 0 <= j < l implies toml_ok(#[trigger] nm[j].1) by {
                lemma_norm_members_from(ms, l, j);
                let i = choose|i: int| 0 <= i < l && nm[j] == (ms[i].0, norm(ms[i].1));
                lemma_toml_members_at(ms, l, i);
                assert(decreases_to!(ms => ms[i]));
                lemma_toml_ok_norm(ms[i].1);
            }
            lemma_toml_members_intro(nm, l);
        },
        _ => {},
    }
}

proof fn lemma_toml_items_norm(items: Seq<DocV>, n: int)
    requires
        0 <= n <= items.len(),
        toml_items_ok(items, n),
    ensures
        toml_items_ok(norm_items(items, items.len() as int), n),
    decreases items, n,
{
    lemma_norm_items(items, items.len() as int);
    if n > 0 {
        lemma_toml_items_norm(items, n - 1);
        lemma_toml_ok_norm(items[n - 1]);
    }
}

} // verus!
