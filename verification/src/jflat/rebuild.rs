//! Unflattening gives back what flattening took apart.
use vstd::prelude::*;
use crate::jflat::doc::DocV;
use crate::jflat::order::lemma_chars_lt_irreflexive;
use crate::jflat::path::SegV;
use crate::jflat::unflat::{insert_spec, json_parsed, key_find, key_slot, leaf_spec, padded};
use crate::jsonlite::{quoted, unquote_inverts_quote};
use crate::jflat::norm::{
    keys_distinct, keys_unique, lemma_increasing_norm_members, lemma_key_slot_bounds, lemma_norm_items,
    lemma_norm_members_from, lemma_norm_members_len, norm, norm_items, norm_members, unique_items,
    unique_members,
};

verus! {

/// The entries of the leaves of `d` under `path` (as `flat` says, on views).
pub open spec fn flat_v(d: DocV, path: Seq<SegV>) -> Seq<(Seq<SegV>, Seq<char>, Seq<char>)>
    decreases d, 0int,
{
    match d {
        DocV::Null => seq![(path, "null"@, "null"@)],
        DocV::Bool(b) => seq![(path, "boolean"@, if b { "true"@ } else { "false"@ })],
        DocV::Number(n) => seq![(path, "number"@, n)],
        DocV::Str(s) => seq![(path, "string"@, quoted(s, true))],
        DocV::Time(t) => seq![(path, "time"@, t)],
        DocV::Array(items) => if items.len() == 0 {
            seq![(path, "array"@, "[]"@)]
        } else {
            flat_items_v(items, path, items.len() as int)
        },
        DocV::Object(ms) => if ms.len() == 0 {
            seq![(path, "object"@, "{}"@)]
        } else {
            flat_members_v(ms, path, ms.len() as int)
        },
    }
}

pub open spec fn flat_items_v(items: Seq<DocV>, path: Seq<SegV>, n: int) -> Seq<
    (Seq<SegV>, Seq<char>, Seq<char>),
>
    decreases items, n,
{
    if n <= 0 || n > items.len() {
        Seq::empty()
    } else {
        flat_items_v(items, path, n - 1) + flat_v(items[n - 1], path.push(SegV::Idx((n - 1) as nat)))
    }
}

pub open spec fn flat_members_v(ms: Seq<(Seq<char>, DocV)>, path: Seq<SegV>, n: int) -> Seq<
    (Seq<SegV>, Seq<char>, Seq<char>),
>
    decreases ms, n,
{
    if n <= 0 || n > ms.len() {
        Seq::empty()
    } else {
        flat_members_v(ms, path, n - 1) + flat_v(ms[n - 1].1, path.push(SegV::Key(ms[n - 1].0)))
    }
}

/// The leaf entries of a document read in order into `root`.
pub open spec fn ins_all(root: DocV, es: Seq<(Seq<SegV>, Seq<char>, Seq<char>)>) -> Result<
    DocV,
    Seq<char>,
>
    decreases es.len(),
{
    if es.len() == 0 {
        Ok(root)
    } else {
        match ins_all(root, es.drop_last()) {
            Ok(r) => insert_spec(r, es.last().0, es.last().1, es.last().2),
            Err(e) => Err(e),
        }
    }
}

proof fn lemma_ins_all_concat(
    root: DocV,
    a: Seq<(Seq<SegV>, Seq<char>, Seq<char>)>,
    b: Seq<(Seq<SegV>, Seq<char>, Seq<char>)>,
)
    ensures
        ins_all(root, a + b) == match ins_all(root, a) {
            Ok(r) => ins_all(r, b),
            Err(e) => Err(e),
        },
    decreases b.len(),
{
    if b.len() == 0 {
        assert(a + b =~= a);
    } else {
        lemma_ins_all_concat(root, a, b.drop_last());
        assert((a + b).drop_last() =~= a + b.drop_last());
        assert((a + b).last() == b.last());
    }
}

proof fn lemma_ins_all_first(root: DocV, es: Seq<(Seq<SegV>, Seq<char>, Seq<char>)>)
    requires
        es.len() > 0,
    ensures
        ins_all(root, es) == match insert_spec(root, es[0].0, es[0].1, es[0].2) {
            Ok(r) => ins_all(r, es.drop_first()),
            Err(e) => Err(e),
        },
{
    lemma_ins_all_concat(root, seq![es[0]], es.drop_first());
    assert(seq![es[0]] + es.drop_first() =~= es);
    assert(seq![es[0]].drop_last() =~= Seq::<(Seq<SegV>, Seq<char>, Seq<char>)>::empty());
    assert(seq![es[0]].last() == es[0]);
    assert(ins_all(root, Seq::<(Seq<SegV>, Seq<char>, Seq<char>)>::empty()) == Ok::<DocV, Seq<char>>(root));
    assert(ins_all(root, seq![es[0]]) == insert_spec(root, es[0].0, es[0].1, es[0].2));
}

/// Every entry of `es` with `g` put in front of its path.
pub open spec fn under(g: SegV, es: Seq<(Seq<SegV>, Seq<char>, Seq<char>)>) -> Seq<
    (Seq<SegV>, Seq<char>, Seq<char>),
> {
    es.map_values(|e: (Seq<SegV>, Seq<char>, Seq<char>)| (seq![g] + e.0, e.1, e.2))
}

/// Every entry of `es` with `p` put in front of its path.
pub open spec fn under_path(p: Seq<SegV>, es: Seq<(Seq<SegV>, Seq<char>, Seq<char>)>) -> Seq<
    (Seq<SegV>, Seq<char>, Seq<char>),
> {
    es.map_values(|e: (Seq<SegV>, Seq<char>, Seq<char>)| (p + e.0, e.1, e.2))
}

/// The entries of `d` under `p` are those under the empty path, with `p` in
/// front.
pub proof fn lemma_flat_shift(d: DocV, p: Seq<SegV>)
    ensures
        flat_v(d, p) == under_path(p, flat_v(d, Seq::empty())),
    decreases d, 0int,
{
    let e = Seq::<SegV>::empty();
    match d {
        DocV::Array(items) => {
            if items.len() > 0 {
                lemma_flat_items_shift(items, p, items.len() as int);
            } else {
                assert(p + e =~= p);
                assert(flat_v(d, p) =~= under_path(p, flat_v(d, e)));
            }
        },
        DocV::Object(ms) => {
            if ms.len() > 0 {
                lemma_flat_members_shift(ms, p, ms.len() as int);
            } else {
                assert(p + e =~= p);
                assert(flat_v(d, p) =~= under_path(p, flat_v(d, e)));
            }
        },
        _ => {
            assert(p + e =~= p);
            assert(flat_v(d, p) =~= under_path(p, flat_v(d, e)));
        },
    }
}

proof fn lemma_under_path_concat(
    p: Seq<SegV>,
    a: Seq<(Seq<SegV>, Seq<char>, Seq<char>)>,
    b: Seq<(Seq<SegV>, Seq<char>, Seq<char>)>,
)
    ensures
        under_path(p, a + b) == under_path(p, a) + under_path(p, b),
{
    assert(under_path(p, a + b) =~= under_path(p, a) + under_path(p, b));
}

proof fn lemma_under_path_compose(p: Seq<SegV>, q: Seq<SegV>, es: Seq<(Seq<SegV>, Seq<char>, Seq<char>)>)
    ensures
        under_path(p, under_path(q, es)) == under_path(p + q, es),
{
    assert forall|i: int| 0 <= i < es.len() implies #[trigger] under_path(p, under_path(q, es))[i]
        == under_path(p + q, es)[i] by {
        assert(p + (q + es[i].0) =~= (p + q) + es[i].0);
    }
    assert(under_path(p, under_path(q, es)) =~= under_path(p + q, es));
}

proof fn lemma_flat_items_shift(items: Seq<DocV>, p: Seq<SegV>, n: int)
    requires
        0 <= n <= items.len(),
    ensures
        flat_items_v(items, p, n) == under_path(p, flat_items_v(items, Seq::empty(), n)),
    decreases items, n,
{
    let e = Seq::<SegV>::empty();
    if n > 0 {
        lemma_flat_items_shift(items, p, n - 1);
        let g = SegV::Idx((n - 1) as nat);
        lemma_flat_shift(items[n - 1], p.push(g));
        lemma_flat_shift(items[n - 1], e.push(g));
        lemma_under_path_compose(p, e.push(g), flat_v(items[n - 1], e));
        assert(p + e.push(g) =~= p.push(g));
        lemma_under_path_concat(
            p,
            flat_items_v(items, e, n - 1),
            flat_v(items[n - 1], e.push(g)),
        );
    } else {
        assert(flat_items_v(items, p, n) =~= under_path(p, flat_items_v(items, e, n)));
    }
}

proof fn lemma_flat_members_shift(ms: Seq<(Seq<char>, DocV)>, p: Seq<SegV>, n: int)
    requires
        0 <= n <= ms.len(),
    ensures
        flat_members_v(ms, p, n) == under_path(p, flat_members_v(ms, Seq::empty(), n)),
    decreases ms, n,
{
    let e = Seq::<SegV>::empty();
    if n > 0 {
        lemma_flat_members_shift(ms, p, n - 1);
        let g = SegV::Key(ms[n - 1].0);
        assert(decreases_to!(ms => ms[n - 1]));
        lemma_flat_shift(ms[n - 1].1, p.push(g));
        lemma_flat_shift(ms[n - 1].1, e.push(g));
        lemma_under_path_compose(p, e.push(g), flat_v(ms[n - 1].1, e));
        assert(p + e.push(g) =~= p.push(g));
        lemma_under_path_concat(
            p,
            flat_members_v(ms, e, n - 1),
            flat_v(ms[n - 1].1, e.push(g)),
        );
    } else {
        assert(flat_members_v(ms, p, n) =~= under_path(p, flat_members_v(ms, e, n)));
    }
}

/// A document that unflattening can build back (up to the order of object
/// members): no date-times (they come back as strings), every number text
/// read back by the JSON reader as that number, and no key twice in an
/// object.
pub open spec fn tree_ok(d: DocV) -> bool
    decreases d, 0int,
{
    match d {
        DocV::Time(_) => false,
        DocV::Number(n) => json_parsed(n) == Ok::<DocV, Seq<char>>(DocV::Number(n)),
        DocV::Array(items) => items_ok(items, items.len() as int),
        DocV::Object(ms) => members_ok(ms, ms.len() as int) && keys_distinct(ms),
        _ => true,
    }
}

pub open spec fn items_ok(items: Seq<DocV>, n: int) -> bool
    decreases items, n,
{
    if n <= 0 || n > items.len() {
        true
    } else {
        items_ok(items, n - 1) && tree_ok(items[n - 1])
    }
}

pub open spec fn members_ok(ms: Seq<(Seq<char>, DocV)>, n: int) -> bool
    decreases ms, n,
{
    if n <= 0 || n > ms.len() {
        true
    } else {
        members_ok(ms, n - 1) && tree_ok(ms[n - 1].1)
    }
}

proof fn lemma_items_ok(items: Seq<DocV>, n: int, j: int)
    requires
        0 <= j < n <= items.len(),
        items_ok(items, n),
    ensures
        tree_ok(items[j]),
    decreases n,
{
    if j < n - 1 {
        lemma_items_ok(items, n - 1, j);
    }
}

proof fn lemma_members_ok(ms: Seq<(Seq<char>, DocV)>, n: int, j: int)
    requires
        0 <= j < n <= ms.len(),
        members_ok(ms, n),
    ensures
        tree_ok(ms[j].1),
    decreases n,
{
    if j < n - 1 {
        lemma_members_ok(ms, n - 1, j);
    }
}

proof fn lemma_flat_nonempty(d: DocV, p: Seq<SegV>)
    ensures
        flat_v(d, p).len() > 0,
    decreases d, 0int,
{
    match d {
        DocV::Array(items) => {
            if items.len() > 0 {
                lemma_flat_items_nonempty(items, p, items.len() as int);
            }
        },
        DocV::Object(ms) => {
            if ms.len() > 0 {
                lemma_flat_members_nonempty(ms, p, ms.len() as int);
            }
        },
        _ => {},
    }
}

proof fn lemma_flat_items_nonempty(items: Seq<DocV>, p: Seq<SegV>, n: int)
    requires
        0 < n <= items.len(),
    ensures
        flat_items_v(items, p, n).len() > 0,
    decreases items, n,
{
    lemma_flat_nonempty(items[n - 1], p.push(SegV::Idx((n - 1) as nat)));
}

proof fn lemma_flat_members_nonempty(ms: Seq<(Seq<char>, DocV)>, p: Seq<SegV>, n: int)
    requires
        0 < n <= ms.len(),
    ensures
        flat_members_v(ms, p, n).len() > 0,
    decreases ms, n,
{
    assert(decreases_to!(ms => ms[n - 1]));
    lemma_flat_nonempty(ms[n - 1].1, p.push(SegV::Key(ms[n - 1].0)));
}

/// Entries under index `k` change item `k` of an array that has one.
proof fn lemma_array_step(b: Seq<DocV>, k: nat, es: Seq<(Seq<SegV>, Seq<char>, Seq<char>)>)
    requires
        k < b.len(),
    ensures
        ins_all(DocV::Array(b), under_path(seq![SegV::Idx(k)], es)) == match ins_all(b[k as int], es) {
            Ok(y) => Ok(DocV::Array(b.update(k as int, y))),
            Err(e) => Err(e),
        },
    decreases es.len(),
{
    let g = seq![SegV::Idx(k)];
    if es.len() == 0 {
        assert(under_path(g, es) =~= Seq::<(Seq<SegV>, Seq<char>, Seq<char>)>::empty());
        assert(b.update(k as int, b[k as int]) =~= b);
    } else {
        lemma_array_step(b, k, es.drop_last());
        assert(under_path(g, es).drop_last() =~= under_path(g, es.drop_last()));
        let last = es.last();
        assert(under_path(g, es).last() == (g + last.0, last.1, last.2));
        assert((g + last.0)[0] == SegV::Idx(k));
        assert((g + last.0).drop_first() =~= last.0);
        match ins_all(b[k as int], es.drop_last()) {
            Ok(y) => {
                let b2 = b.update(k as int, y);
                assert(padded(b2, k) == b2);
                assert(b2.update(k as int, y) =~= b2);
                match insert_spec(y, last.0, last.1, last.2) {
                    Ok(c) => {
                        assert(b2.update(k as int, c) =~= b.update(k as int, c));
                    },
                    Err(e) => {},
                }
            },
            Err(e) => {},
        }
    }
}

/// A key at position `j` and nowhere before is found there.
proof fn lemma_key_find_at(ms: Seq<(Seq<char>, DocV)>, k: Seq<char>, j: int)
    requires
        0 <= j < ms.len(),
        ms[j].0 == k,
        forall|i: int| 0 <= i < j ==> #[trigger] ms[i].0 != k,
    ensures
        key_find(ms, k) == j,
    decreases j,
{
    if j > 0 {
        assert(ms[0].0 != k);
        lemma_key_find_at(ms.drop_first(), k, j - 1);
        assert forall|i: int| 0 <= i < j - 1 implies #[trigger] ms.drop_first()[i].0 != k by {
            assert(ms.drop_first()[i] == ms[i + 1]);
        }
    }
}

/// A key not present is not found.
proof fn lemma_key_find_none(ms: Seq<(Seq<char>, DocV)>, k: Seq<char>)
    requires
        forall|i: int| 0 <= i < ms.len() ==> #[trigger] ms[i].0 != k,
    ensures
        key_find(ms, k) == ms.len(),
    decreases ms.len(),
{
    if ms.len() > 0 {
        assert(ms[0].0 != k);
        assert forall|i: int| 0 <= i < ms.drop_first().len() implies #[trigger] ms.drop_first()[i].0
            != k by {
            assert(ms.drop_first()[i] == ms[i + 1]);
        }
        lemma_key_find_none(ms.drop_first(), k);
    }
}

/// Entries under key `k` change the member `j` that holds it.
proof fn lemma_object_step(
    ms: Seq<(Seq<char>, DocV)>,
    j: int,
    k: Seq<char>,
    es: Seq<(Seq<SegV>, Seq<char>, Seq<char>)>,
)
    requires
        0 <= j < ms.len(),
        ms[j].0 == k,
        forall|i: int| 0 <= i < j ==> #[trigger] ms[i].0 != k,
    ensures
        ins_all(DocV::Object(ms), under_path(seq![SegV::Key(k)], es)) == match ins_all(ms[j].1, es) {
            Ok(y) => Ok(DocV::Object(ms.update(j, (k, y)))),
            Err(e) => Err(e),
        },
    decreases es.len(),
{
    let g = seq![SegV::Key(k)];
    if es.len() == 0 {
        assert(under_path(g, es) =~= Seq::<(Seq<SegV>, Seq<char>, Seq<char>)>::empty());
        assert(ms.update(j, (k, ms[j].1)) =~= ms);
    } else {
        lemma_object_step(ms, j, k, es.drop_last());
        assert(under_path(g, es).drop_last() =~= under_path(g, es.drop_last()));
        let last = es.last();
        assert(under_path(g, es).last() == (g + last.0, last.1, last.2));
        assert((g + last.0)[0] == SegV::Key(k));
        assert((g + last.0).drop_first() =~= last.0);
        match ins_all(ms[j].1, es.drop_last()) {
            Ok(y) => {
                let m2 = ms.update(j, (k, y));
                assert forall|i: int| 0 <= i < j implies #[trigger] m2[i].0 != k by {
                    assert(m2[i] == ms[i]);
                }
                lemma_key_find_at(m2, k, j);
                match insert_spec(y, last.0, last.1, last.2) {
                    Ok(c) => {
                        assert(m2.update(j, (k, c)) =~= ms.update(j, (k, c)));
                    },
                    Err(e) => {},
                }
            },
            Err(e) => {},
        }
    }
}

/// Reading entries under the next index into an array first adds a null
/// item for them.
proof fn lemma_array_grow(a: Seq<DocV>, es: Seq<(Seq<SegV>, Seq<char>, Seq<char>)>)
    requires
        es.len() > 0,
    ensures
        ins_all(DocV::Array(a), under_path(seq![SegV::Idx(a.len())], es)) == ins_all(
            DocV::Array(a.push(DocV::Null)),
            under_path(seq![SegV::Idx(a.len())], es),
        ),
        a.len() == 0 ==> ins_all(DocV::Null, under_path(seq![SegV::Idx(a.len())], es)) == ins_all(
            DocV::Array(a),
            under_path(seq![SegV::Idx(a.len())], es),
        ),
{
    let g = seq![SegV::Idx(a.len())];
    let u = under_path(g, es);
    lemma_ins_all_first(DocV::Array(a), u);
    lemma_ins_all_first(DocV::Array(a.push(DocV::Null)), u);
    lemma_ins_all_first(DocV::Null, u);
    assert(u[0] == (g + es[0].0, es[0].1, es[0].2));
    assert((g + es[0].0)[0] == SegV::Idx(a.len()));
    assert(padded(a, a.len()) =~= a.push(DocV::Null));
    assert(padded(a.push(DocV::Null), a.len()) =~= a.push(DocV::Null));
    if a.len() == 0 {
        assert(a =~= Seq::<DocV>::empty());
    }
}

/// Reading entries under a key the object lacks first adds that key, with
/// a null value, in key order.
proof fn lemma_object_grow(
    ms: Seq<(Seq<char>, DocV)>,
    k: Seq<char>,
    es: Seq<(Seq<SegV>, Seq<char>, Seq<char>)>,
)
    requires
        es.len() > 0,
        forall|i: int| 0 <= i < ms.len() ==> (#[trigger] ms[i]).0 != k,
    ensures
        ins_all(DocV::Object(ms), under_path(seq![SegV::Key(k)], es)) == ins_all(
            DocV::Object(ms.insert(key_slot(ms, k), (k, DocV::Null))),
            under_path(seq![SegV::Key(k)], es),
        ),
        ms.len() == 0 ==> ins_all(DocV::Null, under_path(seq![SegV::Key(k)], es)) == ins_all(
            DocV::Object(ms),
            under_path(seq![SegV::Key(k)], es),
        ),
{
    let g = seq![SegV::Key(k)];
    let u = under_path(g, es);
    lemma_key_slot_bounds(ms, k);
    let s = key_slot(ms, k);
    let m2 = ms.insert(s, (k, DocV::Null));
    lemma_ins_all_first(DocV::Object(ms), u);
    lemma_ins_all_first(DocV::Object(m2), u);
    lemma_ins_all_first(DocV::Null, u);
    assert(u[0] == (g + es[0].0, es[0].1, es[0].2));
    assert((g + es[0].0)[0] == SegV::Key(k));
    lemma_key_find_none(ms, k);
    assert forall|i: int| 0 <= i < s implies #[trigger] m2[i].0 != k by {
        assert(m2[i] == ms[i]);
    }
    lemma_key_find_at(m2, k, s);
    assert forall|c: DocV| #![auto] ms.insert(s, (k, c)) =~= m2.update(s, (k, c)) by {}
    if ms.len() == 0 {
        assert(ms =~= Seq::<(Seq<char>, DocV)>::empty());
    }
}

proof fn lemma_type_names()
    ensures
        "boolean"@ != "null"@,
        "number"@ != "null"@ && "number"@ != "boolean"@,
        "string"@ != "null"@ && "string"@ != "boolean"@ && "string"@ != "number"@,
        "object"@ != "null"@ && "object"@ != "boolean"@ && "object"@ != "number"@ && "object"@
            != "string"@ && "object"@ != "time"@,
        "array"@ != "null"@ && "array"@ != "boolean"@ && "array"@ != "number"@ && "array"@
            != "string"@ && "array"@ != "time"@ && "array"@ != "object"@,
        "false"@ != "true"@,
{
    reveal_strlit("null");
    reveal_strlit("boolean");
    reveal_strlit("number");
    reveal_strlit("string");
    reveal_strlit("time");
    reveal_strlit("object");
    reveal_strlit("array");
    reveal_strlit("true");
    reveal_strlit("false");
    assert("null"@.len() == 4);
    assert("boolean"@.len() == 7);
    assert("number"@.len() == 6);
    assert("string"@.len() == 6);
    assert("time"@.len() == 4);
    assert("object"@.len() == 6);
    assert("array"@.len() == 5);
    assert("true"@.len() == 4);
    assert("false"@.len() == 5);
    assert("number"@[0] != "string"@[0]);
    assert("object"@[0] != "number"@[0]);
    assert("object"@[0] != "string"@[0]);
}

/// Reading the entries of a document into null gives the document back,
/// the members of its objects in key order.
pub proof fn lemma_rebuild(d: DocV)
    requires
        tree_ok(d),
    ensures
        ins_all(DocV::Null, flat_v(d, Seq::empty())) == Ok::<DocV, Seq<char>>(norm(d)),
    decreases d, 1int,
{
    let e = Seq::<SegV>::empty();
    lemma_type_names();
    lemma_flat_nonempty(d, e);
    lemma_ins_all_first(DocV::Null, flat_v(d, e));
    match d {
        DocV::Array(items) => {
            if items.len() == 0 {
                assert(items =~= Seq::<DocV>::empty());
                assert(norm_items(items, 0) =~= items);
                assert(flat_v(d, e)[0] == (e, "array"@, "[]"@));
                assert(leaf_spec("array"@, "[]"@) == Ok::<DocV, Seq<char>>(DocV::Array(Seq::empty())));
                assert(flat_v(d, e).drop_first() =~= Seq::<(Seq<SegV>, Seq<char>, Seq<char>)>::empty());
                assert(insert_spec(DocV::Null, e, "array"@, "[]"@) == Ok::<DocV, Seq<char>>(d));
                assert(ins_all(d, Seq::<(Seq<SegV>, Seq<char>, Seq<char>)>::empty()) == Ok::<DocV, Seq<char>>(d));
            } else {
                lemma_rebuild_items(items, items.len() as int);
                assert(flat_v(d, e) == flat_items_v(items, e, items.len() as int));
            }
        },
        DocV::Object(ms) => {
            if ms.len() == 0 {
                assert(ms =~= Seq::<(Seq<char>, DocV)>::empty());
                assert(norm_members(ms, 0) =~= ms);
                assert(flat_v(d, e).drop_first() =~= Seq::<(Seq<SegV>, Seq<char>, Seq<char>)>::empty());
            } else {
                lemma_rebuild_members(ms, ms.len() as int);
            }
        },
        DocV::Str(s) => {
            unquote_inverts_quote(s, true);
            assert(flat_v(d, e).drop_first() =~= Seq::<(Seq<SegV>, Seq<char>, Seq<char>)>::empty());
        },
        DocV::Time(_) => {},
        _ => {
            assert(flat_v(d, e).drop_first() =~= Seq::<(Seq<SegV>, Seq<char>, Seq<char>)>::empty());
        },
    }
}

proof fn lemma_rebuild_items(items: Seq<DocV>, k: int)
    requires
        0 < k <= items.len(),
        items_ok(items, items.len() as int),
    ensures
        ins_all(DocV::Null, flat_items_v(items, Seq::empty(), k)) == Ok::<DocV, Seq<char>>(
            DocV::Array(norm_items(items, k)),
        ),
    decreases items, k,
{
    let e = Seq::<SegV>::empty();
    let g = SegV::Idx((k - 1) as nat);
    let x = items[k - 1];
    lemma_items_ok(items, items.len() as int, k - 1);
    lemma_rebuild(x);
    lemma_flat_shift(x, e.push(g));
    assert(e.push(g) =~= seq![g]);
    let es = flat_v(x, e);
    lemma_flat_nonempty(x, e);
    lemma_ins_all_concat(DocV::Null, flat_items_v(items, e, k - 1), flat_v(x, e.push(g)));
    let a = norm_items(items, k - 1);
    lemma_norm_items(items, k - 1);
    if k == 1 {
        assert(flat_items_v(items, e, 0) =~= Seq::<(Seq<SegV>, Seq<char>, Seq<char>)>::empty());
        assert(a =~= Seq::<DocV>::empty());
        lemma_array_grow(a, es);
    } else {
        lemma_rebuild_items(items, k - 1);
        lemma_array_grow(a, es);
    }
    lemma_array_step(a.push(DocV::Null), (k - 1) as nat, es);
    assert(a.push(DocV::Null).update(k - 1, norm(x)) =~= norm_items(items, k));
}

proof fn lemma_rebuild_members(ms: Seq<(Seq<char>, DocV)>, k: int)
    requires
        0 < k <= ms.len(),
        members_ok(ms, ms.len() as int),
        keys_distinct(ms),
    ensures
        ins_all(DocV::Null, flat_members_v(ms, Seq::empty(), k)) == Ok::<DocV, Seq<char>>(
            DocV::Object(norm_members(ms, k)),
        ),
    decreases ms, k,
{
    let e = Seq::<SegV>::empty();
    let key = ms[k - 1].0;
    let g = SegV::Key(key);
    let x = ms[k - 1].1;
    assert(decreases_to!(ms => ms[k - 1]));
    lemma_members_ok(ms, ms.len() as int, k - 1);
    lemma_rebuild(x);
    lemma_flat_shift(x, e.push(g));
    assert(e.push(g) =~= seq![g]);
    let es = flat_v(x, e);
    lemma_flat_nonempty(x, e);
    lemma_ins_all_concat(DocV::Null, flat_members_v(ms, e, k - 1), flat_v(x, e.push(g)));
    let a = norm_members(ms, k - 1);
    lemma_norm_members_len(ms, k - 1);
    assert forall|j: int| 0 <= j < a.len() implies (#[trigger] a[j]).0 != key by {
        lemma_norm_members_from(ms, k - 1, j);
        let i = choose|i: int| 0 <= i < k - 1 && a[j] == (ms[i].0, norm(ms[i].1));
        assert(ms[i].0 != ms[k - 1].0);
    }
    if k == 1 {
        assert(flat_members_v(ms, e, 0) =~= Seq::<(Seq<SegV>, Seq<char>, Seq<char>)>::empty());
        assert(a =~= Seq::<(Seq<char>, DocV)>::empty());
        lemma_object_grow(a, key, es);
    } else {
        lemma_rebuild_members(ms, k - 1);
        lemma_object_grow(a, key, es);
    }
    lemma_key_slot_bounds(a, key);
    let s = key_slot(a, key);
    let a2 = a.insert(s, (key, DocV::Null));
    assert forall|i: int| 0 <= i < s implies #[trigger] a2[i].0 != key by {
        assert(a2[i] == a[i]);
    }
    lemma_object_step(a2, s, key, es);
    assert(a2.update(s, (key, norm(x))) =~= norm_members(ms, k));
}

// ---- what normalizing keeps ---------------------------------------------------------------

pub proof fn lemma_tree_ok_unique(d: DocV)
    requires
        tree_ok(d),
    ensures
        keys_unique(d),
    decreases d, 1int,
{
    match d {
        DocV::Array(items) => lemma_items_unique(items, items.len() as int),
        DocV::Object(ms) => lemma_members_unique(ms, ms.len() as int),
        _ => {},
    }
}

proof fn lemma_items_unique(items: Seq<DocV>, n: int)
    requires
        0 <= n <= items.len(),
        items_ok(items, n),
    ensures
        unique_items(items, n),
    decreases items, n,
{
    if n > 0 {
        lemma_items_unique(items, n - 1);
        lemma_tree_ok_unique(items[n - 1]);
    }
}

proof fn lemma_members_unique(ms: Seq<(Seq<char>, DocV)>, n: int)
    requires
        0 <= n <= ms.len(),
        members_ok(ms, n),
    ensures
        unique_members(ms, n),
    decreases ms, n,
{
    if n > 0 {
        lemma_members_unique(ms, n - 1);
        assert(decreases_to!(ms => ms[n - 1]));
        lemma_tree_ok_unique(ms[n - 1].1);
    }
}

proof fn lemma_members_ok_intro(s: Seq<(Seq<char>, DocV)>, n: int)
    requires
        0 <= n <= s.len(),
        forall|j: int| 0 <= j < n ==> tree_ok(#[trigger] s[j].1),
    ensures
        members_ok(s, n),
    decreases n,
{
    if n > 0 {
        lemma_members_ok_intro(s, n - 1);
    }
}

/// A document that unflattening can build back still is one with its
/// objects' members in key order.
pub proof fn lemma_tree_ok_norm(d: DocV)
    requires
        tree_ok(d),
    ensures
        tree_ok(norm(d)),
    decreases d, 1int,
{
    match d {
        DocV::Array(items) => {
            lemma_norm_items(items, items.len() as int);
            lemma_items_ok_norm(items, items.len() as int);
        },
        DocV::Object(ms) => {
            let l = ms.len() as int;
            let nm = norm_members(ms, l);
            lemma_norm_members_len(ms, l);
            assert forall|j: int| 0 <= j < l implies tree_ok(#[trigger] nm[j].1) by {
                lemma_norm_members_from(ms, l, j);
                let i = choose|i: int| 0 <= i < l && nm[j] == (ms[i].0, norm(ms[i].1));
                lemma_members_ok(ms, l, i);
                assert(decreases_to!(ms => ms[i]));
                lemma_tree_ok_norm(ms[i].1);
            }
            lemma_members_ok_intro(nm, l);
            lemma_increasing_norm_members(ms, l);
            assert forall|i: int, j: int| 0 <= i < j < nm.len() implies (#[trigger] nm[i]).0 != (
            #[trigger] nm[j]).0 by {
                lemma_chars_lt_irreflexive(nm[i].0);
            }
        },
        _ => {},
    }
}

proof fn lemma_items_ok_norm(items: Seq<DocV>, n: int)
    requires
        0 <= n <= items.len(),
        items_ok(items, n),
    ensures
        items_ok(norm_items(items, items.len() as int), n),
    decreases items, n,
{
    lemma_norm_items(items, items.len() as int);
    if n > 0 {
        lemma_items_ok_norm(items, n - 1);
        lemma_tree_ok_norm(items[n - 1]);
    }
}

/// The type name and value text a leaf is written with; `None` for an
/// array or object that has elements.
pub open spec fn leaf_text(d: DocV) -> Option<(Seq<char>, Seq<char>)> {
    match d {
        DocV::Null => Some(("null"@, "null"@)),
        DocV::Bool(b) => Some(("boolean"@, if b { "true"@ } else { "false"@ })),
        DocV::Number(n) => Some(("number"@, n)),
        DocV::Str(s) => Some(("string"@, quoted(s, true))),
        DocV::Time(t) => Some(("time"@, t)),
        DocV::Array(items) => if items.len() == 0 {
            Some(("array"@, "[]"@))
        } else {
            None
        },
        DocV::Object(ms) => if ms.len() == 0 {
            Some(("object"@, "{}"@))
        } else {
            None
        },
    }
}

/// `d` has, at the relative path `q`, a leaf written with type `t` and
/// value `v` (an index picks an array item, a key a member of that name).
pub open spec fn leaf_at(d: DocV, q: Seq<SegV>, t: Seq<char>, v: Seq<char>) -> bool
    decreases q.len(),
{
    if q.len() == 0 {
        leaf_text(d) == Some((t, v))
    } else {
        match q[0] {
            SegV::Idx(i) => d matches DocV::Array(items) && i < items.len() && leaf_at(
                items[i as int],
                q.drop_first(),
                t,
                v,
            ),
            SegV::Key(k) => d matches DocV::Object(ms) && exists|j: int|
                0 <= j < ms.len() && (#[trigger] ms[j]).0 == k && leaf_at(ms[j].1, q.drop_first(), t, v),
        }
    }
}

/// Every entry of `es` names a leaf of `d`.
pub open spec fn all_leaves_of(d: DocV, es: Seq<(Seq<SegV>, Seq<char>, Seq<char>)>) -> bool {
    forall|i: int| 0 <= i < es.len() ==> leaf_at(d, (#[trigger] es[i]).0, es[i].1, es[i].2)
}

proof fn lemma_flat_leaves(d: DocV)
    ensures
        all_leaves_of(d, flat_v(d, Seq::empty())),
    decreases d, 0int,
{
    match d {
        DocV::Array(items) => {
            if items.len() > 0 {
                lemma_flat_items_leaves(items, items.len() as int);
            }
        },
        DocV::Object(ms) => {
            if ms.len() > 0 {
                lemma_flat_members_leaves(ms, ms.len() as int);
            }
        },
        _ => {},
    }
}

proof fn lemma_flat_items_leaves(items: Seq<DocV>, n: int)
    requires
        0 <= n <= items.len(),
    ensures
        all_leaves_of(DocV::Array(items), flat_items_v(items, Seq::empty(), n)),
    decreases items, n,
{
    if n > 0 {
        lemma_flat_items_leaves(items, n - 1);
        let g = SegV::Idx((n - 1) as nat);
        let x = items[n - 1];
        lemma_flat_leaves(x);
        lemma_flat_shift(x, seq![g]);
        assert(Seq::<SegV>::empty().push(g) =~= seq![g]);
        let a = flat_items_v(items, Seq::empty(), n - 1);
        let b = flat_v(x, seq![g]);
        let inner = flat_v(x, Seq::empty());
        assert forall|i: int| 0 <= i < (a + b).len() implies leaf_at(
            DocV::Array(items),
            (#[trigger] (a + b)[i]).0,
            (a + b)[i].1,
            (a + b)[i].2,
        ) by {
            if i < a.len() {
                assert((a + b)[i] == a[i]);
            } else {
                let e = inner[i - a.len()];
                assert((a + b)[i] == b[i - a.len()]);
                assert(b[i - a.len()] == (seq![g] + e.0, e.1, e.2));
                assert((seq![g] + e.0).drop_first() =~= e.0);
                assert(leaf_at(x, e.0, e.1, e.2));
            }
        }
    }
}

proof fn lemma_flat_members_leaves(ms: Seq<(Seq<char>, DocV)>, n: int)
    requires
        0 <= n <= ms.len(),
    ensures
        all_leaves_of(DocV::Object(ms), flat_members_v(ms, Seq::empty(), n)),
    decreases ms, n,
{
    if n > 0 {
        lemma_flat_members_leaves(ms, n - 1);
        let g = SegV::Key(ms[n - 1].0);
        let x = ms[n - 1].1;
        lemma_flat_leaves(x);
        lemma_flat_shift(x, seq![g]);
        assert(Seq::<SegV>::empty().push(g) =~= seq![g]);
        let a = flat_members_v(ms, Seq::empty(), n - 1);
        let b = flat_v(x, seq![g]);
        let inner = flat_v(x, Seq::empty());
        assert forall|i: int| 0 <= i < (a + b).len() implies leaf_at(
            DocV::Object(ms),
            (#[trigger] (a + b)[i]).0,
            (a + b)[i].1,
            (a + b)[i].2,
        ) by {
            if i < a.len() {
                assert((a + b)[i] == a[i]);
            } else {
                let e = inner[i - a.len()];
                assert((a + b)[i] == b[i - a.len()]);
                assert(b[i - a.len()] == (seq![g] + e.0, e.1, e.2));
                assert((seq![g] + e.0).drop_first() =~= e.0);
                assert(leaf_at(x, e.0, e.1, e.2));
                assert(ms[n - 1].0 == ms[n - 1].0);
            }
        }
    }
}

/// Flattening `d` under `p` gives, in document order, entries whose paths
/// are `p` followed by a path inside `d`, and each such path names a leaf of
/// `d` (a scalar, or an empty array or object) written with the entry's
/// type and value: `null`, `boolean` (`true`/`false`), `number` (its text),
/// `string` (quoted readably), `time` (its text), `array` (`[]`), `object`
/// (`{}`).
pub proof fn flat_entries_are_leaves(d: DocV, p: Seq<SegV>)
    ensures
        flat_v(d, p) == under_path(p, flat_v(d, Seq::empty())),
        all_leaves_of(d, flat_v(d, Seq::empty())),
{
    lemma_flat_shift(d, p);
    lemma_flat_leaves(d);
}

proof fn lemma_contains_concat(
    a: Seq<(Seq<SegV>, Seq<char>, Seq<char>)>,
    b: Seq<(Seq<SegV>, Seq<char>, Seq<char>)>,
    e: (Seq<SegV>, Seq<char>, Seq<char>),
)
    requires
        a.contains(e) || b.contains(e),
    ensures
        (a + b).contains(e),
{
    if a.contains(e) {
        let i = choose|i: int| 0 <= i < a.len() && a[i] == e;
        assert((a + b)[i] == a[i]);
    } else {
        let i = choose|i: int| 0 <= i < b.len() && b[i] == e;
        assert((a + b)[a.len() + i] == b[i]);
    }
}

proof fn lemma_items_part(items: Seq<DocV>, p: Seq<SegV>, n: int, k: int, e: (Seq<SegV>, Seq<char>, Seq<char>))
    requires
        0 <= k < n <= items.len(),
        flat_v(items[k], p.push(SegV::Idx(k as nat))).contains(e),
    ensures
        flat_items_v(items, p, n).contains(e),
    decreases n,
{
    if k < n - 1 {
        lemma_items_part(items, p, n - 1, k, e);
    }
    lemma_contains_concat(flat_items_v(items, p, n - 1), flat_v(items[n - 1], p.push(SegV::Idx((n - 1) as nat))), e);
}

proof fn lemma_members_part(
    ms: Seq<(Seq<char>, DocV)>,
    p: Seq<SegV>,
    n: int,
    k: int,
    e: (Seq<SegV>, Seq<char>, Seq<char>),
)
    requires
        0 <= k < n <= ms.len(),
        flat_v(ms[k].1, p.push(SegV::Key(ms[k].0))).contains(e),
    ensures
        flat_members_v(ms, p, n).contains(e),
    decreases n,
{
    if k < n - 1 {
        lemma_members_part(ms, p, n - 1, k, e);
    }
    lemma_contains_concat(flat_members_v(ms, p, n - 1), flat_v(ms[n - 1].1, p.push(SegV::Key(ms[n - 1].0))), e);
}

/// An entry of `x` found under the empty path is found, with `g` in front of
/// its path, among the entries of `x` under `[g]`.
proof fn lemma_listed_under(x: DocV, g: SegV, q: Seq<SegV>, t: Seq<char>, v: Seq<char>)
    requires
        flat_v(x, Seq::empty()).contains((q, t, v)),
    ensures
        flat_v(x, Seq::empty().push(g)).contains((seq![g] + q, t, v)),
{
    assert(Seq::<SegV>::empty().push(g) =~= seq![g]);
    lemma_flat_shift(x, seq![g]);
    let inner = flat_v(x, Seq::empty());
    let m = choose|m: int| 0 <= m < inner.len() && inner[m] == (q, t, v);
    assert(flat_v(x, seq![g])[m] == (seq![g] + q, t, v));
}

proof fn lemma_leaf_listed(d: DocV, q: Seq<SegV>, t: Seq<char>, v: Seq<char>)
    requires
        leaf_at(d, q, t, v),
    ensures
        flat_v(d, Seq::empty()).contains((q, t, v)),
    decreases q.len(),
{
    if q.len() == 0 {
        assert(q =~= Seq::<SegV>::empty());
        assert(flat_v(d, Seq::empty())[0] == (q, t, v));
    } else {
        let rest = q.drop_first();
        assert(q =~= seq![q[0]] + rest);
        match q[0] {
            SegV::Idx(i) => {
                let items = d->Array_0;
                lemma_leaf_listed(items[i as int], rest, t, v);
                lemma_listed_under(items[i as int], q[0], rest, t, v);
                lemma_items_part(items, Seq::empty(), items.len() as int, i as int, (q, t, v));
            },
            SegV::Key(k) => {
                let ms = d->Object_0;
                let j = choose|j: int|
                    0 <= j < ms.len() && (#[trigger] ms[j]).0 == k && leaf_at(ms[j].1, rest, t, v);
                lemma_leaf_listed(ms[j].1, rest, t, v);
                lemma_listed_under(ms[j].1, q[0], rest, t, v);
                lemma_members_part(ms, Seq::empty(), ms.len() as int, j, (q, t, v));
            },
        }
    }
}

/// Every leaf of `d` has its entry among those `flat_v` gives: the entries
/// are exactly the leaves of the document.
pub proof fn flat_lists_every_leaf(d: DocV, q: Seq<SegV>, t: Seq<char>, v: Seq<char>)
    ensures
        leaf_at(d, q, t, v) <==> flat_v(d, Seq::empty()).contains((q, t, v)),
{
    if leaf_at(d, q, t, v) {
        lemma_leaf_listed(d, q, t, v);
    }
    if flat_v(d, Seq::empty()).contains((q, t, v)) {
        lemma_flat_leaves(d);
        let i = choose|i: int| 0 <= i < flat_v(d, Seq::empty()).len() && flat_v(d, Seq::empty())[i] == (q, t, v);
        assert(leaf_at(d, flat_v(d, Seq::empty())[i].0, flat_v(d, Seq::empty())[i].1, flat_v(d, Seq::empty())[i].2));
    }
}

} // verus!
