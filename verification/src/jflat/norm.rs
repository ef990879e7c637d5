//! A document with the members of every object in key order: the form in
//! which unflattening builds objects back.
use vstd::prelude::*;
use crate::jflat::doc::DocV;
use crate::jflat::order::{chars_lt, lemma_chars_lt_irreflexive, lemma_chars_lt_total, lemma_chars_lt_transitive};
use crate::jflat::path::SegV;
use crate::jflat::rebuild::{flat_items_v, flat_members_v, flat_v};
use crate::jflat::unflat::key_slot;

verus! {

/// `s` with the member `m` put before the first member whose key comes
/// after its own.
pub open spec fn ins_key(s: Seq<(Seq<char>, DocV)>, m: (Seq<char>, DocV)) -> Seq<(Seq<char>, DocV)> {
    s.insert(key_slot(s, m.0), m)
}

/// `d` with the members of every object in key order.
pub open spec fn norm(d: DocV) -> DocV
    decreases d, 0int,
{
    match d {
        DocV::Array(items) => DocV::Array(norm_items(items, items.len() as int)),
        DocV::Object(ms) => DocV::Object(norm_members(ms, ms.len() as int)),
        other => other,
    }
}

pub open spec fn norm_items(items: Seq<DocV>, n: int) -> Seq<DocV>
    decreases items, n,
{
    if n <= 0 || n > items.len() {
        Seq::empty()
    } else {
        norm_items(items, n - 1).push(norm(items[n - 1]))
    }
}

pub open spec fn norm_members(ms: Seq<(Seq<char>, DocV)>, n: int) -> Seq<(Seq<char>, DocV)>
    decreases ms, n,
{
    if n <= 0 || n > ms.len() {
        Seq::empty()
    } else {
        ins_key(norm_members(ms, n - 1), (ms[n - 1].0, norm(ms[n - 1].1)))
    }
}

/// Keys strictly increasing.
pub open spec fn keys_increasing(ms: Seq<(Seq<char>, DocV)>) -> bool {
    forall|i: int, j: int| 0 <= i < j < ms.len() ==> chars_lt(#[trigger] ms[i].0, #[trigger] ms[j].0)
}

/// No key twice.
pub open spec fn keys_distinct(ms: Seq<(Seq<char>, DocV)>) -> bool {
    forall|i: int, j: int| 0 <= i < j < ms.len() ==> (#[trigger] ms[i]).0 != (#[trigger] ms[j]).0
}

/// Every object of `d` has its keys in increasing order.
pub open spec fn keys_sorted(d: DocV) -> bool
    decreases d, 0int,
{
    match d {
        DocV::Array(items) => sorted_items(items, items.len() as int),
        DocV::Object(ms) => sorted_members(ms, ms.len() as int) && keys_increasing(ms),
        _ => true,
    }
}

pub open spec fn sorted_items(items: Seq<DocV>, n: int) -> bool
    decreases items, n,
{
    if n <= 0 || n > items.len() {
        true
    } else {
        sorted_items(items, n - 1) && keys_sorted(items[n - 1])
    }
}

pub open spec fn sorted_members(ms: Seq<(Seq<char>, DocV)>, n: int) -> bool
    decreases ms, n,
{
    if n <= 0 || n > ms.len() {
        true
    } else {
        sorted_members(ms, n - 1) && keys_sorted(ms[n - 1].1)
    }
}

pub proof fn lemma_norm_items(items: Seq<DocV>, n: int)
    requires
        0 <= n <= items.len(),
    ensures
        norm_items(items, n).len() == n,
        forall|i: int| 0 <= i < n ==> #[trigger] norm_items(items, n)[i] == norm(items[i]),
    decreases n,
{
    if n > 0 {
        lemma_norm_items(items, n - 1);
    }
}

pub proof fn lemma_key_slot_bounds(s: Seq<(Seq<char>, DocV)>, k: Seq<char>)
    ensures
        0 <= key_slot(s, k) <= s.len(),
        forall|j: int| 0 <= j < key_slot(s, k) ==> !chars_lt(k, #[trigger] s[j].0),
        key_slot(s, k) < s.len() ==> chars_lt(k, s[key_slot(s, k)].0),
    decreases s.len(),
{
    if s.len() > 0 && !chars_lt(k, s[0].0) {
        lemma_key_slot_bounds(s.drop_first(), k);
        assert forall|j: int| 0 <= j < key_slot(s, k) implies !chars_lt(k, #[trigger] s[j].0) by {
            if j > 0 {
                assert(s[j] == s.drop_first()[j - 1]);
            }
        }
    }
}

pub proof fn lemma_norm_members_len(ms: Seq<(Seq<char>, DocV)>, n: int)
    requires
        0 <= n <= ms.len(),
    ensures
        norm_members(ms, n).len() == n,
    decreases n,
{
    if n > 0 {
        lemma_norm_members_len(ms, n - 1);
        lemma_key_slot_bounds(norm_members(ms, n - 1), ms[n - 1].0);
    }
}

/// Each member of `norm_members(ms, n)` is one of the first `n` members,
/// its value normalized.
pub proof fn lemma_norm_members_from(ms: Seq<(Seq<char>, DocV)>, n: int, j: int)
    requires
        0 <= n <= ms.len(),
        0 <= j < n,
    ensures
        exists|i: int| 0 <= i < n && norm_members(ms, n)[j] == (ms[i].0, norm(ms[i].1)),
    decreases n,
{
    lemma_norm_members_len(ms, n);
    let a = norm_members(ms, n - 1);
    let m = (ms[n - 1].0, norm(ms[n - 1].1));
    lemma_norm_members_len(ms, n - 1);
    lemma_key_slot_bounds(a, m.0);
    let s = key_slot(a, m.0);
    let b = a.insert(s, m);
    assert(b == norm_members(ms, n));
    if j < s {
        assert(b[j] == a[j]);
        lemma_norm_members_from(ms, n - 1, j);
    } else if j == s {
        assert(b[j] == m);
    } else {
        assert(b[j] == a[j - 1]);
        lemma_norm_members_from(ms, n - 1, j - 1);
    }
}

/// Putting a member with a new key in key order keeps the keys increasing.
pub proof fn lemma_ins_key_increasing(s: Seq<(Seq<char>, DocV)>, m: (Seq<char>, DocV))
    requires
        keys_increasing(s),
        forall|j: int| 0 <= j < s.len() ==> (#[trigger] s[j]).0 != m.0,
    ensures
        keys_increasing(ins_key(s, m)),
{
    lemma_key_slot_bounds(s, m.0);
    let k = key_slot(s, m.0);
    let b = s.insert(k, m);
    assert forall|j: int| 0 <= j < k implies chars_lt(#[trigger] s[j].0, m.0) by {
        lemma_chars_lt_total(s[j].0, m.0);
    }
    assert forall|i: int, j: int| 0 <= i < j < b.len() implies chars_lt(#[trigger] b[i].0, #[trigger] b[j].0) by {
        if j < k {
            assert(b[i] == s[i] && b[j] == s[j]);
        } else if j == k {
            assert(b[i] == s[i] && b[j] == m);
        } else if i < k {
            assert(b[i] == s[i] && b[j] == s[j - 1]);
            if j - 1 > i {
            }
        } else if i == k {
            assert(b[j] == s[j - 1]);
            if j - 1 > k {
                lemma_chars_lt_transitive(m.0, s[k].0, s[j - 1].0);
            }
        } else {
            assert(b[i] == s[i - 1] && b[j] == s[j - 1]);
        }
    }
}

/// A member whose key comes after every key goes at the end.
pub proof fn lemma_ins_key_last(s: Seq<(Seq<char>, DocV)>, m: (Seq<char>, DocV))
    requires
        forall|j: int| 0 <= j < s.len() ==> chars_lt(#[trigger] s[j].0, m.0),
    ensures
        ins_key(s, m) == s.push(m),
{
    lemma_key_slot_bounds(s, m.0);
    let k = key_slot(s, m.0);
    if k < s.len() {
        lemma_chars_lt_transitive(m.0, s[k].0, m.0);
        lemma_chars_lt_irreflexive(m.0);
    }
    assert(s.insert(s.len() as int, m) =~= s.push(m));
}

// ---- objects whose keys come once ----------------------------------------------------

/// No object of `d` has a key twice.
pub open spec fn keys_unique(d: DocV) -> bool
    decreases d, 0int,
{
    match d {
        DocV::Array(items) => unique_items(items, items.len() as int),
        DocV::Object(ms) => unique_members(ms, ms.len() as int) && keys_distinct(ms),
        _ => true,
    }
}

pub open spec fn unique_items(items: Seq<DocV>, n: int) -> bool
    decreases items, n,
{
    if n <= 0 || n > items.len() {
        true
    } else {
        unique_items(items, n - 1) && keys_unique(items[n - 1])
    }
}

pub open spec fn unique_members(ms: Seq<(Seq<char>, DocV)>, n: int) -> bool
    decreases ms, n,
{
    if n <= 0 || n > ms.len() {
        true
    } else {
        unique_members(ms, n - 1) && keys_unique(ms[n - 1].1)
    }
}

proof fn lemma_unique_members_at(ms: Seq<(Seq<char>, DocV)>, n: int, i: int)
    requires
        0 <= i < n <= ms.len(),
        unique_members(ms, n),
    ensures
        keys_unique(ms[i].1),
    decreases n,
{
    if i < n - 1 {
        lemma_unique_members_at(ms, n - 1, i);
    }
}

proof fn lemma_sorted_members_intro(s: Seq<(Seq<char>, DocV)>, n: int)
    requires
        0 <= n <= s.len(),
        forall|j: int| 0 <= j < n ==> keys_sorted(#[trigger] s[j].1),
    ensures
        sorted_members(s, n),
    decreases n,
{
    if n > 0 {
        lemma_sorted_members_intro(s, n - 1);
    }
}

/// Normalizing orders the keys of every object that has each key once.
pub proof fn lemma_keys_sorted_norm(d: DocV)
    requires
        keys_unique(d),
    ensures
        keys_sorted(norm(d)),
    decreases d, 1int,
{
    match d {
        DocV::Array(items) => {
            lemma_norm_items(items, items.len() as int);
            lemma_sorted_norm_items(items, items.len() as int);
        },
        DocV::Object(ms) => {
            let l = ms.len() as int;
            let nm = norm_members(ms, l);
            lemma_norm_members_len(ms, l);
            lemma_increasing_norm_members(ms, l);
            assert forall|j: int| 0 <= j < l implies keys_sorted(#[trigger] nm[j].1) by {
                lemma_norm_members_from(ms, l, j);
                let i = choose|i: int| 0 <= i < l && nm[j] == (ms[i].0, norm(ms[i].1));
                lemma_unique_members_at(ms, l, i);
                assert(decreases_to!(ms => ms[i]));
                lemma_keys_sorted_norm(ms[i].1);
            }
            lemma_sorted_members_intro(nm, l);
        },
        _ => {},
    }
}

proof fn lemma_sorted_norm_items(items: Seq<DocV>, n: int)
    requires
        0 <= n <= items.len(),
        unique_items(items, n),
    ensures
        sorted_items(norm_items(items, items.len() as int), n),
    decreases items, n,
{
    lemma_norm_items(items, items.len() as int);
    if n > 0 {
        lemma_sorted_norm_items(items, n - 1);
        lemma_keys_sorted_norm(items[n - 1]);
    }
}

/// The keys of `norm_members(ms, n)` increase when the first `n` keys of
/// `ms` differ.
pub proof fn lemma_increasing_norm_members(ms: Seq<(Seq<char>, DocV)>, n: int)
    requires
        0 <= n <= ms.len(),
        keys_distinct(ms),
    ensures
        keys_increasing(norm_members(ms, n)),
    decreases n,
{
    if n > 0 {
        lemma_increasing_norm_members(ms, n - 1);
        let a = norm_members(ms, n - 1);
        lemma_norm_members_len(ms, n - 1);
        assert forall|j: int| 0 <= j < a.len() implies (#[trigger] a[j]).0 != ms[n - 1].0 by {
            lemma_norm_members_from(ms, n - 1, j);
            let i = choose|i: int| 0 <= i < n - 1 && a[j] == (ms[i].0, norm(ms[i].1));
            assert(ms[i].0 != ms[n - 1].0);
        }
        lemma_ins_key_increasing(a, (ms[n - 1].0, norm(ms[n - 1].1)));
    }
}

/// A document whose keys are in order is its own normal form.
pub proof fn lemma_norm_fixed(d: DocV)
    requires
        keys_sorted(d),
    ensures
        norm(d) == d,
    decreases d, 1int,
{
    match d {
        DocV::Array(items) => {
            lemma_norm_fixed_items(items, items.len() as int);
            assert(items.take(items.len() as int) =~= items);
        },
        DocV::Object(ms) => {
            lemma_norm_fixed_members(ms, ms.len() as int);
            assert(ms.take(ms.len() as int) =~= ms);
        },
        _ => {},
    }
}

proof fn lemma_norm_fixed_items(items: Seq<DocV>, n: int)
    requires
        0 <= n <= items.len(),
        sorted_items(items, n),
    ensures
        norm_items(items, n) == items.take(n),
    decreases items, n,
{
    if n > 0 {
        lemma_norm_fixed_items(items, n - 1);
        lemma_norm_fixed(items[n - 1]);
        assert(items.take(n - 1).push(items[n - 1]) =~= items.take(n));
    } else {
        assert(items.take(0) =~= Seq::<DocV>::empty());
    }
}

proof fn lemma_norm_fixed_members(ms: Seq<(Seq<char>, DocV)>, n: int)
    requires
        0 <= n <= ms.len(),
        sorted_members(ms, n),
        keys_increasing(ms),
    ensures
        norm_members(ms, n) == ms.take(n),
    decreases ms, n,
{
    if n > 0 {
        lemma_norm_fixed_members(ms, n - 1);
        assert(decreases_to!(ms => ms[n - 1]));
        lemma_norm_fixed(ms[n - 1].1);
        let a = ms.take(n - 1);
        assert forall|j: int| 0 <= j < a.len() implies chars_lt(#[trigger] a[j].0, ms[n - 1].0) by {
            assert(a[j] == ms[j]);
        }
        lemma_ins_key_last(a, (ms[n - 1].0, norm(ms[n - 1].1)));
        assert(a.push(ms[n - 1]) =~= ms.take(n));
    } else {
        assert(ms.take(0) =~= Seq::<(Seq<char>, DocV)>::empty());
    }
}

// ---- the entries of the normal form ------------------------------------------------------

/// The entries of all members of `s`, in order, under `p`.
pub open spec fn members_flat(s: Seq<(Seq<char>, DocV)>, p: Seq<SegV>) -> Seq<(Seq<SegV>, Seq<char>, Seq<char>)> {
    flat_members_v(s, p, s.len() as int)
}

proof fn lemma_flat_members_prefix(
    s: Seq<(Seq<char>, DocV)>,
    t: Seq<(Seq<char>, DocV)>,
    p: Seq<SegV>,
    n: int,
)
    requires
        0 <= n <= s.len(),
        n <= t.len(),
        s.take(n) == t.take(n),
    ensures
        flat_members_v(s, p, n) == flat_members_v(t, p, n),
    decreases n,
{
    if n > 0 {
        assert(s.take(n - 1) =~= t.take(n - 1)) by {
            assert forall|i: int| 0 <= i < n - 1 implies #[trigger] s.take(n - 1)[i] == t.take(n - 1)[i] by {
                assert(s.take(n)[i] == t.take(n)[i]);
            }
        }
        lemma_flat_members_prefix(s, t, p, n - 1);
        assert(s[n - 1] == s.take(n)[n - 1]);
        assert(t[n - 1] == t.take(n)[n - 1]);
    }
}

proof fn lemma_members_flat_concat(a: Seq<(Seq<char>, DocV)>, b: Seq<(Seq<char>, DocV)>, p: Seq<SegV>)
    ensures
        members_flat(a + b, p) == members_flat(a, p) + members_flat(b, p),
    decreases b.len(),
{
    if b.len() == 0 {
        assert(a + b =~= a);
        assert(members_flat(b, p) =~= Seq::<(Seq<SegV>, Seq<char>, Seq<char>)>::empty());
        assert(members_flat(a, p) + members_flat(b, p) =~= members_flat(a, p));
    } else {
        let b1 = b.drop_last();
        let l = (a + b).len() as int;
        lemma_members_flat_concat(a, b1, p);
        assert((a + b).take(l - 1) =~= (a + b1).take(l - 1));
        lemma_flat_members_prefix(a + b, a + b1, p, l - 1);
        assert((a + b1).take(l - 1) =~= a + b1);
        assert(b.take(b.len() - 1) =~= b1.take(b.len() - 1));
        lemma_flat_members_prefix(b, b1, p, b.len() - 1);
        assert((a + b)[l - 1] == b[b.len() - 1]);
        let blk = flat_v(b[b.len() - 1].1, p.push(SegV::Key(b[b.len() - 1].0)));
        assert(members_flat(a + b, p) == members_flat(a + b1, p) + blk);
        assert(members_flat(b, p) == members_flat(b1, p) + blk);
        assert(members_flat(a, p) + members_flat(b1, p) + blk =~= members_flat(a, p) + (members_flat(
            b1,
            p,
        ) + blk));
    }
}

/// The entries of a document's normal form are its own, in another order.
pub proof fn lemma_flat_norm_multiset(d: DocV, p: Seq<SegV>)
    ensures
        flat_v(norm(d), p).to_multiset() == flat_v(d, p).to_multiset(),
    decreases d, 1int,
{
    match d {
        DocV::Array(items) => {
            lemma_norm_items(items, items.len() as int);
            if items.len() > 0 {
                lemma_flat_norm_items(items, p, items.len() as int);
            } else {
                assert(norm_items(items, 0) =~= items);
            }
        },
        DocV::Object(ms) => {
            lemma_norm_members_len(ms, ms.len() as int);
            if ms.len() > 0 {
                lemma_flat_norm_members(ms, p, ms.len() as int);
            } else {
                assert(norm_members(ms, 0) =~= ms);
            }
        },
        _ => {},
    }
}

proof fn lemma_flat_norm_items(items: Seq<DocV>, p: Seq<SegV>, n: int)
    requires
        0 <= n <= items.len(),
    ensures
        flat_items_v(norm_items(items, items.len() as int), p, n).to_multiset() == flat_items_v(
            items,
            p,
            n,
        ).to_multiset(),
    decreases items, n,
{
    broadcast use vstd::seq_lib::lemma_multiset_commutative;

    let ni = norm_items(items, items.len() as int);
    lemma_norm_items(items, items.len() as int);
    if n > 0 {
        let q = p.push(SegV::Idx((n - 1) as nat));
        lemma_flat_norm_items(items, p, n - 1);
        lemma_flat_norm_multiset(items[n - 1], q);
        assert(ni[n - 1] == norm(items[n - 1]));
        assert(flat_items_v(ni, p, n) == flat_items_v(ni, p, n - 1) + flat_v(ni[n - 1], q));
    }
}

proof fn lemma_flat_norm_members(ms: Seq<(Seq<char>, DocV)>, p: Seq<SegV>, n: int)
    requires
        0 <= n <= ms.len(),
    ensures
        members_flat(norm_members(ms, n), p).to_multiset() == flat_members_v(ms, p, n).to_multiset(),
    decreases ms, n,
{
    broadcast use vstd::seq_lib::lemma_multiset_commutative;
    broadcast use vstd::multiset::group_multiset_axioms;

    lemma_norm_members_len(ms, n);
    if n == 0 {
        assert(members_flat(norm_members(ms, 0), p) =~= Seq::<(Seq<SegV>, Seq<char>, Seq<char>)>::empty());
    } else {
        let a = norm_members(ms, n - 1);
        lemma_norm_members_len(ms, n - 1);
        let m = (ms[n - 1].0, norm(ms[n - 1].1));
        lemma_key_slot_bounds(a, m.0);
        let k = key_slot(a, m.0);
        let q = p.push(SegV::Key(ms[n - 1].0));
        lemma_flat_norm_members(ms, p, n - 1);
        assert(decreases_to!(ms => ms[n - 1]));
        lemma_flat_norm_multiset(ms[n - 1].1, q);
        let x = a.take(k);
        let y = a.skip(k);
        assert(a =~= x + y);
        assert(norm_members(ms, n) =~= x + seq![m] + y);
        lemma_members_flat_concat(x, y, p);
        lemma_members_flat_concat(x + seq![m], y, p);
        lemma_members_flat_concat(x, seq![m], p);
        assert(members_flat(seq![m], p) =~= flat_v(m.1, q)) by {
            assert(flat_members_v(seq![m], p, 0) =~= Seq::<(Seq<SegV>, Seq<char>, Seq<char>)>::empty());
        }
        let fx = members_flat(x, p);
        let fy = members_flat(y, p);
        let fm = flat_v(m.1, q);
        assert(members_flat(norm_members(ms, n), p) == fx + fm + fy);
        assert(members_flat(a, p) == fx + fy);
        assert((fx + fm + fy).to_multiset() =~= (fx + fy).to_multiset().add(fm.to_multiset()));
        assert(flat_members_v(ms, p, n) == flat_members_v(ms, p, n - 1) + flat_v(ms[n - 1].1, q));
    }
}

} // verus!
