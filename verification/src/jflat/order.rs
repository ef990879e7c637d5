//! The order of paths: segment by segment, an index before a key, indices
//! by value, keys by their characters, a path before its extensions.
use vstd::prelude::*;
use crate::jflat::path::{path_view, Seg, SegV};
use crate::text::chars_of;

verus! {

/// `a` comes before `b` character by character (code points), a prefix first.
pub open spec fn chars_lt(a: Seq<char>, b: Seq<char>) -> bool
    decreases a.len(),
{
    if a.len() == 0 {
        b.len() > 0
    } else if b.len() == 0 {
        false
    } else if a[0] != b[0] {
        (a[0] as int) < (b[0] as int)
    } else {
        chars_lt(a.drop_first(), b.drop_first())
    }
}

pub open spec fn seg_lt(a: SegV, b: SegV) -> bool {
    match (a, b) {
        (SegV::Idx(x), SegV::Idx(y)) => x < y,
        (SegV::Key(x), SegV::Key(y)) => chars_lt(x, y),
        (SegV::Idx(_), SegV::Key(_)) => true,
        (SegV::Key(_), SegV::Idx(_)) => false,
    }
}

/// `a` comes before `b`: at the first segment where they differ, or `a` is
/// a proper prefix of `b`.
pub open spec fn path_lt(a: Seq<SegV>, b: Seq<SegV>) -> bool
    decreases a.len(),
{
    if a.len() == 0 {
        b.len() > 0
    } else if b.len() == 0 {
        false
    } else if a[0] != b[0] {
        seg_lt(a[0], b[0])
    } else {
        path_lt(a.drop_first(), b.drop_first())
    }
}

pub proof fn lemma_chars_lt_transitive(a: Seq<char>, b: Seq<char>, c: Seq<char>)
    requires
        chars_lt(a, b),
        chars_lt(b, c),
    ensures
        chars_lt(a, c),
    decreases a.len(),
{
    if a.len() > 0 && b.len() > 0 && c.len() > 0 && a[0] == b[0] && b[0] == c[0] {
        lemma_chars_lt_transitive(a.drop_first(), b.drop_first(), c.drop_first());
    }
}

pub proof fn lemma_chars_lt_irreflexive(a: Seq<char>)
    ensures
        !chars_lt(a, a),
    decreases a.len(),
{
    if a.len() > 0 {
        lemma_chars_lt_irreflexive(a.drop_first());
    }
}

pub proof fn lemma_seg_lt_transitive(a: SegV, b: SegV, c: SegV)
    requires
        seg_lt(a, b),
        seg_lt(b, c),
    ensures
        seg_lt(a, c),
{
    match (a, b, c) {
        (SegV::Key(x), SegV::Key(y), SegV::Key(z)) => lemma_chars_lt_transitive(x, y, z),
        _ => {},
    }
}

pub proof fn lemma_seg_lt_irreflexive(a: SegV)
    ensures
        !seg_lt(a, a),
{
    match a {
        SegV::Key(x) => lemma_chars_lt_irreflexive(x),
        _ => {},
    }
}

/// The order of paths is transitive.
pub proof fn lemma_path_lt_transitive(a: Seq<SegV>, b: Seq<SegV>, c: Seq<SegV>)
    requires
        path_lt(a, b),
        path_lt(b, c),
    ensures
        path_lt(a, c),
    decreases a.len(),
{
    if a.len() > 0 && b.len() > 0 && c.len() > 0 {
        if a[0] == b[0] && b[0] == c[0] {
            lemma_path_lt_transitive(a.drop_first(), b.drop_first(), c.drop_first());
        } else if a[0] != b[0] && b[0] != c[0] {
            lemma_seg_lt_transitive(a[0], b[0], c[0]);
            if a[0] == c[0] {
                lemma_seg_lt_irreflexive(a[0]);
            }
        }
    }
}

/// Of two different keys, one comes before the other.
pub proof fn lemma_chars_lt_total(a: Seq<char>, b: Seq<char>)
    requires
        a != b,
    ensures
        chars_lt(a, b) || chars_lt(b, a),
    decreases a.len(),
{
    if a.len() > 0 && b.len() > 0 && a[0] == b[0] {
        if a.drop_first() == b.drop_first() {
            assert(a =~= seq![a[0]] + a.drop_first());
            assert(b =~= seq![b[0]] + b.drop_first());
        }
        lemma_chars_lt_total(a.drop_first(), b.drop_first());
    } else if a.len() == 0 && b.len() == 0 {
        assert(a =~= b);
    }
}

/// No path comes before itself.
pub proof fn lemma_path_lt_irreflexive(a: Seq<SegV>)
    ensures
        !path_lt(a, a),
    decreases a.len(),
{
    if a.len() > 0 {
        lemma_path_lt_irreflexive(a.drop_first());
    }
}

/// Whether the key `a` comes before the key `b`.
pub fn str_less(a: &str, b: &str) -> (r: bool)
    ensures
        r == chars_lt(a@, b@),
{
    let av = chars_of(a);
    let bv = chars_of(b);
    let mut i: usize = 0;
    assert(av@.skip(0) =~= av@);
    assert(bv@.skip(0) =~= bv@);
    while i < av.len() && i < bv.len()
        invariant
            av@ == a@,
            bv@ == b@,
            i <= av@.len(),
            i <= bv@.len(),
            chars_lt(a@, b@) == chars_lt(av@.skip(i as int), bv@.skip(i as int)),
        decreases av@.len() - i,
    {
        if av[i] != bv[i] {
            assert(av@.skip(i as int)[0] == av@[i as int]);
            assert(bv@.skip(i as int)[0] == bv@[i as int]);
            return av[i] < bv[i];
        }
        assert(av@.skip(i as int).drop_first() =~= av@.skip(i + 1));
        assert(bv@.skip(i as int).drop_first() =~= bv@.skip(i + 1));
        i = i + 1;
    }
    i == av.len() && i < bv.len()
}

/// Whether the segment `a` comes before `b`.
pub fn seg_less(a: &Seg, b: &Seg) -> (r: bool)
    ensures
        r == seg_lt(a@, b@),
{
    match (a, b) {
        (Seg::Idx(x), Seg::Idx(y)) => *x < *y,
        (Seg::Key(x), Seg::Key(y)) => str_less(x.as_str(), y.as_str()),
        (Seg::Idx(_), Seg::Key(_)) => true,
        (Seg::Key(_), Seg::Idx(_)) => false,
    }
}

/// Whether the segments are the same.
pub fn seg_same(a: &Seg, b: &Seg) -> (r: bool)
    ensures
        r == (a@ == b@),
{
    match (a, b) {
        (Seg::Idx(x), Seg::Idx(y)) => *x == *y,
        (Seg::Key(x), Seg::Key(y)) => crate::text::eq_str(x.as_str(), y.as_str()),
        _ => false,
    }
}

/// Whether the path `a` comes before `b`.
pub fn path_less(a: &Vec<Seg>, b: &Vec<Seg>) -> (r: bool)
    ensures
        r == path_lt(path_view(a@), path_view(b@)),
{
    let ghost av = path_view(a@);
    let ghost bv = path_view(b@);
    let mut i: usize = 0;
    assert(av.skip(0) =~= av);
    assert(bv.skip(0) =~= bv);
    while i < a.len() && i < b.len()
        invariant
            av == path_view(a@),
            bv == path_view(b@),
            i <= a@.len(),
            i <= b@.len(),
            path_lt(av, bv) == path_lt(av.skip(i as int), bv.skip(i as int)),
        decreases a@.len() - i,
    {
        if !seg_same(&a[i], &b[i]) {
            return seg_less(&a[i], &b[i]);
        }
        assert(av.skip(i as int).drop_first() =~= av.skip(i + 1));
        assert(bv.skip(i as int).drop_first() =~= bv.skip(i + 1));
        i = i + 1;
    }
    i == a.len() && i < b.len()
}

} // verus!
