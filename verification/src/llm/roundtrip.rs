//! Reading back what was written: a context file gives back the
//! configuration it was made from.
use vstd::prelude::*;
use vstd::utf8::{
    char_is_scalar, decode_utf8, encode_scalar, encode_utf8, encode_utf8_decode_utf8,
    encode_utf8_valid_utf8, has_width_1_encoding, has_width_2_encoding, has_width_3_encoding,
    has_width_4_encoding, is_scalar, valid_utf8,
};
use crate::llm::context::{
    apply_record, apply_records, find00, fresh_config, message_records, nl_at, parse_spec,
    read_messages, record, sections, serialize_spec, split0, split_nl, utf8_text, zero_at, ConfigV,
};

verus! {

/// No character of `s` is `c`.
pub open spec fn free_of(s: Seq<char>, c: char) -> bool {
    forall|i: int| 0 <= i < s.len() ==> s[i] != c
}

/// No byte of `b` is zero.
pub open spec fn zero_free(b: Seq<u8>) -> bool {
    forall|i: int| 0 <= i < b.len() ==> b[i] != 0
}

/// Messages a context file can hold: no NUL character, no newline in a role.
pub open spec fn msgs_storable(ms: Seq<(Seq<char>, Seq<char>)>) -> bool {
    forall|i: int|
        0 <= i < ms.len() ==> free_of(#[trigger] ms[i].0, '\0') && free_of(ms[i].1, '\0')
            && free_of(ms[i].0, '\n')
}

/// A configuration a context file can hold: no string has a NUL character,
/// and no role has a newline.
pub open spec fn storable(c: ConfigV) -> bool {
    &&& free_of(c.model, '\0')
    &&& (c.api_key_env matches Some(v) ==> free_of(v, '\0'))
    &&& (c.api_url matches Some(v) ==> free_of(v, '\0'))
    &&& msgs_storable(c.messages)
}

proof fn lemma_encode_concat(a: Seq<char>, b: Seq<char>)
    ensures
        encode_utf8(a + b) == encode_utf8(a) + encode_utf8(b),
    decreases a.len(),
{
    if a.len() == 0 {
        assert(a + b =~= b);
    } else {
        lemma_encode_concat(a.drop_first(), b);
        assert((a + b).drop_first() =~= a.drop_first() + b);
        assert((a + b)[0] == a[0]);
    }
}

proof fn lemma_scalar_nonzero(c: char)
    requires
        c != '\0',
    ensures
        zero_free(encode_scalar(c as u32)),
{
    let v = c as u32;
    char_is_scalar(c);
    assert(v != 0);
    if has_width_1_encoding(v) {
        assert((v & 0x7F) as u8 != 0) by (bit_vector)
            requires
                v != 0 && v <= 0x7F,
        ;
    } else if has_width_2_encoding(v) {
        assert((0xC0 | ((v >> 6) & 0x1F) as u8) != 0u8) by (bit_vector);
        assert((0x80 | (v & 0x3F) as u8) != 0u8) by (bit_vector);
    } else if has_width_3_encoding(v) {
        assert((0xE0 | ((v >> 12) & 0x0F) as u8) != 0u8) by (bit_vector);
        assert((0x80 | ((v >> 6) & 0x3F) as u8) != 0u8) by (bit_vector);
        assert((0x80 | (v & 0x3F) as u8) != 0u8) by (bit_vector);
    } else {
        assert((0xF0 | ((v >> 18) & 0x7) as u8) != 0u8) by (bit_vector);
        assert((0x80 | ((v >> 12) & 0x3F) as u8) != 0u8) by (bit_vector);
        assert((0x80 | ((v >> 6) & 0x3F) as u8) != 0u8) by (bit_vector);
        assert((0x80 | (v & 0x3F) as u8) != 0u8) by (bit_vector);
    }
}

proof fn lemma_encode_zero_free(s: Seq<char>)
    requires
        free_of(s, '\0'),
    ensures
        zero_free(encode_utf8(s)),
    decreases s.len(),
{
    if s.len() > 0 {
        lemma_scalar_nonzero(s[0]);
        lemma_encode_zero_free(s.drop_first());
        let a = encode_scalar(s[0] as u32);
        let b = encode_utf8(s.drop_first());
        assert(encode_utf8(s) == a + b);
        assert forall|i: int| 0 <= i < (a + b).len() implies (a + b)[i] != 0 by {
            if i < a.len() {
                assert((a + b)[i] == a[i]);
            } else {
                assert((a + b)[i] == b[i - a.len()]);
            }
        }
    }
}

proof fn lemma_encode_newline()
    ensures
        encode_utf8(seq!['\n']) == seq![10u8],
{
    let v = '\n' as u32;
    assert(v == 10);
    assert((10u32 & 0x7F) as u8 == 10u8) by (bit_vector);
    assert(seq!['\n'].drop_first() =~= Seq::<char>::empty());
    assert(seq!['\n'][0] as u32 == 10u32);
    assert(has_width_1_encoding(10u32));
    assert(encode_scalar(10u32) =~= seq![10u8]);
    assert(encode_utf8(Seq::<char>::empty()) =~= Seq::<u8>::empty());
    assert(encode_utf8(seq!['\n']) == encode_scalar(10u32) + encode_utf8(Seq::<char>::empty()));
    assert(encode_utf8(seq!['\n']) =~= seq![10u8]);
}

/// The bytes of a record before its zero byte decode to key, newline, value.
proof fn lemma_record_text(k: Seq<char>, v: Seq<char>)
    ensures
        utf8_text(encode_utf8(k) + seq![10u8] + encode_utf8(v)) == k + seq!['\n'] + v,
{
    lemma_encode_newline();
    lemma_encode_concat(k, seq!['\n']);
    lemma_encode_concat(k + seq!['\n'], v);
    encode_utf8_valid_utf8(k + seq!['\n'] + v);
    encode_utf8_decode_utf8(k + seq!['\n'] + v);
}

proof fn lemma_nl_split(k: Seq<char>, v: Seq<char>)
    requires
        free_of(k, '\n'),
    ensures
        split_nl(k + seq!['\n'] + v) == Some((k, v)),
    decreases k.len(),
{
    let s = k + seq!['\n'] + v;
    lemma_nl_at_prefix(k, v);
    assert(s.take(k.len() as int) =~= k);
    assert(s.skip(k.len() as int + 1) =~= v);
}

proof fn lemma_nl_at_prefix(k: Seq<char>, v: Seq<char>)
    requires
        free_of(k, '\n'),
    ensures
        nl_at(k + seq!['\n'] + v) == Some(k.len() as int),
    decreases k.len(),
{
    let s = k + seq!['\n'] + v;
    if k.len() == 0 {
        assert(s[0] == '\n');
    } else {
        assert(s[0] == k[0]);
        assert(s.drop_first() =~= k.drop_first() + seq!['\n'] + v);
        lemma_nl_at_prefix(k.drop_first(), v);
    }
}

proof fn lemma_zero_at_end(x: Seq<u8>, rest: Seq<u8>)
    requires
        zero_free(x),
    ensures
        zero_at(x + seq![0u8] + rest) == Some(x.len() as int),
    decreases x.len(),
{
    let d = x + seq![0u8] + rest;
    if x.len() == 0 {
        assert(d[0] == 0);
    } else {
        assert(d[0] == x[0]);
        assert(d.drop_first() =~= x.drop_first() + seq![0u8] + rest);
        lemma_zero_at_end(x.drop_first(), rest);
    }
}

proof fn lemma_zero_at_none(x: Seq<u8>)
    requires
        zero_free(x),
    ensures
        zero_at(x) is None,
    decreases x.len(),
{
    if x.len() > 0 {
        assert(x.drop_first().len() < x.len());
        lemma_zero_at_none(x.drop_first());
    }
}

/// Splitting at zero bytes takes a zero-free piece off the front.
proof fn lemma_split0_front(x: Seq<u8>, rest: Seq<u8>)
    requires
        zero_free(x),
    ensures
        split0(x + seq![0u8] + rest) == seq![x] + split0(rest),
{
    lemma_zero_at_end(x, rest);
    let d = x + seq![0u8] + rest;
    assert(d.take(x.len() as int) =~= x);
    assert(d.skip(x.len() as int + 1) =~= rest);
}

proof fn lemma_split0_single(x: Seq<u8>)
    requires
        zero_free(x),
    ensures
        split0(x) == seq![x],
{
    lemma_zero_at_none(x);
}

/// The bytes of a record without its closing zero.
pub open spec fn rec_body(k: Seq<char>, v: Seq<char>) -> Seq<u8> {
    encode_utf8(k) + seq![10u8] + encode_utf8(v)
}

proof fn lemma_rec_body(k: Seq<char>, v: Seq<char>)
    requires
        free_of(k, '\0'),
        free_of(v, '\0'),
    ensures
        zero_free(rec_body(k, v)),
        rec_body(k, v).len() > 0,
        record(k, v) == rec_body(k, v) + seq![0u8],
        utf8_text(rec_body(k, v)) == k + seq!['\n'] + v,
{
    lemma_encode_zero_free(k);
    lemma_encode_zero_free(v);
    let a = encode_utf8(k);
    let b = encode_utf8(v);
    let x = a + seq![10u8] + b;
    assert forall|i: int| 0 <= i < x.len() implies x[i] != 0 by {
        if i < a.len() {
            assert(x[i] == a[i]);
        } else if i == a.len() {
            assert(x[i] == 10u8);
        } else {
            assert(x[i] == b[i - a.len() - 1]);
        }
    }
    lemma_record_text(k, v);
}

/// `message_records` read from the front.
proof fn lemma_message_records_front(ms: Seq<(Seq<char>, Seq<char>)>)
    requires
        ms.len() > 0,
    ensures
        message_records(ms) == record(ms[0].0, ms[0].1) + message_records(ms.drop_first()),
    decreases ms.len(),
{
    if ms.len() == 1 {
        assert(ms.drop_last() =~= Seq::<(Seq<char>, Seq<char>)>::empty());
        assert(ms.drop_first() =~= Seq::<(Seq<char>, Seq<char>)>::empty());
        assert(ms.last() == ms[0]);
        assert(message_records(Seq::<(Seq<char>, Seq<char>)>::empty()) =~= Seq::<u8>::empty());
        assert(message_records(ms) =~= record(ms[0].0, ms[0].1));
    } else {
        lemma_message_records_front(ms.drop_last());
        assert(ms.drop_last().drop_first() =~= ms.drop_first().drop_last());
        assert(ms.drop_first().last() == ms.last());
        assert(ms.drop_last()[0] == ms[0]);
        assert(message_records(ms) =~= record(ms[0].0, ms[0].1) + message_records(
            ms.drop_first(),
        ));
    }
}

/// The message records read back give the messages.
proof fn lemma_read_messages(ms: Seq<(Seq<char>, Seq<char>)>)
    requires
        msgs_storable(ms),
    ensures
        read_messages(split0(message_records(ms))) == ms,
    decreases ms.len(),
{
    if ms.len() == 0 {
        lemma_zero_at_none(Seq::<u8>::empty());
        let e = Seq::<u8>::empty();
        assert(split0(e) == seq![e]);
        assert(seq![e].drop_first() =~= Seq::<Seq<u8>>::empty());
        assert(seq![e][0] == e);
        assert(read_messages(Seq::<Seq<u8>>::empty()) =~= Seq::<(Seq<char>, Seq<char>)>::empty());
        assert(read_messages(seq![e]) =~= Seq::<(Seq<char>, Seq<char>)>::empty());
    } else {
        let (r, c) = ms[0];
        assert(free_of(ms[0].0, '\0'));
        lemma_rec_body(r, c);
        lemma_message_records_front(ms);
        let rest = message_records(ms.drop_first());
        assert(message_records(ms) == rec_body(r, c) + seq![0u8] + rest);
        lemma_split0_front(rec_body(r, c), rest);
        let pieces = seq![rec_body(r, c)] + split0(rest);
        assert(pieces[0] == rec_body(r, c));
        assert(pieces.drop_first() =~= split0(rest));
        lemma_nl_split(r, c);
        assert(msgs_storable(ms.drop_first())) by {
            assert forall|i: int| 0 <= i < ms.drop_first().len() implies free_of(
                #[trigger] ms.drop_first()[i].0,
                '\0',
            ) && free_of(ms.drop_first()[i].1, '\0') && free_of(ms.drop_first()[i].0, '\n') by {
                assert(ms.drop_first()[i] == ms[i + 1]);
            }
        }
        lemma_read_messages(ms.drop_first());
        assert(read_messages(pieces) =~= seq![(r, c)] + ms.drop_first());
        assert(seq![(r, c)] + ms.drop_first() =~= ms);
    }
}

/// Pieces joined with zero bytes between them.
pub open spec fn join0(xs: Seq<Seq<u8>>) -> Seq<u8>
    decreases xs.len(),
{
    if xs.len() <= 1 {
        if xs.len() == 1 {
            xs[0]
        } else {
            Seq::empty()
        }
    } else {
        xs[0] + seq![0u8] + join0(xs.drop_first())
    }
}

pub open spec fn all_pieces(xs: Seq<Seq<u8>>) -> bool {
    forall|i: int| 0 <= i < xs.len() ==> zero_free(#[trigger] xs[i]) && xs[i].len() > 0
}

/// No two zero bytes stand side by side.
pub open spec fn pair_free(s: Seq<u8>) -> bool {
    forall|i: int| 0 <= i < s.len() - 1 ==> !(#[trigger] s[i] == 0 && s[i + 1] == 0)
}

proof fn lemma_join0(xs: Seq<Seq<u8>>)
    requires
        xs.len() >= 1,
        all_pieces(xs),
    ensures
        split0(join0(xs)) == xs,
        pair_free(join0(xs) + seq![0u8]),
        (join0(xs) + seq![0u8]).len() > 0,
        (join0(xs) + seq![0u8])[0] != 0,
    decreases xs.len(),
{
    assert(zero_free(xs[0]) && xs[0].len() > 0);
    if xs.len() == 1 {
        lemma_split0_single(xs[0]);
        assert(seq![xs[0]] =~= xs);
        let s = xs[0] + seq![0u8];
        assert forall|i: int| 0 <= i < s.len() - 1 implies !(#[trigger] s[i] == 0 && s[i + 1] == 0) by {
            assert(s[i] == xs[0][i]);
        }
    } else {
        let rest = xs.drop_first();
        assert forall|i: int| 0 <= i < rest.len() implies zero_free(#[trigger] rest[i]) && rest[i].len() > 0 by {
            assert(rest[i] == xs[i + 1]);
        }
        lemma_join0(rest);
        lemma_split0_front(xs[0], join0(rest));
        assert(seq![xs[0]] + rest =~= xs);
        let c2 = join0(rest) + seq![0u8];
        let s = join0(xs) + seq![0u8];
        assert(s =~= xs[0] + seq![0u8] + c2);
        let n0 = xs[0].len();
        assert forall|i: int| 0 <= i < s.len() - 1 implies !(#[trigger] s[i] == 0 && s[i + 1] == 0) by {
            if i < n0 {
                assert(s[i] == xs[0][i]);
            } else if i == n0 {
                assert(s[i + 1] == c2[0]);
            } else {
                assert(s[i] == c2[i - n0 - 1]);
                assert(s[i + 1] == c2[i - n0]);
            }
        }
        assert(s[0] == xs[0][0]);
    }
}

proof fn lemma_find00(d: Seq<u8>, j: int, p: int)
    requires
        0 <= j <= p,
        p + 1 < d.len(),
        d[p] == 0 && d[p + 1] == 0,
        forall|i: int| j <= i < p ==> !(#[trigger] d[i] == 0 && d[i + 1] == 0),
    ensures
        find00(d, j) == Some(p),
    decreases p - j,
{
    if j < p {
        assert(!(d[j] == 0 && d[j + 1] == 0));
        lemma_find00(d, j + 1, p);
    }
}

/// Settings records `xs` joined, two zero bytes, then `m`: the settings part
/// is `xs` joined and the messages part is `m`.
proof fn lemma_sections(xs: Seq<Seq<u8>>, m: Seq<u8>)
    requires
        xs.len() >= 1,
        all_pieces(xs),
    ensures
        sections(join0(xs) + seq![0u8] + seq![0u8] + m) == (join0(xs), m),
{
    lemma_join0(xs);
    let c = join0(xs) + seq![0u8];
    let d = c + seq![0u8] + m;
    let p = c.len() - 1;
    assert forall|i: int| 0 <= i < p implies !(#[trigger] d[i] == 0 && d[i + 1] == 0) by {
        assert(d[i] == c[i]);
        assert(d[i + 1] == c[i + 1]);
    }
    assert(d[p] == 0);
    assert(d[p + 1] == 0);
    lemma_find00(d, 0, p);
    assert(d.take(p) =~= join0(xs));
    assert(d.skip(p + 2) =~= m);
    assert(join0(xs) + seq![0u8] + seq![0u8] + m =~= d);
}

proof fn lemma_apply_key(c: ConfigV, k: Seq<char>, v: Seq<char>)
    requires
        free_of(k, '\0'),
        free_of(v, '\0'),
        free_of(k, '\n'),
    ensures
        apply_record(c, rec_body(k, v)) == (if k == "model"@ {
            ConfigV { model: v, ..c }
        } else if k == "api_key_env"@ {
            ConfigV { api_key_env: Some(v), ..c }
        } else if k == "api_url"@ {
            ConfigV { api_url: Some(v), ..c }
        } else {
            c
        }),
{
    lemma_rec_body(k, v);
    lemma_nl_split(k, v);
}

/// Reading back a context file gives the configuration it was written
/// from, whatever the default model: the settings (model, key variable,
/// address) and every message, in order, as long as no string holds a NUL
/// character and no role holds a newline.
pub proof fn parse_reads_back_serialize(c: ConfigV, env: Option<Seq<char>>)
    requires
        storable(c),
    ensures
        parse_spec(serialize_spec(c), env) == c,
{
    reveal_strlit("model");
    reveal_strlit("api_key_env");
    reveal_strlit("api_url");
    let km = "model"@;
    let kk = "api_key_env"@;
    let ku = "api_url"@;
    assert(free_of(km, '\0') && free_of(km, '\n'));
    assert(free_of(kk, '\0') && free_of(kk, '\n'));
    assert(free_of(ku, '\0') && free_of(ku, '\n'));
    assert(km != kk && km != ku && kk != ku) by {
        assert(km.len() != kk.len());
        assert(km.len() != ku.len());
        assert(kk.len() != ku.len());
    }
    let bm = rec_body(km, c.model);
    lemma_rec_body(km, c.model);
    let ms = c.messages;
    let tail = message_records(ms);
    let f0 = fresh_config(env);
    let c1 = ConfigV { model: c.model, ..f0 };
    lemma_apply_key(f0, km, c.model);
    assert(apply_records(c1, Seq::<Seq<u8>>::empty()) == c1);
    let xs: Seq<Seq<u8>> = match (c.api_key_env, c.api_url) {
        (None, None) => seq![bm],
        (Some(k), None) => seq![bm, rec_body(kk, k)],
        (None, Some(u)) => seq![bm, rec_body(ku, u)],
        (Some(k), Some(u)) => seq![bm, rec_body(kk, k), rec_body(ku, u)],
    };
    match (c.api_key_env, c.api_url) {
        (None, None) => {
            assert(serialize_spec(c) =~= join0(xs) + seq![0u8] + seq![0u8] + tail);
            assert(xs.drop_first() =~= Seq::<Seq<u8>>::empty());
            assert(xs[0] == bm);
            assert(apply_records(f0, xs) == c1);
        },
        (Some(k), None) => {
            lemma_rec_body(kk, k);
            assert(join0(xs.drop_first()) == rec_body(kk, k));
            assert(serialize_spec(c) =~= join0(xs) + seq![0u8] + seq![0u8] + tail);
            lemma_apply_key(c1, kk, k);
            assert(xs.drop_first().drop_first() =~= Seq::<Seq<u8>>::empty());
            assert(xs[0] == bm);
            assert(xs.drop_first()[0] == rec_body(kk, k));
            let c2 = ConfigV { api_key_env: Some(k), ..c1 };
            assert(apply_records(c2, Seq::<Seq<u8>>::empty()) == c2);
            assert(apply_records(c1, xs.drop_first()) == c2);
            assert(apply_records(f0, xs) == apply_records(c1, xs.drop_first()));
            assert(apply_records(f0, xs) == c2);
        },
        (None, Some(u)) => {
            lemma_rec_body(ku, u);
            assert(join0(xs.drop_first()) == rec_body(ku, u));
            assert(serialize_spec(c) =~= join0(xs) + seq![0u8] + seq![0u8] + tail);
            lemma_apply_key(c1, ku, u);
            assert(xs.drop_first().drop_first() =~= Seq::<Seq<u8>>::empty());
            assert(xs[0] == bm);
            assert(xs.drop_first()[0] == rec_body(ku, u));
            let c2 = ConfigV { api_url: Some(u), ..c1 };
            assert(apply_records(c2, Seq::<Seq<u8>>::empty()) == c2);
            assert(apply_records(f0, xs) == c2);
        },
        (Some(k), Some(u)) => {
            lemma_rec_body(kk, k);
            lemma_rec_body(ku, u);
            assert(join0(xs.drop_first().drop_first()) == rec_body(ku, u));
            assert(join0(xs.drop_first()) =~= rec_body(kk, k) + seq![0u8] + rec_body(ku, u));
            assert(serialize_spec(c) =~= join0(xs) + seq![0u8] + seq![0u8] + tail);
            let c2 = ConfigV { api_key_env: Some(k), ..c1 };
            lemma_apply_key(c1, kk, k);
            lemma_apply_key(c2, ku, u);
            assert(xs.drop_first().drop_first().drop_first() =~= Seq::<Seq<u8>>::empty());
            assert(xs[0] == bm);
            assert(xs.drop_first()[0] == rec_body(kk, k));
            assert(xs.drop_first().drop_first()[0] == rec_body(ku, u));
            let c3 = ConfigV { api_url: Some(u), ..c2 };
            assert(apply_records(c3, Seq::<Seq<u8>>::empty()) == c3);
            assert(apply_records(c2, xs.drop_first().drop_first()) == c3);
            assert(apply_records(c1, xs.drop_first()) == apply_records(
                c2,
                xs.drop_first().drop_first(),
            ));
            assert(apply_records(f0, xs) == apply_records(c1, xs.drop_first()));
            assert(apply_records(f0, xs) == c3);
        },
    }
    assert(all_pieces(xs));
    lemma_sections(xs, tail);
    lemma_join0(xs);
    lemma_read_messages(ms);
}

} // verus!
