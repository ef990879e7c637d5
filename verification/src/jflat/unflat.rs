//! Building a document back from its flat lines.
use vstd::prelude::*;
use crate::jflat::doc::{
    doc_view, items_view, lemma_items_view, lemma_members_view, members_view, Doc, DocV,
};
use crate::jflat::order::{chars_lt, str_less};
use crate::jflat::doc::Fmt;
use crate::jflat::line::{lines, lines_of, split_breaks, split_line, split_line_breaks, split_spec};
use crate::jflat::path::{canon_path, copy_path, parse_path, parse_path_spec, path_text, path_view, Seg, SegV};
use crate::jsonlite::{unescape_body, unquote, unquote_inner};
use crate::text::eq_str;

verus! {

/// The `serde_json::Value` type, carried through unread.
#[verifier::external_type_specification]
#[verifier::external_body]
pub struct ExJsonValue(serde_json::Value);

/// What `serde_json::from_str::<serde_json::Value>` gives for a text: the
/// document, or the message of its error.
pub uninterp spec fn json_parsed(s: Seq<char>) -> Result<DocV, Seq<char>>;

/// Turns a parsed JSON value into a `Doc`, variant by variant (a number as
/// its text, object members in the map's order).
#[verifier::external_body]
fn doc_of_json(v: serde_json::Value) -> Doc {
    match v {
        serde_json::Value::Null => Doc::Null,
        serde_json::Value::Bool(b) => Doc::Bool(b),
        serde_json::Value::Number(n) => Doc::Number(n.to_string()),
        serde_json::Value::String(s) => Doc::Str(s),
        serde_json::Value::Array(a) => Doc::Array(a.into_iter().map(doc_of_json).collect()),
        serde_json::Value::Object(m) => Doc::Object(
            m.into_iter().map(|(k, x)| (k, doc_of_json(x))).collect(),
        ),
    }
}

/// Parses `s` as JSON with `serde_json::from_str`; the outcome depends on
/// the text alone and is named `json_parsed` (the error as its message).
#[verifier::external_body]
pub(crate) fn parse_json(s: &str) -> (r: Result<Doc, String>)
    ensures
        match json_parsed(s@) {
            Ok(d) => r matches Ok(x) && x@ == d,
            Err(e) => r matches Err(m) && m@ == e,
        },
{
    serde_json::from_str::<serde_json::Value>(s).map(doc_of_json).map_err(|e| e.to_string())
}

/// The node a leaf line of type `t` and value `v` stands for.
pub open spec fn leaf_spec(t: Seq<char>, v: Seq<char>) -> Result<DocV, Seq<char>> {
    if t == "null"@ {
        Ok(DocV::Null)
    } else if t == "boolean"@ {
        Ok(DocV::Bool(v == "true"@))
    } else if t == "number"@ {
        json_parsed(v)
    } else if t == "string"@ {
        Ok(DocV::Str(unescape_body(unquote_inner(v))))
    } else if t == "time"@ {
        Ok(DocV::Str(v))
    } else if t == "object"@ {
        Ok(DocV::Object(Seq::empty()))
    } else if t == "array"@ {
        Ok(DocV::Array(Seq::empty()))
    } else {
        Err("unknown type: "@ + t)
    }
}

/// The node for a leaf line: `null`, a boolean (`true` or anything else),
/// a number read as JSON, an unquoted string, a time kept as a string, an
/// empty object or array; another type is an error.
pub fn leaf_to_json(typ: &str, val: &str) -> (r: Result<Doc, String>)
    ensures
        match leaf_spec(typ@, val@) {
            Ok(d) => r matches Ok(x) && x@ == d,
            Err(e) => r matches Err(m) && m@ == e,
        },
{
    if eq_str(typ, "null") {
        Ok(Doc::Null)
    } else if eq_str(typ, "boolean") {
        Ok(Doc::Bool(eq_str(val, "true")))
    } else if eq_str(typ, "number") {
        parse_json(val)
    } else if eq_str(typ, "string") {
        Ok(Doc::Str(unquote(val)))
    } else if eq_str(typ, "time") {
        Ok(Doc::Str(val.to_string()))
    } else if eq_str(typ, "object") {
        let d = Doc::Object(Vec::new());
        assert(members_view(Seq::<(String, Doc)>::empty(), 0) =~= Seq::empty());
        Ok(d)
    } else if eq_str(typ, "array") {
        let d = Doc::Array(Vec::new());
        assert(items_view(Seq::<Doc>::empty(), 0) =~= Seq::empty());
        Ok(d)
    } else {
        let mut m = String::new();
        crate::text::push_str(&mut m, "unknown type: ");
        crate::text::push_str(&mut m, typ);
        Err(m)
    }
}

/// The index of the first member with key `k`, or the member count.
pub open spec fn key_find(ms: Seq<(Seq<char>, DocV)>, k: Seq<char>) -> int
    decreases ms.len(),
{
    if ms.len() == 0 || ms[0].0 == k {
        0
    } else {
        1 + key_find(ms.drop_first(), k)
    }
}

/// Where a new key `k` goes: before the first member whose key comes after
/// it (members are kept in key order).
pub open spec fn key_slot(ms: Seq<(Seq<char>, DocV)>, k: Seq<char>) -> int
    decreases ms.len(),
{
    if ms.len() == 0 || chars_lt(k, ms[0].0) {
        0
    } else {
        1 + key_slot(ms.drop_first(), k)
    }
}

/// `items` made long enough to hold index `i`, with nulls.
pub open spec fn padded(items: Seq<DocV>, i: nat) -> Seq<DocV> {
    if i < items.len() {
        items
    } else {
        items + Seq::new((i + 1 - items.len()) as nat, |j: int| DocV::Null)
    }
}

/// `root` with the leaf of type `t` and value `v` set at `path`: a null
/// node on the way becomes an object (before a key) or an array (before an
/// index); a missing key is added in key order with a null child; an array
/// is filled with nulls up to the index.
pub open spec fn insert_spec(root: DocV, path: Seq<SegV>, t: Seq<char>, v: Seq<char>) -> Result<
    DocV,
    Seq<char>,
>
    decreases path.len(),
{
    if path.len() == 0 {
        leaf_spec(t, v)
    } else {
        match path[0] {
            SegV::Key(k) => {
                let node = if root is Null {
                    DocV::Object(Seq::empty())
                } else {
                    root
                };
                match node {
                    DocV::Object(ms) => {
                        let j = key_find(ms, k);
                        let child = if j < ms.len() {
                            ms[j].1
                        } else {
                            DocV::Null
                        };
                        match insert_spec(child, path.drop_first(), t, v) {
                            Ok(c) => Ok(
                                DocV::Object(
                                    if j < ms.len() {
                                        ms.update(j, (k, c))
                                    } else {
                                        ms.insert(key_slot(ms, k), (k, c))
                                    },
                                ),
                            ),
                            Err(e) => Err(e),
                        }
                    },
                    _ => Err("expected object node"@),
                }
            },
            SegV::Idx(i) => {
                let node = if root is Null {
                    DocV::Array(Seq::empty())
                } else {
                    root
                };
                match node {
                    DocV::Array(items) => {
                        let p = padded(items, i);
                        match insert_spec(p[i as int], path.drop_first(), t, v) {
                            Ok(c) => Ok(DocV::Array(p.update(i as int, c))),
                            Err(e) => Err(e),
                        }
                    },
                    _ => Err("expected array node"@),
                }
            },
        }
    }
}

proof fn lemma_key_find(ms: Seq<(Seq<char>, DocV)>, k: Seq<char>)
    ensures
        0 <= key_find(ms, k) <= ms.len(),
        key_find(ms, k) < ms.len() ==> ms[key_find(ms, k)].0 == k,
        forall|j: int| 0 <= j < key_find(ms, k) ==> #[trigger] ms[j].0 != k,
    decreases ms.len(),
{
    if ms.len() > 0 && ms[0].0 != k {
        lemma_key_find(ms.drop_first(), k);
        assert forall|j: int| 0 <= j < key_find(ms, k) implies #[trigger] ms[j].0 != k by {
            if j > 0 {
                assert(ms[j] == ms.drop_first()[j - 1]);
            }
        }
    }
}

proof fn lemma_key_slot(ms: Seq<(Seq<char>, DocV)>, k: Seq<char>)
    ensures
        0 <= key_slot(ms, k) <= ms.len(),
        key_slot(ms, k) < ms.len() ==> chars_lt(k, ms[key_slot(ms, k)].0),
        forall|j: int| 0 <= j < key_slot(ms, k) ==> !chars_lt(k, #[trigger] ms[j].0),
    decreases ms.len(),
{
    if ms.len() > 0 && !chars_lt(k, ms[0].0) {
        lemma_key_slot(ms.drop_first(), k);
        assert forall|j: int| 0 <= j < key_slot(ms, k) implies !chars_lt(k, #[trigger] ms[j].0) by {
            if j > 0 {
                assert(ms[j] == ms.drop_first()[j - 1]);
            }
        }
    }
}

/// The view of a whole member list.
pub open spec fn mview(ms: Seq<(String, Doc)>) -> Seq<(Seq<char>, DocV)> {
    members_view(ms, ms.len() as int)
}

/// The view of a whole item list.
pub open spec fn iview(items: Seq<Doc>) -> Seq<DocV> {
    items_view(items, items.len() as int)
}

/// The index of the first member with key `k`, or the member count.
fn find_key(ms: &Vec<(String, Doc)>, k: &String) -> (j: usize)
    ensures
        j == key_find(mview(ms@), k@),
        j <= ms@.len(),
{
    proof {
        lemma_members_view(ms@, ms@.len() as int);
        lemma_key_find(mview(ms@), k@);
    }
    let mut j: usize = 0;
    while j < ms.len()
        invariant
            j <= ms@.len(),
            mview(ms@).len() == ms@.len(),
            forall|x: int| 0 <= x < ms@.len() ==> #[trigger] mview(ms@)[x].0 == ms@[x].0@,
            0 <= key_find(mview(ms@), k@) <= ms@.len(),
            forall|x: int| 0 <= x < key_find(mview(ms@), k@) ==> #[trigger] mview(ms@)[x].0 != k@,
            key_find(mview(ms@), k@) < ms@.len() ==> mview(ms@)[key_find(mview(ms@), k@)].0 == k@,
            j <= key_find(mview(ms@), k@),
        decreases ms@.len() - j,
    {
        if eq_str(ms[j].0.as_str(), k.as_str()) {
            assert(mview(ms@)[j as int].0 == k@);
            return j;
        }
        assert(mview(ms@)[j as int].0 != k@);
        j = j + 1;
    }
    j
}

/// Where a new key `k` goes among the members.
fn find_slot(ms: &Vec<(String, Doc)>, k: &String) -> (j: usize)
    ensures
        j == key_slot(mview(ms@), k@),
        j <= ms@.len(),
{
    proof {
        lemma_members_view(ms@, ms@.len() as int);
        lemma_key_slot(mview(ms@), k@);
    }
    let mut j: usize = 0;
    while j < ms.len()
        invariant
            j <= ms@.len(),
            mview(ms@).len() == ms@.len(),
            forall|x: int| 0 <= x < ms@.len() ==> #[trigger] mview(ms@)[x].0 == ms@[x].0@,
            0 <= key_slot(mview(ms@), k@) <= ms@.len(),
            forall|x: int|
                0 <= x < key_slot(mview(ms@), k@) ==> !chars_lt(k@, #[trigger] mview(ms@)[x].0),
            key_slot(mview(ms@), k@) < ms@.len() ==> chars_lt(
                k@,
                mview(ms@)[key_slot(mview(ms@), k@)].0,
            ),
            j <= key_slot(mview(ms@), k@),
        decreases ms@.len() - j,
    {
        if str_less(k.as_str(), ms[j].0.as_str()) {
            assert(chars_lt(k@, mview(ms@)[j as int].0));
            return j;
        }
        assert(!chars_lt(k@, mview(ms@)[j as int].0));
        j = j + 1;
    }
    j
}

fn text(s: &str) -> (r: String)
    ensures
        r@ == s@,
{
    s.to_string()
}

/// What `root` becomes when the leaf of type `t` and value `v` is set at
/// `path`, whether or not that succeeds: the nodes on the way are made (an
/// object or array for a null, a missing key with a null value, nulls up
/// to an index) before the step below them, and a step that fails leaves
/// its node as it was.
pub open spec fn insert_state(root: DocV, path: Seq<SegV>, t: Seq<char>, v: Seq<char>) -> DocV
    decreases path.len(),
{
    if path.len() == 0 {
        match leaf_spec(t, v) {
            Ok(d) => d,
            Err(_) => root,
        }
    } else {
        match path[0] {
            SegV::Key(k) => {
                let node = if root is Null {
                    DocV::Object(Seq::empty())
                } else {
                    root
                };
                match node {
                    DocV::Object(ms) => {
                        let j = key_find(ms, k);
                        let child = if j < ms.len() {
                            ms[j].1
                        } else {
                            DocV::Null
                        };
                        let c = insert_state(child, path.drop_first(), t, v);
                        DocV::Object(
                            if j < ms.len() {
                                ms.update(j, (k, c))
                            } else {
                                ms.insert(key_slot(ms, k), (k, c))
                            },
                        )
                    },
                    _ => root,
                }
            },
            SegV::Idx(i) => {
                let node = if root is Null {
                    DocV::Array(Seq::empty())
                } else {
                    root
                };
                match node {
                    DocV::Array(items) => {
                        let p = padded(items, i);
                        DocV::Array(p.update(i as int, insert_state(p[i as int], path.drop_first(), t, v)))
                    },
                    _ => root,
                }
            },
        }
    }
}

/// When setting a leaf succeeds, its result is the state it leaves.
pub proof fn lemma_insert_state(root: DocV, path: Seq<SegV>, t: Seq<char>, v: Seq<char>)
    ensures
        insert_spec(root, path, t, v) matches Ok(d) ==> d == insert_state(root, path, t, v),
    decreases path.len(),
{
    if path.len() > 0 {
        match path[0] {
            SegV::Key(k) => {
                let node = if root is Null {
                    DocV::Object(Seq::empty())
                } else {
                    root
                };
                if let DocV::Object(ms) = node {
                    let j = key_find(ms, k);
                    let child = if j < ms.len() {
                        ms[j].1
                    } else {
                        DocV::Null
                    };
                    lemma_insert_state(child, path.drop_first(), t, v);
                }
            },
            SegV::Idx(i) => {
                let node = if root is Null {
                    DocV::Array(Seq::empty())
                } else {
                    root
                };
                if let DocV::Array(items) = node {
                    let p = padded(items, i);
                    lemma_insert_state(p[i as int], path.drop_first(), t, v);
                }
            },
        }
    }
}

/// `root` with the leaf set at `path[k..]`, as `insert_spec` says, and the
/// state it is left in either way (see `insert_state`).
fn insert_owned(root: Doc, path: &[Seg], k: usize, typ: &str, val: &str) -> (r: (
    Doc,
    Result<(), String>,
))
    requires
        k <= path@.len(),
    ensures
        r.0@ == insert_state(root@, path_view(path@).skip(k as int), typ@, val@),
        match insert_spec(root@, path_view(path@).skip(k as int), typ@, val@) {
            Ok(d) => r.1 is Ok,
            Err(e) => r.1 matches Err(m) && m@ == e,
        },
    decreases path@.len() - k,
{
    let ghost pv = path_view(path@).skip(k as int);
    proof {
        lemma_insert_state(root@, pv, typ@, val@);
    }
    if k == path.len() {
        assert(pv.len() == 0);
        return match leaf_to_json(typ, val) {
            Ok(d) => (d, Ok(())),
            Err(e) => (root, Err(e)),
        };
    }
    assert(pv[0] == path@[k as int]@);
    assert(pv.drop_first() =~= path_view(path@).skip(k + 1));
    match &path[k] {
        Seg::Key(key) => {
            let node = match root {
                Doc::Null => {
                    let d = Doc::Object(Vec::new());
                    assert(members_view(Seq::<(String, Doc)>::empty(), 0) =~= Seq::empty());
                    d
                },
                other => other,
            };
            match node {
                Doc::Object(mut ms) => {
                    proof {
                        lemma_members_view(ms@, ms@.len() as int);
                    }
                    let ghost mv = mview(ms@);
                    let j = find_key(&ms, key);
                    if j < ms.len() {
                        let ghost old_ms = ms@;
                        let (kk, child) = ms.remove(j);
                        assert(doc_view(child) == mv[j as int].1);
                        assert(kk@ == key@) by {
                            lemma_key_find(mv, key@);
                            assert(mv[j as int].0 == old_ms[j as int].0@);
                        }
                        let (c, res) = insert_owned(child, path, k + 1, typ, val);
                        let ghost cv = c@;
                        ms.insert(j, (kk, c));
                        proof {
                            lemma_members_view(ms@, ms@.len() as int);
                            assert(ms@ == old_ms.update(j as int, (kk, c)));
                            assert(mview(ms@) =~= mv.update(j as int, (key@, cv)));
                        }
                        (Doc::Object(ms), res)
                    } else {
                        let p = find_slot(&ms, key);
                        assert(doc_view(Doc::Null) == DocV::Null);
                        let (c, res) = insert_owned(Doc::Null, path, k + 1, typ, val);
                        let ghost cv = c@;
                        ms.insert(p, (key.clone(), c));
                        proof {
                            lemma_members_view(ms@, ms@.len() as int);
                            assert(mview(ms@) =~= mv.insert(p as int, (key@, cv)));
                        }
                        (Doc::Object(ms), res)
                    }
                },
                other => (other, Err(text("expected object node"))),
            }
        },
        Seg::Idx(i) => {
            let i = *i;
            let node = match root {
                Doc::Null => {
                    let d = Doc::Array(Vec::new());
                    assert(items_view(Seq::<Doc>::empty(), 0) =~= Seq::empty());
                    d
                },
                other => other,
            };
            match node {
                Doc::Array(mut items) => {
                    proof {
                        lemma_items_view(items@, items@.len() as int);
                    }
                    let ghost iv = iview(items@);
                    let ghost pd = padded(iv, i as nat);
                    while items.len() <= i
                        invariant
                            pd == padded(iv, i as nat),
                            iv.len() <= items@.len(),
                            items@.len() <= pd.len(),
                            pd.len() == if (i as nat) < iv.len() { iv.len() as int } else { i + 1 },
                            forall|x: int|
                                0 <= x < items@.len() ==> #[trigger] doc_view(items@[x]) == pd[x],
                        decreases i as int + 1 - items@.len(),
                    {
                        assert(pd == iv + Seq::new((i + 1 - iv.len()) as nat, |j: int| DocV::Null));
                        assert(pd[items@.len() as int] == DocV::Null);
                        items.push(Doc::Null);
                    }
                    proof {
                        lemma_items_view(items@, items@.len() as int);
                        assert(iview(items@) =~= pd);
                    }
                    let ghost old_items = items@;
                    let child = items.remove(i);
                    let (c, res) = insert_owned(child, path, k + 1, typ, val);
                    let ghost cv = c@;
                    items.insert(i, c);
                    proof {
                        lemma_items_view(items@, items@.len() as int);
                        assert(items@ == old_items.update(i as int, c));
                        assert(iview(items@) =~= pd.update(i as int, cv));
                    }
                    (Doc::Array(items), res)
                },
                other => (other, Err(text("expected array node"))),
            }
        },
    }
}

/// Sets the leaf of type `typ` and value `val` at `path` in `root`, making
/// the nodes on the way, as `insert_spec` says; `root` is left as
/// `insert_state` says whether or not that succeeds.
pub fn insert_json(root: &mut Doc, path: &[Seg], typ: &str, val: &str) -> (r: Result<(), String>)
    ensures
        final(root)@ == insert_state(old(root)@, path_view(path@), typ@, val@),
        match insert_spec(old(root)@, path_view(path@), typ@, val@) {
            Ok(d) => r is Ok && final(root)@ == d,
            Err(e) => r matches Err(m) && m@ == e,
        },
{
    let mut tmp = Doc::Null;
    std::mem::swap(&mut tmp, root);
    assert(path_view(path@).skip(0) =~= path_view(path@));
    proof {
        lemma_insert_state(tmp@, path_view(path@), typ@, val@);
    }
    let (d, res) = insert_owned(tmp, path, 0, typ, val);
    *root = d;
    res
}

// ---- TOML -------------------------------------------------------------------

/// What `toml::value::Datetime` reads from a text, written back as text
/// (`None` when it is no date or time).
pub uninterp spec fn toml_datetime_text(s: Seq<char>) -> Option<Seq<char>>;

/// Parses `s` as a `toml::value::Datetime` and writes it back with
/// `to_string`; the outcome depends on the text alone and is named
/// `toml_datetime_text`.
#[verifier::external_body]
fn toml_datetime(s: &str) -> (r: Option<String>)
    ensures
        match toml_datetime_text(s@) {
            Some(t) => r matches Some(x) && x@ == t,
            None => r is None,
        },
{
    s.parse::<toml::value::Datetime>().ok().map(|d| d.to_string())
}

/// The TOML form of the document `d` found at `path`: null is refused,
/// a string at a path listed in `times` becomes a date-time (or an error if
/// it is none), everything else keeps its shape; the first error found in
/// document order is the result.
pub open spec fn toml_spec(d: DocV, path: Seq<SegV>, times: Seq<Seq<char>>) -> Result<
    DocV,
    Seq<char>,
>
    decreases d, 0int,
{
    match d {
        DocV::Null => Err("TOML does not support null"@),
        DocV::Str(s) => if times.contains(path_text(path, seq!['\0'])) {
            match toml_datetime_text(s) {
                Some(t) => Ok(DocV::Time(t)),
                None => Err("invalid datetime: "@ + s),
            }
        } else {
            Ok(DocV::Str(s))
        },
        DocV::Array(items) => match toml_items(items, path, times, items.len() as int) {
            Ok(r) => Ok(DocV::Array(r)),
            Err(e) => Err(e),
        },
        DocV::Object(ms) => match toml_members(ms, path, times, ms.len() as int) {
            Ok(r) => Ok(DocV::Object(r)),
            Err(e) => Err(e),
        },
        other => Ok(other),
    }
}

pub open spec fn toml_items(
    items: Seq<DocV>,
    path: Seq<SegV>,
    times: Seq<Seq<char>>,
    n: int,
) -> Result<Seq<DocV>, Seq<char>>
    decreases items, n,
{
    if n <= 0 || n > items.len() {
        Ok(Seq::empty())
    } else {
        match toml_items(items, path, times, n - 1) {
            Ok(r) => match toml_spec(items[n - 1], path.push(SegV::Idx((n - 1) as nat)), times) {
                Ok(x) => Ok(r.push(x)),
                Err(e) => Err(e),
            },
            Err(e) => Err(e),
        }
    }
}

pub open spec fn toml_members(
    ms: Seq<(Seq<char>, DocV)>,
    path: Seq<SegV>,
    times: Seq<Seq<char>>,
    n: int,
) -> Result<Seq<(Seq<char>, DocV)>, Seq<char>>
    decreases ms, n,
{
    if n <= 0 || n > ms.len() {
        Ok(Seq::empty())
    } else {
        match toml_members(ms, path, times, n - 1) {
            Ok(r) => match toml_spec(ms[n - 1].1, path.push(SegV::Key(ms[n - 1].0)), times) {
                Ok(x) => Ok(r.push((ms[n - 1].0, x))),
                Err(e) => Err(e),
            },
            Err(e) => Err(e),
        }
    }
}

/// The views of a list of strings.
pub open spec fn strs_view(v: Seq<String>) -> Seq<Seq<char>> {
    v.map_values(|s: String| s@)
}

fn contains_str(v: &Vec<String>, s: &String) -> (b: bool)
    ensures
        b == strs_view(v@).contains(s@),
{
    let mut i: usize = 0;
    while i < v.len()
        invariant
            i <= v@.len(),
            forall|j: int| 0 <= j < i ==> #[trigger] v@[j]@ != s@,
        decreases v@.len() - i,
    {
        if eq_str(v[i].as_str(), s.as_str()) {
            assert(strs_view(v@)[i as int] == s@);
            return true;
        }
        i = i + 1;
    }
    assert forall|j: int| 0 <= j < strs_view(v@).len() implies strs_view(v@)[j] != s@ by {
        assert(strs_view(v@)[j] == v@[j]@);
    }
    false
}

fn message(prefix: &str, tail: &str) -> (res: String)
    ensures
        res@ == prefix@ + tail@,
{
    let mut m = String::new();
    crate::text::push_str(&mut m, prefix);
    crate::text::push_str(&mut m, tail);
    assert(m@ =~= prefix@ + tail@);
    m
}

/// The TOML form of `v` found at `path`, as `toml_spec` says: null is
/// refused, strings at the paths in `times` become date-times.
pub fn json_to_toml(v: &Doc, path: &Vec<Seg>, times: &Vec<String>) -> (r: Result<Doc, String>)
    ensures
        match toml_spec(v@, path_view(path@), strs_view(times@)) {
            Ok(d) => r matches Ok(x) && x@ == d,
            Err(e) => r matches Err(m) && m@ == e,
        },
    decreases v,
{
    let ghost pv = path_view(path@);
    match v {
        Doc::Null => Err(text("TOML does not support null")),
        Doc::Bool(b) => Ok(Doc::Bool(*b)),
        Doc::Number(n) => Ok(Doc::Number(n.clone())),
        Doc::Time(t) => Ok(Doc::Time(t.clone())),
        Doc::Str(s) => {
            let key = canon_path(path.as_slice());
            if contains_str(times, &key) {
                match toml_datetime(s.as_str()) {
                    Some(t) => Ok(Doc::Time(t)),
                    None => Err(message("invalid datetime: ", s.as_str())),
                }
            } else {
                Ok(Doc::Str(s.clone()))
            }
        },
        Doc::Array(items) => {
            proof {
                lemma_items_view(items@, items@.len() as int);
            }
            let ghost iv = iview(items@);
            let mut out: Vec<Doc> = Vec::new();
            let mut i: usize = 0;
            while i < items.len()
                invariant
                    *v == Doc::Array(*items),
                    i <= items@.len(),
                    pv == path_view(path@),
                    iv == iview(items@),
                    iv.len() == items@.len(),
                    forall|j: int| 0 <= j < items@.len() ==> #[trigger] iv[j] == doc_view(items@[j]),
                    toml_items(iv, pv, strs_view(times@), i as int) matches Ok(r) && r == iview(out@),
                decreases items@.len() - i,
            {
                let mut p = copy_path(path);
                p.push(Seg::Idx(i));
                assert(path_view(p@) =~= pv.push(SegV::Idx(i as nat)));
                proof {
                    assert(decreases_to!(*v => (*v)->Array_0));
                    assert(decreases_to!(*items => items@));
                    assert(decreases_to!(items@ => items@[i as int]));
                }
                match json_to_toml(&items[i], &p, times) {
                    Ok(x) => {
                        let ghost before = out@;
                        out.push(x);
                        proof {
                            lemma_items_view(before, before.len() as int);
                            lemma_items_view(out@, out@.len() as int);
                            assert(iview(out@) =~= iview(before).push(x@));
                        }
                    },
                    Err(e) => {
                        proof {
                            lemma_toml_items_err(iv, pv, strs_view(times@), i + 1, items@.len() as int);
                        }
                        return Err(e);
                    },
                }
                i = i + 1;
            }
            Ok(Doc::Array(out))
        },
        Doc::Object(ms) => {
            proof {
                lemma_members_view(ms@, ms@.len() as int);
            }
            let ghost mv = mview(ms@);
            let mut out: Vec<(String, Doc)> = Vec::new();
            let mut i: usize = 0;
            while i < ms.len()
                invariant
                    *v == Doc::Object(*ms),
                    i <= ms@.len(),
                    pv == path_view(path@),
                    mv == mview(ms@),
                    mv.len() == ms@.len(),
                    forall|j: int|
                        0 <= j < ms@.len() ==> #[trigger] mv[j] == (ms@[j].0@, doc_view(ms@[j].1)),
                    toml_members(mv, pv, strs_view(times@), i as int) matches Ok(r) && r == mview(
                        out@,
                    ),
                decreases ms@.len() - i,
            {
                let mut p = copy_path(path);
                let (k, x) = &ms[i];
                p.push(Seg::Key(k.clone()));
                assert(path_view(p@) =~= pv.push(SegV::Key(k@)));
                proof {
                    assert(decreases_to!(*v => (*v)->Object_0));
                    assert(decreases_to!(*ms => ms@));
                    assert(decreases_to!(ms@ => ms@[i as int]));
                    assert(decreases_to!(ms@[i as int] => ms@[i as int].1));
                }
                match json_to_toml(x, &p, times) {
                    Ok(y) => {
                        let ghost before = out@;
                        out.push((k.clone(), y));
                        proof {
                            lemma_members_view(before, before.len() as int);
                            lemma_members_view(out@, out@.len() as int);
                            assert(mview(out@) =~= mview(before).push((k@, y@)));
                        }
                    },
                    Err(e) => {
                        proof {
                            lemma_toml_members_err(mv, pv, strs_view(times@), i + 1, ms@.len() as int);
                        }
                        return Err(e);
                    },
                }
                i = i + 1;
            }
            Ok(Doc::Object(out))
        },
    }
}

proof fn lemma_toml_items_err(items: Seq<DocV>, path: Seq<SegV>, times: Seq<Seq<char>>, n: int, m: int)
    requires
        0 <= n <= m <= items.len(),
        toml_items(items, path, times, n) is Err,
    ensures
        toml_items(items, path, times, m) == toml_items(items, path, times, n),
    decreases m - n,
{
    if n < m {
        lemma_toml_items_err(items, path, times, n, m - 1);
    }
}

proof fn lemma_toml_members_err(
    ms: Seq<(Seq<char>, DocV)>,
    path: Seq<SegV>,
    times: Seq<Seq<char>>,
    n: int,
    m: int,
)
    requires
        0 <= n <= m <= ms.len(),
        toml_members(ms, path, times, n) is Err,
    ensures
        toml_members(ms, path, times, m) == toml_members(ms, path, times, n),
    decreases m - n,
{
    if n < m {
        lemma_toml_members_err(ms, path, times, n, m - 1);
    }
}

/// Whether the document `d` found at `path` holds a node that TOML refuses:
/// a null (counted when `nulls`), or a string at a path listed in `times`
/// that is no date-time (counted when `dates`).
pub open spec fn toml_refused(d: DocV, path: Seq<SegV>, times: Seq<Seq<char>>, nulls: bool, dates: bool) -> bool
    decreases d, 0int,
{
    match d {
        DocV::Null => nulls,
        DocV::Str(s) => dates && times.contains(path_text(path, seq!['\0'])) && toml_datetime_text(s) is None,
        DocV::Array(items) => toml_refused_items(items, path, times, nulls, dates, items.len() as int),
        DocV::Object(ms) => toml_refused_members(ms, path, times, nulls, dates, ms.len() as int),
        _ => false,
    }
}

pub open spec fn toml_refused_items(
    items: Seq<DocV>,
    path: Seq<SegV>,
    times: Seq<Seq<char>>,
    nulls: bool,
    dates: bool,
    n: int,
) -> bool
    decreases items, n,
{
    if n <= 0 || n > items.len() {
        false
    } else {
        toml_refused_items(items, path, times, nulls, dates, n - 1) || toml_refused(
            items[n - 1],
            path.push(SegV::Idx((n - 1) as nat)),
            times,
            nulls,
            dates,
        )
    }
}

pub open spec fn toml_refused_members(
    ms: Seq<(Seq<char>, DocV)>,
    path: Seq<SegV>,
    times: Seq<Seq<char>>,
    nulls: bool,
    dates: bool,
    n: int,
) -> bool
    decreases ms, n,
{
    if n <= 0 || n > ms.len() {
        false
    } else {
        toml_refused_members(ms, path, times, nulls, dates, n - 1) || toml_refused(
            ms[n - 1].1,
            path.push(SegV::Key(ms[n - 1].0)),
            times,
            nulls,
            dates,
        )
    }
}

/// The message for a string that is no date-time.
pub open spec fn is_datetime_error(e: Seq<char>) -> bool {
    exists|s: Seq<char>| e == "invalid datetime: "@ + s
}

/// The facts of `toml_errors_law` for one result and its refused nodes.
pub open spec fn toml_error_facts<T>(r: Result<T, Seq<char>>, any: bool, null: bool, date: bool) -> bool {
    &&& (r is Err <==> any)
    &&& any == (null || date)
    &&& (!date ==> (r matches Err(e) ==> e == "TOML does not support null"@))
    &&& (!null ==> (r matches Err(e) ==> is_datetime_error(e)))
    &&& (r matches Err(e) ==> e == "TOML does not support null"@ || is_datetime_error(e))
}

proof fn lemma_toml_errors(d: DocV, path: Seq<SegV>, times: Seq<Seq<char>>)
    ensures
        toml_error_facts(
            toml_spec(d, path, times),
            toml_refused(d, path, times, true, true),
            toml_refused(d, path, times, true, false),
            toml_refused(d, path, times, false, true),
        ),
    decreases d, 0int,
{
    match d {
        DocV::Str(s) => {
            let e = "invalid datetime: "@ + s;
            assert(e == "invalid datetime: "@ + s);
        },
        DocV::Array(items) => lemma_toml_errors_items(items, path, times, items.len() as int),
        DocV::Object(ms) => lemma_toml_errors_members(ms, path, times, ms.len() as int),
        _ => {},
    }
}

proof fn lemma_toml_errors_items(items: Seq<DocV>, path: Seq<SegV>, times: Seq<Seq<char>>, n: int)
    ensures
        toml_error_facts(
            toml_items(items, path, times, n),
            toml_refused_items(items, path, times, true, true, n),
            toml_refused_items(items, path, times, true, false, n),
            toml_refused_items(items, path, times, false, true, n),
        ),
    decreases items, n,
{
    if 0 < n <= items.len() {
        lemma_toml_errors_items(items, path, times, n - 1);
        lemma_toml_errors(items[n - 1], path.push(SegV::Idx((n - 1) as nat)), times);
    }
}

proof fn lemma_toml_errors_members(ms: Seq<(Seq<char>, DocV)>, path: Seq<SegV>, times: Seq<Seq<char>>, n: int)
    ensures
        toml_error_facts(
            toml_members(ms, path, times, n),
            toml_refused_members(ms, path, times, true, true, n),
            toml_refused_members(ms, path, times, true, false, n),
            toml_refused_members(ms, path, times, false, true, n),
        ),
    decreases ms, n,
{
    if 0 < n <= ms.len() {
        lemma_toml_errors_members(ms, path, times, n - 1);
        lemma_toml_errors(ms[n - 1].1, path.push(SegV::Key(ms[n - 1].0)), times);
    }
}

/// `json_to_toml` fails exactly when the document holds a null or a string
/// at a listed time path that is no date-time; with no such string the
/// error is the one for null, with no null it is the one for the string.
/// A number is never refused: every number the JSON reader gives is an
/// integer or a float, and its text is kept.
pub proof fn toml_errors_law(d: DocV, path: Seq<SegV>, times: Seq<Seq<char>>)
    ensures
        toml_spec(d, path, times) is Err <==> toml_refused(d, path, times, true, false)
            || toml_refused(d, path, times, false, true),
        !toml_refused(d, path, times, false, true) ==> (toml_spec(d, path, times) matches Err(e)
            ==> e == "TOML does not support null"@),
        !toml_refused(d, path, times, true, false) ==> (toml_spec(d, path, times) matches Err(e)
            ==> is_datetime_error(e)),
{
    lemma_toml_errors(d, path, times);
}

// ---- lines ------------------------------------------------------------------

/// The state after reading some flat lines: the document built so far and
/// the canonical paths of the `time` leaves, or the first error, or a panic.
pub enum UnflatRun {
    Built(DocV, Seq<Seq<char>>),
    Failed(Seq<char>),
    Panics,
}

/// Reads the flat lines `ls` in order into a document (empty lines are
/// skipped; a line without two separators is an error).
pub open spec fn unflat_run(ls: Seq<Seq<char>>, sep: Seq<char>) -> UnflatRun
    decreases ls.len(),
{
    if ls.len() == 0 {
        UnflatRun::Built(DocV::Null, Seq::empty())
    } else {
        match unflat_run(ls.drop_last(), sep) {
            UnflatRun::Built(root, times) => {
                let line = ls.last();
                if line.len() == 0 {
                    UnflatRun::Built(root, times)
                } else if split_breaks(line, sep) {
                    UnflatRun::Panics
                } else {
                    match split_spec(line, sep) {
                        None => UnflatRun::Failed("malformed line: "@ + line),
                        Some(f) => {
                            let path = parse_path_spec(f.0);
                            let times2 = if f.1 == "time"@ {
                                times.push(path_text(path, seq!['\0']))
                            } else {
                                times
                            };
                            match insert_spec(root, path, f.1, f.2) {
                                Ok(r) => UnflatRun::Built(r, times2),
                                Err(e) => UnflatRun::Failed(e),
                            }
                        },
                    }
                }
            },
            other => other,
        }
    }
}

/// What `do_unflatten(input, fmt, sep)` gives: the document built from the
/// lines (for TOML, its TOML form), or the first error.
pub open spec fn unflatten_spec(input: Seq<char>, fmt: Fmt, sep: Seq<char>) -> Option<
    Result<DocV, Seq<char>>,
> {
    match unflat_run(lines_of(input), sep) {
        UnflatRun::Built(root, times) => Some(
            if fmt == Fmt::Toml {
                toml_spec(root, Seq::empty(), times)
            } else {
                Ok(root)
            },
        ),
        UnflatRun::Failed(e) => Some(Err(e)),
        UnflatRun::Panics => None,
    }
}

proof fn lemma_unflat_prefix(ls: Seq<Seq<char>>, sep: Seq<char>, n: int)
    requires
        0 <= n <= ls.len(),
        !(unflat_run(ls, sep) is Panics),
    ensures
        !(unflat_run(ls.take(n), sep) is Panics),
    decreases ls.len() - n,
{
    if n < ls.len() {
        lemma_unflat_prefix(ls, sep, n + 1);
        assert(ls.take(n + 1).drop_last() =~= ls.take(n));
    } else {
        assert(ls.take(n) =~= ls);
    }
}

proof fn lemma_unflat_stops(ls: Seq<Seq<char>>, sep: Seq<char>, n: int)
    requires
        0 <= n <= ls.len(),
        !(unflat_run(ls.take(n), sep) is Built),
    ensures
        unflat_run(ls, sep) == unflat_run(ls.take(n), sep),
    decreases ls.len() - n,
{
    if n < ls.len() {
        assert(ls.take(n + 1).drop_last() =~= ls.take(n));
        lemma_unflat_stops(ls, sep, n + 1);
    } else {
        assert(ls.take(n) =~= ls);
    }
}

/// Reads one flat line into `root` and `times`, as `unflat_run` says of
/// its last line.
fn read_line(root: &mut Doc, times: &mut Vec<String>, line: &str, sep: &str) -> (r: Result<(), String>)
    requires
        line@.len() > 0,
        !split_breaks(line@, sep@),
    ensures
        match split_spec(line@, sep@) {
            None => r matches Err(m) && m@ == "malformed line: "@ + line@,
            Some(f) => {
                let path = parse_path_spec(f.0);
                match insert_spec(old(root)@, path, f.1, f.2) {
                    Ok(d) => r is Ok && final(root)@ == d && strs_view(final(times)@) == if f.1
                        == "time"@ {
                        strs_view(old(times)@).push(path_text(path, seq!['\0']))
                    } else {
                        strs_view(old(times)@)
                    },
                    Err(e) => r matches Err(m) && m@ == e,
                }
            },
        },
{
    let (path_s, typ, val) = match split_line(line, sep) {
        None => return Err(message("malformed line: ", line)),
        Some(t) => t,
    };
    let path = parse_path(path_s.as_str());
    if eq_str(typ.as_str(), "time") {
        let c = canon_path(path.as_slice());
        let ghost before = times@;
        times.push(c);
        assert(strs_view(times@) =~= strs_view(before).push(c@));
    }
    insert_json(root, &path, typ.as_str(), val.as_str())
}

/// The result of reading the flat lines of `input`, split at `sep`:
/// for JSON and YAML the document, for TOML its TOML form (see
/// `json_to_toml`); an error names the first bad line or node.
pub fn do_unflatten(input: &str, out_fmt: Fmt, sep: &str) -> (res: Result<Doc, String>)
    requires
        out_fmt != Fmt::Env,
        unflatten_spec(input@, out_fmt, sep@) is Some,
    ensures
        match unflatten_spec(input@, out_fmt, sep@) {
            Some(Ok(d)) => res matches Ok(x) && x@ == d,
            Some(Err(e)) => res matches Err(m) && m@ == e,
            None => false,
        },
{
    let ls = lines(input);
    let ghost lv = lines_of(input@);
    let mut root = Doc::Null;
    let mut times: Vec<String> = Vec::new();
    let mut i: usize = 0;
    proof {
        lemma_unflat_prefix(lv, sep@, 0);
        assert(strs_view(times@) =~= Seq::<Seq<char>>::empty());
    }
    while i < ls.len()
        invariant
            i <= ls@.len(),
            ls@.len() == lv.len(),
            lv == lines_of(input@),
            forall|k: int| 0 <= k < ls@.len() ==> #[trigger] ls@[k]@ == lv[k],
            !(unflat_run(lv, sep@) is Panics),
            unflat_run(lv.take(i as int), sep@) == UnflatRun::Built(root@, strs_view(times@)),
        decreases ls@.len() - i,
    {
        let line = ls[i].as_str();
        proof {
            lemma_unflat_prefix(lv, sep@, i + 1);
            assert(lv.take(i + 1).drop_last() =~= lv.take(i as int));
            assert(lv.take(i + 1).last() == line@);
        }
        if !line.is_empty() {
            match read_line(&mut root, &mut times, line, sep) {
                Ok(()) => {},
                Err(e) => {
                    proof {
                        lemma_unflat_stops(lv, sep@, i + 1);
                    }
                    return Err(e);
                },
            }
        }
        i = i + 1;
    }
    assert(lv.take(ls@.len() as int) =~= lv);
    match out_fmt {
        Fmt::Toml => {
            let empty: Vec<Seg> = Vec::new();
            assert(path_view(empty@) =~= Seq::<SegV>::empty());
            json_to_toml(&root, &empty, &times)
        },
        _ => Ok(root),
    }
}

/// Whether `do_unflatten(input, _, sep)` would reach a line whose byte-wise
/// split panics (`split_breaks`) before it ends.
pub fn unflatten_panics(input: &str, sep: &str) -> (b: bool)
    ensures
        b == (unflat_run(lines_of(input@), sep@) is Panics),
{
    let ls = lines(input);
    let ghost lv = lines_of(input@);
    let mut root = Doc::Null;
    let mut times: Vec<String> = Vec::new();
    let mut i: usize = 0;
    assert(strs_view(times@) =~= Seq::<Seq<char>>::empty());
    while i < ls.len()
        invariant
            i <= ls@.len(),
            ls@.len() == lv.len(),
            lv == lines_of(input@),
            forall|k: int| 0 <= k < ls@.len() ==> #[trigger] ls@[k]@ == lv[k],
            unflat_run(lv.take(i as int), sep@) == UnflatRun::Built(root@, strs_view(times@)),
        decreases ls@.len() - i,
    {
        let line = ls[i].as_str();
        proof {
            assert(lv.take(i + 1).drop_last() =~= lv.take(i as int));
            assert(lv.take(i + 1).last() == line@);
        }
        if !line.is_empty() {
            if split_line_breaks(line, sep) {
                proof {
                    lemma_unflat_stops(lv, sep@, i + 1);
                }
                return true;
            }
            match read_line(&mut root, &mut times, line, sep) {
                Ok(()) => {},
                Err(_) => {
                    proof {
                        lemma_unflat_stops(lv, sep@, i + 1);
                    }
                    return false;
                },
            }
        }
        i = i + 1;
    }
    assert(lv.take(ls@.len() as int) =~= lv);
    false
}

/// `do_unflatten`, or `None` where it would panic on a line (see
/// `unflatten_panics`).
pub fn unflatten_checked(input: &str, out_fmt: Fmt, sep: &str) -> (res: Option<Result<Doc, String>>)
    requires
        out_fmt != Fmt::Env,
    ensures
        match unflatten_spec(input@, out_fmt, sep@) {
            Some(Ok(d)) => res matches Some(Ok(x)) && x@ == d,
            Some(Err(e)) => res matches Some(Err(m)) && m@ == e,
            None => res is None,
        },
{
    if unflatten_panics(input, sep) {
        None
    } else {
        Some(do_unflatten(input, out_fmt, sep))
    }
}

} // verus!
