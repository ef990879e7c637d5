//! Documents as trees, and their flat form: one entry per leaf.
use vstd::prelude::*;
use crate::jflat::order::{lemma_path_lt_irreflexive, lemma_path_lt_transitive, path_less, path_lt};
use crate::jflat::path::{copy_path, fmt_path, path_text, path_view, Seg, SegV};
use crate::jsonlite::{quote_readable, quoted};
use crate::text::eq_str;

verus! {

/// A structured document (what a TOML, YAML or JSON text holds).
pub enum Doc {
    Null,
    Bool(bool),
    /// A number, as the text it is written with.
    Number(String),
    Str(String),
    /// A date or time, as its text.
    Time(String),
    Array(Vec<Doc>),
    /// Members in document order.
    Object(Vec<(String, Doc)>),
}

/// What a document stands for.
pub enum DocV {
    Null,
    Bool(bool),
    Number(Seq<char>),
    Str(Seq<char>),
    Time(Seq<char>),
    Array(Seq<DocV>),
    Object(Seq<(Seq<char>, DocV)>),
}

pub open spec fn doc_view(d: Doc) -> DocV
    decreases d, 0int,
{
    match d {
        Doc::Null => DocV::Null,
        Doc::Bool(b) => DocV::Bool(b),
        Doc::Number(n) => DocV::Number(n@),
        Doc::Str(s) => DocV::Str(s@),
        Doc::Time(t) => DocV::Time(t@),
        Doc::Array(items) => DocV::Array(items_view(items@, items@.len() as int)),
        Doc::Object(members) => DocV::Object(members_view(members@, members@.len() as int)),
    }
}

/// The views of the first `n` items.
pub open spec fn items_view(items: Seq<Doc>, n: int) -> Seq<DocV>
    decreases items, n,
{
    if n <= 0 || n > items.len() {
        Seq::empty()
    } else {
        items_view(items, n - 1).push(doc_view(items[n - 1]))
    }
}

/// The views of the first `n` members.
pub open spec fn members_view(members: Seq<(String, Doc)>, n: int) -> Seq<(Seq<char>, DocV)>
    decreases members, n,
{
    if n <= 0 || n > members.len() {
        Seq::empty()
    } else {
        members_view(members, n - 1).push((members[n - 1].0@, doc_view(members[n - 1].1)))
    }
}

impl View for Doc {
    type V = DocV;

    open spec fn view(&self) -> DocV {
        doc_view(*self)
    }
}

pub proof fn lemma_items_view(items: Seq<Doc>, n: int)
    requires
        0 <= n <= items.len(),
    ensures
        items_view(items, n).len() == n,
        forall|j: int| 0 <= j < n ==> #[trigger] items_view(items, n)[j] == doc_view(items[j]),
    decreases n,
{
    if n > 0 {
        lemma_items_view(items, n - 1);
    }
}

pub proof fn lemma_members_view(members: Seq<(String, Doc)>, n: int)
    requires
        0 <= n <= members.len(),
    ensures
        members_view(members, n).len() == n,
        forall|j: int|
            0 <= j < n ==> #[trigger] members_view(members, n)[j] == (
                members[j].0@,
                doc_view(members[j].1),
            ),
    decreases n,
{
    if n > 0 {
        lemma_members_view(members, n - 1);
    }
}

/// A copy of `d`.
pub fn copy_doc(d: &Doc) -> (r: Doc)
    ensures
        r@ == d@,
    decreases d,
{
    match d {
        Doc::Null => Doc::Null,
        Doc::Bool(b) => Doc::Bool(*b),
        Doc::Number(n) => Doc::Number(n.clone()),
        Doc::Str(s) => Doc::Str(s.clone()),
        Doc::Time(t) => Doc::Time(t.clone()),
        Doc::Array(items) => {
            let mut out: Vec<Doc> = Vec::new();
            let mut i: usize = 0;
            proof {
                lemma_items_view(items@, items@.len() as int);
            }
            while i < items.len()
                invariant
                    *d == Doc::Array(*items),
                    i <= items@.len(),
                    out@.len() == i,
                    forall|j: int| 0 <= j < i ==> #[trigger] doc_view(out@[j]) == doc_view(items@[j]),
                decreases items@.len() - i,
            {
                proof {
                    assert(decreases_to!(*d => (*d)->Array_0));
                    assert(decreases_to!(*items => items@));
                    assert(decreases_to!(items@ => items@[i as int]));
                }
                out.push(copy_doc(&items[i]));
                i = i + 1;
            }
            proof {
                lemma_items_view(out@, out@.len() as int);
                assert(items_view(out@, out@.len() as int) =~= items_view(items@, items@.len() as int));
            }
            Doc::Array(out)
        },
        Doc::Object(members) => {
            let mut out: Vec<(String, Doc)> = Vec::new();
            let mut i: usize = 0;
            proof {
                lemma_members_view(members@, members@.len() as int);
            }
            while i < members.len()
                invariant
                    *d == Doc::Object(*members),
                    i <= members@.len(),
                    out@.len() == i,
                    forall|j: int|
                        0 <= j < i ==> #[trigger] out@[j].0@ == members@[j].0@ && doc_view(out@[j].1)
                            == doc_view(members@[j].1),
                decreases members@.len() - i,
            {
                proof {
                    assert(decreases_to!(*d => (*d)->Object_0));
                    assert(decreases_to!(*members => members@));
                    assert(decreases_to!(members@ => members@[i as int]));
                    assert(decreases_to!(members@[i as int] => members@[i as int].1));
                }
                let (k, x) = &members[i];
                out.push((k.clone(), copy_doc(x)));
                i = i + 1;
            }
            proof {
                lemma_members_view(out@, out@.len() as int);
                assert(members_view(out@, out@.len() as int) =~= members_view(
                    members@,
                    members@.len() as int,
                ));
            }
            Doc::Object(out)
        },
    }
}

/// One flat line: the path of a leaf, its type name and its value text.
pub struct Entry {
    pub path: Vec<Seg>,
    pub typ: &'static str,
    pub val: String,
}

/// What an entry stands for: path, type, value.
pub open spec fn entry_view(e: Entry) -> (Seq<SegV>, Seq<char>, Seq<char>) {
    (path_view(e.path@), e.typ@, e.val@)
}

pub open spec fn entries_view(s: Seq<Entry>) -> Seq<(Seq<SegV>, Seq<char>, Seq<char>)> {
    s.map_values(|e: Entry| entry_view(e))
}

/// The entries of the leaves of `d`, found under `path`, in document order.
/// A leaf is a scalar, an empty array or an empty object.
pub open spec fn flat(d: Doc, path: Seq<SegV>) -> Seq<(Seq<SegV>, Seq<char>, Seq<char>)>
    decreases d, 0int,
{
    match d {
        Doc::Null => seq![(path, "null"@, "null"@)],
        Doc::Bool(b) => seq![(path, "boolean"@, if b { "true"@ } else { "false"@ })],
        Doc::Number(n) => seq![(path, "number"@, n@)],
        Doc::Str(s) => seq![(path, "string"@, quoted(s@, true))],
        Doc::Time(t) => seq![(path, "time"@, t@)],
        Doc::Array(items) => if items@.len() == 0 {
            seq![(path, "array"@, "[]"@)]
        } else {
            flat_items(items@, path, items@.len() as int)
        },
        Doc::Object(members) => if members@.len() == 0 {
            seq![(path, "object"@, "{}"@)]
        } else {
            flat_members(members@, path, members@.len() as int)
        },
    }
}

/// The entries of the first `n` items of an array under `path`.
pub open spec fn flat_items(items: Seq<Doc>, path: Seq<SegV>, n: int) -> Seq<
    (Seq<SegV>, Seq<char>, Seq<char>),
>
    decreases items, n,
{
    if n <= 0 || n > items.len() {
        Seq::empty()
    } else {
        flat_items(items, path, n - 1) + flat(items[n - 1], path.push(SegV::Idx((n - 1) as nat)))
    }
}

/// The entries of the first `n` members of an object under `path`.
pub open spec fn flat_members(members: Seq<(String, Doc)>, path: Seq<SegV>, n: int) -> Seq<
    (Seq<SegV>, Seq<char>, Seq<char>),
>
    decreases members, n,
{
    if n <= 0 || n > members.len() {
        Seq::empty()
    } else {
        flat_members(members, path, n - 1) + flat(
            members[n - 1].1,
            path.push(SegV::Key(members[n - 1].0@)),
        )
    }
}

fn push_entry(out: &mut Vec<Entry>, path: &Vec<Seg>, typ: &'static str, val: String)
    ensures
        entries_view(final(out)@) == entries_view(old(out)@).push((path_view(path@), typ@, val@)),
{
    let e = Entry { path: copy_path(path), typ, val };
    out.push(e);
    assert(entries_view(out@) =~= entries_view(old(out)@).push((path_view(path@), typ@, val@)));
}

/// Appends the entries of `d` under `path` to `out`; `path` comes back as it was.
fn flatten_into(d: &Doc, path: &mut Vec<Seg>, out: &mut Vec<Entry>)
    ensures
        path_view(final(path)@) == path_view(old(path)@),
        entries_view(final(out)@) == entries_view(old(out)@) + flat(*d, path_view(old(path)@)),
    decreases d,
{
    let ghost p0 = path_view(path@);
    let ghost o0 = entries_view(out@);
    match d {
        Doc::Null => push_entry(out, path, "null", "null".to_string()),
        Doc::Bool(b) => {
            if *b {
                push_entry(out, path, "boolean", "true".to_string())
            } else {
                push_entry(out, path, "boolean", "false".to_string())
            }
        },
        Doc::Number(n) => push_entry(out, path, "number", n.clone()),
        Doc::Str(s) => push_entry(out, path, "string", quote_readable(s.as_str())),
        Doc::Time(t) => push_entry(out, path, "time", t.clone()),
        Doc::Array(items) => {
            if items.len() == 0 {
                push_entry(out, path, "array", "[]".to_string());
            } else {
                let mut i: usize = 0;
                while i < items.len()
                    invariant
                        i <= items@.len(),
                        *d == Doc::Array(*items),
                        path_view(path@) == p0,
                        entries_view(out@) == o0 + flat_items(items@, p0, i as int),
                    decreases items@.len() - i,
                {
                    let ghost before = entries_view(out@);
                    path.push(Seg::Idx(i));
                    assert(path_view(path@) =~= p0.push(SegV::Idx(i as nat)));
                    proof {
                        assert(decreases_to!(*d => (*d)->Array_0));
                        assert(decreases_to!(*items => items@));
                        assert(decreases_to!(items@ => items@[i as int]));
                        assert(decreases_to!(*d => items@[i as int]));
                    }
                    flatten_into(&items[i], path, out);
                    let ghost pre = path@;
                    path.pop();
                    assert(path_view(path@) =~= path_view(pre).drop_last());
                    assert(path_view(path@) =~= p0);
                    i = i + 1;
                    assert(entries_view(out@) =~= o0 + flat_items(items@, p0, i as int));
                }
            }
        },
        Doc::Object(members) => {
            if members.len() == 0 {
                push_entry(out, path, "object", "{}".to_string());
            } else {
                let mut i: usize = 0;
                while i < members.len()
                    invariant
                        i <= members@.len(),
                        *d == Doc::Object(*members),
                        path_view(path@) == p0,
                        entries_view(out@) == o0 + flat_members(members@, p0, i as int),
                    decreases members@.len() - i,
                {
                    let ghost before = entries_view(out@);
                    let (k, v) = &members[i];
                    path.push(Seg::Key(k.clone()));
                    assert(path_view(path@) =~= p0.push(SegV::Key(k@)));
                    proof {
                        assert(decreases_to!(*d => (*d)->Object_0));
                        assert(decreases_to!(*members => members@));
                        assert(decreases_to!(members@ => members@[i as int]));
                        assert(decreases_to!(members@[i as int] => members@[i as int].1));
                        assert(decreases_to!(*d => members@[i as int].1));
                    }
                    flatten_into(v, path, out);
                    let ghost pre = path@;
                    path.pop();
                    assert(path_view(path@) =~= path_view(pre).drop_last());
                    assert(path_view(path@) =~= p0);
                    i = i + 1;
                    assert(entries_view(out@) =~= o0 + flat_members(members@, p0, i as int));
                }
            }
        },
    }
}

/// Where `e` goes among the sorted entries `r`: after every entry whose path
/// does not come after its own.
pub open spec fn insert_pos(
    r: Seq<(Seq<SegV>, Seq<char>, Seq<char>)>,
    e: (Seq<SegV>, Seq<char>, Seq<char>),
) -> int
    decreases r.len(),
{
    if r.len() == 0 || path_lt(e.0, r[0].0) {
        0
    } else {
        1 + insert_pos(r.drop_first(), e)
    }
}

/// The entries `s` sorted by path, entries with equal paths in their
/// input order (insertion sort).
pub open spec fn sort_spec(s: Seq<(Seq<SegV>, Seq<char>, Seq<char>)>) -> Seq<
    (Seq<SegV>, Seq<char>, Seq<char>),
>
    decreases s.len(),
{
    if s.len() == 0 {
        Seq::empty()
    } else {
        let r = sort_spec(s.drop_last());
        r.insert(insert_pos(r, s.last()), s.last())
    }
}

/// No entry's path comes before that of an entry ahead of it.
pub open spec fn sorted_by_path(s: Seq<(Seq<SegV>, Seq<char>, Seq<char>)>) -> bool {
    forall|i: int, j: int| 0 <= i < j < s.len() ==> !path_lt(#[trigger] s[j].0, #[trigger] s[i].0)
}

pub proof fn lemma_insert_pos(r: Seq<(Seq<SegV>, Seq<char>, Seq<char>)>, e: (Seq<SegV>, Seq<char>, Seq<char>))
    ensures
        0 <= insert_pos(r, e) <= r.len(),
        forall|i: int| 0 <= i < insert_pos(r, e) ==> !path_lt(e.0, #[trigger] r[i].0),
        insert_pos(r, e) < r.len() ==> path_lt(e.0, r[insert_pos(r, e)].0),
    decreases r.len(),
{
    if r.len() > 0 && !path_lt(e.0, r[0].0) {
        lemma_insert_pos(r.drop_first(), e);
        assert forall|i: int| 0 <= i < insert_pos(r, e) implies !path_lt(e.0, #[trigger] r[i].0) by {
            if i > 0 {
                assert(r[i] == r.drop_first()[i - 1]);
            }
        }
    }
}

/// Inserting at `insert_pos` keeps entries sorted.
proof fn lemma_insert_sorted(r: Seq<(Seq<SegV>, Seq<char>, Seq<char>)>, e: (Seq<SegV>, Seq<char>, Seq<char>))
    requires
        sorted_by_path(r),
    ensures
        sorted_by_path(r.insert(insert_pos(r, e), e)),
{
    lemma_insert_pos(r, e);
    let k = insert_pos(r, e);
    let s = r.insert(k, e);
    assert forall|i: int, j: int| 0 <= i < j < s.len() implies !path_lt(#[trigger] s[j].0, #[trigger] s[i].0) by {
        if i < k && j == k {
            assert(s[i] == r[i]);
        } else if i == k {
            assert(s[j] == r[j - 1]);
            if path_lt(r[j - 1].0, e.0) {
                lemma_path_lt_transitive(r[j - 1].0, e.0, r[k].0);
                if j - 1 == k {
                    lemma_path_lt_irreflexive(r[k].0);
                }
            }
        } else if j < k {
            assert(s[i] == r[i] && s[j] == r[j]);
        } else if i < k {
            assert(s[i] == r[i] && s[j] == r[j - 1]);
        } else {
            assert(s[i] == r[i - 1] && s[j] == r[j - 1]);
        }
    }
}

/// Sorting by path orders the entries by path and keeps every entry: the
/// result is sorted and holds the same entries, each as often.
pub proof fn sort_orders_and_keeps(s: Seq<(Seq<SegV>, Seq<char>, Seq<char>)>)
    ensures
        sorted_by_path(sort_spec(s)),
        sort_spec(s).to_multiset() == s.to_multiset(),
    decreases s.len(),
{
    broadcast use vstd::seq_lib::group_to_multiset_ensures;

    if s.len() > 0 {
        let r = sort_spec(s.drop_last());
        sort_orders_and_keeps(s.drop_last());
        lemma_insert_sorted(r, s.last());
        lemma_insert_pos(r, s.last());
        assert(s.drop_last().push(s.last()) =~= s);
    }
}

/// Sorts `entries` by path, keeping the order of entries with equal paths.
fn sort_entries(entries: Vec<Entry>) -> (res: Vec<Entry>)
    ensures
        entries_view(res@) == sort_spec(entries_view(entries@)),
{
    let mut rest = entries;
    let ghost all = entries_view(rest@);
    let mut res: Vec<Entry> = Vec::new();
    let mut i: usize = 0;
    let n = rest.len();
    while rest.len() > 0
        invariant
            n == all.len(),
            i + rest@.len() == n,
            entries_view(rest@) == all.skip(i as int),
            entries_view(res@) == sort_spec(all.take(i as int)),
        decreases rest@.len(),
    {
        let ghost rv = entries_view(res@);
        let ghost old_rest = rest@;
        let e = rest.remove(0);
        assert(rest@ == old_rest.remove(0));
        assert forall|j: int| 0 <= j < rest@.len() implies #[trigger] entries_view(rest@)[j] == all.skip(i + 1)[j] by {
            assert(rest@[j] == old_rest[j + 1]);
            assert(entries_view(old_rest)[j + 1] == all.skip(i as int)[j + 1]);
        }
        assert(entries_view(rest@) =~= all.skip(i + 1));
        assert(entry_view(e) == all[i as int]) by {
            assert(all.skip(i as int)[0] == all[i as int]);
        }
        let mut k: usize = 0;
        assert(rv.skip(0) =~= rv);
        while k < res.len() && !path_less(&e.path, &res[k].path)
            invariant
                k <= res@.len(),
                rv == entries_view(res@),
                insert_pos(rv, entry_view(e)) == k + insert_pos(rv.skip(k as int), entry_view(e)),
            decreases res@.len() - k,
        {
            assert(rv.skip(k as int).drop_first() =~= rv.skip(k + 1));
            assert(rv.skip(k as int)[0] == rv[k as int]);
            k = k + 1;
        }
        proof {
            if k < res@.len() {
                assert(rv.skip(k as int)[0] == rv[k as int]);
            } else {
                assert(rv.skip(k as int).len() == 0);
            }
        }
        res.insert(k, e);
        proof {
            assert(all.take(i + 1).drop_last() =~= all.take(i as int));
            assert(all.take(i + 1).last() == all[i as int]);
            assert(entries_view(res@) =~= rv.insert(k as int, entry_view(e)));
        }
        i = i + 1;
    }
    assert(all.take(n as int) =~= all);
    res
}

/// The flat entries of `doc`: one per leaf in document order, each with the
/// path of the leaf, its type name (`null`, `boolean`, `number`, `string`,
/// `time`, `array` or `object`) and its value text (strings quoted
/// readably, empty containers as `[]` and `{}`); sorted by path when `sort`.
pub fn flatten(doc: &Doc, sort: bool) -> (res: Vec<Entry>)
    ensures
        entries_view(res@) == if sort {
            sort_spec(flat(*doc, Seq::empty()))
        } else {
            flat(*doc, Seq::empty())
        },
{
    let mut path: Vec<Seg> = Vec::new();
    let mut out: Vec<Entry> = Vec::new();
    assert(path_view(path@) =~= Seq::<SegV>::empty());
    flatten_into(doc, &mut path, &mut out);
    assert(entries_view(Seq::<Entry>::empty()) =~= Seq::empty());
    if sort {
        sort_entries(out)
    } else {
        out
    }
}

/// A document format.
#[derive(Clone, Copy, PartialEq, Eq, Structural, Debug)]
pub enum Fmt {
    Json,
    Yaml,
    Toml,
    Env,
}

/// The format a name stands for: `json`, `yaml` or `yml`, `toml`, `env`.
pub open spec fn fmt_named(s: Seq<char>) -> Option<Fmt> {
    if s == "json"@ {
        Some(Fmt::Json)
    } else if s == "yaml"@ || s == "yml"@ {
        Some(Fmt::Yaml)
    } else if s == "toml"@ {
        Some(Fmt::Toml)
    } else if s == "env"@ {
        Some(Fmt::Env)
    } else {
        None
    }
}

impl Fmt {
    /// The format named `s`, if any.
    pub fn parse(s: &str) -> (r: Option<Fmt>)
        ensures
            r == fmt_named(s@),
    {
        if eq_str(s, "json") {
            Some(Fmt::Json)
        } else if eq_str(s, "yaml") || eq_str(s, "yml") {
            Some(Fmt::Yaml)
        } else if eq_str(s, "toml") {
            Some(Fmt::Toml)
        } else if eq_str(s, "env") {
            Some(Fmt::Env)
        } else {
            None
        }
    }
}

/// Whether the TOML parser accepts `s` as a document.
pub uninterp spec fn toml_accepts(s: Seq<char>) -> bool;

/// Calls `toml::from_str::<toml::Value>` and reports whether it succeeded;
/// the outcome depends on the text alone, and is named `toml_accepts`.
#[verifier::external_body]
fn toml_parses(input: &str) -> (b: bool)
    ensures
        b == toml_accepts(input@),
{
    toml::from_str::<toml::Value>(input).is_ok()
}

/// Whether an input is read as TOML (else as YAML): as the forced format
/// says, or, with none forced, when it parses as TOML.
pub fn use_toml(input: &str, force: Option<Fmt>) -> (b: bool)
    ensures
        b == match force {
            Some(Fmt::Toml) => true,
            Some(_) => false,
            None => toml_accepts(input@),
        },
{
    match force {
        Some(Fmt::Toml) => true,
        Some(_) => false,
        None => toml_parses(input),
    }
}

/// The flat line of an entry: path, type and value, separated by `sep`.
pub fn entry_line(e: &Entry, sep: &str) -> (r: String)
    ensures
        r@ == path_text(path_view(e.path@), sep@) + sep@ + e.typ@ + sep@ + e.val@,
{
    let mut r = fmt_path(e.path.as_slice(), sep);
    let ghost p = r@;
    crate::text::push_str(&mut r, sep);
    crate::text::push_str(&mut r, e.typ);
    crate::text::push_str(&mut r, sep);
    crate::text::push_str(&mut r, e.val.as_str());
    assert(r@ =~= p + sep@ + e.typ@ + sep@ + e.val@);
    r
}

} // verus!
