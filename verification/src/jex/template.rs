//! Templates compiled from JSON, applied to input text, and rules that
//! decide which results are written.
use vstd::prelude::*;
use crate::jex::field::{
    field_spec, field_view, parse_field, regex_expand, regex_expanded, regex_find, regex_first, Field,
    FieldV,
};
use crate::jflat::doc::{copy_doc, Doc, DocV, items_view, lemma_items_view, lemma_members_view, members_view};
use crate::jflat::unflat::{json_parsed, parse_json};

verus! {

/// A template with its strings compiled into fields.
pub enum CompiledValue {
    Field(Field),
    Fixed(Doc),
    Object(Vec<(String, CompiledValue)>),
    Array(Vec<CompiledValue>),
}

/// What a compiled template stands for.
pub enum CompiledV {
    Field(FieldV),
    Fixed(DocV),
    Object(Seq<(Seq<char>, CompiledV)>),
    Array(Seq<CompiledV>),
}

pub open spec fn cv_view(c: CompiledValue) -> CompiledV
    decreases c, 0int,
{
    match c {
        CompiledValue::Field(f) => CompiledV::Field(field_view(f)),
        CompiledValue::Fixed(d) => CompiledV::Fixed(d@),
        CompiledValue::Object(fs) => CompiledV::Object(cvm_view(fs@, fs@.len() as int)),
        CompiledValue::Array(items) => CompiledV::Array(cvs_view(items@, items@.len() as int)),
    }
}

pub open spec fn cvs_view(items: Seq<CompiledValue>, n: int) -> Seq<CompiledV>
    decreases items, n,
{
    if n <= 0 || n > items.len() {
        Seq::empty()
    } else {
        cvs_view(items, n - 1).push(cv_view(items[n - 1]))
    }
}

pub open spec fn cvm_view(fs: Seq<(String, CompiledValue)>, n: int) -> Seq<(Seq<char>, CompiledV)>
    decreases fs, n,
{
    if n <= 0 || n > fs.len() {
        Seq::empty()
    } else {
        cvm_view(fs, n - 1).push((fs[n - 1].0@, cv_view(fs[n - 1].1)))
    }
}

proof fn lemma_cvs_view(items: Seq<CompiledValue>, n: int)
    requires
        0 <= n <= items.len(),
    ensures
        cvs_view(items, n).len() == n,
        forall|j: int| 0 <= j < n ==> #[trigger] cvs_view(items, n)[j] == cv_view(items[j]),
    decreases n,
{
    if n > 0 {
        lemma_cvs_view(items, n - 1);
    }
}

proof fn lemma_cvm_view(fs: Seq<(String, CompiledValue)>, n: int)
    requires
        0 <= n <= fs.len(),
    ensures
        cvm_view(fs, n).len() == n,
        forall|j: int|
            0 <= j < n ==> #[trigger] cvm_view(fs, n)[j] == (fs[j].0@, cv_view(fs[j].1)),
    decreases n,
{
    if n > 0 {
        lemma_cvm_view(fs, n - 1);
    }
}

/// What a template compiles to: every string becomes a field (see
/// `field_spec`), other scalars stay fixed; the first error, in document
/// order, is the result.
pub open spec fn compile_spec(d: DocV) -> Result<CompiledV, Seq<char>>
    decreases d, 0int,
{
    match d {
        DocV::Object(ms) => match compile_members(ms, ms.len() as int) {
            Ok(r) => Ok(CompiledV::Object(r)),
            Err(e) => Err(e),
        },
        DocV::Array(items) => match compile_items(items, items.len() as int) {
            Ok(r) => Ok(CompiledV::Array(r)),
            Err(e) => Err(e),
        },
        DocV::Str(s) => match field_spec(s) {
            Ok(f) => Ok(CompiledV::Field(f)),
            Err(e) => Err(e),
        },
        other => Ok(CompiledV::Fixed(other)),
    }
}

pub open spec fn compile_items(items: Seq<DocV>, n: int) -> Result<Seq<CompiledV>, Seq<char>>
    decreases items, n,
{
    if n <= 0 || n > items.len() {
        Ok(Seq::empty())
    } else {
        match compile_items(items, n - 1) {
            Ok(r) => match compile_spec(items[n - 1]) {
                Ok(c) => Ok(r.push(c)),
                Err(e) => Err(e),
            },
            Err(e) => Err(e),
        }
    }
}

pub open spec fn compile_members(ms: Seq<(Seq<char>, DocV)>, n: int) -> Result<
    Seq<(Seq<char>, CompiledV)>,
    Seq<char>,
>
    decreases ms, n,
{
    if n <= 0 || n > ms.len() {
        Ok(Seq::empty())
    } else {
        match compile_members(ms, n - 1) {
            Ok(r) => match compile_spec(ms[n - 1].1) {
                Ok(c) => Ok(r.push((ms[n - 1].0, c))),
                Err(e) => Err(e),
            },
            Err(e) => Err(e),
        }
    }
}

proof fn lemma_compile_items_err(items: Seq<DocV>, n: int, m: int)
    requires
        0 <= n <= m <= items.len(),
        compile_items(items, n) is Err,
    ensures
        compile_items(items, m) == compile_items(items, n),
    decreases m - n,
{
    if n < m {
        lemma_compile_items_err(items, n, m - 1);
    }
}

proof fn lemma_compile_members_err(ms: Seq<(Seq<char>, DocV)>, n: int, m: int)
    requires
        0 <= n <= m <= ms.len(),
        compile_members(ms, n) is Err,
    ensures
        compile_members(ms, m) == compile_members(ms, n),
    decreases m - n,
{
    if n < m {
        lemma_compile_members_err(ms, n, m - 1);
    }
}

/// Reads a JSON template (`serde_json`).
pub fn parse_template(src: &str) -> (r: Result<Doc, String>)
    ensures
        match json_parsed(src@) {
            Ok(d) => r matches Ok(x) && x@ == d,
            Err(e) => r matches Err(m) && m@ == e,
        },
{
    parse_json(src)
}

/// Compiles a template (see `compile_spec`).
pub fn compile(v: &Doc) -> (r: Result<CompiledValue, String>)
    ensures
        match compile_spec(v@) {
            Ok(c) => r matches Ok(x) && cv_view(x) == c,
            Err(e) => r matches Err(m) && m@ == e,
        },
    decreases v,
{
    match v {
        Doc::Object(ms) => {
            proof {
                lemma_members_view(ms@, ms@.len() as int);
            }
            let ghost mv = members_view(ms@, ms@.len() as int);
            let mut out: Vec<(String, CompiledValue)> = Vec::new();
            let mut i: usize = 0;
            while i < ms.len()
                invariant
                    *v == Doc::Object(*ms),
                    i <= ms@.len(),
                    mv == members_view(ms@, ms@.len() as int),
                    mv.len() == ms@.len(),
                    forall|j: int|
                        0 <= j < ms@.len() ==> #[trigger] mv[j] == (ms@[j].0@, ms@[j].1@),
                    compile_members(mv, i as int) matches Ok(r) && r == cvm_view(
                        out@,
                        out@.len() as int,
                    ),
                decreases ms@.len() - i,
            {
                proof {
                    assert(decreases_to!(*v => (*v)->Object_0));
                    assert(decreases_to!(*ms => ms@));
                    assert(decreases_to!(ms@ => ms@[i as int]));
                    assert(decreases_to!(ms@[i as int] => ms@[i as int].1));
                }
                let (k, x) = &ms[i];
                match compile(x) {
                    Ok(c) => {
                        let ghost before = out@;
                        out.push((k.clone(), c));
                        proof {
                            lemma_cvm_view(before, before.len() as int);
                            lemma_cvm_view(out@, out@.len() as int);
                            assert(cvm_view(out@, out@.len() as int) =~= cvm_view(
                                before,
                                before.len() as int,
                            ).push((k@, cv_view(c))));
                        }
                    },
                    Err(e) => {
                        proof {
                            lemma_compile_members_err(mv, i + 1, ms@.len() as int);
                        }
                        return Err(e);
                    },
                }
                i = i + 1;
            }
            Ok(CompiledValue::Object(out))
        },
        Doc::Array(items) => {
            proof {
                lemma_items_view(items@, items@.len() as int);
            }
            let ghost iv = items_view(items@, items@.len() as int);
            let mut out: Vec<CompiledValue> = Vec::new();
            let mut i: usize = 0;
            while i < items.len()
                invariant
                    *v == Doc::Array(*items),
                    i <= items@.len(),
                    iv == items_view(items@, items@.len() as int),
                    iv.len() == items@.len(),
                    forall|j: int| 0 <= j < items@.len() ==> #[trigger] iv[j] == items@[j]@,
                    compile_items(iv, i as int) matches Ok(r) && r == cvs_view(
                        out@,
                        out@.len() as int,
                    ),
                decreases items@.len() - i,
            {
                proof {
                    assert(decreases_to!(*v => (*v)->Array_0));
                    assert(decreases_to!(*items => items@));
                    assert(decreases_to!(items@ => items@[i as int]));
                }
                match compile(&items[i]) {
                    Ok(c) => {
                        let ghost before = out@;
                        out.push(c);
                        proof {
                            lemma_cvs_view(before, before.len() as int);
                            lemma_cvs_view(out@, out@.len() as int);
                            assert(cvs_view(out@, out@.len() as int) =~= cvs_view(
                                before,
                                before.len() as int,
                            ).push(cv_view(c)));
                        }
                    },
                    Err(e) => {
                        proof {
                            lemma_compile_items_err(iv, i + 1, items@.len() as int);
                        }
                        return Err(e);
                    },
                }
                i = i + 1;
            }
            Ok(CompiledValue::Array(out))
        },
        Doc::Str(s) => match parse_field(s.as_str()) {
            Ok(f) => Ok(CompiledValue::Field(f)),
            Err(e) => Err(e),
        },
        _ => Ok(CompiledValue::Fixed(copy_doc(v))),
    }
}

/// A count as a machine word keeps it: capped at `usize::MAX`.
pub open spec fn sat(n: nat) -> nat {
    if n > usize::MAX {
        usize::MAX as nat
    } else {
        n
    }
}

/// The value a template gives for `input`, with how many of its regular
/// expressions matched and how many it has. A regular expression gives its
/// first match, or its replacement expanded with the groups of its first
/// match, or null when it does not match.
pub open spec fn apply_spec(c: CompiledV, input: Seq<char>) -> (DocV, nat, nat)
    decreases c, 0int,
{
    match c {
        CompiledV::Fixed(v) => (v, 0, 0),
        CompiledV::Field(FieldV::Literal(v)) => (v, 0, 0),
        CompiledV::Field(FieldV::Regex(p, rep)) => {
            let found = match rep {
                None => regex_first(p, input),
                Some(r) => regex_expanded(p, r, input),
            };
            match found {
                Some(m) => (DocV::Str(m), 1, 1),
                None => (DocV::Null, 0, 1),
            }
        },
        CompiledV::Object(fs) => {
            let r = apply_members(fs, input, fs.len() as int);
            (DocV::Object(r.0), r.1, r.2)
        },
        CompiledV::Array(items) => {
            let r = apply_items(items, input, items.len() as int);
            (DocV::Array(r.0), r.1, r.2)
        },
    }
}

pub open spec fn apply_items(items: Seq<CompiledV>, input: Seq<char>, n: int) -> (
    Seq<DocV>,
    nat,
    nat,
)
    decreases items, n,
{
    if n <= 0 || n > items.len() {
        (Seq::empty(), 0, 0)
    } else {
        let r = apply_items(items, input, n - 1);
        let x = apply_spec(items[n - 1], input);
        (r.0.push(x.0), r.1 + x.1, r.2 + x.2)
    }
}

pub open spec fn apply_members(fs: Seq<(Seq<char>, CompiledV)>, input: Seq<char>, n: int) -> (
    Seq<(Seq<char>, DocV)>,
    nat,
    nat,
)
    decreases fs, n,
{
    if n <= 0 || n > fs.len() {
        (Seq::empty(), 0, 0)
    } else {
        let r = apply_members(fs, input, n - 1);
        let x = apply_spec(fs[n - 1].1, input);
        (r.0.push((fs[n - 1].0, x.0)), r.1 + x.1, r.2 + x.2)
    }
}

impl CompiledValue {
    /// The value for `input`, with the number of regular expressions that
    /// matched and their total number (see `apply_spec`; counts are capped
    /// at `usize::MAX`).
    pub fn apply(&self, input: &str) -> (r: (Doc, usize, usize))
        ensures
            r.0@ == apply_spec(cv_view(*self), input@).0,
            r.1 == sat(apply_spec(cv_view(*self), input@).1),
            r.2 == sat(apply_spec(cv_view(*self), input@).2),
        decreases self,
    {
        match self {
            CompiledValue::Fixed(v) => (copy_doc(v), 0, 0),
            CompiledValue::Field(Field::Literal(v)) => (copy_doc(v), 0, 0),
            CompiledValue::Field(Field::Regex { pattern, replace }) => {
                let found = match replace {
                    None => regex_find(pattern.as_str(), input),
                    Some(rep) => regex_expand(pattern.as_str(), rep.as_str(), input),
                };
                match found {
                    Some(m) => (Doc::Str(m), 1, 1),
                    None => (Doc::Null, 0, 1),
                }
            },
            CompiledValue::Object(fs) => {
                proof {
                    lemma_cvm_view(fs@, fs@.len() as int);
                }
                let ghost fv = cvm_view(fs@, fs@.len() as int);
                let mut out: Vec<(String, Doc)> = Vec::new();
                let mut matched: usize = 0;
                let mut total: usize = 0;
                let mut i: usize = 0;
                while i < fs.len()
                    invariant
                        *self == CompiledValue::Object(*fs),
                        i <= fs@.len(),
                        fv == cvm_view(fs@, fs@.len() as int),
                        fv.len() == fs@.len(),
                        forall|j: int|
                            0 <= j < fs@.len() ==> #[trigger] fv[j] == (fs@[j].0@, cv_view(fs@[j].1)),
                        members_view(out@, out@.len() as int) == apply_members(fv, input@, i as int).0,
                        matched == sat(apply_members(fv, input@, i as int).1),
                        total == sat(apply_members(fv, input@, i as int).2),
                    decreases fs@.len() - i,
                {
                    proof {
                        assert(decreases_to!(*self => (*self)->Object_0));
                        assert(decreases_to!(*fs => fs@));
                        assert(decreases_to!(fs@ => fs@[i as int]));
                        assert(decreases_to!(fs@[i as int] => fs@[i as int].1));
                    }
                    let (k, cv) = &fs[i];
                    let (v, m, t) = cv.apply(input);
                    let ghost before = out@;
                    out.push((k.clone(), v));
                    matched = matched.saturating_add(m);
                    total = total.saturating_add(t);
                    proof {
                        lemma_members_view(before, before.len() as int);
                        lemma_members_view(out@, out@.len() as int);
                        assert(members_view(out@, out@.len() as int) =~= members_view(
                            before,
                            before.len() as int,
                        ).push((k@, v@)));
                    }
                    i = i + 1;
                }
                (Doc::Object(out), matched, total)
            },
            CompiledValue::Array(items) => {
                proof {
                    lemma_cvs_view(items@, items@.len() as int);
                }
                let ghost iv = cvs_view(items@, items@.len() as int);
                let mut out: Vec<Doc> = Vec::new();
                let mut matched: usize = 0;
                let mut total: usize = 0;
                let mut i: usize = 0;
                while i < items.len()
                    invariant
                        *self == CompiledValue::Array(*items),
                        i <= items@.len(),
                        iv == cvs_view(items@, items@.len() as int),
                        iv.len() == items@.len(),
                        forall|j: int| 0 <= j < items@.len() ==> #[trigger] iv[j] == cv_view(items@[j]),
                        items_view(out@, out@.len() as int) == apply_items(iv, input@, i as int).0,
                        matched == sat(apply_items(iv, input@, i as int).1),
                        total == sat(apply_items(iv, input@, i as int).2),
                    decreases items@.len() - i,
                {
                    proof {
                        assert(decreases_to!(*self => (*self)->Array_0));
                        assert(decreases_to!(*items => items@));
                        assert(decreases_to!(items@ => items@[i as int]));
                    }
                    let (v, m, t) = items[i].apply(input);
                    let ghost before = out@;
                    out.push(v);
                    matched = matched.saturating_add(m);
                    total = total.saturating_add(t);
                    proof {
                        lemma_items_view(before, before.len() as int);
                        lemma_items_view(out@, out@.len() as int);
                        assert(items_view(out@, out@.len() as int) =~= items_view(
                            before,
                            before.len() as int,
                        ).push(v@));
                    }
                    i = i + 1;
                }
                (Doc::Array(out), matched, total)
            },
        }
    }
}

/// Which results of a template are written.
#[derive(Clone, Copy, PartialEq, Eq, Structural, Debug)]
pub enum Mode {
    /// Every regular expression must match (the default).
    AllMatch,
    /// At least one must match (or there are none).
    AtLeastOne,
    /// Always written.
    Always,
}

/// Whether a result with `matched` of `total` regular expressions matching
/// is written.
pub open spec fn passes(mode: Mode, matched: nat, total: nat) -> bool {
    match mode {
        Mode::Always => true,
        Mode::AtLeastOne => total == 0 || matched > 0,
        Mode::AllMatch => matched == total,
    }
}

/// A template with its mode.
pub struct Rule {
    pub mode: Mode,
    pub compiled: CompiledValue,
}

/// What a rule writes for `input`, if anything (counts as `apply` keeps them).
pub open spec fn rule_spec(mode: Mode, c: CompiledV, input: Seq<char>) -> Option<DocV> {
    let r = apply_spec(c, input);
    if passes(mode, sat(r.1), sat(r.2)) {
        Some(r.0)
    } else {
        None
    }
}

pub open spec fn doc_opt_view(d: Option<Doc>) -> Option<DocV> {
    match d {
        Some(x) => Some(x@),
        None => None,
    }
}

impl Rule {
    /// The value of the template for `input` if the mode lets it through.
    pub fn apply_and_check(&self, input: &str) -> (r: Option<Doc>)
        ensures
            doc_opt_view(r) == rule_spec(self.mode, cv_view(self.compiled), input@),
    {
        let (val, matched, total) = self.compiled.apply(input);
        let pass = match self.mode {
            Mode::Always => true,
            Mode::AtLeastOne => total == 0 || matched > 0,
            Mode::AllMatch => matched == total,
        };
        if pass {
            Some(val)
        } else {
            None
        }
    }
}

/// The values written for `input` by the rules `rules`, in rule order.
pub open spec fn process_spec(rules: Seq<Rule>, input: Seq<char>) -> Seq<DocV>
    decreases rules.len(),
{
    if rules.len() == 0 {
        Seq::empty()
    } else {
        process_spec(rules.drop_last(), input) + match rule_spec(
            rules.last().mode,
            cv_view(rules.last().compiled),
            input,
        ) {
            Some(v) => seq![v],
            None => Seq::empty(),
        }
    }
}

/// The values to write for `input`, one per rule that lets its result
/// through, in rule order.
pub fn process(input: &str, rules: &[Rule]) -> (r: Vec<Doc>)
    ensures
        r@.len() == process_spec(rules@, input@).len(),
        forall|i: int| 0 <= i < r@.len() ==> #[trigger] r@[i]@ == process_spec(rules@, input@)[i],
{
    let mut out: Vec<Doc> = Vec::new();
    let mut i: usize = 0;
    while i < rules.len()
        invariant
            i <= rules@.len(),
            out@.len() == process_spec(rules@.take(i as int), input@).len(),
            forall|j: int|
                0 <= j < out@.len() ==> #[trigger] out@[j]@ == process_spec(
                    rules@.take(i as int),
                    input@,
                )[j],
        decreases rules@.len() - i,
    {
        assert(rules@.take(i + 1).drop_last() =~= rules@.take(i as int));
        assert(rules@.take(i + 1).last() == rules@[i as int]);
        match rules[i].apply_and_check(input) {
            Some(v) => {
                out.push(v);
            },
            None => {},
        }
        i = i + 1;
    }
    assert(rules@.take(rules@.len() as int) =~= rules@);
    out
}

/// A rule in `Always` mode writes its value whatever the input.
pub proof fn always_mode_writes(c: CompiledV, input: Seq<char>)
    ensures
        rule_spec(Mode::Always, c, input) == Some(apply_spec(c, input).0),
{
}

/// In `AllMatch` mode a rule writes its value only if every regular
/// expression of the template matched.
pub proof fn all_match_needs_every_match(c: CompiledV, input: Seq<char>)
    ensures
        rule_spec(Mode::AllMatch, c, input) is Some <==> sat(apply_spec(c, input).1) == sat(
            apply_spec(c, input).2,
        ),
{
}

/// In `AtLeastOne` mode a rule writes its value when one of the regular
/// expressions of the template matched, or when it has none.
pub proof fn at_least_one_needs_a_match(c: CompiledV, input: Seq<char>)
    ensures
        rule_spec(Mode::AtLeastOne, c, input) is Some <==> (sat(apply_spec(c, input).2) == 0 || sat(
            apply_spec(c, input).1,
        ) > 0),
{
}

/// What the regular expression `p` (with the optional replacement `rep`)
/// gives for `input`.
pub open spec fn field_found(p: Seq<char>, rep: Option<Seq<char>>, input: Seq<char>) -> Option<
    Seq<char>,
> {
    match rep {
        None => regex_first(p, input),
        Some(r) => regex_expanded(p, r, input),
    }
}

/// How many regular expressions a template holds, and how many of them
/// match `input` (`found == false` counts them all).
pub open spec fn regex_count(c: CompiledV, input: Seq<char>, found: bool) -> nat
    decreases c, 0int,
{
    match c {
        CompiledV::Field(FieldV::Regex(p, rep)) => if !found || field_found(p, rep, input) is Some {
            1
        } else {
            0
        },
        CompiledV::Object(fs) => regex_count_members(fs, input, found, fs.len() as int),
        CompiledV::Array(items) => regex_count_items(items, input, found, items.len() as int),
        _ => 0,
    }
}

pub open spec fn regex_count_items(items: Seq<CompiledV>, input: Seq<char>, found: bool, n: int) -> nat
    decreases items, n,
{
    if n <= 0 || n > items.len() {
        0
    } else {
        regex_count_items(items, input, found, n - 1) + regex_count(items[n - 1], input, found)
    }
}

pub open spec fn regex_count_members(
    fs: Seq<(Seq<char>, CompiledV)>,
    input: Seq<char>,
    found: bool,
    n: int,
) -> nat
    decreases fs, n,
{
    if n <= 0 || n > fs.len() {
        0
    } else {
        regex_count_members(fs, input, found, n - 1) + regex_count(fs[n - 1].1, input, found)
    }
}

proof fn lemma_apply_counts(c: CompiledV, input: Seq<char>)
    ensures
        apply_spec(c, input).2 == regex_count(c, input, false),
        apply_spec(c, input).1 == regex_count(c, input, true),
        apply_spec(c, input).1 <= apply_spec(c, input).2,
    decreases c, 0int,
{
    match c {
        CompiledV::Object(fs) => lemma_apply_counts_members(fs, input, fs.len() as int),
        CompiledV::Array(items) => lemma_apply_counts_items(items, input, items.len() as int),
        _ => {},
    }
}

proof fn lemma_apply_counts_items(items: Seq<CompiledV>, input: Seq<char>, n: int)
    ensures
        apply_items(items, input, n).2 == regex_count_items(items, input, false, n),
        apply_items(items, input, n).1 == regex_count_items(items, input, true, n),
        apply_items(items, input, n).1 <= apply_items(items, input, n).2,
    decreases items, n,
{
    if 0 < n <= items.len() {
        lemma_apply_counts_items(items, input, n - 1);
        lemma_apply_counts(items[n - 1], input);
    }
}

proof fn lemma_apply_counts_members(fs: Seq<(Seq<char>, CompiledV)>, input: Seq<char>, n: int)
    ensures
        apply_members(fs, input, n).2 == regex_count_members(fs, input, false, n),
        apply_members(fs, input, n).1 == regex_count_members(fs, input, true, n),
        apply_members(fs, input, n).1 <= apply_members(fs, input, n).2,
    decreases fs, n,
{
    if 0 < n <= fs.len() {
        lemma_apply_counts_members(fs, input, n - 1);
        lemma_apply_counts(fs[n - 1].1, input);
    }
}

/// `apply` counts, as its total, every regular expression of the template,
/// whatever the input; as matched, those of them that match the input; so
/// no more match than there are.
pub proof fn apply_counts_regexes(c: CompiledV, input: Seq<char>, other: Seq<char>)
    ensures
        apply_spec(c, input).2 == regex_count(c, input, false),
        apply_spec(c, input).2 == apply_spec(c, other).2,
        apply_spec(c, input).1 == regex_count(c, input, true),
        apply_spec(c, input).1 <= apply_spec(c, input).2,
{
    lemma_apply_counts(c, input);
    lemma_apply_counts(c, other);
    lemma_count_all_blind(c, input, other);
}

proof fn lemma_count_all_blind(c: CompiledV, a: Seq<char>, b: Seq<char>)
    ensures
        regex_count(c, a, false) == regex_count(c, b, false),
    decreases c, 0int,
{
    match c {
        CompiledV::Object(fs) => lemma_count_all_blind_members(fs, a, b, fs.len() as int),
        CompiledV::Array(items) => lemma_count_all_blind_items(items, a, b, items.len() as int),
        _ => {},
    }
}

proof fn lemma_count_all_blind_items(items: Seq<CompiledV>, a: Seq<char>, b: Seq<char>, n: int)
    ensures
        regex_count_items(items, a, false, n) == regex_count_items(items, b, false, n),
    decreases items, n,
{
    if 0 < n <= items.len() {
        lemma_count_all_blind_items(items, a, b, n - 1);
        lemma_count_all_blind(items[n - 1], a, b);
    }
}

proof fn lemma_count_all_blind_members(fs: Seq<(Seq<char>, CompiledV)>, a: Seq<char>, b: Seq<char>, n: int)
    ensures
        regex_count_members(fs, a, false, n) == regex_count_members(fs, b, false, n),
    decreases fs, n,
{
    if 0 < n <= fs.len() {
        lemma_count_all_blind_members(fs, a, b, n - 1);
        lemma_count_all_blind(fs[n - 1].1, a, b);
    }
}

} // verus!
