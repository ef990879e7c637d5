//! Block-level helpers: rules, fence languages, code printers, file names.
use vstd::prelude::*;
use crate::jflat::line::{lines, lines_of};
use crate::md::inline::{GREEN, RESET};
use crate::text::{
    chars_of, decimal, eq_str, is_whitespace, is_ws, push_char, push_decimal, push_str, string_of,
    trim, trim_bounds, trim_start,
};

verus! {

/// How many times `c` occurs in `s`.
pub open spec fn count_char(s: Seq<char>, c: char) -> nat
    decreases s.len(),
{
    if s.len() == 0 {
        0
    } else {
        count_char(s.drop_last(), c) + if s.last() == c {
            1nat
        } else {
            0nat
        }
    }
}

/// A thematic break: after trimming, at least three of one of `-`, `*`,
/// `_`, and nothing else but spaces.
pub open spec fn is_hr_spec(line: Seq<char>) -> bool {
    let t = trim(line);
    &&& t.len() >= 3
    &&& (t[0] == '-' || t[0] == '*' || t[0] == '_')
    &&& forall|i: int| 0 <= i < t.len() ==> #[trigger] t[i] == t[0] || t[i] == ' '
    &&& count_char(t, t[0]) >= 3
}

/// Whether `line` is a thematic break (see `is_hr_spec`).
pub fn is_hr(line: &str) -> (b: bool)
    ensures
        b == is_hr_spec(line@),
{
    let v = chars_of(line);
    let (lo, hi) = trim_bounds(&v);
    let ghost t = trim(line@);
    assert(t =~= v@.subrange(lo as int, hi as int));
    if hi - lo < 3 {
        return false;
    }
    let c = v[lo];
    if !(c == '-' || c == '*' || c == '_') {
        return false;
    }
    let mut count: usize = 0;
    let mut i = lo;
    while i < hi
        invariant
            lo <= i <= hi <= v@.len(),
            t == v@.subrange(lo as int, hi as int),
            t == trim(line@),
            c == t[0],
            count == count_char(t.take(i - lo), c),
            count <= i - lo,
            forall|x: int| 0 <= x < i - lo ==> #[trigger] t[x] == c || t[x] == ' ',
        decreases hi - i,
    {
        let x = v[i];
        assert(t[i - lo] == x);
        assert(t.take(i - lo + 1).drop_last() =~= t.take(i - lo));
        if x != c && x != ' ' {
            assert(!(t[i - lo] == t[0] || t[i - lo] == ' '));
            assert(0 <= i - lo < t.len());
            return false;
        }
        if x == c {
            count = count + 1;
        }
        i = i + 1;
    }
    assert(t.take(hi - lo) =~= t);
    count >= 3
}

/// ASCII letters made lower case (`str::to_ascii_lowercase`).
pub open spec fn ascii_lower(s: Seq<char>) -> Seq<char> {
    s.map_values(|c: char| if 'A' <= c && c <= 'Z' { ((c as int) + 32) as char } else { c })
}

/// The file extension for a fence language (case-insensitive); `txt` for
/// one not listed.
pub open spec fn ext_for(l: Seq<char>) -> Seq<char> {
    if l == "c"@ {
        "c"@
    } else if l == "cpp"@ || l == "c++"@ {
        "cpp"@
    } else if l == "csharp"@ || l == "cs"@ || l == "c#"@ {
        "cs"@
    } else if l == "css"@ {
        "css"@
    } else if l == "dockerfile"@ {
        "dockerfile"@
    } else if l == "elixir"@ || l == "ex"@ {
        "ex"@
    } else if l == "fish"@ {
        "fish"@
    } else if l == "fsharp"@ || l == "fs"@ || l == "f#"@ {
        "fs"@
    } else if l == "go"@ {
        "go"@
    } else if l == "haskell"@ || l == "hs"@ {
        "hs"@
    } else if l == "html"@ {
        "html"@
    } else if l == "ini"@ {
        "ini"@
    } else if l == "java"@ {
        "java"@
    } else if l == "javascript"@ || l == "js"@ {
        "js"@
    } else if l == "json"@ {
        "json"@
    } else if l == "jsx"@ {
        "jsx"@
    } else if l == "kotlin"@ || l == "kt"@ {
        "kt"@
    } else if l == "lua"@ {
        "lua"@
    } else if l == "makefile"@ {
        "makefile"@
    } else if l == "nim"@ {
        "nim"@
    } else if l == "powershell"@ || l == "pwsh"@ || l == "ps1"@ {
        "ps1"@
    } else if l == "python"@ || l == "py"@ {
        "py"@
    } else if l == "r"@ {
        "r"@
    } else if l == "ruby"@ || l == "rb"@ {
        "rb"@
    } else if l == "rust"@ || l == "rs"@ {
        "rs"@
    } else if l == "scala"@ {
        "scala"@
    } else if l == "scss"@ {
        "scss"@
    } else if l == "shell"@ || l == "sh"@ || l == "bash"@ {
        "sh"@
    } else if l == "sql"@ {
        "sql"@
    } else if l == "swift"@ {
        "swift"@
    } else if l == "toml"@ {
        "toml"@
    } else if l == "tsx"@ {
        "tsx"@
    } else if l == "typescript"@ || l == "ts"@ {
        "ts"@
    } else if l == "yaml"@ || l == "yml"@ {
        "yaml"@
    } else if l == "zsh"@ {
        "zsh"@
    } else {
        "txt"@
    }
}

fn lower_ascii(s: &str) -> (r: String)
    ensures
        r@ == ascii_lower(s@),
{
    let v = chars_of(s);
    let mut out = String::new();
    let mut i: usize = 0;
    while i < v.len()
        invariant
            i <= v@.len(),
            v@ == s@,
            out@ == ascii_lower(s@).take(i as int),
        decreases v@.len() - i,
    {
        let c = v[i];
        let d = if 'A' <= c && c <= 'Z' {
            ((c as u32 + 32) as u8) as char
        } else {
            c
        };
        assert(d == ascii_lower(s@)[i as int]);
        push_char(&mut out, d);
        i = i + 1;
        assert(out@ =~= ascii_lower(s@).take(i as int));
    }
    assert(ascii_lower(s@).take(v@.len() as int) =~= ascii_lower(s@));
    out
}

/// The file extension for the fence language `lang` (see `ext_for`).
#[verifier::spinoff_prover]
#[verifier::rlimit(60)]
pub fn lang_ext(lang: &str) -> (r: &'static str)
    ensures
        r@ == lang_ext_of(lang@),
{
    let low = lower_ascii(lang);
    let l = low.as_str();
    if eq_str(l, "c") {
        "c"
    } else if eq_str(l, "cpp") || eq_str(l, "c++") {
        "cpp"
    } else if eq_str(l, "csharp") || eq_str(l, "cs") || eq_str(l, "c#") {
        "cs"
    } else if eq_str(l, "css") {
        "css"
    } else if eq_str(l, "dockerfile") {
        "dockerfile"
    } else if eq_str(l, "elixir") || eq_str(l, "ex") {
        "ex"
    } else if eq_str(l, "fish") {
        "fish"
    } else if eq_str(l, "fsharp") || eq_str(l, "fs") || eq_str(l, "f#") {
        "fs"
    } else if eq_str(l, "go") {
        "go"
    } else if eq_str(l, "haskell") || eq_str(l, "hs") {
        "hs"
    } else if eq_str(l, "html") {
        "html"
    } else if eq_str(l, "ini") {
        "ini"
    } else if eq_str(l, "java") {
        "java"
    } else if eq_str(l, "javascript") || eq_str(l, "js") {
        "js"
    } else if eq_str(l, "json") {
        "json"
    } else if eq_str(l, "jsx") {
        "jsx"
    } else if eq_str(l, "kotlin") || eq_str(l, "kt") {
        "kt"
    } else if eq_str(l, "lua") {
        "lua"
    } else if eq_str(l, "makefile") {
        "makefile"
    } else if eq_str(l, "nim") {
        "nim"
    } else if eq_str(l, "powershell") || eq_str(l, "pwsh") || eq_str(l, "ps1") {
        "ps1"
    } else if eq_str(l, "python") || eq_str(l, "py") {
        "py"
    } else if eq_str(l, "r") {
        "r"
    } else if eq_str(l, "ruby") || eq_str(l, "rb") {
        "rb"
    } else if eq_str(l, "rust") || eq_str(l, "rs") {
        "rs"
    } else if eq_str(l, "scala") {
        "scala"
    } else if eq_str(l, "scss") {
        "scss"
    } else if eq_str(l, "shell") || eq_str(l, "sh") || eq_str(l, "bash") {
        "sh"
    } else if eq_str(l, "sql") {
        "sql"
    } else if eq_str(l, "swift") {
        "swift"
    } else if eq_str(l, "toml") {
        "toml"
    } else if eq_str(l, "tsx") {
        "tsx"
    } else if eq_str(l, "typescript") || eq_str(l, "ts") {
        "ts"
    } else if eq_str(l, "yaml") || eq_str(l, "yml") {
        "yaml"
    } else if eq_str(l, "zsh") {
        "zsh"
    } else {
        "txt"
    }
}

proof fn lemma_ascii_lower_idem(s: Seq<char>)
    ensures
        ascii_lower(ascii_lower(s)) == ascii_lower(s),
{
    assert(ascii_lower(ascii_lower(s)) =~= ascii_lower(s));
}

/// The extension that `lang_ext` gives for a fence language; the names
/// are compared in lower case.
pub open spec fn lang_ext_of(lang: Seq<char>) -> Seq<char> {
    ext_for(ascii_lower(lang))
}

/// `lang_ext` ignores the case of the language, and an extension it gives
/// maps to itself.
#[verifier::spinoff_prover]
#[verifier::rlimit(100)]
pub proof fn lang_ext_case_blind_and_idempotent(lang: Seq<char>)
    ensures
        lang_ext_of(lang) == lang_ext_of(ascii_lower(lang)),
        lang_ext_of(lang_ext_of(lang)) == lang_ext_of(lang),
{
    lemma_ascii_lower_idem(lang);
    reveal_strlit("c");
    assert("c"@ =~= seq!['c']);
    reveal_strlit("r");
    assert("r"@ =~= seq!['r']);
    reveal_strlit("c#");
    assert("c#"@ =~= seq!['c', '#']);
    reveal_strlit("cs");
    assert("cs"@ =~= seq!['c', 's']);
    reveal_strlit("ex");
    assert("ex"@ =~= seq!['e', 'x']);
    reveal_strlit("f#");
    assert("f#"@ =~= seq!['f', '#']);
    reveal_strlit("fs");
    assert("fs"@ =~= seq!['f', 's']);
    reveal_strlit("go");
    assert("go"@ =~= seq!['g', 'o']);
    reveal_strlit("hs");
    assert("hs"@ =~= seq!['h', 's']);
    reveal_strlit("js");
    assert("js"@ =~= seq!['j', 's']);
    reveal_strlit("kt");
    assert("kt"@ =~= seq!['k', 't']);
    reveal_strlit("py");
    assert("py"@ =~= seq!['p', 'y']);
    reveal_strlit("rb");
    assert("rb"@ =~= seq!['r', 'b']);
    reveal_strlit("rs");
    assert("rs"@ =~= seq!['r', 's']);
    reveal_strlit("sh");
    assert("sh"@ =~= seq!['s', 'h']);
    reveal_strlit("ts");
    assert("ts"@ =~= seq!['t', 's']);
    reveal_strlit("c++");
    assert("c++"@ =~= seq!['c', '+', '+']);
    reveal_strlit("cpp");
    assert("cpp"@ =~= seq!['c', 'p', 'p']);
    reveal_strlit("css");
    assert("css"@ =~= seq!['c', 's', 's']);
    reveal_strlit("ini");
    assert("ini"@ =~= seq!['i', 'n', 'i']);
    reveal_strlit("jsx");
    assert("jsx"@ =~= seq!['j', 's', 'x']);
    reveal_strlit("lua");
    assert("lua"@ =~= seq!['l', 'u', 'a']);
    reveal_strlit("nim");
    assert("nim"@ =~= seq!['n', 'i', 'm']);
    reveal_strlit("ps1");
    assert("ps1"@ =~= seq!['p', 's', '1']);
    reveal_strlit("sql");
    assert("sql"@ =~= seq!['s', 'q', 'l']);
    reveal_strlit("tsx");
    assert("tsx"@ =~= seq!['t', 's', 'x']);
    reveal_strlit("txt");
    assert("txt"@ =~= seq!['t', 'x', 't']);
    reveal_strlit("yml");
    assert("yml"@ =~= seq!['y', 'm', 'l']);
    reveal_strlit("zsh");
    assert("zsh"@ =~= seq!['z', 's', 'h']);
    reveal_strlit("bash");
    assert("bash"@ =~= seq!['b', 'a', 's', 'h']);
    reveal_strlit("fish");
    assert("fish"@ =~= seq!['f', 'i', 's', 'h']);
    reveal_strlit("html");
    assert("html"@ =~= seq!['h', 't', 'm', 'l']);
    reveal_strlit("java");
    assert("java"@ =~= seq!['j', 'a', 'v', 'a']);
    reveal_strlit("json");
    assert("json"@ =~= seq!['j', 's', 'o', 'n']);
    reveal_strlit("pwsh");
    assert("pwsh"@ =~= seq!['p', 'w', 's', 'h']);
    reveal_strlit("ruby");
    assert("ruby"@ =~= seq!['r', 'u', 'b', 'y']);
    reveal_strlit("rust");
    assert("rust"@ =~= seq!['r', 'u', 's', 't']);
    reveal_strlit("scss");
    assert("scss"@ =~= seq!['s', 'c', 's', 's']);
    reveal_strlit("toml");
    assert("toml"@ =~= seq!['t', 'o', 'm', 'l']);
    reveal_strlit("yaml");
    assert("yaml"@ =~= seq!['y', 'a', 'm', 'l']);
    reveal_strlit("scala");
    assert("scala"@ =~= seq!['s', 'c', 'a', 'l', 'a']);
    reveal_strlit("shell");
    assert("shell"@ =~= seq!['s', 'h', 'e', 'l', 'l']);
    reveal_strlit("swift");
    assert("swift"@ =~= seq!['s', 'w', 'i', 'f', 't']);
    reveal_strlit("csharp");
    assert("csharp"@ =~= seq!['c', 's', 'h', 'a', 'r', 'p']);
    reveal_strlit("elixir");
    assert("elixir"@ =~= seq!['e', 'l', 'i', 'x', 'i', 'r']);
    reveal_strlit("fsharp");
    assert("fsharp"@ =~= seq!['f', 's', 'h', 'a', 'r', 'p']);
    reveal_strlit("kotlin");
    assert("kotlin"@ =~= seq!['k', 'o', 't', 'l', 'i', 'n']);
    reveal_strlit("python");
    assert("python"@ =~= seq!['p', 'y', 't', 'h', 'o', 'n']);
    reveal_strlit("haskell");
    assert("haskell"@ =~= seq!['h', 'a', 's', 'k', 'e', 'l', 'l']);
    reveal_strlit("makefile");
    assert("makefile"@ =~= seq!['m', 'a', 'k', 'e', 'f', 'i', 'l', 'e']);
    reveal_strlit("dockerfile");
    assert("dockerfile"@ =~= seq!['d', 'o', 'c', 'k', 'e', 'r', 'f', 'i', 'l', 'e']);
    reveal_strlit("javascript");
    assert("javascript"@ =~= seq!['j', 'a', 'v', 'a', 's', 'c', 'r', 'i', 'p', 't']);
    reveal_strlit("powershell");
    assert("powershell"@ =~= seq!['p', 'o', 'w', 'e', 'r', 's', 'h', 'e', 'l', 'l']);
    reveal_strlit("typescript");
    assert("typescript"@ =~= seq!['t', 'y', 'p', 'e', 's', 'c', 'r', 'i', 'p', 't']);
    let r = ext_for(ascii_lower(lang));
    if r == "c"@ {
        assert(ascii_lower(r) =~= r);
        assert(ext_for(r) == r);
    } else if r == "cpp"@ {
        assert(ascii_lower(r) =~= r);
        assert(ext_for(r) == r);
    } else if r == "cs"@ {
        assert(ascii_lower(r) =~= r);
        assert(ext_for(r) == r);
    } else if r == "css"@ {
        assert(ascii_lower(r) =~= r);
        assert(ext_for(r) == r);
    } else if r == "dockerfile"@ {
        assert(ascii_lower(r) =~= r);
        assert(ext_for(r) == r);
    } else if r == "ex"@ {
        assert(ascii_lower(r) =~= r);
        assert(ext_for(r) == r);
    } else if r == "fish"@ {
        assert(ascii_lower(r) =~= r);
        assert(ext_for(r) == r);
    } else if r == "fs"@ {
        assert(ascii_lower(r) =~= r);
        assert(ext_for(r) == r);
    } else if r == "go"@ {
        assert(ascii_lower(r) =~= r);
        assert(ext_for(r) == r);
    } else if r == "hs"@ {
        assert(ascii_lower(r) =~= r);
        assert(ext_for(r) == r);
    } else if r == "html"@ {
        assert(ascii_lower(r) =~= r);
        assert(ext_for(r) == r);
    } else if r == "ini"@ {
        assert(ascii_lower(r) =~= r);
        assert(ext_for(r) == r);
    } else if r == "java"@ {
        assert(ascii_lower(r) =~= r);
        assert(ext_for(r) == r);
    } else if r == "js"@ {
        assert(ascii_lower(r) =~= r);
        assert(ext_for(r) == r);
    } else if r == "json"@ {
        assert(ascii_lower(r) =~= r);
        assert(ext_for(r) == r);
    } else if r == "jsx"@ {
        assert(ascii_lower(r) =~= r);
        assert(ext_for(r) == r);
    } else if r == "kt"@ {
        assert(ascii_lower(r) =~= r);
        assert(ext_for(r) == r);
    } else if r == "lua"@ {
        assert(ascii_lower(r) =~= r);
        assert(ext_for(r) == r);
    } else if r == "makefile"@ {
        assert(ascii_lower(r) =~= r);
        assert(ext_for(r) == r);
    } else if r == "nim"@ {
        assert(ascii_lower(r) =~= r);
        assert(ext_for(r) == r);
    } else if r == "ps1"@ {
        assert(ascii_lower(r) =~= r);
        assert(ext_for(r) == r);
    } else if r == "py"@ {
        assert(ascii_lower(r) =~= r);
        assert(ext_for(r) == r);
    } else if r == "r"@ {
        assert(ascii_lower(r) =~= r);
        assert(ext_for(r) == r);
    } else if r == "rb"@ {
        assert(ascii_lower(r) =~= r);
        assert(ext_for(r) == r);
    } else if r == "rs"@ {
        assert(ascii_lower(r) =~= r);
        assert(ext_for(r) == r);
    } else if r == "scala"@ {
        assert(ascii_lower(r) =~= r);
        assert(ext_for(r) == r);
    } else if r == "scss"@ {
        assert(ascii_lower(r) =~= r);
        assert(ext_for(r) == r);
    } else if r == "sh"@ {
        assert(ascii_lower(r) =~= r);
        assert(ext_for(r) == r);
    } else if r == "sql"@ {
        assert(ascii_lower(r) =~= r);
        assert(ext_for(r) == r);
    } else if r == "swift"@ {
        assert(ascii_lower(r) =~= r);
        assert(ext_for(r) == r);
    } else if r == "toml"@ {
        assert(ascii_lower(r) =~= r);
        assert(ext_for(r) == r);
    } else if r == "tsx"@ {
        assert(ascii_lower(r) =~= r);
        assert(ext_for(r) == r);
    } else if r == "ts"@ {
        assert(ascii_lower(r) =~= r);
        assert(ext_for(r) == r);
    } else if r == "yaml"@ {
        assert(ascii_lower(r) =~= r);
        assert(ext_for(r) == r);
    } else if r == "zsh"@ {
        assert(ascii_lower(r) =~= r);
        assert(ext_for(r) == r);
    } else if r == "txt"@ {
        assert(ascii_lower(r) =~= r);
        assert(ext_for(r) == r);
    } else {
        assert(false);
    }
}

/// Each line of `ls` in green, ended by a newline.
pub open spec fn ansi_lines(ls: Seq<Seq<char>>) -> Seq<char>
    decreases ls.len(),
{
    if ls.len() == 0 {
        Seq::empty()
    } else {
        ansi_lines(ls.drop_last()) + GREEN@ + ls.last() + RESET@ + seq!['\n']
    }
}

/// The built-in code printer: each line of `content` green.
pub fn print_ansi(content: &str, out: &mut String)
    ensures
        final(out)@ == old(out)@ + ansi_lines(lines_of(content@)),
{
    let ls = lines(content);
    let ghost lv = lines_of(content@);
    let mut i: usize = 0;
    while i < ls.len()
        invariant
            i <= ls@.len(),
            ls@.len() == lv.len(),
            forall|k: int| 0 <= k < ls@.len() ==> #[trigger] ls@[k]@ == lv[k],
            out@ == old(out)@ + ansi_lines(lv.take(i as int)),
        decreases ls@.len() - i,
    {
        push_str(out, GREEN);
        push_str(out, ls[i].as_str());
        push_str(out, RESET);
        push_char(out, '\n');
        assert(lv.take(i + 1).drop_last() =~= lv.take(i as int));
        i = i + 1;
        assert(out@ =~= old(out)@ + ansi_lines(lv.take(i as int)));
    }
    assert(lv.take(ls@.len() as int) =~= lv);
}

/// How many non-whitespace characters `t` starts with.
pub open spec fn word_len(t: Seq<char>) -> nat
    decreases t.len(),
{
    if t.len() == 0 || is_ws(t[0]) {
        0
    } else {
        1 + word_len(t.drop_first())
    }
}

pub proof fn lemma_trim_start_len(s: Seq<char>)
    ensures
        trim_start(s).len() <= s.len(),
        trim_start(s).len() > 0 ==> !is_ws(trim_start(s)[0]),
    decreases s.len(),
{
    if s.len() > 0 && is_ws(s[0]) {
        lemma_trim_start_len(s.drop_first());
    }
}

pub proof fn lemma_word_len(t: Seq<char>)
    ensures
        word_len(t) <= t.len(),
        forall|i: int| 0 <= i < word_len(t) ==> !is_ws(#[trigger] t[i]),
        word_len(t) < t.len() ==> is_ws(t[word_len(t) as int]),
    decreases t.len(),
{
    if t.len() > 0 && !is_ws(t[0]) {
        lemma_word_len(t.drop_first());
        assert forall|i: int| 0 <= i < word_len(t) implies !is_ws(#[trigger] t[i]) by {
            if i > 0 {
                assert(t[i] == t.drop_first()[i - 1]);
            }
        }
    }
}

/// The words of `s` (`str::split_whitespace`): the maximal runs of
/// non-whitespace characters, in order.
pub open spec fn words(s: Seq<char>) -> Seq<Seq<char>>
    decreases s.len(),
{
    let t = trim_start(s);
    if t.len() == 0 {
        Seq::empty()
    } else {
        proof {
            lemma_trim_start_len(s);
            lemma_word_len(t);
        }
        seq![t.take(word_len(t) as int)] + words(t.skip(word_len(t) as int))
    }
}

/// The words of `s`, as `words` says.
pub fn split_words(s: &str) -> (r: Vec<String>)
    ensures
        r@.len() == words(s@).len(),
        forall|i: int| 0 <= i < r@.len() ==> #[trigger] r@[i]@ == words(s@)[i],
{
    let v = chars_of(s);
    let n = v.len();
    let mut r: Vec<String> = Vec::new();
    let mut i: usize = 0;
    assert(v@.skip(0) =~= v@);
    while i < n
        invariant
            n == v@.len(),
            v@ == s@,
            i <= n,
            words(s@) == r@.map_values(|x: String| x@) + words(v@.skip(i as int)),
        decreases n - i,
    {
        let ghost rest = v@.skip(i as int);
        let ghost before = r@.map_values(|x: String| x@);
        let mut j = i;
        while j < n && is_whitespace(v[j])
            invariant
                i <= j <= n,
                n == v@.len(),
                trim_start(rest) == trim_start(v@.skip(j as int)),
                rest == v@.skip(i as int),
            decreases n - j,
        {
            assert(v@.skip(j as int).drop_first() =~= v@.skip(j + 1));
            j = j + 1;
        }
        assert(trim_start(v@.skip(j as int)) == v@.skip(j as int)) by {
            if j < n {
                assert(v@.skip(j as int)[0] == v@[j as int]);
            }
        }
        if j == n {
            assert(v@.skip(n as int) =~= Seq::<char>::empty());
            i = n;
        } else {
            let ghost t = v@.skip(j as int);
            let mut k = j;
            while k < n && !is_whitespace(v[k])
                invariant
                    j <= k <= n,
                    n == v@.len(),
                    t == v@.skip(j as int),
                    word_len(t) == (k - j) + word_len(v@.skip(k as int)),
                decreases n - k,
            {
                assert(v@.skip(k as int)[0] == v@[k as int]);
                assert(v@.skip(k as int).drop_first() =~= v@.skip(k + 1));
                k = k + 1;
            }
            proof {
                if k < n {
                    assert(v@.skip(k as int)[0] == v@[k as int]);
                }
            }
            r.push(string_of(&v, j, k));
            assert(t.take(k - j) =~= v@.subrange(j as int, k as int));
            assert(t.skip(k - j) =~= v@.skip(k as int));
            assert(r@.map_values(|x: String| x@) =~= before.push(t.take(k - j)));
            i = k;
        }
    }
    assert(v@.skip(n as int) =~= Seq::<char>::empty());
    assert(words(Seq::<char>::empty()) =~= Seq::<Seq<char>>::empty());
    assert(r@.map_values(|x: String| x@) =~= words(s@));
    assert forall|i: int| 0 <= i < r@.len() implies #[trigger] r@[i]@ == words(s@)[i] by {
        assert(r@.map_values(|x: String| x@)[i] == r@[i]@);
    }
    r
}

/// `d` padded on the left with `0`s to three digits.
pub open spec fn pad3(d: Seq<char>) -> Seq<char> {
    if d.len() >= 3 {
        d
    } else {
        Seq::new((3 - d.len()) as nat, |i: int| '0') + d
    }
}

/// The name of the `i`-th code file: `prefix`, `i` in at least three digits,
/// `.` and `ext`.
pub open spec fn numbered_name(prefix: Seq<char>, i: nat, ext: Seq<char>) -> Seq<char> {
    prefix + pad3(decimal(i)) + seq!['.'] + ext
}

/// The name of the `i`-th code file (see `numbered_name`).
pub fn numbered_filename(prefix: &str, i: usize, ext: &str) -> (r: String)
    ensures
        r@ == numbered_name(prefix@, i as nat, ext@),
{
    let mut d = String::new();
    push_decimal(&mut d, i);
    let dv = chars_of(d.as_str());
    let mut r = String::new();
    push_str(&mut r, prefix);
    let mut z = dv.len();
    while z < 3
        invariant
            dv@.len() <= z <= 3 || (z == dv@.len() && z >= 3),
            r@ == prefix@ + Seq::new((z - dv@.len()) as nat, |x: int| '0'),
        decreases 3 - z,
    {
        push_char(&mut r, '0');
        z = z + 1;
        assert(r@ =~= prefix@ + Seq::new((z - dv@.len()) as nat, |x: int| '0'));
    }
    push_str(&mut r, d.as_str());
    push_char(&mut r, '.');
    push_str(&mut r, ext);
    assert(r@ =~= numbered_name(prefix@, i as nat, ext@));
    r
}

} // verus!
