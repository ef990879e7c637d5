//! The line-by-line Markdown renderer. It writes terminal text to a string
//! and hands back what needs the outside world: a code block for an
//! external printer, and a code block to save to a file.
use vstd::prelude::*;
use crate::md::block::{ansi_lines, ascii_lower, ext_for, is_hr, is_hr_spec, lang_ext, print_ansi, split_words, words};
use crate::md::inline::{inline_from, plain, render_inline, BOLD_RED_UNDERLINE, CYAN, GREEN, RESET, YELLOW};
use crate::jflat::line::lines_of;
use crate::text::{chars_of, is_ws, push_char, push_range, push_str, string_of, strs, trim, trim_bounds, trim_end, trim_start};

verus! {

/// How the body of a fenced code block is shown.
pub enum CodePrinter {
    /// Built in: each line in green.
    Ansi,
    /// An external command (program and its arguments) that reads the code
    /// on its standard input.
    External(Vec<String>),
}

impl CodePrinter {
    /// The external printer given by a command line, split at whitespace.
    pub fn from_cmd(cmd: &str) -> (r: CodePrinter)
        ensures
            r matches CodePrinter::External(v) && v@.len() == words(cmd@).len() && forall|i: int|
                0 <= i < v@.len() ==> #[trigger] v@[i]@ == words(cmd@)[i],
    {
        CodePrinter::External(split_words(cmd))
    }

    /// The printer to use when none is given: `bat` (without paging, with
    /// colors, plain style, ANSI theme) when it is on the `PATH`
    /// (`bat_found`, as the caller looked it up), else the built-in one.
    pub fn auto_detect(bat_found: bool) -> (r: CodePrinter)
        ensures
            !bat_found ==> r is Ansi,
            bat_found ==> (r matches CodePrinter::External(v) && strs(v@) == seq![
                "bat"@,
                "--pager=never"@,
                "--color=always"@,
                "--style=plain"@,
                "--theme=ansi"@,
            ]),
    {
        if bat_found {
            let v = vec![
                "bat".to_string(),
                "--pager=never".to_string(),
                "--color=always".to_string(),
                "--style=plain".to_string(),
                "--theme=ansi".to_string(),
            ];
            assert(strs(v@) =~= seq![
                "bat"@,
                "--pager=never"@,
                "--color=always"@,
                "--style=plain"@,
                "--theme=ansi"@,
            ]);
            CodePrinter::External(v)
        } else {
            CodePrinter::Ansi
        }
    }

    /// The program and arguments that print a code block in language
    /// `lang` (reading it on standard input): for an external printer with
    /// a program, its own arguments, then `--language=LANG` when `lang` is
    /// not empty, then `-`; the built-in printer, or an empty command,
    /// runs nothing.
    pub fn command(&self, lang: &str) -> (r: Option<(String, Vec<String>)>)
        ensures
            match self {
                CodePrinter::Ansi => r is None,
                CodePrinter::External(v) => if v@.len() == 0 {
                    r is None
                } else {
                    r matches Some(x) && x.0@ == v@[0]@ && strs(x.1@) == printer_args(
                        strs(v@).drop_first(),
                        lang@,
                    )
                },
            },
    {
        match self {
            CodePrinter::Ansi => None,
            CodePrinter::External(v) => {
                if v.len() == 0 {
                    return None;
                }
                let mut args: Vec<String> = Vec::new();
                let mut i: usize = 1;
                while i < v.len()
                    invariant
                        1 <= i <= v@.len(),
                        args@.len() == i - 1,
                        strs(args@) == strs(v@).subrange(1, i as int),
                    decreases v@.len() - i,
                {
                    let ghost before = args@;
                    let a = v[i].clone();
                    args.push(a);
                    proof {
                        assert(args@ == before.push(a));
                        assert forall|k: int| 0 <= k < args@.len() implies #[trigger] strs(args@)[k]
                            == strs(v@).subrange(1, i + 1)[k] by {
                            if k < before.len() {
                                assert(strs(before)[k] == strs(v@).subrange(1, i as int)[k]);
                            }
                        }
                        assert(strs(args@) =~= strs(v@).subrange(1, i + 1));
                    }
                    i = i + 1;
                }
                assert(strs(v@).subrange(1, v@.len() as int) =~= strs(v@).drop_first());
                if !lang.is_empty() {
                    let mut flag = String::new();
                    push_str(&mut flag, "--language=");
                    push_str(&mut flag, lang);
                    let ghost own = strs(args@);
                    args.push(flag);
                    proof {
                        assert(flag@ =~= "--language="@ + lang@);
                        assert(strs(args@) =~= own.push("--language="@ + lang@));
                    }
                }
                let ghost mid = strs(args@);
                args.push("-".to_string());
                proof {
                    assert(strs(args@) =~= mid.push("-"@));
                }
                Some((v[0].clone(), args))
            },
        }
    }
}

/// The arguments of an external printer: its own, then the language flag
/// when there is a language, then `-` for standard input.
pub open spec fn printer_args(own: Seq<Seq<char>>, lang: Seq<char>) -> Seq<Seq<char>> {
    (if lang.len() == 0 {
        own
    } else {
        own.push("--language="@ + lang)
    }).push("-"@)
}

/// A fenced code block being read: where it will be saved, its language
/// and its lines so far.
pub struct CodeBlock {
    pub filename: String,
    pub lang: String,
    pub lines: Vec<String>,
}

/// The kind of the last block written.
#[derive(Clone, Copy, PartialEq, Eq, Structural, Debug)]
pub enum BlockKind {
    NoBlock,
    Para,
    List,
    Heading,
    Code,
    Blockquote,
    Hr,
}

pub struct Renderer {
    pub dry: bool,
    pub prefix: String,
    pub printer: CodePrinter,
    pub in_code_block: Option<CodeBlock>,
    pub needs_newline: bool,
    pub last_kind: BlockKind,
    pub had_blank: bool,
}

/// The state of a renderer that lines change: the open code block
/// (file name, language, lines), and the paragraph and spacing flags.
pub struct RState {
    pub block: Option<(Seq<char>, Seq<char>, Seq<Seq<char>>)>,
    pub needs_newline: bool,
    pub last_kind: BlockKind,
    pub had_blank: bool,
}

pub open spec fn rstate(r: Renderer) -> RState {
    RState {
        block: match r.in_code_block {
            Some(b) => Some((b.filename@, b.lang@, strs(b.lines@))),
            None => None,
        },
        needs_newline: r.needs_newline,
        last_kind: r.last_kind,
        had_blank: r.had_blank,
    }
}

/// The settings that lines do not change.
pub open spec fn same_settings(a: Renderer, b: Renderer) -> bool {
    &&& a.dry == b.dry
    &&& a.prefix@ == b.prefix@
    &&& a.printer == b.printer
}

/// Ends an open paragraph with a newline.
pub open spec fn flush_spec(st: RState) -> (RState, Seq<char>) {
    if st.needs_newline {
        (RState { needs_newline: false, ..st }, seq!['\n'])
    } else {
        (st, Seq::empty())
    }
}

/// Starts a block of kind `kind`: ends an open paragraph, and leaves a blank
/// line after a block of another kind, or between paragraphs that a blank
/// line separated.
pub open spec fn begin_spec(st: RState, kind: BlockKind) -> (RState, Seq<char>) {
    let (s1, t1) = flush_spec(st);
    let need = s1.last_kind != BlockKind::NoBlock && (s1.last_kind != kind || (kind == BlockKind::Para
        && s1.had_blank));
    (
        RState { last_kind: kind, had_blank: false, ..s1 },
        t1 + if need {
            seq!['\n']
        } else {
            Seq::empty()
        },
    )
}

impl Renderer {
    /// A renderer with no block written yet.
    pub fn new(dry: bool, prefix: String, printer: CodePrinter) -> (r: Renderer)
        ensures
            r.dry == dry,
            r.prefix == prefix,
            r.printer == printer,
            r.in_code_block is None,
            !r.needs_newline,
            r.last_kind == BlockKind::NoBlock,
            !r.had_blank,
    {
        Renderer {
            dry,
            prefix,
            printer,
            in_code_block: None,
            needs_newline: false,
            last_kind: BlockKind::NoBlock,
            had_blank: false,
        }
    }

    /// Ends an open paragraph (see `flush_spec`).
    pub fn flush_para(&mut self, out: &mut String)
        ensures
            same_settings(*old(self), *final(self)),
            rstate(*final(self)) == flush_spec(rstate(*old(self))).0,
            final(out)@ == old(out)@ + flush_spec(rstate(*old(self))).1,
    {
        if self.needs_newline {
            push_char(out, '\n');
            self.needs_newline = false;
        }
        assert(out@ =~= old(out)@ + flush_spec(rstate(*old(self))).1);
    }

    /// Starts a block of kind `kind` (see `begin_spec`).
    pub fn begin_block(&mut self, kind: BlockKind, out: &mut String)
        ensures
            same_settings(*old(self), *final(self)),
            rstate(*final(self)) == begin_spec(rstate(*old(self)), kind).0,
            final(out)@ == old(out)@ + begin_spec(rstate(*old(self)), kind).1,
    {
        self.flush_para(out);
        let need_blank = self.last_kind != BlockKind::NoBlock && (self.last_kind != kind || (kind
            == BlockKind::Para && self.had_blank));
        let ghost mid = out@;
        if need_blank {
            push_char(out, '\n');
        }
        self.last_kind = kind;
        self.had_blank = false;
        assert(out@ =~= old(out)@ + begin_spec(rstate(*old(self)), kind).1);
    }

    /// Ends the output: an open paragraph gets its newline.
    pub fn finish(&mut self, out: &mut String)
        ensures
            same_settings(*old(self), *final(self)),
            rstate(*final(self)) == flush_spec(rstate(*old(self))).0,
            final(out)@ == old(out)@ + flush_spec(rstate(*old(self))).1,
    {
        self.flush_para(out);
    }
}

pub const UNDERLINE: &'static str = "\x1b[4m";
pub const NO_UNDERLINE: &'static str = "\x1b[24m";

/// A code fence: the line starts with three backquotes or three tildes.
pub open spec fn is_fence(line: Seq<char>) -> bool {
    line.len() >= 3 && (line.take(3) == seq!['`', '`', '`'] || line.take(3) == seq!['~', '~', '~'])
}

/// The lines joined with newlines.
pub open spec fn joined(ls: Seq<Seq<char>>) -> Seq<char>
    decreases ls.len(),
{
    if ls.len() == 0 {
        Seq::empty()
    } else if ls.len() == 1 {
        ls[0]
    } else {
        joined(ls.drop_last()) + seq!['\n'] + ls.last()
    }
}

/// What a closed code block holds: its lines, each ended by a newline.
pub open spec fn block_content(ls: Seq<Seq<char>>) -> Seq<char> {
    joined(ls) + seq!['\n']
}

/// How many times `c` starts `s`.
pub open spec fn lead(s: Seq<char>, c: char) -> nat
    decreases s.len(),
{
    if s.len() > 0 && s[0] == c {
        1 + lead(s.drop_first(), c)
    } else {
        0
    }
}

/// How many ASCII digits start `s`.
pub open spec fn lead_digits(s: Seq<char>) -> nat
    decreases s.len(),
{
    if s.len() > 0 && '0' <= s[0] && s[0] <= '9' {
        1 + lead_digits(s.drop_first())
    } else {
        0
    }
}

/// What a line gives besides the text: the code block for an external
/// printer (language, content) and the code block to save (file, content).
pub struct BlockEnd {
    pub code: Option<(String, String)>,
    pub save: Option<(String, String)>,
}

pub open spec fn pair_view(p: Option<(String, String)>) -> Option<(Seq<char>, Seq<char>)> {
    match p {
        Some(x) => Some((x.0@, x.1@)),
        None => None,
    }
}

/// A line that closes the open block (file `f`, language `l`, lines `ls`):
/// the built-in printer's text (unless `external`), then the fence in
/// green; the code goes to the external printer, and is saved unless `dry`.
pub open spec fn close_spec(
    dry: bool,
    external: bool,
    st: RState,
    f: Seq<char>,
    l: Seq<char>,
    ls: Seq<Seq<char>>,
    line: Seq<char>,
) -> (RState, Seq<char>, Option<(Seq<char>, Seq<char>)>, Option<(Seq<char>, Seq<char>)>) {
    let content = block_content(ls);
    (
        RState { block: None, ..st },
        (if external {
            Seq::empty()
        } else {
            ansi_lines(lines_of(content))
        }) + GREEN@ + line + RESET@ + seq!['\n'],
        if external {
            Some((l, content))
        } else {
            None
        },
        if dry {
            None
        } else {
            Some((f, content))
        },
    )
}

/// A fence that opens a block: the language is what follows the fence,
/// trimmed; the file is `fname`, or in a dry run `prefix???.ext`; the fence,
/// the language and the underlined file name are written in green.
pub open spec fn open_spec(
    dry: bool,
    prefix: Seq<char>,
    st: RState,
    line: Seq<char>,
    fname: Seq<char>,
) -> (RState, Seq<char>) {
    let (s1, t1) = begin_spec(st, BlockKind::Code);
    let lang = trim(line.skip(3));
    let ext = ext_for(ascii_lower(lang));
    let filename = if dry {
        prefix + seq!['?', '?', '?', '.'] + ext
    } else {
        fname
    };
    (
        RState { block: Some((filename, lang, Seq::empty())), ..s1 },
        t1 + GREEN@ + line.take(3) + lang + seq![' ', ' '] + UNDERLINE@ + filename + NO_UNDERLINE@
            + RESET@ + seq!['\n'],
    )
}

/// A line outside code blocks that does not open one: a blank line ends a
/// paragraph; then, in this order, a thematic break, a heading (`#`s and a
/// space), a block quote (`>`), a bullet item (`- `, `* `, `+ `), a
/// numbered item (digits, `.`, space), and otherwise a paragraph line.
pub open spec fn text_spec(st: RState, line: Seq<char>) -> (RState, Seq<char>) {
    if trim(line).len() == 0 {
        let (s1, t1) = flush_spec(st);
        (RState { had_blank: true, ..s1 }, t1)
    } else if is_hr_spec(line) {
        let (s1, t1) = begin_spec(st, BlockKind::Hr);
        (s1, t1 + CYAN@ + line + RESET@ + seq!['\n'])
    } else if lead(line, '#') > 0 && line.len() > lead(line, '#') && line[lead(line, '#') as int]
        == ' ' {
        let (s1, t1) = begin_spec(st, BlockKind::Heading);
        (s1, t1 + BOLD_RED_UNDERLINE@ + inline_from(line, plain()) + RESET@ + seq!['\n'])
    } else if line.len() > 0 && line[0] == '>' {
        let (s1, t1) = begin_spec(st, BlockKind::Blockquote);
        (
            s1,
            t1 + YELLOW@ + seq!['>'] + RESET@ + inline_from(line.drop_first(), plain()) + seq![
                '\n',
            ],
        )
    } else if line.len() >= 2 && (line[0] == '-' || line[0] == '*' || line[0] == '+') && line[1]
        == ' ' {
        let (s1, t1) = begin_spec(st, BlockKind::List);
        (
            s1,
            t1 + YELLOW@ + seq![line[0]] + RESET@ + inline_from(line.drop_first(), plain())
                + seq!['\n'],
        )
    } else if lead_digits(line) > 0 && line.len() > lead_digits(line) + 1 && line[lead_digits(
        line,
    ) as int] == '.' && line[lead_digits(line) as int + 1] == ' ' {
        let d = lead_digits(line) as int;
        let (s1, t1) = begin_spec(st, BlockKind::List);
        (
            s1,
            t1 + YELLOW@ + line.take(d) + seq!['.'] + RESET@ + inline_from(line.skip(d + 1), plain())
                + seq!['\n'],
        )
    } else {
        para_spec(st, line)
    }
}

/// A paragraph line: it continues an open paragraph after one space, or
/// starts a new one; the newline that ends it comes with the paragraph's end.
pub open spec fn para_spec(st: RState, line: Seq<char>) -> (RState, Seq<char>) {
    if st.needs_newline {
        (st, seq![' '] + inline_from(line, plain()))
    } else {
        let (s1, t1) = begin_spec(st, BlockKind::Para);
        (RState { needs_newline: true, ..s1 }, t1 + inline_from(line, plain()))
    }
}

/// What one line does to the state, the text it writes, and the code block
/// it hands out for an external printer and for saving.
pub open spec fn render_spec(
    dry: bool,
    prefix: Seq<char>,
    external: bool,
    st: RState,
    line: Seq<char>,
    fname: Seq<char>,
) -> (RState, Seq<char>, Option<(Seq<char>, Seq<char>)>, Option<(Seq<char>, Seq<char>)>) {
    match st.block {
        Some(b) => if is_fence(line) {
            close_spec(dry, external, st, b.0, b.1, b.2, line)
        } else {
            (RState { block: Some((b.0, b.1, b.2.push(line))), ..st }, Seq::empty(), None, None)
        },
        None => if is_fence(line) {
            let (s1, t1) = open_spec(dry, prefix, st, line, fname);
            (s1, t1, None, None)
        } else {
            let (s1, t1) = text_spec(st, line);
            (s1, t1, None, None)
        },
    }
}

/// The given name, or none.
pub open spec fn name_or_empty(f: Option<String>) -> Seq<char> {
    match f {
        Some(s) => s@,
        None => Seq::empty(),
    }
}

fn fence_exec(v: &Vec<char>) -> (b: bool)
    ensures
        b == is_fence(v@),
{
    if v.len() < 3 {
        return false;
    }
    let r = (v[0] == '`' && v[1] == '`' && v[2] == '`') || (v[0] == '~' && v[1] == '~' && v[2]
        == '~');
    assert(r == (v@.take(3) =~= seq!['`', '`', '`'] || v@.take(3) =~= seq!['~', '~', '~']));
    r
}

/// The lines joined as a closed block holds them.
fn content_of(ls: &Vec<String>) -> (r: String)
    ensures
        r@ == block_content(strs(ls@)),
{
    let mut r = String::new();
    let mut i: usize = 0;
    while i < ls.len()
        invariant
            i <= ls@.len(),
            r@ == joined(strs(ls@).take(i as int)),
        decreases ls@.len() - i,
    {
        let ghost before = r@;
        if i > 0 {
            push_char(&mut r, '\n');
        }
        push_str(&mut r, ls[i].as_str());
        assert(strs(ls@).take(i + 1).drop_last() =~= strs(ls@).take(i as int));
        assert(strs(ls@)[i as int] == ls@[i as int]@);
        proof {
            if i == 0 {
                assert(strs(ls@).take(1)[0] == ls@[0]@);
            }
        }
        i = i + 1;
        assert(r@ =~= joined(strs(ls@).take(i as int)));
    }
    assert(strs(ls@).take(ls@.len() as int) =~= strs(ls@));
    push_char(&mut r, '\n');
    r
}

/// How many times `c` starts `v`.
fn lead_exec(v: &Vec<char>, c: char) -> (k: usize)
    ensures
        k == lead(v@, c),
        k <= v@.len(),
{
    let mut k: usize = 0;
    assert(v@.skip(0) =~= v@);
    while k < v.len() && v[k] == c
        invariant
            k <= v@.len(),
            lead(v@, c) == k + lead(v@.skip(k as int), c),
        decreases v@.len() - k,
    {
        assert(v@.skip(k as int)[0] == v@[k as int]);
        assert(v@.skip(k as int).drop_first() =~= v@.skip(k + 1));
        k = k + 1;
    }
    proof {
        if k < v@.len() {
            assert(v@.skip(k as int)[0] == v@[k as int]);
        }
    }
    k
}

/// How many ASCII digits start `v`.
fn lead_digits_exec(v: &Vec<char>) -> (k: usize)
    ensures
        k == lead_digits(v@),
        k <= v@.len(),
{
    let mut k: usize = 0;
    assert(v@.skip(0) =~= v@);
    while k < v.len() && '0' <= v[k] && v[k] <= '9'
        invariant
            k <= v@.len(),
            lead_digits(v@) == k + lead_digits(v@.skip(k as int)),
        decreases v@.len() - k,
    {
        assert(v@.skip(k as int)[0] == v@[k as int]);
        assert(v@.skip(k as int).drop_first() =~= v@.skip(k + 1));
        k = k + 1;
    }
    proof {
        if k < v@.len() {
            assert(v@.skip(k as int)[0] == v@[k as int]);
        }
    }
    k
}

impl Renderer {
    /// Writes a marked line: the marker in yellow, then the inline rendering
    /// of `v[from..]`, then a newline.
    fn marked(&mut self, kind: BlockKind, v: &Vec<char>, mark_end: usize, dot: bool, from: usize, out: &mut String)
        requires
            mark_end <= v@.len(),
            from <= v@.len(),
        ensures
            same_settings(*old(self), *final(self)),
            rstate(*final(self)) == begin_spec(rstate(*old(self)), kind).0,
            final(out)@ == old(out)@ + begin_spec(rstate(*old(self)), kind).1 + YELLOW@
                + v@.take(mark_end as int) + (if dot {
                seq!['.']
            } else {
                Seq::empty()
            }) + RESET@ + inline_from(v@.skip(from as int), plain()) + seq!['\n'],
    {
        self.begin_block(kind, out);
        let ghost o = out@;
        push_str(out, YELLOW);
        push_range(out, v, 0, mark_end);
        if dot {
            push_char(out, '.');
        }
        push_str(out, RESET);
        let rest = string_of(v, from, v.len());
        render_inline(rest.as_str(), out);
        push_char(out, '\n');
        assert(v@.subrange(0, mark_end as int) =~= v@.take(mark_end as int));
        assert(v@.subrange(from as int, v@.len() as int) =~= v@.skip(from as int));
        assert(out@ =~= o + YELLOW@ + v@.take(mark_end as int) + (if dot {
            seq!['.']
        } else {
            Seq::empty()
        }) + RESET@ + inline_from(v@.skip(from as int), plain()) + seq!['\n']);
    }

    /// Renders a line outside code blocks that opens none (see `text_spec`).
    #[verifier::spinoff_prover]
    #[verifier::rlimit(90)]
    fn render_text(&mut self, line: &str, out: &mut String)
        ensures
            same_settings(*old(self), *final(self)),
            rstate(*final(self)) == text_spec(rstate(*old(self)), line@).0,
            final(out)@ == old(out)@ + text_spec(rstate(*old(self)), line@).1,
    {
        let v = chars_of(line);
        let n = v.len();
        let (lo, hi) = trim_bounds(&v);
        if lo == hi {
            self.flush_para(out);
            self.had_blank = true;
            return;
        }
        if is_hr(line) {
            self.framed(BlockKind::Hr, CYAN, line, false, out);
            return;
        }
        let h = lead_exec(&v, '#');
        if h > 0 && h < n && v[h] == ' ' {
            self.framed(BlockKind::Heading, BOLD_RED_UNDERLINE, line, true, out);
            return;
        }
        if n > 0 && v[0] == '>' {
            self.marked(BlockKind::Blockquote, &v, 1, false, 1, out);
            assert(v@.take(1) =~= seq!['>']);
            assert(v@.skip(1) =~= line@.drop_first());
            return;
        }
        if n >= 2 && (v[0] == '-' || v[0] == '*' || v[0] == '+') && v[1] == ' ' {
            self.marked(BlockKind::List, &v, 1, false, 1, out);
            assert(v@.take(1) =~= seq![line@[0]]);
            assert(v@.skip(1) =~= line@.drop_first());
            return;
        }
        let d = lead_digits_exec(&v);
        if d > 0 && d < n - 1 && v[d] == '.' && v[d + 1] == ' ' {
            self.marked(BlockKind::List, &v, d, true, d + 1, out);
            return;
        }
        self.para(line, out);
    }

    /// Writes a whole line as a block of its own: `color`, the line (its
    /// inline rendering when `inline`), the reset code and a newline.
    fn framed(&mut self, kind: BlockKind, color: &str, line: &str, inline: bool, out: &mut String)
        ensures
            same_settings(*old(self), *final(self)),
            rstate(*final(self)) == begin_spec(rstate(*old(self)), kind).0,
            final(out)@ == old(out)@ + begin_spec(rstate(*old(self)), kind).1 + color@ + (if inline {
                inline_from(line@, plain())
            } else {
                line@
            }) + RESET@ + seq!['\n'],
    {
        self.begin_block(kind, out);
        let ghost o = out@;
        push_str(out, color);
        if inline {
            render_inline(line, out);
        } else {
            push_str(out, line);
        }
        push_str(out, RESET);
        push_char(out, '\n');
        assert(out@ =~= o + color@ + (if inline {
            inline_from(line@, plain())
        } else {
            line@
        }) + RESET@ + seq!['\n']);
    }

    /// Continues (or starts) a paragraph with `line` (see `para_spec`).
    fn para(&mut self, line: &str, out: &mut String)
        ensures
            same_settings(*old(self), *final(self)),
            rstate(*final(self)) == para_spec(rstate(*old(self)), line@).0,
            final(out)@ == old(out)@ + para_spec(rstate(*old(self)), line@).1,
    {
        if self.needs_newline {
            let ghost o = out@;
            push_char(out, ' ');
            render_inline(line, out);
            assert(out@ =~= o + seq![' '] + inline_from(line@, plain()));
        } else {
            self.begin_block(BlockKind::Para, out);
            render_inline(line, out);
            self.needs_newline = true;
        }
    }

    /// Whether `line` opens a code block, and if so the extension of its
    /// file (see `lang_ext`); a caller that does not run dry names the file
    /// before rendering the line.
    pub fn opens_block(&self, line: &str) -> (r: Option<&'static str>)
        ensures
            match r {
                Some(e) => self.in_code_block is None && is_fence(line@) && e@ == ext_for(
                    ascii_lower(trim(line@.skip(3))),
                ),
                None => !(self.in_code_block is None && is_fence(line@)),
            },
    {
        if self.in_code_block.is_some() {
            return None;
        }
        let v = chars_of(line);
        if !fence_exec(&v) {
            return None;
        }
        let lang = string_of(&v, 3, v.len());
        assert(lang@ =~= line@.skip(3));
        let lv = chars_of(lang.as_str());
        let (lo, hi) = trim_bounds(&lv);
        let l = string_of(&lv, lo, hi);
        Some(lang_ext(l.as_str()))
    }

    /// Renders one line (see `render_spec`): the text goes to `out`, and a
    /// closed code block comes back for the external printer and for saving.
    /// A caller that does not run dry passes the file name for a line that
    /// opens a block (see `opens_block`).
    pub fn render_line(&mut self, line: &str, filename: Option<String>, out: &mut String) -> (r:
        BlockEnd)
        requires
            !old(self).dry && old(self).in_code_block is None && is_fence(line@) ==> filename is Some,
        ensures
            same_settings(*old(self), *final(self)),
            ({
                let e = render_spec(
                    old(self).dry,
                    old(self).prefix@,
                    old(self).printer is External,
                    rstate(*old(self)),
                    line@,
                    name_or_empty(filename),
                );
                &&& rstate(*final(self)) == e.0
                &&& final(out)@ == old(out)@ + e.1
                &&& pair_view(r.code) == e.2
                &&& pair_view(r.save) == e.3
            }),
    {
        let v = chars_of(line);
        let fence = fence_exec(&v);
        if self.in_code_block.is_some() {
            if fence {
                return self.close_block(line, out);
            }
            let mut blk = self.in_code_block.take().unwrap();
            let ghost before = strs(blk.lines@);
            blk.lines.push(line.to_string());
            assert(strs(blk.lines@) =~= before.push(line@));
            self.in_code_block = Some(blk);
            return BlockEnd { code: None, save: None };
        }
        if fence {
            self.open_block(line, filename, out);
        } else {
            self.render_text(line, out);
        }
        BlockEnd { code: None, save: None }
    }

    fn close_block(&mut self, line: &str, out: &mut String) -> (r: BlockEnd)
        requires
            old(self).in_code_block is Some,
            is_fence(line@),
        ensures
            same_settings(*old(self), *final(self)),
            ({
                let b = rstate(*old(self)).block->0;
                let e = close_spec(
                    old(self).dry,
                    old(self).printer is External,
                    rstate(*old(self)),
                    b.0,
                    b.1,
                    b.2,
                    line@,
                );
                &&& rstate(*final(self)) == e.0
                &&& final(out)@ == old(out)@ + e.1
                &&& pair_view(r.code) == e.2
                &&& pair_view(r.save) == e.3
            }),
    {
        let ghost b = rstate(*old(self)).block->0;
        let blk = self.in_code_block.take().unwrap();
        let content = content_of(&blk.lines);
        let ghost o = out@;
        let external = match &self.printer {
            CodePrinter::Ansi => false,
            CodePrinter::External(_) => true,
        };
        if !external {
            print_ansi(content.as_str(), out);
        }
        push_str(out, GREEN);
        push_str(out, line);
        push_str(out, RESET);
        push_char(out, '\n');
        let code = if external {
            Some((blk.lang, content.clone()))
        } else {
            None
        };
        let save = if self.dry {
            None
        } else {
            Some((blk.filename, content))
        };
        assert(out@ =~= o + close_spec(
            self.dry,
            external,
            rstate(*old(self)),
            b.0,
            b.1,
            b.2,
            line@,
        ).1);
        BlockEnd { code, save }
    }

    fn open_block(&mut self, line: &str, filename: Option<String>, out: &mut String)
        requires
            old(self).in_code_block is None,
            is_fence(line@),
            !old(self).dry ==> filename is Some,
        ensures
            same_settings(*old(self), *final(self)),
            ({
                let e = open_spec(
                    old(self).dry,
                    old(self).prefix@,
                    rstate(*old(self)),
                    line@,
                    name_or_empty(filename),
                );
                &&& rstate(*final(self)) == e.0
                &&& final(out)@ == old(out)@ + e.1
            }),
    {
        self.begin_block(BlockKind::Code, out);
        let v = chars_of(line);
        let rest = string_of(&v, 3, v.len());
        assert(rest@ =~= line@.skip(3));
        let lv = chars_of(rest.as_str());
        let (lo, hi) = trim_bounds(&lv);
        let lang = string_of(&lv, lo, hi);
        let ext = lang_ext(lang.as_str());
        let name = if self.dry {
            dry_name(self.prefix.as_str(), ext)
        } else {
            match filename {
                Some(f) => f,
                None => String::new(),
            }
        };
        fence_line(out, &v, lang.as_str(), name.as_str());
        let lines: Vec<String> = Vec::new();
        assert(strs(lines@) =~= Seq::<Seq<char>>::empty());
        self.in_code_block = Some(CodeBlock { filename: name, lang, lines });
    }
}

/// `prefix???.ext`, the file name shown in a dry run.
fn dry_name(prefix: &str, ext: &str) -> (n: String)
    ensures
        n@ == prefix@ + seq!['?', '?', '?', '.'] + ext@,
{
    let mut n = String::new();
    push_str(&mut n, prefix);
    push_str(&mut n, "???.");
    push_str(&mut n, ext);
    proof {
        reveal_strlit("???.");
    }
    assert(n@ =~= prefix@ + seq!['?', '?', '?', '.'] + ext@);
    n
}

/// Writes the opening fence line: the fence, the language and the
/// underlined file name, in green.
fn fence_line(out: &mut String, v: &Vec<char>, lang: &str, name: &str)
    requires
        v@.len() >= 3,
    ensures
        final(out)@ == old(out)@ + (GREEN@ + v@.take(3) + lang@ + seq![' ', ' '] + UNDERLINE@ + name@
            + NO_UNDERLINE@ + RESET@ + seq!['\n']),
{
    let ghost o = out@;
    push_str(out, GREEN);
    push_range(out, v, 0, 3);
    push_str(out, lang);
    push_char(out, ' ');
    push_char(out, ' ');
    push_str(out, UNDERLINE);
    push_str(out, name);
    push_str(out, NO_UNDERLINE);
    push_str(out, RESET);
    push_char(out, '\n');
    assert(v@.subrange(0, 3) =~= v@.take(3));
    assert(out@ =~= o + (GREEN@ + v@.take(3) + lang@ + seq![' ', ' '] + UNDERLINE@ + name@
        + NO_UNDERLINE@ + RESET@ + seq!['\n']));
}

// ---- code blocks over several lines --------------------------------------------------------

/// The state after rendering the lines `ls` one by one (`fname` names a
/// block that one of them opens).
pub open spec fn render_lines(
    dry: bool,
    prefix: Seq<char>,
    external: bool,
    st: RState,
    ls: Seq<Seq<char>>,
    fname: Seq<char>,
) -> RState
    decreases ls.len(),
{
    if ls.len() == 0 {
        st
    } else {
        render_spec(
            dry,
            prefix,
            external,
            render_lines(dry, prefix, external, st, ls.drop_last(), fname),
            ls.last(),
            fname,
        ).0
    }
}

proof fn lemma_block_lines(
    dry: bool,
    prefix: Seq<char>,
    external: bool,
    st: RState,
    body: Seq<Seq<char>>,
    fname: Seq<char>,
)
    requires
        st.block is Some,
        forall|i: int| 0 <= i < body.len() ==> !is_fence(#[trigger] body[i]),
    ensures
        st.block matches Some(b) && render_lines(dry, prefix, external, st, body, fname) == (RState {
            block: Some((b.0, b.1, b.2 + body)),
            ..st
        }),
    decreases body.len(),
{
    let b = st.block->0;
    if body.len() == 0 {
        assert(b.2 + body =~= b.2);
    } else {
        let b1 = body.drop_last();
        assert forall|i: int| 0 <= i < b1.len() implies !is_fence(#[trigger] b1[i]) by {
            assert(b1[i] == body[i]);
        }
        lemma_block_lines(dry, prefix, external, st, b1, fname);
        assert(body.last() == body[body.len() - 1]);
        assert(b.2 + b1.push(body.last()) =~= b.2 + body);
        assert(b1.push(body.last()) =~= body);
    }
}

/// A fenced code block is handed on whole: after the opening fence, lines
/// that are no fences, and the closing fence, the closing line gives the
/// block's lines, each ended by a newline, to be saved under the name it
/// was opened with (unless the run is dry) and, for an external printer,
/// with the language that followed the opening fence.
pub proof fn code_block_kept_whole(
    dry: bool,
    prefix: Seq<char>,
    external: bool,
    st: RState,
    open: Seq<char>,
    body: Seq<Seq<char>>,
    close: Seq<char>,
    fname: Seq<char>,
)
    requires
        st.block is None,
        is_fence(open),
        is_fence(close),
        forall|i: int| 0 <= i < body.len() ==> !is_fence(#[trigger] body[i]),
    ensures
        ({
            let s1 = render_spec(dry, prefix, external, st, open, fname).0;
            let s2 = render_lines(dry, prefix, external, s1, body, fname);
            let r = render_spec(dry, prefix, external, s2, close, fname);
            &&& r.0.block is None
            &&& r.3 == if dry {
                None
            } else {
                Some((fname, block_content(body)))
            }
            &&& r.2 == if external {
                Some((trim(open.skip(3)), block_content(body)))
            } else {
                None
            }
        }),
{
    let s1 = render_spec(dry, prefix, external, st, open, fname).0;
    lemma_block_lines(dry, prefix, external, s1, body, fname);
    assert(Seq::<Seq<char>>::empty() + body =~= body);
}

proof fn lemma_trim_end_first(s: Seq<char>)
    requires
        s.len() > 0,
        !is_ws(s[0]),
    ensures
        trim_end(s).len() > 0,
        trim_end(s)[0] == s[0],
    decreases s.len(),
{
    if is_ws(s.last()) {
        assert(s.len() > 1);
        lemma_trim_end_first(s.drop_last());
    }
}

/// A line that begins with a character other than whitespace is no blank
/// line, and its trimmed text begins with that character.
proof fn lemma_trim_first(s: Seq<char>)
    requires
        s.len() > 0,
        !is_ws(s[0]),
    ensures
        trim(s).len() > 0,
        trim(s)[0] == s[0],
{
    assert(trim_start(s) == s);
    lemma_trim_end_first(s);
}

/// A numbered item (digits, `.`, a space, the text) outside a code block is
/// a list line of its own: the yellow number and dot, the rendered text,
/// and a newline, after what starting a list block writes (nothing right
/// after another list line). No paragraph stays open after it, nothing is
/// handed out, and the block it leaves is a list.
pub proof fn numbered_line_is_list_item(
    dry: bool,
    prefix: Seq<char>,
    external: bool,
    st: RState,
    line: Seq<char>,
    fname: Seq<char>,
)
    requires
        st.block is None,
        lead_digits(line) > 0,
        line.len() > lead_digits(line) + 1,
        line[lead_digits(line) as int] == '.',
        line[lead_digits(line) as int + 1] == ' ',
    ensures
        ({
            let d = lead_digits(line) as int;
            let r = render_spec(dry, prefix, external, st, line, fname);
            let item = YELLOW@ + line.take(d) + seq!['.'] + RESET@ + inline_from(line.skip(d + 1), plain())
                + seq!['\n'];
            &&& r.1 == begin_spec(st, BlockKind::List).1 + item
            &&& (st.last_kind == BlockKind::List && !st.needs_newline ==> r.1 == item)
            &&& r.0.last_kind == BlockKind::List
            &&& !r.0.needs_newline
            &&& r.0.block is None
            &&& r.2 is None
            &&& r.3 is None
        }),
{
    assert('0' <= line[0] && line[0] <= '9');
    lemma_trim_first(line);
    assert(lead(line, '#') == 0);
    assert(!is_fence(line)) by {
        if is_fence(line) {
            assert(line.take(3)[0] == line[0]);
        }
    }
}

/// A line that starts with `>` outside a code block is a block-quote line
/// of its own: a yellow `>`, the rest rendered, and a newline, after what
/// starting a quote block writes (nothing right after another quote line).
/// No paragraph stays open after it, nothing is handed out, and the block
/// it leaves is a quote.
pub proof fn quote_line_is_blockquote(
    dry: bool,
    prefix: Seq<char>,
    external: bool,
    st: RState,
    line: Seq<char>,
    fname: Seq<char>,
)
    requires
        st.block is None,
        line.len() > 0,
        line[0] == '>',
    ensures
        ({
            let r = render_spec(dry, prefix, external, st, line, fname);
            let quote = YELLOW@ + seq!['>'] + RESET@ + inline_from(line.drop_first(), plain()) + seq!['\n'];
            &&& r.1 == begin_spec(st, BlockKind::Blockquote).1 + quote
            &&& (st.last_kind == BlockKind::Blockquote && !st.needs_newline ==> r.1 == quote)
            &&& r.0.last_kind == BlockKind::Blockquote
            &&& !r.0.needs_newline
            &&& r.0.block is None
            &&& r.2 is None
            &&& r.3 is None
        }),
{
    lemma_trim_first(line);
    assert(lead(line, '#') == 0);
    assert(!is_fence(line)) by {
        if is_fence(line) {
            assert(line.take(3)[0] == line[0]);
        }
    }
}

/// A thematic break outside a code block is a rule line of its own: the line
/// in cyan and a newline, after what starting a rule block writes.
pub proof fn rule_line_is_rule(
    dry: bool,
    prefix: Seq<char>,
    external: bool,
    st: RState,
    line: Seq<char>,
    fname: Seq<char>,
)
    requires
        st.block is None,
        is_hr_spec(line),
    ensures
        ({
            let r = render_spec(dry, prefix, external, st, line, fname);
            &&& r.1 == begin_spec(st, BlockKind::Hr).1 + CYAN@ + line + RESET@ + seq!['\n']
            &&& r.0.last_kind == BlockKind::Hr
            &&& !r.0.needs_newline
            &&& r.0.block is None
            &&& r.2 is None
            &&& r.3 is None
        }),
{
    assert(!is_fence(line)) by {
        if is_fence(line) {
            assert(line.take(3)[0] == line[0]);
            lemma_trim_first(line);
        }
    }
}

/// A heading (`#`s, a space, the title) outside a code block is a line of
/// its own: the title rendered in bold red underlined and a newline, after
/// what starting a heading block writes.
pub proof fn hash_line_is_heading(
    dry: bool,
    prefix: Seq<char>,
    external: bool,
    st: RState,
    line: Seq<char>,
    fname: Seq<char>,
)
    requires
        st.block is None,
        lead(line, '#') > 0,
        line.len() > lead(line, '#'),
        line[lead(line, '#') as int] == ' ',
    ensures
        ({
            let r = render_spec(dry, prefix, external, st, line, fname);
            &&& r.1 == begin_spec(st, BlockKind::Heading).1 + BOLD_RED_UNDERLINE@ + inline_from(
                line,
                plain(),
            ) + RESET@ + seq!['\n']
            &&& r.0.last_kind == BlockKind::Heading
            &&& !r.0.needs_newline
            &&& r.0.block is None
            &&& r.2 is None
            &&& r.3 is None
        }),
{
    assert(line[0] == '#');
    lemma_trim_first(line);
    assert(!is_fence(line)) by {
        if is_fence(line) {
            assert(line.take(3)[0] == line[0]);
        }
    }
}

/// A bullet item (`-`, `*` or `+`, a space, the text) that is no thematic
/// break is a list line of its own: the yellow bullet, the rendered text
/// and a newline, after what starting a list block writes (nothing right
/// after another list line).
pub proof fn bullet_line_is_list_item(
    dry: bool,
    prefix: Seq<char>,
    external: bool,
    st: RState,
    line: Seq<char>,
    fname: Seq<char>,
)
    requires
        st.block is None,
        line.len() >= 2,
        line[0] == '-' || line[0] == '*' || line[0] == '+',
        line[1] == ' ',
        !is_hr_spec(line),
    ensures
        ({
            let r = render_spec(dry, prefix, external, st, line, fname);
            let item = YELLOW@ + seq![line[0]] + RESET@ + inline_from(line.drop_first(), plain())
                + seq!['\n'];
            &&& r.1 == begin_spec(st, BlockKind::List).1 + item
            &&& (st.last_kind == BlockKind::List && !st.needs_newline ==> r.1 == item)
            &&& r.0.last_kind == BlockKind::List
            &&& !r.0.needs_newline
            &&& r.0.block is None
            &&& r.2 is None
            &&& r.3 is None
        }),
{
    lemma_trim_first(line);
    assert(lead(line, '#') == 0);
    assert(!is_fence(line)) by {
        if is_fence(line) {
            assert(line.take(3)[0] == line[0]);
        }
    }
}

} // verus!
