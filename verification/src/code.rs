//! Source text as HTML lines.

use crate::json;
use crate::json::{encode_document, JsonDocument};
use crate::source;
use crate::source::{AnalysisSource, Jump, JumpTable, SourceRange, Token, TokenKind, WithLocation};
use crate::symbols;
use crate::symbols::{symbol_menu, token_style, write_data_attributes};
use crate::text;
use crate::text::{entity_replace, fixup, slice};
use vstd::prelude::*;

verus! {

/// A line of source text as HTML.
#[derive(Debug)]
pub struct FormattedLine {
    pub line: String,
    /// True if this line should open a new `<div>` and its `<code>` line should be sticky.
    pub starts_nest: bool,
    /// This line should close this many `<div>`s.
    pub pop_nest_count: u32,
}

// ---------------------------------------------------------------------------
// What a line is made of

/// A part of a line: source text between two byte offsets, or markup.
pub enum Chunk {
    /// Source text as it stands.
    Raw { from: int, to: int },
    /// Source text with its special characters escaped.
    Escaped { from: int, to: int },
    /// Escaped source text in which links are marked.
    Linked { from: int, to: int },
    /// Text that is not in the source.
    Markup(Seq<char>),
}

/// A finished line: its parts, what it does to the nesting, and the source that it stands for.
pub struct LinePlan {
    pub chunks: Seq<Chunk>,
    pub starts_nest: bool,
    pub pops: u32,
    pub from: int,
    /// The index of the token that ends the line.
    pub newline: int,
}

/// What the rendering of a source text depends on.
pub struct CodeInput {
    pub jumps: Map<Seq<char>, Jump>,
    pub path: Seq<char>,
    pub input: Seq<char>,
    pub tokens: Seq<Token>,
    pub analysis: Seq<WithLocation<Vec<AnalysisSource>>>,
}

/// How far the rendering has come.
pub struct CodeState {
    /// The lines that are finished.
    pub lines: Seq<LinePlan>,
    /// The parts of the current line.
    pub chunks: Seq<Chunk>,
    /// The offset up to which the source is in `lines` and `chunks`.
    pub last: int,
    /// The ranges that are open, the innermost last.
    pub stack: Seq<SourceRange>,
    /// Whether a range was opened on the current line.
    pub starts_nest: bool,
    /// The offset at which the current line starts.
    pub line_start: int,
    /// The number of the current line.
    pub cur_line: int,
    /// The index of the first analysis record that was not passed yet.
    pub cursor: int,
    /// The menus so far.
    pub menus: json::DocumentView,
}

/// The state before the first token.
pub open spec fn start() -> CodeState {
    CodeState {
        lines: seq![],
        chunks: seq![],
        last: 0,
        stack: seq![],
        starts_nest: false,
        line_start: 0,
        cur_line: 1,
        cursor: 0,
        menus: seq![],
    }
}

// ---------------------------------------------------------------------------
// Nesting

/// How many of the open ranges stay open after line `line`: all up to the innermost one that ends
/// beyond the next line. The line that holds the end of a range is not covered by its start.
pub open spec fn kept(stack: Seq<SourceRange>, line: int) -> int
    decreases stack.len(),
{
    if stack.len() == 0 {
        0
    } else if stack.last().end_lineno - 1 > line {
        stack.len() as int
    } else {
        kept(stack.drop_last(), line)
    }
}

/// Whether a range opens on line `line` on top of the open ones, given whether one was opened on
/// this line before. It does if it is a range at all, starts on this line or later, does not end
/// on this line or the next, is the first one of the line, and does not start where the innermost
/// open one starts.
pub open spec fn nests(
    range: SourceRange,
    stack: Seq<SourceRange>,
    line: int,
    starts_nest: bool,
) -> bool {
    &&& range.start_lineno != 0
    &&& range.start_lineno >= line
    &&& range.end_lineno > line + 1
    &&& !starts_nest
    &&& stack.len() == 0 || range.start_lineno != stack.last().start_lineno
}

/// The open ranges once the records of a token on line `line` were seen, given whether a range was
/// opened on this line before.
pub open spec fn opened(
    stack: Seq<SourceRange>,
    sources: Seq<AnalysisSource>,
    line: int,
    starts_nest: bool,
) -> Seq<SourceRange>
    decreases sources.len(),
{
    if sources.len() == 0 {
        stack
    } else {
        let before = opened(stack, sources.drop_last(), line, starts_nest);
        let range = sources.last().nesting_range;
        if nests(range, before, line, starts_nest || before.len() > stack.len()) {
            before.push(range)
        } else {
            before
        }
    }
}

// ---------------------------------------------------------------------------
// The records of a token

/// The first record from `i` on that does not belong to an earlier line.
pub open spec fn skip_lines(
    analysis: Seq<WithLocation<Vec<AnalysisSource>>>,
    i: int,
    line: int,
) -> int
    decreases analysis.len() - i,
{
    if 0 <= i < analysis.len() && line > analysis[i].loc.lineno {
        skip_lines(analysis, i + 1, line)
    } else {
        i
    }
}

/// The first record from `i` on that does not belong to an earlier column of the line.
pub open spec fn skip_columns(
    analysis: Seq<WithLocation<Vec<AnalysisSource>>>,
    i: int,
    line: int,
    column: u32,
) -> int
    decreases analysis.len() - i,
{
    if 0 <= i < analysis.len() && line == analysis[i].loc.lineno && column
        > analysis[i].loc.col_start {
        skip_columns(analysis, i + 1, line, column)
    } else {
        i
    }
}

/// The first record from `i` on that does not belong to an earlier place.
pub open spec fn seek(
    analysis: Seq<WithLocation<Vec<AnalysisSource>>>,
    i: int,
    line: int,
    column: u32,
) -> int {
    skip_columns(analysis, skip_lines(analysis, i, line), line, column)
}

/// Whether record `i` belongs to the place.
pub open spec fn found(
    analysis: Seq<WithLocation<Vec<AnalysisSource>>>,
    i: int,
    line: int,
    column: u32,
) -> bool {
    &&& 0 <= i < analysis.len()
    &&& analysis[i].loc.lineno == line
    &&& analysis[i].loc.col_start == column
}

// ---------------------------------------------------------------------------
// One token

/// The state after the token with index `k`, a line end.
pub open spec fn end_line(st: CodeState, token: Token, k: int) -> CodeState {
    let keep = kept(st.stack, st.cur_line);
    CodeState {
        lines: st.lines.push(
            LinePlan {
                chunks: st.chunks.push(Chunk::Raw { from: st.last, to: token.start as int }),
                starts_nest: st.starts_nest,
                pops: (st.stack.len() - keep) as u32,
                from: st.line_start,
                newline: k,
            },
        ),
        chunks: seq![],
        last: token.end as int,
        stack: st.stack.take(keep),
        starts_nest: false,
        line_start: token.end as int,
        cur_line: st.cur_line + 1,
        cursor: st.cursor,
        menus: st.menus,
    }
}

/// The parts that a token with these attributes adds, given that the source up to `last` is
/// rendered.
pub open spec fn token_chunks(last: int, token: Token, attributes: Seq<char>) -> Seq<Chunk> {
    let start = token.start as int;
    let end = token.end as int;
    match token.kind {
        TokenKind::Punctuation => seq![Chunk::Escaped { from: last, to: end }],
        TokenKind::PlainText => seq![Chunk::Linked { from: last, to: end }],
        _ => {
            if attributes.len() == 0 {
                seq![]
            } else {
                let body = if token.kind is Comment || token.kind is StringLiteral {
                    Chunk::Linked { from: start, to: end }
                } else {
                    Chunk::Escaped { from: start, to: end }
                };
                seq![
                    Chunk::Escaped { from: last, to: start },
                    Chunk::Markup("<span "@ + attributes + ">"@),
                    body,
                    Chunk::Markup("</span>"@),
                ]
            }
        },
    }
}

/// The records of a token that starts at `start`, and the cursor behind them.
pub open spec fn lookup(c: CodeInput, st: CodeState, start: int) -> (
    int,
    Option<Seq<AnalysisSource>>,
) {
    let column = (start - st.line_start) as u32;
    let i = seek(c.analysis, st.cursor, st.cur_line, column);
    if found(c.analysis, i, st.cur_line, column) {
        (i + 1, Some(c.analysis[i].data@))
    } else {
        (i, None)
    }
}

/// The state after a token that does not end a line.
pub open spec fn add_token(c: CodeInput, st: CodeState, token: Token) -> CodeState {
    let (cursor, datum) = lookup(c, st, token.start as int);
    let annotated = token.kind == TokenKind::Identifier(None) && datum is Some;
    let sources = datum->0;
    let stack = if annotated {
        opened(st.stack, sources, st.cur_line, st.starts_nest)
    } else {
        st.stack
    };
    let data = if annotated {
        symbols::data_attributes(sources, st.menus.len() as int)
    } else {
        ""@
    };
    let menus = if annotated && symbols::crossref(sources).len() > 0 {
        st.menus.push(symbols::menu(c.jumps, c.path, st.cur_line, sources))
    } else {
        st.menus
    };
    let added = token_chunks(st.last, token, symbols::style_of(token.kind, datum) + data);
    CodeState {
        lines: st.lines,
        chunks: st.chunks + added,
        last: if added.len() > 0 {
            token.end as int
        } else {
            st.last
        },
        stack: stack,
        starts_nest: st.starts_nest || stack.len() > st.stack.len(),
        line_start: st.line_start,
        cur_line: st.cur_line,
        cursor: cursor,
        menus: menus,
    }
}

/// The state after the first `k` tokens.
pub open spec fn run(c: CodeInput, k: int) -> CodeState
    decreases k,
{
    if k <= 0 {
        start()
    } else {
        let st = run(c, k - 1);
        let token = c.tokens[k - 1];
        if token.kind is Newline {
            end_line(st, token, k - 1)
        } else {
            add_token(c, st, token)
        }
    }
}

/// The state after all tokens.
pub open spec fn run_all(c: CodeInput) -> CodeState {
    run(c, c.tokens.len() as int)
}

/// The parts of what follows the last line end.
pub open spec fn last_chunks(c: CodeInput) -> Seq<Chunk> {
    let st = run_all(c);
    st.chunks.push(Chunk::Escaped { from: st.last, to: text::byte_len(c.input) as int })
}

// ---------------------------------------------------------------------------
// From parts to text

/// Whether `linkify` can give `out` for `text`.
pub open spec fn linked_as<L: Fn(&str) -> String>(linkify: L, text: Seq<char>, out: Seq<char>) -> bool {
    exists|a: &str, r: String|
        #[trigger] call_ensures(linkify, (a,), r) && a@ == text && r@ == out
}

/// Whether `out` is what a part stands for.
pub open spec fn chunk_text<L: Fn(&str) -> String>(
    linkify: L,
    input: Seq<char>,
    chunk: Chunk,
    out: Seq<char>,
) -> bool {
    match chunk {
        Chunk::Raw { from, to } => out == text::byte_slice(input, from, to),
        Chunk::Escaped { from, to } => out == text::escape(text::byte_slice(input, from, to)),
        Chunk::Linked { from, to } => linked_as(
            linkify,
            text::escape(text::byte_slice(input, from, to)),
            out,
        ),
        Chunk::Markup(markup) => out == markup,
    }
}

/// The texts one after the other.
pub open spec fn concat(texts: Seq<Seq<char>>) -> Seq<char>
    decreases texts.len(),
{
    if texts.len() == 0 {
        seq![]
    } else {
        concat(texts.drop_last()) + texts.last()
    }
}

/// Whether each text is what the part at its place stands for.
pub open spec fn chunk_texts<L: Fn(&str) -> String>(
    linkify: L,
    input: Seq<char>,
    chunks: Seq<Chunk>,
    texts: Seq<Seq<char>>,
) -> bool {
    &&& texts.len() == chunks.len()
    &&& forall|i: int|
        0 <= i < chunks.len() ==> chunk_text(linkify, input, chunks[i], #[trigger] texts[i])
}

/// Whether the parts in order stand for `out`.
pub open spec fn renders<L: Fn(&str) -> String>(
    linkify: L,
    input: Seq<char>,
    chunks: Seq<Chunk>,
    out: Seq<char>,
) -> bool {
    exists|texts: Seq<Seq<char>>|
        #[trigger] chunk_texts(linkify, input, chunks, texts) && out == concat(texts)
}

/// Whether `line` is what a plan stands for.
pub open spec fn line_renders<L: Fn(&str) -> String>(
    linkify: L,
    input: Seq<char>,
    plan: LinePlan,
    line: FormattedLine,
) -> bool {
    &&& line.starts_nest == plan.starts_nest
    &&& line.pop_nest_count == plan.pops
    &&& exists|out: Seq<char>|
        #[trigger] renders(linkify, input, plan.chunks, out) && line.line@ == text::without_cr(out)
}

/// Whether `line` is what follows the last line end, whose text before the carriage returns are
/// dropped is `out`.
pub open spec fn last_line_renders(c: CodeInput, out: Seq<char>, line: FormattedLine) -> bool {
    let st = run_all(c);
    &&& line.line@ == text::without_cr(out)
    &&& line.starts_nest == st.starts_nest
    &&& line.pop_nest_count == st.stack.len() as u32
}

/// Whether `lines` is the rendering of a source text: a line for each line end, and one more for
/// what follows the last of them unless that is empty.
pub open spec fn code_lines<L: Fn(&str) -> String>(
    linkify: L,
    c: CodeInput,
    lines: Seq<FormattedLine>,
) -> bool {
    let plans = run_all(c).lines;
    &&& lines.len() >= plans.len()
    &&& forall|i: int|
        0 <= i < plans.len() ==> line_renders(linkify, c.input, plans[i], #[trigger] lines[i])
    &&& exists|out: Seq<char>|
        {
            &&& #[trigger] renders(linkify, c.input, last_chunks(c), out)
            &&& if out.len() > 0 {
                &&& lines.len() == plans.len() + 1
                &&& last_line_renders(c, out, lines.last())
            } else {
                lines.len() == plans.len()
            }
        }
}

/// Adding a part adds its text.
pub proof fn lemma_renders_push<L: Fn(&str) -> String>(
    linkify: L,
    input: Seq<char>,
    chunks: Seq<Chunk>,
    out: Seq<char>,
    chunk: Chunk,
    more: Seq<char>,
)
    requires
        renders(linkify, input, chunks, out),
        chunk_text(linkify, input, chunk, more),
    ensures
        renders(linkify, input, chunks.push(chunk), out + more),
{
    let texts = choose|texts: Seq<Seq<char>>|
        #[trigger] chunk_texts(linkify, input, chunks, texts) && out == concat(texts);
    let grown = texts.push(more);
    assert forall|i: int| 0 <= i < chunks.push(chunk).len() implies chunk_text(
        linkify,
        input,
        chunks.push(chunk)[i],
        #[trigger] grown[i],
    ) by {
        if i < chunks.len() {
            assert(grown[i] == texts[i]);
        }
    }
    assert(chunk_texts(linkify, input, chunks.push(chunk), grown));
    assert(grown.drop_last() =~= texts);
}

/// No parts stand for no text.
pub proof fn lemma_renders_nothing<L: Fn(&str) -> String>(linkify: L, input: Seq<char>)
    ensures
        renders(linkify, input, Seq::<Chunk>::empty(), Seq::<char>::empty()),
{
    let texts = Seq::<Seq<char>>::empty();
    assert(chunk_texts(linkify, input, Seq::<Chunk>::empty(), texts));
    assert(concat(texts) =~= Seq::<char>::empty());
}

// ---------------------------------------------------------------------------
// Rendering

/// No more ranges stay open than there are.
pub proof fn lemma_kept_bounds(stack: Seq<SourceRange>, line: int)
    ensures
        0 <= kept(stack, line) <= stack.len(),
    decreases stack.len(),
{
    if stack.len() > 0 {
        lemma_kept_bounds(stack.drop_last(), line);
    }
}

/// Closes the ranges that end with line `line`, and returns how many there were.
fn close_ranges(stack: &mut Vec<SourceRange>, line: u32) -> (r: usize)
    requires
        forall|i: int| 0 <= i < old(stack)@.len() ==> (#[trigger] old(stack)@[i]).end_lineno != 0,
    ensures
        final(stack)@ == old(stack)@.take(kept(old(stack)@, line as int)),
        r == old(stack)@.len() - kept(old(stack)@, line as int),
        0 <= kept(old(stack)@, line as int) <= old(stack)@.len(),
{
    let n = stack.len();
    let mut keep: usize = n;
    proof {
        assert(stack@.take(n as int) =~= stack@);
        lemma_kept_bounds(stack@, line as int);
    }
    while keep > 0 && stack[keep - 1].end_lineno - 1 <= line
        invariant
            stack@ == old(stack)@,
            n == stack@.len(),
            keep <= n,
            forall|i: int| 0 <= i < stack@.len() ==> (#[trigger] stack@[i]).end_lineno != 0,
            kept(stack@, line as int) == kept(stack@.take(keep as int), line as int),
        decreases keep,
    {
        proof {
            assert(stack@.take(keep as int).drop_last() =~= stack@.take(keep - 1));
        }
        keep = keep - 1;
    }
    stack.truncate(keep);
    n - keep
}

/// Opens the range of a token's records that nests, if any, and returns whether the line has
/// opened one by then.
fn open_ranges(
    stack: &mut Vec<SourceRange>,
    sources: &Vec<AnalysisSource>,
    line: u32,
    starts_nest: bool,
) -> (r: bool)
    requires
        forall|i: int| 0 <= i < old(stack)@.len() ==> (#[trigger] old(stack)@[i]).end_lineno != 0,
    ensures
        final(stack)@ == opened(old(stack)@, sources@, line as int, starts_nest),
        r == (starts_nest || final(stack)@.len() > old(stack)@.len()),
        forall|i: int|
            0 <= i < final(stack)@.len() ==> (#[trigger] final(stack)@[i]).end_lineno != 0,
{
    let mut nested = starts_nest;
    let mut i: usize = 0;
    while i < sources.len()
        invariant
            i <= sources@.len(),
            stack@ == opened(old(stack)@, sources@.take(i as int), line as int, starts_nest),
            stack@.len() >= old(stack)@.len(),
            nested == (starts_nest || stack@.len() > old(stack)@.len()),
            forall|k: int| 0 <= k < stack@.len() ==> (#[trigger] stack@[k]).end_lineno != 0,
        decreases sources@.len() - i,
    {
        let range = sources[i].nesting_range;
        proof {
            assert(sources@.take(i + 1).drop_last() =~= sources@.take(i as int));
        }
        let relevant = range.start_lineno != 0 && range.start_lineno >= line
            && range.end_lineno as u64 > line as u64 + 1;
        if relevant && !nested && (stack.len() == 0 || range.start_lineno != stack[stack.len()
            - 1].start_lineno) {
            stack.push(range);
            nested = true;
        }
        i = i + 1;
    }
    proof {
        assert(sources@.take(sources@.len() as int) =~= sources@);
    }
    nested
}

/// Passes the records that belong to an earlier place.
fn advance(
    analysis: &[WithLocation<Vec<AnalysisSource>>],
    from: usize,
    line: u32,
    column: u32,
) -> (r: usize)
    requires
        from <= analysis@.len(),
    ensures
        r == seek(analysis@, from as int, line as int, column),
        r <= analysis@.len(),
{
    let mut i: usize = from;
    while i < analysis.len() && line > analysis[i].loc.lineno
        invariant
            i <= analysis@.len(),
            skip_lines(analysis@, from as int, line as int) == skip_lines(
                analysis@,
                i as int,
                line as int,
            ),
        decreases analysis@.len() - i,
    {
        i = i + 1;
    }
    let ghost first = i as int;
    while i < analysis.len() && line == analysis[i].loc.lineno && column
        > analysis[i].loc.col_start
        invariant
            i <= analysis@.len(),
            skip_columns(analysis@, first, line as int, column) == skip_columns(
                analysis@,
                i as int,
                line as int,
                column,
            ),
        decreases analysis@.len() - i,
    {
        i = i + 1;
    }
    i
}

/// A rendering in progress.
struct CodeWriter {
    lines: Vec<FormattedLine>,
    output: String,
    last: usize,
    stack: Vec<SourceRange>,
    starts_nest: bool,
    line_start: usize,
    cur_line: u32,
    cursor: usize,
    menus: JsonDocument,
}

impl CodeWriter {
    /// Whether the rendering has reached the state `st`.
    spec fn at<L: Fn(&str) -> String>(self, linkify: L, c: CodeInput, st: CodeState) -> bool {
        &&& self.lines@.len() == st.lines.len()
        &&& forall|i: int|
            0 <= i < st.lines.len() ==> line_renders(
                linkify,
                c.input,
                st.lines[i],
                #[trigger] self.lines@[i],
            )
        &&& renders(linkify, c.input, st.chunks, self.output@)
        &&& self.last == st.last
        &&& self.stack@ == st.stack
        &&& self.starts_nest == st.starts_nest
        &&& self.line_start == st.line_start
        &&& self.cur_line == st.cur_line
        &&& self.cursor == st.cursor
        &&& self.menus.deep_view() == st.menus
    }

    /// Whether a token that starts at `start` can come next.
    spec fn ready(self, c: CodeInput, start: int) -> bool {
        &&& self.last <= start
        &&& self.line_start <= start
        &&& text::boundary(c.input, self.last as int)
        &&& self.cursor <= c.analysis.len()
        &&& forall|i: int|
            0 <= i < self.stack@.len() ==> (#[trigger] self.stack@[i]).end_lineno != 0
    }

    /// Ends the current line.
    fn end_line<L: Fn(&str) -> String>(
        &mut self,
        Ghost(linkify): Ghost<L>,
        Ghost(c): Ghost<CodeInput>,
        Ghost(st): Ghost<CodeState>,
        Ghost(k): Ghost<int>,
        input: &str,
        token: &Token,
    )
        requires
            c.input == input@,
            old(self).at(linkify, c, st),
            old(self).ready(c, token.start as int),
            source::token_valid(input@, *token),
            old(self).cur_line < u32::MAX,
        ensures
            final(self).at(linkify, c, end_line(st, *token, k)),
            final(self).ready(c, token.end as int),
    {
        let raw = slice(input, self.last, token.start);
        self.output.append(raw);
        let ghost chunk = Chunk::Raw { from: st.last, to: token.start as int };
        proof {
            lemma_renders_push(linkify, c.input, st.chunks, old(self).output@, chunk, raw@);
        }
        let ghost whole = self.output@;
        let pop_count = close_ranges(&mut self.stack, self.cur_line);
        let line = FormattedLine {
            line: fixup(self.output.as_str()),
            starts_nest: self.starts_nest,
            pop_nest_count: pop_count as u32,
        };
        let ghost next = end_line(st, *token, k);
        proof {
            let plan = next.lines.last();
            assert(renders(linkify, c.input, plan.chunks, whole));
            assert(line_renders(linkify, c.input, plan, line));
        }
        self.lines.push(line);
        self.output = String::new();
        self.cur_line = self.cur_line + 1;
        self.line_start = token.end;
        self.last = token.end;
        self.starts_nest = false;
        proof {
            lemma_renders_nothing(linkify, c.input);
            assert(next.chunks =~= Seq::<Chunk>::empty());
            assert forall|i: int| 0 <= i < next.lines.len() implies line_renders(
                linkify,
                c.input,
                next.lines[i],
                #[trigger] self.lines@[i],
            ) by {
                if i < st.lines.len() {
                    assert(self.lines@[i] == old(self).lines@[i]);
                }
            }
        }
    }

    /// Appends the escaped source between two offsets.
    fn put_escaped<L: Fn(&str) -> String>(
        &mut self,
        Ghost(linkify): Ghost<L>,
        Ghost(chunks): Ghost<Seq<Chunk>>,
        input: &str,
        from: usize,
        to: usize,
    )
        requires
            from <= to,
            text::boundary(input@, from as int),
            text::boundary(input@, to as int),
            renders(linkify, input@, chunks, old(self).output@),
        ensures
            renders(
                linkify,
                input@,
                chunks.push(Chunk::Escaped { from: from as int, to: to as int }),
                final(self).output@,
            ),
            *final(self) == (CodeWriter { output: final(self).output, ..*old(self) }),
    {
        let part = entity_replace(slice(input, from, to));
        self.output.append(part.as_str());
        proof {
            lemma_renders_push(
                linkify,
                input@,
                chunks,
                old(self).output@,
                Chunk::Escaped { from: from as int, to: to as int },
                part@,
            );
        }
    }

    /// Appends the escaped source between two offsets, with its links marked.
    fn put_linked<L: Fn(&str) -> String>(
        &mut self,
        linkify: &L,
        Ghost(chunks): Ghost<Seq<Chunk>>,
        input: &str,
        from: usize,
        to: usize,
    )
        requires
            from <= to,
            text::boundary(input@, from as int),
            text::boundary(input@, to as int),
            renders(*linkify, input@, chunks, old(self).output@),
            forall|a: &str| call_requires(*linkify, (a,)),
        ensures
            renders(
                *linkify,
                input@,
                chunks.push(Chunk::Linked { from: from as int, to: to as int }),
                final(self).output@,
            ),
            *final(self) == (CodeWriter { output: final(self).output, ..*old(self) }),
    {
        let part = entity_replace(slice(input, from, to));
        let linked = (*linkify)(part.as_str());
        self.output.append(linked.as_str());
        proof {
            assert(linked_as(*linkify, part@, linked@));
            lemma_renders_push(
                *linkify,
                input@,
                chunks,
                old(self).output@,
                Chunk::Linked { from: from as int, to: to as int },
                linked@,
            );
        }
    }

    /// Appends markup.
    fn put_markup<L: Fn(&str) -> String>(
        &mut self,
        Ghost(linkify): Ghost<L>,
        Ghost(chunks): Ghost<Seq<Chunk>>,
        Ghost(input): Ghost<Seq<char>>,
        markup: &str,
    )
        requires
            renders(linkify, input, chunks, old(self).output@),
        ensures
            renders(linkify, input, chunks.push(Chunk::Markup(markup@)), final(self).output@),
            *final(self) == (CodeWriter { output: final(self).output, ..*old(self) }),
    {
        self.output.append(markup);
        proof {
            lemma_renders_push(
                linkify,
                input,
                chunks,
                old(self).output@,
                Chunk::Markup(markup@),
                markup@,
            );
        }
    }

    /// Appends the parts of a token with these attributes.
    fn put_token<L: Fn(&str) -> String>(
        &mut self,
        linkify: &L,
        Ghost(chunks): Ghost<Seq<Chunk>>,
        input: &str,
        token: &Token,
        attributes: &str,
    )
        requires
            source::token_valid(input@, *token),
            old(self).last <= token.start,
            text::boundary(input@, old(self).last as int),
            renders(*linkify, input@, chunks, old(self).output@),
            forall|a: &str| call_requires(*linkify, (a,)),
        ensures
            renders(
                *linkify,
                input@,
                chunks + token_chunks(old(self).last as int, *token, attributes@),
                final(self).output@,
            ),
            final(self).last == (if token_chunks(
                old(self).last as int,
                *token,
                attributes@,
            ).len() > 0 {
                token.end
            } else {
                old(self).last
            }),
            *final(self) == (CodeWriter {
                output: final(self).output,
                last: final(self).last,
                ..*old(self)
            }),
    {
        let last = self.last;
        let ghost added = token_chunks(last as int, *token, attributes@);
        match token.kind {
            TokenKind::Punctuation => {
                self.put_escaped::<L>(Ghost(*linkify), Ghost(chunks), input, last, token.end);
                self.last = token.end;
                proof {
                    assert(chunks + added =~= chunks.push(added[0]));
                }
            },
            TokenKind::PlainText => {
                self.put_linked(linkify, Ghost(chunks), input, last, token.end);
                self.last = token.end;
                proof {
                    assert(chunks + added =~= chunks.push(added[0]));
                }
            },
            _ => {
                if attributes.is_empty() {
                    proof {
                        assert(chunks + added =~= chunks);
                    }
                } else {
                    self.put_escaped::<L>(Ghost(*linkify), Ghost(chunks), input, last, token.start);
                    let ghost one = chunks.push(added[0]);
                    let mut open = "<span ".to_owned();
                    open.append(attributes);
                    open.append(">");
                    self.put_markup::<L>(Ghost(*linkify), Ghost(one), Ghost(input@), open.as_str());
                    let ghost two = one.push(added[1]);
                    let links = matches!(token.kind, TokenKind::Comment | TokenKind::StringLiteral);
                    if links {
                        self.put_linked(linkify, Ghost(two), input, token.start, token.end);
                    } else {
                        self.put_escaped::<L>(
                            Ghost(*linkify),
                            Ghost(two),
                            input,
                            token.start,
                            token.end,
                        );
                    }
                    let ghost three = two.push(added[2]);
                    self.put_markup::<L>(Ghost(*linkify), Ghost(three), Ghost(input@), "</span>");
                    self.last = token.end;
                    proof {
                        assert(chunks + added =~= three.push(added[3]));
                    }
                }
            },
        }
    }

    /// Renders a token that does not end a line.
    fn add_token<L: Fn(&str) -> String>(
        &mut self,
        linkify: &L,
        Ghost(c): Ghost<CodeInput>,
        Ghost(st): Ghost<CodeState>,
        jumps: &JumpTable,
        path: &str,
        input: &str,
        token: &Token,
        analysis: &[WithLocation<Vec<AnalysisSource>>],
    )
        requires
            c.jumps == jumps@,
            c.path == path@,
            c.input == input@,
            c.analysis == analysis@,
            old(self).at(*linkify, c, st),
            old(self).ready(c, token.start as int),
            source::token_valid(input@, *token),
            !(token.kind is Newline),
            forall|a: &str| call_requires(*linkify, (a,)),
        ensures
            final(self).at(*linkify, c, add_token(c, st, *token)),
            final(self).ready(c, token.end as int),
    {
        let column = (token.start - self.line_start) as u32;
        let i = advance(analysis, self.cursor, self.cur_line, column);
        let hit = i < analysis.len() && self.cur_line == analysis[i].loc.lineno && column
            == analysis[i].loc.col_start;
        let datum: Option<&Vec<AnalysisSource>> = if hit {
            Some(&analysis[i].data)
        } else {
            None
        };
        let cursor: usize = if hit {
            i + 1
        } else {
            i
        };
        let ghost ghost_datum: Option<Seq<AnalysisSource>> = match datum {
            Some(d) => Some(d@),
            None => None,
        };
        proof {
            assert(lookup(c, st, token.start as int) == (cursor as int, ghost_datum));
        }
        self.cursor = cursor;
        let mut attributes = token_style(&token.kind, datum);
        let plain_word = matches!(token.kind, TokenKind::Identifier(None));
        proof {
            assert(plain_word == (token.kind == TokenKind::Identifier(None)));
        }
        let mut data = "".to_owned();
        let ghost depth = self.stack@.len();
        if plain_word {
            if let Some(sources) = datum {
                self.starts_nest = open_ranges(
                    &mut self.stack,
                    sources,
                    self.cur_line,
                    self.starts_nest,
                );
                let menu = symbol_menu(jumps, path, self.cur_line, sources);
                let ghost menu_view = menu.deep_view();
                proof {
                    assert(menu_view == symbols::menu(
                        jumps@,
                        path@,
                        self.cur_line as int,
                        sources@,
                    ));
                    assert(menu_view.len() == 2);
                    assert(menu@.len() == 2);
                    assert(menu_view[1] == menu@[1].deep_view());
                }
                let items = menu[1].len();
                let index = self.menus.len();
                data = write_data_attributes(sources, index, items);
                if items > 0 {
                    let ghost before = self.menus;
                    self.menus.push(menu);
                    proof {
                        assert(self.menus.deep_view() =~= before.deep_view().push(menu_view));
                    }
                }
            }
        }
        attributes.append(data.as_str());
        proof {
            if !plain_word || datum is None {
                assert(data@ == ""@);
            }
        }
        self.put_token(linkify, Ghost(st.chunks), input, token, attributes.as_str());
    }
}

/// Renders source code into HTML lines and the symbol data that their menus refer to. The caller
/// numbers the lines and adds blame information.
pub fn format_tokens<L: Fn(&str) -> String>(
    jumps: &JumpTable,
    path: &str,
    input: &str,
    tokens: &[Token],
    analysis: &[WithLocation<Vec<AnalysisSource>>],
    linkify: &L,
) -> (r: (Vec<FormattedLine>, JsonDocument))
    requires
        source::tokens_valid(input@, tokens@),
        source::lines_countable(tokens@),
        forall|a: &str| call_requires(*linkify, (a,)),
    ensures
        code_lines(*linkify, code_input(jumps@, path@, input@, tokens@, analysis@), r.0@),
        r.1.deep_view() == run_all(code_input(jumps@, path@, input@, tokens@, analysis@)).menus,
{
    let ghost c = code_input(jumps@, path@, input@, tokens@, analysis@);
    let mut w = CodeWriter {
        lines: Vec::new(),
        output: String::new(),
        last: 0,
        stack: Vec::new(),
        starts_nest: false,
        line_start: 0,
        cur_line: 1,
        cursor: 0,
        menus: Vec::new(),
    };
    proof {
        lemma_renders_nothing(*linkify, c.input);
        assert(w.menus.deep_view() =~= start().menus);
        assert(start().chunks =~= Seq::<Chunk>::empty());
        assert(w.at(*linkify, c, run(c, 0)));
        text::lemma_boundary_bounds(input@, 0);
    }
    let mut k: usize = 0;
    while k < tokens.len()
        invariant
            c == code_input(jumps@, path@, input@, tokens@, analysis@),
            k <= tokens@.len(),
            source::tokens_valid(input@, tokens@),
            source::lines_countable(tokens@),
            forall|a: &str| call_requires(*linkify, (a,)),
            w.at(*linkify, c, run(c, k as int)),
            w.cur_line == 1 + source::newlines(tokens@, k as int),
            k < tokens@.len() ==> w.ready(c, tokens@[k as int].start as int),
            text::boundary(c.input, w.last as int),
        decreases tokens@.len() - k,
    {
        let token = &tokens[k];
        let ghost st = run(c, k as int);
        proof {
            assert(source::token_valid(input@, tokens@[k as int]));
            source::lemma_newlines_grow(tokens@, k + 1, tokens@.len() as int);
            if k + 1 < tokens@.len() {
                assert(tokens@[k as int].end <= tokens@[k + 1].start);
            }
        }
        if matches!(token.kind, TokenKind::Newline) {
            w.end_line::<L>(Ghost(*linkify), Ghost(c), Ghost(st), Ghost(k as int), input, token);
        } else {
            w.add_token(linkify, Ghost(c), Ghost(st), jumps, path, input, token, analysis);
        }
        k = k + 1;
    }
    let ghost st = run_all(c);
    let ghost before = w;
    proof {
        text::lemma_boundary_bounds(input@, w.last as int);
    }
    let len = input.as_bytes().len();
    w.put_escaped::<L>(Ghost(*linkify), Ghost(st.chunks), input, w.last, len);
    proof {
        assert(renders(*linkify, c.input, last_chunks(c), w.output@));
    }
    if !w.output.as_str().is_empty() {
        w.lines.push(
            FormattedLine {
                line: fixup(w.output.as_str()),
                starts_nest: w.starts_nest,
                pop_nest_count: w.stack.len() as u32,
            },
        );
        proof {
            assert(last_line_renders(c, w.output@, w.lines@.last()));
        }
    }
    proof {
        assert forall|i: int| 0 <= i < st.lines.len() implies line_renders(
            *linkify,
            c.input,
            st.lines[i],
            #[trigger] w.lines@[i],
        ) by {
            assert(w.lines@[i] == before.lines@[i]);
        }
    }
    (w.lines, w.menus)
}

/// The parameters of a rendering, together.
pub open spec fn code_input(
    jumps: Map<Seq<char>, Jump>,
    path: Seq<char>,
    input: Seq<char>,
    tokens: Seq<Token>,
    analysis: Seq<WithLocation<Vec<AnalysisSource>>>,
) -> CodeInput {
    CodeInput { jumps, path, input, tokens, analysis }
}

/// Renders source code into HTML lines, and the symbol data that their menus refer to as JSON:
/// indented where `diffable` asks for output that is made to be compared. The caller numbers the
/// lines and adds blame information.
pub fn format_code<L: Fn(&str) -> String>(
    jumps: &JumpTable,
    path: &str,
    input: &str,
    tokens: &[Token],
    analysis: &[WithLocation<Vec<AnalysisSource>>],
    diffable: bool,
    linkify: &L,
) -> (r: (Vec<FormattedLine>, String))
    requires
        source::tokens_valid(input@, tokens@),
        source::lines_countable(tokens@),
        forall|a: &str| call_requires(*linkify, (a,)),
    ensures
        code_lines(*linkify, code_input(jumps@, path@, input@, tokens@, analysis@), r.0@),
        r.1@ == json::document_text(
            run_all(code_input(jumps@, path@, input@, tokens@, analysis@)).menus,
            diffable,
        ),
{
    let (lines, document) = format_tokens(jumps, path, input, tokens, analysis, linkify);
    let analysis_json = encode_document(&document, diffable);
    (lines, analysis_json)
}

} // verus!
