//! What holds of every rendering of a source text.

use crate::code;
use crate::code::{Chunk, CodeInput, FormattedLine, LinePlan};
use crate::source;
use crate::source::{AnalysisSource, SourceRange, Token, TokenKind, WithLocation};
use crate::symbols;
use crate::text;
use vstd::prelude::*;

verus! {

// ---------------------------------------------------------------------------
// Every character of the source is rendered once

/// The source text that the parts stand for, without markup, escapes and links.
pub open spec fn plain(input: Seq<char>, chunks: Seq<Chunk>) -> Seq<char>
    decreases chunks.len(),
{
    if chunks.len() == 0 {
        seq![]
    } else {
        plain(input, chunks.drop_last()) + match chunks.last() {
            Chunk::Raw { from, to } => text::byte_slice(input, from, to),
            Chunk::Escaped { from, to } => text::byte_slice(input, from, to),
            Chunk::Linked { from, to } => text::byte_slice(input, from, to),
            Chunk::Markup(_) => seq![],
        }
    }
}

/// The offset at which line `i` of the finished lines starts: behind the line end before it.
pub open spec fn line_begin(tokens: Seq<Token>, lines: Seq<LinePlan>, i: int) -> int {
    if i <= 0 {
        0
    } else {
        tokens[lines[i - 1].newline].end as int
    }
}

/// Whether line `i` stands for the source between two line ends.
pub open spec fn line_covers(c: CodeInput, lines: Seq<LinePlan>, i: int) -> bool {
    let plan = lines[i];
    &&& 0 <= plan.newline < c.tokens.len()
    &&& c.tokens[plan.newline].kind is Newline
    &&& plan.from == line_begin(c.tokens, lines, i)
    &&& plain(c.input, plan.chunks) == text::byte_slice(
        c.input,
        plan.from,
        c.tokens[plan.newline].start as int,
    )
}

spec fn covers(c: CodeInput, k: int) -> bool {
    let st = code::run(c, k);
    &&& 0 <= st.line_start <= st.last
    &&& st.last <= (if k > 0 {
        c.tokens[k - 1].end as int
    } else {
        0
    })
    &&& text::boundary(c.input, st.line_start)
    &&& text::boundary(c.input, st.last)
    &&& plain(c.input, st.chunks) == text::byte_slice(c.input, st.line_start, st.last)
    &&& st.lines.len() == source::newlines(c.tokens, k)
    &&& st.cur_line == 1 + st.lines.len()
    &&& st.line_start == line_begin(c.tokens, st.lines, st.lines.len() as int)
    &&& forall|i: int| 0 <= i < st.lines.len() ==> line_covers(c, st.lines, i)
    &&& forall|i: int|
        0 <= i < st.lines.len() ==> 0 <= (#[trigger] st.lines[i]).newline < k
    &&& forall|i: int, j: int|
        0 <= i < j < st.lines.len() ==> (#[trigger] st.lines[i]).newline < (
        #[trigger] st.lines[j]).newline
}

proof fn lemma_empty_slice(s: Seq<char>, a: int)
    requires
        text::boundary(s, a),
    ensures
        text::byte_slice(s, a, a) == Seq::<char>::empty(),
{
    text::lemma_boundary_bounds(s, a);
    let b = vstd::utf8::encode_utf8(s).subrange(a, a);
    assert(b.len() == 0);
    assert(vstd::utf8::valid_utf8(b));
    assert(vstd::utf8::decode_utf8(b) =~= Seq::<char>::empty());
}

/// Adding source that follows on.
proof fn lemma_plain_push(input: Seq<char>, chunks: Seq<Chunk>, chunk: Chunk)
    ensures
        plain(input, chunks.push(chunk)) == plain(input, chunks) + match chunk {
            Chunk::Raw { from, to } => text::byte_slice(input, from, to),
            Chunk::Escaped { from, to } => text::byte_slice(input, from, to),
            Chunk::Linked { from, to } => text::byte_slice(input, from, to),
            Chunk::Markup(_) => seq![],
        },
{
    assert(chunks.push(chunk).drop_last() =~= chunks);
}

proof fn lemma_plain_token(
    input: Seq<char>,
    chunks: Seq<Chunk>,
    begin: int,
    last: int,
    token: Token,
    attributes: Seq<char>,
)
    requires
        source::token_valid(input, token),
        0 <= begin <= last <= token.start,
        text::boundary(input, begin),
        text::boundary(input, last),
        plain(input, chunks) == text::byte_slice(input, begin, last),
    ensures
        ({
            let added = code::token_chunks(last, token, attributes);
            plain(input, chunks + added) == text::byte_slice(
                input,
                begin,
                if added.len() > 0 {
                    token.end as int
                } else {
                    last
                },
            )
        }),
{
    let added = code::token_chunks(last, token, attributes);
    let start = token.start as int;
    let end = token.end as int;
    if added.len() == 0 {
        assert(chunks + added =~= chunks);
    } else if added.len() == 1 {
        assert(chunks + added =~= chunks.push(added[0]));
        lemma_plain_push(input, chunks, added[0]);
        text::law_slices_join(input, begin, last, end);
    } else {
        let one = chunks.push(added[0]);
        let two = one.push(added[1]);
        let three = two.push(added[2]);
        assert(chunks + added =~= three.push(added[3]));
        lemma_plain_push(input, chunks, added[0]);
        lemma_plain_push(input, one, added[1]);
        lemma_plain_push(input, two, added[2]);
        lemma_plain_push(input, three, added[3]);
        text::law_slices_join(input, begin, last, start);
        text::law_slices_join(input, begin, start, end);
        assert(plain(input, one) == text::byte_slice(input, begin, start));
        assert(plain(input, two) =~= plain(input, one));
        assert(plain(input, three) == text::byte_slice(input, begin, end));
        assert(plain(input, three.push(added[3])) =~= plain(input, three));
    }
}

proof fn lemma_covers(c: CodeInput, k: int)
    requires
        source::tokens_valid(c.input, c.tokens),
        0 <= k <= c.tokens.len(),
    ensures
        covers(c, k),
    decreases k,
{
    if k == 0 {
        let st = code::run(c, 0);
        text::lemma_boundary_bounds(c.input, 0);
        lemma_empty_slice(c.input, 0);
        assert(plain(c.input, st.chunks) =~= Seq::<char>::empty());
    } else {
        lemma_covers(c, k - 1);
        let st = code::run(c, k - 1);
        let next = code::run(c, k);
        let token = c.tokens[k - 1];
        assert(source::token_valid(c.input, c.tokens[k - 1]));
        if k > 1 {
            assert(c.tokens[k - 2].end <= c.tokens[k - 1].start);
        }
        if token.kind is Newline {
            let chunk = Chunk::Raw { from: st.last, to: token.start as int };
            lemma_plain_push(c.input, st.chunks, chunk);
            text::law_slices_join(c.input, st.line_start, st.last, token.start as int);
            lemma_empty_slice(c.input, token.end as int);
            assert(plain(c.input, next.chunks) =~= Seq::<char>::empty());
            let n = st.lines.len() as int;
            assert(next.lines == st.lines.push(next.lines[n]));
            assert(next.lines[n].newline == k - 1);
            assert forall|i: int| 0 <= i < next.lines.len() implies line_covers(
                c,
                next.lines,
                i,
            ) by {
                if i < n {
                    assert(line_covers(c, st.lines, i));
                    assert(next.lines[i] == st.lines[i]);
                    if i > 0 {
                        assert(next.lines[i - 1] == st.lines[i - 1]);
                    }
                } else if n > 0 {
                    assert(next.lines[n - 1] == st.lines[n - 1]);
                }
            }
            assert forall|i: int| 0 <= i < next.lines.len() implies 0 <= (
            #[trigger] next.lines[i]).newline < k by {
                if i < n {
                    assert(next.lines[i] == st.lines[i]);
                }
            }
            assert forall|i: int, j: int| 0 <= i < j < next.lines.len() implies (
            #[trigger] next.lines[i]).newline < (#[trigger] next.lines[j]).newline by {
                assert(next.lines[i] == st.lines[i]);
                if j < n {
                    assert(next.lines[j] == st.lines[j]);
                }
            }
        } else {
            let (_, datum) = code::lookup(c, st, token.start as int);
            let annotated = token.kind == TokenKind::Identifier(None) && datum is Some;
            let data = if annotated {
                symbols::data_attributes(datum->0, st.menus.len() as int)
            } else {
                ""@
            };
            lemma_plain_token(
                c.input,
                st.chunks,
                st.line_start,
                st.last,
                token,
                symbols::style_of(token.kind, datum) + data,
            );
        }
    }
}

/// Each line of the rendering stands for exactly the source between two line ends, and what
/// follows the last line end is rendered whole: leaving out the markup and undoing escapes and
/// links gives the source back. The lines are as many as the line ends, in their order.
pub proof fn law_source_is_kept(c: CodeInput)
    requires
        source::tokens_valid(c.input, c.tokens),
    ensures
        code::run_all(c).lines.len() == source::newlines(c.tokens, c.tokens.len() as int),
        forall|i: int|
            0 <= i < code::run_all(c).lines.len() ==> line_covers(c, code::run_all(c).lines, i),
        forall|i: int, j: int|
            0 <= i < j < code::run_all(c).lines.len() ==> (
            #[trigger] code::run_all(c).lines[i]).newline < (
            #[trigger] code::run_all(c).lines[j]).newline,
        plain(c.input, code::last_chunks(c)) == text::byte_slice(
            c.input,
            line_begin(
                c.tokens,
                code::run_all(c).lines,
                code::run_all(c).lines.len() as int,
            ),
            text::byte_len(c.input) as int,
        ),
{
    let n = c.tokens.len() as int;
    lemma_covers(c, n);
    let st = code::run_all(c);
    let len = text::byte_len(c.input) as int;
    text::lemma_boundary_bounds(c.input, st.last);
    lemma_plain_push(c.input, st.chunks, Chunk::Escaped { from: st.last, to: len });
    text::law_slices_join(c.input, st.line_start, st.last, len);
}

/// No line of a rendering holds a carriage return.
pub proof fn law_no_carriage_return<L: Fn(&str) -> String>(
    linkify: L,
    c: CodeInput,
    lines: Seq<FormattedLine>,
)
    requires
        code::code_lines(linkify, c, lines),
    ensures
        forall|i: int| 0 <= i < lines.len() ==> !(#[trigger] lines[i]).line@.contains('\r'),
{
    let plans = code::run_all(c).lines;
    assert forall|i: int| 0 <= i < lines.len() implies !(#[trigger] lines[i]).line@.contains(
        '\r',
    ) by {
        if i < plans.len() {
            assert(code::line_renders(linkify, c.input, plans[i], lines[i]));
            let out = choose|out: Seq<char>|
                #[trigger] code::renders(linkify, c.input, plans[i].chunks, out)
                    && lines[i].line@ == text::without_cr(out);
            text::law_without_cr(out);
        } else {
            let out = choose|out: Seq<char>|
                {
                    &&& #[trigger] code::renders(linkify, c.input, code::last_chunks(c), out)
                    &&& if out.len() > 0 {
                        &&& lines.len() == plans.len() + 1
                        &&& code::last_line_renders(c, out, lines.last())
                    } else {
                        lines.len() == plans.len()
                    }
                };
            text::law_without_cr(out);
        }
    }
}

// ---------------------------------------------------------------------------
// The last line

/// The source behind the last line end.
pub open spec fn unfinished(c: CodeInput) -> Seq<char> {
    let lines = code::run_all(c).lines;
    text::byte_slice(
        c.input,
        line_begin(c.tokens, lines, lines.len() as int),
        text::byte_len(c.input) as int,
    )
}

/// Whether marking links leaves something of every text that is not empty.
pub open spec fn keeps_text<L: Fn(&str) -> String>(linkify: L) -> bool {
    forall|a: &str, r: String|
        #[trigger] call_ensures(linkify, (a,), r) && a@.len() > 0 ==> r@.len() > 0
}

/// Whether the source of every token that ends a line ends in a line feed.
pub open spec fn lines_end_in_line_feeds(c: CodeInput) -> bool {
    forall|k: int|
        0 <= k < c.tokens.len() && (#[trigger] c.tokens[k]).kind is Newline
            ==> ends_in_line_feed(
            text::byte_slice(c.input, c.tokens[k].start as int, c.tokens[k].end as int),
        )
}

/// Whether a text ends in a line feed.
pub open spec fn ends_in_line_feed(s: Seq<char>) -> bool {
    s.len() > 0 && s.last() == '\n'
}

proof fn lemma_concat_of_plain<L: Fn(&str) -> String>(
    linkify: L,
    input: Seq<char>,
    chunks: Seq<Chunk>,
    texts: Seq<Seq<char>>,
)
    requires
        code::chunk_texts(linkify, input, chunks, texts),
        keeps_text(linkify),
        plain(input, chunks).len() > 0,
    ensures
        code::concat(texts).len() > 0,
    decreases chunks.len(),
{
    let p = chunks.drop_last();
    let t = texts.drop_last();
    let last = chunks.last();
    assert(code::chunk_text(linkify, input, chunks[chunks.len() - 1], texts[chunks.len() - 1]));
    if plain(input, p).len() > 0 {
        assert forall|i: int| 0 <= i < p.len() implies code::chunk_text(
            linkify,
            input,
            p[i],
            #[trigger] t[i],
        ) by {
            assert(t[i] == texts[i]);
        }
        lemma_concat_of_plain(linkify, input, p, t);
    } else {
        match last {
            Chunk::Raw { .. } => {},
            Chunk::Escaped { from, to } => {
                text::lemma_escape_grows(text::byte_slice(input, from, to));
            },
            Chunk::Linked { from, to } => {
                text::lemma_escape_grows(text::byte_slice(input, from, to));
            },
            Chunk::Markup(_) => {},
        }
    }
}

/// Source behind the last line end gets a line of its own.
pub proof fn law_last_line<L: Fn(&str) -> String>(
    linkify: L,
    c: CodeInput,
    lines: Seq<FormattedLine>,
)
    requires
        code::code_lines(linkify, c, lines),
        source::tokens_valid(c.input, c.tokens),
        keeps_text(linkify),
        unfinished(c).len() > 0,
    ensures
        lines.len() == code::run_all(c).lines.len() + 1,
{
    law_source_is_kept(c);
    let plans = code::run_all(c).lines;
    let out = choose|out: Seq<char>|
        {
            &&& #[trigger] code::renders(linkify, c.input, code::last_chunks(c), out)
            &&& if out.len() > 0 {
                &&& lines.len() == plans.len() + 1
                &&& code::last_line_renders(c, out, lines.last())
            } else {
                lines.len() == plans.len()
            }
        };
    let texts = choose|texts: Seq<Seq<char>>|
        #[trigger] code::chunk_texts(linkify, c.input, code::last_chunks(c), texts) && out
            == code::concat(texts);
    lemma_concat_of_plain(linkify, c.input, code::last_chunks(c), texts);
}

/// A text that does not end in a line feed has source behind its last line end, unless it is empty;
/// then it has no line end.
pub proof fn law_unfinished(c: CodeInput)
    requires
        source::tokens_valid(c.input, c.tokens),
        lines_end_in_line_feeds(c),
        !ends_in_line_feed(c.input),
    ensures
        unfinished(c).len() > 0 || (c.input.len() == 0 && code::run_all(c).lines.len() == 0),
{
    law_source_is_kept(c);
    let lines = code::run_all(c).lines;
    let n = lines.len() as int;
    let len = text::byte_len(c.input) as int;
    text::law_slice_whole(c.input);
    if n > 0 {
        assert(line_covers(c, lines, n - 1));
        let k = lines[n - 1].newline;
        let token = c.tokens[k];
        assert(source::token_valid(c.input, c.tokens[k]));
        text::lemma_boundary_bounds(c.input, 0);
        text::lemma_boundary_bounds(c.input, token.start as int);
        text::lemma_boundary_bounds(c.input, token.end as int);
        text::law_slices_join(c.input, 0, token.start as int, token.end as int);
        text::law_slices_join(c.input, 0, token.end as int, len);
        let head = text::byte_slice(c.input, 0, token.end as int);
        assert(ends_in_line_feed(head));
        if unfinished(c).len() == 0 {
            assert(c.input =~= head);
        }
    }
}

// ---------------------------------------------------------------------------
// Menus

proof fn lemma_menus_grow(c: CodeInput, k: int, j: int)
    requires
        0 <= k <= j,
    ensures
        code::run(c, k).menus.len() <= code::run(c, j).menus.len(),
        forall|i: int|
            0 <= i < code::run(c, k).menus.len() ==> code::run(c, j).menus[i]
                == #[trigger] code::run(c, k).menus[i],
    decreases j,
{
    if k < j {
        lemma_menus_grow(c, k, j - 1);
    }
}

/// The index that a token carries leads to its own menu in the symbol data of the page.
pub proof fn law_menu_index(c: CodeInput, k: int, sources: Seq<AnalysisSource>)
    requires
        0 <= k < c.tokens.len(),
        c.tokens[k].kind == TokenKind::Identifier(None),
        code::lookup(c, code::run(c, k), c.tokens[k].start as int).1 == Some(sources),
        symbols::crossref(sources).len() > 0,
    ensures
        code::run(c, k).menus.len() < code::run_all(c).menus.len(),
        code::run_all(c).menus[code::run(c, k).menus.len() as int] == symbols::menu(
            c.jumps,
            c.path,
            code::run(c, k).cur_line,
            sources,
        ),
{
    let st = code::run(c, k);
    let next = code::run(c, k + 1);
    assert(next == code::add_token(c, st, c.tokens[k]));
    let i = st.menus.len() as int;
    assert(next.menus[i] == symbols::menu(c.jumps, c.path, st.cur_line, sources));
    lemma_menus_grow(c, k + 1, c.tokens.len() as int);
}

// ---------------------------------------------------------------------------
// Nesting

/// How many of the first `n` lines open a `<div>`.
pub open spec fn opens(lines: Seq<LinePlan>, n: int) -> int
    decreases n,
{
    if n <= 0 {
        0
    } else {
        opens(lines, n - 1) + if lines[n - 1].starts_nest {
            1int
        } else {
            0
        }
    }
}

/// How many `<div>`s the first `n` lines close.
pub open spec fn closes(lines: Seq<LinePlan>, n: int) -> int
    decreases n,
{
    if n <= 0 {
        0
    } else {
        closes(lines, n - 1) + lines[n - 1].pops
    }
}

/// The records of a token open at most one range, and none on a line that has opened one.
pub proof fn law_one_range_per_line(
    stack: Seq<SourceRange>,
    sources: Seq<AnalysisSource>,
    line: int,
    starts_nest: bool,
)
    ensures
        stack.len() <= code::opened(stack, sources, line, starts_nest).len() <= stack.len() + 1,
        starts_nest ==> code::opened(stack, sources, line, starts_nest) == stack,
    decreases sources.len(),
{
    if sources.len() > 0 {
        law_one_range_per_line(stack, sources.drop_last(), line, starts_nest);
    }
}

proof fn lemma_counts_of_prefix(lines: Seq<LinePlan>, line: LinePlan, n: int)
    requires
        n <= lines.len(),
    ensures
        opens(lines.push(line), n) == opens(lines, n),
        closes(lines.push(line), n) == closes(lines, n),
    decreases n,
{
    if n > 0 {
        lemma_counts_of_prefix(lines, line, n - 1);
    }
}

proof fn lemma_opens_bounded(lines: Seq<LinePlan>, n: int)
    requires
        0 <= n,
    ensures
        0 <= opens(lines, n) <= n,
    decreases n,
{
    if n > 0 {
        lemma_opens_bounded(lines, n - 1);
    }
}

/// One if the flag is set.
pub open spec fn count(flag: bool) -> int {
    if flag {
        1
    } else {
        0
    }
}

spec fn depth_counts(c: CodeInput, k: int) -> bool {
    let st = code::run(c, k);
    let n = st.lines.len() as int;
    &&& n == source::newlines(c.tokens, k)
    &&& st.stack.len() == opens(st.lines, n) + count(st.starts_nest) - closes(st.lines, n)
    &&& forall|m: int| 0 <= m <= n ==> 0 <= #[trigger] closes(st.lines, m) <= opens(st.lines, m)
}

proof fn lemma_depth_counts(c: CodeInput, k: int)
    requires
        0 <= k <= c.tokens.len(),
        source::lines_countable(c.tokens),
    ensures
        depth_counts(c, k),
    decreases k,
{
    if k > 0 {
        lemma_depth_counts(c, k - 1);
        let st = code::run(c, k - 1);
        let next = code::run(c, k);
        let token = c.tokens[k - 1];
        let n = st.lines.len() as int;
        assert(0 <= closes(st.lines, n));
        if token.kind is Newline {
            let line = next.lines[n];
            assert(next.lines == st.lines.push(line));
            lemma_counts_of_prefix(st.lines, line, n);
            code::lemma_kept_bounds(st.stack, st.cur_line);
            lemma_opens_bounded(st.lines, n);
            source::lemma_newlines_grow(c.tokens, k, c.tokens.len() as int);
            source::lemma_newlines_grow(c.tokens, k - 1, k);
            let keep = code::kept(st.stack, st.cur_line);
            assert(st.stack.len() <= n + 1);
            assert(line.pops == st.stack.len() - keep);
            assert(closes(next.lines, n + 1) == closes(st.lines, n) + line.pops);
            assert forall|m: int| 0 <= m <= n + 1 implies 0 <= #[trigger] closes(next.lines, m)
                <= opens(next.lines, m) by {
                if m <= n {
                    lemma_counts_of_prefix(st.lines, line, m);
                    assert(0 <= closes(st.lines, m) <= opens(st.lines, m));
                }
            }
        } else {
            let (_, datum) = code::lookup(c, st, token.start as int);
            if datum is Some {
                law_one_range_per_line(st.stack, datum->0, st.cur_line, st.starts_nest);
            }
        }
    }
}

/// The lines never close more `<div>`s than they have opened, and what is still open behind them,
/// with a `<div>` that the last line opens, is what a last line closes.
pub proof fn law_nesting_balanced(c: CodeInput)
    requires
        source::lines_countable(c.tokens),
    ensures
        forall|m: int|
            0 <= m <= code::run_all(c).lines.len() ==> #[trigger] closes(
                code::run_all(c).lines,
                m,
            ) <= opens(code::run_all(c).lines, m),
        opens(code::run_all(c).lines, code::run_all(c).lines.len() as int) + count(
            code::run_all(c).starts_nest,
        ) == closes(code::run_all(c).lines, code::run_all(c).lines.len() as int) + code::run_all(
            c,
        ).stack.len() as u32,
{
    lemma_depth_counts(c, c.tokens.len() as int);
    let st = code::run_all(c);
    lemma_opens_bounded(st.lines, st.lines.len() as int);
    assert(0 <= closes(st.lines, st.lines.len() as int));
}

/// Of the ranges that are open behind a line, the innermost ends beyond the next line; those that
/// were closed all end on the next line or before.
pub proof fn law_closed_ranges(stack: Seq<SourceRange>, line: int)
    ensures
        0 <= code::kept(stack, line) <= stack.len(),
        code::kept(stack, line) > 0 ==> stack[code::kept(stack, line) - 1].end_lineno > line + 1,
        forall|i: int|
            code::kept(stack, line) <= i < stack.len() ==> (#[trigger] stack[i]).end_lineno <= line
                + 1,
    decreases stack.len(),
{
    if stack.len() > 0 {
        let p = stack.drop_last();
        law_closed_ranges(p, line);
        assert forall|i: int| code::kept(stack, line) <= i < stack.len() implies (
        #[trigger] stack[i]).end_lineno <= line + 1 by {
            if i < p.len() {
                assert(p[i] == stack[i]);
            }
        }
    }
}

/// Whether every range of the analysis ends on line `last` or before.
pub open spec fn ranges_end_by(
    analysis: Seq<WithLocation<Vec<AnalysisSource>>>,
    last: int,
) -> bool {
    forall|i: int, j: int|
        0 <= i < analysis.len() && 0 <= j < analysis[i].data@.len() ==> (
        #[trigger] analysis[i].data@[j]).nesting_range.start_lineno != 0
            ==> analysis[i].data@[j].nesting_range.end_lineno <= last
}

proof fn lemma_opened_ends(
    stack: Seq<SourceRange>,
    sources: Seq<AnalysisSource>,
    line: int,
    starts_nest: bool,
    last: int,
)
    requires
        forall|i: int| 0 <= i < stack.len() ==> (#[trigger] stack[i]).end_lineno <= last,
        forall|j: int|
            0 <= j < sources.len() ==> (#[trigger] sources[j]).nesting_range.start_lineno != 0
                ==> sources[j].nesting_range.end_lineno <= last,
    ensures
        forall|i: int|
            0 <= i < code::opened(stack, sources, line, starts_nest).len() ==> (
            #[trigger] code::opened(stack, sources, line, starts_nest)[i]).end_lineno <= last,
        line + 1 >= last ==> code::opened(stack, sources, line, starts_nest) == stack,
    decreases sources.len(),
{
    if sources.len() > 0 {
        let p = sources.drop_last();
        assert forall|j: int| 0 <= j < p.len() implies (
        #[trigger] p[j]).nesting_range.start_lineno != 0 ==> p[j].nesting_range.end_lineno
            <= last by {
            assert(p[j] == sources[j]);
        }
        lemma_opened_ends(stack, p, line, starts_nest, last);
        let range = sources[sources.len() - 1].nesting_range;
        assert(range.start_lineno != 0 ==> range.end_lineno <= last);
        let before = code::opened(stack, p, line, starts_nest);
        let after = code::opened(stack, sources, line, starts_nest);
        assert forall|i: int| 0 <= i < after.len() implies (#[trigger] after[i]).end_lineno
            <= last by {
            if i < before.len() {
                assert(after[i] == before[i]);
            }
        }
    }
}

spec fn ends_by(c: CodeInput, k: int, n: int) -> bool {
    let st = code::run(c, k);
    &&& st.cur_line == st.lines.len() + 1
    &&& forall|i: int| 0 <= i < st.stack.len() ==> (#[trigger] st.stack[i]).end_lineno <= n + 1
    &&& st.lines.len() >= n ==> st.stack.len() == 0 && !st.starts_nest
}

proof fn lemma_ends_by(c: CodeInput, k: int, n: int)
    requires
        0 <= k <= c.tokens.len(),
        0 <= n,
        ranges_end_by(c.analysis, n + 1),
    ensures
        ends_by(c, k, n),
    decreases k,
{
    if k > 0 {
        lemma_ends_by(c, k - 1, n);
        let st = code::run(c, k - 1);
        let token = c.tokens[k - 1];
        if token.kind is Newline {
            law_closed_ranges(st.stack, st.cur_line);
        } else {
            let column = (token.start - st.line_start) as u32;
            let i = code::seek(c.analysis, st.cursor, st.cur_line, column);
            if code::found(c.analysis, i, st.cur_line, column) {
                let sources = c.analysis[i].data@;
                assert forall|j: int| 0 <= j < sources.len() implies (
                #[trigger] sources[j]).nesting_range.start_lineno != 0
                    ==> sources[j].nesting_range.end_lineno <= n + 1 by {
                    assert(c.analysis[i].data@[j] == sources[j]);
                }
                lemma_opened_ends(st.stack, sources, st.cur_line, st.starts_nest, n + 1);
            }
        }
    }
}

/// Where every range ends on the line behind the last finished one or before, none is open behind
/// the finished lines.
pub proof fn law_ranges_end(c: CodeInput)
    requires
        ranges_end_by(c.analysis, code::run_all(c).lines.len() as int + 1),
    ensures
        code::run_all(c).stack.len() == 0,
        !code::run_all(c).starts_nest,
{
    lemma_ends_by(c, c.tokens.len() as int, code::run_all(c).lines.len() as int);
}

} // verus!
