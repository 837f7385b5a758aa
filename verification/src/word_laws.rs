//! What holds of every word of a rendering: which records it has, which span it stands in, and
//! where its menu is found.

use crate::code;
use crate::code::{Chunk, CodeInput, FormattedLine};
use crate::code_laws;
use crate::source;
use crate::source::{
    AnalysisSource, Jump, Location, SourceRange, Token, TokenKind, WithLocation,
};
use crate::split;
use crate::symbol_laws;
use crate::symbols;
use crate::text;
use crate::text_laws;
use vstd::prelude::*;

verus! {

// ---------------------------------------------------------------------------
// Lines

/// The parts of line `n`, counted from zero: of a finished one, or of what follows the last line
/// end.
pub open spec fn parts(c: CodeInput, n: int) -> Seq<Chunk> {
    let lines = code::run_all(c).lines;
    if n < lines.len() {
        lines[n].chunks
    } else {
        code::last_chunks(c)
    }
}

/// Every token stands on the line that the line ends before it make it stand on.
pub proof fn law_line_of_token(c: CodeInput, k: int)
    requires
        0 <= k <= c.tokens.len(),
    ensures
        code::run(c, k).lines.len() == source::newlines(c.tokens, k),
        code::run(c, k).cur_line == 1 + source::newlines(c.tokens, k),
    decreases k,
{
    if k > 0 {
        law_line_of_token(c, k - 1);
    }
}

proof fn lemma_parts_stay(c: CodeInput, k: int, j: int)
    requires
        0 <= k <= j <= c.tokens.len(),
    ensures
        ({
            let a = code::run(c, k);
            let b = code::run(c, j);
            let n = a.lines.len() as int;
            &&& b.lines.len() >= n
            &&& b.lines.len() == n ==> a.chunks.len() <= b.chunks.len() && forall|i: int|
                0 <= i < a.chunks.len() ==> #[trigger] a.chunks[i] == b.chunks[i]
            &&& b.lines.len() > n ==> a.chunks.len() < b.lines[n].chunks.len() && forall|i: int|
                0 <= i < a.chunks.len() ==> #[trigger] a.chunks[i] == b.lines[n].chunks[i]
        }),
    decreases j,
{
    if k < j {
        lemma_parts_stay(c, k, j - 1);
        let a = code::run(c, k);
        let b = code::run(c, j - 1);
        let d = code::run(c, j);
        let n = a.lines.len() as int;
        let token = c.tokens[j - 1];
        if token.kind is Newline {
            if b.lines.len() > n {
                assert(d.lines[n] == b.lines[n]);
            } else {
                assert(d.lines[n].chunks == b.chunks.push(d.lines[n].chunks.last()));
            }
        }
    }
}

/// What a token adds to its line stays there.
proof fn lemma_parts_of_token(c: CodeInput, k: int, i: int)
    requires
        0 <= k < c.tokens.len(),
        !(c.tokens[k].kind is Newline),
        0 <= i < code::run(c, k + 1).chunks.len(),
    ensures
        i < parts(c, source::newlines(c.tokens, k)).len(),
        parts(c, source::newlines(c.tokens, k))[i] == code::run(c, k + 1).chunks[i],
{
    law_line_of_token(c, k);
    law_line_of_token(c, k + 1);
    lemma_parts_stay(c, k + 1, c.tokens.len() as int);
    let a = code::run(c, k + 1);
    assert(a.chunks[i] == a.chunks[i]);
}

// ---------------------------------------------------------------------------
// Spans

/// The records that a token is given.
pub open spec fn records_of(c: CodeInput, k: int) -> Option<Seq<AnalysisSource>> {
    code::lookup(c, code::run(c, k), c.tokens[k].start as int).1
}

/// Whether a token is a word with records.
pub open spec fn annotated(c: CodeInput, k: int) -> bool {
    c.tokens[k].kind == TokenKind::Identifier(None) && records_of(c, k) is Some
}

/// Whether line `n` holds, one behind the other, the start of a span with these attributes, the
/// source between two offsets, and the end of the span.
pub open spec fn holds_span(
    c: CodeInput,
    n: int,
    attributes: Seq<char>,
    from: int,
    to: int,
    linked: bool,
) -> bool {
    exists|i: int|
        {
            &&& 0 <= i
            &&& i + 2 < parts(c, n).len()
            &&& #[trigger] parts(c, n)[i] == Chunk::Markup("<span "@ + attributes + ">"@)
            &&& parts(c, n)[i + 1] == (if linked {
                Chunk::Linked { from, to }
            } else {
                Chunk::Escaped { from, to }
            })
            &&& parts(c, n)[i + 2] == Chunk::Markup("</span>"@)
        }
}

proof fn lemma_span(c: CodeInput, k: int, attributes: Seq<char>)
    requires
        0 <= k < c.tokens.len(),
        !(c.tokens[k].kind is Newline),
        !(c.tokens[k].kind is Punctuation),
        !(c.tokens[k].kind is PlainText),
        attributes.len() > 0,
        code::run(c, k + 1).chunks == code::run(c, k).chunks + code::token_chunks(
            code::run(c, k).last,
            c.tokens[k],
            attributes,
        ),
    ensures
        holds_span(
            c,
            source::newlines(c.tokens, k),
            attributes,
            c.tokens[k].start as int,
            c.tokens[k].end as int,
            c.tokens[k].kind is Comment || c.tokens[k].kind is StringLiteral,
        ),
{
    let st = code::run(c, k);
    let next = code::run(c, k + 1);
    let n = source::newlines(c.tokens, k);
    let i = st.chunks.len() as int + 1;
    let added = code::token_chunks(st.last, c.tokens[k], attributes);
    assert(next.chunks[i] == added[1]);
    assert(next.chunks[i + 1] == added[2]);
    assert(next.chunks[i + 2] == added[3]);
    lemma_parts_of_token(c, k, i);
    lemma_parts_of_token(c, k, i + 1);
    lemma_parts_of_token(c, k, i + 2);
    assert(parts(c, n)[i] == Chunk::Markup("<span "@ + attributes + ">"@));
}

/// What each token adds to its line, all of it: punctuation and plain text what was left over with
/// themselves; any other token nothing where it has no attributes, and else what was left over
/// before it, then its span; a line end what was left over before it.
pub proof fn law_token_adds(c: CodeInput, k: int)
    requires
        0 <= k < c.tokens.len(),
    ensures
        ({
            let t = c.tokens[k];
            let a = code::run(c, k);
            let b = code::run(c, k + 1);
            let from = t.start as int;
            let to = t.end as int;
            let style = symbols::style_of(t.kind, records_of(c, k));
            let attributes = if annotated(c, k) {
                style + symbols::data_attributes(records_of(c, k)->0, menus_before(c, k))
            } else {
                style
            };
            &&& t.kind is Newline ==> {
                &&& b.lines.len() == a.lines.len() + 1
                &&& b.lines.last().chunks == a.chunks.push(Chunk::Raw { from: a.last, to: from })
                &&& b.lines.last().from == a.line_start
                &&& b.chunks.len() == 0
                &&& b.last == to
            }
            &&& !(t.kind is Newline) ==> b.lines == a.lines
            &&& t.kind is Punctuation ==> b.chunks == a.chunks.push(
                Chunk::Escaped { from: a.last, to },
            ) && b.last == to
            &&& t.kind is PlainText ==> b.chunks == a.chunks.push(
                Chunk::Linked { from: a.last, to },
            ) && b.last == to
            &&& !(t.kind is Newline || t.kind is Punctuation || t.kind is PlainText) ==> {
                if attributes.len() == 0 {
                    b.chunks == a.chunks && b.last == a.last
                } else {
                    &&& b.last == to
                    &&& b.chunks == a.chunks + seq![
                        Chunk::Escaped { from: a.last, to: from },
                        Chunk::Markup("<span "@ + attributes + ">"@),
                        if t.kind is Comment || t.kind is StringLiteral {
                            Chunk::Linked { from, to }
                        } else {
                            Chunk::Escaped { from, to }
                        },
                        Chunk::Markup("</span>"@),
                    ]
                }
            }
        }),
{
    reveal_strlit("");
    lemma_menus_before(c, k);
    let t = c.tokens[k];
    let a = code::run(c, k);
    let b = code::run(c, k + 1);
    let style = symbols::style_of(t.kind, records_of(c, k));
    assert(style + ""@ =~= style);
    if !(t.kind is Newline) {
        let data = if annotated(c, k) {
            symbols::data_attributes(records_of(c, k)->0, a.menus.len() as int)
        } else {
            ""@
        };
        let added = code::token_chunks(a.last, t, style + data);
        assert(b.chunks == a.chunks + added);
        if added.len() == 1 {
            assert(b.chunks =~= a.chunks.push(added[0]));
        } else if added.len() == 0 {
            assert(b.chunks =~= a.chunks);
        }
    }
}

/// A comment, a string, a regular expression and the names of tags stand each in a span of their
/// class; in comments and strings links are marked. A word that the language styles stands in a
/// span with that style.
pub proof fn law_styled_spans(c: CodeInput, k: int)
    requires
        0 <= k < c.tokens.len(),
    ensures
        ({
            let t = c.tokens[k];
            let n = source::newlines(c.tokens, k);
            let from = t.start as int;
            let to = t.end as int;
            &&& t.kind is Comment ==> holds_span(c, n, "class=\"syn_comment\" "@, from, to, true)
            &&& t.kind is StringLiteral ==> holds_span(
                c,
                n,
                "class=\"syn_string\" "@,
                from,
                to,
                true,
            )
            &&& t.kind is RegularExpressionLiteral ==> holds_span(
                c,
                n,
                "class=\"syn_regex\" "@,
                from,
                to,
                false,
            )
            &&& t.kind is TagName || t.kind is TagAttrName || t.kind is EndTagName ==> holds_span(
                c,
                n,
                "class=\"syn_tag\" "@,
                from,
                to,
                false,
            )
            &&& t.kind matches TokenKind::Identifier(Some(style)) ==> style@.len() > 0
                ==> holds_span(c, n, style@, from, to, false)
        }),
{
    reveal_strlit("");
    reveal_strlit("class=\"syn_comment\" ");
    reveal_strlit("class=\"syn_string\" ");
    reveal_strlit("class=\"syn_regex\" ");
    reveal_strlit("class=\"syn_tag\" ");
    let t = c.tokens[k];
    let style = symbols::style_of(t.kind, records_of(c, k));
    assert(style + ""@ =~= style);
    let spanned = t.kind is Comment || t.kind is StringLiteral || t.kind
        is RegularExpressionLiteral || t.kind is TagName || t.kind is TagAttrName || t.kind
        is EndTagName || t.kind matches TokenKind::Identifier(Some(_));
    if spanned && style.len() > 0 {
        lemma_span(c, k, style);
    }
}

/// A word with records stands in a span that carries the classes and the symbols of the records.
/// Where a record takes part in cross references, the span carries a number too; read as a decimal
/// number it is the place of the word's own menu in the symbol data of the page.
pub proof fn law_word_carries_its_menu(c: CodeInput, k: int)
    requires
        0 <= k < c.tokens.len(),
        annotated(c, k),
    ensures
        ({
            let sources = records_of(c, k)->0;
            let t = c.tokens[k];
            let line = source::newlines(c.tokens, k);
            let style = symbols::style_of(t.kind, Some(sources));
            let syms = split::join(symbols::all_syms(sources), ","@);
            if exists|i: int| 0 <= i < sources.len() && !(#[trigger] sources[i]).no_crossref {
                exists|n: Seq<char>|
                    {
                        &&& 0 <= #[trigger] text::digits_value(n) < code::run_all(c).menus.len()
                        &&& text::all_digits(n)
                        &&& code::run_all(c).menus[text::digits_value(n) as int] == symbols::menu(
                            c.jumps,
                            c.path,
                            line + 1,
                            sources,
                        )
                        &&& text::digits_value(n) == menus_before(c, k)
                        &&& holds_span(
                            c,
                            line,
                            style + ("data-symbols=\""@ + syms + "\" data-i=\""@ + n + "\" "@),
                            t.start as int,
                            t.end as int,
                            false,
                        )
                    }
            } else {
                holds_span(
                    c,
                    line,
                    style + ("data-symbols=\""@ + syms + "\" "@),
                    t.start as int,
                    t.end as int,
                    false,
                )
            }
        }),
{
    let st = code::run(c, k);
    let sources = records_of(c, k)->0;
    let t = c.tokens[k];
    let style = symbols::style_of(t.kind, Some(sources));
    let syms = split::join(symbols::all_syms(sources), ","@);
    let index = st.menus.len() as int;
    law_line_of_token(c, k);
    lemma_menus_before(c, k);
    symbol_laws::law_carried_index(sources, index);
    symbol_laws::lemma_crossref_some(sources);
    let data = symbols::data_attributes(sources, index);
    reveal_strlit("data-symbols=\"");
    lemma_span(c, k, style + data);
    if symbols::crossref(sources).len() > 0 {
        code_laws::law_menu_index(c, k, sources);
        let n = choose|n: Seq<char>|
            {
                &&& #[trigger] text::digits_value(n) == index
                &&& text::all_digits(n)
                &&& data == "data-symbols=\""@ + syms + "\" data-i=\""@ + n + "\" "@
            };
        assert(text::digits_value(n) == index);
    }
}

/// How many words with a menu of their own there are among the first `k` tokens.
pub open spec fn menus_before(c: CodeInput, k: int) -> int
    decreases k,
{
    if k <= 0 {
        0
    } else {
        menus_before(c, k - 1) + (if has_menu(c, k - 1) {
            1int
        } else {
            0
        })
    }
}

/// Whether a token is a word of which a record takes part in cross references.
pub open spec fn has_menu(c: CodeInput, k: int) -> bool {
    &&& annotated(c, k)
    &&& exists|i: int|
        0 <= i < records_of(c, k)->0.len() && !(#[trigger] records_of(c, k)->0[i]).no_crossref
}

proof fn lemma_menus_before(c: CodeInput, k: int)
    requires
        0 <= k <= c.tokens.len(),
    ensures
        code::run(c, k).menus.len() == menus_before(c, k),
    decreases k,
{
    if k > 0 {
        lemma_menus_before(c, k - 1);
        if annotated(c, k - 1) {
            symbol_laws::lemma_crossref_some(records_of(c, k - 1)->0);
        }
    }
}

/// Every word with a menu has one of its own: the places of the menus of two words differ, and
/// there are as many menus as such words.
pub proof fn law_own_menus(c: CodeInput, k: int, j: int)
    requires
        0 <= k < j < c.tokens.len(),
        has_menu(c, k),
    ensures
        0 <= menus_before(c, k) < menus_before(c, j),
        code::run_all(c).menus.len() == menus_before(c, c.tokens.len() as int),
{
    lemma_menus_before(c, c.tokens.len() as int);
    lemma_menus_before_grow(c, 0, k);
    lemma_menus_before_grow(c, k + 1, j);
}

proof fn lemma_menus_before_grow(c: CodeInput, k: int, j: int)
    requires
        0 <= k <= j,
    ensures
        menus_before(c, k) <= menus_before(c, j),
    decreases j,
{
    if k < j {
        lemma_menus_before_grow(c, k, j - 1);
    }
}

// ---------------------------------------------------------------------------
// Escaping

/// Whether the part is source as it stands.
pub open spec fn is_raw(chunk: Chunk) -> bool {
    chunk is Raw
}

proof fn lemma_no_raw(c: CodeInput, k: int)
    requires
        0 <= k <= c.tokens.len(),
    ensures
        forall|i: int|
            0 <= i < code::run(c, k).chunks.len() ==> !is_raw(#[trigger] code::run(c, k).chunks[i]),
        forall|n: int, i: int|
            0 <= n < code::run(c, k).lines.len() && 0 <= i < code::run(c, k).lines[n].chunks.len()
                - 1 ==> !is_raw(#[trigger] code::run(c, k).lines[n].chunks[i]),
    decreases k,
{
    if k > 0 {
        lemma_no_raw(c, k - 1);
        let st = code::run(c, k - 1);
        let next = code::run(c, k);
        assert forall|i: int| 0 <= i < next.chunks.len() implies !is_raw(
            #[trigger] next.chunks[i],
        ) by {
            if i < st.chunks.len() && next.lines.len() == st.lines.len() {
                assert(next.chunks[i] == st.chunks[i]);
            }
        }
        assert forall|n: int, i: int|
            0 <= n < next.lines.len() && 0 <= i < next.lines[n].chunks.len() - 1 implies !is_raw(
            #[trigger] next.lines[n].chunks[i],
        ) by {
            if n < st.lines.len() {
                assert(next.lines[n] == st.lines[n]);
                assert(!is_raw(st.lines[n].chunks[i]));
            } else {
                assert(next.lines[n].chunks[i] == st.chunks[i]);
            }
        }
    }
}

/// All source on a line is escaped, but for what stands between its last token and its end.
pub proof fn law_source_is_escaped(c: CodeInput, n: int, i: int)
    requires
        0 <= n <= code::run_all(c).lines.len(),
        0 <= i < parts(c, n).len(),
        parts(c, n)[i] is Raw,
    ensures
        n < code::run_all(c).lines.len(),
        i == parts(c, n).len() - 1,
{
    lemma_no_raw(c, c.tokens.len() as int);
    let st = code::run_all(c);
    assert(is_raw(parts(c, n)[i]));
    if n < st.lines.len() {
        if i < st.lines[n].chunks.len() - 1 {
            assert(!is_raw(st.lines[n].chunks[i]));
        }
    } else if i < st.chunks.len() {
        assert(!is_raw(st.chunks[i]));
        assert(parts(c, n)[i] == st.chunks[i]);
    }
}

/// Punctuation is escaped, and in plain text links are marked; both with what was left over
/// before.
pub proof fn law_plain_parts(c: CodeInput, k: int)
    requires
        0 <= k < c.tokens.len(),
    ensures
        ({
            let t = c.tokens[k];
            let line = parts(c, source::newlines(c.tokens, k));
            let from = code::run(c, k).last;
            &&& t.kind is Punctuation ==> line.contains(
                Chunk::Escaped { from, to: t.end as int },
            )
            &&& t.kind is PlainText ==> line.contains(Chunk::Linked { from, to: t.end as int })
        }),
{
    let t = c.tokens[k];
    let st = code::run(c, k);
    let i = st.chunks.len() as int;
    if t.kind is Punctuation || t.kind is PlainText {
        let style = symbols::style_of(t.kind, records_of(c, k));
        let next = code::run(c, k + 1);
        assert(next.chunks.len() == i + 1);
        lemma_parts_of_token(c, k, i);
        let line = parts(c, source::newlines(c.tokens, k));
        assert(line.contains(line[i]));
    }
}

proof fn lemma_concat_is_each(texts: Seq<Seq<char>>)
    ensures
        code::concat(texts) == text_laws::each(texts, |t: Seq<char>| t),
    decreases texts.len(),
{
    if texts.len() > 0 {
        lemma_concat_first(texts);
        lemma_concat_is_each(texts.drop_first());
    }
}

proof fn lemma_concat_first(texts: Seq<Seq<char>>)
    requires
        texts.len() > 0,
    ensures
        code::concat(texts) == texts[0] + code::concat(texts.drop_first()),
    decreases texts.len(),
{
    let tail = texts.drop_first();
    if texts.len() == 1 {
        assert(texts.drop_last() =~= Seq::<Seq<char>>::empty());
        assert(code::concat(texts.drop_last()) =~= Seq::<char>::empty());
        assert(code::concat(tail) =~= Seq::<char>::empty());
        assert(code::concat(texts) =~= texts[0] + code::concat(tail));
    } else {
        lemma_concat_first(texts.drop_last());
        assert(texts.drop_last().drop_first() =~= tail.drop_last());
        assert(tail.last() == texts.last());
        assert(code::concat(texts) =~= texts[0] + code::concat(tail));
    }
}

/// Whether `text` is what a part is shown as: markup and raw source as they stand, other source
/// with its special characters told by entities, and links marked where they are to be.
pub open spec fn shown_part<L: Fn(&str) -> String>(
    linkify: L,
    input: Seq<char>,
    part: Chunk,
    text: Seq<char>,
) -> bool {
    let entities = |c: char|
        if c == '&' {
            "&amp;"@
        } else if c == '<' {
            "&lt;"@
        } else {
            seq![c]
        };
    match part {
        Chunk::Raw { from, to } => text == text::byte_slice(input, from, to),
        Chunk::Escaped { from, to } => text == text_laws::each(
            text::byte_slice(input, from, to),
            entities,
        ),
        Chunk::Linked { from, to } => exists|a: &str, r: String|
            {
                &&& #[trigger] call_ensures(linkify, (a,), r)
                &&& a@ == text_laws::each(text::byte_slice(input, from, to), entities)
                &&& r@ == text
            },
        Chunk::Markup(markup) => text == markup,
    }
}

/// Whether `line` shows the parts one behind the other, without carriage returns.
pub open spec fn shows_parts<L: Fn(&str) -> String>(
    linkify: L,
    input: Seq<char>,
    parts: Seq<Chunk>,
    texts: Seq<Seq<char>>,
    line: Seq<char>,
) -> bool {
    &&& texts.len() == parts.len()
    &&& forall|i: int|
        0 <= i < parts.len() ==> shown_part(linkify, input, parts[i], #[trigger] texts[i])
    &&& line == text_laws::each(texts, |t: Seq<char>| t).filter(|c: char| c != '\r')
}

/// Every line of a rendering shows its parts, one behind the other, without carriage returns.
pub proof fn law_line_text<L: Fn(&str) -> String>(
    linkify: L,
    c: CodeInput,
    lines: Seq<FormattedLine>,
    n: int,
)
    requires
        code::code_lines(linkify, c, lines),
        0 <= n < lines.len(),
    ensures
        exists|texts: Seq<Seq<char>>| #[trigger]
            shows_parts(linkify, c.input, parts(c, n), texts, lines[n].line@),
{
    let plans = code::run_all(c).lines;
    let out = if n < plans.len() {
        assert(code::line_renders(linkify, c.input, plans[n], lines[n]));
        choose|out: Seq<char>|
            #[trigger] code::renders(linkify, c.input, plans[n].chunks, out) && lines[n].line@
                == text::without_cr(out)
    } else {
        choose|out: Seq<char>|
            {
                &&& #[trigger] code::renders(linkify, c.input, code::last_chunks(c), out)
                &&& if out.len() > 0 {
                    &&& lines.len() == plans.len() + 1
                    &&& code::last_line_renders(c, out, lines.last())
                } else {
                    lines.len() == plans.len()
                }
            }
    };
    let chunks = parts(c, n);
    assert(code::renders(linkify, c.input, chunks, out));
    let texts = choose|texts: Seq<Seq<char>>|
        #[trigger] code::chunk_texts(linkify, c.input, chunks, texts) && out == code::concat(
            texts,
        );
    lemma_concat_is_each(texts);
    text_laws::law_without_cr_keeps(out);
    assert forall|i: int| 0 <= i < chunks.len() implies shown_part(
        linkify,
        c.input,
        chunks[i],
        #[trigger] texts[i],
    ) by {
        assert(code::chunk_text(linkify, c.input, chunks[i], texts[i]));
        match chunks[i] {
            Chunk::Escaped { from, to } => {
                text_laws::law_escape_whole(text::byte_slice(c.input, from, to));
            },
            Chunk::Linked { from, to } => {
                text_laws::law_escape_whole(text::byte_slice(c.input, from, to));
                let (a, r) = choose|a: &str, r: String|
                    #[trigger] call_ensures(linkify, (a,), r) && a@ == text::escape(
                        text::byte_slice(c.input, from, to),
                    ) && r@ == texts[i];
                assert(call_ensures(linkify, (a,), r));
            },
            _ => {},
        }
    }
    assert(shows_parts(linkify, c.input, chunks, texts, lines[n].line@));
}

// ---------------------------------------------------------------------------
// Records

/// Whether a record stands before the place.
pub open spec fn stands_before(loc: Location, line: int, column: int) -> bool {
    loc.lineno < line || (loc.lineno == line && loc.col_start < column)
}

/// Whether the records stand in the order of their places, no two at one.
pub open spec fn records_sorted(analysis: Seq<WithLocation<Vec<AnalysisSource>>>) -> bool {
    forall|i: int, j: int|
        0 <= i < j < analysis.len() ==> stands_before(
            (#[trigger] analysis[i]).loc,
            (#[trigger] analysis[j]).loc.lineno as int,
            analysis[j].loc.col_start as int,
        )
}

/// Whether no two tokens start at one offset.
pub open spec fn starts_differ(tokens: Seq<Token>) -> bool {
    forall|i: int, j: int|
        0 <= i < j < tokens.len() ==> (#[trigger] tokens[i]).start < (#[trigger] tokens[j]).start
}

/// The byte offset of a token in its line: from behind the last line end before it.
pub open spec fn column_of(tokens: Seq<Token>, k: int) -> int {
    tokens[k].start - line_start_of(tokens, k)
}

/// The offset behind the last line end among the first `k` tokens.
pub open spec fn line_start_of(tokens: Seq<Token>, k: int) -> int
    decreases k,
{
    if k <= 0 {
        0
    } else if tokens[k - 1].kind is Newline {
        tokens[k - 1].end as int
    } else {
        line_start_of(tokens, k - 1)
    }
}

/// Whether no line is so long that columns cannot be told in 32 bits.
pub open spec fn columns_fit(tokens: Seq<Token>) -> bool {
    forall|k: int| 0 <= k < tokens.len() ==> #[trigger] column_of(tokens, k) <= u32::MAX
}

proof fn lemma_line_start(c: CodeInput, k: int)
    requires
        0 <= k <= c.tokens.len(),
        source::tokens_valid(c.input, c.tokens),
    ensures
        code::run(c, k).line_start == line_start_of(c.tokens, k),
        k < c.tokens.len() ==> 0 <= line_start_of(c.tokens, k) <= c.tokens[k].start,
    decreases k,
{
    if k > 0 {
        lemma_line_start(c, k - 1);
        assert(source::token_valid(c.input, c.tokens[k - 1]));
        if k < c.tokens.len() {
            assert(c.tokens[k - 1].end <= c.tokens[k].start);
        }
    }
}

proof fn lemma_skip_lines(analysis: Seq<WithLocation<Vec<AnalysisSource>>>, i: int, line: int)
    requires
        0 <= i <= analysis.len(),
    ensures
        ({
            let r = code::skip_lines(analysis, i, line);
            &&& i <= r <= analysis.len()
            &&& forall|k: int| i <= k < r ==> (#[trigger] analysis[k]).loc.lineno < line
            &&& r < analysis.len() ==> analysis[r].loc.lineno >= line
        }),
    decreases analysis.len() - i,
{
    if i < analysis.len() && line > analysis[i].loc.lineno {
        lemma_skip_lines(analysis, i + 1, line);
    }
}

proof fn lemma_skip_columns(
    analysis: Seq<WithLocation<Vec<AnalysisSource>>>,
    i: int,
    line: int,
    column: u32,
)
    requires
        0 <= i <= analysis.len(),
    ensures
        ({
            let r = code::skip_columns(analysis, i, line, column);
            &&& i <= r <= analysis.len()
            &&& forall|k: int|
                i <= k < r ==> (#[trigger] analysis[k]).loc.lineno == line
                    && analysis[k].loc.col_start < column
            &&& r < analysis.len() ==> !(analysis[r].loc.lineno == line
                && analysis[r].loc.col_start < column)
        }),
    decreases analysis.len() - i,
{
    if i < analysis.len() && line == analysis[i].loc.lineno && column > analysis[i].loc.col_start {
        lemma_skip_columns(analysis, i + 1, line, column);
    }
}

proof fn lemma_seek(
    analysis: Seq<WithLocation<Vec<AnalysisSource>>>,
    i: int,
    line: int,
    column: u32,
)
    requires
        0 <= i <= analysis.len(),
        records_sorted(analysis),
        forall|k: int|
            0 <= k < i ==> stands_before((#[trigger] analysis[k]).loc, line, column as int),
    ensures
        ({
            let r = code::seek(analysis, i, line, column);
            &&& i <= r <= analysis.len()
            &&& forall|k: int|
                0 <= k < r ==> stands_before((#[trigger] analysis[k]).loc, line, column as int)
            &&& forall|k: int|
                r <= k < analysis.len() ==> !stands_before(
                    (#[trigger] analysis[k]).loc,
                    line,
                    column as int,
                )
        }),
{
    lemma_skip_lines(analysis, i, line);
    let m = code::skip_lines(analysis, i, line);
    lemma_skip_columns(analysis, m, line, column);
    let r = code::seek(analysis, i, line, column);
    assert forall|k: int| 0 <= k < r implies stands_before(
        (#[trigger] analysis[k]).loc,
        line,
        column as int,
    ) by {}
    assert forall|k: int| r <= k < analysis.len() implies !stands_before(
        (#[trigger] analysis[k]).loc,
        line,
        column as int,
    ) by {
        if r > m {
            assert(analysis[m].loc.lineno == line);
            assert(stands_before(
                analysis[m].loc,
                analysis[r].loc.lineno as int,
                analysis[r].loc.col_start as int,
            ));
        }
        assert(!stands_before(analysis[r].loc, line, column as int));
        if k > r {
            assert(stands_before(
                analysis[r].loc,
                analysis[k].loc.lineno as int,
                analysis[k].loc.col_start as int,
            ));
        }
    }
}

spec fn cursor_holds(c: CodeInput, k: int) -> bool {
    let st = code::run(c, k);
    &&& 0 <= st.cursor <= c.analysis.len()
    &&& k < c.tokens.len() ==> forall|i: int|
        0 <= i < st.cursor ==> stands_before(
            (#[trigger] c.analysis[i]).loc,
            1 + source::newlines(c.tokens, k),
            column_of(c.tokens, k),
        )
}

proof fn lemma_cursor(c: CodeInput, k: int)
    requires
        0 <= k <= c.tokens.len(),
        source::tokens_valid(c.input, c.tokens),
        records_sorted(c.analysis),
        starts_differ(c.tokens),
        columns_fit(c.tokens),
    ensures
        cursor_holds(c, k),
    decreases k,
{
    if k > 0 {
        lemma_cursor(c, k - 1);
        lemma_line_start(c, k - 1);
        lemma_line_start(c, k);
        law_line_of_token(c, k - 1);
        let st = code::run(c, k - 1);
        let next = code::run(c, k);
        let line = 1 + source::newlines(c.tokens, k - 1);
        let column = column_of(c.tokens, k - 1);
        if k < c.tokens.len() {
            assert(c.tokens[k - 1].start < c.tokens[k].start);
        }
        if !(c.tokens[k - 1].kind is Newline) {
            assert(column <= u32::MAX);
            lemma_seek(c.analysis, st.cursor, line, column as u32);
        }
        if k < c.tokens.len() {
            assert forall|i: int| 0 <= i < next.cursor implies stands_before(
                (#[trigger] c.analysis[i]).loc,
                1 + source::newlines(c.tokens, k),
                column_of(c.tokens, k),
            ) by {
                if i < st.cursor {
                    assert(stands_before(c.analysis[i].loc, line, column));
                }
            }
        }
    }
}

/// Where the records stand in order, a token that does not end a line is given the record that
/// stands at its line and column, and none where there is no such record.
pub proof fn law_records_are_found(c: CodeInput, k: int)
    requires
        0 <= k < c.tokens.len(),
        !(c.tokens[k].kind is Newline),
        source::tokens_valid(c.input, c.tokens),
        records_sorted(c.analysis),
        starts_differ(c.tokens),
        columns_fit(c.tokens),
    ensures
        forall|i: int|
            0 <= i < c.analysis.len() && (#[trigger] c.analysis[i]).loc.lineno == 1
                + source::newlines(c.tokens, k) && c.analysis[i].loc.col_start == column_of(
                c.tokens,
                k,
            ) ==> records_of(c, k) == Some(c.analysis[i].data@),
        (forall|i: int|
            0 <= i < c.analysis.len() ==> !((#[trigger] c.analysis[i]).loc.lineno == 1
                + source::newlines(c.tokens, k) && c.analysis[i].loc.col_start == column_of(
                c.tokens,
                k,
            ))) ==> records_of(c, k) is None,
{
    lemma_cursor(c, k);
    lemma_line_start(c, k);
    law_line_of_token(c, k);
    let st = code::run(c, k);
    let line = 1 + source::newlines(c.tokens, k);
    let column = column_of(c.tokens, k);
    assert(column <= u32::MAX);
    lemma_seek(c.analysis, st.cursor, line, column as u32);
    let r = code::seek(c.analysis, st.cursor, line, column as u32);
    assert forall|i: int|
        0 <= i < c.analysis.len() && (#[trigger] c.analysis[i]).loc.lineno == line
            && c.analysis[i].loc.col_start == column implies records_of(c, k) == Some(
        c.analysis[i].data@,
    ) by {
        assert(!stands_before(c.analysis[i].loc, line, column));
        if i > r {
            assert(stands_before(
                c.analysis[r].loc,
                c.analysis[i].loc.lineno as int,
                c.analysis[i].loc.col_start as int,
            ));
            assert(!stands_before(c.analysis[r].loc, line, column));
        }
        assert(i == r);
    }
    if records_of(c, k) is Some {
        assert(c.analysis[r].loc.lineno == line);
    }
}

proof fn lemma_seek_goes_on(
    analysis: Seq<WithLocation<Vec<AnalysisSource>>>,
    i: int,
    line: int,
    column: u32,
)
    ensures
        i <= code::skip_lines(analysis, i, line),
        i <= code::skip_columns(analysis, i, line, column),
    decreases analysis.len() - i,
{
    if 0 <= i < analysis.len() {
        lemma_seek_goes_on(analysis, i + 1, line, column);
    }
}

proof fn lemma_cursor_goes_on(c: CodeInput, j: int, k: int)
    requires
        0 <= j <= k <= c.tokens.len(),
    ensures
        code::run(c, j).cursor <= code::run(c, k).cursor,
    decreases k - j,
{
    if j < k {
        lemma_cursor_goes_on(c, j, k - 1);
        let st = code::run(c, k - 1);
        let column = (c.tokens[k - 1].start - st.line_start) as u32;
        lemma_seek_goes_on(c.analysis, st.cursor, st.cur_line, column);
        let i = code::skip_lines(c.analysis, st.cursor, st.cur_line);
        lemma_seek_goes_on(c.analysis, i, st.cur_line, column);
    }
}

proof fn lemma_lines_passed(
    analysis: Seq<WithLocation<Vec<AnalysisSource>>>,
    i: int,
    line: int,
)
    requires
        0 <= i <= analysis.len(),
    ensures
        ({
            let a = code::skip_lines(analysis, i, line);
            &&& i <= a <= analysis.len()
            &&& forall|j: int| i <= j < a ==> (#[trigger] analysis[j]).loc.lineno < line
            &&& a < analysis.len() ==> analysis[a].loc.lineno >= line
        }),
    decreases analysis.len() - i,
{
    if i < analysis.len() && line > analysis[i].loc.lineno {
        lemma_lines_passed(analysis, i + 1, line);
    }
}

proof fn lemma_columns_passed(
    analysis: Seq<WithLocation<Vec<AnalysisSource>>>,
    i: int,
    line: int,
    column: u32,
)
    requires
        0 <= i <= analysis.len(),
    ensures
        ({
            let b = code::skip_columns(analysis, i, line, column);
            &&& i <= b <= analysis.len()
            &&& forall|j: int|
                i <= j < b ==> (#[trigger] analysis[j]).loc.lineno == line
                    && analysis[j].loc.col_start < column
            &&& b < analysis.len() ==> analysis[b].loc.lineno != line
                || analysis[b].loc.col_start >= column
        }),
    decreases analysis.len() - i,
{
    if i < analysis.len() && line == analysis[i].loc.lineno && column
        > analysis[i].loc.col_start {
        lemma_columns_passed(analysis, i + 1, line, column);
    }
}

proof fn lemma_cursor_bounds(c: CodeInput, k: int)
    requires
        0 <= k <= c.tokens.len(),
    ensures
        0 <= code::run(c, k).cursor <= c.analysis.len(),
    decreases k,
{
    if k > 0 {
        lemma_cursor_bounds(c, k - 1);
        let st = code::run(c, k - 1);
        let column = (c.tokens[k - 1].start - st.line_start) as u32;
        lemma_lines_passed(c.analysis, st.cursor, st.cur_line);
        let i = code::skip_lines(c.analysis, st.cursor, st.cur_line);
        lemma_columns_passed(c.analysis, i, st.cur_line, column);
    }
}

/// However the records stand, those of a token are looked for from behind the last ones that were
/// given: first the records of earlier lines are passed over, up to the first that is none, then
/// those of earlier columns of the token's line, up to the first that is none. That one is given
/// where it stands at the column of the token, and is then passed over too.
pub proof fn law_search_for_records(c: CodeInput, k: int)
    requires
        0 <= k < c.tokens.len(),
        !(c.tokens[k].kind is Newline),
    ensures
        ({
            let line = 1 + source::newlines(c.tokens, k);
            let column = (c.tokens[k].start - code::run(c, k).line_start) as u32;
            let from = code::run(c, k).cursor;
            let next = code::run(c, k + 1).cursor;
            let last = if records_of(c, k) is Some {
                next - 1
            } else {
                next
            };
            &&& 0 <= from <= last <= c.analysis.len()
            &&& exists|a: int|
                {
                    &&& from <= a <= last
                    &&& forall|j: int|
                        from <= j < a ==> (#[trigger] c.analysis[j]).loc.lineno < line
                    &&& a < c.analysis.len() ==> (#[trigger] c.analysis[a]).loc.lineno >= line
                    &&& forall|j: int|
                        a <= j < last ==> (#[trigger] c.analysis[j]).loc.lineno == line
                            && c.analysis[j].loc.col_start < column
                }
            &&& last < c.analysis.len() ==> c.analysis[last].loc.lineno != line
                || c.analysis[last].loc.col_start >= column
            &&& records_of(c, k) is Some <==> last < c.analysis.len()
                && c.analysis[last].loc.lineno == line && c.analysis[last].loc.col_start == column
            &&& records_of(c, k) is Some ==> records_of(c, k) == Some(c.analysis[last].data@)
        }),
{
    law_line_of_token(c, k);
    lemma_cursor_bounds(c, k);
    let st = code::run(c, k);
    let line = 1 + source::newlines(c.tokens, k);
    let column = (c.tokens[k].start - st.line_start) as u32;
    lemma_lines_passed(c.analysis, st.cursor, line);
    let a = code::skip_lines(c.analysis, st.cursor, line);
    lemma_columns_passed(c.analysis, a, line, column);
    let last = code::skip_columns(c.analysis, a, line, column);
    let next = code::run(c, k + 1).cursor;
    assert(next == (if records_of(c, k) is Some {
        last + 1
    } else {
        last
    }));
    assert(c.analysis[a] == c.analysis[a]);
}

/// No record is given twice: of two tokens that are given records the later one is given records
/// that stand further behind. Each is given records of its own line.
pub proof fn law_records_are_given_once(c: CodeInput, j: int, k: int)
    requires
        0 <= j < k < c.tokens.len(),
        !(c.tokens[j].kind is Newline),
        records_of(c, j) is Some,
        records_of(c, k) is Some,
    ensures
        exists|a: int, b: int|
            {
                &&& 0 <= a < b < c.analysis.len()
                &&& records_of(c, j) == Some((#[trigger] c.analysis[a]).data@)
                &&& records_of(c, k) == Some((#[trigger] c.analysis[b]).data@)
                &&& c.analysis[a].loc.lineno == 1 + source::newlines(c.tokens, j)
                &&& c.analysis[b].loc.lineno == 1 + source::newlines(c.tokens, k)
            },
{
    law_line_of_token(c, j);
    law_line_of_token(c, k);
    let first = code::run(c, j);
    let second = code::run(c, k);
    let at = (c.tokens[j].start - first.line_start) as u32;
    let then_at = (c.tokens[k].start - second.line_start) as u32;
    let a = code::seek(c.analysis, first.cursor, first.cur_line, at);
    let b = code::seek(c.analysis, second.cursor, second.cur_line, then_at);
    lemma_cursor_goes_on(c, j + 1, k);
    lemma_seek_goes_on(c.analysis, second.cursor, second.cur_line, then_at);
    let i = code::skip_lines(c.analysis, second.cursor, second.cur_line);
    lemma_seek_goes_on(c.analysis, i, second.cur_line, then_at);
    assert(code::run(c, j + 1).cursor == a + 1);
    assert(records_of(c, j) == Some(c.analysis[a].data@));
    assert(records_of(c, k) == Some(c.analysis[b].data@));
}

// ---------------------------------------------------------------------------
// Ranges

/// Whether a range is worth a sticky line: it starts on this line or later, does not end on this
/// line or the next, and does not start where the innermost open one starts.
pub open spec fn relevant(range: SourceRange, stack: Seq<SourceRange>, line: int) -> bool {
    &&& range.start_lineno > 0
    &&& line <= range.start_lineno
    &&& line + 1 < range.end_lineno
    &&& stack.len() > 0 ==> stack[stack.len() - 1].start_lineno != range.start_lineno
}

/// Of the records of a token the first one with a relevant range opens it, if the line has opened
/// none before; no other record opens any.
pub proof fn law_range_opened(stack: Seq<SourceRange>, sources: Seq<AnalysisSource>, line: int)
    ensures
        forall|j: int|
            0 <= j < sources.len() && relevant(
                (#[trigger] sources[j]).nesting_range,
                stack,
                line,
            ) && (forall|i: int|
                0 <= i < j ==> !relevant((#[trigger] sources[i]).nesting_range, stack, line))
                ==> code::opened(stack, sources, line, false) == stack.push(
                sources[j].nesting_range,
            ),
        (forall|j: int|
            0 <= j < sources.len() ==> !relevant(
                (#[trigger] sources[j]).nesting_range,
                stack,
                line,
            )) ==> code::opened(stack, sources, line, false) == stack,
    decreases sources.len(),
{
    if sources.len() > 0 {
        let p = sources.drop_last();
        let last = sources.len() - 1;
        law_range_opened(stack, p, line);
        assert forall|i: int| 0 <= i < p.len() implies p[i] == sources[i] by {}
        let before = code::opened(stack, p, line, false);
        if forall|j: int|
            0 <= j < p.len() ==> !relevant((#[trigger] p[j]).nesting_range, stack, line) {
            assert(before == stack);
            assert forall|j: int|
                0 <= j < sources.len() && relevant(
                    (#[trigger] sources[j]).nesting_range,
                    stack,
                    line,
                ) implies j == last by {
                if j < p.len() {
                    assert(p[j] == sources[j]);
                }
            }
            assert(sources[last] == sources.last());
        } else {
            let j0 = choose|j: int|
                0 <= j < p.len() && relevant((#[trigger] p[j]).nesting_range, stack, line);
            lemma_first_relevant(stack, p, line, j0);
            let f = choose|f: int| #[trigger] first_relevant(stack, p, line, f);
            assert(relevant(p[f].nesting_range, stack, line));
            assert(before == stack.push(p[f].nesting_range));
            assert(code::opened(stack, sources, line, false) == before);
            assert(p[f] == sources[f]);
            assert forall|j: int|
                0 <= j < sources.len() && relevant(
                    (#[trigger] sources[j]).nesting_range,
                    stack,
                    line,
                ) && (forall|i: int|
                    0 <= i < j ==> !relevant(
                        (#[trigger] sources[i]).nesting_range,
                        stack,
                        line,
                    )) implies code::opened(stack, sources, line, false) == stack.push(
                sources[j].nesting_range,
            ) by {
                if f < j {
                    assert(relevant(sources[f].nesting_range, stack, line));
                }
                if j < f {
                    assert(p[j] == sources[j]);
                }
                assert(j == f);
            }
        }
    }
}

spec fn first_relevant(
    stack: Seq<SourceRange>,
    sources: Seq<AnalysisSource>,
    line: int,
    f: int,
) -> bool {
    &&& 0 <= f < sources.len()
    &&& relevant(sources[f].nesting_range, stack, line)
    &&& forall|i: int|
        0 <= i < f ==> !relevant((#[trigger] sources[i]).nesting_range, stack, line)
}

proof fn lemma_first_relevant(
    stack: Seq<SourceRange>,
    sources: Seq<AnalysisSource>,
    line: int,
    j: int,
)
    requires
        0 <= j < sources.len(),
        relevant(sources[j].nesting_range, stack, line),
    ensures
        exists|f: int| #[trigger] first_relevant(stack, sources, line, f),
    decreases j,
{
    if exists|i: int|
        0 <= i < j && relevant((#[trigger] sources[i]).nesting_range, stack, line) {
        let i = choose|i: int|
            0 <= i < j && relevant((#[trigger] sources[i]).nesting_range, stack, line);
        lemma_first_relevant(stack, sources, line, i);
    } else {
        assert(first_relevant(stack, sources, line, j));
    }
}

/// A word opens a range by its records, on the line that it stands on; no other token opens any.
pub proof fn law_words_open_ranges(c: CodeInput, k: int)
    requires
        0 <= k < c.tokens.len(),
        !(c.tokens[k].kind is Newline),
    ensures
        ({
            let before = code::run(c, k);
            let after = code::run(c, k + 1);
            let line = 1 + source::newlines(c.tokens, k);
            &&& annotated(c, k) ==> after.stack == code::opened(
                before.stack,
                records_of(c, k)->0,
                line,
                before.starts_nest,
            )
            &&& !annotated(c, k) ==> after.stack == before.stack
            &&& after.starts_nest == (before.starts_nest || after.stack != before.stack)
        }),
{
    law_line_of_token(c, k);
    let before = code::run(c, k);
    if annotated(c, k) {
        code_laws::law_one_range_per_line(
            before.stack,
            records_of(c, k)->0,
            before.cur_line,
            before.starts_nest,
        );
        lemma_opened_extends(
            before.stack,
            records_of(c, k)->0,
            before.cur_line,
            before.starts_nest,
        );
    }
}

proof fn lemma_opened_extends(
    stack: Seq<SourceRange>,
    sources: Seq<AnalysisSource>,
    line: int,
    starts_nest: bool,
)
    ensures
        code::opened(stack, sources, line, starts_nest).len() == stack.len() ==> code::opened(
            stack,
            sources,
            line,
            starts_nest,
        ) == stack,
    decreases sources.len(),
{
    if sources.len() > 0 {
        code_laws::law_one_range_per_line(stack, sources.drop_last(), line, starts_nest);
        lemma_opened_extends(stack, sources.drop_last(), line, starts_nest);
    }
}

/// A line end finishes a line: whether it opened a range, how many ranges end with it, and where
/// the next one starts.
pub proof fn law_line_end(c: CodeInput, k: int)
    requires
        0 <= k < c.tokens.len(),
        c.tokens[k].kind is Newline,
    ensures
        ({
            let before = code::run(c, k);
            let after = code::run(c, k + 1);
            let n = source::newlines(c.tokens, k);
            let plan = code::run_all(c).lines[n];
            &&& n < code::run_all(c).lines.len()
            &&& plan.newline == k
            &&& plan.starts_nest == before.starts_nest
            &&& plan.pops == (before.stack.len() - after.stack.len()) as u32
            &&& after.stack == before.stack.take(code::kept(before.stack, n + 1))
            &&& !after.starts_nest
            &&& after.line_start == c.tokens[k].end
            &&& after.menus == before.menus
        }),
{
    law_line_of_token(c, k);
    law_line_of_token(c, k + 1);
    let before = code::run(c, k);
    code::lemma_kept_bounds(before.stack, before.cur_line);
    let n = source::newlines(c.tokens, k);
    lemma_lines_stay(c, k + 1, c.tokens.len() as int, n);
}

proof fn lemma_lines_stay(c: CodeInput, k: int, j: int, n: int)
    requires
        0 <= k <= j <= c.tokens.len(),
        0 <= n < code::run(c, k).lines.len(),
    ensures
        n < code::run(c, j).lines.len(),
        code::run(c, j).lines[n] == code::run(c, k).lines[n],
    decreases j,
{
    if k < j {
        lemma_lines_stay(c, k, j - 1, n);
    }
}

// ---------------------------------------------------------------------------
// What a rendering depends on

/// A rendering depends on all of what it is given.
pub proof fn law_code_input(
    jumps: Map<Seq<char>, Jump>,
    path: Seq<char>,
    input: Seq<char>,
    tokens: Seq<Token>,
    analysis: Seq<WithLocation<Vec<AnalysisSource>>>,
)
    ensures
        ({
            let c = code::code_input(jumps, path, input, tokens, analysis);
            &&& c.jumps == jumps
            &&& c.path == path
            &&& c.input == input
            &&& c.tokens == tokens
            &&& c.analysis == analysis
        }),
{
}

/// As many line ends are counted as there are tokens that end a line.
pub proof fn law_line_ends_counted(tokens: Seq<Token>, k: int)
    requires
        0 <= k <= tokens.len(),
    ensures
        source::newlines(tokens, k) == tokens.take(k).filter(|t: Token| t.kind is Newline).len(),
    decreases k,
{
    reveal(Seq::filter);
    if k > 0 {
        law_line_ends_counted(tokens, k - 1);
        assert(tokens.take(k).drop_last() =~= tokens.take(k - 1));
        assert(tokens.take(k).last() == tokens[k - 1]);
    } else {
        assert(tokens.take(0).len() == 0);
    }
}

/// Tokens that follow each other, and start and end between characters, fit a text, however many
/// and however long they are.
pub proof fn law_tokens_fit(input: Seq<char>, tokens: Seq<Token>)
    requires
        forall|i: int|
            0 <= i < tokens.len() ==> (#[trigger] tokens[i]).start <= tokens[i].end
                && text::boundary(input, tokens[i].start as int) && text::boundary(
                input,
                tokens[i].end as int,
            ),
        forall|i: int, j: int|
            0 <= i < j < tokens.len() ==> (#[trigger] tokens[i]).end <= (#[trigger] tokens[j]).start,
    ensures
        source::tokens_valid(input, tokens),
        source::newlines(tokens, tokens.len() as int) < 0xffff_ffff ==> source::lines_countable(
            tokens,
        ),
{
}

} // verus!
