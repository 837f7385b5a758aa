//! What holds of texts, numbers and pieces, whatever they are.

use crate::split;
use crate::text;
use vstd::prelude::*;
use vstd::utf8::*;

verus! {

// ---------------------------------------------------------------------------
// Characters

/// Every `&` and every `<` is told by its entity, and every other character by itself.
pub proof fn law_escape_of_each(c: char)
    ensures
        c == '&' ==> text::escape(seq![c]) == "&amp;"@,
        c == '<' ==> text::escape(seq![c]) == "&lt;"@,
        c != '&' && c != '<' ==> text::escape(seq![c]) == seq![c],
{
    let one = seq![c];
    assert(one.drop_last() =~= Seq::<char>::empty());
    assert(text::escape(one.drop_last()) =~= Seq::<char>::empty());
    assert(text::escape(one) =~= text::escape_char(c));
}

/// The texts of each character, one after the other.
pub open spec fn each<A>(s: Seq<A>, f: spec_fn(A) -> Seq<char>) -> Seq<char>
    decreases s.len(),
{
    if s.len() == 0 {
        seq![]
    } else {
        f(s.first()) + each(s.drop_first(), f)
    }
}

/// A text is escaped character by character, from its first to its last.
pub proof fn law_escape_whole(s: Seq<char>)
    ensures
        text::escape(s) == each(
            s,
            |c: char|
                if c == '&' {
                    "&amp;"@
                } else if c == '<' {
                    "&lt;"@
                } else {
                    seq![c]
                },
        ),
    decreases s.len(),
{
    if s.len() > 0 {
        let one = seq![s[0]];
        let rest = s.drop_first();
        assert(s =~= one + rest);
        text::law_escape_concat(one, rest);
        law_escape_of_each(s[0]);
        law_escape_whole(rest);
    }
}

/// Dropping carriage returns keeps all other characters, in their order.
pub proof fn law_without_cr_keeps(s: Seq<char>)
    ensures
        text::without_cr(s) == s.filter(|c: char| c != '\r'),
    decreases s.len(),
{
    reveal(Seq::filter);
    if s.len() > 0 {
        law_without_cr_keeps(s.drop_last());
    }
}

/// What stands between two byte offsets takes as many bytes as lie between them.
pub proof fn law_slice_bytes(s: Seq<char>, from: int, to: int)
    requires
        from <= to,
        text::boundary(s, from),
        text::boundary(s, to),
    ensures
        text::byte_len(text::byte_slice(s, from, to)) == to - from,
        text::byte_len(s) == encode_utf8(s).len(),
{
    let b = encode_utf8(s);
    encode_utf8_valid_utf8(s);
    text::lemma_boundary_bounds(s, from);
    text::lemma_boundary_bounds(s, to);
    text::lemma_boundary_of_prefix(b, from, to);
    let p = b.subrange(0, to);
    valid_utf8_split(p, from);
    assert(p.subrange(from, to) =~= b.subrange(from, to));
    decode_utf8_encode_utf8(b.subrange(from, to));
}

/// Where the first `p` characters of a text take one byte each, byte offset `p` parts them from the
/// others.
pub proof fn law_single_byte_prefix(s: Seq<char>, p: int)
    requires
        0 <= p <= s.len(),
        forall|i: int| 0 <= i < p ==> '\0' <= #[trigger] s[i] <= '\u{7f}',
    ensures
        text::boundary(s, p),
        text::byte_slice(s, 0, p) == s.take(p),
        text::byte_slice(s, p, text::byte_len(s) as int) == s.skip(p),
{
    lemma_single_bytes(s, p);
    encode_utf8_decode_utf8(s.take(p));
    encode_utf8_decode_utf8(s.skip(p));
}

proof fn lemma_single_bytes(s: Seq<char>, p: int)
    requires
        0 <= p <= s.len(),
        forall|i: int| 0 <= i < p ==> '\0' <= #[trigger] s[i] <= '\u{7f}',
    ensures
        text::boundary(s, p),
        p <= encode_utf8(s).len(),
        encode_utf8(s).subrange(0, p) == encode_utf8(s.take(p)),
        encode_utf8(s).subrange(p, encode_utf8(s).len() as int) == encode_utf8(s.skip(p)),
    decreases p,
{
    let b = encode_utf8(s);
    encode_utf8_valid_utf8(s);
    if p == 0 {
        assert(s.take(0) =~= Seq::<char>::empty());
        assert(s.skip(0) =~= s);
        assert(b.subrange(0, 0) =~= encode_utf8(s.take(0)));
        assert(b.subrange(0, b.len() as int) =~= b);
    } else {
        let rest = s.drop_first();
        assert forall|i: int| 0 <= i < p - 1 implies '\0' <= #[trigger] rest[i] <= '\u{7f}' by {
            assert(rest[i] == s[i + 1]);
        }
        lemma_single_bytes(rest, p - 1);
        encode_utf8_first_scalar(s);
        char_is_scalar(s[0]);
        let head = encode_scalar(s[0] as u32);
        assert('\0' <= s[0] <= '\u{7f}');
        assert(has_width_1_encoding(s[0] as u32));
        assert(head.len() == 1);
        let tail = encode_utf8(rest);
        assert(b == head + tail);
        assert(pop_first_scalar(b) =~= tail);
        assert(text::boundary(s, p));
        assert(s.take(p).drop_first() =~= rest.take(p - 1));
        assert(s.take(p)[0] == s[0]);
        assert(encode_utf8(s.take(p)) == head + encode_utf8(rest.take(p - 1)));
        assert(b.subrange(0, p) =~= head + tail.subrange(0, p - 1));
        assert(s.skip(p) =~= rest.skip(p - 1));
        assert(b.subrange(p, b.len() as int) =~= tail.subrange(p - 1, tail.len() as int));
    }
}

// ---------------------------------------------------------------------------
// Numbers

/// What the digits of a number denote is the number; there is no zero in front.
pub proof fn law_decimal_reads_back(n: nat)
    ensures
        text::all_digits(text::dec(n)),
        text::digits_value(text::dec(n)) == n,
        n > 0 ==> text::dec(n)[0] != '0',
        n == 0 ==> text::dec(n) == seq!['0'],
    decreases n,
{
    if n < 10 {
        let d = text::dec(n);
        assert(d.drop_last() =~= Seq::<char>::empty());
        assert(text::digits_value(d.drop_last()) == 0);
    } else {
        law_decimal_reads_back(n / 10);
        let d = text::dec(n);
        assert(d.drop_last() =~= text::dec(n / 10));
        assert forall|i: int| 0 <= i < d.len() implies text::is_digit(#[trigger] d[i]) by {
            if i < d.len() - 1 {
                assert(d[i] == text::dec(n / 10)[i]);
            }
        }
    }
}

/// Different numbers are written differently.
pub proof fn law_decimal_differs(a: nat, b: nat)
    requires
        a != b,
    ensures
        text::dec(a) != text::dec(b),
{
    law_decimal_reads_back(a);
    law_decimal_reads_back(b);
}

/// A negative number is written as a minus sign and its amount, any other as it is.
pub proof fn law_signed_decimal(n: int)
    ensures
        n >= 0 ==> text::signed_dec(n) == text::dec(n as nat),
        n < 0 ==> text::signed_dec(n) == seq!['-'] + text::dec((-n) as nat),
{
}

/// A further digit counts ten times what stood before it, and itself.
pub proof fn law_digits_value(s: Seq<char>, d: char)
    requires
        '0' <= d <= '9',
    ensures
        text::digits_value(s.push(d)) == 10 * text::digits_value(s) + (d as int - '0' as int),
        text::digits_value(seq![]) == 0,
        text::is_digit(d),
{
    assert(s.push(d).drop_last() =~= s);
}

/// Every number below 2^32 reads as what was written, with or without a plus sign; a text that
/// holds anything else, or nothing, or a number that is too large, does not read as one.
pub proof fn law_number_read(s: Seq<char>)
    ensures
        forall|n: u32|
            text::u32_of(#[trigger] text::dec(n as nat)) == Some(n) && text::u32_of(
                seq!['+'] + text::dec(n as nat),
            ) == Some(n),
        text::u32_of(s) is Some ==> {
            let t = if s[0] == '+' {
                s.drop_first()
            } else {
                s
            };
            &&& t.len() > 0
            &&& forall|i: int| 0 <= i < t.len() ==> '0' <= #[trigger] t[i] <= '9'
            &&& text::digits_value(t) == text::u32_of(s)->0
        },
{
    assert forall|n: u32|
        text::u32_of(#[trigger] text::dec(n as nat)) == Some(n) && text::u32_of(
            seq!['+'] + text::dec(n as nat),
        ) == Some(n) by {
        let d = text::dec(n as nat);
        law_decimal_reads_back(n as nat);
        assert(text::is_digit(d[0]));
        assert((seq!['+'] + d).drop_first() =~= d);
    }
}

// ---------------------------------------------------------------------------
// Pieces

/// Lists that are joined can be joined part by part.
pub proof fn law_join_parts(a: Seq<Seq<char>>, b: Seq<Seq<char>>, sep: Seq<char>)
    requires
        a.len() > 0,
        b.len() > 0,
    ensures
        split::join(a + b, sep) == split::join(a, sep) + sep + split::join(b, sep),
    decreases b.len(),
{
    if b.len() == 1 {
        assert((a + b).drop_last() =~= a);
        assert((a + b).last() == b[0]);
    } else {
        let c = b.drop_last();
        law_join_parts(a, c, sep);
        assert((a + b).drop_last() =~= a + c);
        assert((a + b).last() == b.last());
        assert(split::join(a + b, sep) =~= split::join(a, sep) + sep + split::join(b, sep));
    }
}

/// A list of one is joined to its one member, an empty list to nothing.
pub proof fn law_join_small(x: Seq<char>, sep: Seq<char>)
    ensures
        split::join(seq![x], sep) == x,
        split::join(seq![], sep) == Seq::<char>::empty(),
{
}

/// The first pieces of a text hold no separator and, joined, the pieces are the text; there are
/// fewer than asked for only where the text has no more separators.
pub proof fn law_split_first(s: Seq<char>, n: nat, c: char)
    requires
        n > 0,
    ensures
        0 < split::split_n(s, n, c).len() <= n,
        split::join(split::split_n(s, n, c), seq![c]) == s,
        forall|i: int|
            0 <= i < split::split_n(s, n, c).len() - 1 ==> !(#[trigger] split::split_n(
                s,
                n,
                c,
            )[i]).contains(c),
        split::split_n(s, n, c).len() < n ==> !split::split_n(s, n, c).last().contains(c),
    decreases n,
{
    let i = split::position(s, c);
    split::lemma_position(s, c);
    if n == 1 {
    } else if i == s.len() {
        assert(s.take(i) =~= s);
    } else {
        let rest = s.skip(i + 1);
        let pieces = split::split_n(s, n, c);
        law_split_first(rest, (n - 1) as nat, c);
        let tail = split::split_n(rest, (n - 1) as nat, c);
        assert(pieces.drop_first() =~= tail);
        split::lemma_join_first(pieces, seq![c]);
        assert(s =~= s.take(i) + seq![c] + rest);
        assert forall|k: int| 0 <= k < pieces.len() - 1 implies !(#[trigger] pieces[k]).contains(
            c,
        ) by {
            if k > 0 {
                assert(pieces[k] == tail[k - 1]);
            }
        }
        assert(pieces.last() == tail.last());
    }
}

/// Pieces that hold no separator are got back from what they are joined to.
pub proof fn law_split_of_join(pieces: Seq<Seq<char>>, c: char)
    requires
        pieces.len() > 0,
        forall|i: int| 0 <= i < pieces.len() ==> !(#[trigger] pieces[i]).contains(c),
    ensures
        split::split(split::join(pieces, seq![c]), c) == pieces,
    decreases pieces.len(),
{
    let s = split::join(pieces, seq![c]);
    if pieces.len() == 1 {
        assert(!pieces[0].contains(c));
        split::lemma_position(s, c);
        assert(split::split(s, c) =~= pieces);
    } else {
        let tail = pieces.drop_first();
        split::lemma_join_first(pieces, seq![c]);
        let rest = split::join(tail, seq![c]);
        assert(!pieces[0].contains(c));
        split::lemma_position_of_cut(pieces[0], c, rest);
        assert forall|i: int| 0 <= i < tail.len() implies !(#[trigger] tail[i]).contains(c) by {
            assert(tail[i] == pieces[i + 1]);
        }
        law_split_of_join(tail, c);
        assert(split::split(s, c) =~= pieces);
    }
}

/// The first `n - 1` pieces that hold no separator, and a rest, are got back from what they are
/// joined to.
pub proof fn law_split_first_of_join(pieces: Seq<Seq<char>>, n: nat, c: char)
    requires
        0 < pieces.len() <= n,
        forall|i: int| 0 <= i < pieces.len() - 1 ==> !(#[trigger] pieces[i]).contains(c),
        pieces.len() < n ==> !pieces.last().contains(c),
    ensures
        split::split_n(split::join(pieces, seq![c]), n, c) == pieces,
    decreases pieces.len(),
{
    let s = split::join(pieces, seq![c]);
    split::lemma_position(s, c);
    if pieces.len() == 1 {
        if n > 1 {
            assert(!s.contains(c));
        }
        assert(split::split_n(s, n, c) =~= pieces);
    } else {
        let tail = pieces.drop_first();
        split::lemma_join_first(pieces, seq![c]);
        let rest = split::join(tail, seq![c]);
        assert(!pieces[0].contains(c));
        split::lemma_position_of_cut(pieces[0], c, rest);
        assert forall|i: int| 0 <= i < tail.len() - 1 implies !(#[trigger] tail[i]).contains(
            c,
        ) by {
            assert(tail[i] == pieces[i + 1]);
        }
        assert(tail.last() == pieces.last());
        law_split_first_of_join(tail, (n - 1) as nat, c);
        assert(split::split_n(s, n, c) =~= pieces);
    }
}

/// Lines, each of which a line feed ends, are got back from the text that they make.
pub proof fn law_lines_of_text(lines: Seq<Seq<char>>)
    requires
        forall|i: int| 0 <= i < lines.len() ==> !(#[trigger] lines[i]).contains('\n'),
    ensures
        split::line_pieces(each(lines, |l: Seq<char>| l + seq!['\n'])) == lines,
{
    let sep = seq!['\n'];
    let s = each(lines, |l: Seq<char>| l + seq!['\n']);
    let all = lines.push(seq![]);
    lemma_each_is_join(lines);
    assert forall|i: int| 0 <= i < all.len() implies !(#[trigger] all[i]).contains('\n') by {
        if i < lines.len() {
            assert(all[i] == lines[i]);
        }
    }
    law_split_of_join(all, '\n');
    assert(split::split(s, '\n') == all);
    assert(all.drop_last() =~= lines);
}

proof fn lemma_each_is_join(lines: Seq<Seq<char>>)
    ensures
        split::join(lines.push(seq![]), seq!['\n']) == each(
            lines,
            |l: Seq<char>| l + seq!['\n'],
        ),
    decreases lines.len(),
{
    let all = lines.push(seq![]);
    let sep = seq!['\n'];
    if lines.len() == 0 {
        assert(split::join(all, sep) =~= Seq::<char>::empty());
    } else {
        let rest = lines.drop_first();
        lemma_each_is_join(rest);
        assert(all.drop_first() =~= rest.push(seq![]));
        split::lemma_join_first(all, sep);
        assert(all[0] == lines[0]);
    }
}

/// Of the lines of a blame file, one that a carriage return and a line feed end is told without
/// both; every other character stays.
pub proof fn law_text_lines(s: Seq<char>)
    ensures
        split::text_lines(s).len() == split::line_pieces(s).len(),
        forall|i: int|
            0 <= i < split::text_lines(s).len() ==> {
                let line = #[trigger] split::text_lines(s)[i];
                let whole = split::line_pieces(s)[i];
                let ended = i + 1 < split::line_pieces(s).len() || s.last() == '\n';
                if ended && whole.len() > 0 && whole[whole.len() - 1] == '\r' {
                    whole == line.push('\r')
                } else {
                    whole == line
                }
            },
{
    let pieces = split::split(s, '\n');
    split::law_split_join(s, '\n');
    split::law_split_lines(s);
    let whole = split::line_pieces(s);
    assert forall|i: int| 0 <= i < split::text_lines(s).len() implies {
        let line = #[trigger] split::text_lines(s)[i];
        let ended = i + 1 < whole.len() || s.last() == '\n';
        if ended && whole[i].len() > 0 && whole[i][whole[i].len() - 1] == '\r' {
            whole[i] == line.push('\r')
        } else {
            whole[i] == line
        }
    } by {
        if s.len() > 0 && s.last() != '\n' {
            if pieces.last().len() == 0 {
                if pieces.len() > 1 {
                    assert(s =~= split::join(pieces.drop_last(), seq!['\n']) + seq!['\n']);
                }
                assert(false);
            }
        }
        if s.len() > 0 && s.last() == '\n' {
            if pieces.last().len() > 0 {
                let p = pieces.last();
                assert(s.last() == p[p.len() - 1]) by {
                    if pieces.len() > 1 {
                        let head = split::join(pieces.drop_last(), seq!['\n']);
                        assert(s == head + seq!['\n'] + p);
                    }
                }
                assert(p.contains(p[p.len() - 1]));
            }
        }
        if s.len() == 0 {
            assert(false);
        }
        let line = split::text_lines(s)[i];
        if whole[i].len() > 0 && whole[i].last() == '\r' {
            assert(whole[i] =~= whole[i].drop_last().push('\r'));
        }
    }
}

/// A list of strings holds what each string holds, in their order.
pub proof fn law_strings(v: Seq<String>, w: Seq<&str>)
    ensures
        split::strings(v).len() == v.len(),
        split::strs(w).len() == w.len(),
        forall|i: int| 0 <= i < v.len() ==> #[trigger] split::strings(v)[i] == v[i]@,
        forall|i: int| 0 <= i < w.len() ==> #[trigger] split::strs(w)[i] == w[i]@,
{
}

} // verus!
