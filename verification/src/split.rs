//! Cutting strings at separators, and joining them again.

use vstd::prelude::*;
use vstd::utf8::*;

verus! {

/// Whether `c` takes a single byte in UTF-8.
pub open spec fn single_byte(c: char) -> bool {
    '\0' <= c <= '\u{7f}'
}

/// The index of the first `c` in `s`, or the length of `s` where there is none.
pub open spec fn position(s: Seq<char>, c: char) -> int
    decreases s.len(),
{
    if s.len() == 0 || s[0] == c {
        0
    } else {
        1 + position(s.drop_first(), c)
    }
}

/// The pieces of `s` between the occurrences of `c`.
pub open spec fn split(s: Seq<char>, c: char) -> Seq<Seq<char>>
    decreases s.len(),
{
    let i = position(s, c);
    if 0 <= i < s.len() {
        seq![s.take(i)] + split(s.skip(i + 1), c)
    } else {
        seq![s]
    }
}

/// The first `n - 1` pieces of `s` between the occurrences of `c`, then the rest of `s`.
pub open spec fn split_n(s: Seq<char>, n: nat, c: char) -> Seq<Seq<char>>
    decreases n,
{
    let i = position(s, c);
    if n == 0 {
        seq![]
    } else if n == 1 || i == s.len() {
        seq![s]
    } else {
        seq![s.take(i)] + split_n(s.skip(i + 1), (n - 1) as nat, c)
    }
}

/// The pieces in order, with `sep` between every two.
pub open spec fn join(pieces: Seq<Seq<char>>, sep: Seq<char>) -> Seq<char>
    decreases pieces.len(),
{
    if pieces.len() == 0 {
        seq![]
    } else if pieces.len() == 1 {
        pieces[0]
    } else {
        join(pieces.drop_last(), sep) + sep + pieces.last()
    }
}

/// The characters of each string.
pub open spec fn strs(v: Seq<&str>) -> Seq<Seq<char>> {
    Seq::new(v.len(), |i: int| v[i]@)
}

/// The characters of each string.
pub open spec fn strings(v: Seq<String>) -> Seq<Seq<char>> {
    Seq::new(v.len(), |i: int| v[i]@)
}

/// `position` is the first occurrence, if there is one.
pub proof fn lemma_position(s: Seq<char>, c: char)
    ensures
        0 <= position(s, c) <= s.len(),
        !s.take(position(s, c)).contains(c),
        position(s, c) < s.len() ==> s[position(s, c)] == c,
        position(s, c) < s.len() <==> s.contains(c),
    decreases s.len(),
{
    if s.len() == 0 {
    } else if s[0] == c {
        assert(s.contains(s[0]));
    } else {
        let t = s.drop_first();
        lemma_position(t, c);
        let p = position(s, c);
        assert forall|i: int| 0 <= i < p implies s.take(p)[i] != c by {
            if i > 0 {
                assert(t.take(p - 1)[i - 1] == s.take(p)[i]);
                assert(t.take(p - 1).contains(t.take(p - 1)[i - 1]));
            }
        }
        if p < s.len() {
            assert(s[p] == t[p - 1]);
            assert(s.contains(s[p]));
        } else {
            assert forall|i: int| 0 <= i < s.len() implies s[i] != c by {
                assert(s.take(p)[i] == s[i]);
            }
        }
    }
}

/// The position of a separator whose prefix does not hold it.
pub proof fn lemma_position_of_cut(a: Seq<char>, c: char, b: Seq<char>)
    requires
        !a.contains(c),
    ensures
        position(a + seq![c] + b, c) == a.len(),
        (a + seq![c] + b).take(a.len() as int) == a,
        (a + seq![c] + b).skip(a.len() as int + 1) == b,
{
    let s = a + seq![c] + b;
    lemma_position(s, c);
    let p = position(s, c);
    assert(s[a.len() as int] == c);
    if p < a.len() {
        assert(s[p] == a[p]);
        assert(a.contains(a[p]));
    }
    if p > a.len() {
        assert(s.take(p)[a.len() as int] == c);
        assert(s.take(p).contains(c));
    }
    assert(s.take(a.len() as int) =~= a);
    assert(s.skip(a.len() as int + 1) =~= b);
}

// ---------------------------------------------------------------------------
// Single bytes in UTF-8

proof fn lemma_wide_bytes(v: u32)
    by (bit_vector)
    ensures
        has_width_2_encoding(v) ==> leading_byte_width_2(v) > 0x7f,
        has_width_3_encoding(v) ==> leading_byte_width_3(v) > 0x7f,
        has_width_4_encoding(v) ==> leading_byte_width_4(v) > 0x7f,
        has_width_1_encoding(v) ==> leading_byte_width_1(v) == v,
{
}

/// A text whose first byte is below 128 starts with that character.
proof fn lemma_first_single_byte(s: Seq<char>)
    requires
        s.len() > 0,
        encode_utf8(s)[0] <= 0x7f,
    ensures
        s[0] as u32 == encode_utf8(s)[0],
        encode_utf8(s) == seq![encode_utf8(s)[0]] + encode_utf8(s.drop_first()),
{
    let v = s[0] as u32;
    char_is_scalar(s[0]);
    lemma_wide_bytes(v);
    assert(encode_utf8(s)[0] == encode_scalar(v)[0]);
    assert(has_width_1_encoding(v));
    assert(encode_scalar(v) =~= seq![encode_utf8(s)[0]]);
}

/// A single byte character of a text is among its bytes.
proof fn lemma_single_byte_present(s: Seq<char>, k: int)
    requires
        0 <= k < s.len(),
        single_byte(s[k]),
    ensures
        encode_utf8(s).contains(s[k] as u8),
    decreases s.len(),
{
    let v = s[0] as u32;
    let head = encode_scalar(v);
    let tail = encode_utf8(s.drop_first());
    if k == 0 {
        char_is_scalar(s[0]);
        lemma_wide_bytes(v);
        assert(has_width_1_encoding(v));
        assert(head[0] == leading_byte_width_1(v));
        assert(v as u8 == leading_byte_width_1(v)) by (bit_vector)
            requires
                has_width_1_encoding(v),
        ;
        assert(head[0] == s[0] as u8);
        assert(encode_utf8(s)[0] == s[0] as u8);
    } else {
        lemma_single_byte_present(s.drop_first(), k - 1);
        let j = choose|j: int| 0 <= j < tail.len() && tail[j] == s[k] as u8;
        assert(encode_utf8(s)[head.len() + j] == s[k] as u8);
    }
}

/// Cuts `s` at the first `c`.
pub fn cut<'a>(s: &'a str, c: char) -> (r: Option<(&'a str, &'a str)>)
    requires
        single_byte(c),
    ensures
        match r {
            Some((a, b)) => s@ == a@ + seq![c] + b@ && !a@.contains(c),
            None => !s@.contains(c),
        },
{
    let bytes = s.as_bytes();
    let sep: u8 = c as u8;
    let mut i: usize = 0;
    while i < bytes.len() && bytes[i] != sep
        invariant
            i <= bytes@.len(),
            bytes@ == encode_utf8(s@),
            forall|j: int| 0 <= j < i ==> bytes@[j] != sep,
        decreases bytes@.len() - i,
    {
        i = i + 1;
    }
    if i == bytes.len() {
        proof {
            if s@.contains(c) {
                let k = s@.index_of(c);
                lemma_single_byte_present(s@, k);
                let j = choose|j: int| 0 <= j < bytes@.len() && bytes@[j] == sep;
                assert(bytes@[j] != sep);
            }
        }
        return None;
    }
    let ghost b = encode_utf8(s@);
    proof {
        encode_utf8_valid_utf8(s@);
        is_char_boundary_iff_not_is_continuation_byte(b, i as int);
        valid_utf8_split(b, i as int);
        decode_utf8_split(b, i as int);
    }
    let (a, rest) = s.split_at(i);
    proof {
        encode_utf8_decode_utf8(s@);
        encode_utf8_decode_utf8(a@);
        encode_utf8_decode_utf8(rest@);
        assert(s@ =~= a@ + rest@);
        if a@.contains(c) {
            let k = a@.index_of(c);
            lemma_single_byte_present(a@, k);
            let e = encode_utf8(a@);
            let j = choose|j: int| 0 <= j < e.len() && e[j] == sep;
            assert(b[j] == sep);
        }
        let e = encode_utf8(rest@);
        assert(e[0] == sep);
        assert(rest@.len() > 0);
        lemma_first_single_byte(rest@);
        encode_utf8_valid_utf8(rest@);
        encode_utf8_first_scalar(rest@);
        let v = rest@[0] as u32;
        assert(encode_scalar(v).len() == 1);
        reveal_with_fuel(is_char_boundary, 2);
        assert(is_char_boundary(e, 1));
    }
    let (_, tail) = rest.split_at(1);
    proof {
        let e = encode_utf8(rest@);
        assert(e.subrange(1, e.len() as int) =~= encode_utf8(rest@.drop_first()));
        encode_utf8_decode_utf8(tail@);
        encode_utf8_decode_utf8(rest@.drop_first());
        assert(rest@ =~= seq![c] + tail@);
        assert(s@ =~= a@ + seq![c] + tail@);
    }
    Some((a, tail))
}

/// Whether `s` holds `c`.
pub fn contains_char(s: &str, c: char) -> (r: bool)
    requires
        single_byte(c),
    ensures
        r == s@.contains(c),
{
    match cut(s, c) {
        Some((a, _)) => {
            proof {
                assert(s@[a@.len() as int] == c);
            }
            true
        },
        None => false,
    }
}

/// The pieces of `s` between the occurrences of `c`.
pub fn split_at_each<'a>(s: &'a str, c: char) -> (r: Vec<&'a str>)
    requires
        single_byte(c),
    ensures
        strs(r@) == split(s@, c),
        r@.len() > 0,
{
    let mut pieces: Vec<&'a str> = Vec::new();
    let mut rest = s;
    loop
        invariant
            single_byte(c),
            split(s@, c) == strs(pieces@) + split(rest@, c),
        decreases rest@.len(),
    {
        proof {
            lemma_position(rest@, c);
        }
        let ghost before = pieces@;
        match cut(rest, c) {
            None => {
                pieces.push(rest);
                proof {
                    assert(strs(pieces@) =~= strs(before).push(rest@));
                    assert(split(rest@, c) =~= seq![rest@]);
                    assert(split(s@, c) =~= strs(pieces@));
                }
                return pieces;
            },
            Some((a, b)) => {
                pieces.push(a);
                proof {
                    lemma_position_of_cut(a@, c, b@);
                    assert(strs(pieces@) =~= strs(before).push(a@));
                    assert(split(rest@, c) =~= seq![a@] + split(b@, c));
                    assert(split(s@, c) =~= strs(pieces@) + split(b@, c));
                }
                rest = b;
            },
        }
    }
}

/// At most `n` pieces of `s`: those before the first `n - 1` occurrences of `c`, then the rest.
pub fn split_first<'a>(s: &'a str, n: usize, c: char) -> (r: Vec<&'a str>)
    requires
        single_byte(c),
    ensures
        strs(r@) == split_n(s@, n as nat, c),
{
    let mut pieces: Vec<&'a str> = Vec::new();
    let mut rest = s;
    let mut left: usize = n;
    while left > 1
        invariant
            single_byte(c),
            left <= n,
            left == 0 ==> n == 0 && pieces@.len() == 0,
            split_n(s@, n as nat, c) == strs(pieces@) + split_n(rest@, left as nat, c),
        decreases left,
    {
        proof {
            lemma_position(rest@, c);
        }
        let ghost before = pieces@;
        match cut(rest, c) {
            None => {
                pieces.push(rest);
                proof {
                    assert(strs(pieces@) =~= strs(before).push(rest@));
                    assert(split_n(rest@, left as nat, c) =~= seq![rest@]);
                    assert(split_n(s@, n as nat, c) =~= strs(pieces@));
                }
                return pieces;
            },
            Some((a, b)) => {
                pieces.push(a);
                proof {
                    lemma_position_of_cut(a@, c, b@);
                    assert(strs(pieces@) =~= strs(before).push(a@));
                    assert(split_n(rest@, left as nat, c) =~= seq![a@] + split_n(
                        b@,
                        (left - 1) as nat,
                        c,
                    ));
                    assert(split_n(s@, n as nat, c) =~= strs(pieces@) + split_n(
                        b@,
                        (left - 1) as nat,
                        c,
                    ));
                }
                rest = b;
                left = left - 1;
            },
        }
    }
    if left == 1 {
        let ghost before = pieces@;
        pieces.push(rest);
        proof {
            assert(strs(pieces@) =~= strs(before).push(rest@));
            assert(split_n(s@, n as nat, c) =~= strs(pieces@));
        }
    } else {
        proof {
            assert(split_n(s@, n as nat, c) =~= strs(pieces@));
        }
    }
    pieces
}

/// The strings in order, with `sep` between every two.
pub fn join_strs(pieces: &Vec<&str>, sep: &str) -> (r: String)
    ensures
        r@ == join(strs(pieces@), sep@),
{
    let mut r = String::new();
    let mut i: usize = 0;
    let ghost all = strs(pieces@);
    while i < pieces.len()
        invariant
            all == strs(pieces@),
            i <= pieces@.len(),
            r@ == join(all.take(i as int), sep@),
        decreases pieces@.len() - i,
    {
        if i > 0 {
            r.append(sep);
        }
        r.append(pieces[i]);
        proof {
            assert(all.take(i + 1).drop_last() =~= all.take(i as int));
            assert(all.take(i + 1).last() == pieces@[i as int]@);
            if i == 0 {
                assert(r@ =~= all.take(1)[0]);
            }
        }
        i = i + 1;
    }
    proof {
        assert(all.take(all.len() as int) =~= all);
    }
    r
}

/// The strings in order, with `sep` between every two.
pub fn join_strings(pieces: &Vec<String>, sep: &str) -> (r: String)
    ensures
        r@ == join(strings(pieces@), sep@),
{
    let mut r = String::new();
    let mut i: usize = 0;
    let ghost all = strings(pieces@);
    while i < pieces.len()
        invariant
            all == strings(pieces@),
            i <= pieces@.len(),
            r@ == join(all.take(i as int), sep@),
        decreases pieces@.len() - i,
    {
        if i > 0 {
            r.append(sep);
        }
        r.append(pieces[i].as_str());
        proof {
            assert(all.take(i + 1).drop_last() =~= all.take(i as int));
            assert(all.take(i + 1).last() == pieces@[i as int]@);
            if i == 0 {
                assert(r@ =~= all.take(1)[0]);
            }
        }
        i = i + 1;
    }
    proof {
        assert(all.take(all.len() as int) =~= all);
    }
    r
}

/// Joining with the first piece taken apart from the others.
pub proof fn lemma_join_first(pieces: Seq<Seq<char>>, sep: Seq<char>)
    requires
        pieces.len() > 1,
    ensures
        join(pieces, sep) == pieces[0] + sep + join(pieces.drop_first(), sep),
    decreases pieces.len(),
{
    let tail = pieces.drop_first();
    if pieces.len() == 2 {
        assert(join(pieces.drop_last(), sep) == pieces[0]);
        assert(join(tail, sep) == pieces[1]);
    } else {
        lemma_join_first(pieces.drop_last(), sep);
        assert(pieces.drop_last().drop_first() =~= tail.drop_last());
        assert(join(pieces, sep) =~= pieces[0] + sep + join(tail, sep));
    }
}

/// The pieces of a split hold no separator, and joined by it they are the text again.
pub proof fn law_split_join(s: Seq<char>, c: char)
    ensures
        split(s, c).len() > 0,
        join(split(s, c), seq![c]) == s,
        forall|i: int| 0 <= i < split(s, c).len() ==> !(#[trigger] split(s, c)[i]).contains(c),
    decreases s.len(),
{
    let i = position(s, c);
    lemma_position(s, c);
    if i < s.len() {
        let rest = s.skip(i + 1);
        law_split_join(rest, c);
        let pieces = split(s, c);
        assert(pieces.drop_first() =~= split(rest, c));
        lemma_join_first(pieces, seq![c]);
        assert(s =~= s.take(i) + seq![c] + rest);
        assert forall|k: int| 0 <= k < pieces.len() implies !(#[trigger] pieces[k]).contains(c) by {
            if k > 0 {
                assert(pieces[k] == split(rest, c)[k - 1]);
            }
        }
    } else {
        assert(s.take(i) =~= s);
    }
}

/// The lines of a text: the pieces between line feeds, without a last empty one.
pub open spec fn line_pieces(s: Seq<char>) -> Seq<Seq<char>> {
    let pieces = split(s, '\n');
    if pieces.last().len() == 0 {
        pieces.drop_last()
    } else {
        pieces
    }
}

/// Splits a text at line feeds; one at the very end starts no further line.
pub fn split_lines<'a>(s: &'a str) -> (r: Vec<&'a str>)
    ensures
        strs(r@) == line_pieces(s@),
{
    let mut pieces = split_at_each(s, '\n');
    let last = pieces[pieces.len() - 1];
    let ghost before = pieces@;
    if last.is_empty() {
        let _ = pieces.pop();
        proof {
            assert(strs(pieces@) =~= strs(before).drop_last());
        }
    }
    pieces
}

/// The lines of a text that ends in a line feed, each followed by one, are the text.
pub proof fn law_split_lines(s: Seq<char>)
    ensures
        s.len() > 0 && s.last() == '\n' ==> join(line_pieces(s), seq!['\n']) + seq!['\n'] == s,
        s.len() == 0 ==> line_pieces(s).len() == 0,
        s.len() > 0 && s.last() != '\n' ==> join(line_pieces(s), seq!['\n']) == s,
        forall|i: int|
            0 <= i < line_pieces(s).len() ==> !(#[trigger] line_pieces(s)[i]).contains('\n'),
{
    law_split_join(s, '\n');
    let pieces = split(s, '\n');
    let sep = seq!['\n'];
    if s.len() == 0 {
        assert(position(s, '\n') == 0);
        assert(pieces.len() == 1);
    } else if pieces.len() == 1 {
        assert(s == pieces[0]);
        if s.last() == '\n' {
            assert(s.contains(s[s.len() - 1]));
        }
    } else {
        let head = join(pieces.drop_last(), sep);
        assert(s == head + sep + pieces.last());
        if pieces.last().len() == 0 {
            assert(s =~= head + sep);
            assert(s.last() == '\n');
        } else {
            let p = pieces.last();
            assert(s.last() == p[p.len() - 1]);
            assert(p.contains(p[p.len() - 1]));
        }
    }
}

/// `s` without a carriage return at its end.
pub open spec fn without_last_cr(s: Seq<char>) -> Seq<char> {
    if s.len() > 0 && s.last() == '\r' {
        s.drop_last()
    } else {
        s
    }
}

/// The lines of a text, where a carriage return before a line feed belongs to the line's end.
pub open spec fn text_lines(s: Seq<char>) -> Seq<Seq<char>> {
    let pieces = split(s, '\n');
    let whole = line_pieces(s);
    Seq::new(
        whole.len(),
        |i: int|
            if i < pieces.len() - 1 {
                without_last_cr(whole[i])
            } else {
                whole[i]
            },
    )
}

/// Drops a carriage return at the end.
fn drop_last_cr(s: &str) -> (r: String)
    ensures
        r@ == without_last_cr(s@),
{
    let mut r = String::new();
    let mut held = false;
    for c in it: s.chars()
        invariant
            it.seq() == s@,
            held == (it.index() > 0 && s@[it.index() as int - 1] == '\r'),
            held ==> r@.push('\r') == s@.take(it.index() as int),
            !held ==> r@ == s@.take(it.index() as int),
    {
        let ghost i = it.index() as int;
        if held {
            r.push('\r');
        }
        proof {
            assert(r@ == s@.take(i));
            assert(s@.take(i + 1) =~= s@.take(i).push(c));
        }
        if c == '\r' {
            held = true;
        } else {
            held = false;
            r.push(c);
        }
    }
    proof {
        assert(s@.take(s@.len() as int) =~= s@);
        if held {
            assert(r@ =~= s@.drop_last());
        }
    }
    r
}

/// The lines of a text; both a line feed and a carriage return with a line feed end a line.
pub fn read_lines(s: &str) -> (r: Vec<String>)
    ensures
        strings(r@) == text_lines(s@),
{
    let pieces = split_at_each(s, '\n');
    let n = pieces.len();
    let mut lines: Vec<String> = Vec::new();
    let ghost all = strs(pieces@);
    let mut i: usize = 0;
    while i < n - 1
        invariant
            all == strs(pieces@),
            n == pieces@.len(),
            n > 0,
            i <= n - 1,
            lines@.len() == i,
            forall|k: int| 0 <= k < i ==> (#[trigger] lines@[k])@ == without_last_cr(all[k]),
        decreases n - i,
    {
        lines.push(drop_last_cr(pieces[i]));
        i = i + 1;
    }
    let last = pieces[n - 1];
    if !last.is_empty() {
        lines.push(last.to_owned());
    }
    proof {
        assert(strings(lines@) =~= text_lines(s@));
    }
    lines
}

} // verus!
