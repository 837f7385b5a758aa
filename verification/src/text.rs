//! Character and byte level helpers on strings.

use vstd::prelude::*;
use vstd::utf8::*;

verus! {

/// `String::push` of std: appends the given character to the end of the string.
pub assume_specification[ String::push ](s: &mut String, c: char)
    ensures
        final(s)@ == old(s)@.push(c),
;

// ---------------------------------------------------------------------------
// Equality

/// Whether two strings hold the same characters.
pub fn same_text(a: &str, b: &str) -> (r: bool)
    ensures
        r == (a@ == b@),
{
    let x = a.as_bytes();
    let y = b.as_bytes();
    proof {
        encode_utf8_decode_utf8(a@);
        encode_utf8_decode_utf8(b@);
    }
    if x.len() != y.len() {
        return false;
    }
    let mut i: usize = 0;
    while i < x.len()
        invariant
            x@.len() == y@.len(),
            x@ == encode_utf8(a@),
            y@ == encode_utf8(b@),
            i <= x@.len(),
            x@.take(i as int) == y@.take(i as int),
        decreases x@.len() - i,
    {
        if x[i] != y[i] {
            return false;
        }
        proof {
            assert(x@.take(i + 1) =~= x@.take(i as int).push(x@[i as int]));
            assert(y@.take(i + 1) =~= y@.take(i as int).push(y@[i as int]));
        }
        i = i + 1;
    }
    proof {
        assert(x@.take(x@.len() as int) =~= x@);
        assert(y@.take(y@.len() as int) =~= y@);
    }
    true
}

// ---------------------------------------------------------------------------
// HTML text

/// What stands for one character in HTML text.
pub open spec fn escape_char(c: char) -> Seq<char> {
    if c == '&' {
        "&amp;"@
    } else if c == '<' {
        "&lt;"@
    } else {
        seq![c]
    }
}

/// `s` with every `&` and every `<` replaced by its character entity.
pub open spec fn escape(s: Seq<char>) -> Seq<char>
    decreases s.len(),
{
    if s.len() == 0 {
        seq![]
    } else {
        escape(s.drop_last()) + escape_char(s.last())
    }
}

/// Replaces `&` by `&amp;` and `<` by `&lt;`.
pub fn entity_replace(s: &str) -> (r: String)
    ensures
        r@ == escape(s@),
{
    let mut r = String::new();
    for c in it: s.chars()
        invariant
            it.seq() == s@,
            r@ == escape(s@.take(it.index() as int)),
    {
        proof {
            let i = it.index() as int;
            assert(s@.take(i + 1).drop_last() =~= s@.take(i));
        }
        if c == '&' {
            r.append("&amp;");
        } else if c == '<' {
            r.append("&lt;");
        } else {
            r.push(c);
        }
    }
    proof {
        assert(s@.take(s@.len() as int) =~= s@);
    }
    r
}

/// Escaped text never opens a tag.
pub proof fn law_escape_has_no_tag(s: Seq<char>)
    ensures
        !escape(s).contains('<'),
    decreases s.len(),
{
    if s.len() > 0 {
        law_escape_has_no_tag(s.drop_last());
        reveal_strlit("&amp;");
        reveal_strlit("&lt;");
        let e = escape_char(s.last());
        assert forall|i: int| 0 <= i < e.len() implies e[i] != '<' by {}
        let r = escape(s);
        assert forall|i: int| 0 <= i < r.len() implies r[i] != '<' by {
            let p = escape(s.drop_last());
            if i < p.len() {
                assert(p.contains(p[i]));
            } else {
                assert(r[i] == e[i - p.len()]);
            }
        }
    }
}

/// Escaping loses no character.
pub proof fn lemma_escape_grows(s: Seq<char>)
    ensures
        escape(s).len() >= s.len(),
    decreases s.len(),
{
    if s.len() > 0 {
        lemma_escape_grows(s.drop_last());
        reveal_strlit("&amp;");
        reveal_strlit("&lt;");
    }
}

/// Escaping two texts one after the other escapes the whole.
pub proof fn law_escape_concat(a: Seq<char>, b: Seq<char>)
    ensures
        escape(a + b) == escape(a) + escape(b),
    decreases b.len(),
{
    if b.len() == 0 {
        assert(a + b =~= a);
        assert(escape(a) + escape(b) =~= escape(a));
    } else {
        law_escape_concat(a, b.drop_last());
        assert((a + b).drop_last() =~= a + b.drop_last());
        assert((a + b).last() == b.last());
        assert(escape(a + b) =~= escape(a) + escape(b));
    }
}

/// `s` without its carriage returns.
pub open spec fn without_cr(s: Seq<char>) -> Seq<char>
    decreases s.len(),
{
    if s.len() == 0 {
        seq![]
    } else if s.last() == '\r' {
        without_cr(s.drop_last())
    } else {
        without_cr(s.drop_last()).push(s.last())
    }
}

/// Drops every carriage return.
pub fn fixup(s: &str) -> (r: String)
    ensures
        r@ == without_cr(s@),
{
    let mut r = String::new();
    for c in it: s.chars()
        invariant
            it.seq() == s@,
            r@ == without_cr(s@.take(it.index() as int)),
    {
        proof {
            let i = it.index() as int;
            assert(s@.take(i + 1).drop_last() =~= s@.take(i));
        }
        if c != '\r' {
            r.push(c);
        }
    }
    proof {
        assert(s@.take(s@.len() as int) =~= s@);
    }
    r
}

/// Text that went through [`fixup`] holds no carriage return.
pub proof fn law_without_cr(s: Seq<char>)
    ensures
        !without_cr(s).contains('\r'),
    decreases s.len(),
{
    if s.len() > 0 {
        law_without_cr(s.drop_last());
        let p = without_cr(s.drop_last());
        assert forall|i: int| 0 <= i < without_cr(s).len() implies without_cr(s)[i] != '\r' by {
            if i < p.len() {
                assert(p.contains(p[i]));
            }
        }
    }
}

// ---------------------------------------------------------------------------
// Byte offsets

/// Whether byte offset `i` of the UTF-8 form of `s` lies between two characters.
pub open spec fn boundary(s: Seq<char>, i: int) -> bool {
    is_char_boundary(encode_utf8(s), i)
}

/// The characters of `s` from byte offset `from` up to byte offset `to`.
pub open spec fn byte_slice(s: Seq<char>, from: int, to: int) -> Seq<char> {
    decode_utf8(encode_utf8(s).subrange(from, to))
}

/// The number of bytes that `s` takes in UTF-8.
pub open spec fn byte_len(s: Seq<char>) -> nat {
    encode_utf8(s).len()
}

/// An offset between two characters lies inside the text, and both ends are such offsets.
pub proof fn lemma_boundary_bounds(s: Seq<char>, i: int)
    ensures
        boundary(s, 0),
        boundary(s, byte_len(s) as int),
        boundary(s, i) ==> 0 <= i <= byte_len(s),
{
    encode_utf8_valid_utf8(s);
    is_char_boundary_start_end_of_seq(encode_utf8(s));
    lemma_boundary_in_range(encode_utf8(s), i);
}

proof fn lemma_boundary_in_range(b: Seq<u8>, i: int)
    requires
        valid_utf8(b),
    ensures
        is_char_boundary(b, i) ==> 0 <= i <= b.len(),
    decreases b.len(),
{
    if i != 0 && 0 <= i <= b.len() && b.len() > 0 {
        lemma_boundary_in_range(pop_first_scalar(b), i - length_of_first_scalar(b));
    }
}

/// What is a boundary of the whole is one of a prefix that reaches it.
pub proof fn lemma_boundary_of_prefix(b: Seq<u8>, i: int, j: int)
    requires
        valid_utf8(b),
        is_char_boundary(b, i),
        is_char_boundary(b, j),
        0 <= i <= j <= b.len(),
    ensures
        valid_utf8(b.subrange(0, j)),
        is_char_boundary(b.subrange(0, j), i),
{
    valid_utf8_split(b, j);
    let p = b.subrange(0, j);
    if i == j {
        is_char_boundary_start_end_of_seq(p);
    } else {
        is_char_boundary_iff_not_is_continuation_byte(b, i);
        is_char_boundary_iff_not_is_continuation_byte(p, i);
    }
}

/// The text between two byte offsets.
pub fn slice<'a>(s: &'a str, from: usize, to: usize) -> (r: &'a str)
    requires
        from <= to,
        boundary(s@, from as int),
        boundary(s@, to as int),
    ensures
        r@ == byte_slice(s@, from as int, to as int),
{
    let ghost b = encode_utf8(s@);
    proof {
        encode_utf8_valid_utf8(s@);
        lemma_boundary_bounds(s@, from as int);
        lemma_boundary_bounds(s@, to as int);
        lemma_boundary_of_prefix(b, from as int, to as int);
    }
    let (head, _) = s.split_at(to);
    let (_, mid) = head.split_at(from);
    proof {
        assert(encode_utf8(mid@) =~= b.subrange(from as int, to as int));
        encode_utf8_decode_utf8(mid@);
    }
    mid
}

/// Adjacent slices join to the slice that spans both.
pub proof fn law_slices_join(s: Seq<char>, a: int, b: int, c: int)
    requires
        a <= b <= c,
        boundary(s, a),
        boundary(s, b),
        boundary(s, c),
    ensures
        byte_slice(s, a, b) + byte_slice(s, b, c) == byte_slice(s, a, c),
{
    let bytes = encode_utf8(s);
    encode_utf8_valid_utf8(s);
    lemma_boundary_bounds(s, a);
    lemma_boundary_bounds(s, b);
    lemma_boundary_bounds(s, c);
    lemma_boundary_of_prefix(bytes, a, c);
    lemma_boundary_of_prefix(bytes, b, c);
    let p = bytes.subrange(0, c);
    valid_utf8_split(p, a);
    let q = p.subrange(a, c);
    assert(q =~= bytes.subrange(a, c));
    // `b - a` is a boundary of the part that starts at `a`.
    if b == c {
        is_char_boundary_start_end_of_seq(q);
    } else {
        is_char_boundary_iff_not_is_continuation_byte(p, b);
        is_char_boundary_iff_not_is_continuation_byte(q, b - a);
    }
    decode_utf8_split(q, b - a);
    assert(q.subrange(0, b - a) =~= bytes.subrange(a, b));
    assert(q.subrange(b - a, q.len() as int) =~= bytes.subrange(b, c));
}

/// The slice from end to end is the text itself.
pub proof fn law_slice_whole(s: Seq<char>)
    ensures
        byte_slice(s, 0, byte_len(s) as int) == s,
{
    assert(encode_utf8(s).subrange(0, byte_len(s) as int) =~= encode_utf8(s));
    encode_utf8_decode_utf8(s);
}

// ---------------------------------------------------------------------------
// Numbers

/// The decimal digit of `d`.
pub open spec fn digit(d: nat) -> char {
    (48 + d) as char
}

/// `n` in decimal, without leading zeros.
pub open spec fn dec(n: nat) -> Seq<char>
    decreases n,
{
    if n < 10 {
        seq![digit(n)]
    } else {
        dec(n / 10).push(digit(n % 10))
    }
}

/// `n` in decimal, with a minus sign where it is negative.
pub open spec fn signed_dec(n: int) -> Seq<char> {
    if n < 0 {
        seq!['-'] + dec((-n) as nat)
    } else {
        dec(n as nat)
    }
}

/// Writes a number in decimal.
pub fn decimal(n: u128) -> (r: String)
    ensures
        r@ == dec(n as nat),
    decreases n,
{
    let mut r = String::new();
    if n >= 10 {
        r = decimal(n / 10);
    }
    let d = (48 + (n % 10) as u8) as char;
    r.push(d);
    proof {
        if n < 10 {
            assert(r@ =~= seq![digit(n as nat)]);
        }
    }
    r
}

/// Writes a signed number in decimal.
pub fn signed_decimal(n: i128) -> (r: String)
    requires
        n > i128::MIN,
    ensures
        r@ == signed_dec(n as int),
{
    if n < 0 {
        let mut r = String::new();
        r.push('-');
        let d = decimal((-n) as u128);
        r.append(d.as_str());
        proof {
            assert(r@ =~= seq!['-'] + dec((-n) as nat));
        }
        r
    } else {
        decimal(n as u128)
    }
}

/// Whether `c` is a decimal digit.
pub open spec fn is_digit(c: char) -> bool {
    '0' <= c <= '9'
}

/// The number that a row of decimal digits denotes.
pub open spec fn digits_value(s: Seq<char>) -> nat
    decreases s.len(),
{
    if s.len() == 0 {
        0
    } else {
        10 * digits_value(s.drop_last()) + (s.last() as nat - 48) as nat
    }
}

/// Whether `s` holds digits only, and at least one.
pub open spec fn all_digits(s: Seq<char>) -> bool {
    s.len() > 0 && forall|i: int| 0 <= i < s.len() ==> is_digit(#[trigger] s[i])
}

/// `s` without one plus sign at its front.
pub open spec fn without_plus(s: Seq<char>) -> Seq<char> {
    if s.len() > 0 && s[0] == '+' {
        s.drop_first()
    } else {
        s
    }
}

/// What `s` reads as: an optional plus sign, then digits, for a number below 2^32.
pub open spec fn u32_of(s: Seq<char>) -> Option<u32> {
    let t = without_plus(s);
    if all_digits(t) && digits_value(t) <= u32::MAX {
        Some(digits_value(t) as u32)
    } else {
        None
    }
}

proof fn lemma_digits_grow(s: Seq<char>, k: int)
    requires
        0 <= k <= s.len(),
        forall|i: int| 0 <= i < s.len() ==> is_digit(#[trigger] s[i]),
    ensures
        digits_value(s.take(k)) <= digits_value(s),
    decreases s.len() - k,
{
    if k < s.len() {
        lemma_digits_grow(s, k + 1);
        assert(s.take(k + 1).drop_last() =~= s.take(k));
        assert(is_digit(s[k]));
    } else {
        assert(s.take(k) =~= s);
    }
}

/// Reads a number below 2^32 in decimal.
pub fn parse_u32(s: &str) -> (r: Option<u32>)
    ensures
        r == u32_of(s@),
{
    let mut value: u64 = 0;
    let mut any = false;
    let mut start = true;
    let ghost t = without_plus(s@);
    let ghost skipped: int = s@.len() - t.len();
    for c in it: s.chars()
        invariant
            it.seq() == s@,
            t == without_plus(s@),
            skipped == s@.len() - t.len(),
            start == (it.index() == 0),
            start ==> value == 0 && !any,
            !start ==> it.index() >= skipped,
            !start ==> any == (it.index() > skipped),
            !start ==> value == digits_value(t.take(it.index() - skipped)),
            value <= u32::MAX,
            forall|i: int| 0 <= i < it.index() - skipped ==> is_digit(#[trigger] t[i]),
    {
        let ghost i = it.index() as int;
        if c >= '0' && c <= '9' {
            let d: u64 = c as u64 - 48;
            proof {
                assert(c == t[i - skipped]);
                assert(t.take(i - skipped + 1).drop_last() =~= t.take(i - skipped));
                assert(t.take(i - skipped + 1).last() == c);
                if start {
                    assert(t.take(0).len() == 0);
                    assert(digits_value(t.take(0)) == 0);
                }
                assert(digits_value(t.take(i - skipped + 1)) == 10 * value + d);
            }
            value = value * 10 + d;
            any = true;
            if value > 0xffff_ffff {
                proof {
                    if all_digits(t) {
                        lemma_digits_grow(t, i - skipped + 1);
                    }
                }
                return None;
            }
        } else if c == '+' && start {
            proof {
                assert(t.take(0).len() == 0);
            }
        } else {
            proof {
                assert(c == t[i - skipped]);
                assert(!is_digit(t[i - skipped]));
            }
            return None;
        }
        start = false;
    }
    proof {
        if !start {
            assert(t.take(t.len() as int) =~= t);
        }
    }
    if any {
        Some(value as u32)
    } else {
        None
    }
}

} // verus!
