use mozsearch_format::split::{
    contains_char, cut, join_strings, join_strs, read_lines, split_at_each, split_first,
    split_lines,
};
use mozsearch_format::text::{
    decimal, entity_replace, fixup, parse_u32, same_text, signed_decimal, slice,
};

#[test]
fn escapes_ampersand_and_less_than_only() {
    assert_eq!(entity_replace("a < b && c > d \"e\""), "a &lt; b &amp;&amp; c > d \"e\"");
    assert_eq!(entity_replace("&lt;"), "&amp;lt;");
    assert_eq!(entity_replace(""), "");
    assert_eq!(entity_replace("é<"), "é&lt;");
}

#[test]
fn escaped_text_opens_no_tag() {
    assert!(!entity_replace("<<a>&<").contains('<'));
}

#[test]
fn escaping_goes_piece_by_piece() {
    let whole = entity_replace("x<y&z");
    let mut parts = entity_replace("x<");
    parts.push_str(&entity_replace("y&z"));
    assert_eq!(whole, parts);
}

#[test]
fn fixup_drops_carriage_returns() {
    assert_eq!(fixup("a\r\nb\rc"), "a\nbc");
    assert_eq!(fixup("abc"), "abc");
}

#[test]
fn slices_by_byte_offsets() {
    assert_eq!(slice("añb", 0, 1), "a");
    assert_eq!(slice("añb", 1, 3), "ñ");
    assert_eq!(slice("añb", 3, 4), "b");
    assert_eq!(slice("añb", 0, 4), "añb");
    assert_eq!(slice("añb", 4, 4), "");
}

#[test]
fn writes_decimals() {
    assert_eq!(decimal(0), "0");
    assert_eq!(decimal(9), "9");
    assert_eq!(decimal(10), "10");
    assert_eq!(decimal(340282366920938463463374607431768211455), "340282366920938463463374607431768211455");
    assert_eq!(signed_decimal(-12), "-12");
    assert_eq!(signed_decimal(0), "0");
    assert_eq!(signed_decimal(305), "305");
}

#[test]
fn reads_numbers_like_the_standard_parser() {
    for s in [
        "0", "7", "+7", "007", "4294967295", "4294967296", "99999999999", "", "+", "-1", " 1", "1 ",
        "1a", "++1", "٣",
    ] {
        assert_eq!(parse_u32(s), s.parse::<u32>().ok(), "{}", s);
    }
}

#[test]
fn compares_texts() {
    assert!(same_text("ab", "ab"));
    assert!(!same_text("ab", "abc"));
    assert!(!same_text("ab", "ac"));
    assert!(same_text("", ""));
}

#[test]
fn cuts_at_the_first_separator() {
    assert_eq!(cut("a:b:c", ':'), Some(("a", "b:c")));
    assert_eq!(cut("abc", ':'), None);
    assert_eq!(cut(":", ':'), Some(("", "")));
    assert!(contains_char("a-b", '-'));
    assert!(!contains_char("a+b", '-'));
}

#[test]
fn splits_like_the_standard_library() {
    for s in ["", ":", "a", "a:b", "::a:", "é:ü:x:y:z"] {
        assert_eq!(split_at_each(s, ':'), s.split(':').collect::<Vec<_>>(), "{}", s);
        for n in 0..6 {
            assert_eq!(split_first(s, n, ':'), s.splitn(n, ':').collect::<Vec<_>>(), "{} {}", s, n);
        }
    }
}

#[test]
fn joining_undoes_splitting() {
    let s = "x,,y,z,";
    assert_eq!(join_strs(&split_at_each(s, ','), ","), s);
    assert_eq!(join_strings(&vec!["a".to_owned(), "b".to_owned()], ", "), "a, b");
    assert_eq!(join_strings(&Vec::new(), ","), "");
}

#[test]
fn a_final_line_feed_starts_no_line() {
    assert_eq!(split_lines("a\nb\n"), vec!["a", "b"]);
    assert_eq!(split_lines("a\nb"), vec!["a", "b"]);
    assert_eq!(split_lines("a\n\n"), vec!["a", ""]);
    assert_eq!(split_lines(""), Vec::<&str>::new());
    assert_eq!(split_lines("\n"), vec![""]);
    assert_eq!(split_lines("a\r\nb"), vec!["a\r", "b"]);
}

#[test]
fn reads_lines_like_the_standard_library() {
    for s in ["", "\n", "a", "a\r\nb\r", "a\n\nb\n", "a\r\r\nb\r\n", "\r\n\r\n"] {
        let expected: Vec<String> = s.lines().map(|l| l.to_owned()).collect();
        assert_eq!(read_lines(s), expected, "{:?}", s);
    }
}
