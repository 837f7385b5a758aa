use mozsearch_format::code::{format_code, format_tokens, FormattedLine};
use mozsearch_format::json::{encode_document, JsonRecord};
use mozsearch_format::source::{
    check_line_count, check_tokens, AnalysisSource, Jump, JumpTable, Location, SourceRange, Token,
    TokenKind, WithLocation,
};
use mozsearch_format::symbols::{symbol_list, symbol_menu, token_style};

fn token(start: usize, end: usize, kind: TokenKind) -> Token {
    Token { start, end, kind }
}

fn plain(s: &str) -> String {
    s.to_owned()
}

fn marked(s: &str) -> String {
    format!("[{}]", s)
}

fn record(syntax: &[&str], pretty: &str, sym: &[&str], no_crossref: bool, range: (u32, u32)) -> AnalysisSource {
    AnalysisSource {
        syntax: syntax.iter().map(|s| s.to_string()).collect(),
        pretty: pretty.to_owned(),
        sym: sym.iter().map(|s| s.to_string()).collect(),
        no_crossref,
        nesting_range: SourceRange { start_lineno: range.0, end_lineno: range.1 },
    }
}

fn at(lineno: u32, col_start: u32, data: Vec<AnalysisSource>) -> WithLocation<Vec<AnalysisSource>> {
    WithLocation { data, loc: Location { lineno, col_start } }
}

fn jump(path: &str, lineno: u64, pretty: &str) -> Jump {
    Jump { path: path.to_owned(), lineno, pretty: pretty.to_owned() }
}

fn texts(lines: &Vec<FormattedLine>) -> Vec<&str> {
    lines.iter().map(|l| l.line.as_str()).collect()
}

#[test]
fn plain_words_and_punctuation_are_escaped() {
    let input = "a<b\nc&\r\n";
    let tokens = vec![
        token(0, 1, TokenKind::Identifier(None)),
        token(1, 2, TokenKind::Punctuation),
        token(2, 3, TokenKind::Identifier(None)),
        token(3, 4, TokenKind::Newline),
        token(4, 6, TokenKind::Punctuation),
        token(7, 8, TokenKind::Newline),
    ];
    assert!(check_tokens(input, &tokens));
    let (lines, json) = format_code(&JumpTable::new(), "f", input, &tokens, &[], false, &plain);
    assert_eq!(texts(&lines), vec!["a&lt;b", "c&amp;"]);
    assert_eq!(json, "[]");
}

#[test]
fn what_precedes_a_line_end_is_left_as_it_stands() {
    let input = "a<b\n";
    let tokens = vec![token(3, 4, TokenKind::Newline)];
    let (lines, _) = format_code(&JumpTable::new(), "f", input, &tokens, &[], false, &plain);
    assert_eq!(texts(&lines), vec!["a<b"]);
}

#[test]
fn a_last_line_without_line_end_is_kept() {
    let tokens = vec![token(1, 2, TokenKind::Newline)];
    let (lines, _) = format_code(&JumpTable::new(), "f", "x\ny<", &tokens, &[], false, &plain);
    assert_eq!(texts(&lines), vec!["x", "y&lt;"]);
    let (none, _) = format_code(&JumpTable::new(), "f", "", &[], &[], false, &plain);
    assert_eq!(none.len(), 0);
}

#[test]
fn links_are_marked_in_comments_strings_and_plain_text() {
    let input = "p \"s\" /*c<*/ /r/";
    let tokens = vec![
        token(0, 2, TokenKind::PlainText),
        token(2, 5, TokenKind::StringLiteral),
        token(6, 12, TokenKind::Comment),
        token(13, 16, TokenKind::RegularExpressionLiteral),
    ];
    let (lines, _) = format_code(&JumpTable::new(), "f", input, &tokens, &[], false, &marked);
    assert_eq!(
        texts(&lines),
        vec![concat(&[
            "[p ]",
            "<span class=\"syn_string\" >[\"s\"]</span>",
            " <span class=\"syn_comment\" >[/*c&lt;*/]</span>",
            " <span class=\"syn_regex\" >/r/</span>",
        ])]
    );
}

fn concat(parts: &[&str]) -> String {
    parts.join("")
}

#[test]
fn styles_follow_the_kind_of_token() {
    assert_eq!(token_style(&TokenKind::TagName, None), "class=\"syn_tag\" ");
    assert_eq!(token_style(&TokenKind::TagAttrName, None), "class=\"syn_tag\" ");
    assert_eq!(token_style(&TokenKind::EndTagName, None), "class=\"syn_tag\" ");
    assert_eq!(token_style(&TokenKind::Punctuation, None), "");
    assert_eq!(
        token_style(&TokenKind::Identifier(Some("class=\"syn_reserved\" ".to_owned())), None),
        "class=\"syn_reserved\" "
    );
    assert_eq!(token_style(&TokenKind::Identifier(None), None), "");
    let sources = vec![
        record(&["def", "function"], "", &[], false, (0, 0)),
        record(&["type", "decl", "idl", "use"], "", &[], false, (0, 0)),
    ];
    assert_eq!(
        token_style(&TokenKind::Identifier(None), Some(&sources)),
        "class=\"syn_def syn_type syn_def syn_def\" "
    );
    let unstyled = vec![record(&["use"], "", &[], false, (0, 0))];
    assert_eq!(token_style(&TokenKind::Identifier(None), Some(&unstyled)), "");
}

#[test]
fn annotated_words_carry_their_symbols_and_menus() {
    let input = "foo bar\nfoo";
    let tokens = vec![
        token(0, 3, TokenKind::Identifier(None)),
        token(4, 7, TokenKind::Identifier(None)),
        token(7, 8, TokenKind::Newline),
        token(8, 11, TokenKind::Identifier(None)),
    ];
    let analysis = vec![
        at(1, 0, vec![record(&["def"], "function foo", &["F1", "F2"], false, (0, 0))]),
        at(1, 4, vec![record(&["use"], "local bar", &["B"], true, (0, 0))]),
        at(2, 0, vec![record(&["use"], "function foo", &["F1"], false, (0, 0))]),
    ];
    let mut jumps = JumpTable::new();
    jumps.insert("F1".to_owned(), jump("f", 1, "foo here"));
    jumps.insert("F2".to_owned(), jump("g", 7, "foo there"));
    let (lines, json) = format_code(&jumps, "f", input, &tokens, &analysis, false, &plain);
    assert_eq!(
        texts(&lines),
        vec![
            "<span class=\"syn_def\" data-symbols=\"F1,F2\" data-i=\"0\" >foo</span> <span data-symbols=\"B\" >bar</span>",
            "<span data-symbols=\"F1\" data-i=\"1\" >foo</span>",
        ]
    );
    assert_eq!(
        json,
        concat(&[
            "[[[{\"pretty\":\"foo there\",\"sym\":\"F2\"}],",
            "[{\"pretty\":\"function foo\",\"sym\":\"F1,F2\"}]],",
            "[[{\"pretty\":\"foo here\",\"sym\":\"F1\"}],",
            "[{\"pretty\":\"function foo\",\"sym\":\"F1\"}]]]",
        ])
    );
}

#[test]
fn records_of_earlier_places_are_passed_over() {
    let input = "a\nb c";
    let tokens = vec![
        token(0, 1, TokenKind::Identifier(None)),
        token(1, 2, TokenKind::Newline),
        token(2, 3, TokenKind::Identifier(None)),
        token(4, 5, TokenKind::Identifier(None)),
    ];
    let analysis = vec![
        at(1, 5, vec![record(&[], "", &["lost"], true, (0, 0))]),
        at(2, 1, vec![record(&[], "", &["lost"], true, (0, 0))]),
        at(2, 2, vec![record(&[], "", &["C"], true, (0, 0))]),
        at(9, 0, vec![record(&[], "", &["later"], true, (0, 0))]),
    ];
    let (lines, _) = format_code(&JumpTable::new(), "f", input, &tokens, &analysis, false, &plain);
    assert_eq!(texts(&lines), vec!["a", "b <span data-symbols=\"C\" >c</span>"]);
}

#[test]
fn diffable_symbol_data_is_indented() {
    let document = vec![vec![
        vec![],
        vec![vec![("pretty".to_owned(), "p\"q".to_owned()), ("sym".to_owned(), "S".to_owned())]],
    ]];
    assert_eq!(
        encode_document(&document, false),
        "[[[],[{\"pretty\":\"p\\\"q\",\"sym\":\"S\"}]]]"
    );
    assert_eq!(
        encode_document(&document, true),
        concat(&[
            "[\n",
            "  [\n",
            "    [],\n",
            "    [\n",
            "      {\n",
            "        \"pretty\": \"p\\\"q\",\n",
            "        \"sym\": \"S\"\n",
            "      }\n",
            "    ]\n",
            "  ]\n",
            "]",
        ])
    );
    let (_, json) = format_code(&JumpTable::new(), "f", "", &[], &[], true, &plain);
    assert_eq!(json, "[]");
}

#[test]
fn a_menu_offers_each_place_once_and_not_its_own_line() {
    let mut jumps = JumpTable::new();
    jumps.insert("A".to_owned(), jump("x", 3, "first"));
    jumps.insert("B".to_owned(), jump("x", 3, "second"));
    jumps.insert("C".to_owned(), jump("f", 12, "own line"));
    jumps.insert("D".to_owned(), jump("f", 13, "other line"));
    let sources = vec![
        record(&[], "one", &["A", "D"], false, (0, 0)),
        record(&[], "hidden", &["A"], true, (0, 0)),
        record(&[], "two", &["B", "C", "unknown"], false, (0, 0)),
    ];
    assert_eq!(symbol_list(&sources), "A,D,A,B,C,unknown");
    let menu = symbol_menu(&jumps, "f", 12, &sources);
    let entry = |pretty: &str, sym: &str| {
        vec![("pretty".to_owned(), pretty.to_owned()), ("sym".to_owned(), sym.to_owned())]
    };
    assert_eq!(
        menu,
        vec![
            vec![entry("second", "B"), entry("other line", "D")],
            vec![entry("one", "A,D"), entry("two", "B,C,unknown")],
        ]
    );
    let hidden = vec![record(&[], "", &["A"], true, (0, 0))];
    assert_eq!(symbol_menu(&jumps, "f", 12, &hidden), vec![Vec::<JsonRecord>::new(), Vec::new()]);
}

fn lines_of_words(n: usize) -> (String, Vec<Token>) {
    let mut input = String::new();
    let mut tokens = Vec::new();
    for i in 0..n {
        tokens.push(token(2 * i, 2 * i + 1, TokenKind::Identifier(None)));
        tokens.push(token(2 * i + 1, 2 * i + 2, TokenKind::Newline));
        input.push_str("x\n");
    }
    (input, tokens)
}

#[test]
fn nesting_opens_on_its_first_line_and_closes_before_its_last() {
    let (input, tokens) = lines_of_words(6);
    let analysis = vec![
        at(1, 0, vec![record(&[], "", &["N"], true, (1, 6))]),
        at(2, 0, vec![record(&[], "", &["M"], true, (2, 4))]),
        at(3, 0, vec![record(&[], "", &["S"], true, (3, 4))]),
        at(4, 0, vec![record(&[], "", &["E"], true, (3, 9))]),
    ];
    let (lines, _) = format_code(&JumpTable::new(), "f", &input, &tokens, &analysis, false, &plain);
    let nests: Vec<(bool, u32)> = lines.iter().map(|l| (l.starts_nest, l.pop_nest_count)).collect();
    assert_eq!(
        nests,
        vec![(true, 0), (true, 0), (false, 1), (false, 0), (false, 1), (false, 0)]
    );
}

fn nests(input: &str, tokens: &[Token], analysis: &[WithLocation<Vec<AnalysisSource>>]) -> Vec<(bool, u32)> {
    let (lines, _) = format_code(&JumpTable::new(), "a.cpp", input, tokens, analysis, false, &plain);
    lines.iter().map(|l| (l.starts_nest, l.pop_nest_count)).collect()
}

#[test]
fn two_records_of_one_word_open_one_range() {
    let (input, tokens) = lines_of_words(5);
    let analysis = vec![at(
        1,
        0,
        vec![record(&[], "", &["N"], true, (1, 5)), record(&[], "", &["M"], true, (2, 4))],
    )];
    assert_eq!(
        nests(&input, &tokens, &analysis),
        vec![(true, 0), (false, 0), (false, 0), (false, 1), (false, 0)]
    );
}

#[test]
fn two_words_of_one_line_open_one_range() {
    let input = "f g {\nx\ny\n}";
    let tokens = vec![
        token(0, 1, TokenKind::Identifier(None)),
        token(2, 3, TokenKind::Identifier(None)),
        token(4, 5, TokenKind::Punctuation),
        token(5, 6, TokenKind::Newline),
        token(6, 7, TokenKind::Identifier(None)),
        token(7, 8, TokenKind::Newline),
        token(8, 9, TokenKind::Identifier(None)),
        token(9, 10, TokenKind::Newline),
        token(10, 11, TokenKind::Punctuation),
    ];
    let analysis = vec![
        at(1, 0, vec![record(&[], "", &[], true, (1, 4))]),
        at(1, 2, vec![record(&[], "", &[], true, (2, 4))]),
    ];
    assert_eq!(
        nests(input, &tokens, &analysis),
        vec![(true, 0), (false, 0), (false, 1), (false, 0)]
    );
}

#[test]
fn a_range_that_ends_on_its_line_or_the_next_does_not_open() {
    let input = "f {}\ng";
    let tokens = vec![
        token(0, 1, TokenKind::Identifier(None)),
        token(2, 4, TokenKind::Punctuation),
        token(4, 5, TokenKind::Newline),
        token(5, 6, TokenKind::Identifier(None)),
    ];
    for end in [0, 1, 2] {
        let analysis = vec![at(1, 0, vec![record(&[], "", &[], true, (1, end))])];
        assert_eq!(nests(input, &tokens, &analysis), vec![(false, 0), (false, 0)]);
    }
    let analysis = vec![at(1, 0, vec![record(&[], "", &[], true, (1, 3))])];
    assert_eq!(nests(input, &tokens, &analysis), vec![(true, 0), (false, 1)]);
}

#[test]
fn a_range_that_started_on_an_earlier_line_does_not_open() {
    let (input, tokens) = lines_of_words(4);
    let analysis = vec![at(2, 0, vec![record(&[], "", &["N"], true, (1, 9))])];
    assert_eq!(nests(&input, &tokens, &analysis), vec![(false, 0); 4]);
    let later = vec![at(2, 0, vec![record(&[], "", &["N"], true, (3, 4))])];
    assert_eq!(
        nests(&input, &tokens, &later),
        vec![(false, 0), (true, 0), (false, 1), (false, 0)]
    );
}

#[test]
fn a_range_that_starts_where_the_open_one_starts_does_not_open() {
    let (input, tokens) = lines_of_words(5);
    let analysis = vec![
        at(1, 0, vec![record(&[], "", &["N"], true, (2, 5))]),
        at(2, 0, vec![record(&[], "", &["M"], true, (2, 5))]),
    ];
    assert_eq!(
        nests(&input, &tokens, &analysis),
        vec![(true, 0), (false, 0), (false, 0), (false, 1), (false, 0)]
    );
}

#[test]
fn every_range_that_ends_with_the_text_is_closed() {
    let (input, tokens) = lines_of_words(6);
    let analysis = vec![
        at(1, 0, vec![record(&[], "", &["A"], true, (1, 7))]),
        at(2, 0, vec![record(&[], "", &["B"], true, (2, 6))]),
        at(4, 0, vec![record(&[], "", &["C"], true, (4, 7))]),
    ];
    let mut depth = 0;
    for (starts, pops) in nests(&input, &tokens, &analysis) {
        depth += starts as i64 - pops as i64;
        assert!(depth >= 0);
    }
    assert_eq!(depth, 0);
}

#[test]
fn a_range_that_is_open_at_the_end_closes_with_the_last_line() {
    let input = "x";
    let tokens = vec![token(0, 1, TokenKind::Identifier(None))];
    let analysis = vec![at(1, 0, vec![record(&[], "", &["N"], true, (1, 9))])];
    let (lines, _) = format_tokens(&JumpTable::new(), "f", input, &tokens, &analysis, &plain);
    assert_eq!(lines.len(), 1);
    assert!(lines[0].starts_nest);
    assert_eq!(lines[0].pop_nest_count, 1);
}

#[test]
fn every_character_is_kept_and_no_carriage_return() {
    let input = "le été\r\n{ x }\r\nend";
    let newline = |start: usize| token(start, start + 1, TokenKind::Newline);
    let first = input.find('\n').unwrap();
    let second = first + 1 + input[first + 1..].find('\n').unwrap();
    let tokens = vec![newline(first), newline(second)];
    let (lines, _) = format_code(&JumpTable::new(), "f", input, &tokens, &[], false, &plain);
    assert_eq!(texts(&lines), vec!["le été", "{ x }", "end"]);
}

#[test]
fn tokens_that_do_not_fit_are_recognized() {
    assert!(check_tokens("añb", &[token(0, 1, TokenKind::PlainText), token(1, 3, TokenKind::PlainText)]));
    assert!(!check_tokens("añb", &[token(0, 2, TokenKind::PlainText)]));
    assert!(!check_tokens("ab", &[token(1, 0, TokenKind::PlainText)]));
    assert!(!check_tokens("ab", &[token(0, 2, TokenKind::PlainText), token(1, 2, TokenKind::PlainText)]));
    assert!(!check_tokens("ab", &[token(0, 3, TokenKind::PlainText)]));
    assert!(check_line_count(&[token(0, 1, TokenKind::Newline)]));
}

#[test]
fn jumps_are_found_by_symbol() {
    let mut jumps = JumpTable::new();
    assert_eq!(jumps.get("A"), None);
    jumps.insert("A".to_owned(), jump("x", 1, "p"));
    jumps.insert("A".to_owned(), jump("y", 2, "q"));
    assert_eq!(jumps.get("A"), Some(&jump("y", 2, "q")));
    assert_eq!(jumps.get("B"), None);
}
