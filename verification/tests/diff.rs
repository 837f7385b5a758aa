use mozsearch_format::code::FormattedLine;
use mozsearch_format::diff::{
    check_diff, check_rows, diff_arguments, diff_panel, diff_step, format_diff, parse_diff,
    render_diff, DiffData, DiffRow, DiffSource, DiffStep, ParsedDiff,
};
use mozsearch_format::file::FormattedCode;
use mozsearch_format::page::{Markup, Page, PageOptions, PanelItem, PanelSection, Step, TreeConfig};
use mozsearch_format::revision::{format_path, PathSource};
use mozsearch_format::source::{Token, TokenKind};

fn row(lineno: Option<usize>, blame: Option<&str>, origin: &str, content: &str) -> DiffRow {
    DiffRow {
        lineno,
        blame: blame.map(|s| s.to_owned()),
        origin: origin.to_owned(),
        content: content.to_owned(),
    }
}

fn strings(v: &[&str]) -> Vec<String> {
    v.iter().map(|s| s.to_string()).collect()
}

#[test]
fn git_is_asked_for_the_whole_file() {
    assert_eq!(
        diff_arguments("abc", "d/f"),
        strings(&[
            "diff-tree", "-p", "--cc", "--patience", "--full-index", "--no-prefix", "-U100000",
            "abc", "--", "d/f",
        ])
    );
}

#[test]
fn a_diff_against_one_parent_is_read() {
    let difftxt = "abc\ndiff --git f f\n--- f\n+++ f\n@@ -1,3 +1,3 @@\n one\n-two\n+2\n\\ No newline\n three\n";
    let blames = vec![Some(strings(&["r1:%:1:", "r2:%:2:", "r3:%:3:"]))];
    assert!(check_diff(&blames, 1, difftxt));
    assert_eq!(
        parse_diff(&blames, 1, difftxt),
        Ok(ParsedDiff {
            rows: vec![
                row(Some(1), Some("r1:%:1:"), " ", "one"),
                row(None, Some("r2:%:2:"), "-", "two"),
                row(Some(2), None, "+", "2"),
                row(Some(3), Some("r3:%:3:"), " ", "three"),
            ],
            new_text: "one\n2\nthree\n".to_owned(),
        })
    );
}

#[test]
fn a_diff_against_two_parents_takes_the_blame_of_the_last_that_has_the_line() {
    let difftxt = "@@@ -1 -1 +1 @@@\n  both\n- first\n -second\n--all\n+ new to first\n +new to second\n++new\n";
    let blames = vec![
        Some(strings(&["a1:%:1:", "a2:%:2:", "a3:%:3:", "a4:%:4:"])),
        Some(strings(&["b1:%:1:", "b2:%:2:", "b3:%:3:", "b4:%:4:"])),
    ];
    assert_eq!(
        parse_diff(&blames, 2, difftxt),
        Ok(ParsedDiff {
            rows: vec![
                row(Some(1), Some("b1:%:1:"), "  ", "both"),
                row(None, Some("a2:%:2:"), "- ", "first"),
                row(None, Some("b2:%:2:"), " -", "second"),
                row(None, Some("b3:%:3:"), "--", "all"),
                row(Some(2), Some("b4:%:4:"), "+ ", "new to first"),
                row(Some(3), Some("a4:%:4:"), " +", "new to second"),
                row(Some(4), None, "++", "new"),
            ],
            new_text: "both\nnew to first\nnew to second\nnew\n".to_owned(),
        })
    );
}

#[test]
fn parents_without_marks_are_left_out() {
    let difftxt = "@@ -1 +1 @@\n a\n-b\n";
    let blames = vec![
        Some(strings(&["a1:%:1:", "a2:%:2:"])),
        Some(strings(&["b1:%:1:"])),
    ];
    assert!(check_diff(&blames, 1, difftxt));
    assert_eq!(
        parse_diff(&blames, 1, difftxt).unwrap().rows,
        vec![row(Some(1), Some("a1:%:1:"), " ", "a"), row(None, Some("a2:%:2:"), "-", "b")]
    );
    assert_eq!(
        parse_diff(&blames, 0, difftxt).unwrap().rows,
        vec![row(Some(1), None, "", " a"), row(Some(2), None, "", "-b")]
    );
    assert!(!check_diff(&blames, 3, difftxt));
}

#[test]
fn a_new_file_needs_no_blame_of_its_parent() {
    let difftxt = "@@ -0,0 +1,2 @@\n+a\n+b\n";
    let parsed = parse_diff(&vec![None], 1, difftxt).unwrap();
    assert_eq!(parsed.rows, vec![row(Some(1), None, "+", "a"), row(Some(2), None, "+", "b")]);
    assert_eq!(parsed.new_text, "a\nb\n");
}

#[test]
fn a_line_of_a_parent_without_blame_is_an_error() {
    assert_eq!(
        parse_diff(&vec![None], 1, "@@ -1 +0,0 @@\n-a\n"),
        Err("expected blame for '-' line, none found")
    );
    // Found before the marks turn out to be too short.
    assert_eq!(
        parse_diff(&vec![None, None], 2, "@@@ @@@\né\n"),
        Err("expected blame for '-' line, none found")
    );
}

#[test]
fn diffs_that_do_not_fit_are_recognized() {
    let one = vec![Some(strings(&["r:%:1:"]))];
    assert!(check_diff(&one, 1, "@@ @@\n a\n"));
    // The blame ends before the lines do.
    assert!(!check_diff(&one, 1, "@@ @@\n a\n b\n"));
    // The marks end inside of a character, or behind the line.
    assert!(!check_diff(&one, 1, "@@ @@\né\n"));
    let two = vec![Some(strings(&["r:%:1:"])), Some(strings(&["s:%:1:"]))];
    assert!(!check_diff(&two, 2, "@@@ @@@\n+\n"));
    assert!(!check_diff(&two, 2, "@@@ @@@\né\n"));
}

#[test]
fn without_a_hunk_header_every_line_is_content() {
    // A last line that starts with `@` is no header.
    assert!(parse_diff(&vec![None], 1, "+a\n@").is_err());
    let rows = parse_diff(&Vec::new(), 0, "Binary files differ\n\n\\x\n").unwrap().rows;
    assert_eq!(rows, vec![row(Some(1), None, "", "Binary files differ")]);
}

#[test]
fn rows_need_blame_lines() {
    assert!(check_rows(&vec![row(None, Some("r:%:1"), "-", ""), row(Some(1), None, "+", "")]));
    assert!(!check_rows(&vec![row(None, Some("r:%"), "-", "")]));
}

fn tree() -> TreeConfig {
    TreeConfig {
        hg_root: Some("https://hg".to_owned()),
        github_repo: None,
        git_blame_path: None,
    }
}

fn panel_item(title: &str, link: &str, update: &'static str, key: Option<char>) -> PanelItem {
    PanelItem {
        title: title.to_owned(),
        link: link.to_owned(),
        update_link_lineno: update,
        accel_key: key,
    }
}

#[test]
fn the_panel_of_a_diff_leads_to_changeset_file_and_log() {
    let mut items = vec![
        panel_item("Show changeset", "/t/commit/r", "", None),
        panel_item("Show file without diff", "/t/rev/r/d/f", "#{}", None),
        panel_item("Go to latest version", "/t/source/d/f", "#{}", None),
        panel_item("Log", "https://hg/log/tip/d/f", "", Some('L')),
    ];
    let mut config = tree();
    assert_eq!(diff_panel(&config, "t", "r", "d/f")[0].items, items);
    config.hg_root = None;
    items.pop();
    assert_eq!(diff_panel(&config, "t", "r", "d/f")[0].items, items);
}

fn code(lines: &[&str]) -> FormattedCode {
    FormattedCode {
        lines: lines
            .iter()
            .map(|l| FormattedLine { line: l.to_string(), starts_nest: false, pop_nest_count: 0 })
            .collect(),
        analysis_json: "[]".to_owned(),
    }
}

fn line_step(cells: [String; 3]) -> Step {
    Step::Lines(Markup::List(vec![
        Markup::Line("<div role=\"row\" class=\"source-line-with-number\">".to_owned()),
        Markup::Indent(cells.into_iter().map(Markup::Line).collect()),
        Markup::Line("</div>".to_owned()),
    ]))
}

fn strip(color: u32, data: &str) -> String {
    format!(
        "<div role=\"cell\" class=\"blame-container\"><div class=\"blame-strip c{}\" data-blame=\"{}\" role=\"button\" aria-label=\"blame\" aria-expanded=\"false\"></div></div>",
        color, data
    )
}

#[test]
fn a_diff_is_written_in_full() {
    let config = tree();
    let parsed = ParsedDiff {
        rows: vec![
            row(Some(1), Some("r1:%:1:x"), " ", "a<"),
            row(None, Some("r2:g:2:x"), "-", "b<"),
            row(Some(2), None, "+", "c<"),
            row(Some(3), Some("r2:%:3:x"), " ", "d<"),
        ],
        new_text: "a<\nc<\nd<\n".to_owned(),
    };
    let source = DiffSource::Ready(DiffData {
        tree: &config,
        parsed: Ok(parsed),
        code: Some(code(&["A", "C"])),
        header: Ok(("H".to_owned(), "rest".to_owned())),
    });
    let page = format_diff("t", "r", "d/f", source, true);
    let number = |n: u32| format!("<div id=\"l{}\" role=\"cell\" class=\"line-number\">{}</div>", n, n);
    let cell = |class: &str, id: &str, text: &str| {
        format!("<code role=\"cell\" class=\"source-line{}\" id=\"line-{}\">{}\n</code>", class, id, text)
    };
    let single = |s: &str| Step::Lines(Markup::List(vec![Markup::Line(s.to_owned())]));
    assert_eq!(
        page,
        Page {
            options: Some(PageOptions {
                title: "f - mozsearch".to_owned(),
                tree_name: "t".to_owned(),
                include_date: true,
                revision: Some(("r".to_owned(), "H".to_owned())),
                extra_content_classes: "source-listing diff",
            }),
            steps: vec![
                Step::Header,
                Step::Panel(diff_panel(&config, "t", "r", "d/f")),
                single("<div id=\"file\" class=\"file\" role=\"table\">"),
                line_step([strip(1, "r1#%#1"), number(1), cell("", "1", "  A")]),
                line_step([
                    strip(2, "r2#g#2"),
                    "<div role=\"cell\" class=\"line-number\">&nbsp;</div>".to_owned(),
                    cell(" minus-line", "-1", "- b&lt;"),
                ]),
                line_step([
                    "<div role=\"cell\" class=\"blame-container\"><div class=\"blame-strip\" role=\"aria-hidden\"></div></div>".to_owned(),
                    number(2),
                    cell(" plus-line", "2", "+ C"),
                ]),
                line_step([strip(2, "r2#%#3"), number(3), cell("", "3", "  d&lt;")]),
                single("</div>"),
                Step::Footer("d/f".to_owned()),
            ],
            error: None,
        }
    );
}

#[test]
fn a_diff_fails_for_each_of_its_reasons() {
    let failed = |e: &'static str| Page { options: None, steps: Vec::new(), error: Some(e) };
    let show = |source: DiffSource| format_diff("t", "r", "f", source, false);
    assert_eq!(show(DiffSource::NoTree), failed("Invalid tree"));
    assert_eq!(show(DiffSource::NoPath("no path")), failed("no path"));
    assert_eq!(show(DiffSource::NotRun), failed("Diff failed 1"));
    assert_eq!(show(DiffSource::RunFailed), failed("Diff failed 2"));
    assert_eq!(show(DiffSource::Unchanged(PathSource::NoFile("gone"))), failed("gone"));
    assert_eq!(show(DiffSource::NoGit("no git")), failed("no git"));
    assert_eq!(show(DiffSource::NoRevision), failed("Bad revision"));
    assert_eq!(show(DiffSource::NoBlame), failed("Unable to find blame"));
    assert_eq!(show(DiffSource::BadBlame), failed("Blame is not a blob"));
    assert_eq!(show(DiffSource::BadBlameTree), failed("Bad revision"));
    let config = tree();
    let empty = || ParsedDiff { rows: Vec::new(), new_text: String::new() };
    let ready = |parsed, code, header| {
        show(DiffSource::Ready(DiffData { tree: &config, parsed, code, header }))
    };
    assert_eq!(ready(Err("no blame"), None, Err("no header")), failed("no blame"));
    assert_eq!(ready(Ok(empty()), None, Err("no header")), failed("Cannot diff binary file"));
    assert_eq!(ready(Ok(empty()), Some(code(&[])), Err("no header")), failed("no header"));
}

#[test]
fn section_of_the_diff_panel_is_named() {
    let sections: Vec<PanelSection> = diff_panel(&tree(), "t", "r", "f");
    assert_eq!(sections.len(), 1);
    assert_eq!(sections[0].name, "Revision control");
}

#[test]
fn a_diff_without_change_is_shown_as_the_file() {
    for diffable in [false, true] {
        let source = || PathSource::NoFile("File not found");
        assert_eq!(
            format_diff("t", "r", "f", DiffSource::Unchanged(source()), diffable),
            format_path("t", "f", source(), diffable)
        );
    }
}

#[test]
fn an_empty_diff_shows_the_file() {
    assert_eq!(diff_step(""), DiffStep::ShowFile);
    assert_eq!(diff_step("\n"), DiffStep::ShowDiff);
}

fn line_feeds(text: &str) -> Option<Vec<Token>> {
    Some(
        text.match_indices('\n')
            .map(|(i, _)| Token { start: i, end: i + 1, kind: TokenKind::Newline })
            .collect(),
    )
}

#[test]
fn the_text_of_a_diff_is_read_formatted_and_shown() {
    let config = tree();
    let difftxt = "@@ -1,2 +1,2 @@\n one\n-two\n+2\n";
    let blames = vec![Some(strings(&["r1:%:1:", "r2:%:2:"]))];
    let linkify = |s: &str| s.to_owned();
    let header = || Ok(("H".to_owned(), "rest".to_owned()));
    let page = render_diff(
        &config, "t", "r", "d/f", &blames, 1, difftxt, header(), false, &line_feeds, &linkify,
    );
    let source = DiffSource::Ready(DiffData {
        tree: &config,
        parsed: parse_diff(&blames, 1, difftxt),
        code: Some(code(&["one", "2"])),
        header: header(),
    });
    assert_eq!(page, format_diff("t", "r", "d/f", source, false));
    assert_eq!(page.steps.len(), 3 + 3 + 2);
}

#[test]
fn a_diff_that_cannot_be_rendered_is_an_error() {
    let config = tree();
    let failed = |e: &'static str| Page { options: None, steps: Vec::new(), error: Some(e) };
    let linkify = |s: &str| s.to_owned();
    let binary = |_: &str| -> Option<Vec<Token>> { None };
    let added = "@@ -0,0 +1 @@\n+a\n";
    let removed = "@@ -1 +0,0 @@\n-a\n";
    assert_eq!(
        render_diff(
            &config, "t", "r", "f", &vec![None], 1, removed, Err("no header"), false, &line_feeds,
            &linkify,
        ),
        failed("expected blame for '-' line, none found")
    );
    assert_eq!(
        render_diff(
            &config, "t", "r", "f", &vec![None], 1, added, Err("no header"), false, &binary, &linkify,
        ),
        failed("Cannot diff binary file")
    );
    assert_eq!(
        render_diff(
            &config, "t", "r", "f", &vec![None], 1, added, Err("no header"), false, &line_feeds,
            &linkify,
        ),
        failed("no header")
    );
}
