use mozsearch_format::blame::BlameTrail;
use mozsearch_format::code::{format_code, FormattedLine};
use mozsearch_format::file::{format_file_data, render_file, CommitInfo, FormattedCode};
use mozsearch_format::page::{Markup, Page, PageOptions, PanelSection, Step, TreeConfig};
use mozsearch_format::source::{
    AnalysisSource, Jump, JumpTable, Location, SourceRange, Token, TokenKind, WithLocation,
};

fn tree(hg_root: Option<&str>) -> TreeConfig {
    TreeConfig { hg_root: hg_root.map(|s| s.to_owned()), github_repo: None, git_blame_path: None }
}

fn line(text: &str, starts_nest: bool, pop_nest_count: u32) -> FormattedLine {
    FormattedLine { line: text.to_owned(), starts_nest, pop_nest_count }
}

fn code(lines: Vec<FormattedLine>) -> FormattedCode {
    FormattedCode { lines, analysis_json: "[1]".to_owned() }
}

fn single(s: &str) -> Step {
    Step::Lines(Markup::List(vec![Markup::Line(s.to_owned())]))
}

fn row(open: &str, cells: [&str; 3]) -> Step {
    Step::Lines(Markup::List(vec![
        Markup::Line(open.to_owned()),
        Markup::Indent(cells.iter().map(|c| Markup::Line(c.to_string())).collect()),
        Markup::Line("</div>".to_owned()),
    ]))
}

const OPEN: &str = "<div role=\"row\" class=\"source-line-with-number\">";
const NO_BLAME: &str = "<div role=\"cell\" class=\"blame-container\"><div class=\"blame-strip\" role=\"aria-hidden\"></div></div>";

fn text(s: &str) -> Step {
    Step::Text(s.to_owned())
}

#[test]
fn a_file_without_blame_is_written_in_full() {
    let config = tree(Some("https://hg"));
    let formatted = code(vec![line("a", false, 0)]);
    let panel = vec![PanelSection { name: "P".to_owned(), items: Vec::new() }];
    let page = format_file_data(
        Some(&config), "tree", panel, None, "dir/x.svg", Some(&formatted), None, false,
    );
    assert_eq!(
        page,
        Page {
            options: Some(PageOptions {
                title: "x.svg - mozsearch".to_owned(),
                tree_name: "tree".to_owned(),
                include_date: true,
                revision: None,
                extra_content_classes: "source-listing not-diff",
            }),
            steps: vec![
                Step::Header,
                Step::Breadcrumbs("dir/x.svg".to_owned()),
                Step::Panel(vec![PanelSection { name: "P".to_owned(), items: Vec::new() }]),
                Step::SvgPreview("https://hg/raw-file/tip/dir/x.svg".to_owned()),
                single("<div id=\"file\" class=\"file\" role=\"table\">"),
                row(
                    OPEN,
                    [
                        NO_BLAME,
                        "<div id=\"l1\" role=\"cell\" class=\"line-number\">1</div>",
                        "<code role=\"cell\" class=\"source-line\" id=\"line-1\">a\n</code>",
                    ],
                ),
                single("</div>"),
                text("<script>var ANALYSIS_DATA = [1];</script>\n"),
                Step::Footer("dir/x.svg".to_owned()),
            ],
            error: None,
        }
    );
}

#[test]
fn a_picture_is_previewed_only_with_a_repository_address() {
    let config = tree(None);
    let formatted = code(Vec::new());
    let page = format_file_data(
        Some(&config), "t", Vec::new(), None, "x.svg", Some(&formatted), None, true,
    );
    assert!(!page.steps.iter().any(|s| matches!(s, Step::SvgPreview(_))));
    assert!(!page.options.unwrap().include_date);
}

#[test]
fn blame_strips_change_their_color_with_the_revision() {
    let config = tree(None);
    let formatted = code(vec![line("a", false, 0), line("b", false, 0), line("c", false, 0)]);
    let blames = vec![
        BlameTrail::single("r1:%:1:"),
        BlameTrail::single("r1:f:2:"),
        BlameTrail::single("r2:%:3:"),
        BlameTrail::single("r9:%:4:"),
    ];
    let page = format_file_data(
        Some(&config), "t", Vec::new(), None, "f", Some(&formatted), Some(&blames), false,
    );
    let strip = |color: u32, data: &str| {
        format!(
            "<div role=\"cell\" class=\"blame-container\"><div class=\"blame-strip c{}\" data-blame=\"{}\" role=\"button\" aria-label=\"blame\" aria-expanded=\"false\"></div></div>",
            color, data
        )
    };
    let number = |n: u32| format!("<div id=\"l{}\" role=\"cell\" class=\"line-number\">{}</div>", n, n);
    let cell = |n: u32, s: &str| {
        format!("<code role=\"cell\" class=\"source-line\" id=\"line-{}\">{}\n</code>", n, s)
    };
    assert_eq!(page.steps[4], row(OPEN, [&strip(1, "r1#%#1"), &number(1), &cell(1, "a")]));
    assert_eq!(page.steps[5], row(OPEN, [&strip(1, "r1#f#2"), &number(2), &cell(2, "b")]));
    assert_eq!(page.steps[6], row(OPEN, [&strip(2, "r2#%#3"), &number(3), &cell(3, "c")]));
}

#[test]
fn nested_lines_stand_in_containers() {
    let config = tree(None);
    let formatted = code(vec![
        line("a", true, 0),
        line("b", true, 0),
        line("c", false, 2),
        line("d", true, 1),
    ]);
    let page = format_file_data(
        Some(&config), "t", Vec::new(), None, "f", Some(&formatted), None, false,
    );
    let opens = |s: &Step| match s {
        Step::Lines(Markup::List(v)) => match &v[0] {
            Markup::Line(l) => l.clone(),
            _ => panic!("a row starts with a line"),
        },
        _ => panic!("not a row"),
    };
    let nested = |n: u32| {
        format!("<div role=\"row\" class=\"source-line-with-number nesting-depth-{}\">", n)
    };
    let steps = &page.steps[4..page.steps.len() - 3];
    assert_eq!(steps.len(), 10);
    assert_eq!(steps[0], text("<div class=\"nesting-container\">"));
    assert_eq!(opens(&steps[1]), nested(1));
    assert_eq!(steps[2], text("<div class=\"nesting-container\">"));
    assert_eq!(opens(&steps[3]), nested(2));
    assert_eq!(opens(&steps[4]), OPEN);
    assert_eq!(steps[5], text("</div>"));
    assert_eq!(steps[6], text("</div>"));
    assert_eq!(steps[7], text("<div class=\"nesting-container\">"));
    assert_eq!(opens(&steps[8]), nested(1));
    assert_eq!(steps[9], text("</div>"));
}

#[test]
fn the_revision_of_a_file_is_shown() {
    let config = tree(None);
    let formatted = code(Vec::new());
    let commit = CommitInfo {
        id: "c0ffee".to_owned(),
        header: Ok(("Header".to_owned(), "rest".to_owned())),
    };
    let page = format_file_data(
        Some(&config), "t", Vec::new(), Some(&commit), "f", Some(&formatted), None, false,
    );
    assert_eq!(page.options.unwrap().revision, Some(("c0ffee".to_owned(), "Header".to_owned())));
}

#[test]
fn a_file_fails_for_each_of_its_reasons() {
    let failed = |e: &'static str| Page { options: None, steps: Vec::new(), error: Some(e) };
    let formatted = code(Vec::new());
    assert_eq!(
        format_file_data(None, "t", Vec::new(), None, "f", Some(&formatted), None, false),
        failed("Invalid tree")
    );
    let config = tree(None);
    let commit = CommitInfo { id: "c".to_owned(), header: Err("no header") };
    assert_eq!(
        format_file_data(
            Some(&config), "t", Vec::new(), Some(&commit), "f", Some(&formatted), None, false,
        ),
        failed("no header")
    );
    assert_eq!(
        format_file_data(Some(&config), "t", Vec::new(), Some(&commit), "f", None, None, false),
        Page { options: None, steps: vec![text("Binary file")], error: None }
    );
}

fn unlinked(s: &str) -> String {
    s.to_owned()
}

#[test]
fn the_text_of_a_file_is_formatted_and_shown() {
    let config = tree(None);
    let data = "foo\n<";
    let tokens = vec![
        Token { start: 0, end: 3, kind: TokenKind::Identifier(None) },
        Token { start: 3, end: 4, kind: TokenKind::Newline },
        Token { start: 4, end: 5, kind: TokenKind::Punctuation },
    ];
    let analysis = vec![WithLocation {
        data: vec![AnalysisSource {
            syntax: Vec::new(),
            pretty: "p".to_owned(),
            sym: vec!["S".to_owned()],
            no_crossref: false,
            nesting_range: SourceRange { start_lineno: 0, end_lineno: 0 },
        }],
        loc: Location { lineno: 1, col_start: 0 },
    }];
    let mut jumps = JumpTable::new();
    let place = Jump { path: "g".to_owned(), lineno: 3, pretty: "q".to_owned() };
    jumps.insert("S".to_owned(), place);
    let blame = |i: usize| BlameTrail::single(&format!("r{}:%:{}:", i, i + 1));
    for diffable in [false, true] {
        let (lines, analysis_json) =
            format_code(&jumps, "f", data, &tokens, &analysis, diffable, &unlinked);
        let formatted = FormattedCode { lines, analysis_json };
        assert_eq!(formatted.lines[1].line, "&lt;");
        let blames = vec![blame(0), blame(1)];
        let page = render_file(
            Some(&config), "t", Vec::new(), None, "f", data, Some(&tokens[..]), &jumps, &analysis,
            Some(&blame), diffable, &unlinked,
        );
        assert_eq!(
            page,
            format_file_data(
                Some(&config), "t", Vec::new(), None, "f", Some(&formatted), Some(&blames), diffable,
            )
        );
        assert_eq!(page.steps.len(), 4 + 2 + 3);
    }
}

#[test]
fn a_file_that_is_not_shown_is_not_blamed() {
    let config = tree(None);
    let blame = |_: usize| -> BlameTrail { panic!("no line is shown") };
    let show = |tree: Option<&TreeConfig>, commit: Option<&CommitInfo>, tokens: Option<&[Token]>| {
        render_file(
            tree, "t", Vec::new(), commit, "f", "x", tokens, &JumpTable::new(), &[], Some(&blame),
            false, &unlinked,
        )
    };
    let failed = |e: &'static str| Page { options: None, steps: Vec::new(), error: Some(e) };
    let tokens: [Token; 0] = [];
    assert_eq!(show(None, None, Some(&tokens[..])), failed("Invalid tree"));
    let commit = CommitInfo { id: "c".to_owned(), header: Err("no header") };
    assert_eq!(show(Some(&config), Some(&commit), Some(&tokens[..])), failed("no header"));
    assert_eq!(
        show(Some(&config), None, None),
        Page { options: None, steps: vec![text("Binary file")], error: None }
    );
}
