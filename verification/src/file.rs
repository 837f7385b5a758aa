//! The page of a source file.

use crate::blame;
use crate::blame::{empty_cell, BlameTrail, Shade};
use crate::code;
use crate::code::{format_code, FormattedLine};
use crate::code_laws;
use crate::json;
use crate::page;
use crate::page::{
    fail, indent, list, push_line, push_markup, push_step, single_line, Markup, MarkupView, Page,
    PageOptions, PageOptionsView, PageView, PanelSection, Step, StepView, TreeConfig,
};
use crate::paths;
use crate::paths::{has_extension, read_file_name};
use crate::source;
use crate::source::{AnalysisSource, JumpTable, Token, WithLocation};
use crate::text;
use crate::text::{decimal, signed_decimal};
use vstd::prelude::*;

verus! {

/// The title of a page.
pub open spec fn page_title(subject: Seq<char>) -> Seq<char> {
    subject + " - mozsearch"@
}

/// Writes the title of a page.
pub(crate) fn write_title(subject: &str) -> (r: String)
    ensures
        r@ == page_title(subject@),
{
    let mut r = subject.to_owned();
    r.append(" - mozsearch");
    r
}

// ---------------------------------------------------------------------------
// Lines

/// The cell with the number of a line.
pub open spec fn number_cell(lineno: nat) -> Seq<char> {
    "<div id=\"l"@ + text::dec(lineno) + "\" role=\"cell\" class=\"line-number\">"@ + text::dec(
        lineno,
    ) + "</div>"@
}

/// Writes the cell with the number of a line.
pub(crate) fn write_number_cell(lineno: usize) -> (r: String)
    ensures
        r@ == number_cell(lineno as nat),
{
    let number = decimal(lineno as u128);
    let mut r = "<div id=\"l".to_owned();
    r.append(number.as_str());
    r.append("\" role=\"cell\" class=\"line-number\">");
    r.append(number.as_str());
    r.append("</div>");
    r
}

/// The cell with a line of source text.
pub open spec fn code_cell(lineno: nat, line: Seq<char>) -> Seq<char> {
    "<code role=\"cell\" class=\"source-line\" id=\"line-"@ + text::dec(lineno) + "\">"@ + line
        + "\n</code>"@
}

/// A row of three cells.
pub open spec fn row(open: Seq<char>, cells: Seq<Seq<char>>) -> MarkupView {
    MarkupView::List(
        seq![
            MarkupView::Line(open),
            MarkupView::Indent(
                seq![
                    MarkupView::Line(cells[0]),
                    MarkupView::Line(cells[1]),
                    MarkupView::Line(cells[2]),
                ],
            ),
            MarkupView::Line("</div>"@),
        ],
    )
}

/// Writes a row of three cells.
pub(crate) fn write_row(open: String, first: String, second: String, third: String) -> (r: Markup)
    ensures
        r@ == row(open@, seq![first@, second@, third@]),
{
    let mut cells: Vec<Markup> = Vec::new();
    let ghost inner = seq![
        MarkupView::Line(first@),
        MarkupView::Line(second@),
        MarkupView::Line(third@),
    ];
    push_line(&mut cells, first);
    push_line(&mut cells, second);
    push_line(&mut cells, third);
    proof {
        assert(page::markup_views(cells@) =~= inner);
    }
    let mut rows: Vec<Markup> = Vec::new();
    let ghost opened = open@;
    push_line(&mut rows, open);
    push_markup(&mut rows, indent(cells));
    push_line(&mut rows, "</div>".to_owned());
    proof {
        assert(page::markup_views(rows@) =~= seq![
            MarkupView::Line(opened),
            MarkupView::Indent(inner),
            MarkupView::Line("</div>"@),
        ]);
    }
    list(rows)
}

/// How deep the nesting is behind the first `n` lines.
pub open spec fn depth(lines: Seq<FormattedLine>, n: int) -> int
    decreases n,
{
    if n <= 0 {
        0
    } else {
        depth(lines, n - 1) + (if lines[n - 1].starts_nest {
            1int
        } else {
            0
        }) - lines[n - 1].pop_nest_count
    }
}

/// What opens the row of a line; a line that starts a nesting level tells how deep it is.
pub open spec fn row_open(starts_nest: bool, level: int) -> Seq<char> {
    "<div role=\"row\" class=\"source-line-with-number"@ + (if starts_nest {
        " nesting-depth-"@ + text::signed_dec(level)
    } else {
        ""@
    }) + "\">"@
}

/// The revisions of each line's blame.
pub open spec fn line_revs(blames: Option<Seq<Seq<blame::EntryView>>>, n: int) -> Seq<
    Option<Seq<char>>,
> {
    Seq::new(
        n as nat,
        |i: int|
            match blames {
                Some(b) => Some(blame::trail_revs(b[i])),
                None => None,
            },
    )
}

/// The blame cell of line `i`.
pub open spec fn line_blame_cell(blames: Option<Seq<Seq<blame::EntryView>>>, n: int, i: int) -> Seq<
    char,
> {
    blame::blame_cell(
        match blames {
            Some(b) => blame::strip_attributes(
                blame::shade_after(line_revs(blames, n), i + 1).color,
                blame::trail_revs(b[i]),
                blame::trail_filespecs(b[i]),
                blame::trail_linenos(b[i]),
            ),
            None => blame::no_strip_attributes(),
        },
    )
}

/// `n` times the end of a nesting level.
pub open spec fn closing_steps(n: nat) -> Seq<StepView> {
    Seq::new(n, |i: int| StepView::Text("</div>"@))
}

/// What is written for line `i`: where it starts a nesting level the container of that level,
/// then its row, then the ends of the levels that end with it.
pub open spec fn line_steps(
    lines: Seq<FormattedLine>,
    blames: Option<Seq<Seq<blame::EntryView>>>,
    i: int,
) -> Seq<StepView> {
    let line = lines[i];
    let lineno = (i + 1) as nat;
    let cells = seq![
        line_blame_cell(blames, lines.len() as int, i),
        number_cell(lineno),
        code_cell(lineno, line.line@),
    ];
    (if line.starts_nest {
        seq![StepView::Text("<div class=\"nesting-container\">"@)]
    } else {
        seq![]
    }) + seq![
        StepView::Lines(row(row_open(line.starts_nest, depth(lines, i) + 1), cells)),
    ] + closing_steps(line.pop_nest_count as nat)
}

/// What is written for the first `n` lines.
pub open spec fn lines_steps(
    lines: Seq<FormattedLine>,
    blames: Option<Seq<Seq<blame::EntryView>>>,
    n: int,
) -> Seq<StepView>
    decreases n,
{
    if n <= 0 {
        seq![]
    } else {
        lines_steps(lines, blames, n - 1) + line_steps(lines, blames, n - 1)
    }
}

/// What each trail holds.
pub open spec fn trail_views(v: Seq<BlameTrail>) -> Seq<Seq<blame::EntryView>> {
    Seq::new(v.len(), |i: int| v[i]@)
}

/// What the trails hold, if there are any.
pub open spec fn blame_views(v: Option<&Vec<BlameTrail>>) -> Option<Seq<Seq<blame::EntryView>>> {
    match v {
        Some(trails) => Some(trail_views(trails@)),
        None => None,
    }
}

fn write_code_cell(lineno: usize, line: &str) -> (r: String)
    ensures
        r@ == code_cell(lineno as nat, line@),
{
    let number = decimal(lineno as u128);
    let mut r = "<code role=\"cell\" class=\"source-line\" id=\"line-".to_owned();
    r.append(number.as_str());
    r.append("\">");
    r.append(line);
    r.append("\n</code>");
    r
}

fn write_row_open(starts_nest: bool, level: i128) -> (r: String)
    requires
        level > i128::MIN,
    ensures
        r@ == row_open(starts_nest, level as int),
{
    let mut style = "".to_owned();
    if starts_nest {
        style = " nesting-depth-".to_owned();
        let number = signed_decimal(level);
        style.append(number.as_str());
    }
    let mut r = "<div role=\"row\" class=\"source-line-with-number".to_owned();
    r.append(style.as_str());
    r.append("\">");
    r
}

proof fn lemma_depth_bounds(lines: Seq<FormattedLine>, n: int)
    requires
        0 <= n <= lines.len(),
    ensures
        -(n * u32::MAX) <= depth(lines, n) <= n,
    decreases n,
{
    if n > 0 {
        lemma_depth_bounds(lines, n - 1);
        assert(n * u32::MAX == (n - 1) * u32::MAX + u32::MAX) by (nonlinear_arith);
    }
}

/// Writes the lines of a file.
fn write_lines(
    steps: &mut Vec<Step>,
    lines: &Vec<FormattedLine>,
    blames: Option<&Vec<BlameTrail>>,
)
    requires
        match blames {
            Some(b) => b@.len() >= lines@.len(),
            None => true,
        },
    ensures
        page::step_views(final(steps)@) == page::step_views(old(steps)@) + lines_steps(
            lines@,
            blame_views(blames),
            lines@.len() as int,
        ),
{
    let mut shade = Shade::none();
    let mut nest_depth: i128 = 0;
    let ghost n = lines@.len() as int;
    let ghost views = blame_views(blames);
    let ghost revs = line_revs(views, n);
    let ghost base = page::step_views(steps@);
    proof {
        assert(base + lines_steps(lines@, views, 0) =~= base);
    }
    let mut i: usize = 0;
    while i < lines.len()
        invariant
            i <= lines@.len(),
            n == lines@.len(),
            views == blame_views(blames),
            revs == line_revs(views, n),
            match blames {
                Some(b) => b@.len() >= lines@.len(),
                None => true,
            },
            nest_depth == depth(lines@, i as int),
            shade@ == blame::shade_after(revs, i as int),
            page::step_views(steps@) == base + lines_steps(lines@, views, i as int),
        decreases lines@.len() - i,
    {
        let line = &lines[i];
        let lineno = i + 1;
        let ghost before = page::step_views(steps@);
        proof {
            lemma_depth_bounds(lines@, i as int);
            assert(i * u32::MAX <= usize::MAX * u32::MAX) by (nonlinear_arith)
                requires
                    i <= usize::MAX,
            ;
        }
        let blame = match blames {
            Some(b) => {
                let trail = &b[i];
                let revs_text = trail.revs();
                let filespecs = trail.filespecs();
                let linenos = trail.linenos();
                proof {
                    assert(revs[i as int] == Some(blame::trail_revs(trail@)));
                }
                shade.cell(revs_text.as_str(), filespecs.as_str(), linenos.as_str())
            },
            None => {
                proof {
                    assert(revs[i as int] is None);
                }
                empty_cell()
            },
        };
        proof {
            assert(blame@ == line_blame_cell(views, n, i as int));
        }
        let level: i128 = nest_depth + 1;
        let open = write_row_open(line.starts_nest, level);
        if line.starts_nest {
            push_step(steps, Step::Text("<div class=\"nesting-container\">".to_owned()));
            nest_depth = level;
        }
        let number = write_number_cell(lineno);
        let source = write_code_cell(lineno, line.line.as_str());
        let row_markup = write_row(open, blame, number, source);
        push_step(steps, Step::Lines(row_markup));
        let ghost opened = page::step_views(steps@);
        let count = line.pop_nest_count;
        let mut k: u32 = 0;
        while k < count
            invariant
                k <= count,
                page::step_views(steps@) == opened + closing_steps(k as nat),
            decreases count - k,
        {
            push_step(steps, Step::Text("</div>".to_owned()));
            proof {
                assert(closing_steps((k + 1) as nat) =~= closing_steps(k as nat).push(
                    StepView::Text("</div>"@),
                ));
                assert(page::step_views(steps@) =~= opened + closing_steps((k + 1) as nat));
            }
            k = k + 1;
        }
        nest_depth = nest_depth - count as i128;
        proof {
            assert(page::step_views(steps@) =~= before + line_steps(lines@, views, i as int));
            assert(page::step_views(steps@) =~= base + lines_steps(lines@, views, i + 1));
        }
        i = i + 1;
    }
}

// ---------------------------------------------------------------------------
// The page

/// A commit, and what its message is taken apart into: the header and the rest, or why that
/// failed.
#[derive(Debug)]
pub struct CommitInfo {
    pub id: String,
    pub header: Result<(String, String), &'static str>,
}

/// Source text as [`format_code`] gives it: the lines, and the symbol data of the page.
///
/// [`format_code`]: crate::code::format_code
#[derive(Debug)]
pub struct FormattedCode {
    pub lines: Vec<FormattedLine>,
    pub analysis_json: String,
}

/// The revision that a page shows, with the header of its commit.
pub open spec fn shown_revision(commit: Option<&CommitInfo>) -> Option<(Seq<char>, Seq<char>)> {
    match commit {
        Some(c) => Some((c.id@, c.header->Ok_0.0@)),
        None => None,
    }
}

/// The options of the page of a file.
pub open spec fn file_options(
    tree_name: Seq<char>,
    path: Seq<char>,
    revision: Option<(Seq<char>, Seq<char>)>,
    diffable: bool,
) -> PageOptionsView {
    PageOptionsView {
        title: page_title(paths::file_name(path)->0),
        tree_name,
        include_date: !diffable,
        revision,
        extra_content_classes: "source-listing not-diff"@,
    }
}

/// The preview of a picture, where the tree's repository can be asked for it.
pub open spec fn preview_steps(hg_root: Option<Seq<char>>, path: Seq<char>) -> Seq<StepView> {
    if hg_root is Some && paths::extension(path) == Some("svg"@) {
        seq![StepView::SvgPreview(hg_root->0 + "/raw-file/tip/"@ + path)]
    } else {
        seq![]
    }
}

/// What opens the table of lines.
pub open spec fn table_open() -> StepView {
    StepView::Lines(
        MarkupView::List(
            seq![MarkupView::Line("<div id=\"file\" class=\"file\" role=\"table\">"@)],
        ),
    )
}

/// What closes the table of lines.
pub open spec fn table_close() -> StepView {
    StepView::Lines(MarkupView::List(seq![MarkupView::Line("</div>"@)]))
}

/// The script that carries the symbol data.
pub open spec fn data_script(analysis_json: Seq<char>) -> Seq<char> {
    "<script>var ANALYSIS_DATA = "@ + analysis_json + ";</script>\n"@
}

/// What is written of a file.
pub open spec fn file_steps(
    panel: Seq<page::PanelSectionView>,
    hg_root: Option<Seq<char>>,
    path: Seq<char>,
    code: FormattedCode,
    blames: Option<Seq<Seq<blame::EntryView>>>,
) -> Seq<StepView> {
    seq![StepView::Header, StepView::Breadcrumbs(path), StepView::Panel(panel)] + preview_steps(
        hg_root,
        path,
    ) + seq![table_open()] + lines_steps(code.lines@, blames, code.lines@.len() as int) + seq![
        table_close(),
        StepView::Text(data_script(code.analysis_json@)),
        StepView::Footer(path),
    ]
}

/// Whether a page gets as far as its lines.
pub open spec fn writes_lines(
    tree: Option<&TreeConfig>,
    commit: Option<&CommitInfo>,
    code: Option<&FormattedCode>,
) -> bool {
    tree is Some && code is Some && !(commit is Some && commit->0.header is Err)
}

/// The page of a file; `code` is absent where the file is not text.
pub open spec fn file_page(
    tree: Option<&TreeConfig>,
    tree_name: Seq<char>,
    panel: Seq<page::PanelSectionView>,
    commit: Option<&CommitInfo>,
    path: Seq<char>,
    code: Option<&FormattedCode>,
    blames: Option<Seq<Seq<blame::EntryView>>>,
    diffable: bool,
) -> PageView {
    if tree is None {
        page::failed("Invalid tree"@)
    } else if code is None {
        PageView { options: None, steps: seq![StepView::Text("Binary file"@)], error: None }
    } else if commit is Some && commit->0.header is Err {
        page::failed(commit->0.header->Err_0@)
    } else {
        PageView {
            options: Some(file_options(tree_name, path, shown_revision(commit), diffable)),
            steps: file_steps(panel, tree->0.hg_root.deep_view(), path, *code->0, blames),
            error: None,
        }
    }
}

fn write_preview(steps: &mut Vec<Step>, hg_root: &Option<String>, path: &str)
    ensures
        page::step_views(final(steps)@) == page::step_views(old(steps)@) + preview_steps(
            hg_root.deep_view(),
            path@,
        ),
{
    if has_extension(path, "svg") {
        if let Some(root) = hg_root {
            let mut url = root.clone();
            url.append("/raw-file/tip/");
            url.append(path);
            push_step(steps, Step::SvgPreview(url));
            proof {
                let all = page::step_views(old(steps)@) + preview_steps(hg_root.deep_view(), path@);
                assert(page::step_views(steps@) =~= all);
            }
            return;
        }
    }
    proof {
        let all = page::step_views(old(steps)@) + preview_steps(hg_root.deep_view(), path@);
        assert(page::step_views(steps@) =~= all);
    }
}

/// Renders source code with blame annotations and semantic analysis data, between the panel that
/// the caller provides and the footer. `code` is what the file's text was formatted to, or absent
/// where the file is binary.
pub fn format_file_data(
    tree: Option<&TreeConfig>,
    tree_name: &str,
    panel: Vec<PanelSection>,
    commit: Option<&CommitInfo>,
    path: &str,
    code: Option<&FormattedCode>,
    blames: Option<&Vec<BlameTrail>>,
    diffable: bool,
) -> (r: Page)
    requires
        writes_lines(tree, commit, code) ==> paths::file_name(path@) is Some && (blames is Some
            ==> blames->0@.len() >= code->0.lines@.len()),
    ensures
        r@ == file_page(
            tree,
            tree_name@,
            page::section_views(panel@),
            commit,
            path@,
            code,
            blame_views(blames),
            diffable,
        ),
{
    let tree_config = match tree {
        Some(t) => t,
        None => {
            return fail("Invalid tree");
        },
    };
    let mut steps: Vec<Step> = Vec::new();
    let formatted = match code {
        Some(c) => c,
        None => {
            push_step(&mut steps, Step::Text("Binary file".to_owned()));
            proof {
                assert(page::step_views(steps@) =~= seq![StepView::Text("Binary file"@)]);
            }
            return Page { options: None, steps, error: None };
        },
    };
    let revision: Option<(String, String)> = match commit {
        Some(c) => match &c.header {
            Ok(h) => Some((c.id.clone(), h.0.clone())),
            Err(e) => {
                return fail(*e);
            },
        },
        None => None,
    };
    let filename = read_file_name(path).unwrap();
    let options = PageOptions {
        title: write_title(filename),
        tree_name: tree_name.to_owned(),
        include_date: !diffable,
        revision,
        extra_content_classes: "source-listing not-diff",
    };
    let ghost panel_view = page::section_views(panel@);
    let ghost views = blame_views(blames);
    push_step(&mut steps, Step::Header);
    push_step(&mut steps, Step::Breadcrumbs(path.to_owned()));
    push_step(&mut steps, Step::Panel(panel));
    let ghost head = seq![
        StepView::Header,
        StepView::Breadcrumbs(path@),
        StepView::Panel(panel_view),
    ];
    proof {
        assert(page::step_views(steps@) =~= head);
    }
    write_preview(&mut steps, &tree_config.hg_root, path);
    let ghost previewed = page::step_views(steps@);
    push_step(
        &mut steps,
        Step::Lines(single_line("<div id=\"file\" class=\"file\" role=\"table\">")),
    );
    proof {
        assert(page::step_views(steps@) =~= previewed + seq![table_open()]);
    }
    write_lines(&mut steps, &formatted.lines, blames);
    let ghost listed = page::step_views(steps@);
    push_step(&mut steps, Step::Lines(single_line("</div>")));
    let mut script = "<script>var ANALYSIS_DATA = ".to_owned();
    script.append(formatted.analysis_json.as_str());
    script.append(";</script>\n");
    push_step(&mut steps, Step::Text(script));
    push_step(&mut steps, Step::Footer(path.to_owned()));
    proof {
        let tail = seq![
            table_close(),
            StepView::Text(data_script(formatted.analysis_json@)),
            StepView::Footer(path@),
        ];
        assert(page::step_views(steps@) =~= listed + tail);
        assert(page::step_views(steps@) == file_steps(
            panel_view,
            tree_config.hg_root.deep_view(),
            path@,
            *formatted,
            views,
        ));
        assert(options@ == file_options(tree_name@, path@, shown_revision(commit), diffable));
    }
    Page { options: Some(options), steps, error: None }
}

// ---------------------------------------------------------------------------
// From the text of a file to its page

/// Whether `code` is what a text is formatted to.
pub open spec fn formats<L: Fn(&str) -> String>(
    linkify: L,
    c: code::CodeInput,
    diffable: bool,
    code: FormattedCode,
) -> bool {
    &&& code::code_lines(linkify, c, code.lines@)
    &&& code.analysis_json@ == json::document_text(code::run_all(c).menus, diffable)
}

/// Whether `blame` can tell this history of line `i`, counted from zero.
pub open spec fn told_by<B: Fn(usize) -> BlameTrail>(
    blame: B,
    i: int,
    trail: Seq<blame::EntryView>,
) -> bool {
    exists|r: BlameTrail| #[trigger] call_ensures(blame, (i as usize,), r) && r@ == trail
}

/// Whether `blame`, if there is any, can tell these histories of `n` lines.
pub open spec fn blamed_by<B: Fn(usize) -> BlameTrail>(
    blame: Option<&B>,
    n: nat,
    blames: Option<Seq<Seq<blame::EntryView>>>,
) -> bool {
    match (blame, blames) {
        (None, None) => true,
        (Some(f), Some(b)) => b.len() == n && forall|i: int|
            0 <= i < n ==> told_by(*f, i, #[trigger] b[i]),
        _ => false,
    }
}

/// Whether the page of a file whose text is formatted shows its lines.
pub open spec fn header_known(commit: Option<&CommitInfo>) -> bool {
    !(commit is Some && commit->0.header is Err)
}

/// Whether `code` and `blames` are what a text is formatted to and what is told of its lines, as
/// far as the page shows them.
pub open spec fn renders_file<L: Fn(&str) -> String, B: Fn(usize) -> BlameTrail>(
    linkify: L,
    blame: Option<&B>,
    c: code::CodeInput,
    commit: Option<&CommitInfo>,
    diffable: bool,
    code: FormattedCode,
    blames: Option<Seq<Seq<blame::EntryView>>>,
) -> bool {
    &&& formats(linkify, c, diffable, code)
    &&& header_known(commit) ==> blamed_by(blame, code.lines@.len(), blames)
}

/// Asks for the history of the first `n` lines.
fn ask_blame<B: Fn(usize) -> BlameTrail>(blame: &B, n: usize) -> (r: Vec<BlameTrail>)
    requires
        forall|i: usize| call_requires(*blame, (i,)),
    ensures
        r@.len() == n,
        blamed_by(Some(blame), n as nat, Some(trail_views(r@))),
{
    let mut trails: Vec<BlameTrail> = Vec::new();
    let mut i: usize = 0;
    while i < n
        invariant
            i <= n,
            trails@.len() == i,
            forall|i: usize| call_requires(*blame, (i,)),
            forall|k: int| 0 <= k < i ==> told_by(*blame, k, (#[trigger] trails@[k])@),
        decreases n - i,
    {
        let trail = (*blame)(i);
        proof {
            assert(call_ensures(*blame, ((i as int) as usize,), trail));
            assert(told_by(*blame, i as int, trail@));
        }
        trails.push(trail);
        i = i + 1;
    }
    proof {
        let views = trail_views(trails@);
        assert forall|k: int| 0 <= k < n implies told_by(*blame, k, #[trigger] views[k]) by {
            assert(views[k] == trails@[k]@);
        }
    }
    trails
}

/// Renders the text of a file with blame annotations and semantic analysis data: `tokens` are
/// absent where the file is binary, and `blame` tells the history of a line, counted from zero.
pub fn render_file<L: Fn(&str) -> String, B: Fn(usize) -> BlameTrail>(
    tree: Option<&TreeConfig>,
    tree_name: &str,
    panel: Vec<PanelSection>,
    commit: Option<&CommitInfo>,
    path: &str,
    data: &str,
    tokens: Option<&[Token]>,
    jumps: &JumpTable,
    analysis: &[WithLocation<Vec<AnalysisSource>>],
    blame: Option<&B>,
    diffable: bool,
    linkify: &L,
) -> (r: Page)
    requires
        tree is Some && tokens is Some ==> {
            &&& source::tokens_valid(data@, tokens->0@)
            &&& source::lines_countable(tokens->0@)
            &&& forall|a: &str| call_requires(*linkify, (a,))
            &&& header_known(commit) ==> paths::file_name(path@) is Some
            &&& header_known(commit) && blame is Some ==> forall|i: usize|
                call_requires(*blame->0, (i,))
        },
    ensures
        match (tree, tokens) {
            (Some(_), Some(t)) => exists|
                code: FormattedCode,
                blames: Option<Seq<Seq<blame::EntryView>>>,
            |
                {
                    &&& #[trigger] renders_file(
                        *linkify,
                        blame,
                        code::code_input(jumps@, path@, data@, t@, analysis@),
                        commit,
                        diffable,
                        code,
                        blames,
                    )
                    &&& r@ == file_page(
                        tree,
                        tree_name@,
                        page::section_views(panel@),
                        commit,
                        path@,
                        Some(&code),
                        blames,
                        diffable,
                    )
                },
            _ => r@ == file_page(
                tree,
                tree_name@,
                page::section_views(panel@),
                commit,
                path@,
                None,
                None,
                diffable,
            ),
        },
{
    let known = match commit {
        Some(c) => c.header.is_ok(),
        None => true,
    };
    match (tree, tokens) {
        (Some(_), Some(t)) => {
            let ghost c = code::code_input(jumps@, path@, data@, t@, analysis@);
            let (lines, analysis_json) = format_code(
                jumps,
                path,
                data,
                t,
                analysis,
                diffable,
                linkify,
            );
            let count = lines.len();
            let code = FormattedCode { lines, analysis_json };
            let blames: Option<Vec<BlameTrail>> = match blame {
                Some(f) => if known {
                    Some(ask_blame(f, count))
                } else {
                    None
                },
                None => None,
            };
            let shown: Option<&Vec<BlameTrail>> = match &blames {
                Some(b) => Some(b),
                None => None,
            };
            proof {
                assert(renders_file(
                    *linkify,
                    blame,
                    c,
                    commit,
                    diffable,
                    code,
                    blame_views(shown),
                ));
            }
            format_file_data(tree, tree_name, panel, commit, path, Some(&code), shown, diffable)
        },
        _ => format_file_data(tree, tree_name, panel, commit, path, None, None, diffable),
    }
}

// ---------------------------------------------------------------------------
// Nesting

proof fn lemma_depth_of_plans<L: Fn(&str) -> String>(
    linkify: L,
    c: code::CodeInput,
    lines: Seq<FormattedLine>,
    m: int,
)
    requires
        code::code_lines(linkify, c, lines),
        0 <= m <= code::run_all(c).lines.len(),
    ensures
        depth(lines, m) == code_laws::opens(code::run_all(c).lines, m) - code_laws::closes(
            code::run_all(c).lines,
            m,
        ),
    decreases m,
{
    if m > 0 {
        lemma_depth_of_plans(linkify, c, lines, m - 1);
        assert(code::line_renders(
            linkify,
            c.input,
            code::run_all(c).lines[m - 1],
            lines[m - 1],
        ));
    }
}

/// On the page of a source text no nesting level is ended that was not started; and all are ended
/// if there is a line behind the last line end, or if every range of the analysis ends on the line
/// behind the last one or before.
pub proof fn law_page_nesting<L: Fn(&str) -> String>(
    linkify: L,
    c: code::CodeInput,
    lines: Seq<FormattedLine>,
)
    requires
        code::code_lines(linkify, c, lines),
        source::lines_countable(c.tokens),
    ensures
        forall|m: int| 0 <= m <= lines.len() ==> #[trigger] depth(lines, m) >= 0,
        lines.len() > code::run_all(c).lines.len() ==> depth(lines, lines.len() as int) == 0,
        code_laws::ranges_end_by(c.analysis, lines.len() as int + 1) ==> depth(
            lines,
            lines.len() as int,
        ) == 0,
{
    let st = code::run_all(c);
    let n = st.lines.len() as int;
    code_laws::law_nesting_balanced(c);
    lemma_depth_of_plans(linkify, c, lines, n);
    assert forall|m: int| 0 <= m <= lines.len() implies #[trigger] depth(lines, m) >= 0 by {
        if m <= n {
            lemma_depth_of_plans(linkify, c, lines, m);
            assert(code_laws::closes(st.lines, m) <= code_laws::opens(st.lines, m));
        }
    }
    if code_laws::ranges_end_by(c.analysis, lines.len() as int + 1) && lines.len() == n {
        code_laws::law_ranges_end(c);
    }
}

/// On the page of a text that does not end in a line feed, or all of whose ranges end with the
/// text, exactly the nesting levels that were started are ended, none before its start.
pub proof fn law_all_levels_end<L: Fn(&str) -> String>(
    linkify: L,
    c: code::CodeInput,
    lines: Seq<FormattedLine>,
)
    requires
        code::code_lines(linkify, c, lines),
        source::tokens_valid(c.input, c.tokens),
        source::lines_countable(c.tokens),
        ({
            ||| code_laws::ranges_end_by(c.analysis, lines.len() as int + 1)
            ||| {
                &&& !code_laws::ends_in_line_feed(c.input)
                &&& code_laws::lines_end_in_line_feeds(c)
                &&& code_laws::keeps_text(linkify)
            }
        }),
    ensures
        forall|m: int| 0 <= m <= lines.len() ==> #[trigger] depth(lines, m) >= 0,
        depth(lines, lines.len() as int) == 0,
{
    law_page_nesting(linkify, c, lines);
    if !code_laws::ranges_end_by(c.analysis, lines.len() as int + 1) {
        code_laws::law_unfinished(c);
        if code_laws::unfinished(c).len() > 0 {
            code_laws::law_last_line(linkify, c, lines);
        }
    }
}

} // verus!
