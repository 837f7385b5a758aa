//! What holds of every page of a file: of its rows, their blame, and what stands around them.

use crate::blame;
use crate::blame::{BlameTrail, EntryView};
use crate::code;
use crate::code::FormattedLine;
use crate::file;
use crate::file::{CommitInfo, FormattedCode};
use crate::json;
use crate::page;
use crate::page::{
    Markup, MarkupView, Page, PanelSection, PanelSectionView, Step, StepView, TreeConfig,
};
use crate::paths;
use crate::split;
use crate::text;
use crate::text_laws;
use vstd::prelude::*;

verus! {

// ---------------------------------------------------------------------------
// Blame lines

/// Of a blame line the part before the first colon is the revision, the next the path, the next
/// the line; what follows a third colon is not looked at.
pub proof fn law_blame_line(
    rev: Seq<char>,
    filespec: Seq<char>,
    lineno: Seq<char>,
    rest: Seq<char>,
)
    requires
        !rev.contains(':'),
        !filespec.contains(':'),
        !lineno.contains(':'),
    ensures
        ({
            let colon = seq![':'];
            let short = rev + colon + filespec + colon + lineno;
            let long = short + colon + rest;
            let entry = EntryView { rev, filespec, lineno };
            &&& blame::is_blame_line(short)
            &&& blame::is_blame_line(long)
            &&& blame::blame_entry(short) == entry
            &&& blame::blame_entry(long) == entry
        }),
{
    let colon = seq![':'];
    let three = seq![rev, filespec, lineno];
    let four = three.push(rest);
    assert(seq![rev, filespec].drop_last() =~= seq![rev]);
    assert(three.drop_last() =~= seq![rev, filespec]);
    assert(four.drop_last() =~= three);
    assert(split::join(seq![rev], colon) == rev);
    assert(split::join(seq![rev, filespec], colon) == rev + colon + filespec);
    assert(split::join(three, colon) == rev + colon + filespec + colon + lineno);
    assert(split::join(four, colon) == rev + colon + filespec + colon + lineno + colon + rest);
    assert forall|i: int| 0 <= i < 3 implies !(#[trigger] four[i]).contains(':') by {}
    assert forall|i: int| 0 <= i < 2 implies !(#[trigger] three[i]).contains(':') by {}
    text_laws::law_split_first_of_join(three, 4, ':');
    text_laws::law_split_first_of_join(four, 4, ':');
}

/// What is told of a trail reads back as its revisions, its paths and its line numbers, one for
/// each entry, as long as there are no commas in them.
pub proof fn law_trail_reads_back(trail: Seq<EntryView>)
    requires
        trail.len() > 0,
        forall|i: int|
            0 <= i < trail.len() ==> !(#[trigger] trail[i]).rev.contains(',')
                && !trail[i].filespec.contains(',') && !trail[i].lineno.contains(','),
    ensures
        split::split(blame::trail_revs(trail), ',') == Seq::new(
            trail.len(),
            |i: int| trail[i].rev,
        ),
        split::split(blame::trail_filespecs(trail), ',') == Seq::new(
            trail.len(),
            |i: int| trail[i].filespec,
        ),
        split::split(blame::trail_linenos(trail), ',') == Seq::new(
            trail.len(),
            |i: int| trail[i].lineno,
        ),
{
    reveal_strlit(",");
    assert(","@ =~= seq![',']);
    let revs = Seq::new(trail.len(), |i: int| trail[i].rev);
    let filespecs = Seq::new(trail.len(), |i: int| trail[i].filespec);
    let linenos = Seq::new(trail.len(), |i: int| trail[i].lineno);
    assert forall|i: int| 0 <= i < trail.len() implies !(#[trigger] revs[i]).contains(',') by {
        assert(!trail[i].rev.contains(','));
    }
    assert forall|i: int| 0 <= i < trail.len() implies !(#[trigger] filespecs[i]).contains(',') by {
        assert(!trail[i].filespec.contains(','));
    }
    assert forall|i: int| 0 <= i < trail.len() implies !(#[trigger] linenos[i]).contains(',') by {
        assert(!trail[i].lineno.contains(','));
    }
    text_laws::law_split_of_join(revs, ',');
    text_laws::law_split_of_join(filespecs, ',');
    text_laws::law_split_of_join(linenos, ',');
}

/// A trail of one entry is told as the entry is; of any trail, the texts of two parts are told
/// with a comma between them.
pub proof fn law_trail_texts(a: Seq<EntryView>, b: Seq<EntryView>)
    requires
        a.len() > 0,
        b.len() > 0,
    ensures
        blame::trail_revs(a + b) == blame::trail_revs(a) + ","@ + blame::trail_revs(b),
        blame::trail_filespecs(a + b) == blame::trail_filespecs(a) + ","@
            + blame::trail_filespecs(b),
        blame::trail_linenos(a + b) == blame::trail_linenos(a) + ","@ + blame::trail_linenos(b),
        a.len() == 1 ==> blame::trail_revs(a) == a[0].rev && blame::trail_filespecs(a)
            == a[0].filespec && blame::trail_linenos(a) == a[0].lineno,
{
    let all = a + b;
    let revs = |t: Seq<EntryView>| Seq::new(t.len(), |i: int| t[i].rev);
    let filespecs = |t: Seq<EntryView>| Seq::new(t.len(), |i: int| t[i].filespec);
    let linenos = |t: Seq<EntryView>| Seq::new(t.len(), |i: int| t[i].lineno);
    assert(revs(all) =~= revs(a) + revs(b));
    assert(filespecs(all) =~= filespecs(a) + filespecs(b));
    assert(linenos(all) =~= linenos(a) + linenos(b));
    text_laws::law_join_parts(revs(a), revs(b), ","@);
    text_laws::law_join_parts(filespecs(a), filespecs(b), ","@);
    text_laws::law_join_parts(linenos(a), linenos(b), ","@);
    assert(blame::trail_revs(all) == split::join(revs(all), ","@));
    assert(blame::trail_revs(a) == split::join(revs(a), ","@));
    assert(blame::trail_revs(b) == split::join(revs(b), ","@));
    assert(blame::trail_filespecs(all) == split::join(filespecs(all), ","@));
    assert(blame::trail_filespecs(a) == split::join(filespecs(a), ","@));
    assert(blame::trail_filespecs(b) == split::join(filespecs(b), ","@));
    assert(blame::trail_linenos(all) == split::join(linenos(all), ","@));
    assert(blame::trail_linenos(a) == split::join(linenos(a), ","@));
    assert(blame::trail_linenos(b) == split::join(linenos(b), ","@));
}

// ---------------------------------------------------------------------------
// The walk

/// A walk starts where the blame line of the line says, may pass five revisions, and goes on where
/// the blame line of the revision before says.
pub proof fn law_walk_places(
    w: blame::WalkView,
    line: Seq<char>,
    path: Seq<char>,
)
    ensures
        ({
            let e = blame::blame_entry(line);
            let first = blame::walk_from(line, path);
            let next = blame::walk_on(w, line, path);
            &&& first.trail == seq![e]
            &&& first.rev == e.rev
            &&& first.path == (if e.filespec == "%"@ {
                path
            } else {
                e.filespec
            })
            &&& text::u32_of(e.lineno) is Some ==> first.lineno == text::u32_of(e.lineno)->0
            &&& first.left == 5
            &&& next.trail.len() == w.trail.len() + 1
            &&& next.trail.drop_last() == w.trail
            &&& next.trail.last().rev == e.rev
            &&& next.trail.last().lineno == e.lineno
            &&& next.rev == e.rev
            &&& next.path == (if e.filespec == "%"@ {
                path
            } else {
                e.filespec
            })
            &&& text::u32_of(e.lineno) is Some ==> next.lineno == text::u32_of(e.lineno)->0
            &&& next.left == w.left
            &&& blame::walk_passed(w).left == w.left - 1
            &&& blame::walk_passed(w).trail == w.trail
            &&& blame::walk_passed(w).rev == w.rev
            &&& blame::walk_passed(w).path == w.path
            &&& blame::walk_passed(w).lineno == w.lineno
        }),
{
    assert(blame::walk_on(w, line, path).trail.drop_last() =~= w.trail);
}

/// A path is told by a percent sign exactly if it is the path that the file has now.
pub proof fn law_told_by_percent(filespec: Seq<char>, prev: Seq<char>, cur: Seq<char>)
    requires
        prev != "%"@,
    ensures
        blame::told_path(filespec, prev, cur) == "%"@ <==> paths::components(
            if filespec == "%"@ {
                prev
            } else {
                filespec
            },
        ) == paths::components(cur),
        blame::told_path(filespec, prev, cur) != "%"@ ==> blame::told_path(filespec, prev, cur)
            == (if filespec == "%"@ {
            prev
        } else {
            filespec
        }),
{
}

/// The entry behind a history that was cut off is empty.
pub proof fn law_cut_entry()
    ensures
        blame::cut_entry().rev.len() == 0,
        blame::cut_entry().filespec.len() == 0,
        blame::cut_entry().lineno.len() == 0,
{
}

// ---------------------------------------------------------------------------
// Rows

/// How many of the first `n` lines open a nesting level.
pub open spec fn levels_opened(lines: Seq<FormattedLine>, n: int) -> int
    decreases n,
{
    if n <= 0 {
        0
    } else if lines[n - 1].starts_nest {
        1 + levels_opened(lines, n - 1)
    } else {
        levels_opened(lines, n - 1)
    }
}

/// How many nesting levels the first `n` lines end.
pub open spec fn levels_ended(lines: Seq<FormattedLine>, n: int) -> int
    decreases n,
{
    if n <= 0 {
        0
    } else {
        lines[n - 1].pop_nest_count + levels_ended(lines, n - 1)
    }
}

/// How deep the nesting is behind some lines: what they opened, less what they ended.
pub proof fn law_depth(lines: Seq<FormattedLine>, n: int)
    ensures
        file::depth(lines, n) == levels_opened(lines, n) - levels_ended(lines, n),
    decreases n,
{
    if n > 0 {
        law_depth(lines, n - 1);
    }
}

/// The place of the first step of line `i`: each line before it has a row, a step for the level
/// that it opens, and one for each level that it ends.
pub open spec fn place(lines: Seq<FormattedLine>, i: int) -> int {
    i + levels_opened(lines, i) + levels_ended(lines, i)
}

/// A strip tells the revisions, the paths and the line numbers of a trail, in one of two colors.
pub open spec fn told_strip(first_color: bool, trail: Seq<EntryView>) -> Seq<char> {
    "<div role=\"cell\" class=\"blame-container\"><div"@ + ((if first_color {
        " class=\"blame-strip c1\" data-blame=\""@
    } else {
        " class=\"blame-strip c2\" data-blame=\""@
    }) + split::join(Seq::new(trail.len(), |i: int| trail[i].rev), ","@) + "#"@ + split::join(
        Seq::new(trail.len(), |i: int| trail[i].filespec),
        ","@,
    ) + "#"@ + split::join(Seq::new(trail.len(), |i: int| trail[i].lineno), ","@)
        + "\" role=\"button\" aria-label=\"blame\" aria-expanded=\"false\""@) + "></div></div>"@
}

/// A trail of one entry is told as the entry is.
pub proof fn lemma_single_trail(entry: EntryView)
    ensures
        forall|first_color: bool|
            #[trigger] told_strip(first_color, seq![entry]) == blame::blame_cell(
                blame::strip_attributes(first_color, entry.rev, entry.filespec, entry.lineno),
            ),
{
    let one = seq![entry];
    assert(Seq::new(1, |i: int| one[i].rev) =~= seq![entry.rev]);
    assert(Seq::new(1, |i: int| one[i].filespec) =~= seq![entry.filespec]);
    assert(Seq::new(1, |i: int| one[i].lineno) =~= seq![entry.lineno]);
    assert(split::join(seq![entry.rev], ","@) == entry.rev);
    assert(split::join(seq![entry.filespec], ","@) == entry.filespec);
    assert(split::join(seq![entry.lineno], ","@) == entry.lineno);
}

/// The space for a strip, where nothing is told.
pub open spec fn empty_strip() -> Seq<char> {
    "<div role=\"cell\" class=\"blame-container\"><div"@
        + " class=\"blame-strip\" role=\"aria-hidden\""@ + "></div></div>"@
}

/// Whether a step is the row of a line: its blame, its number, and its text.
pub open spec fn is_row_of(
    step: StepView,
    open: Seq<char>,
    strip: Seq<char>,
    number: nat,
    line: Seq<char>,
) -> bool {
    exists|n: Seq<char>|
        {
            &&& #[trigger] text::digits_value(n) == number
            &&& text::all_digits(n)
            &&& step == StepView::Lines(
                MarkupView::List(
                    seq![
                        MarkupView::Line(open),
                        MarkupView::Indent(
                            seq![
                                MarkupView::Line(strip),
                                MarkupView::Line(
                                    "<div id=\"l"@ + n
                                        + "\" role=\"cell\" class=\"line-number\">"@ + n
                                        + "</div>"@,
                                ),
                                MarkupView::Line(
                                    "<code role=\"cell\" class=\"source-line\" id=\"line-"@ + n
                                        + "\">"@ + line + "\n</code>"@,
                                ),
                            ],
                        ),
                        MarkupView::Line("</div>"@),
                    ],
                ),
            )
        }
}

/// What opens a row: one that starts a nesting level tells how deep that is.
pub open spec fn opening(lines: Seq<FormattedLine>, i: int) -> Seq<char> {
    let level = levels_opened(lines, i + 1) - levels_ended(lines, i);
    "<div role=\"row\" class=\"source-line-with-number"@ + (if lines[i].starts_nest {
        " nesting-depth-"@ + text::signed_dec(level)
    } else {
        ""@
    }) + "\">"@
}

/// Every line of a file is shown, at its place: where it opens a nesting level a container is
/// opened, then comes its row, then as many containers are closed as it ends levels. Whatever the
/// line does to the nesting, its row tells its number, its text, and the blame of this line; only
/// where the file has no blame is the strip empty.
pub proof fn law_line_is_shown(
    lines: Seq<FormattedLine>,
    blames: Option<Seq<Seq<EntryView>>>,
    i: int,
)
    requires
        0 <= i < lines.len(),
    ensures
        ({
            let all = file::lines_steps(lines, blames, lines.len() as int);
            let at = place(lines, i);
            let row = if lines[i].starts_nest {
                at + 1
            } else {
                at
            };
            let strip = match blames {
                Some(b) => told_strip(color(lines, blames, i), b[i]),
                None => empty_strip(),
            };
            &&& 0 <= at
            &&& row + lines[i].pop_nest_count < all.len()
            &&& lines[i].starts_nest ==> all[at] == StepView::Text(
                "<div class=\"nesting-container\">"@,
            )
            &&& is_row_of(all[row], opening(lines, i), strip, (i + 1) as nat, lines[i].line@)
            &&& forall|j: int|
                row < j <= row + lines[i].pop_nest_count ==> #[trigger] all[j] == StepView::Text(
                    "</div>"@,
                )
        }),
{
    let n = lines.len() as int;
    lemma_place(lines, i);
    lemma_place(lines, i + 1);
    lemma_steps_at(lines, blames, i, n);
    law_depth(lines, i);
    text_laws::law_decimal_reads_back((i + 1) as nat);
    let number = text::dec((i + 1) as nat);
    let own = file::line_steps(lines, blames, i);
    let all = file::lines_steps(lines, blames, n);
    let at = place(lines, i);
    let count = if lines[i].starts_nest {
        1int
    } else {
        0
    };
    let row = at + count;
    assert(own.len() == count + 1 + lines[i].pop_nest_count);
    assert(all[row] == own[row - at]);
    if lines[i].starts_nest {
        assert(all[at] == own[0]);
    }
    assert forall|j: int| row < j <= row + lines[i].pop_nest_count implies #[trigger] all[j]
        == StepView::Text("</div>"@) by {
        assert(all[j] == own[j - at]);
        assert(own[j - at] == file::closing_steps(lines[i].pop_nest_count as nat)[j - row - 1]);
    }
    assert(text::digits_value(number) == i + 1);
}

/// The steps of the lines are those of each line and no others.
pub proof fn law_no_other_steps(
    lines: Seq<FormattedLine>,
    blames: Option<Seq<Seq<EntryView>>>,
)
    ensures
        file::lines_steps(lines, blames, lines.len() as int).len() == place(
            lines,
            lines.len() as int,
        ),
{
    lemma_steps_len(lines, blames, lines.len() as int);
}

proof fn lemma_place(lines: Seq<FormattedLine>, i: int)
    ensures
        0 <= levels_opened(lines, i),
        0 <= levels_ended(lines, i),
    decreases i,
{
    if i > 0 {
        lemma_place(lines, i - 1);
    }
}

proof fn lemma_steps_len(
    lines: Seq<FormattedLine>,
    blames: Option<Seq<Seq<EntryView>>>,
    n: int,
)
    requires
        0 <= n <= lines.len(),
    ensures
        file::lines_steps(lines, blames, n).len() == place(lines, n),
    decreases n,
{
    if n > 0 {
        lemma_steps_len(lines, blames, n - 1);
    }
}

proof fn lemma_steps_at(
    lines: Seq<FormattedLine>,
    blames: Option<Seq<Seq<EntryView>>>,
    i: int,
    n: int,
)
    requires
        0 <= i < n <= lines.len(),
    ensures
        ({
            let all = file::lines_steps(lines, blames, n);
            let own = file::line_steps(lines, blames, i);
            let at = place(lines, i);
            &&& at + own.len() <= all.len()
            &&& forall|j: int| at <= j < at + own.len() ==> #[trigger] all[j] == own[j - at]
        }),
    decreases n,
{
    lemma_place(lines, i);
    lemma_steps_len(lines, blames, n - 1);
    if i < n - 1 {
        lemma_steps_at(lines, blames, i, n - 1);
        let all = file::lines_steps(lines, blames, n);
        let before = file::lines_steps(lines, blames, n - 1);
        let own = file::line_steps(lines, blames, i);
        let at = place(lines, i);
        assert forall|j: int| at <= j < at + own.len() implies #[trigger] all[j] == own[j - at] by {
            assert(before[j] == own[j - at]);
            assert(all[j] == before[j]);
        }
    }
}

/// The color of the strip of line `i`.
pub open spec fn color(
    lines: Seq<FormattedLine>,
    blames: Option<Seq<Seq<EntryView>>>,
    i: int,
) -> bool {
    blame::shade_after(file::line_revs(blames, lines.len() as int), i + 1).color
}

/// The first strip has the first color, and the color changes from a line to the next exactly if
/// what is told of their revisions differs.
pub proof fn law_colors(
    lines: Seq<FormattedLine>,
    trails: Seq<Seq<EntryView>>,
    i: int,
)
    requires
        0 <= i < lines.len(),
    ensures
        color(lines, Some(trails), 0),
        i + 1 < lines.len() ==> (color(lines, Some(trails), i) == color(
            lines,
            Some(trails),
            i + 1,
        ) <==> blame::trail_revs(trails[i]) == blame::trail_revs(trails[i + 1])),
{
    let revs = file::line_revs(Some(trails), lines.len() as int);
    assert(revs[0] == Some(blame::trail_revs(trails[0])));
    assert(blame::shade_after(revs, 0) == blame::no_shade());
    assert(blame::shade_after(revs, 1) == blame::shaded(
        blame::no_shade(),
        blame::trail_revs(trails[0]),
    ));
    assert(revs[i] == Some(blame::trail_revs(trails[i])));
    if i + 1 < lines.len() {
        assert(revs[i + 1] == Some(blame::trail_revs(trails[i + 1])));
        assert(blame::shade_after(revs, i + 1) == blame::shaded(
            blame::shade_after(revs, i),
            blame::trail_revs(trails[i]),
        ));
        assert(blame::shade_after(revs, i + 2) == blame::shaded(
            blame::shade_after(revs, i + 1),
            blame::trail_revs(trails[i + 1]),
        ));
    }
}

// ---------------------------------------------------------------------------
// The page

/// The page of a file that is shown: the header, the path, the panel, the picture where there is
/// one to show, the table with all lines, the symbol data, and the footer.
pub proof fn law_file_page(
    tree: &TreeConfig,
    tree_name: Seq<char>,
    panel: Seq<PanelSectionView>,
    commit: Option<&CommitInfo>,
    path: Seq<char>,
    code: &FormattedCode,
    blames: Option<Seq<Seq<EntryView>>>,
    diffable: bool,
)
    requires
        commit is Some ==> commit->0.header is Ok,
        paths::file_name(path) is Some,
    ensures
        ({
            let page = file::file_page(
                Some(tree),
                tree_name,
                panel,
                commit,
                path,
                Some(code),
                blames,
                diffable,
            );
            let s = page.steps;
            let rows = file::lines_steps(code.lines@, blames, code.lines@.len() as int);
            let picture = tree.hg_root is Some && paths::extension(path) == Some("svg"@);
            let t = if picture {
                4int
            } else {
                3
            };
            let last = s.len() - 1;
            &&& page.error is None
            &&& s.len() == t + 1 + rows.len() + 3
            &&& s[0] is Header
            &&& s[1] == StepView::Breadcrumbs(path)
            &&& s[2] == StepView::Panel(panel)
            &&& picture ==> s[3] == StepView::SvgPreview(
                tree.hg_root->0@ + "/raw-file/tip/"@ + path,
            )
            &&& s[t] == StepView::Lines(
                MarkupView::List(
                    seq![MarkupView::Line("<div id=\"file\" class=\"file\" role=\"table\">"@)],
                ),
            )
            &&& forall|j: int| 0 <= j < rows.len() ==> s[t + 1 + j] == #[trigger] rows[j]
            &&& s[last - 2] == StepView::Lines(
                MarkupView::List(seq![MarkupView::Line("</div>"@)]),
            )
            &&& s[last - 1] == StepView::Text(
                "<script>var ANALYSIS_DATA = "@ + code.analysis_json@ + ";</script>\n"@,
            )
            &&& s[last] == StepView::Footer(path)
            &&& page.options is Some
            &&& page.options->0.title == paths::file_name(path)->0 + " - mozsearch"@
            &&& page.options->0.tree_name == tree_name
            &&& page.options->0.include_date == !diffable
            &&& page.options->0.extra_content_classes == "source-listing not-diff"@
            &&& match commit {
                Some(c) => page.options->0.revision == Some((c.id@, c.header->Ok_0.0@)),
                None => page.options->0.revision is None,
            }
        }),
{
}

/// A file of a tree that is not configured, and one of a commit without a header, are not shown;
/// of a binary file nothing but that is told.
pub proof fn law_file_not_shown(
    tree: Option<&TreeConfig>,
    tree_name: Seq<char>,
    panel: Seq<PanelSectionView>,
    commit: Option<&CommitInfo>,
    path: Seq<char>,
    code: Option<&FormattedCode>,
    blames: Option<Seq<Seq<EntryView>>>,
    diffable: bool,
)
    ensures
        ({
            let page = file::file_page(
                tree,
                tree_name,
                panel,
                commit,
                path,
                code,
                blames,
                diffable,
            );
            &&& tree is None ==> page.error == Some("Invalid tree"@) && page.steps.len() == 0
                && page.options is None
            &&& tree is Some && code is None ==> page.error is None && page.options is None
                && page.steps == seq![StepView::Text("Binary file"@)]
            &&& tree is Some && code is Some && commit is Some && commit->0.header is Err
                ==> page.error == Some(commit->0.header->Err_0@) && page.steps.len() == 0
                && page.options is None
        }),
{
}

/// What a text is rendered from: its lines are a rendering of it with the jumps and the records
/// that are given, its symbol data belongs to them, and line `i` has what is told of line `i`.
pub proof fn law_rendered_from<L: Fn(&str) -> String, B: Fn(usize) -> BlameTrail>(
    linkify: L,
    blame: Option<&B>,
    c: code::CodeInput,
    commit: Option<&CommitInfo>,
    diffable: bool,
    code: FormattedCode,
    blames: Option<Seq<Seq<EntryView>>>,
)
    requires
        file::renders_file(linkify, blame, c, commit, diffable, code, blames),
    ensures
        code::code_lines(linkify, c, code.lines@),
        code.analysis_json@ == (if diffable {
            json::pretty_json(code::run_all(c).menus)
        } else {
            json::compact_json(code::run_all(c).menus)
        }),
        !(commit is Some && commit->0.header is Err) ==> (blame is Some <==> blames is Some),
        !(commit is Some && commit->0.header is Err) && blame is Some ==> {
            &&& blames->0.len() == code.lines@.len()
            &&& forall|i: int|
                0 <= i < code.lines@.len() ==> tells(*blame->0, i, #[trigger] blames->0[i])
        },
{
    if !(commit is Some && commit->0.header is Err) && blame is Some {
        assert forall|i: int| 0 <= i < code.lines@.len() implies tells(
            *blame->0,
            i,
            #[trigger] blames->0[i],
        ) by {
            assert(file::told_by(*blame->0, i, blames->0[i]));
            let r = choose|r: BlameTrail|
                #[trigger] call_ensures(*blame->0, (i as usize,), r) && r@ == blames->0[i];
            assert(call_ensures(*blame->0, (i as usize,), r));
        }
    }
}

/// Whether `blame`, asked for line `i`, can give this trail.
pub open spec fn tells<B: Fn(usize) -> BlameTrail>(
    blame: B,
    i: int,
    trail: Seq<EntryView>,
) -> bool {
    exists|r: BlameTrail| r@ == trail && #[trigger] call_ensures(blame, (i as usize,), r)
}

// ---------------------------------------------------------------------------
// What values hold

/// What markup holds: its line, or what each of its parts holds, in their order.
pub proof fn law_markup_view(m: Markup)
    ensures
        match m {
            Markup::Line(s) => m@ == MarkupView::Line(s@),
            Markup::Indent(v) => {
                &&& m@ matches MarkupView::Indent(parts)
                &&& parts.len() == v@.len()
                &&& forall|i: int| 0 <= i < v@.len() ==> #[trigger] parts[i] == v@[i]@
            },
            Markup::List(v) => {
                &&& m@ matches MarkupView::List(parts)
                &&& parts.len() == v@.len()
                &&& forall|i: int| 0 <= i < v@.len() ==> #[trigger] parts[i] == v@[i]@
            },
        },
{
    reveal_with_fuel(<Markup as View>::view, 2);
}

/// What a page holds: its options, its steps in their order, and its error, with all their texts.
pub proof fn law_page_view(page: Page, i: int)
    requires
        0 <= i < page.steps@.len(),
    ensures
        page@.steps.len() == page.steps@.len(),
        match page.steps@[i] {
            Step::Header => page@.steps[i] is Header,
            Step::Breadcrumbs(s) => page@.steps[i] == StepView::Breadcrumbs(s@),
            Step::Panel(v) => {
                &&& page@.steps[i] matches StepView::Panel(sections)
                &&& sections.len() == v@.len()
                &&& forall|j: int| 0 <= j < v@.len() ==> #[trigger] sections[j] == v@[j]@
            },
            Step::SvgPreview(s) => page@.steps[i] == StepView::SvgPreview(s@),
            Step::Lines(m) => page@.steps[i] == StepView::Lines(m@),
            Step::Text(s) => page@.steps[i] == StepView::Text(s@),
            Step::Footer(s) => page@.steps[i] == StepView::Footer(s@),
        },
        match page.error {
            Some(e) => page@.error == Some(e@),
            None => page@.error is None,
        },
        match page.options {
            Some(o) => {
                &&& page@.options is Some
                &&& page@.options->0.title == o.title@
                &&& page@.options->0.tree_name == o.tree_name@
                &&& page@.options->0.include_date == o.include_date
                &&& page@.options->0.extra_content_classes == o.extra_content_classes@
                &&& match o.revision {
                    Some((rev, header)) => page@.options->0.revision == Some((rev@, header@)),
                    None => page@.options->0.revision is None,
                }
            },
            None => page@.options is None,
        },
{
}

/// What a section of the panel holds: its name, and the title, the link, its ending and the key of
/// each entry, in their order.
pub proof fn law_section_view(section: PanelSection, i: int)
    requires
        0 <= i < section.items@.len(),
    ensures
        section@.name == section.name@,
        section@.items.len() == section.items@.len(),
        section@.items[i].title == section.items@[i].title@,
        section@.items[i].link == section.items@[i].link@,
        section@.items[i].update_link_lineno == section.items@[i].update_link_lineno@,
        section@.items[i].accel_key == section.items@[i].accel_key,
{
}

/// The histories of the lines are those of the trails, in their order.
pub proof fn law_trail_views(trails: Option<&Vec<BlameTrail>>)
    ensures
        match trails {
            Some(v) => {
                &&& file::blame_views(trails) is Some
                &&& file::blame_views(trails)->0.len() == v@.len()
                &&& forall|i: int|
                    0 <= i < v@.len() ==> #[trigger] file::blame_views(trails)->0[i] == v@[i]@
            },
            None => file::blame_views(trails) is None,
        },
{
}

/// A page of which nothing is written tells why.
pub proof fn law_failed(error: Seq<char>)
    ensures
        page::failed(error).error == Some(error),
        page::failed(error).steps.len() == 0,
        page::failed(error).options is None,
{
}

/// A blame line is one with two colons at least.
pub proof fn law_is_blame_line(line: Seq<char>)
    ensures
        blame::is_blame_line(line) <==> (exists|i: int, j: int|
            0 <= i < j < line.len() && #[trigger] line[i] == ':' && #[trigger] line[j] == ':'),
{
    text_laws::law_split_first(line, 4, ':');
    let pieces = blame::blame_pieces(line);
    let colon = seq![':'];
    if pieces.len() >= 3 {
        split::lemma_join_first(pieces, colon);
        let rest = pieces.drop_first();
        split::lemma_join_first(rest, colon);
        let i = pieces[0].len() as int;
        let j = i + 1 + rest[0].len();
        let tail = split::join(rest.drop_first(), colon);
        assert(line == pieces[0] + colon + (rest[0] + colon + tail));
        assert(line[i] == ':');
        assert(line[j] == (rest[0] + colon + tail)[j - i - 1]);
        assert(line[j] == ':');
    } else if exists|i: int, j: int|
        0 <= i < j < line.len() && #[trigger] line[i] == ':' && #[trigger] line[j] == ':' {
        let (i, j) = choose|i: int, j: int|
            0 <= i < j < line.len() && #[trigger] line[i] == ':' && #[trigger] line[j] == ':';
        assert(!pieces.last().contains(':'));
        if pieces.len() == 1 {
            assert(line == pieces[0]);
            assert(line.contains(line[i]));
        } else {
            split::lemma_join_first(pieces, colon);
            let p = pieces[0];
            let q = pieces.last();
            assert(pieces.drop_first() =~= seq![q]);
            assert(split::join(seq![q], colon) == q);
            assert(line == p + colon + q);
            assert(!p.contains(':'));
            if i < p.len() {
                assert(p[i] == ':');
                assert(p.contains(p[i]));
            } else {
                assert(q[j - p.len() - 1] == ':');
                assert(q.contains(q[j - p.len() - 1]));
            }
        }
    }
}

} // verus!
