//! The page of a commit.

use crate::file;
use crate::file::write_title;
use crate::page;
use crate::page::{
    fail, indent, list, push_line, push_markup, push_step, Markup, MarkupView, Page, PageOptions,
    PageOptionsView, PageView, Step, StepView, TreeConfig,
};
use crate::split;
use crate::split::{split_at_each, split_first, split_lines};
use crate::text;
use crate::text::slice;
use crate::time;
use crate::time::write_time;
use vstd::prelude::*;

verus! {

// ---------------------------------------------------------------------------
// The changed files

/// The arguments with which git lists the files that a commit changes.
pub fn show_arguments(id: &str) -> (r: Vec<String>)
    ensures
        split::strings(r@) == seq!["show"@, "--cc"@, "--pretty=format:"@, "--raw"@, id@],
{
    let mut r: Vec<String> = Vec::new();
    r.push("show".to_owned());
    r.push("--cc".to_owned());
    r.push("--pretty=format:".to_owned());
    r.push("--raw".to_owned());
    r.push(id.to_owned());
    proof {
        assert(split::strings(r@) =~= seq![
            "show"@,
            "--cc"@,
            "--pretty=format:"@,
            "--raw"@,
            id@,
        ]);
    }
    r
}

/// A changed file: the letters that tell how it was changed, and its path.
pub struct ChangeView {
    pub status: Seq<char>,
    pub path: Seq<char>,
}

/// What a line of the list of changed files says.
pub enum LineView {
    Change(ChangeView),
    /// There are too few fields before the status.
    Invalid,
    /// The line is too short for its marks, or has no path behind the status.
    Malformed,
}

/// What reading the list of changed files came to.
pub enum ChangesView {
    Listed(Seq<ChangeView>),
    Invalid,
    Malformed,
}

/// How many fields come before the status: the file mode and the blob, for each parent and for the
/// commit.
pub open spec fn field_count(parents: nat) -> nat {
    2 * (parents + 1)
}

/// What a line of the list says. It starts with one colon for each parent; the status follows
/// behind as many spaces as there are fields, then a tab and the path.
pub open spec fn read_change(line: Seq<char>, parents: nat) -> LineView {
    if !text::boundary(line, parents as int) {
        LineView::Malformed
    } else {
        let fields = split::split_n(
            text::byte_slice(line, parents as int, text::byte_len(line) as int),
            field_count(parents) + 1,
            ' ',
        );
        if fields.len() <= field_count(parents) {
            LineView::Invalid
        } else {
            let parts = split::split(fields[field_count(parents) as int], '\t');
            if parts.len() < 2 {
                LineView::Malformed
            } else {
                LineView::Change(ChangeView { status: parts[0], path: parts[1] })
            }
        }
    }
}

/// What the first `n` lines of the list say; empty lines are passed over.
pub open spec fn read_changes(lines: Seq<Seq<char>>, parents: nat, n: int) -> ChangesView
    decreases n,
{
    if n <= 0 {
        ChangesView::Listed(seq![])
    } else {
        match read_changes(lines, parents, n - 1) {
            ChangesView::Listed(before) => if lines[n - 1].len() == 0 {
                ChangesView::Listed(before)
            } else {
                match read_change(lines[n - 1], parents) {
                    LineView::Change(c) => ChangesView::Listed(before.push(c)),
                    LineView::Invalid => ChangesView::Invalid,
                    LineView::Malformed => ChangesView::Malformed,
                }
            },
            other => other,
        }
    }
}

/// What a list of changed files says.
pub open spec fn changes_of(raw: Seq<char>, parents: nat) -> ChangesView {
    let lines = split::line_pieces(raw);
    read_changes(lines, parents, lines.len() as int)
}

/// Whether a list of changed files can be read.
pub open spec fn raw_valid(raw: Seq<char>, parents: nat) -> bool {
    &&& field_count(parents) < usize::MAX
    &&& !(changes_of(raw, parents) is Malformed)
}

/// A changed file.
#[derive(Debug, PartialEq, Eq)]
pub struct Change {
    pub status: String,
    pub path: String,
}

impl View for Change {
    type V = ChangeView;

    open spec fn view(&self) -> ChangeView {
        ChangeView { status: self.status@, path: self.path@ }
    }
}

/// What each change holds.
pub open spec fn change_views(v: Seq<Change>) -> Seq<ChangeView> {
    Seq::new(v.len(), |i: int| v[i]@)
}

enum Line {
    Change(Change),
    Invalid,
    Malformed,
}

spec fn line_view(line: Line) -> LineView {
    match line {
        Line::Change(c) => LineView::Change(c@),
        Line::Invalid => LineView::Invalid,
        Line::Malformed => LineView::Malformed,
    }
}

enum Changes {
    Listed(Vec<Change>),
    Invalid,
    Malformed,
}

spec fn changes_view(changes: Changes) -> ChangesView {
    match changes {
        Changes::Listed(v) => ChangesView::Listed(change_views(v@)),
        Changes::Invalid => ChangesView::Invalid,
        Changes::Malformed => ChangesView::Malformed,
    }
}

fn scan_line(line: &str, parents: usize) -> (r: Line)
    requires
        field_count(parents as nat) < usize::MAX,
    ensures
        line_view(r) == read_change(line@, parents as nat),
{
    if !line.is_char_boundary(parents) {
        return Line::Malformed;
    }
    let len = line.as_bytes().len();
    proof {
        text::lemma_boundary_bounds(line@, parents as int);
    }
    let suffix = slice(line, parents, len);
    let count: usize = 2 * (parents + 1);
    let fields = split_first(suffix, count + 1, ' ');
    proof {
        assert(split::strs(fields@).len() == fields@.len());
    }
    if fields.len() <= count {
        return Line::Invalid;
    }
    let parts = split_at_each(fields[count], '\t');
    proof {
        assert(split::strs(parts@).len() == parts@.len());
    }
    if parts.len() < 2 {
        return Line::Malformed;
    }
    Line::Change(Change { status: parts[0].to_owned(), path: parts[1].to_owned() })
}

proof fn lemma_changes_stuck(lines: Seq<Seq<char>>, parents: nat, i: int, n: int)
    requires
        0 <= i <= n,
        !(read_changes(lines, parents, i) is Listed),
    ensures
        read_changes(lines, parents, n) == read_changes(lines, parents, i),
    decreases n,
{
    if i < n {
        lemma_changes_stuck(lines, parents, i, n - 1);
    }
}

fn scan_changes(raw: &str, parents: usize) -> (r: Changes)
    requires
        field_count(parents as nat) < usize::MAX,
    ensures
        changes_view(r) == changes_of(raw@, parents as nat),
{
    let lines = split_lines(raw);
    let ghost all = split::strs(lines@);
    let ghost total = all.len() as int;
    let mut changes: Vec<Change> = Vec::new();
    proof {
        assert(change_views(changes@) =~= seq![]);
    }
    let mut i: usize = 0;
    while i < lines.len()
        invariant
            field_count(parents as nat) < usize::MAX,
            i <= lines@.len(),
            all == split::strs(lines@),
            all == split::line_pieces(raw@),
            total == all.len(),
            read_changes(all, parents as nat, i as int) == ChangesView::Listed(
                change_views(changes@),
            ),
        decreases lines@.len() - i,
    {
        let line = lines[i];
        proof {
            assert(all[i as int] == line@);
        }
        if !line.is_empty() {
            match scan_line(line, parents) {
                Line::Change(c) => {
                    let ghost before = changes@;
                    let ghost view = c@;
                    changes.push(c);
                    proof {
                        assert(change_views(changes@) =~= change_views(before).push(view));
                    }
                },
                Line::Invalid => {
                    proof {
                        lemma_changes_stuck(all, parents as nat, i + 1, total);
                    }
                    return Changes::Invalid;
                },
                Line::Malformed => {
                    proof {
                        lemma_changes_stuck(all, parents as nat, i + 1, total);
                    }
                    return Changes::Malformed;
                },
            }
        }
        i = i + 1;
    }
    Changes::Listed(changes)
}

/// Tells whether a list of changed files can be read.
pub fn check_raw(raw: &str, parents: usize) -> (r: bool)
    ensures
        r == raw_valid(raw@, parents as nat),
{
    if parents > (usize::MAX - 1) / 2 - 1 {
        return false;
    }
    match scan_changes(raw, parents) {
        Changes::Malformed => false,
        _ => true,
    }
}

/// Reads the list of the files that a commit with this many parents changes.
pub fn parse_changes(raw: &str, parents: usize) -> (r: Result<Vec<Change>, &'static str>)
    requires
        raw_valid(raw@, parents as nat),
    ensures
        match r {
            Ok(v) => changes_of(raw@, parents as nat) == ChangesView::Listed(change_views(v@)),
            Err(e) => changes_of(raw@, parents as nat) is Invalid && e@ == "Invalid diff output 3"@,
        },
{
    match scan_changes(raw, parents) {
        Changes::Listed(v) => Ok(v),
        _ => Err("Invalid diff output 3"),
    }
}

/// The lines that are not empty among the first `n`.
pub open spec fn filled_lines(lines: Seq<Seq<char>>, n: int) -> Seq<Seq<char>>
    decreases n,
{
    if n <= 0 {
        seq![]
    } else if lines[n - 1].len() == 0 {
        filled_lines(lines, n - 1)
    } else {
        filled_lines(lines, n - 1).push(lines[n - 1])
    }
}

proof fn lemma_changes(lines: Seq<Seq<char>>, parents: nat, n: int)
    requires
        0 <= n <= lines.len(),
        read_changes(lines, parents, n) is Listed,
    ensures
        ({
            let changes = read_changes(lines, parents, n)->Listed_0;
            let filled = filled_lines(lines, n);
            &&& changes.len() == filled.len()
            &&& forall|i: int|
                0 <= i < changes.len() ==> read_change(filled[i], parents) == LineView::Change(
                    #[trigger] changes[i],
                )
        }),
    decreases n,
{
    if n > 0 {
        lemma_changes(lines, parents, n - 1);
    }
}

/// Where the list can be read, each of its lines that is not empty gives one changed file, in
/// order.
pub proof fn law_changes(raw: Seq<char>, parents: nat)
    requires
        changes_of(raw, parents) is Listed,
    ensures
        ({
            let changes = changes_of(raw, parents)->Listed_0;
            let lines = split::line_pieces(raw);
            let filled = filled_lines(lines, lines.len() as int);
            &&& changes.len() == filled.len()
            &&& forall|i: int|
                0 <= i < changes.len() ==> read_change(filled[i], parents) == LineView::Change(
                    #[trigger] changes[i],
                )
        }),
{
    let lines = split::line_pieces(raw);
    lemma_changes(lines, parents, lines.len() as int);
}

// ---------------------------------------------------------------------------
// The commit

/// Who made a change, as the project wants it told.
#[derive(Debug, PartialEq, Eq)]
pub struct Person {
    pub name: String,
    pub email: String,
}

/// What came of asking git for the files that a commit changes.
#[derive(Debug)]
pub enum RawDiff {
    /// The tree has no directory to run git in, for this reason.
    NoPath(&'static str),
    /// Git could not be run.
    NotRun,
    /// Git failed.
    RunFailed,
    Output(String),
}

/// A commit, with all that its page needs.
#[derive(Debug)]
pub struct CommitData {
    pub id: String,
    /// What the message is taken apart into, the header and the rest, or why that failed.
    pub header: Result<(String, String), &'static str>,
    pub parents: Vec<String>,
    /// How many of the parents, the first ones, are at hand; the list of changed files has marks and
    /// fields for these.
    pub parent_count: usize,
    /// The Mercurial revision that the commit stands for.
    pub hg_id: Option<String>,
    pub author: Person,
    pub committer: Person,
    /// The time of the commit in seconds from the start of 1970 on, in UTC.
    pub seconds: i64,
    /// How many minutes the committer's clock was ahead of UTC.
    pub offset_minutes: i32,
    pub raw: RawDiff,
}

/// The link to the page of a commit.
pub open spec fn rev_link(tree_name: Seq<char>, id: Seq<char>) -> Seq<char> {
    "<a href=\"/"@ + tree_name + "/commit/"@ + id + "\">"@ + id + "</a>"@
}

/// A person as they are shown.
pub open spec fn person_text(person: Person) -> Seq<char> {
    person.name@ + " &lt;"@ + person.email@ + ">"@
}

/// The link to a revision or commit in another repository.
pub open spec fn outer_link(base: Seq<char>, between: Seq<char>, id: Seq<char>) -> Seq<char> {
    "<a href=\""@ + base + between + id + "\">"@ + id + "</a>"@
}

/// A row of the table of a commit.
pub open spec fn info_row(name: Seq<char>, value: Seq<char>) -> Seq<char> {
    "<tr><td>"@ + name + "</td><td>"@ + value + "</td></tr>"@
}

/// The rows for the parents.
pub open spec fn parent_rows(tree_name: Seq<char>, parents: Seq<String>) -> MarkupView {
    MarkupView::List(
        Seq::new(
            parents.len(),
            |i: int| MarkupView::Line(info_row("parent"@, rev_link(tree_name, parents[i]@))),
        ),
    )
}

/// The row for the Mercurial revision, where there is one.
pub open spec fn hg_rows(hg_root: Option<Seq<char>>, hg_id: Option<Seq<char>>) -> MarkupView {
    MarkupView::List(
        match hg_id {
            Some(id) => seq![
                MarkupView::Line(info_row("hg"@, outer_link(hg_root->0, "/rev/"@, id))),
            ],
            None => seq![],
        },
    )
}

/// The row for the commit on GitHub; an empty line where the tree is not there.
pub open spec fn git_row(github_repo: Option<Seq<char>>, id: Seq<char>) -> MarkupView {
    MarkupView::Line(
        match github_repo {
            Some(url) => info_row("git"@, outer_link(url, "/commit/"@, id)),
            None => seq![],
        },
    )
}

/// The rows of the table of a commit, whose time reads `when`.
pub open spec fn info_rows(
    tree_name: Seq<char>,
    tree: &TreeConfig,
    commit: &CommitData,
    when: Seq<char>,
) -> Seq<MarkupView> {
    seq![
        MarkupView::Line(info_row("commit"@, rev_link(tree_name, commit.id@))),
        parent_rows(tree_name, commit.parents@),
        hg_rows(tree.hg_root.deep_view(), commit.hg_id.deep_view()),
        git_row(tree.github_repo.deep_view(), commit.id@),
        MarkupView::Line(info_row("author"@, person_text(commit.author))),
        MarkupView::Line(info_row("committer"@, person_text(commit.committer))),
        MarkupView::Line(info_row("commit time"@, when)),
    ]
}

/// The message and the table of a commit.
pub open spec fn info_markup(
    tree_name: Seq<char>,
    tree: &TreeConfig,
    commit: &CommitData,
    when: Seq<char>,
) -> MarkupView {
    MarkupView::List(
        seq![
            MarkupView::Line("<h3>"@ + commit.header->Ok_0.0@ + "</h3>"@),
            MarkupView::Line("<pre><code>"@ + commit.header->Ok_0.1@ + "</code></pre>"@),
            MarkupView::Line("<table>"@),
            MarkupView::Indent(info_rows(tree_name, tree, commit, when)),
            MarkupView::Line("</table>"@),
        ],
    )
}

/// The list entry of a changed file, with a link to its diff.
pub open spec fn change_item(tree_name: Seq<char>, id: Seq<char>, change: ChangeView) -> Seq<char> {
    "<li>"@ + change.status + " <a href=\"/"@ + tree_name + "/diff/"@ + id + "/"@ + change.path
        + "\">"@ + change.path + "</a>"@
}

/// The list of the changed files.
pub open spec fn changes_markup(
    tree_name: Seq<char>,
    id: Seq<char>,
    changes: Seq<ChangeView>,
) -> MarkupView {
    MarkupView::List(
        seq![
            MarkupView::Line("<ul>"@),
            MarkupView::Indent(
                Seq::new(
                    changes.len(),
                    |i: int| MarkupView::Line(change_item(tree_name, id, changes[i])),
                ),
            ),
            MarkupView::Line("</ul>"@),
        ],
    )
}

/// Why a commit is not shown to its end.
pub open spec fn info_error(commit: &CommitData) -> Option<Seq<char>> {
    match commit.header {
        Err(e) => Some(e@),
        Ok(_) => match commit.raw {
            RawDiff::NoPath(e) => Some(e@),
            RawDiff::NotRun => Some("Diff failed 1"@),
            RawDiff::RunFailed => Some("Diff failed 2"@),
            RawDiff::Output(raw) => if changes_of(raw@, commit.parent_count as nat) is Listed {
                None
            } else {
                Some("Invalid diff output 3"@)
            },
        },
    }
}

/// What is written of a commit: nothing where its message cannot be taken apart, and no list where
/// the changed files are not known.
pub open spec fn info_steps(
    tree_name: Seq<char>,
    tree: &TreeConfig,
    commit: &CommitData,
    when: Seq<char>,
) -> Seq<StepView> {
    if commit.header is Err {
        seq![]
    } else {
        seq![StepView::Lines(info_markup(tree_name, tree, commit, when))] + (match info_error(
            commit,
        ) {
            Some(_) => seq![],
            None => seq![
                StepView::Lines(
                    changes_markup(
                        tree_name,
                        commit.id@,
                        changes_of(commit.raw->Output_0@, commit.parent_count as nat)->Listed_0,
                    ),
                ),
            ],
        })
    }
}

/// Whether a commit can be written, where its message can be taken apart: it has a Mercurial
/// revision only where the address of that repository is known, and the list of changed files can
/// be read.
pub open spec fn info_writable(tree: &TreeConfig, commit: &CommitData) -> bool {
    commit.header is Ok ==> {
        &&& commit.hg_id is Some ==> tree.hg_root is Some
        &&& commit.raw matches RawDiff::Output(raw) ==> raw_valid(raw@, commit.parent_count as nat)
    }
}

fn write_rev_link(tree_name: &str, id: &str) -> (r: String)
    ensures
        r@ == rev_link(tree_name@, id@),
{
    let mut r = "<a href=\"/".to_owned();
    r.append(tree_name);
    r.append("/commit/");
    r.append(id);
    r.append("\">");
    r.append(id);
    r.append("</a>");
    r
}

fn write_person(person: &Person) -> (r: String)
    ensures
        r@ == person_text(*person),
{
    let mut r = person.name.clone();
    r.append(" &lt;");
    r.append(person.email.as_str());
    r.append(">");
    r
}

fn write_outer_link(base: &str, between: &str, id: &str) -> (r: String)
    ensures
        r@ == outer_link(base@, between@, id@),
{
    let mut r = "<a href=\"".to_owned();
    r.append(base);
    r.append(between);
    r.append(id);
    r.append("\">");
    r.append(id);
    r.append("</a>");
    r
}

fn write_info_row(name: &str, value: &str) -> (r: String)
    ensures
        r@ == info_row(name@, value@),
{
    let mut r = "<tr><td>".to_owned();
    r.append(name);
    r.append("</td><td>");
    r.append(value);
    r.append("</td></tr>");
    r
}

fn write_parent_rows(tree_name: &str, parents: &Vec<String>) -> (r: Markup)
    ensures
        r@ == parent_rows(tree_name@, parents@),
{
    let mut rows: Vec<Markup> = Vec::new();
    let ghost all = parent_rows(tree_name@, parents@)->List_0;
    proof {
        assert(page::markup_views(rows@) =~= all.take(0));
    }
    let mut i: usize = 0;
    while i < parents.len()
        invariant
            i <= parents@.len(),
            all == parent_rows(tree_name@, parents@)->List_0,
            page::markup_views(rows@) == all.take(i as int),
        decreases parents@.len() - i,
    {
        let link = write_rev_link(tree_name, parents[i].as_str());
        push_line(&mut rows, write_info_row("parent", link.as_str()));
        proof {
            assert(page::markup_views(rows@) =~= all.take(i + 1));
        }
        i = i + 1;
    }
    proof {
        assert(all.take(i as int) =~= all);
    }
    list(rows)
}

fn write_hg_rows(hg_root: &Option<String>, hg_id: &Option<String>) -> (r: Markup)
    requires
        hg_id is Some ==> hg_root is Some,
    ensures
        r@ == hg_rows(hg_root.deep_view(), hg_id.deep_view()),
{
    let mut rows: Vec<Markup> = Vec::new();
    let ghost all = hg_rows(hg_root.deep_view(), hg_id.deep_view())->List_0;
    if let Some(id) = hg_id {
        if let Some(root) = hg_root {
            let link = write_outer_link(root.as_str(), "/rev/", id.as_str());
            push_line(&mut rows, write_info_row("hg", link.as_str()));
        }
    }
    proof {
        assert(page::markup_views(rows@) =~= all);
    }
    list(rows)
}

fn write_git_row(github_repo: &Option<String>, id: &str) -> (r: String)
    ensures
        MarkupView::Line(r@) == git_row(github_repo.deep_view(), id@),
{
    match github_repo {
        Some(url) => {
            let link = write_outer_link(url.as_str(), "/commit/", id);
            write_info_row("git", link.as_str())
        },
        None => String::new(),
    }
}

fn write_info_rows(tree_name: &str, tree: &TreeConfig, commit: &CommitData, when: &str) -> (r: Vec<
    Markup,
>)
    requires
        commit.hg_id is Some ==> tree.hg_root is Some,
    ensures
        page::markup_views(r@) == info_rows(tree_name@, tree, commit, when@),
{
    let mut rows: Vec<Markup> = Vec::new();
    let link = write_rev_link(tree_name, commit.id.as_str());
    push_line(&mut rows, write_info_row("commit", link.as_str()));
    push_markup(&mut rows, write_parent_rows(tree_name, &commit.parents));
    push_markup(&mut rows, write_hg_rows(&tree.hg_root, &commit.hg_id));
    push_line(&mut rows, write_git_row(&tree.github_repo, commit.id.as_str()));
    let author = write_person(&commit.author);
    push_line(&mut rows, write_info_row("author", author.as_str()));
    let committer = write_person(&commit.committer);
    push_line(&mut rows, write_info_row("committer", committer.as_str()));
    push_line(&mut rows, write_info_row("commit time", when));
    proof {
        assert(page::markup_views(rows@) =~= info_rows(tree_name@, tree, commit, when@));
    }
    rows
}

fn write_info(
    tree_name: &str,
    tree: &TreeConfig,
    commit: &CommitData,
    when: &str,
    header: &str,
    remainder: &str,
) -> (r: Markup)
    requires
        commit.header is Ok,
        commit.header->Ok_0.0@ == header@,
        commit.header->Ok_0.1@ == remainder@,
        commit.hg_id is Some ==> tree.hg_root is Some,
    ensures
        r@ == info_markup(tree_name@, tree, commit, when@),
{
    let mut parts: Vec<Markup> = Vec::new();
    let mut title = "<h3>".to_owned();
    title.append(header);
    title.append("</h3>");
    push_line(&mut parts, title);
    let mut rest = "<pre><code>".to_owned();
    rest.append(remainder);
    rest.append("</code></pre>");
    push_line(&mut parts, rest);
    push_line(&mut parts, "<table>".to_owned());
    push_markup(&mut parts, indent(write_info_rows(tree_name, tree, commit, when)));
    push_line(&mut parts, "</table>".to_owned());
    proof {
        assert(page::markup_views(parts@) =~= info_markup(tree_name@, tree, commit, when@)->List_0);
    }
    list(parts)
}

fn write_change_item(tree_name: &str, id: &str, change: &Change) -> (r: String)
    ensures
        r@ == change_item(tree_name@, id@, change@),
{
    let mut r = "<li>".to_owned();
    r.append(change.status.as_str());
    r.append(" <a href=\"/");
    r.append(tree_name);
    r.append("/diff/");
    r.append(id);
    r.append("/");
    r.append(change.path.as_str());
    r.append("\">");
    r.append(change.path.as_str());
    r.append("</a>");
    r
}

fn write_changes(tree_name: &str, id: &str, changes: &Vec<Change>) -> (r: Markup)
    ensures
        r@ == changes_markup(tree_name@, id@, change_views(changes@)),
{
    let mut items: Vec<Markup> = Vec::new();
    let ghost all = changes_markup(
        tree_name@,
        id@,
        change_views(changes@),
    )->List_0[1]->Indent_0;
    proof {
        assert(page::markup_views(items@) =~= all.take(0));
    }
    let mut i: usize = 0;
    while i < changes.len()
        invariant
            i <= changes@.len(),
            all == changes_markup(tree_name@, id@, change_views(changes@))->List_0[1]->Indent_0,
            page::markup_views(items@) == all.take(i as int),
        decreases changes@.len() - i,
    {
        push_line(&mut items, write_change_item(tree_name, id, &changes[i]));
        proof {
            assert(page::markup_views(items@) =~= all.take(i + 1));
        }
        i = i + 1;
    }
    proof {
        assert(all.take(i as int) =~= all);
    }
    let mut parts: Vec<Markup> = Vec::new();
    push_line(&mut parts, "<ul>".to_owned());
    push_markup(&mut parts, indent(items));
    push_line(&mut parts, "</ul>".to_owned());
    proof {
        assert(page::markup_views(parts@) =~= changes_markup(
            tree_name@,
            id@,
            change_views(changes@),
        )->List_0);
    }
    list(parts)
}

/// Writes the message of a commit, its table with the time `when`, and the list of the files that
/// it changes. Where that fails, what was written before stays.
pub fn generate_commit_info(
    tree_name: &str,
    tree: &TreeConfig,
    steps: &mut Vec<Step>,
    commit: &CommitData,
    when: &str,
) -> (r: Result<(), &'static str>)
    requires
        info_writable(tree, commit),
    ensures
        page::step_views(final(steps)@) == page::step_views(old(steps)@) + info_steps(
            tree_name@,
            tree,
            commit,
            when@,
        ),
        match r {
            Ok(_) => info_error(commit) is None,
            Err(e) => info_error(commit) == Some(e@),
        },
{
    let ghost base = page::step_views(steps@);
    let ghost added = info_steps(tree_name@, tree, commit, when@);
    let (header, remainder) = match &commit.header {
        Ok(h) => (h.0.as_str(), h.1.as_str()),
        Err(e) => {
            proof {
                assert(base + added =~= base);
            }
            return Err(*e);
        },
    };
    let info = write_info(tree_name, tree, commit, when, header, remainder);
    push_step(steps, Step::Lines(info));
    proof {
        assert(info_error(commit) is Some ==> base + added =~= page::step_views(steps@));
    }
    let raw = match &commit.raw {
        RawDiff::NoPath(e) => {
            return Err(*e);
        },
        RawDiff::NotRun => {
            return Err("Diff failed 1");
        },
        RawDiff::RunFailed => {
            return Err("Diff failed 2");
        },
        RawDiff::Output(raw) => raw,
    };
    match parse_changes(raw.as_str(), commit.parent_count) {
        Ok(changes) => {
            let markup = write_changes(tree_name, commit.id.as_str(), &changes);
            push_step(steps, Step::Lines(markup));
            proof {
                assert(page::step_views(steps@) =~= base + added);
            }
            Ok(())
        },
        Err(e) => Err(e),
    }
}

// ---------------------------------------------------------------------------
// The page

/// How far the retrieval of a commit came.
#[derive(Debug)]
pub enum CommitSource<'a> {
    /// The tree is not configured.
    NoTree,
    /// The tree has no repository, for this reason.
    NoGit(&'static str),
    /// The revision does not lead to a commit.
    NoRevision,
    Ready(&'a TreeConfig, CommitData),
}

/// The options of the page of a commit.
pub open spec fn commit_options(tree_name: Seq<char>, rev: Seq<char>) -> PageOptionsView {
    PageOptionsView {
        title: file::page_title(rev),
        tree_name,
        include_date: true,
        revision: None,
        extra_content_classes: "commit"@,
    }
}

/// The page of a commit that was retrieved, whose time reads `when`. Where the commit is not shown
/// to its end there is no footer.
pub open spec fn shown_page(
    tree_name: Seq<char>,
    rev: Seq<char>,
    tree: &TreeConfig,
    commit: &CommitData,
    when: Seq<char>,
) -> PageView {
    PageView {
        options: Some(commit_options(tree_name, rev)),
        steps: seq![StepView::Header] + info_steps(tree_name, tree, commit, when) + (
        match info_error(commit) {
            Some(_) => seq![],
            None => seq![StepView::Footer(""@)],
        }),
        error: info_error(commit),
    }
}

/// The page of a commit.
pub open spec fn commit_page(
    tree_name: Seq<char>,
    rev: Seq<char>,
    source: CommitSource,
) -> PageView {
    match source {
        CommitSource::NoTree => page::failed("Invalid tree"@),
        CommitSource::NoGit(e) => page::failed(e@),
        CommitSource::NoRevision => page::failed("Bad revision"@),
        CommitSource::Ready(tree, commit) => shown_page(
            tree_name,
            rev,
            tree,
            &commit,
            time::rfc2822(commit.seconds, (commit.offset_minutes * 60) as i32),
        ),
    }
}

/// Renders a commit that was retrieved, whose time reads `when`.
pub fn show_commit(
    tree_name: &str,
    rev: &str,
    tree: &TreeConfig,
    commit: &CommitData,
    when: &str,
) -> (r: Page)
    requires
        info_writable(tree, commit),
    ensures
        r@ == shown_page(tree_name@, rev@, tree, commit, when@),
{
    let options = PageOptions {
        title: write_title(rev),
        tree_name: tree_name.to_owned(),
        include_date: true,
        revision: None,
        extra_content_classes: "commit",
    };
    let mut steps: Vec<Step> = Vec::new();
    push_step(&mut steps, Step::Header);
    proof {
        assert(page::step_views(steps@) =~= seq![StepView::Header]);
    }
    let outcome = generate_commit_info(tree_name, tree, &mut steps, commit, when);
    let ghost written = page::step_views(steps@);
    let error: Option<&'static str> = match outcome {
        Ok(_) => {
            push_step(&mut steps, Step::Footer("".to_owned()));
            proof {
                assert(page::step_views(steps@) =~= written + seq![StepView::Footer(""@)]);
            }
            None
        },
        Err(e) => {
            proof {
                assert(written + seq![] =~= written);
            }
            Some(e)
        },
    };
    Page { options: Some(options), steps, error }
}

/// Renders a commit: its message, what is known of it, and the files that it changes.
pub fn format_commit(tree_name: &str, rev: &str, source: CommitSource) -> (r: Page)
    requires
        source matches CommitSource::Ready(tree, commit) ==> info_writable(tree, &commit) && (
        commit.header is Ok ==> time::time_valid(
            commit.seconds as int,
            commit.offset_minutes as int,
        )),
    ensures
        r@ == commit_page(tree_name@, rev@, source),
{
    match source {
        CommitSource::NoTree => fail("Invalid tree"),
        CommitSource::NoGit(e) => fail(e),
        CommitSource::NoRevision => fail("Bad revision"),
        CommitSource::Ready(tree, commit) => {
            // A commit without a header is not shown as far as its time.
            let when = if commit.header.is_ok() {
                write_time(commit.seconds, commit.offset_minutes)
            } else {
                String::new()
            };
            show_commit(tree_name, rev, tree, &commit, when.as_str())
        },
    }
}

/// The page of a commit that was retrieved starts with the header, and ends with the footer exactly
/// if it did not fail.
pub proof fn law_commit_page(
    tree_name: Seq<char>,
    rev: Seq<char>,
    tree: &TreeConfig,
    commit: &CommitData,
    when: Seq<char>,
)
    ensures
        ({
            let page = shown_page(tree_name, rev, tree, commit, when);
            &&& page.steps.first() is Header
            &&& (page.steps.last() is Footer) == (page.error is None)
        }),
{
}

} // verus!
