//! The page of the changes that a commit makes to a file.

use crate::blame;
use crate::blame::{check_blame_line, empty_cell, Shade};
use crate::code;
use crate::code::{format_code, FormattedLine};
use crate::file;
use crate::file::{write_number_cell, write_row, write_title, FormattedCode};
use crate::page;
use crate::page::{
    fail, push_item, push_step, single_line, Page, PageOptions, PageOptionsView, PageView,
    PanelItem, PanelItemView, PanelSection, PanelSectionView, Step, StepView, TreeConfig,
};
use crate::paths;
use crate::paths::read_file_name;
use crate::revision;
use crate::revision::{format_path, write_latest_link, write_log_link, write_panel, PathSource};
use crate::source;
use crate::source::{AnalysisSource, JumpTable, Token, WithLocation};
use crate::split;
use crate::split::{contains_char, split_first, split_lines};
use crate::text;
use crate::text::{decimal, entity_replace, slice};
use vstd::prelude::*;

verus! {

// ---------------------------------------------------------------------------
// Asking for a diff

/// The arguments with which git gives the changes of a commit to a file, with the whole file
/// around them.
pub fn diff_arguments(rev: &str, path: &str) -> (r: Vec<String>)
    ensures
        split::strings(r@) == seq![
            "diff-tree"@,
            "-p"@,
            "--cc"@,
            "--patience"@,
            "--full-index"@,
            "--no-prefix"@,
            "-U100000"@,
            rev@,
            "--"@,
            path@,
        ],
{
    let mut r: Vec<String> = Vec::new();
    r.push("diff-tree".to_owned());
    r.push("-p".to_owned());
    r.push("--cc".to_owned());
    r.push("--patience".to_owned());
    r.push("--full-index".to_owned());
    r.push("--no-prefix".to_owned());
    r.push("-U100000".to_owned());
    r.push(rev.to_owned());
    r.push("--".to_owned());
    r.push(path.to_owned());
    proof {
        assert(split::strings(r@) =~= seq![
            "diff-tree"@,
            "-p"@,
            "--cc"@,
            "--patience"@,
            "--full-index"@,
            "--no-prefix"@,
            "-U100000"@,
            rev@,
            "--"@,
            path@,
        ]);
    }
    r
}

/// What is shown once git was asked for a diff.
#[derive(Clone, Copy, Debug, PartialEq, Eq)]
pub enum DiffStep {
    /// The file as it was: the commit does not change it.
    ShowFile,
    /// The changes.
    ShowDiff,
}

/// Decides what is shown: the file as it was where git gave no text.
pub fn diff_step(difftxt: &str) -> (r: DiffStep)
    ensures
        (r is ShowFile) == (difftxt@.len() == 0),
{
    if difftxt.is_empty() {
        DiffStep::ShowFile
    } else {
        DiffStep::ShowDiff
    }
}

// ---------------------------------------------------------------------------
// What a diff says

/// A line of the file before or after the change: its number after it, the blame line for it, the
/// marks that tell by which parents it was added or removed, and its text.
pub struct DiffRowView {
    pub lineno: Option<int>,
    pub blame: Option<Seq<char>>,
    pub origin: Seq<char>,
    pub content: Seq<char>,
}

/// How far a diff was read: how many lines of each parent have passed, how many lines of the new
/// file, their text, and the rows.
pub struct DiffProgress {
    pub passed: Seq<int>,
    pub count: int,
    pub text: Seq<char>,
    pub rows: Seq<DiffRowView>,
}

/// What reading a diff came to.
pub enum DiffState {
    Going(DiffProgress),
    /// A line of a parent without blame.
    NoBlame,
    /// A line too short for its marks, or of a parent whose blame ends before it.
    Malformed,
}

/// Whether a line starts with `c`.
pub open spec fn starts_with(line: Seq<char>, c: char) -> bool {
    line.len() > 0 && line[0] == c
}

/// How many of the lines come before the content: those up to the first that starts with `@` and
/// is not the last. None where there is no such line.
pub open spec fn header_len(lines: Seq<Seq<char>>, k: int) -> int
    decreases lines.len() - k,
{
    if k < 0 || k >= lines.len() {
        0
    } else if starts_with(lines[k], '@') && k + 1 < lines.len() {
        k + 1
    } else {
        header_len(lines, k + 1)
    }
}

/// The lines of a diff behind its header.
pub open spec fn body_lines(text: Seq<char>) -> Seq<Seq<char>> {
    let lines = split::line_pieces(text);
    lines.skip(header_len(lines, 0))
}

/// Whether a row with these marks is a line of parent `i`: one that was removed is a line of those
/// that it was removed from, any other one of those that it was not added to.
pub open spec fn in_parent(origin: Seq<char>, i: int) -> bool {
    if origin.contains('-') {
        origin[i] == '-'
    } else {
        origin[i] != '+'
    }
}

/// What is known of the blame of a row once some parents were seen.
pub enum BlameLookup {
    Known(Option<Seq<char>>),
    NoBlame,
    Malformed,
}

/// The blame of a row once the first `n` parents were seen: that of the last one which the row is
/// a line of.
pub open spec fn row_blame(
    blames: Seq<Option<Seq<Seq<char>>>>,
    passed: Seq<int>,
    origin: Seq<char>,
    n: int,
) -> BlameLookup
    decreases n,
{
    if n <= 0 {
        BlameLookup::Known(None)
    } else {
        match row_blame(blames, passed, origin, n - 1) {
            BlameLookup::Known(before) => if n - 1 >= origin.len() {
                BlameLookup::Malformed
            } else if in_parent(origin, n - 1) {
                match blames[n - 1] {
                    None => BlameLookup::NoBlame,
                    Some(lines) => if passed[n - 1] < lines.len() {
                        BlameLookup::Known(Some(lines[passed[n - 1]]))
                    } else {
                        BlameLookup::Malformed
                    },
                }
            } else {
                BlameLookup::Known(before)
            },
            other => other,
        }
    }
}

/// The lines of each parent that have passed behind a row with these marks.
pub open spec fn passed_on(passed: Seq<int>, origin: Seq<char>) -> Seq<int> {
    Seq::new(
        passed.len(),
        |i: int|
            if in_parent(origin, i) {
                passed[i] + 1
            } else {
                passed[i]
            },
    )
}

/// The state behind a line.
pub open spec fn after_line(
    blames: Seq<Option<Seq<Seq<char>>>>,
    st: DiffProgress,
    line: Seq<char>,
) -> DiffState {
    let parents = blames.len() as int;
    if line.len() == 0 || line[0] == '\\' {
        DiffState::Going(st)
    } else if !text::boundary(line, parents) {
        DiffState::Malformed
    } else {
        let origin = text::byte_slice(line, 0, parents);
        let content = text::byte_slice(line, parents, text::byte_len(line) as int);
        match row_blame(blames, st.passed, origin, parents) {
            BlameLookup::NoBlame => DiffState::NoBlame,
            BlameLookup::Malformed => DiffState::Malformed,
            BlameLookup::Known(blame) => {
                let removed = origin.contains('-');
                let count = if removed {
                    st.count
                } else {
                    st.count + 1
                };
                DiffState::Going(
                    DiffProgress {
                        passed: passed_on(st.passed, origin),
                        count,
                        text: if removed {
                            st.text
                        } else {
                            st.text + content + seq!['\n']
                        },
                        rows: st.rows.push(
                            DiffRowView {
                                lineno: if removed {
                                    None
                                } else {
                                    Some(count)
                                },
                                blame,
                                origin,
                                content,
                            },
                        ),
                    },
                )
            },
        }
    }
}

/// The state before the first line.
pub open spec fn diff_start(parents: nat) -> DiffProgress {
    DiffProgress {
        passed: Seq::new(parents, |i: int| 0),
        count: 0,
        text: seq![],
        rows: seq![],
    }
}

/// The state behind the first `n` lines.
pub open spec fn diff_after(
    blames: Seq<Option<Seq<Seq<char>>>>,
    lines: Seq<Seq<char>>,
    n: int,
) -> DiffState
    decreases n,
{
    if n <= 0 {
        DiffState::Going(diff_start(blames.len()))
    } else {
        match diff_after(blames, lines, n - 1) {
            DiffState::Going(st) => after_line(blames, st, lines[n - 1]),
            other => other,
        }
    }
}

/// What reading a whole diff comes to.
pub open spec fn read_diff(blames: Seq<Option<Seq<Seq<char>>>>, difftxt: Seq<char>) -> DiffState {
    let lines = body_lines(difftxt);
    diff_after(blames, lines, lines.len() as int)
}

/// What each parent's blame holds.
pub open spec fn blame_texts(v: Seq<Option<Vec<String>>>) -> Seq<Option<Seq<Seq<char>>>> {
    Seq::new(
        v.len(),
        |i: int|
            match v[i] {
                Some(lines) => Some(split::strings(lines@)),
                None => None,
            },
    )
}

/// The blame of the first `parents` parents: those that a line of the diff has marks for.
pub open spec fn marked(blames: Seq<Option<Vec<String>>>, parents: nat) -> Seq<
    Option<Seq<Seq<char>>>,
> {
    blame_texts(blames).take(parents as int)
}

/// A line of a diff.
#[derive(Debug, PartialEq, Eq)]
pub struct DiffRow {
    pub lineno: Option<usize>,
    pub blame: Option<String>,
    pub origin: String,
    pub content: String,
}

impl View for DiffRow {
    type V = DiffRowView;

    open spec fn view(&self) -> DiffRowView {
        DiffRowView {
            lineno: match self.lineno {
                Some(n) => Some(n as int),
                None => None,
            },
            blame: self.blame.deep_view(),
            origin: self.origin@,
            content: self.content@,
        }
    }
}

/// What each row holds.
pub open spec fn row_views(v: Seq<DiffRow>) -> Seq<DiffRowView> {
    Seq::new(v.len(), |i: int| v[i]@)
}

/// The rows of a diff, and the text of the new file.
#[derive(Debug, PartialEq, Eq)]
pub struct ParsedDiff {
    pub rows: Vec<DiffRow>,
    pub new_text: String,
}

// ---------------------------------------------------------------------------
// Reading a diff

/// What reading a diff came to.
enum Scan {
    Rows(ParsedDiff),
    NoBlame,
    Malformed,
}

spec fn scan_matches(scan: Scan, st: DiffState) -> bool {
    match (scan, st) {
        (Scan::Rows(d), DiffState::Going(p)) => row_views(d.rows@) == p.rows && d.new_text@
            == p.text,
        (Scan::NoBlame, DiffState::NoBlame) => true,
        (Scan::Malformed, DiffState::Malformed) => true,
        _ => false,
    }
}

enum Lookup<'a> {
    Known(Option<&'a String>),
    NoBlame,
    Malformed,
}

spec fn lookup_matches(l: Lookup, b: BlameLookup) -> bool {
    match (l, b) {
        (Lookup::Known(None), BlameLookup::Known(None)) => true,
        (Lookup::Known(Some(s)), BlameLookup::Known(Some(t))) => s@ == t,
        (Lookup::NoBlame, BlameLookup::NoBlame) => true,
        (Lookup::Malformed, BlameLookup::Malformed) => true,
        _ => false,
    }
}

spec fn ints(v: Seq<usize>) -> Seq<int> {
    Seq::new(v.len(), |i: int| v[i] as int)
}

proof fn lemma_row_blame_stuck(
    blames: Seq<Option<Seq<Seq<char>>>>,
    passed: Seq<int>,
    origin: Seq<char>,
    i: int,
    n: int,
)
    requires
        0 <= i <= n,
        !(row_blame(blames, passed, origin, i) is Known),
    ensures
        row_blame(blames, passed, origin, n) == row_blame(blames, passed, origin, i),
    decreases n,
{
    if i < n {
        lemma_row_blame_stuck(blames, passed, origin, i, n - 1);
    }
}

/// Whether a row is a line of parent `i`.
fn is_in_parent(origin: &str, removed: bool, i: usize) -> (r: bool)
    requires
        i < origin@.len(),
        removed == origin@.contains('-'),
    ensures
        r == in_parent(origin@, i as int),
{
    let c = origin.get_char(i);
    (removed && c == '-') || (!removed && c != '+')
}

/// Finds the blame of a row, and counts it for the parents that it is a line of.
fn pass_row<'a>(
    blames: &'a Vec<Option<Vec<String>>>,
    passed: &mut Vec<usize>,
    origin: &str,
    removed: bool,
) -> (r: Lookup<'a>)
    requires
        old(passed)@.len() <= blames@.len(),
        removed == origin@.contains('-'),
    ensures
        lookup_matches(
            r,
            row_blame(
                marked(blames@, old(passed)@.len()),
                ints(old(passed)@),
                origin@,
                old(passed)@.len() as int,
            ),
        ),
        r is Known ==> ints(final(passed)@) == passed_on(ints(old(passed)@), origin@)
            && final(passed)@.len() == old(passed)@.len(),
{
    let ghost texts = marked(blames@, passed@.len());
    let ghost before = ints(passed@);
    let n = passed.len();
    let len = origin.unicode_len();
    let mut found: Option<&'a String> = None;
    let mut i: usize = 0;
    while i < n
        invariant
            i <= n,
            n <= blames@.len(),
            texts == marked(blames@, n as nat),
            before == ints(old(passed)@),
            old(passed)@.len() == n,
            passed@.len() == n,
            len == origin@.len(),
            removed == origin@.contains('-'),
            lookup_matches(Lookup::Known(found), row_blame(texts, before, origin@, i as int)),
            forall|k: int|
                0 <= k < i ==> (#[trigger] passed@[k]) == (if in_parent(origin@, k) {
                    before[k] + 1
                } else {
                    before[k]
                }),
            forall|k: int| i <= k < n ==> (#[trigger] passed@[k]) == before[k],
        decreases n - i,
    {
        if i >= len {
            proof {
                lemma_row_blame_stuck(texts, before, origin@, i + 1, n as int);
            }
            return Lookup::Malformed;
        }
        if is_in_parent(origin, removed, i) {
            proof {
                assert(passed@[i as int] == before[i as int]);
            }
            match &blames[i] {
                None => {
                    proof {
                        lemma_row_blame_stuck(texts, before, origin@, i + 1, n as int);
                    }
                    return Lookup::NoBlame;
                },
                Some(lines) => {
                    let at = passed[i];
                    if at < lines.len() {
                        found = Some(&lines[at]);
                        passed.set(i, at + 1);
                    } else {
                        proof {
                            lemma_row_blame_stuck(texts, before, origin@, i + 1, n as int);
                        }
                        return Lookup::Malformed;
                    }
                },
            }
        }
        i = i + 1;
    }
    proof {
        assert(ints(passed@) =~= passed_on(before, origin@));
    }
    Lookup::Known(found)
}

proof fn lemma_diff_stuck(
    blames: Seq<Option<Seq<Seq<char>>>>,
    lines: Seq<Seq<char>>,
    i: int,
    n: int,
)
    requires
        0 <= i <= n,
        !(diff_after(blames, lines, i) is Going),
    ensures
        diff_after(blames, lines, n) == diff_after(blames, lines, i),
    decreases n,
{
    if i < n {
        lemma_diff_stuck(blames, lines, i, n - 1);
    }
}

/// The number of lines before the content.
fn find_header(lines: &Vec<&str>) -> (r: usize)
    ensures
        r == header_len(split::strs(lines@), 0),
        r <= lines@.len(),
{
    let ghost all = split::strs(lines@);
    let mut k: usize = 0;
    while k < lines.len()
        invariant
            all == split::strs(lines@),
            k <= lines@.len(),
            header_len(all, 0) == header_len(all, k as int),
        decreases lines@.len() - k,
    {
        let line = lines[k];
        proof {
            assert(all[k as int] == line@);
        }
        if !line.is_empty() && line.get_char(0) == '@' && k + 1 < lines.len() {
            return k + 1;
        }
        k = k + 1;
    }
    0
}

fn scan_diff(blames: &Vec<Option<Vec<String>>>, parents: usize, difftxt: &str) -> (r: Scan)
    requires
        parents <= blames@.len(),
    ensures
        scan_matches(r, read_diff(marked(blames@, parents as nat), difftxt@)),
{
    let lines = split_lines(difftxt);
    let header = find_header(&lines);
    let ghost texts = marked(blames@, parents as nat);
    let ghost all = split::strs(lines@);
    let ghost body = body_lines(difftxt@);
    let ghost total = body.len() as int;
    let mut passed: Vec<usize> = Vec::new();
    let mut p: usize = 0;
    while p < parents
        invariant
            p <= parents,
            passed@.len() == p,
            forall|k: int| 0 <= k < p ==> (#[trigger] passed@[k]) == 0,
        decreases parents - p,
    {
        passed.push(0);
        p = p + 1;
    }
    let mut count: usize = 0;
    let mut new_text = String::new();
    let mut rows: Vec<DiffRow> = Vec::new();
    proof {
        let st = diff_start(texts.len());
        assert(ints(passed@) =~= st.passed);
        assert(row_views(rows@) =~= st.rows);
        assert(new_text@ =~= st.text);
    }
    let mut i: usize = header;
    while i < lines.len()
        invariant
            parents <= blames@.len(),
            texts == marked(blames@, parents as nat),
            texts.len() == parents,
            all == split::strs(lines@),
            all == split::line_pieces(difftxt@),
            header == header_len(all, 0),
            header <= i <= lines@.len(),
            body == all.skip(header as int),
            body == body_lines(difftxt@),
            total == body.len(),
            passed@.len() == parents,
            count <= i - header,
            diff_after(texts, body, i - header) is Going,
            ({
                let st = diff_after(texts, body, i - header)->Going_0;
                &&& ints(passed@) == st.passed
                &&& count == st.count
                &&& new_text@ == st.text
                &&& row_views(rows@) == st.rows
            }),
        decreases lines@.len() - i,
    {
        let line = lines[i];
        let ghost k = i - header;
        let ghost st = diff_after(texts, body, k)->Going_0;
        proof {
            assert(body[k] == all[i as int]);
            assert(body[k] == line@);
            assert(diff_after(texts, body, k + 1) == after_line(texts, st, line@));
        }
        if !line.is_empty() && line.get_char(0) != '\\' {
            if !line.is_char_boundary(parents) {
                proof {
                    lemma_diff_stuck(texts, body, k + 1, total);
                }
                return Scan::Malformed;
            }
            let len = line.as_bytes().len();
            proof {
                text::lemma_boundary_bounds(line@, parents as int);
            }
            let origin = slice(line, 0, parents);
            let content = slice(line, parents, len);
            let removed = contains_char(origin, '-');
            let looked_up = pass_row(blames, &mut passed, origin, removed);
            let blame: Option<String> = match looked_up {
                Lookup::NoBlame => {
                    proof {
                        lemma_diff_stuck(texts, body, k + 1, total);
                    }
                    return Scan::NoBlame;
                },
                Lookup::Malformed => {
                    proof {
                        lemma_diff_stuck(texts, body, k + 1, total);
                    }
                    return Scan::Malformed;
                },
                Lookup::Known(None) => None,
                Lookup::Known(Some(s)) => Some(s.clone()),
            };
            let mut lineno: Option<usize> = None;
            if !removed {
                new_text.append(content);
                new_text.push('\n');
                count = count + 1;
                lineno = Some(count);
                proof {
                    assert(new_text@ =~= st.text + content@ + seq!['\n']);
                }
            }
            let row = DiffRow { lineno, blame, origin: origin.to_owned(), content: content.to_owned() };
            let ghost before = rows@;
            let ghost row_view = row@;
            rows.push(row);
            proof {
                assert(row_views(rows@) =~= row_views(before).push(row_view));
                assert(diff_after(texts, body, k + 1)->Going_0.rows == st.rows.push(row_view));
            }
        }
        i = i + 1;
    }
    Scan::Rows(ParsedDiff { rows, new_text })
}

/// Whether a diff fits the blame of the parents: each line has a mark for each of the first
/// `parents` parents, and the blame of such a parent reaches as far as its lines.
pub open spec fn diff_valid(
    blames: Seq<Option<Vec<String>>>,
    parents: nat,
    difftxt: Seq<char>,
) -> bool {
    &&& parents <= blames.len()
    &&& !(read_diff(marked(blames, parents), difftxt) is Malformed)
}

/// Tells whether a diff fits the blame of the parents.
pub fn check_diff(blames: &Vec<Option<Vec<String>>>, parents: usize, difftxt: &str) -> (r: bool)
    ensures
        r == diff_valid(blames@, parents as nat, difftxt@),
{
    if parents > blames.len() {
        return false;
    }
    match scan_diff(blames, parents, difftxt) {
        Scan::Malformed => false,
        _ => true,
    }
}

/// Reads the diff of a file; `blames` holds the blame lines of the file in each parent of the
/// commit, if there are any, and `parents` tells how many of the parents, the first ones, the lines
/// of the diff have marks for.
pub fn parse_diff(blames: &Vec<Option<Vec<String>>>, parents: usize, difftxt: &str) -> (r: Result<
    ParsedDiff,
    &'static str,
>)
    requires
        diff_valid(blames@, parents as nat, difftxt@),
    ensures
        match r {
            Ok(d) => read_diff(marked(blames@, parents as nat), difftxt@) matches DiffState::Going(
                p,
            ) && row_views(d.rows@) == p.rows && d.new_text@ == p.text,
            Err(e) => read_diff(marked(blames@, parents as nat), difftxt@) is NoBlame && e@
                == "expected blame for '-' line, none found"@,
        },
{
    match scan_diff(blames, parents, difftxt) {
        Scan::Rows(d) => Ok(d),
        Scan::NoBlame => Err("expected blame for '-' line, none found"),
        Scan::Malformed => {
            proof {
                assert(false);
            }
            Err("")
        },
    }
}

// ---------------------------------------------------------------------------
// What the rows are

/// How many of the first `n` rows are lines of the new file.
pub open spec fn new_before(rows: Seq<DiffRowView>, n: int) -> int
    decreases n,
{
    if n <= 0 {
        0
    } else {
        new_before(rows, n - 1) + (if rows[n - 1].origin.contains('-') {
            0int
        } else {
            1
        })
    }
}

/// How many of the first `n` rows are lines of parent `p`.
pub open spec fn old_before(rows: Seq<DiffRowView>, p: int, n: int) -> int
    decreases n,
{
    if n <= 0 {
        0
    } else {
        old_before(rows, p, n - 1) + (if in_parent(rows[n - 1].origin, p) {
            1int
        } else {
            0
        })
    }
}

/// The text of those among the first `n` rows that are lines of the new file.
pub open spec fn new_text(rows: Seq<DiffRowView>, n: int) -> Seq<char>
    decreases n,
{
    if n <= 0 {
        seq![]
    } else if rows[n - 1].origin.contains('-') {
        new_text(rows, n - 1)
    } else {
        new_text(rows, n - 1) + rows[n - 1].content + seq!['\n']
    }
}

/// Whether a line of a diff is a row of the file, not a remark.
pub open spec fn is_row(line: Seq<char>) -> bool {
    line.len() > 0 && line[0] != '\\'
}

/// The lines that the rows were read from.
pub open spec fn row_lines(rows: Seq<DiffRowView>) -> Seq<Seq<char>> {
    Seq::new(rows.len(), |i: int| rows[i].origin + rows[i].content)
}

/// Those of the first `n` lines that are rows.
pub open spec fn only_rows(lines: Seq<Seq<char>>, n: int) -> Seq<Seq<char>>
    decreases n,
{
    if n <= 0 {
        seq![]
    } else if is_row(lines[n - 1]) {
        only_rows(lines, n - 1).push(lines[n - 1])
    } else {
        only_rows(lines, n - 1)
    }
}

/// Whether row `j` has the blame that the parents give: that of the last parent which it is a line
/// of, at the place that the line has in that parent.
pub open spec fn blamed_by_parents(
    blames: Seq<Option<Seq<Seq<char>>>>,
    rows: Seq<DiffRowView>,
    j: int,
) -> bool {
    &&& forall|p: int|
        0 <= p < blames.len() && #[trigger] in_parent(rows[j].origin, p) && (forall|q: int|
            p < q < blames.len() ==> !#[trigger] in_parent(rows[j].origin, q)) ==> {
            &&& blames[p] is Some
            &&& 0 <= old_before(rows, p, j) < blames[p]->0.len()
            &&& rows[j].blame == Some(blames[p]->0[old_before(rows, p, j)])
        }
    &&& (forall|q: int| 0 <= q < blames.len() ==> !#[trigger] in_parent(rows[j].origin, q))
        ==> rows[j].blame is None
}

proof fn lemma_before_prefix(a: Seq<DiffRowView>, b: Seq<DiffRowView>, n: int)
    requires
        0 <= n <= a.len(),
        n <= b.len(),
        forall|i: int| 0 <= i < n ==> a[i] == b[i],
    ensures
        new_before(a, n) == new_before(b, n),
        new_text(a, n) == new_text(b, n),
        forall|p: int| #[trigger] old_before(a, p, n) == old_before(b, p, n),
    decreases n,
{
    if n > 0 {
        lemma_before_prefix(a, b, n - 1);
        assert forall|p: int| #[trigger] old_before(a, p, n) == old_before(b, p, n) by {
            assert(old_before(a, p, n - 1) == old_before(b, p, n - 1));
        }
    }
}

/// What the blame of a row is, where it is known.
pub proof fn lemma_row_blame(
    blames: Seq<Option<Seq<Seq<char>>>>,
    passed: Seq<int>,
    origin: Seq<char>,
    n: int,
)
    requires
        0 <= n <= blames.len(),
        row_blame(blames, passed, origin, n) is Known,
    ensures
        n <= origin.len(),
        forall|p: int|
            0 <= p < n && #[trigger] in_parent(origin, p) && (forall|q: int|
                p < q < n ==> !#[trigger] in_parent(origin, q)) ==> {
                &&& blames[p] is Some
                &&& passed[p] < blames[p]->0.len()
                &&& row_blame(blames, passed, origin, n)->Known_0 == Some(
                    blames[p]->0[passed[p]],
                )
            },
        (forall|q: int| 0 <= q < n ==> !#[trigger] in_parent(origin, q)) ==> row_blame(
            blames,
            passed,
            origin,
            n,
        )->Known_0 is None,
    decreases n,
{
    if n > 0 {
        lemma_row_blame(blames, passed, origin, n - 1);
    }
}

/// What holds of the rows once the first `n` lines were read.
spec fn rows_hold(
    blames: Seq<Option<Seq<Seq<char>>>>,
    lines: Seq<Seq<char>>,
    st: DiffProgress,
    n: int,
) -> bool {
    let len = st.rows.len() as int;
    &&& st.passed.len() == blames.len()
    &&& forall|p: int|
        0 <= p < blames.len() ==> #[trigger] st.passed[p] == old_before(st.rows, p, len)
            && st.passed[p] >= 0
    &&& st.count == new_before(st.rows, len)
    &&& st.text == new_text(st.rows, len)
    &&& row_lines(st.rows) == only_rows(lines, n)
    &&& forall|j: int| 0 <= j < len ==> #[trigger] numbered_rightly(st.rows, j)
    &&& forall|j: int| 0 <= j < len ==> #[trigger] blamed_by_parents(blames, st.rows, j)
}

/// Whether row `j` is numbered exactly if it is a line of the new file, by its place in that file.
pub open spec fn numbered_rightly(rows: Seq<DiffRowView>, j: int) -> bool {
    rows[j].lineno == (if rows[j].origin.contains('-') {
        None
    } else {
        Some(new_before(rows, j) + 1)
    })
}

proof fn lemma_row_kept(
    blames: Seq<Option<Seq<Seq<char>>>>,
    rows: Seq<DiffRowView>,
    row: DiffRowView,
    j: int,
)
    requires
        0 <= j < rows.len(),
    ensures
        numbered_rightly(rows, j) ==> numbered_rightly(rows.push(row), j),
        blamed_by_parents(blames, rows, j) ==> blamed_by_parents(blames, rows.push(row), j),
{
    let next = rows.push(row);
    lemma_before_prefix(rows, next, j);
    assert(next[j] == rows[j]);
    if blamed_by_parents(blames, rows, j) {
        assert forall|p: int|
            0 <= p < blames.len() && #[trigger] in_parent(next[j].origin, p) && (forall|q: int|
                p < q < blames.len() ==> !#[trigger] in_parent(next[j].origin, q)) implies {
            &&& blames[p] is Some
            &&& 0 <= old_before(next, p, j) < blames[p]->0.len()
            &&& next[j].blame == Some(blames[p]->0[old_before(next, p, j)])
        } by {
            assert(old_before(rows, p, j) == old_before(next, p, j));
        }
    }
}

proof fn lemma_rows_hold(
    blames: Seq<Option<Seq<Seq<char>>>>,
    lines: Seq<Seq<char>>,
    n: int,
)
    requires
        0 <= n <= lines.len(),
        diff_after(blames, lines, n) is Going,
    ensures
        rows_hold(blames, lines, diff_after(blames, lines, n)->Going_0, n),
    decreases n,
{
    let st = diff_after(blames, lines, n)->Going_0;
    if n == 0 {
        assert(row_lines(st.rows) =~= only_rows(lines, 0));
    } else {
        lemma_rows_hold(blames, lines, n - 1);
        let before = diff_after(blames, lines, n - 1)->Going_0;
        let line = lines[n - 1];
        if is_row(line) {
            let parents = blames.len() as int;
            let len = before.rows.len() as int;
            let row = st.rows.last();
            assert(st.rows == before.rows.push(row));
            lemma_row_blame(blames, before.passed, row.origin, parents);
            lemma_before_prefix(before.rows, st.rows, len);
            text::lemma_boundary_bounds(line, parents);
            text::law_slice_whole(line);
            text::law_slices_join(line, 0, parents, text::byte_len(line) as int);
            assert(row_lines(st.rows) =~= row_lines(before.rows).push(row.origin + row.content));
            assert forall|p: int| 0 <= p < blames.len() implies #[trigger] st.passed[p]
                == old_before(st.rows, p, len + 1) && st.passed[p] >= 0 by {
                assert(before.passed[p] == old_before(before.rows, p, len));
                assert(old_before(before.rows, p, len) == old_before(st.rows, p, len));
            }
            assert forall|j: int| 0 <= j < len + 1 implies #[trigger] numbered_rightly(
                st.rows,
                j,
            ) by {
                if j < len {
                    assert(numbered_rightly(before.rows, j));
                    lemma_row_kept(blames, before.rows, row, j);
                }
            }
            assert forall|j: int| 0 <= j < len + 1 implies #[trigger] blamed_by_parents(
                blames,
                st.rows,
                j,
            ) by {
                if j < len {
                    assert(blamed_by_parents(blames, before.rows, j));
                    lemma_row_kept(blames, before.rows, row, j);
                } else {
                    assert forall|p: int|
                        0 <= p < blames.len() && #[trigger] in_parent(st.rows[j].origin, p) && (
                        forall|q: int|
                            p < q < blames.len() ==> !#[trigger] in_parent(
                                st.rows[j].origin,
                                q,
                            )) implies {
                        &&& blames[p] is Some
                        &&& 0 <= old_before(st.rows, p, j) < blames[p]->0.len()
                        &&& st.rows[j].blame == Some(blames[p]->0[old_before(st.rows, p, j)])
                    } by {
                        assert(before.passed[p] == old_before(before.rows, p, len));
                        assert(old_before(before.rows, p, len) == old_before(st.rows, p, len));
                    }
                }
            }
        }
    }
}

/// The rows of a diff are those of its lines that are not remarks, each parted into its marks and
/// its text: no line is lost and none is added.
pub proof fn law_rows_are_lines(blames: Seq<Option<Seq<Seq<char>>>>, difftxt: Seq<char>)
    requires
        read_diff(blames, difftxt) is Going,
    ensures
        row_lines(read_diff(blames, difftxt)->Going_0.rows) == only_rows(
            body_lines(difftxt),
            body_lines(difftxt).len() as int,
        ),
{
    let lines = body_lines(difftxt);
    lemma_rows_hold(blames, lines, lines.len() as int);
}

/// The rows that no parent lost are numbered from one on, in their order; they and no others are
/// the text of the new file.
pub proof fn law_new_file(blames: Seq<Option<Seq<Seq<char>>>>, difftxt: Seq<char>)
    requires
        read_diff(blames, difftxt) is Going,
    ensures
        ({
            let p = read_diff(blames, difftxt)->Going_0;
            &&& forall|j: int| 0 <= j < p.rows.len() ==> #[trigger] numbered_rightly(p.rows, j)
            &&& p.count == new_before(p.rows, p.rows.len() as int)
            &&& p.text == new_text(p.rows, p.rows.len() as int)
        }),
{
    let lines = body_lines(difftxt);
    lemma_rows_hold(blames, lines, lines.len() as int);
}

/// Each row has the blame of the last parent that it is a line of, taken from the place that the
/// line has in that parent; a row that is new to all parents has none.
pub proof fn law_row_blame(blames: Seq<Option<Seq<Seq<char>>>>, difftxt: Seq<char>)
    requires
        read_diff(blames, difftxt) is Going,
    ensures
        ({
            let p = read_diff(blames, difftxt)->Going_0;
            forall|j: int| 0 <= j < p.rows.len() ==> #[trigger] blamed_by_parents(
                blames,
                p.rows,
                j,
            )
        }),
{
    let lines = body_lines(difftxt);
    lemma_rows_hold(blames, lines, lines.len() as int);
}

// ---------------------------------------------------------------------------
// Rows

/// The cell with the number of a row, or with the space for it.
pub open spec fn row_number_cell(row: DiffRowView) -> Seq<char> {
    match row.lineno {
        Some(n) => file::number_cell(n as nat),
        None => "<div role=\"cell\" class=\"line-number\">&nbsp;</div>"@,
    }
}

/// How the text of a row is shown: formatted where it is a line of the new file.
pub open spec fn row_text(row: DiffRowView, lines: Seq<FormattedLine>) -> Seq<char> {
    match row.lineno {
        Some(n) => if 0 < n <= lines.len() {
            lines[n - 1].line@
        } else {
            text::escape(row.content)
        },
        None => text::escape(row.content),
    }
}

/// The class that tells whether a row was removed or added.
pub open spec fn row_class(origin: Seq<char>) -> Seq<char> {
    if origin.contains('-') {
        " minus-line"@
    } else if origin.contains('+') {
        " plus-line"@
    } else {
        ""@
    }
}

/// The cell with the marks and the text of a row.
pub open spec fn row_code_cell(row: DiffRowView, lines: Seq<FormattedLine>) -> Seq<char> {
    "<code role=\"cell\" class=\"source-line"@ + row_class(row.origin) + "\" id=\"line-"@ + (
    match row.lineno {
        Some(n) => text::dec(n as nat),
        None => "-1"@,
    }) + "\">"@ + row.origin + " "@ + row_text(row, lines) + "\n</code>"@
}

/// The revision of each row's blame.
pub open spec fn row_revs(rows: Seq<DiffRowView>) -> Seq<Option<Seq<char>>> {
    Seq::new(
        rows.len(),
        |i: int|
            match rows[i].blame {
                Some(line) => Some(blame::blame_pieces(line)[0]),
                None => None,
            },
    )
}

/// The blame cell of row `i`.
pub open spec fn row_blame_cell(rows: Seq<DiffRowView>, i: int) -> Seq<char> {
    blame::blame_cell(
        match rows[i].blame {
            Some(line) => {
                let pieces = blame::blame_pieces(line);
                blame::strip_attributes(
                    blame::shade_after(row_revs(rows), i + 1).color,
                    pieces[0],
                    pieces[1],
                    pieces[2],
                )
            },
            None => blame::no_strip_attributes(),
        },
    )
}

/// What is written for row `i`.
pub open spec fn row_step(
    rows: Seq<DiffRowView>,
    lines: Seq<FormattedLine>,
    i: int,
) -> StepView {
    StepView::Lines(
        file::row(
            "<div role=\"row\" class=\"source-line-with-number\">"@,
            seq![
                row_blame_cell(rows, i),
                row_number_cell(rows[i]),
                row_code_cell(rows[i], lines),
            ],
        ),
    )
}

/// What is written for all rows.
pub open spec fn rows_steps(rows: Seq<DiffRowView>, lines: Seq<FormattedLine>) -> Seq<StepView> {
    Seq::new(rows.len(), |i: int| row_step(rows, lines, i))
}

/// Whether the blame of each row is a blame line.
pub open spec fn rows_blamed(rows: Seq<DiffRowView>) -> bool {
    forall|i: int|
        0 <= i < rows.len() && (#[trigger] rows[i]).blame is Some ==> blame::is_blame_line(
            rows[i].blame->0,
        )
}

/// Tells whether the blame of each row is a blame line.
pub fn check_rows(rows: &Vec<DiffRow>) -> (r: bool)
    ensures
        r == rows_blamed(row_views(rows@)),
{
    let ghost views = row_views(rows@);
    let mut i: usize = 0;
    while i < rows.len()
        invariant
            i <= rows@.len(),
            views == row_views(rows@),
            forall|k: int|
                0 <= k < i && (#[trigger] views[k]).blame is Some ==> blame::is_blame_line(
                    views[k].blame->0,
                ),
        decreases rows@.len() - i,
    {
        proof {
            assert(views[i as int] == rows@[i as int]@);
        }
        if let Some(line) = &rows[i].blame {
            if !check_blame_line(line.as_str()) {
                return false;
            }
        }
        i = i + 1;
    }
    true
}

fn write_row_code_cell(row: &DiffRow, lines: &Vec<FormattedLine>) -> (r: String)
    ensures
        r@ == row_code_cell(row@, lines@),
{
    let class: &str = if contains_char(row.origin.as_str(), '-') {
        " minus-line"
    } else if contains_char(row.origin.as_str(), '+') {
        " plus-line"
    } else {
        ""
    };
    let number: String = match row.lineno {
        Some(n) => decimal(n as u128),
        None => "-1".to_owned(),
    };
    let content: String = match row.lineno {
        Some(n) => if 0 < n && n <= lines.len() {
            lines[n - 1].line.clone()
        } else {
            entity_replace(row.content.as_str())
        },
        None => entity_replace(row.content.as_str()),
    };
    let mut r = "<code role=\"cell\" class=\"source-line".to_owned();
    r.append(class);
    r.append("\" id=\"line-");
    r.append(number.as_str());
    r.append("\">");
    r.append(row.origin.as_str());
    r.append(" ");
    r.append(content.as_str());
    r.append("\n</code>");
    r
}

fn write_row_number_cell(row: &DiffRow) -> (r: String)
    ensures
        r@ == row_number_cell(row@),
{
    match row.lineno {
        Some(n) => write_number_cell(n),
        None => "<div role=\"cell\" class=\"line-number\">&nbsp;</div>".to_owned(),
    }
}

fn write_row_blame_cell(shade: &mut Shade, row: &DiffRow) -> (r: String)
    requires
        row@.blame is Some ==> blame::is_blame_line(row@.blame->0),
    ensures
        match row@.blame {
            Some(line) => {
                let pieces = blame::blame_pieces(line);
                &&& final(shade)@ == blame::shaded(old(shade)@, pieces[0])
                &&& r@ == blame::blame_cell(
                    blame::strip_attributes(
                        final(shade)@.color,
                        pieces[0],
                        pieces[1],
                        pieces[2],
                    ),
                )
            },
            None => final(shade)@ == old(shade)@ && r@ == blame::blame_cell(
                blame::no_strip_attributes(),
            ),
        },
{
    match &row.blame {
        Some(line) => {
            let pieces = split_first(line.as_str(), 4, ':');
            shade.cell(pieces[0], pieces[1], pieces[2])
        },
        None => empty_cell(),
    }
}

fn write_rows(steps: &mut Vec<Step>, rows: &Vec<DiffRow>, lines: &Vec<FormattedLine>)
    requires
        rows_blamed(row_views(rows@)),
    ensures
        page::step_views(final(steps)@) == page::step_views(old(steps)@) + rows_steps(
            row_views(rows@),
            lines@,
        ),
{
    let ghost views = row_views(rows@);
    let ghost all = rows_steps(views, lines@);
    let ghost base = page::step_views(steps@);
    let ghost revs = row_revs(views);
    let mut shade = Shade::none();
    proof {
        assert(base + all.take(0) =~= base);
    }
    let mut i: usize = 0;
    while i < rows.len()
        invariant
            i <= rows@.len(),
            views == row_views(rows@),
            rows_blamed(views),
            all == rows_steps(views, lines@),
            revs == row_revs(views),
            shade@ == blame::shade_after(revs, i as int),
            page::step_views(steps@) == base + all.take(i as int),
        decreases rows@.len() - i,
    {
        let row = &rows[i];
        let ghost before = page::step_views(steps@);
        proof {
            assert(views[i as int] == row@);
        }
        let strip = write_row_blame_cell(&mut shade, row);
        proof {
            assert(shade@ == blame::shade_after(revs, i + 1));
            assert(strip@ == row_blame_cell(views, i as int));
        }
        let number = write_row_number_cell(row);
        let source = write_row_code_cell(row, lines);
        let open = "<div role=\"row\" class=\"source-line-with-number\">".to_owned();
        let markup = write_row(open, strip, number, source);
        push_step(steps, Step::Lines(markup));
        proof {
            assert(all[i as int] == row_step(views, lines@, i as int));
            assert(all.take(i + 1) =~= all.take(i as int).push(all[i as int]));
            assert(page::step_views(steps@) =~= base + all.take(i + 1));
        }
        i = i + 1;
    }
    proof {
        assert(all.take(i as int) =~= all);
    }
}

// ---------------------------------------------------------------------------
// The page

/// The entries of the panel of a diff.
pub open spec fn diff_items(
    tree_name: Seq<char>,
    rev: Seq<char>,
    path: Seq<char>,
    hg_root: Option<Seq<char>>,
) -> Seq<PanelItemView> {
    seq![
        PanelItemView {
            title: "Show changeset"@,
            link: "/"@ + tree_name + "/commit/"@ + rev,
            update_link_lineno: ""@,
            accel_key: None,
        },
        PanelItemView {
            title: "Show file without diff"@,
            link: "/"@ + tree_name + "/rev/"@ + rev + "/"@ + path,
            update_link_lineno: "#{}"@,
            accel_key: None,
        },
        revision::latest_item(tree_name, path),
    ] + (match hg_root {
        Some(root) => seq![revision::log_item(root, "tip"@, path)],
        None => seq![],
    })
}

/// The panel of a diff.
pub fn diff_panel(tree: &TreeConfig, tree_name: &str, rev: &str, path: &str) -> (r: Vec<
    PanelSection,
>)
    ensures
        page::section_views(r@) == revision::panel_of(
            diff_items(tree_name@, rev@, path@, tree.hg_root.deep_view()),
        ),
{
    let mut items: Vec<PanelItem> = Vec::new();
    let mut changeset = "/".to_owned();
    changeset.append(tree_name);
    changeset.append("/commit/");
    changeset.append(rev);
    push_item(&mut items, "Show changeset", changeset, "", None);
    let mut whole = "/".to_owned();
    whole.append(tree_name);
    whole.append("/rev/");
    whole.append(rev);
    whole.append("/");
    whole.append(path);
    push_item(&mut items, "Show file without diff", whole, "#{}", None);
    push_item(
        &mut items,
        "Go to latest version",
        write_latest_link(tree_name, path),
        "#{}",
        None,
    );
    if let Some(root) = &tree.hg_root {
        let log = write_log_link(root.as_str(), "tip", path);
        push_item(&mut items, "Log", log, "", Some('L'));
    }
    proof {
        assert(page::item_views(items@) =~= diff_items(
            tree_name@,
            rev@,
            path@,
            tree.hg_root.deep_view(),
        ));
    }
    write_panel(items)
}

/// The changes of a commit to a file, with all that their page needs.
#[derive(Debug)]
pub struct DiffData<'a> {
    pub tree: &'a TreeConfig,
    /// What [`parse_diff`] made of the diff.
    pub parsed: Result<ParsedDiff, &'static str>,
    /// The text of the new file, formatted; absent where the file is binary.
    pub code: Option<FormattedCode>,
    /// What the commit's message is taken apart into, or why that failed.
    pub header: Result<(String, String), &'static str>,
}

/// How far the retrieval of a diff came.
#[derive(Debug)]
pub enum DiffSource<'a> {
    /// The tree is not configured.
    NoTree,
    /// The tree has no directory to run git in, for this reason.
    NoPath(&'static str),
    /// Git could not be run.
    NotRun,
    /// Git failed.
    RunFailed,
    /// Git gave no text: the commit does not change the file, which is shown as it was.
    Unchanged(PathSource<'a>),
    /// The tree has no repository, for this reason.
    NoGit(&'static str),
    /// The revision does not lead to a commit.
    NoRevision,
    /// The blame repository has nothing for a parent of the commit.
    NoBlame,
    /// What the blame repository has for a parent is not a commit.
    BadBlame,
    /// The commit that the blame repository has for a parent has no tree.
    BadBlameTree,
    Ready(DiffData<'a>),
}

/// Whether the page of a diff gets as far as its rows.
pub open spec fn writes_rows(d: DiffData) -> bool {
    d.parsed is Ok && d.code is Some && d.header is Ok
}

/// The options of the page of a diff.
pub open spec fn diff_options(
    tree_name: Seq<char>,
    rev: Seq<char>,
    path: Seq<char>,
    header: Seq<char>,
) -> PageOptionsView {
    PageOptionsView {
        title: file::page_title(paths::file_name(path)->0),
        tree_name,
        include_date: true,
        revision: Some((rev, header)),
        extra_content_classes: "source-listing diff"@,
    }
}

/// What is written of a diff.
pub open spec fn diff_steps(
    panel: Seq<PanelSectionView>,
    path: Seq<char>,
    rows: Seq<DiffRowView>,
    lines: Seq<FormattedLine>,
) -> Seq<StepView> {
    seq![StepView::Header, StepView::Panel(panel), file::table_open()] + rows_steps(rows, lines)
        + seq![file::table_close(), StepView::Footer(path)]
}

/// The page of these rows.
pub open spec fn rows_page(
    tree_name: Seq<char>,
    rev: Seq<char>,
    path: Seq<char>,
    tree: &TreeConfig,
    header: Seq<char>,
    rows: Seq<DiffRowView>,
    lines: Seq<FormattedLine>,
) -> PageView {
    PageView {
        options: Some(diff_options(tree_name, rev, path, header)),
        steps: diff_steps(
            revision::panel_of(diff_items(tree_name, rev, path, tree.hg_root.deep_view())),
            path,
            rows,
            lines,
        ),
        error: None,
    }
}

/// The page of a diff that was retrieved.
pub open spec fn diff_data_page(
    tree_name: Seq<char>,
    rev: Seq<char>,
    path: Seq<char>,
    d: DiffData,
) -> PageView {
    match (d.parsed, d.code, d.header) {
        (Err(e), _, _) => page::failed(e@),
        (Ok(_), None, _) => page::failed("Cannot diff binary file"@),
        (Ok(_), Some(_), Err(e)) => page::failed(e@),
        (Ok(parsed), Some(code), Ok(header)) => rows_page(
            tree_name,
            rev,
            path,
            d.tree,
            header.0@,
            row_views(parsed.rows@),
            code.lines@,
        ),
    }
}

/// The page of a diff.
pub open spec fn diff_page(
    tree_name: Seq<char>,
    rev: Seq<char>,
    path: Seq<char>,
    source: DiffSource,
    diffable: bool,
) -> PageView {
    match source {
        DiffSource::NoTree => page::failed("Invalid tree"@),
        DiffSource::NoPath(e) => page::failed(e@),
        DiffSource::NotRun => page::failed("Diff failed 1"@),
        DiffSource::RunFailed => page::failed("Diff failed 2"@),
        DiffSource::Unchanged(p) => revision::path_page(tree_name, path, p, diffable),
        DiffSource::NoGit(e) => page::failed(e@),
        DiffSource::NoRevision => page::failed("Bad revision"@),
        DiffSource::NoBlame => page::failed("Unable to find blame"@),
        DiffSource::BadBlame => page::failed("Blame is not a blob"@),
        DiffSource::BadBlameTree => page::failed("Bad revision"@),
        DiffSource::Ready(d) => diff_data_page(tree_name, rev, path, d),
    }
}

fn format_diff_data(tree_name: &str, rev: &str, path: &str, d: DiffData) -> (r: Page)
    requires
        writes_rows(d) ==> paths::file_name(path@) is Some && rows_blamed(
            row_views(d.parsed->Ok_0.rows@),
        ),
    ensures
        r@ == diff_data_page(tree_name@, rev@, path@, d),
{
    let parsed = match &d.parsed {
        Ok(parsed) => parsed,
        Err(e) => {
            return fail(*e);
        },
    };
    let code = match &d.code {
        Some(code) => code,
        None => {
            return fail("Cannot diff binary file");
        },
    };
    let header = match &d.header {
        Ok(header) => header.0.clone(),
        Err(e) => {
            return fail(*e);
        },
    };
    let filename = read_file_name(path).unwrap();
    let options = PageOptions {
        title: write_title(filename),
        tree_name: tree_name.to_owned(),
        include_date: true,
        revision: Some((rev.to_owned(), header)),
        extra_content_classes: "source-listing diff",
    };
    let panel = diff_panel(d.tree, tree_name, rev, path);
    let ghost panel_view = page::section_views(panel@);
    let mut steps: Vec<Step> = Vec::new();
    push_step(&mut steps, Step::Header);
    push_step(&mut steps, Step::Panel(panel));
    push_step(
        &mut steps,
        Step::Lines(single_line("<div id=\"file\" class=\"file\" role=\"table\">")),
    );
    proof {
        assert(page::step_views(steps@) =~= seq![
            StepView::Header,
            StepView::Panel(panel_view),
            file::table_open(),
        ]);
    }
    write_rows(&mut steps, &parsed.rows, &code.lines);
    let ghost listed = page::step_views(steps@);
    push_step(&mut steps, Step::Lines(single_line("</div>")));
    push_step(&mut steps, Step::Footer(path.to_owned()));
    proof {
        assert(page::step_views(steps@) =~= listed + seq![
            file::table_close(),
            StepView::Footer(path@),
        ]);
        assert(options@ == diff_options(tree_name@, rev@, path@, header@));
    }
    Page { options: Some(options), steps, error: None }
}

/// Renders the changes of a commit to a file with blame annotations but without semantic analysis
/// data. A file that the commit does not change is rendered as it was.
pub fn format_diff(
    tree_name: &str,
    rev: &str,
    path: &str,
    source: DiffSource,
    diffable: bool,
) -> (r: Page)
    requires
        match source {
            DiffSource::Ready(d) => writes_rows(d) ==> paths::file_name(path@) is Some
                && rows_blamed(row_views(d.parsed->Ok_0.rows@)),
            DiffSource::Unchanged(p) => revision::path_writable(path@, p),
            _ => true,
        },
    ensures
        r@ == diff_page(tree_name@, rev@, path@, source, diffable),
{
    match source {
        DiffSource::NoTree => fail("Invalid tree"),
        DiffSource::NoPath(e) => fail(e),
        DiffSource::NotRun => fail("Diff failed 1"),
        DiffSource::RunFailed => fail("Diff failed 2"),
        DiffSource::Unchanged(p) => format_path(tree_name, path, p, diffable),
        DiffSource::NoGit(e) => fail(e),
        DiffSource::NoRevision => fail("Bad revision"),
        DiffSource::NoBlame => fail("Unable to find blame"),
        DiffSource::BadBlame => fail("Blame is not a blob"),
        DiffSource::BadBlameTree => fail("Bad revision"),
        DiffSource::Ready(d) => format_diff_data(tree_name, rev, path, d),
    }
}

/// Whether `tokenize` can give these tokens for a text; none where the file is binary.
pub open spec fn tokenized_as<T: Fn(&str) -> Option<Vec<Token>>>(
    tokenize: T,
    text: Seq<char>,
    tokens: Option<Vec<Token>>,
) -> bool {
    exists|a: &str| #[trigger] call_ensures(tokenize, (a,), tokens) && a@ == text
}

/// Whether `page` shows a diff of which this much was read, its text taken apart into tokens and
/// formatted without semantic analysis data.
pub open spec fn shows_diff<T: Fn(&str) -> Option<Vec<Token>>, L: Fn(&str) -> String>(
    tree_name: Seq<char>,
    rev: Seq<char>,
    path: Seq<char>,
    tree: &TreeConfig,
    header: Result<(String, String), &'static str>,
    p: DiffProgress,
    tokenize: T,
    linkify: L,
    page: PageView,
) -> bool {
    exists|tokens: Option<Vec<Token>>|
        {
            &&& #[trigger] tokenized_as(tokenize, p.text, tokens)
            &&& match (tokens, header) {
                (None, _) => page == page::failed("Cannot diff binary file"@),
                (Some(_), Err(e)) => page == page::failed(e@),
                (Some(t), Ok(h)) => exists|lines: Seq<FormattedLine>|
                    {
                        &&& #[trigger] code::code_lines(
                            linkify,
                            code::code_input(Map::empty(), path, p.text, t@, seq![]),
                            lines,
                        )
                        &&& page == rows_page(tree_name, rev, path, tree, h.0@, p.rows, lines)
                    },
            }
        }
}

/// Renders the text of a diff with blame annotations but without semantic analysis data: `blames`
/// holds the blame lines of the file in each parent of the commit, if there are any, `parents` tells
/// how many of the parents, the first ones, the lines of the diff have marks for, and `tokenize`
/// takes the text of the new file apart, unless the file is binary.
pub fn render_diff<T: Fn(&str) -> Option<Vec<Token>>, L: Fn(&str) -> String>(
    tree: &TreeConfig,
    tree_name: &str,
    rev: &str,
    path: &str,
    blames: &Vec<Option<Vec<String>>>,
    parents: usize,
    difftxt: &str,
    header: Result<(String, String), &'static str>,
    diffable: bool,
    tokenize: &T,
    linkify: &L,
) -> (r: Page)
    requires
        diff_valid(blames@, parents as nat, difftxt@),
        forall|a: &str| call_requires(*tokenize, (a,)),
        forall|a: &str, t: Vec<Token>| #[trigger]
            call_ensures(*tokenize, (a,), Some(t)) ==> source::tokens_valid(a@, t@)
                && source::lines_countable(t@),
        forall|a: &str| call_requires(*linkify, (a,)),
        read_diff(marked(blames@, parents as nat), difftxt@) matches DiffState::Going(p) ==> forall|
            t: Vec<Token>,
        | #[trigger]
            tokenized_as(*tokenize, p.text, Some(t)) && header is Ok ==> paths::file_name(
                path@,
            ) is Some && rows_blamed(p.rows),
    ensures
        match read_diff(marked(blames@, parents as nat), difftxt@) {
            DiffState::Going(p) => shows_diff(
                tree_name@,
                rev@,
                path@,
                tree,
                header,
                p,
                *tokenize,
                *linkify,
                r@,
            ),
            _ => r@ == page::failed("expected blame for '-' line, none found"@),
        },
{
    let parsed = match parse_diff(blames, parents, difftxt) {
        Ok(parsed) => parsed,
        Err(e) => {
            return fail(e);
        },
    };
    let ghost p = read_diff(marked(blames@, parents as nat), difftxt@)->Going_0;
    let tokens = (*tokenize)(parsed.new_text.as_str());
    proof {
        assert(tokenized_as(*tokenize, p.text, tokens));
    }
    let code: Option<FormattedCode> = match &tokens {
        Some(t) => {
            let jumps = JumpTable::new();
            let analysis: Vec<WithLocation<Vec<AnalysisSource>>> = Vec::new();
            proof {
                assert(analysis@ =~= seq![]);
                assert(tokenized_as(*tokenize, p.text, Some(*t)));
            }
            let (lines, analysis_json) = format_code(
                &jumps,
                path,
                parsed.new_text.as_str(),
                t.as_slice(),
                analysis.as_slice(),
                diffable,
                linkify,
            );
            Some(FormattedCode { lines, analysis_json })
        },
        None => None,
    };
    format_diff_data(tree_name, rev, path, DiffData { tree, parsed: Ok(parsed), code, header })
}

/// A diff without any change is shown as the file in that revision is.
pub proof fn law_unchanged(
    tree_name: Seq<char>,
    rev: Seq<char>,
    path: Seq<char>,
    source: PathSource,
    diffable: bool,
)
    ensures
        diff_page(tree_name, rev, path, DiffSource::Unchanged(source), diffable)
            == revision::path_page(tree_name, path, source, diffable),
{
}

} // verus!
