//! What holds of every diff that is read and of every page of one.

use crate::blame;
use crate::code;
use crate::code::{CodeInput, FormattedLine};
use crate::diff;
use crate::diff::{DiffData, DiffProgress, DiffRowView, DiffSource, DiffState};
use crate::page;
use crate::page::{MarkupView, PageView, StepView, TreeConfig};
use crate::page_laws;
use crate::paths;
use crate::source::Token;
use crate::split;
use crate::text;
use crate::text_laws;
use vstd::prelude::*;

verus! {

// ---------------------------------------------------------------------------
// The header

/// Whether a line starts a hunk.
pub open spec fn starts_hunk(line: Seq<char>) -> bool {
    line.len() > 0 && line[0] == '@'
}

proof fn lemma_header(lines: Seq<Seq<char>>, from: int, k: int)
    requires
        0 <= from <= k < lines.len() - 1,
        starts_hunk(lines[k]),
        forall|j: int| from <= j < k ==> !starts_hunk(#[trigger] lines[j]),
    ensures
        diff::header_len(lines, from) == k + 1,
    decreases k - from,
{
    if from < k {
        assert(!starts_hunk(lines[from]));
        lemma_header(lines, from + 1, k);
    }
}

proof fn lemma_no_header(lines: Seq<Seq<char>>, from: int)
    requires
        0 <= from <= lines.len(),
        forall|j: int| from <= j < lines.len() - 1 ==> !starts_hunk(#[trigger] lines[j]),
    ensures
        diff::header_len(lines, from) == 0,
    decreases lines.len() - from,
{
    if from < lines.len() {
        if from < lines.len() - 1 {
            assert(!starts_hunk(lines[from]));
        }
        lemma_no_header(lines, from + 1);
    }
}

/// The lines that are read as rows are those behind the first line that starts with `@` and is not
/// the last, at whatever place it stands, and only those; where there is no such line, all are.
/// Empty lines, and remarks, which start with a backslash, are left out.
pub proof fn law_rows_behind_header(
    blames: Seq<Option<Seq<Seq<char>>>>,
    difftxt: Seq<char>,
    k: int,
)
    requires
        diff::read_diff(blames, difftxt) is Going,
    ensures
        ({
            let lines = split::line_pieces(difftxt);
            let rows = diff::read_diff(blames, difftxt)->Going_0.rows;
            let read = Seq::new(rows.len(), |i: int| rows[i].origin + rows[i].content);
            let kept = |l: Seq<char>| l.len() > 0 && l[0] != '\\';
            &&& 0 <= k < lines.len() - 1 && starts_hunk(lines[k]) && (forall|j: int|
                0 <= j < k ==> !starts_hunk(#[trigger] lines[j])) ==> read == lines.skip(
                k + 1,
            ).filter(kept)
            &&& (forall|j: int| 0 <= j < lines.len() - 1 ==> !starts_hunk(#[trigger] lines[j]))
                ==> read == lines.filter(kept)
        }),
{
    let lines = split::line_pieces(difftxt);
    let rows = diff::read_diff(blames, difftxt)->Going_0.rows;
    let read = Seq::new(rows.len(), |i: int| rows[i].origin + rows[i].content);
    let kept = |l: Seq<char>| l.len() > 0 && l[0] != '\\';
    diff::law_rows_are_lines(blames, difftxt);
    assert(diff::row_lines(rows) =~= read);
    let body = diff::body_lines(difftxt);
    lemma_only_rows(body, body.len() as int);
    assert(body.take(body.len() as int) =~= body);
    if 0 <= k < lines.len() - 1 && starts_hunk(lines[k]) && (forall|j: int|
        0 <= j < k ==> !starts_hunk(#[trigger] lines[j])) {
        lemma_header(lines, 0, k);
    }
    if forall|j: int| 0 <= j < lines.len() - 1 ==> !starts_hunk(#[trigger] lines[j]) {
        lemma_no_header(lines, 0);
        assert(lines.skip(0) =~= lines);
    }
}

/// No line up to and with the first that starts with `@` and is not the last is looked at: two
/// diffs that differ only there are read alike.
pub proof fn law_header_is_passed(
    blames: Seq<Option<Seq<Seq<char>>>>,
    a: Seq<char>,
    b: Seq<char>,
    i: int,
    j: int,
)
    requires
        0 <= i < split::line_pieces(a).len() - 1,
        0 <= j < split::line_pieces(b).len() - 1,
        starts_hunk(split::line_pieces(a)[i]),
        starts_hunk(split::line_pieces(b)[j]),
        forall|k: int| 0 <= k < i ==> !starts_hunk(#[trigger] split::line_pieces(a)[k]),
        forall|k: int| 0 <= k < j ==> !starts_hunk(#[trigger] split::line_pieces(b)[k]),
        split::line_pieces(a).skip(i + 1) == split::line_pieces(b).skip(j + 1),
    ensures
        diff::read_diff(blames, a) == diff::read_diff(blames, b),
{
    lemma_header(split::line_pieces(a), 0, i);
    lemma_header(split::line_pieces(b), 0, j);
}

proof fn lemma_only_rows(lines: Seq<Seq<char>>, n: int)
    requires
        0 <= n <= lines.len(),
    ensures
        diff::only_rows(lines, n) == lines.take(n).filter(
            |l: Seq<char>| l.len() > 0 && l[0] != '\\',
        ),
    decreases n,
{
    reveal(Seq::filter);
    if n > 0 {
        lemma_only_rows(lines, n - 1);
        assert(lines.take(n).drop_last() =~= lines.take(n - 1));
        assert(lines.take(n).last() == lines[n - 1]);
    } else {
        assert(lines.take(0).len() == 0);
    }
}

// ---------------------------------------------------------------------------
// Marks

/// A row that is marked as removed is a line of the parents whose mark says so; any other is a
/// line of the parents that have no plus for it.
pub proof fn law_lines_of_parents(origin: Seq<char>, p: int)
    requires
        0 <= p < origin.len(),
    ensures
        (exists|j: int| 0 <= j < origin.len() && #[trigger] origin[j] == '-')
            ==> diff::in_parent(origin, p) == (origin[p] == '-'),
        (forall|j: int| 0 <= j < origin.len() ==> #[trigger] origin[j] != '-')
            ==> diff::in_parent(origin, p) == (origin[p] != '+'),
{
    if exists|j: int| 0 <= j < origin.len() && #[trigger] origin[j] == '-' {
        let j = choose|j: int| 0 <= j < origin.len() && #[trigger] origin[j] == '-';
        assert(origin.contains(origin[j]));
    }
}

proof fn lemma_marks(blames: Seq<Option<Seq<Seq<char>>>>, lines: Seq<Seq<char>>, n: int)
    requires
        0 <= n <= lines.len(),
        diff::diff_after(blames, lines, n) is Going,
    ensures
        ({
            let rows = diff::diff_after(blames, lines, n)->Going_0.rows;
            forall|j: int|
                0 <= j < rows.len() ==> text::byte_len((#[trigger] rows[j]).origin)
                    == blames.len() && rows[j].origin.len() >= blames.len()
        }),
    decreases n,
{
    if n > 0 {
        lemma_marks(blames, lines, n - 1);
        let before = diff::diff_after(blames, lines, n - 1)->Going_0;
        let st = diff::diff_after(blames, lines, n)->Going_0;
        let line = lines[n - 1];
        let parents = blames.len() as int;
        if line.len() > 0 && line[0] != '\\' {
            text::lemma_boundary_bounds(line, 0);
            text::lemma_boundary_bounds(line, parents);
            text_laws::law_slice_bytes(line, 0, parents);
            diff::lemma_row_blame(blames, before.passed, st.rows.last().origin, parents);
            assert forall|j: int| 0 <= j < st.rows.len() implies text::byte_len(
                (#[trigger] st.rows[j]).origin,
            ) == blames.len() && st.rows[j].origin.len() >= blames.len() by {
                if j < before.rows.len() {
                    assert(st.rows[j] == before.rows[j]);
                }
            }
        }
    }
}

/// Every row has one mark for each parent, and what follows the marks is its text.
pub proof fn law_marks(blames: Seq<Option<Seq<Seq<char>>>>, difftxt: Seq<char>, j: int)
    requires
        diff::read_diff(blames, difftxt) is Going,
        0 <= j < diff::read_diff(blames, difftxt)->Going_0.rows.len(),
    ensures
        text::byte_len(diff::read_diff(blames, difftxt)->Going_0.rows[j].origin) == blames.len(),
        diff::read_diff(blames, difftxt)->Going_0.rows[j].origin.len() >= blames.len(),
{
    let lines = diff::body_lines(difftxt);
    lemma_marks(blames, lines, lines.len() as int);
}

/// Tells the rows that are lines of the new file: those that no parent has a minus for.
pub open spec fn in_new_file() -> spec_fn(DiffRowView) -> bool {
    |row: DiffRowView| !row.origin.contains('-')
}

/// The text of a row, with the end of its line.
pub open spec fn whole_line() -> spec_fn(DiffRowView) -> Seq<char> {
    |row: DiffRowView| row.content + seq!['\n']
}

/// Whether the rows that are lines of the new file, and no others, have the numbers from one on,
/// and the text is theirs.
pub open spec fn makes_new_file(p: DiffProgress) -> bool {
    let kept = p.rows.filter(in_new_file());
    &&& forall|j: int|
        0 <= j < p.rows.len() ==> ((#[trigger] p.rows[j]).lineno is None
            <==> p.rows[j].origin.contains('-'))
    &&& forall|i: int| 0 <= i < kept.len() ==> (#[trigger] kept[i]).lineno == Some(i + 1)
    &&& p.count == kept.len()
    &&& p.text == kept.map_values(whole_line()).flatten()
}

proof fn lemma_new_lines(blames: Seq<Option<Seq<Seq<char>>>>, lines: Seq<Seq<char>>, n: int)
    requires
        0 <= n <= lines.len(),
        diff::diff_after(blames, lines, n) is Going,
    ensures
        makes_new_file(diff::diff_after(blames, lines, n)->Going_0),
    decreases n,
{
    reveal(Seq::filter);
    let st = diff::diff_after(blames, lines, n)->Going_0;
    let kept = st.rows.filter(in_new_file());
    if n == 0 {
        assert(kept.len() == 0);
        assert(kept.map_values(whole_line()) =~= Seq::<Seq<char>>::empty());
    } else {
        lemma_new_lines(blames, lines, n - 1);
        let before = diff::diff_after(blames, lines, n - 1)->Going_0;
        let line = lines[n - 1];
        if row_line(line) {
            let row = st.rows.last();
            let kept_before = before.rows.filter(in_new_file());
            assert(st.rows == before.rows.push(row));
            assert(st.rows.drop_last() =~= before.rows);
            if !row.origin.contains('-') {
                assert(kept == kept_before.push(row));
                let texts = kept_before.map_values(whole_line());
                assert(kept.map_values(whole_line()) =~= texts.push(row.content + seq!['\n']));
                texts.lemma_flatten_push(row.content + seq!['\n']);
                assert(st.text =~= before.text + (row.content + seq!['\n']));
            }
        }
    }
}

/// The rows that no parent has a minus for are the lines of the new file: they have the numbers
/// from one on, in their order, the others have none, and their texts, each with the end of its
/// line, make up the text of the new file.
pub proof fn law_new_lines(blames: Seq<Option<Seq<Seq<char>>>>, difftxt: Seq<char>)
    requires
        diff::read_diff(blames, difftxt) is Going,
    ensures
        makes_new_file(diff::read_diff(blames, difftxt)->Going_0),
{
    let lines = diff::body_lines(difftxt);
    lemma_new_lines(blames, lines, lines.len() as int);
}

/// Tells the rows that are lines of parent `p`.
pub open spec fn in_old_file(p: int) -> spec_fn(DiffRowView) -> bool {
    |row: DiffRowView| diff::in_parent(row.origin, p)
}

proof fn lemma_old_before(rows: Seq<DiffRowView>, p: int, n: int)
    requires
        0 <= n <= rows.len(),
    ensures
        diff::old_before(rows, p, n) == rows.take(n).filter(in_old_file(p)).len(),
    decreases n,
{
    reveal(Seq::filter);
    if n > 0 {
        lemma_old_before(rows, p, n - 1);
        assert(rows.take(n).drop_last() =~= rows.take(n - 1));
        assert(rows.take(n).last() == rows[n - 1]);
    } else {
        assert(rows.take(0).len() == 0);
    }
}

/// A row that is a line of a parent, and of no parent behind that one, has the line of that
/// parent's blame that as many lines stand before as there are lines of the parent among the rows
/// before; a row that is a line of no parent has no blame.
pub proof fn law_blame_of_row(blames: Seq<Option<Seq<Seq<char>>>>, difftxt: Seq<char>, j: int)
    requires
        diff::read_diff(blames, difftxt) is Going,
        0 <= j < diff::read_diff(blames, difftxt)->Going_0.rows.len(),
    ensures
        ({
            let rows = diff::read_diff(blames, difftxt)->Going_0.rows;
            let origin = rows[j].origin;
            &&& forall|p: int|
                0 <= p < blames.len() && #[trigger] diff::in_parent(origin, p) && (forall|q: int|
                    p < q < blames.len() ==> !#[trigger] diff::in_parent(origin, q)) ==> {
                    let place = rows.take(j).filter(in_old_file(p)).len() as int;
                    &&& blames[p] is Some
                    &&& place < blames[p]->0.len()
                    &&& rows[j].blame == Some(blames[p]->0[place])
                }
            &&& (forall|q: int| 0 <= q < blames.len() ==> !#[trigger] diff::in_parent(origin, q))
                ==> rows[j].blame is None
        }),
{
    let rows = diff::read_diff(blames, difftxt)->Going_0.rows;
    diff::law_row_blame(blames, difftxt);
    assert(diff::blamed_by_parents(blames, rows, j));
    assert forall|p: int| #[trigger] diff::in_parent(rows[j].origin, p) implies diff::old_before(
        rows,
        p,
        j,
    ) == rows.take(j).filter(in_old_file(p)).len() by {
        lemma_old_before(rows, p, j);
    }
}

/// Whether a line of a diff is a row.
pub open spec fn row_line(line: Seq<char>) -> bool {
    line.len() > 0 && line[0] != '\\'
}

/// Whether a line has a mark of one byte for each parent.
pub open spec fn well_marked(line: Seq<char>, parents: int) -> bool {
    &&& parents <= line.len()
    &&& forall|i: int| 0 <= i < parents ==> '\0' <= #[trigger] line[i] <= '\u{7f}'
}

/// How many rows among the first `n` lines are lines of parent `p`.
pub open spec fn lines_of(lines: Seq<Seq<char>>, parents: int, p: int, n: int) -> int
    decreases n,
{
    if n <= 0 {
        0
    } else {
        lines_of(lines, parents, p, n - 1) + (if row_line(lines[n - 1]) && diff::in_parent(
            lines[n - 1].take(parents),
            p,
        ) {
            1int
        } else {
            0
        })
    }
}

proof fn lemma_lines_of_grow(lines: Seq<Seq<char>>, parents: int, p: int, i: int, j: int)
    requires
        0 <= i <= j,
    ensures
        0 <= lines_of(lines, parents, p, i) <= lines_of(lines, parents, p, j),
    decreases j,
{
    if i < j {
        lemma_lines_of_grow(lines, parents, p, i, j - 1);
    } else if i > 0 {
        lemma_lines_of_grow(lines, parents, p, i - 1, j - 1);
    }
}

/// Whether every parent that some row is a line of has blame for all its lines.
pub open spec fn blame_reaches(
    blames: Seq<Option<Seq<Seq<char>>>>,
    lines: Seq<Seq<char>>,
) -> bool {
    forall|p: int|
        0 <= p < blames.len() ==> {
            let total = #[trigger] lines_of(lines, blames.len() as int, p, lines.len() as int);
            total > 0 ==> blames[p] is Some && blames[p]->0.len() >= total
        }
}

proof fn lemma_row_known(
    blames: Seq<Option<Seq<Seq<char>>>>,
    passed: Seq<int>,
    origin: Seq<char>,
    n: int,
)
    requires
        0 <= n <= blames.len(),
        origin.len() >= n,
        forall|p: int|
            0 <= p < n && #[trigger] diff::in_parent(origin, p) ==> blames[p] is Some && passed[p]
                < blames[p]->0.len(),
    ensures
        diff::row_blame(blames, passed, origin, n) is Known,
    decreases n,
{
    if n > 0 {
        lemma_row_known(blames, passed, origin, n - 1);
        let _ = diff::in_parent(origin, n - 1);
    }
}

proof fn lemma_is_read(blames: Seq<Option<Seq<Seq<char>>>>, lines: Seq<Seq<char>>, n: int)
    requires
        0 <= n <= lines.len(),
        forall|i: int|
            0 <= i < lines.len() && row_line(#[trigger] lines[i]) ==> well_marked(
                lines[i],
                blames.len() as int,
            ),
        blame_reaches(blames, lines),
    ensures
        diff::diff_after(blames, lines, n) is Going,
        ({
            let st = diff::diff_after(blames, lines, n)->Going_0;
            &&& st.passed.len() == blames.len()
            &&& forall|p: int|
                0 <= p < blames.len() ==> #[trigger] st.passed[p] == lines_of(
                    lines,
                    blames.len() as int,
                    p,
                    n,
                )
        }),
    decreases n,
{
    if n > 0 {
        lemma_is_read(blames, lines, n - 1);
        let before = diff::diff_after(blames, lines, n - 1)->Going_0;
        let line = lines[n - 1];
        let parents = blames.len() as int;
        if row_line(line) {
            assert(well_marked(line, parents));
            text_laws::law_single_byte_prefix(line, parents);
            let origin = line.take(parents);
            assert forall|p: int|
                0 <= p < parents && #[trigger] diff::in_parent(origin, p) implies blames[p]
                is Some && before.passed[p] < blames[p]->0.len() by {
                assert(before.passed[p] == lines_of(lines, parents, p, n - 1));
                lemma_lines_of_grow(lines, parents, p, n, lines.len() as int);
                lemma_lines_of_grow(lines, parents, p, n - 1, n);
                let total = lines_of(lines, parents, p, lines.len() as int);
            }
            lemma_row_known(blames, before.passed, origin, parents);
            let st = diff::diff_after(blames, lines, n)->Going_0;
            assert forall|p: int| 0 <= p < parents implies #[trigger] st.passed[p] == lines_of(
                lines,
                parents,
                p,
                n,
            ) by {
                assert(before.passed[p] == lines_of(lines, parents, p, n - 1));
            }
        } else {
            let st = diff::diff_after(blames, lines, n)->Going_0;
            assert forall|p: int| 0 <= p < parents implies #[trigger] st.passed[p] == lines_of(
                lines,
                parents,
                p,
                n,
            ) by {
                assert(before.passed[p] == lines_of(lines, parents, p, n - 1));
            }
        }
    }
}

/// Every diff is read whose rows have a mark for each parent, and whose parents have blame for all
/// their lines.
pub proof fn law_diff_is_read(blames: Seq<Option<Seq<Seq<char>>>>, difftxt: Seq<char>)
    requires
        ({
            let lines = diff::body_lines(difftxt);
            &&& forall|i: int|
                0 <= i < lines.len() && row_line(#[trigger] lines[i]) ==> well_marked(
                    lines[i],
                    blames.len() as int,
                )
            &&& blame_reaches(blames, lines)
        }),
    ensures
        diff::read_diff(blames, difftxt) is Going,
{
    let lines = diff::body_lines(difftxt);
    lemma_is_read(blames, lines, lines.len() as int);
}

proof fn lemma_row_not_unblamed(
    blames: Seq<Option<Seq<Seq<char>>>>,
    passed: Seq<int>,
    origin: Seq<char>,
    n: int,
)
    requires
        0 <= n <= blames.len(),
        forall|p: int| 0 <= p < blames.len() ==> (#[trigger] blames[p]) is Some,
    ensures
        !(diff::row_blame(blames, passed, origin, n) is NoBlame),
    decreases n,
{
    if n > 0 {
        lemma_row_not_unblamed(blames, passed, origin, n - 1);
        assert(blames[n - 1] is Some);
    }
}

proof fn lemma_not_unblamed(blames: Seq<Option<Seq<Seq<char>>>>, lines: Seq<Seq<char>>, n: int)
    requires
        0 <= n <= lines.len(),
        forall|p: int| 0 <= p < blames.len() ==> (#[trigger] blames[p]) is Some,
    ensures
        !(diff::diff_after(blames, lines, n) is NoBlame),
    decreases n,
{
    if n > 0 {
        lemma_not_unblamed(blames, lines, n - 1);
        if let DiffState::Going(st) = diff::diff_after(blames, lines, n - 1) {
            let origin = text::byte_slice(lines[n - 1], 0, blames.len() as int);
            lemma_row_not_unblamed(blames, st.passed, origin, blames.len() as int);
        }
    }
}

/// Where every parent has blame, none is missed.
pub proof fn law_blame_is_not_missed(blames: Seq<Option<Seq<Seq<char>>>>, difftxt: Seq<char>)
    requires
        forall|p: int| 0 <= p < blames.len() ==> (#[trigger] blames[p]) is Some,
    ensures
        !(diff::read_diff(blames, difftxt) is NoBlame),
{
    let lines = diff::body_lines(difftxt);
    lemma_not_unblamed(blames, lines, lines.len() as int);
}

/// The parents that a line has marks for are the first ones, with the blame that they have.
pub proof fn law_marked(blames: Seq<Option<Vec<String>>>, parents: nat)
    requires
        parents <= blames.len(),
    ensures
        diff::marked(blames, parents).len() == parents,
        forall|p: int|
            0 <= p < parents ==> match blames[p] {
                None => (#[trigger] diff::marked(blames, parents)[p]) is None,
                Some(lines) => {
                    &&& diff::marked(blames, parents)[p] is Some
                    &&& diff::marked(blames, parents)[p]->0 == Seq::new(
                        lines@.len(),
                        |i: int| lines@[i]@,
                    )
                },
            },
{
    assert forall|p: int| 0 <= p < parents implies match blames[p] {
        None => (#[trigger] diff::marked(blames, parents)[p]) is None,
        Some(lines) => {
            &&& diff::marked(blames, parents)[p] is Some
            &&& diff::marked(blames, parents)[p]->0 == Seq::new(
                lines@.len(),
                |i: int| lines@[i]@,
            )
        },
    } by {
        if let Some(lines) = blames[p] {
            assert(split::strings(lines@) =~= Seq::new(lines@.len(), |i: int| lines@[i]@));
        }
    }
}

// ---------------------------------------------------------------------------
// Rows

/// The blame strip of a row: what its blame line says.
pub open spec fn row_strip(first_color: bool, row: DiffRowView) -> Seq<char> {
    match row.blame {
        Some(line) => page_laws::told_strip(first_color, seq![blame::blame_entry(line)]),
        None => page_laws::empty_strip(),
    }
}

/// Every row is shown at its place, with its own blame, its own number where it has one, its own
/// marks, and its text: formatted where it is a line of the new file, else escaped.
pub proof fn law_row_is_shown(rows: Seq<DiffRowView>, lines: Seq<FormattedLine>, i: int)
    requires
        0 <= i < rows.len(),
        rows[i].lineno matches Some(n) ==> n > 0,
    ensures
        diff::rows_steps(rows, lines).len() == rows.len(),
        ({
            let row = rows[i];
            exists|number: Seq<char>, cell: Seq<char>|
                {
                    &&& row.lineno matches Some(n) ==> text::all_digits(number)
                        && text::digits_value(number) == n && cell == "<div id=\"l"@ + number
                        + "\" role=\"cell\" class=\"line-number\">"@ + number + "</div>"@
                    &&& row.lineno is None ==> number == "-1"@ && cell
                        == "<div role=\"cell\" class=\"line-number\">&nbsp;</div>"@
                    &&& diff::rows_steps(rows, lines)[i] == #[trigger] row_markup(
                        row_strip(row_color(rows, i), row),
                        cell,
                        class_for(row.origin),
                        number,
                        row.origin,
                        text_for(row, lines),
                    )
                }
        }),
{
    let row = rows[i];
    let o = row.origin;
    if o.contains('-') {
        let j = choose|j: int| 0 <= j < o.len() && o[j] == '-';
        assert(o[j] == '-');
    }
    if o.contains('+') {
        let j = choose|j: int| 0 <= j < o.len() && o[j] == '+';
        assert(o[j] == '+');
    }
    if let Some(line) = row.blame {
        page_laws::lemma_single_trail(blame::blame_entry(line));
    }
    let shown = text_for(row, lines);
    let class = class_for(o);
    assert(shown == diff::row_text(row, lines));
    assert(class == diff::row_class(o));
    match row.lineno {
        Some(n) => {
            let number = text::dec(n as nat);
            text_laws::law_decimal_reads_back(n as nat);
            let cell = diff::row_number_cell(row);
            assert(diff::rows_steps(rows, lines)[i] == row_markup(
                row_strip(row_color(rows, i), row),
                cell,
                class,
                number,
                o,
                shown,
            ));
        },
        None => {
            let cell = diff::row_number_cell(row);
            assert(diff::rows_steps(rows, lines)[i] == row_markup(
                row_strip(row_color(rows, i), row),
                cell,
                class,
                "-1"@,
                o,
                shown,
            ));
        },
    }
}

/// A row that is a line of the new file shows that line as it was formatted; any other, and one
/// for which there is no formatted line, shows its own text, escaped.
pub open spec fn text_for(row: DiffRowView, lines: Seq<FormattedLine>) -> Seq<char> {
    match row.lineno {
        Some(n) => if n <= lines.len() {
            lines[n - 1].line@
        } else {
            text::escape(row.content)
        },
        None => text::escape(row.content),
    }
}

/// A row with a minus among its marks is shown as removed, another with a plus as added.
pub open spec fn class_for(origin: Seq<char>) -> Seq<char> {
    if exists|j: int| 0 <= j < origin.len() && #[trigger] origin[j] == '-' {
        " minus-line"@
    } else if exists|j: int| 0 <= j < origin.len() && #[trigger] origin[j] == '+' {
        " plus-line"@
    } else {
        ""@
    }
}

/// The markup of a row of a diff.
pub open spec fn row_markup(
    strip: Seq<char>,
    number_cell: Seq<char>,
    class: Seq<char>,
    number: Seq<char>,
    origin: Seq<char>,
    shown: Seq<char>,
) -> StepView {
    StepView::Lines(
        MarkupView::List(
            seq![
                MarkupView::Line("<div role=\"row\" class=\"source-line-with-number\">"@),
                MarkupView::Indent(
                    seq![
                        MarkupView::Line(strip),
                        MarkupView::Line(number_cell),
                        MarkupView::Line(
                            "<code role=\"cell\" class=\"source-line"@ + class
                                + "\" id=\"line-"@ + number + "\">"@ + origin + " "@ + shown
                                + "\n</code>"@,
                        ),
                    ],
                ),
                MarkupView::Line("</div>"@),
            ],
        ),
    )
}

/// The color of the strip of row `i`.
pub open spec fn row_color(rows: Seq<DiffRowView>, i: int) -> bool {
    blame::shade_after(diff::row_revs(rows), i + 1).color
}

/// The first strip has the first color; two strips with no other between them have one color
/// exactly if they tell of one revision.
pub proof fn law_row_colors(rows: Seq<DiffRowView>, i: int, j: int)
    requires
        0 <= i < j < rows.len(),
        rows[i].blame is Some,
        rows[j].blame is Some,
        forall|k: int| i < k < j ==> (#[trigger] rows[k]).blame is None,
    ensures
        row_color(rows, i) == row_color(rows, j) <==> blame::blame_entry(rows[i].blame->0).rev
            == blame::blame_entry(rows[j].blame->0).rev,
        (forall|k: int| 0 <= k < i ==> (#[trigger] rows[k]).blame is None) ==> row_color(rows, i),
{
    let revs = diff::row_revs(rows);
    assert forall|k: int| i < k < j implies (#[trigger] revs[k]) is None by {
        assert(rows[k].blame is None);
    }
    blame::law_shades(revs, i, j);
    if forall|k: int| 0 <= k < i ==> (#[trigger] rows[k]).blame is None {
        assert forall|k: int| 0 <= k < i implies (#[trigger] revs[k]) is None by {
            assert(rows[k].blame is None);
        }
        blame::lemma_shade_stays(revs, 0, i);
        assert(blame::shade_after(revs, 0) == blame::no_shade());
        assert(revs[i] is Some);
    }
}

// ---------------------------------------------------------------------------
// The page

/// The panel of a diff leads to the commit, to this file in this revision, to its newest version,
/// and where the Mercurial repository is known to its log.
pub proof fn law_diff_panel(
    tree_name: Seq<char>,
    rev: Seq<char>,
    path: Seq<char>,
    hg_root: Option<Seq<char>>,
)
    ensures
        ({
            let items = diff::diff_items(tree_name, rev, path, hg_root);
            &&& items.len() == if hg_root is Some {
                4int
            } else {
                3
            }
            &&& items[0].title == "Show changeset"@
            &&& items[0].link == "/"@ + tree_name + "/commit/"@ + rev
            &&& items[0].update_link_lineno == ""@
            &&& items[1].title == "Show file without diff"@
            &&& items[1].link == "/"@ + tree_name + "/rev/"@ + rev + "/"@ + path
            &&& items[1].update_link_lineno == "#{}"@
            &&& items[2].title == "Go to latest version"@
            &&& items[2].link == "/"@ + tree_name + "/source/"@ + path
            &&& items[2].update_link_lineno == "#{}"@
            &&& items[0].accel_key is None && items[1].accel_key is None && items[2].accel_key
                is None
            &&& hg_root matches Some(root) ==> {
                &&& items[3].title == "Log"@
                &&& items[3].link == root + "/log/"@ + "tip"@ + "/"@ + path
                &&& items[3].update_link_lineno == ""@
                &&& items[3].accel_key == Some('L')
            }
        }),
{
}

/// The page of a diff: the header, the panel, the table with a row for each row of the diff in
/// their order, and the footer.
pub proof fn law_diff_page(
    tree_name: Seq<char>,
    rev: Seq<char>,
    path: Seq<char>,
    tree: &TreeConfig,
    header: Seq<char>,
    rows: Seq<DiffRowView>,
    lines: Seq<FormattedLine>,
)
    requires
        paths::file_name(path) is Some,
    ensures
        ({
            let page = diff::rows_page(tree_name, rev, path, tree, header, rows, lines);
            let s = page.steps;
            let n = rows.len() as int;
            &&& page.error is None
            &&& s.len() == n + 5
            &&& s[0] is Header
            &&& s[1] matches StepView::Panel(sections) && sections.len() == 1
                && sections[0].name == "Revision control"@ && sections[0].items
                == diff::diff_items(
                tree_name,
                rev,
                path,
                match tree.hg_root {
                    Some(root) => Some(root@),
                    None => None,
                },
            )
            &&& s[2] == StepView::Lines(
                MarkupView::List(
                    seq![MarkupView::Line("<div id=\"file\" class=\"file\" role=\"table\">"@)],
                ),
            )
            &&& forall|i: int|
                0 <= i < n ==> s[3 + i] == #[trigger] diff::rows_steps(rows, lines)[i]
            &&& s[n + 3] == StepView::Lines(MarkupView::List(seq![MarkupView::Line("</div>"@)]))
            &&& s[n + 4] == StepView::Footer(path)
            &&& page.options is Some
            &&& page.options->0.title == paths::file_name(path)->0 + " - mozsearch"@
            &&& page.options->0.tree_name == tree_name
            &&& page.options->0.include_date
            &&& page.options->0.revision == Some((rev, header))
            &&& page.options->0.extra_content_classes == "source-listing diff"@
        }),
{
}

/// A diff that could not be retrieved, read or formatted is told why; any other is shown as the
/// page of its own rows and lines.
pub proof fn law_diff_outcomes(
    tree_name: Seq<char>,
    rev: Seq<char>,
    path: Seq<char>,
    e: &'static str,
    d: DiffData,
    diffable: bool,
)
    ensures
        ({
            let page = |source: DiffSource|
                diff::diff_page(tree_name, rev, path, source, diffable);
            &&& page(DiffSource::NoTree).error == Some("Invalid tree"@)
            &&& page(DiffSource::NoPath(e)).error == Some(e@)
            &&& page(DiffSource::NotRun).error == Some("Diff failed 1"@)
            &&& page(DiffSource::RunFailed).error == Some("Diff failed 2"@)
            &&& page(DiffSource::NoGit(e)).error == Some(e@)
            &&& page(DiffSource::NoRevision).error == Some("Bad revision"@)
            &&& page(DiffSource::NoBlame).error == Some("Unable to find blame"@)
            &&& page(DiffSource::BadBlame).error == Some("Blame is not a blob"@)
            &&& page(DiffSource::BadBlameTree).error == Some("Bad revision"@)
            &&& d.parsed matches Err(e) ==> page(DiffSource::Ready(d)).error == Some(e@)
            &&& d.parsed is Ok && d.code is None ==> page(DiffSource::Ready(d)).error == Some(
                "Cannot diff binary file"@,
            )
            &&& d.parsed is Ok && d.code is Some && d.header is Err ==> page(
                DiffSource::Ready(d),
            ).error == Some(d.header->Err_0@)
            &&& d.parsed is Ok && d.code is Some && d.header is Ok ==> page(DiffSource::Ready(d))
                == diff::rows_page(
                tree_name,
                rev,
                path,
                d.tree,
                d.header->Ok_0.0@,
                Seq::new(
                    d.parsed->Ok_0.rows@.len(),
                    |i: int| d.parsed->Ok_0.rows@[i]@,
                ),
                d.code->0.lines@,
            )
        }),
{
    if d.parsed is Ok {
        assert(diff::row_views(d.parsed->Ok_0.rows@) =~= Seq::new(
            d.parsed->Ok_0.rows@.len(),
            |i: int| d.parsed->Ok_0.rows@[i]@,
        ));
    }
}

/// What a row holds is its number, its blame line, its marks and its text.
pub proof fn law_row_view(row: diff::DiffRow)
    ensures
        match row.lineno {
            Some(n) => row@.lineno == Some(n as int),
            None => row@.lineno is None,
        },
        match row.blame {
            Some(line) => row@.blame == Some(line@),
            None => row@.blame is None,
        },
        row@.origin == row.origin@,
        row@.content == row.content@,
{
}

/// A diff fits its blame unless it is malformed, however long it is.
pub proof fn law_diff_fits(blames: Seq<Option<Vec<String>>>, parents: nat, difftxt: Seq<char>)
    ensures
        diff::diff_valid(blames, parents, difftxt) <==> parents <= blames.len() && !(
        diff::read_diff(diff::marked(blames, parents), difftxt) is Malformed),
        diff::read_diff(diff::marked(blames, parents), difftxt) is Going && parents <= blames.len()
            ==> diff::diff_valid(blames, parents, difftxt),
{
}

/// A diff that is shown was tokenized and formatted by the text of its own new file, without jumps
/// and records.
pub proof fn law_diff_rendered<T: Fn(&str) -> Option<Vec<Token>>, L: Fn(&str) -> String>(
    tree_name: Seq<char>,
    rev: Seq<char>,
    path: Seq<char>,
    tree: &TreeConfig,
    header: Result<(String, String), &'static str>,
    p: DiffProgress,
    tokenize: T,
    linkify: L,
    page: PageView,
)
    requires
        diff::shows_diff(tree_name, rev, path, tree, header, p, tokenize, linkify, page),
    ensures
        exists|a: &str, tokens: Option<Vec<Token>>|
            {
                &&& #[trigger] call_ensures(tokenize, (a,), tokens)
                &&& a@ == p.text
                &&& tokens is None ==> page.error == Some("Cannot diff binary file"@)
                    && page.steps.len() == 0
                &&& tokens is Some && header is Err ==> page.error == Some(header->Err_0@)
                    && page.steps.len() == 0
                &&& tokens is Some && header is Ok ==> exists|lines: Seq<FormattedLine>|
                    {
                        &&& #[trigger] code::code_lines(
                            linkify,
                            (CodeInput {
                                jumps: Map::empty(),
                                path,
                                input: p.text,
                                tokens: tokens->0@,
                                analysis: seq![],
                            }),
                            lines,
                        )
                        &&& page == diff::rows_page(
                            tree_name,
                            rev,
                            path,
                            tree,
                            header->Ok_0.0@,
                            p.rows,
                            lines,
                        )
                    }
            },
{
    let tokens = choose|tokens: Option<Vec<Token>>|
        {
            &&& #[trigger] diff::tokenized_as(tokenize, p.text, tokens)
            &&& match (tokens, header) {
                (None, _) => page == page::failed("Cannot diff binary file"@),
                (Some(_), Err(e)) => page == page::failed(e@),
                (Some(t), Ok(h)) => exists|lines: Seq<FormattedLine>|
                    {
                        &&& #[trigger] code::code_lines(
                            linkify,
                            code::code_input(Map::empty(), path, p.text, t@, seq![]),
                            lines,
                        )
                        &&& page == diff::rows_page(
                            tree_name,
                            rev,
                            path,
                            tree,
                            h.0@,
                            p.rows,
                            lines,
                        )
                    },
            }
        };
    let a = choose|a: &str| #[trigger] call_ensures(tokenize, (a,), tokens) && a@ == p.text;
    assert(call_ensures(tokenize, (a,), tokens));
}

} // verus!
