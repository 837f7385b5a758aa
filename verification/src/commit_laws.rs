//! What holds of every page of a commit.

use crate::commit;
use crate::commit::{ChangeView, ChangesView, CommitData, CommitSource, LineView, RawDiff};
use crate::page::{MarkupView, StepView, TreeConfig};
use crate::split;
use crate::text;
use crate::text_laws;
use crate::time;
use vstd::prelude::*;

verus! {

// ---------------------------------------------------------------------------
// The table

/// The link to a commit of the tree.
pub open spec fn link_to(tree_name: Seq<char>, id: Seq<char>) -> Seq<char> {
    "<a href=\"/"@ + tree_name + "/commit/"@ + id + "\">"@ + id + "</a>"@
}

/// A row of the table: what it tells of, and what it tells.
pub open spec fn tells(label: Seq<char>, value: Seq<char>) -> MarkupView {
    MarkupView::Line("<tr><td>"@ + label + "</td><td>"@ + value + "</td></tr>"@)
}

/// There is one row for each parent, in their order, and the row at a place links to and names the
/// parent at that place.
pub proof fn law_parent_rows(tree_name: Seq<char>, parents: Seq<String>, i: int)
    requires
        0 <= i < parents.len(),
    ensures
        commit::parent_rows(tree_name, parents) matches MarkupView::List(rows) && rows.len()
            == parents.len() && rows[i] == tells("parent"@, link_to(tree_name, parents[i]@)),
{
}

/// Parents with different ids have different rows.
pub proof fn law_parents_differ(tree_name: Seq<char>, parents: Seq<String>, i: int, j: int)
    requires
        0 <= i < parents.len(),
        0 <= j < parents.len(),
        parents[i]@ != parents[j]@,
    ensures
        commit::parent_rows(tree_name, parents)->List_0[i] != commit::parent_rows(
            tree_name,
            parents,
        )->List_0[j],
{
    law_parent_rows(tree_name, parents, i);
    law_parent_rows(tree_name, parents, j);
    law_links_differ(tree_name, parents[i]@, parents[j]@);
    let a = link_to(tree_name, parents[i]@);
    let b = link_to(tree_name, parents[j]@);
    let head = "<tr><td>"@ + "parent"@ + "</td><td>"@;
    let end = "</td></tr>"@;
    let x = head + a + end;
    let y = head + b + end;
    if x == y {
        assert(x.len() == head.len() + a.len() + end.len());
        assert(y.len() == head.len() + b.len() + end.len());
        assert forall|k: int| 0 <= k < a.len() implies a[k] == b[k] by {
            assert(x[head.len() + k] == a[k]);
            assert(y[head.len() + k] == b[k]);
        }
        assert(a =~= b);
    }
}

/// Links to different commits differ.
pub proof fn law_links_differ(tree_name: Seq<char>, a: Seq<char>, b: Seq<char>)
    requires
        a != b,
    ensures
        commit::rev_link(tree_name, a) == link_to(tree_name, a),
        link_to(tree_name, a) != link_to(tree_name, b),
{
    let head = "<a href=\"/"@ + tree_name + "/commit/"@;
    let x = head + a + "\">"@ + a + "</a>"@;
    let y = head + b + "\">"@ + b + "</a>"@;
    if x == y {
        assert(x.len() == head.len() + 2 * a.len() + "\">"@.len() + "</a>"@.len());
        assert(y.len() == head.len() + 2 * b.len() + "\">"@.len() + "</a>"@.len());
        assert(a.len() == b.len());
        assert forall|k: int| 0 <= k < a.len() implies a[k] == b[k] by {
            assert(x[head.len() + k] == a[k]);
            assert(y[head.len() + k] == b[k]);
        }
        assert(a =~= b);
    }
}

/// What is told of a person: the name, then the address in angle brackets.
pub open spec fn told_person(name: Seq<char>, email: Seq<char>) -> Seq<char> {
    name + " &lt;"@ + email + ">"@
}

/// The message and the table of a commit: the header, the rest of the message, and in the table
/// this commit, its parents, its Mercurial revision where it has one, its place on GitHub or an
/// empty line, its author, its committer and its time, in this order.
pub proof fn law_commit_table(
    tree_name: Seq<char>,
    tree: &TreeConfig,
    commit: &CommitData,
    when: Seq<char>,
)
    requires
        commit.header is Ok,
        commit.hg_id is Some ==> tree.hg_root is Some,
    ensures
        ({
            let id = commit.id@;
            &&& commit::info_markup(tree_name, tree, commit, when) matches MarkupView::List(parts)
            &&& parts.len() == 5
            &&& parts[0] == MarkupView::Line("<h3>"@ + commit.header->Ok_0.0@ + "</h3>"@)
            &&& parts[1] == MarkupView::Line(
                "<pre><code>"@ + commit.header->Ok_0.1@ + "</code></pre>"@,
            )
            &&& parts[2] == MarkupView::Line("<table>"@)
            &&& parts[4] == MarkupView::Line("</table>"@)
            &&& parts[3] matches MarkupView::Indent(rows)
            &&& rows.len() == 7
            &&& rows[0] == tells("commit"@, link_to(tree_name, id))
            &&& rows[1] == commit::parent_rows(tree_name, commit.parents@)
            &&& rows[2] == MarkupView::List(
                match commit.hg_id {
                    Some(hg) => seq![
                        tells(
                            "hg"@,
                            "<a href=\""@ + tree.hg_root->0@ + "/rev/"@ + hg@ + "\">"@ + hg@
                                + "</a>"@,
                        ),
                    ],
                    None => seq![],
                },
            )
            &&& match tree.github_repo {
                Some(url) => rows[3] == tells(
                    "git"@,
                    "<a href=\""@ + url@ + "/commit/"@ + id + "\">"@ + id + "</a>"@,
                ),
                None => rows[3] == MarkupView::Line(seq![]),
            }
            &&& rows[4] == tells("author"@, told_person(commit.author.name@, commit.author.email@))
            &&& rows[5] == tells(
                "committer"@,
                told_person(commit.committer.name@, commit.committer.email@),
            )
            &&& rows[6] == tells("commit time"@, when)
        }),
{
}

// ---------------------------------------------------------------------------
// The changed files

/// There is one entry for each changed file, in their order; the entry at a place tells how the
/// file at that place was changed and links to the diff of that file in this commit.
pub proof fn law_changes_are_shown(
    tree_name: Seq<char>,
    id: Seq<char>,
    changes: Seq<ChangeView>,
    i: int,
)
    requires
        0 <= i < changes.len(),
    ensures
        commit::changes_markup(tree_name, id, changes) matches MarkupView::List(parts)
            && parts.len() == 3 && parts[0] == MarkupView::Line("<ul>"@) && parts[2]
            == MarkupView::Line("</ul>"@) && (parts[1] matches MarkupView::Indent(entries)
            && entries.len() == changes.len() && entries[i] == MarkupView::Line(
            "<li>"@ + changes[i].status + " <a href=\"/"@ + tree_name + "/diff/"@ + id + "/"@
                + changes[i].path + "\">"@ + changes[i].path + "</a>"@,
        )),
{
}

/// A line as git prints it gives the file that it tells of: behind the marks, one for each parent,
/// and the fields, two for each parent and two for the commit, come the status, a tab and the path;
/// what follows a further tab is not looked at.
pub proof fn law_change_is_read(
    marks: Seq<char>,
    fields: Seq<Seq<char>>,
    status: Seq<char>,
    path: Seq<char>,
    rest: Seq<char>,
)
    requires
        forall|i: int| 0 <= i < marks.len() ==> '\0' <= #[trigger] marks[i] <= '\u{7f}',
        fields.len() == 2 * marks.len() + 2,
        forall|i: int| 0 <= i < fields.len() ==> !(#[trigger] fields[i]).contains(' '),
        !status.contains('\t'),
        !path.contains('\t'),
    ensures
        ({
            let parents = marks.len();
            let short = status + seq!['\t'] + path;
            let long = short + seq!['\t'] + rest;
            let line = |data: Seq<char>| marks + split::join(fields.push(data), seq![' ']);
            let change = LineView::Change(ChangeView { status, path });
            &&& commit::read_change(line(short), parents) == change
            &&& commit::read_change(line(long), parents) == change
        }),
{
    let short = status + seq!['\t'] + path;
    let long = short + seq!['\t'] + rest;
    lemma_fields(marks, fields, short);
    lemma_fields(marks, fields, long);
    let two = seq![status, path];
    assert(two.drop_last() =~= seq![status]);
    assert(split::join(seq![status], seq!['\t']) == status);
    assert(split::join(two, seq!['\t']) == short);
    assert forall|i: int| 0 <= i < two.len() implies !(#[trigger] two[i]).contains('\t') by {}
    text_laws::law_split_of_join(two, '\t');
    let tail = split::split(rest, '\t');
    split::law_split_join(rest, '\t');
    let all = two + tail;
    text_laws::law_join_parts(two, tail, seq!['\t']);
    assert(split::join(all, seq!['\t']) == long);
    assert forall|i: int| 0 <= i < all.len() implies !(#[trigger] all[i]).contains('\t') by {
        if i >= 2 {
            assert(all[i] == tail[i - 2]);
        }
    }
    text_laws::law_split_of_join(all, '\t');
}

proof fn lemma_fields(marks: Seq<char>, fields: Seq<Seq<char>>, data: Seq<char>)
    requires
        forall|i: int| 0 <= i < marks.len() ==> '\0' <= #[trigger] marks[i] <= '\u{7f}',
        fields.len() == 2 * marks.len() + 2,
        forall|i: int| 0 <= i < fields.len() ==> !(#[trigger] fields[i]).contains(' '),
    ensures
        ({
            let line = marks + split::join(fields.push(data), seq![' ']);
            let p = marks.len() as int;
            &&& text::boundary(line, p)
            &&& split::split_n(
                text::byte_slice(line, p, text::byte_len(line) as int),
                (2 * marks.len() + 3) as nat,
                ' ',
            ) == fields.push(data)
        }),
{
    let behind = split::join(fields.push(data), seq![' ']);
    let line = marks + behind;
    let p = marks.len() as int;
    assert forall|i: int| 0 <= i < p implies '\0' <= #[trigger] line[i] <= '\u{7f}' by {
        assert(line[i] == marks[i]);
    }
    text_laws::law_single_byte_prefix(line, p);
    assert(line.skip(p) =~= behind);
    let all = fields.push(data);
    assert forall|i: int| 0 <= i < all.len() - 1 implies !(#[trigger] all[i]).contains(' ') by {
        assert(all[i] == fields[i]);
    }
    text_laws::law_split_first_of_join(all, (2 * marks.len() + 3) as nat, ' ');
}

/// A line with fewer fields than it should have is invalid.
pub proof fn law_change_is_invalid(marks: Seq<char>, fields: Seq<Seq<char>>)
    requires
        forall|i: int| 0 <= i < marks.len() ==> '\0' <= #[trigger] marks[i] <= '\u{7f}',
        0 < fields.len() <= 2 * marks.len() + 2,
        forall|i: int| 0 <= i < fields.len() ==> !(#[trigger] fields[i]).contains(' '),
    ensures
        commit::read_change(marks + split::join(fields, seq![' ']), marks.len()) is Invalid,
{
    let behind = split::join(fields, seq![' ']);
    let line = marks + behind;
    let p = marks.len() as int;
    assert forall|i: int| 0 <= i < p implies '\0' <= #[trigger] line[i] <= '\u{7f}' by {
        assert(line[i] == marks[i]);
    }
    text_laws::law_single_byte_prefix(line, p);
    assert(line.skip(p) =~= behind);
    assert(!fields[fields.len() - 1].contains(' '));
    text_laws::law_split_first_of_join(fields, (2 * marks.len() + 3) as nat, ' ');
}

proof fn lemma_listed(lines: Seq<Seq<char>>, parents: nat, n: int)
    requires
        0 <= n <= lines.len(),
    ensures
        commit::read_changes(lines, parents, n) is Listed <==> (forall|i: int|
            0 <= i < n && (#[trigger] lines[i]).len() > 0 ==> commit::read_change(lines[i], parents)
                is Change),
    decreases n,
{
    if n > 0 {
        lemma_listed(lines, parents, n - 1);
        if commit::read_changes(lines, parents, n) is Listed {
            assert forall|i: int| 0 <= i < n && (#[trigger] lines[i]).len() > 0 implies
                commit::read_change(lines[i], parents) is Change by {}
        } else if commit::read_changes(lines, parents, n - 1) is Listed {
            assert(lines[n - 1].len() > 0);
        }
    }
}

/// The list of changed files is read exactly if each of its lines that is not empty tells of a
/// file; then it has these files, in the order of their lines.
pub proof fn law_list_is_read(raw: Seq<char>, parents: nat)
    ensures
        ({
            let lines = split::line_pieces(raw);
            &&& commit::changes_of(raw, parents) is Listed <==> (forall|i: int|
                0 <= i < lines.len() && (#[trigger] lines[i]).len() > 0 ==> commit::read_change(
                    lines[i],
                    parents,
                ) is Change)
            &&& commit::changes_of(raw, parents) matches ChangesView::Listed(changes) ==> {
                let filled = lines.filter(|l: Seq<char>| l.len() > 0);
                &&& changes.len() == filled.len()
                &&& forall|i: int|
                    0 <= i < changes.len() ==> commit::read_change(filled[i], parents)
                        == LineView::Change(#[trigger] changes[i])
            }
        }),
{
    let lines = split::line_pieces(raw);
    let n = lines.len() as int;
    lemma_listed(lines, parents, n);
    lemma_filled(lines, n);
    assert(lines.take(n) =~= lines);
    if commit::changes_of(raw, parents) is Listed {
        commit::law_changes(raw, parents);
    }
}

proof fn lemma_filled(lines: Seq<Seq<char>>, n: int)
    requires
        0 <= n <= lines.len(),
    ensures
        commit::filled_lines(lines, n) == lines.take(n).filter(|l: Seq<char>| l.len() > 0),
    decreases n,
{
    reveal(Seq::filter);
    if n > 0 {
        lemma_filled(lines, n - 1);
        assert(lines.take(n).drop_last() =~= lines.take(n - 1));
        assert(lines.take(n).last() == lines[n - 1]);
    } else {
        assert(lines.take(0).len() == 0);
    }
}

// ---------------------------------------------------------------------------
// The page

/// Why a commit is not shown to its end: its message cannot be taken apart, git gave no list of
/// the changed files, or the list is invalid.
pub proof fn law_commit_errors(commit: &CommitData)
    ensures
        ({
            let error = commit::info_error(commit);
            &&& commit.header matches Err(e) ==> error == Some(e@)
            &&& commit.header is Ok ==> match commit.raw {
                RawDiff::NoPath(e) => error == Some(e@),
                RawDiff::NotRun => error == Some("Diff failed 1"@),
                RawDiff::RunFailed => error == Some("Diff failed 2"@),
                RawDiff::Output(raw) => {
                    let changes = commit::changes_of(raw@, commit.parent_count as nat);
                    &&& changes is Listed ==> error is None
                    &&& !(changes is Listed) ==> error == Some("Invalid diff output 3"@)
                },
            }
        }),
{
}

/// The page of a commit: the header; where its message can be taken apart the message and the
/// table; and where nothing failed the list of the files that it changes, and the footer.
pub proof fn law_commit_is_shown(
    tree_name: Seq<char>,
    rev: Seq<char>,
    tree: &TreeConfig,
    commit: &CommitData,
    when: Seq<char>,
)
    ensures
        ({
            let page = commit::shown_page(tree_name, rev, tree, commit, when);
            let s = page.steps;
            &&& page.options is Some
            &&& page.options->0.title == rev + " - mozsearch"@
            &&& page.options->0.tree_name == tree_name
            &&& page.options->0.include_date
            &&& page.options->0.revision is None
            &&& page.options->0.extra_content_classes == "commit"@
            &&& page.error == commit::info_error(commit)
            &&& s.len() == (if commit.header is Err {
                1int
            } else if page.error is Some {
                2
            } else {
                4
            })
            &&& s[0] is Header
            &&& commit.header is Ok ==> s[1] == StepView::Lines(
                commit::info_markup(tree_name, tree, commit, when),
            )
            &&& page.error is None ==> {
                &&& s[2] == StepView::Lines(
                    commit::changes_markup(
                        tree_name,
                        commit.id@,
                        commit::changes_of(
                            commit.raw->Output_0@,
                            commit.parent_count as nat,
                        )->Listed_0,
                    ),
                )
                &&& s[3] == StepView::Footer(seq![])
            }
        }),
{
    reveal_strlit("");
    assert(""@ =~= seq![]);
    let page = commit::shown_page(tree_name, rev, tree, commit, when);
    assert(page.error is None ==> commit.raw is Output);
}

/// A commit that could not be retrieved is told why; one that was is shown with the time that its
/// seconds and the minutes of its clock make.
pub proof fn law_commit_outcomes(
    tree_name: Seq<char>,
    rev: Seq<char>,
    e: &'static str,
    tree: &TreeConfig,
    commit: CommitData,
)
    requires
        -1440 < commit.offset_minutes < 1440,
    ensures
        ({
            let page = |source: CommitSource| commit::commit_page(tree_name, rev, source);
            &&& page(CommitSource::NoTree).error == Some("Invalid tree"@)
            &&& page(CommitSource::NoGit(e)).error == Some(e@)
            &&& page(CommitSource::NoRevision).error == Some("Bad revision"@)
            &&& page(CommitSource::NoTree).steps.len() == 0
            &&& page(CommitSource::NoGit(e)).steps.len() == 0
            &&& page(CommitSource::NoRevision).steps.len() == 0
            &&& forall|offset: i32|
                offset == 60 * commit.offset_minutes ==> page(CommitSource::Ready(tree, commit))
                    == commit::shown_page(
                    tree_name,
                    rev,
                    tree,
                    &commit,
                    #[trigger] time::rfc2822(commit.seconds, offset),
                )
        }),
{
}

/// A list of changed files can be read unless it is malformed, however long it is.
pub proof fn law_list_fits(raw: Seq<char>, parents: nat)
    ensures
        commit::raw_valid(raw, parents) <==> 2 * parents + 2 < usize::MAX && !(commit::changes_of(
            raw,
            parents,
        ) is Malformed),
{
}

/// A time can be written if its clock is less than a day off and it lies, in UTC and on that clock,
/// in the years from -262144 to 262143.
pub proof fn law_times_known(seconds: int, offset_minutes: int)
    ensures
        time::time_valid(seconds, offset_minutes) <==> {
            &&& -24 * 60 < offset_minutes < 24 * 60
            &&& -8334632851200 <= seconds <= 8210298412799
            &&& -8334632851200 <= seconds + 60 * offset_minutes <= 8210298412799
        },
{
}

/// What is held of the changed files is what is held of each, in their order.
pub proof fn law_change_views(v: Seq<commit::Change>, i: int)
    requires
        0 <= i < v.len(),
    ensures
        commit::change_views(v).len() == v.len(),
        commit::change_views(v)[i].status == v[i].status@,
        commit::change_views(v)[i].path == v[i].path@,
{
}

} // verus!
