use mozsearch_format::commit::{
    check_raw, format_commit, generate_commit_info, parse_changes, show_arguments,
    show_commit, Change, CommitData, CommitSource, Person, RawDiff,
};
use mozsearch_format::page::{Markup, Page, PageOptions, Step, TreeConfig};
use mozsearch_format::time::{check_time, write_time, FIRST_SECOND, LAST_SECOND};

#[test]
fn times_are_written_by_rfc_2822() {
    assert_eq!(write_time(1424301369, 0), "Wed, 18 Feb 2015 23:16:09 +0000");
    assert_eq!(write_time(1424301369, 330), "Thu, 19 Feb 2015 04:46:09 +0530");
    assert_eq!(write_time(0, -480), "Wed, 31 Dec 1969 16:00:00 -0800");
}

#[test]
fn times_that_cannot_be_written_are_recognized() {
    assert!(check_time(0, 1439));
    assert!(!check_time(0, 1440));
    assert!(!check_time(0, -1440));
    assert!(check_time(FIRST_SECOND, 0));
    assert!(!check_time(FIRST_SECOND, -1));
    assert!(!check_time(FIRST_SECOND - 1, 60));
    assert!(check_time(LAST_SECOND, -60));
    assert!(!check_time(LAST_SECOND, 1));
    assert!(!check_time(i64::MAX, 1));
    assert!(write_time(FIRST_SECOND, 0).ends_with(" 00:00:00 +0000"));
    assert!(write_time(LAST_SECOND, 0).ends_with(" 23:59:59 +0000"));
}

fn change(status: &str, path: &str) -> Change {
    Change { status: status.to_owned(), path: path.to_owned() }
}

#[test]
fn the_changed_files_are_read() {
    let raw = "\n:100644 100644 aaaa bbbb M\tdir/a b.c\n:000000 100644 0000 cccc R100\told\tnew\n";
    assert!(check_raw(raw, 1));
    assert_eq!(
        parse_changes(raw, 1),
        Ok(vec![change("M", "dir/a b.c"), change("R100", "old")])
    );
    let merge = "::100644 100644 100644 aaaa bbbb cccc MM\tf\n";
    assert_eq!(parse_changes(merge, 2), Ok(vec![change("MM", "f")]));
    assert_eq!(parse_changes("", 1), Ok(Vec::new()));
}

#[test]
fn a_list_of_changed_files_that_is_not_one_is_an_error() {
    assert_eq!(parse_changes(":100644 100644 aaaa M\tf\n", 1), Err("Invalid diff output 3"));
    // The first line that is not as it should be decides.
    assert!(check_raw(":1 2 3\n:1 2 3 4 M\n", 1));
    assert!(!check_raw(":1 2 3 4 M\n:1 2 3\n", 1));
}

#[test]
fn lists_that_do_not_fit_are_recognized() {
    assert!(!check_raw(":1 2 3 4 M f\n", 1));
    assert!(!check_raw("é", 1));
    assert!(!check_raw(":", 2));
    assert!(!check_raw("", usize::MAX));
}

#[test]
fn git_is_asked_for_the_changed_files() {
    assert_eq!(show_arguments("abc"), vec!["show", "--cc", "--pretty=format:", "--raw", "abc"]);
}

fn tree(hg: bool, github: bool) -> TreeConfig {
    TreeConfig {
        hg_root: if hg { Some("https://hg".to_owned()) } else { None },
        github_repo: if github { Some("https://gh".to_owned()) } else { None },
        git_blame_path: None,
    }
}

fn person(name: &str, email: &str) -> Person {
    Person { name: name.to_owned(), email: email.to_owned() }
}

fn commit(raw: RawDiff) -> CommitData {
    CommitData {
        id: "c1".to_owned(),
        header: Ok(("Header".to_owned(), "rest".to_owned())),
        parents: vec!["p1".to_owned()],
        parent_count: 1,
        hg_id: Some("h1".to_owned()),
        author: person("A", "a@x"),
        committer: person("C", "c@x"),
        seconds: 1424301369,
        offset_minutes: 60,
        raw,
    }
}

fn line(s: &str) -> Markup {
    Markup::Line(s.to_owned())
}

fn info() -> Step {
    Step::Lines(Markup::List(vec![
        line("<h3>Header</h3>"),
        line("<pre><code>rest</code></pre>"),
        line("<table>"),
        Markup::Indent(vec![
            line("<tr><td>commit</td><td><a href=\"/t/commit/c1\">c1</a></td></tr>"),
            Markup::List(vec![line(
                "<tr><td>parent</td><td><a href=\"/t/commit/p1\">p1</a></td></tr>",
            )]),
            Markup::List(vec![line(
                "<tr><td>hg</td><td><a href=\"https://hg/rev/h1\">h1</a></td></tr>",
            )]),
            line("<tr><td>git</td><td><a href=\"https://gh/commit/c1\">c1</a></td></tr>"),
            line("<tr><td>author</td><td>A &lt;a@x></td></tr>"),
            line("<tr><td>committer</td><td>C &lt;c@x></td></tr>"),
            line("<tr><td>commit time</td><td>Thu, 19 Feb 2015 00:16:09 +0100</td></tr>"),
        ]),
        line("</table>"),
    ]))
}

fn options() -> Option<PageOptions> {
    Some(PageOptions {
        title: "tip - mozsearch".to_owned(),
        tree_name: "t".to_owned(),
        include_date: true,
        revision: None,
        extra_content_classes: "commit",
    })
}

#[test]
fn a_commit_is_written_in_full() {
    let config = tree(true, true);
    let data = commit(RawDiff::Output(":1 2 3 4 M\td/f\n:1 2 3 4 A\tg\n".to_owned()));
    assert_eq!(
        format_commit("t", "tip", CommitSource::Ready(&config, data)),
        Page {
            options: options(),
            steps: vec![
                Step::Header,
                info(),
                Step::Lines(Markup::List(vec![
                    line("<ul>"),
                    Markup::Indent(vec![
                        line("<li>M <a href=\"/t/diff/c1/d/f\">d/f</a>"),
                        line("<li>A <a href=\"/t/diff/c1/g\">g</a>"),
                    ]),
                    line("</ul>"),
                ])),
                Step::Footer("".to_owned()),
            ],
            error: None,
        }
    );
}

#[test]
fn a_commit_without_other_repositories_has_fewer_rows() {
    let config = tree(false, false);
    let mut data = commit(RawDiff::Output(String::new()));
    data.hg_id = None;
    data.parents = Vec::new();
    data.parent_count = 0;
    let mut steps = Vec::new();
    assert_eq!(generate_commit_info("t", &config, &mut steps, &data, "some time"), Ok(()));
    assert_eq!(steps.len(), 2);
    match &steps[0] {
        Step::Lines(Markup::List(parts)) => match &parts[3] {
            Markup::Indent(rows) => {
                assert_eq!(rows[1], Markup::List(Vec::new()));
                assert_eq!(rows[2], Markup::List(Vec::new()));
                assert_eq!(rows[3], line(""));
                assert_eq!(rows[6], line("<tr><td>commit time</td><td>some time</td></tr>"));
            }
            _ => panic!("the rows are indented"),
        },
        _ => panic!("the table comes first"),
    }
}

#[test]
fn a_commit_that_fails_keeps_what_was_written() {
    let config = tree(true, true);
    let shown = |data: CommitData| format_commit("t", "tip", CommitSource::Ready(&config, data));
    let partial = |steps: Vec<Step>, e: &'static str| Page {
        options: options(),
        steps,
        error: Some(e),
    };
    for (raw, e) in [
        (RawDiff::NoPath("no path"), "no path"),
        (RawDiff::NotRun, "Diff failed 1"),
        (RawDiff::RunFailed, "Diff failed 2"),
        (RawDiff::Output(":1 2\n".to_owned()), "Invalid diff output 3"),
    ] {
        assert_eq!(shown(commit(raw)), partial(vec![Step::Header, info()], e));
    }
    let mut data = commit(RawDiff::NotRun);
    data.header = Err("no header");
    assert_eq!(shown(data), partial(vec![Step::Header], "no header"));
}

#[test]
fn a_parent_that_is_not_at_hand_has_a_row_but_no_fields() {
    let config = tree(true, true);
    let mut data = commit(RawDiff::Output(":1 2 3 4 M\td/f\n".to_owned()));
    data.parents.push("p2".to_owned());
    let page = show_commit("t", "tip", &config, &data, "now");
    assert_eq!(page.error, None);
    match &page.steps[1] {
        Step::Lines(Markup::List(parts)) => match &parts[3] {
            Markup::Indent(rows) => match &rows[1] {
                Markup::List(parents) => assert_eq!(parents.len(), 2),
                _ => panic!("the parents are a list"),
            },
            _ => panic!("the rows are indented"),
        },
        _ => panic!("the table comes first"),
    }
    data.parent_count = 2;
    let page = show_commit("t", "tip", &config, &data, "now");
    assert_eq!(page.error, Some("Invalid diff output 3"));
}

#[test]
fn the_time_of_a_commit_is_that_of_its_clock() {
    let config = tree(true, true);
    let page = show_commit("t", "tip", &config, &commit(RawDiff::NotRun), "Thu, 19 Feb 2015 00:16:09 +0100");
    assert_eq!(page.steps, vec![Step::Header, info()]);
    let source = CommitSource::Ready(&config, commit(RawDiff::NotRun));
    assert_eq!(format_commit("t", "tip", source), page);
}

#[test]
fn a_commit_that_is_not_there_is_not_shown() {
    let failed = |e: &'static str| Page { options: None, steps: Vec::new(), error: Some(e) };
    assert_eq!(format_commit("t", "r", CommitSource::NoTree), failed("Invalid tree"));
    assert_eq!(format_commit("t", "r", CommitSource::NoGit("no git")), failed("no git"));
    assert_eq!(format_commit("t", "r", CommitSource::NoRevision), failed("Bad revision"));
}
