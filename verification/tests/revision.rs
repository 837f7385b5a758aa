use mozsearch_format::blame::BlameTrail;
use mozsearch_format::code::FormattedLine;
use mozsearch_format::file::{CommitInfo, FormattedCode};
use mozsearch_format::page::{Page, PanelItem, PanelSection, Step, TreeConfig};
use mozsearch_format::revision::{
    entry_to_blob, format_path, path_panel, render_path, submodule_to_blob, EntryKind, FileSearch,
    PathData, PathSource, SearchStep, SubmoduleEntry, TreeEntry,
};
use mozsearch_format::source::{Token, TokenKind};

const FILE: TreeEntry = TreeEntry { kind: EntryKind::Blob, filemode: 33188 };
const LINK: TreeEntry = TreeEntry { kind: EntryKind::Blob, filemode: 120000 };
const DIRECTORY: TreeEntry = TreeEntry { kind: EntryKind::Other, filemode: 16384 };
const SUBMODULE: TreeEntry = TreeEntry { kind: EntryKind::Commit, filemode: 57344 };

#[test]
fn only_files_are_shown() {
    assert_eq!(entry_to_blob(FILE), Ok(()));
    assert_eq!(entry_to_blob(LINK), Err("Path is to a symlink"));
    assert_eq!(entry_to_blob(DIRECTORY), Err("Invalid path; expected file"));
    assert_eq!(entry_to_blob(SUBMODULE), Err("Invalid path; expected file"));
}

#[test]
fn a_file_of_the_tree_is_found_at_once() {
    let search = FileSearch::start("a/b.c");
    assert_eq!(search.at(), "a/b.c");
    assert!(matches!(search.next(Some(FILE)), SearchStep::ReadBlob));
    assert!(matches!(
        FileSearch::start("a").next(Some(DIRECTORY)),
        SearchStep::Failed("Invalid path; expected file")
    ));
    assert!(matches!(
        FileSearch::start("a").next(Some(LINK)),
        SearchStep::Failed("Path is to a symlink")
    ));
}

fn look_up(step: SearchStep) -> FileSearch {
    match step {
        SearchStep::LookUp(search) => search,
        _ => panic!("the search is over"),
    }
}

#[test]
fn a_file_of_a_submodule_is_found_through_the_directories_around_it() {
    let search = look_up(FileSearch::start("ext/lib/src/x.c").next(None));
    assert_eq!(search.at(), "ext/lib/src");
    let search = look_up(search.next(None));
    assert_eq!(search.at(), "ext/lib");
    match search.next(Some(SUBMODULE)) {
        SearchStep::OpenSubmodule { submodule, inner } => {
            assert_eq!(submodule, "ext/lib");
            assert_eq!(inner, "src/x.c");
        }
        _ => panic!("there is a submodule"),
    }
}

#[test]
fn a_search_ends_at_a_directory_or_at_the_top() {
    let search = look_up(FileSearch::start("a/b").next(None));
    assert!(matches!(search.next(Some(DIRECTORY)), SearchStep::Failed("File not found")));
    let search = look_up(FileSearch::start("a").next(None));
    assert_eq!(search.at(), "");
    assert!(matches!(search.next(None), SearchStep::Failed("File not found")));
}

#[test]
fn a_submodule_fails_for_each_of_its_reasons() {
    assert_eq!(submodule_to_blob(SubmoduleEntry::Unknown), Err("Can't find submodule"));
    assert_eq!(submodule_to_blob(SubmoduleEntry::Closed), Err("Can't open submodule"));
    assert_eq!(submodule_to_blob(SubmoduleEntry::Missing), Err("File not found in submodule"));
    assert_eq!(submodule_to_blob(SubmoduleEntry::Found(LINK)), Err("Path is to a symlink"));
    assert_eq!(submodule_to_blob(SubmoduleEntry::Found(FILE)), Ok(()));
}

fn config(hg: bool, blame: bool) -> TreeConfig {
    TreeConfig {
        hg_root: if hg { Some("https://hg".to_owned()) } else { None },
        github_repo: None,
        git_blame_path: if blame { Some("/blame".to_owned()) } else { None },
    }
}

fn item(title: &str, link: &str, update: &'static str, key: Option<char>) -> PanelItem {
    PanelItem {
        title: title.to_owned(),
        link: link.to_owned(),
        update_link_lineno: update,
        accel_key: key,
    }
}

#[test]
fn the_panel_links_to_what_the_tree_has() {
    let latest = || item("Go to latest version", "/t/source/d/f", "#{}", None);
    let section = |items: Vec<PanelItem>| {
        vec![PanelSection { name: "Revision control".to_owned(), items }]
    };
    assert_eq!(path_panel(&config(false, false), "t", "d/f", &None), section(vec![latest()]));
    assert_eq!(
        path_panel(&config(true, true), "t", "d/f", &Some("h1".to_owned())),
        section(vec![
            latest(),
            item("Log", "https://hg/log/h1/d/f", "", Some('L')),
            item("Raw", "https://hg/raw-file/h1/d/f", "", Some('R')),
            item(
                "Blame",
                "javascript:alert('Hover over the gray bar on the left to see blame information.')",
                "",
                None,
            ),
        ])
    );
    assert_eq!(
        path_panel(&config(true, false), "t", "d/f", &None)[0].items[1].link,
        "https://hg/log/tip/d/f"
    );
}

#[test]
fn a_path_fails_for_each_of_its_reasons() {
    let failed = |e: &'static str| Page { options: None, steps: Vec::new(), error: Some(e) };
    assert_eq!(format_path("t", "f", PathSource::NoTree, false), failed("Invalid tree"));
    assert_eq!(format_path("t", "f", PathSource::NoGit("no git"), false), failed("no git"));
    assert_eq!(format_path("t", "f", PathSource::NoRevision, false), failed("Bad revision"));
    assert_eq!(format_path("t", "f", PathSource::NoFile("gone"), false), failed("gone"));
    assert_eq!(
        format_path("t", "f", PathSource::NoBlame, false),
        failed("Unable to find blame for revision")
    );
    assert_eq!(format_path("t", "f", PathSource::BadBlame, false), failed("Blame is not a blob"));
}

#[test]
fn a_path_is_shown_with_its_panel_and_revision() {
    let tree = config(true, false);
    let source = PathSource::Ready(PathData {
        tree: &tree,
        commit: CommitInfo { id: "c1".to_owned(), header: Ok(("H".to_owned(), "".to_owned())) },
        hg_rev: None,
        code: Some(FormattedCode {
            lines: vec![FormattedLine {
                line: "x".to_owned(),
                starts_nest: false,
                pop_nest_count: 0,
            }],
            analysis_json: "[]".to_owned(),
        }),
        blames: None,
    });
    let page = format_path("t", "d/f", source, false);
    assert_eq!(page.error, None);
    assert_eq!(page.steps[0], Step::Header);
    assert_eq!(page.steps[1], Step::Breadcrumbs("d/f".to_owned()));
    assert_eq!(page.steps[2], Step::Panel(path_panel(&tree, "t", "d/f", &None)));
    assert_eq!(page.steps.len(), 8);
    assert_eq!(page.steps[7], Step::Footer("d/f".to_owned()));
    assert_eq!(page.options.unwrap().revision, Some(("c1".to_owned(), "H".to_owned())));
}

#[test]
fn the_text_of_a_path_is_formatted_and_shown() {
    let tree = config(true, true);
    let commit =
        || CommitInfo { id: "c1".to_owned(), header: Ok(("H".to_owned(), "".to_owned())) };
    let tokens: Vec<Token> = vec![Token { start: 1, end: 2, kind: TokenKind::Newline }];
    let blame = |_: usize| BlameTrail::single("r:%:1:");
    let linkify = |s: &str| s.to_owned();
    let page = render_path(
        &tree, "t", &commit(), &None, "d/f", "x\n", Some(&tokens[..]), Some(&blame), false,
        &linkify,
    );
    let line = FormattedLine { line: "x".to_owned(), starts_nest: false, pop_nest_count: 0 };
    let source = PathSource::Ready(PathData {
        tree: &tree,
        commit: commit(),
        hg_rev: None,
        code: Some(FormattedCode { lines: vec![line], analysis_json: "[]".to_owned() }),
        blames: Some(vec![BlameTrail::single("r:%:1:")]),
    });
    assert_eq!(page, format_path("t", "d/f", source, false));
    let binary = render_path(
        &tree, "t", &commit(), &None, "d/f", "x", None, Some(&blame), false, &linkify,
    );
    assert_eq!(binary.steps, vec![Step::Text("Binary file".to_owned())]);
}
