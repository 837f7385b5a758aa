//! The page of a file as it was in some revision.

use crate::blame;
use crate::blame::BlameTrail;
use crate::code;
use crate::file;
use crate::file::{format_file_data, render_file, CommitInfo, FormattedCode};
use crate::page;
use crate::page::{
    fail, push_item, Page, PageView, PanelItem, PanelItemView, PanelSection, PanelSectionView,
    TreeConfig,
};
use crate::paths;
use crate::paths::{read_parent, read_strip_prefix};
use crate::source;
use crate::source::{AnalysisSource, JumpTable, Token, WithLocation};
use vstd::prelude::*;

verus! {

// ---------------------------------------------------------------------------
// Finding the file

/// What an entry of a tree is.
#[derive(Clone, Copy, Debug, PartialEq, Eq, Structural)]
pub enum EntryKind {
    /// A file.
    Blob,
    /// The commit of a submodule.
    Commit,
    /// Anything else.
    Other,
}

/// An entry of a tree.
#[derive(Clone, Copy, Debug, PartialEq, Eq)]
pub struct TreeEntry {
    pub kind: EntryKind,
    pub filemode: i32,
}

/// The file mode that is taken for that of a symbolic link.
pub const SYMLINK_MODE: i32 = 120000;

/// Why an entry cannot be shown.
pub open spec fn blob_error(entry: TreeEntry) -> Option<Seq<char>> {
    if !(entry.kind is Blob) {
        Some("Invalid path; expected file"@)
    } else if entry.filemode == SYMLINK_MODE {
        Some("Path is to a symlink"@)
    } else {
        None
    }
}

/// Accepts the entry of a file whose content can be shown.
pub fn entry_to_blob(entry: TreeEntry) -> (r: Result<(), &'static str>)
    ensures
        match r {
            Ok(_) => blob_error(entry) is None,
            Err(e) => blob_error(entry) == Some(e@),
        },
{
    match entry.kind {
        EntryKind::Blob => {},
        _ => {
            return Err("Invalid path; expected file");
        },
    }
    if entry.filemode == SYMLINK_MODE {
        return Err("Path is to a symlink");
    }
    Ok(())
}

/// The search for a file: the path wanted, the path that is looked up, and whether that is the
/// wanted path itself.
pub struct SearchView {
    pub path: Seq<char>,
    pub at: Seq<char>,
    pub first: bool,
}

/// What is to be done next to find a file.
pub enum SearchStepView {
    /// Look up the path that the search has come to.
    LookUp(SearchView),
    /// Read the entry that was found.
    ReadBlob,
    /// Look for the inner path in the submodule.
    OpenSubmodule { submodule: Seq<char>, inner: Seq<char> },
    /// There is no such file, for this reason.
    Failed(Seq<char>),
}

/// The search that has looked up `s.at` without success goes on with the directory around it.
pub open spec fn search_above(s: SearchView) -> SearchStepView {
    match paths::parent(s.at) {
        Some(p) => SearchStepView::LookUp(SearchView { path: s.path, at: p, first: false }),
        None => SearchStepView::Failed("File not found"@),
    }
}

/// What follows once `s.at` is looked up in the revision's tree.
pub open spec fn search_next(s: SearchView, entry: Option<TreeEntry>) -> SearchStepView {
    match entry {
        None => search_above(s),
        Some(e) => if s.first {
            match blob_error(e) {
                Some(error) => SearchStepView::Failed(error),
                None => SearchStepView::ReadBlob,
            }
        } else if !(e.kind is Commit) {
            SearchStepView::Failed("File not found"@)
        } else {
            SearchStepView::OpenSubmodule {
                submodule: s.at,
                inner: paths::strip_prefix(s.path, s.at)->0,
            }
        },
    }
}

/// Whether the search looks at the wanted path or at a directory around it.
pub open spec fn on_the_way(s: SearchView) -> bool {
    paths::components(s.at).is_prefix_of(paths::components(s.path))
}

/// A search for a file.
#[derive(Debug)]
pub struct FileSearch {
    path: String,
    at: String,
    first: bool,
}

impl View for FileSearch {
    type V = SearchView;

    closed spec fn view(&self) -> SearchView {
        SearchView { path: self.path@, at: self.at@, first: self.first }
    }
}

/// What is to be done next to find a file.
#[derive(Debug)]
pub enum SearchStep {
    LookUp(FileSearch),
    ReadBlob,
    OpenSubmodule { submodule: String, inner: String },
    Failed(&'static str),
}

impl View for SearchStep {
    type V = SearchStepView;

    open spec fn view(&self) -> SearchStepView {
        match self {
            SearchStep::LookUp(s) => SearchStepView::LookUp(s@),
            SearchStep::ReadBlob => SearchStepView::ReadBlob,
            SearchStep::OpenSubmodule { submodule, inner } => SearchStepView::OpenSubmodule {
                submodule: submodule@,
                inner: inner@,
            },
            SearchStep::Failed(e) => SearchStepView::Failed(e@),
        }
    }
}

impl FileSearch {
    #[verifier::type_invariant]
    spec fn well_formed(self) -> bool {
        on_the_way(SearchView { path: self.path@, at: self.at@, first: self.first })
    }

    /// Starts at the wanted path.
    pub fn start(path: &str) -> (r: FileSearch)
        ensures
            r@ == (SearchView { path: path@, at: path@, first: true }),
            on_the_way(r@),
    {
        proof {
            let cs = paths::components(path@);
            assert(cs =~= cs.subrange(0, cs.len() as int));
        }
        FileSearch { path: path.to_owned(), at: path.to_owned(), first: true }
    }

    /// The path that is to be looked up.
    pub fn at(&self) -> (r: &str)
        ensures
            r@ == self@.at,
            on_the_way(self@),
    {
        proof {
            use_type_invariant(self);
        }
        self.at.as_str()
    }

    /// Goes on with what the tree of the revision holds at that path.
    pub fn next(self, entry: Option<TreeEntry>) -> (r: SearchStep)
        ensures
            r@ == search_next(self@, entry),
    {
        proof {
            use_type_invariant(&self);
        }
        match entry {
            None => match read_parent(self.at.as_str()) {
                Some(p) => {
                    proof {
                        law_search_above(self@);
                    }
                    SearchStep::LookUp(FileSearch { path: self.path, at: p, first: false })
                },
                None => SearchStep::Failed("File not found"),
            },
            Some(e) => if self.first {
                match entry_to_blob(e) {
                    Ok(_) => SearchStep::ReadBlob,
                    Err(error) => SearchStep::Failed(error),
                }
            } else if e.kind != EntryKind::Commit {
                SearchStep::Failed("File not found")
            } else {
                proof {
                    paths::law_strip_prefix(self.path@, self.at@);
                }
                let inner = read_strip_prefix(self.path.as_str(), self.at.as_str()).unwrap();
                SearchStep::OpenSubmodule { submodule: self.at, inner }
            },
        }
    }
}

/// A search that goes on looks at the directory around the path that it looked at: one component
/// less, so that it comes to an end, and still on the way to the wanted path.
pub proof fn law_search_above(s: SearchView)
    requires
        on_the_way(s),
    ensures
        search_above(s) matches SearchStepView::LookUp(next) ==> {
            &&& paths::components(next.at) == paths::components(s.at).drop_last()
            &&& paths::components(next.at).len() < paths::components(s.at).len()
            &&& on_the_way(next)
            &&& next.path == s.path
        },
{
    paths::law_parent(s.at);
    if let SearchStepView::LookUp(next) = search_above(s) {
        let a = paths::components(s.at);
        let b = paths::components(s.path);
        let c = paths::components(next.at);
        assert(c =~= b.subrange(0, c.len() as int)) by {
            assert(a =~= b.subrange(0, a.len() as int));
        }
    }
}

/// A submodule that is opened lies on the way to the wanted path, and the inner path leads on
/// from it to that path.
pub proof fn law_submodule_path(s: SearchView, entry: Option<TreeEntry>)
    requires
        on_the_way(s),
    ensures
        search_next(s, entry) matches SearchStepView::OpenSubmodule { submodule, inner } ==> {
            &&& submodule == s.at
            &&& paths::components(s.path) == paths::components(submodule) + paths::components(inner)
        },
{
    paths::law_strip_prefix(s.path, s.at);
}

/// What came of looking for the inner path in a submodule.
#[derive(Clone, Copy, Debug, PartialEq, Eq)]
pub enum SubmoduleEntry {
    /// The repository knows no submodule at the place.
    Unknown,
    /// The submodule cannot be opened.
    Closed,
    /// The commit of the submodule holds nothing at the inner path.
    Missing,
    Found(TreeEntry),
}

/// Why the file cannot be shown from a submodule.
pub open spec fn submodule_error(outcome: SubmoduleEntry) -> Option<Seq<char>> {
    match outcome {
        SubmoduleEntry::Unknown => Some("Can't find submodule"@),
        SubmoduleEntry::Closed => Some("Can't open submodule"@),
        SubmoduleEntry::Missing => Some("File not found in submodule"@),
        SubmoduleEntry::Found(entry) => blob_error(entry),
    }
}

/// Accepts the entry of a file in a submodule whose content can be shown.
pub fn submodule_to_blob(outcome: SubmoduleEntry) -> (r: Result<(), &'static str>)
    ensures
        match r {
            Ok(_) => submodule_error(outcome) is None,
            Err(e) => submodule_error(outcome) == Some(e@),
        },
{
    match outcome {
        SubmoduleEntry::Unknown => Err("Can't find submodule"),
        SubmoduleEntry::Closed => Err("Can't open submodule"),
        SubmoduleEntry::Missing => Err("File not found in submodule"),
        SubmoduleEntry::Found(entry) => entry_to_blob(entry),
    }
}

// ---------------------------------------------------------------------------
// The page

/// The panel entry that leads to the newest version of a file.
pub open spec fn latest_item(tree_name: Seq<char>, path: Seq<char>) -> PanelItemView {
    PanelItemView {
        title: "Go to latest version"@,
        link: "/"@ + tree_name + "/source/"@ + path,
        update_link_lineno: "#{}"@,
        accel_key: None,
    }
}

/// The panel entry that leads to the log of a file.
pub open spec fn log_item(hg_root: Seq<char>, hg_rev: Seq<char>, path: Seq<char>) -> PanelItemView {
    PanelItemView {
        title: "Log"@,
        link: hg_root + "/log/"@ + hg_rev + "/"@ + path,
        update_link_lineno: ""@,
        accel_key: Some('L'),
    }
}

/// The panel entry that leads to the bare file.
pub open spec fn raw_item(hg_root: Seq<char>, hg_rev: Seq<char>, path: Seq<char>) -> PanelItemView {
    PanelItemView {
        title: "Raw"@,
        link: hg_root + "/raw-file/"@ + hg_rev + "/"@ + path,
        update_link_lineno: ""@,
        accel_key: Some('R'),
    }
}

/// The panel entry that tells how blame is shown.
pub open spec fn blame_item() -> PanelItemView {
    PanelItemView {
        title: "Blame"@,
        link:
            "javascript:alert('Hover over the gray bar on the left to see blame information.')"@,
        update_link_lineno: ""@,
        accel_key: None,
    }
}

/// The Mercurial revision to link to: the newest where the one shown has none.
pub open spec fn linked_hg_rev(hg_rev: Option<Seq<char>>) -> Seq<char> {
    match hg_rev {
        Some(rev) => rev,
        None => "tip"@,
    }
}

/// The entries of the panel of a file in a revision.
pub open spec fn path_items(
    tree_name: Seq<char>,
    path: Seq<char>,
    hg_root: Option<Seq<char>>,
    has_blame: bool,
    hg_rev: Option<Seq<char>>,
) -> Seq<PanelItemView> {
    let rev = linked_hg_rev(hg_rev);
    seq![latest_item(tree_name, path)] + (match hg_root {
        Some(root) => seq![log_item(root, rev, path), raw_item(root, rev, path)],
        None => seq![],
    }) + (if has_blame {
        seq![blame_item()]
    } else {
        seq![]
    })
}

/// The section of the panel that holds these entries.
pub open spec fn panel_of(items: Seq<PanelItemView>) -> Seq<PanelSectionView> {
    seq![PanelSectionView { name: "Revision control"@, items }]
}

/// Writes the section of the panel that holds these entries.
pub(crate) fn write_panel(items: Vec<PanelItem>) -> (r: Vec<PanelSection>)
    ensures
        page::section_views(r@) == panel_of(page::item_views(items@)),
{
    let section = PanelSection { name: "Revision control".to_owned(), items };
    let ghost view = section@;
    let mut r: Vec<PanelSection> = Vec::new();
    r.push(section);
    proof {
        assert(page::section_views(r@) =~= seq![view]);
    }
    r
}

/// Writes the link to the log of a file.
pub(crate) fn write_log_link(hg_root: &str, hg_rev: &str, path: &str) -> (r: String)
    ensures
        r@ == log_item(hg_root@, hg_rev@, path@).link,
{
    let mut r = hg_root.to_owned();
    r.append("/log/");
    r.append(hg_rev);
    r.append("/");
    r.append(path);
    r
}

/// Writes the link to the newest version of a file.
pub(crate) fn write_latest_link(tree_name: &str, path: &str) -> (r: String)
    ensures
        r@ == latest_item(tree_name@, path@).link,
{
    let mut r = "/".to_owned();
    r.append(tree_name);
    r.append("/source/");
    r.append(path);
    r
}

/// The panel of a file in a revision.
pub fn path_panel(tree: &TreeConfig, tree_name: &str, path: &str, hg_rev: &Option<String>) -> (r:
    Vec<PanelSection>)
    ensures
        page::section_views(r@) == panel_of(
            path_items(
                tree_name@,
                path@,
                tree.hg_root.deep_view(),
                tree.git_blame_path is Some,
                hg_rev.deep_view(),
            ),
        ),
{
    let rev: &str = match hg_rev {
        Some(rev) => rev.as_str(),
        None => "tip",
    };
    let mut items: Vec<PanelItem> = Vec::new();
    push_item(
        &mut items,
        "Go to latest version",
        write_latest_link(tree_name, path),
        "#{}",
        None,
    );
    if let Some(root) = &tree.hg_root {
        let log = write_log_link(root.as_str(), rev, path);
        push_item(&mut items, "Log", log, "", Some('L'));
        let mut raw = root.clone();
        raw.append("/raw-file/");
        raw.append(rev);
        raw.append("/");
        raw.append(path);
        push_item(&mut items, "Raw", raw, "", Some('R'));
    }
    if tree.git_blame_path.is_some() {
        push_item(
            &mut items,
            "Blame",
            "javascript:alert('Hover over the gray bar on the left to see blame information.')".to_owned(),
            "",
            None,
        );
    }
    proof {
        assert(page::item_views(items@) =~= path_items(
            tree_name@,
            path@,
            tree.hg_root.deep_view(),
            tree.git_blame_path is Some,
            hg_rev.deep_view(),
        ));
    }
    write_panel(items)
}

/// A file in a revision, with all that its page needs.
#[derive(Debug)]
pub struct PathData<'a> {
    pub tree: &'a TreeConfig,
    pub commit: CommitInfo,
    /// The Mercurial revision that the commit stands for.
    pub hg_rev: Option<String>,
    /// The formatted text, absent where the file is binary.
    pub code: Option<FormattedCode>,
    /// The history of each line, absent where there is no blame.
    pub blames: Option<Vec<BlameTrail>>,
}

/// How far the retrieval of a file in a revision came.
#[derive(Debug)]
pub enum PathSource<'a> {
    /// The tree is not configured.
    NoTree,
    /// The tree has no repository, for this reason.
    NoGit(&'static str),
    /// The revision does not lead to a commit with a tree.
    NoRevision,
    /// The file cannot be found or shown, for this reason.
    NoFile(&'static str),
    /// The blame repository has nothing for the revision.
    NoBlame,
    /// What the blame repository has for the revision is not a commit.
    BadBlame,
    Ready(PathData<'a>),
}

/// The page of a file in a revision.
pub open spec fn path_page(
    tree_name: Seq<char>,
    path: Seq<char>,
    source: PathSource,
    diffable: bool,
) -> PageView {
    match source {
        PathSource::NoTree => page::failed("Invalid tree"@),
        PathSource::NoGit(e) => page::failed(e@),
        PathSource::NoRevision => page::failed("Bad revision"@),
        PathSource::NoFile(e) => page::failed(e@),
        PathSource::NoBlame => page::failed("Unable to find blame for revision"@),
        PathSource::BadBlame => page::failed("Blame is not a blob"@),
        PathSource::Ready(d) => file::file_page(
            Some(d.tree),
            tree_name,
            panel_of(
                path_items(
                    tree_name,
                    path,
                    d.tree.hg_root.deep_view(),
                    d.tree.git_blame_path is Some,
                    d.hg_rev.deep_view(),
                ),
            ),
            Some(&d.commit),
            path,
            match d.code {
                Some(c) => Some(&c),
                None => None,
            },
            match d.blames {
                Some(b) => Some(file::trail_views(b@)),
                None => None,
            },
            diffable,
        ),
    }
}

/// Whether the lines of a file can be written, where its page gets as far: the path names a file,
/// and each line has its blame, where there is any.
pub open spec fn path_writable(path: Seq<char>, source: PathSource) -> bool {
    source matches PathSource::Ready(d) ==> (d.code is Some && d.commit.header is Ok
        ==> paths::file_name(path) is Some && (d.blames is Some ==> d.blames->0@.len()
        >= d.code->0.lines@.len()))
}

/// Renders the contents of a file in a revision with blame annotations but without semantic
/// analysis data.
pub fn format_path(tree_name: &str, path: &str, source: PathSource, diffable: bool) -> (r: Page)
    requires
        path_writable(path@, source),
    ensures
        r@ == path_page(tree_name@, path@, source, diffable),
{
    match source {
        PathSource::NoTree => fail("Invalid tree"),
        PathSource::NoGit(e) => fail(e),
        PathSource::NoRevision => fail("Bad revision"),
        PathSource::NoFile(e) => fail(e),
        PathSource::NoBlame => fail("Unable to find blame for revision"),
        PathSource::BadBlame => fail("Blame is not a blob"),
        PathSource::Ready(d) => {
            let panel = path_panel(d.tree, tree_name, path, &d.hg_rev);
            let code: Option<&FormattedCode> = match &d.code {
                Some(c) => Some(c),
                None => None,
            };
            let blames: Option<&Vec<BlameTrail>> = match &d.blames {
                Some(b) => Some(b),
                None => None,
            };
            format_file_data(
                Some(d.tree),
                tree_name,
                panel,
                Some(&d.commit),
                path,
                code,
                blames,
                diffable,
            )
        },
    }
}

/// Renders the text of a file in a revision with blame annotations but without semantic analysis
/// data: `tokens` are absent where the file is binary, and `blame` tells the history of a line,
/// counted from zero.
pub fn render_path<L: Fn(&str) -> String, B: Fn(usize) -> BlameTrail>(
    tree: &TreeConfig,
    tree_name: &str,
    commit: &CommitInfo,
    hg_rev: &Option<String>,
    path: &str,
    data: &str,
    tokens: Option<&[Token]>,
    blame: Option<&B>,
    diffable: bool,
    linkify: &L,
) -> (r: Page)
    requires
        tokens is Some ==> {
            &&& source::tokens_valid(data@, tokens->0@)
            &&& source::lines_countable(tokens->0@)
            &&& forall|a: &str| call_requires(*linkify, (a,))
            &&& commit.header is Ok ==> paths::file_name(path@) is Some
            &&& commit.header is Ok && blame is Some ==> forall|i: usize|
                call_requires(*blame->0, (i,))
        },
    ensures
        ({
            let panel = panel_of(
                path_items(
                    tree_name@,
                    path@,
                    tree.hg_root.deep_view(),
                    tree.git_blame_path is Some,
                    hg_rev.deep_view(),
                ),
            );
            match tokens {
                Some(t) => exists|
                    code: FormattedCode,
                    blames: Option<Seq<Seq<blame::EntryView>>>,
                |
                    {
                        &&& #[trigger] file::renders_file(
                            *linkify,
                            blame,
                            code::code_input(Map::empty(), path@, data@, t@, seq![]),
                            Some(commit),
                            diffable,
                            code,
                            blames,
                        )
                        &&& r@ == file::file_page(
                            Some(tree),
                            tree_name@,
                            panel,
                            Some(commit),
                            path@,
                            Some(&code),
                            blames,
                            diffable,
                        )
                    },
                None => r@ == file::file_page(
                    Some(tree),
                    tree_name@,
                    panel,
                    Some(commit),
                    path@,
                    None,
                    None,
                    diffable,
                ),
            }
        }),
{
    let panel = path_panel(tree, tree_name, path, hg_rev);
    let jumps = JumpTable::new();
    let analysis: Vec<WithLocation<Vec<AnalysisSource>>> = Vec::new();
    proof {
        assert(analysis@ =~= seq![]);
    }
    render_file(
        Some(tree),
        tree_name,
        panel,
        Some(commit),
        path,
        data,
        tokens,
        &jumps,
        analysis.as_slice(),
        blame,
        diffable,
        linkify,
    )
}

} // verus!
