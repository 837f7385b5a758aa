//! What holds of every search for a file and of every page of a file in a revision.

use crate::file;
use crate::page::{PanelItemView, PanelSectionView};
use crate::paths;
use crate::revision;
use crate::revision::{
    EntryKind, PathData, PathSource, SearchStepView, SearchView, SubmoduleEntry, TreeEntry,
};
use vstd::prelude::*;

verus! {

// ---------------------------------------------------------------------------
// Finding the file

/// Every file is accepted, whatever its mode, unless it has the mode of a symbolic link; what is
/// no file is refused.
pub proof fn law_every_file_is_accepted(kind: EntryKind, filemode: i32)
    ensures
        ({
            let error = revision::blob_error(TreeEntry { kind, filemode });
            &&& error is None <==> kind is Blob && filemode != 120000
            &&& kind is Blob && filemode == 120000 ==> error == Some("Path is to a symlink"@)
            &&& !(kind is Blob) ==> error == Some("Invalid path; expected file"@)
        }),
{
}

/// Two files whose modes are both not that of a symbolic link are treated alike.
pub proof fn law_modes_alike(path: Seq<char>, a: i32, b: i32)
    requires
        a != 120000,
        b != 120000,
    ensures
        ({
            let start = SearchView { path, at: path, first: true };
            &&& revision::search_next(start, Some(TreeEntry { kind: EntryKind::Blob, filemode: a }))
                is ReadBlob
            &&& revision::search_next(start, Some(TreeEntry { kind: EntryKind::Blob, filemode: a }))
                == revision::search_next(
                start,
                Some(TreeEntry { kind: EntryKind::Blob, filemode: b }),
            )
        }),
{
}

/// What a search comes to once it has looked up a path: the wanted file is read where it is one;
/// in a submodule around it the search goes on; any other entry around it ends the search.
pub proof fn law_search_outcomes(s: SearchView, entry: TreeEntry)
    ensures
        ({
            let step = revision::search_next(s, Some(entry));
            let plain = entry.kind is Blob && entry.filemode != 120000;
            &&& s.first && plain ==> step is ReadBlob
            &&& s.first && !plain ==> step == SearchStepView::Failed(
                if entry.kind is Blob {
                    "Path is to a symlink"@
                } else {
                    "Invalid path; expected file"@
                },
            )
            &&& !s.first && entry.kind is Commit ==> (step matches SearchStepView::OpenSubmodule {
                submodule,
                inner,
            } && submodule == s.at && Some(inner) == paths::strip_prefix(s.path, s.at)
                || paths::strip_prefix(s.path, s.at) is None)
            &&& !s.first && !(entry.kind is Commit) ==> step == SearchStepView::Failed(
                "File not found"@,
            )
        }),
{
}

/// The path that is looked up once `m` paths were looked up without success.
pub open spec fn looked_up(path: Seq<char>, m: nat) -> SearchStepView
    decreases m,
{
    if m == 0 {
        SearchStepView::LookUp(SearchView { path, at: path, first: true })
    } else {
        match looked_up(path, (m - 1) as nat) {
            SearchStepView::LookUp(s) => revision::search_next(s, None),
            other => other,
        }
    }
}

/// Whether the last `m` components of a path are all names or dots, not the root.
pub open spec fn below_root(path: Seq<char>, m: nat) -> bool {
    let all = paths::components(path);
    &&& m <= all.len()
    &&& forall|j: int|
        all.len() - m <= j < all.len() ==> #[trigger] all[j] != paths::Component::RootDir
}

/// A search without success looks up the wanted path and then every directory around it, from the
/// inside out, each once; then it fails.
pub proof fn law_search_visits(path: Seq<char>, m: nat)
    ensures
        ({
            let all = paths::components(path);
            if below_root(path, m) {
                &&& looked_up(path, m) matches SearchStepView::LookUp(s)
                &&& s.path == path
                &&& s.first == (m == 0)
                &&& paths::components(s.at) == all.take(all.len() - m)
            } else {
                looked_up(path, m) == SearchStepView::Failed("File not found"@)
            }
        }),
    decreases m,
{
    let all = paths::components(path);
    if m == 0 {
        assert(all.take(all.len() as int) =~= all);
    } else {
        law_search_visits(path, (m - 1) as nat);
        if below_root(path, (m - 1) as nat) {
            let s = looked_up(path, (m - 1) as nat)->LookUp_0;
            paths::law_parent(s.at);
            let cs = paths::components(s.at);
            if m <= all.len() {
                assert(cs.last() == all[all.len() - m]);
                assert(cs.drop_last() =~= all.take(all.len() - m));
                if below_root(path, m) {
                    assert(all[all.len() - m] != paths::Component::RootDir);
                } else {
                    assert(all[all.len() - m] == paths::Component::RootDir);
                }
            }
        }
    }
}

/// A file of a submodule is accepted as one of the tree is; where the submodule or the file is
/// not to be had, it is told which.
pub proof fn law_submodule_outcomes(entry: TreeEntry)
    ensures
        revision::submodule_error(SubmoduleEntry::Unknown) == Some("Can't find submodule"@),
        revision::submodule_error(SubmoduleEntry::Closed) == Some("Can't open submodule"@),
        revision::submodule_error(SubmoduleEntry::Missing) == Some(
            "File not found in submodule"@,
        ),
        revision::submodule_error(SubmoduleEntry::Found(entry)) is None <==> entry.kind is Blob
            && entry.filemode != 120000,
{
}

// ---------------------------------------------------------------------------
// The page

/// The panel leads to the newest version of this file; where the Mercurial repository is known,
/// to the log and the bare file of this path in the revision shown, or else in the newest; and
/// tells of blame where there is any. It has no further entries.
pub proof fn law_path_panel(
    tree_name: Seq<char>,
    path: Seq<char>,
    hg_root: Option<Seq<char>>,
    has_blame: bool,
    hg_rev: Option<Seq<char>>,
)
    ensures
        ({
            let items = revision::path_items(tree_name, path, hg_root, has_blame, hg_rev);
            let rev = match hg_rev {
                Some(rev) => rev,
                None => "tip"@,
            };
            let hg = if hg_root is Some {
                2int
            } else {
                0
            };
            let tell = if has_blame {
                1int
            } else {
                0
            };
            &&& items.len() == 1 + hg + tell
            &&& items[0].title == "Go to latest version"@
            &&& items[0].link == "/"@ + tree_name + "/source/"@ + path
            &&& items[0].update_link_lineno == "#{}"@
            &&& items[0].accel_key is None
            &&& hg_root matches Some(root) ==> {
                &&& items[1].title == "Log"@
                &&& items[1].link == root + "/log/"@ + rev + "/"@ + path
                &&& items[1].update_link_lineno == ""@
                &&& items[1].accel_key == Some('L')
                &&& items[2].title == "Raw"@
                &&& items[2].link == root + "/raw-file/"@ + rev + "/"@ + path
                &&& items[2].update_link_lineno == ""@
                &&& items[2].accel_key == Some('R')
            }
            &&& has_blame ==> {
                &&& items.last().title == "Blame"@
                &&& items.last().link
                    == "javascript:alert('Hover over the gray bar on the left to see blame information.')"@
                &&& items.last().update_link_lineno == ""@
                &&& items.last().accel_key is None
            }
        }),
{
}

/// The entries of a panel stand in one section.
pub proof fn law_panel(items: Seq<PanelItemView>)
    ensures
        revision::panel_of(items).len() == 1,
        revision::panel_of(items)[0].name == "Revision control"@,
        revision::panel_of(items)[0].items == items,
{
}

/// A file that could not be retrieved is told why; one that was is shown as the page of its lines
/// and its blame, with the panel of this revision.
pub proof fn law_path_page(
    tree_name: Seq<char>,
    path: Seq<char>,
    e: &'static str,
    d: PathData,
    diffable: bool,
)
    ensures
        ({
            let failure = |source: PathSource|
                revision::path_page(tree_name, path, source, diffable).error;
            &&& failure(PathSource::NoTree) == Some("Invalid tree"@)
            &&& failure(PathSource::NoGit(e)) == Some(e@)
            &&& failure(PathSource::NoRevision) == Some("Bad revision"@)
            &&& failure(PathSource::NoFile(e)) == Some(e@)
            &&& failure(PathSource::NoBlame) == Some("Unable to find blame for revision"@)
            &&& failure(PathSource::BadBlame) == Some("Blame is not a blob"@)
        }),
        revision::path_page(tree_name, path, PathSource::Ready(d), diffable) == file::file_page(
            Some(d.tree),
            tree_name,
            seq![
                PanelSectionView {
                    name: "Revision control"@,
                    items: revision::path_items(
                        tree_name,
                        path,
                        match d.tree.hg_root {
                            Some(root) => Some(root@),
                            None => None,
                        },
                        d.tree.git_blame_path is Some,
                        match d.hg_rev {
                            Some(rev) => Some(rev@),
                            None => None,
                        },
                    ),
                },
            ],
            Some(&d.commit),
            path,
            match d.code {
                Some(code) => Some(&code),
                None => None,
            },
            match d.blames {
                Some(b) => Some(Seq::new(b@.len(), |i: int| b@[i]@)),
                None => None,
            },
            diffable,
        ),
{
    if let Some(b) = d.blames {
        assert(file::trail_views(b@) =~= Seq::new(b@.len(), |i: int| b@[i]@));
    }
}

} // verus!
