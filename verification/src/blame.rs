//! Blame information: which revision each line comes from, and how it is shown.

use crate::paths;
use crate::paths::same_path;
use crate::split;
use crate::split::{join_strings, split_first};
use crate::text;
use crate::text::{parse_u32, same_text};
use vstd::prelude::*;

verus! {

// ---------------------------------------------------------------------------
// Blame lines

/// The parts of a blame line `rev:path:lineno:...`.
pub open spec fn blame_pieces(line: Seq<char>) -> Seq<Seq<char>> {
    split::split_n(line, 4, ':')
}

/// Whether a blame line names a revision, a path and a line.
pub open spec fn is_blame_line(line: Seq<char>) -> bool {
    blame_pieces(line).len() >= 3
}

/// Whether the line that a blame line names is a number.
pub open spec fn is_numbered(line: Seq<char>) -> bool {
    text::u32_of(blame_pieces(line)[2]) is Some
}

/// Tells whether a blame line names a revision, a path and a line.
pub fn check_blame_line(line: &str) -> (r: bool)
    ensures
        r == is_blame_line(line@),
{
    let pieces = split_first(line, 4, ':');
    proof {
        assert(split::strs(pieces@).len() == pieces@.len());
    }
    pieces.len() >= 3
}

/// Tells whether a blame line names a revision, a path and a line by its number.
pub fn check_numbered_blame_line(line: &str) -> (r: bool)
    ensures
        r == (is_blame_line(line@) && is_numbered(line@)),
{
    let pieces = split_first(line, 4, ':');
    proof {
        assert(split::strs(pieces@).len() == pieces@.len());
    }
    if pieces.len() < 3 {
        return false;
    }
    proof {
        assert(blame_pieces(line@)[2] == pieces@[2]@);
    }
    parse_u32(pieces[2]).is_some()
}

// ---------------------------------------------------------------------------
// Trails

/// One step of the history of a line: a revision, the path of the file there relative to the
/// revision before it in the trail (`%` where it is the same), and the line's number there.
pub struct EntryView {
    pub rev: Seq<char>,
    pub filespec: Seq<char>,
    pub lineno: Seq<char>,
}

/// What a blame line says.
pub open spec fn blame_entry(line: Seq<char>) -> EntryView {
    let pieces = blame_pieces(line);
    EntryView { rev: pieces[0], filespec: pieces[1], lineno: pieces[2] }
}

/// The entry that stands for a history which was not followed to its end.
pub open spec fn cut_entry() -> EntryView {
    EntryView { rev: seq![], filespec: seq![], lineno: seq![] }
}

/// The history of a line, as far as it was followed. The three lists have one element for each
/// entry.
#[derive(Debug, PartialEq, Eq)]
pub struct BlameTrail {
    revs: Vec<String>,
    filespecs: Vec<String>,
    linenos: Vec<String>,
}

impl View for BlameTrail {
    type V = Seq<EntryView>;

    closed spec fn view(&self) -> Seq<EntryView> {
        Seq::new(
            self.revs@.len(),
            |i: int|
                EntryView {
                    rev: self.revs@[i]@,
                    filespec: self.filespecs@[i]@,
                    lineno: self.linenos@[i]@,
                },
        )
    }
}

/// The revisions of a trail, separated by commas.
pub open spec fn trail_revs(trail: Seq<EntryView>) -> Seq<char> {
    split::join(Seq::new(trail.len(), |i: int| trail[i].rev), ","@)
}

/// The paths of a trail, separated by commas.
pub open spec fn trail_filespecs(trail: Seq<EntryView>) -> Seq<char> {
    split::join(Seq::new(trail.len(), |i: int| trail[i].filespec), ","@)
}

/// The line numbers of a trail, separated by commas.
pub open spec fn trail_linenos(trail: Seq<EntryView>) -> Seq<char> {
    split::join(Seq::new(trail.len(), |i: int| trail[i].lineno), ","@)
}

impl BlameTrail {
    /// The lists are of one length.
    #[verifier::type_invariant]
    spec fn aligned(self) -> bool {
        self.revs@.len() == self.filespecs@.len() == self.linenos@.len()
    }

    fn add(self, rev: String, filespec: String, lineno: String) -> (r: BlameTrail)
        ensures
            r@ == self@.push(EntryView { rev: rev@, filespec: filespec@, lineno: lineno@ }),
    {
        proof {
            use_type_invariant(&self);
        }
        let mut revs = self.revs;
        let mut filespecs = self.filespecs;
        let mut linenos = self.linenos;
        let ghost entry = EntryView { rev: rev@, filespec: filespec@, lineno: lineno@ };
        revs.push(rev);
        filespecs.push(filespec);
        linenos.push(lineno);
        let r = BlameTrail { revs, filespecs, linenos };
        proof {
            assert(r@ =~= self@.push(entry));
        }
        r
    }

    /// The history that a single blame line tells.
    pub fn single(line: &str) -> (r: BlameTrail)
        requires
            is_blame_line(line@),
        ensures
            r@ == seq![blame_entry(line@)],
    {
        let pieces = split_first(line, 4, ':');
        proof {
            let all = blame_pieces(line@);
            assert(all.len() == pieces@.len());
            assert(all[0] == pieces@[0]@);
            assert(all[1] == pieces@[1]@);
            assert(all[2] == pieces@[2]@);
        }
        let none = BlameTrail { revs: Vec::new(), filespecs: Vec::new(), linenos: Vec::new() };
        let r = none.add(pieces[0].to_owned(), pieces[1].to_owned(), pieces[2].to_owned());
        proof {
            assert(r@ =~= seq![blame_entry(line@)]);
        }
        r
    }

    /// The revisions, separated by commas.
    pub fn revs(&self) -> (r: String)
        ensures
            r@ == trail_revs(self@),
    {
        let r = join_strings(&self.revs, ",");
        proof {
            assert(split::strings(self.revs@) =~= Seq::new(self@.len(), |i: int| self@[i].rev));
        }
        r
    }

    /// The paths, separated by commas.
    pub fn filespecs(&self) -> (r: String)
        ensures
            r@ == trail_filespecs(self@),
    {
        proof {
            use_type_invariant(self);
        }
        let r = join_strings(&self.filespecs, ",");
        proof {
            assert(split::strings(self.filespecs@) =~= Seq::new(
                self@.len(),
                |i: int| self@[i].filespec,
            ));
        }
        r
    }

    /// The line numbers, separated by commas.
    pub fn linenos(&self) -> (r: String)
        ensures
            r@ == trail_linenos(self@),
    {
        proof {
            use_type_invariant(self);
        }
        let r = join_strings(&self.linenos, ",");
        proof {
            assert(split::strings(self.linenos@) =~= Seq::new(
                self@.len(),
                |i: int| self@[i].lineno,
            ));
        }
        r
    }
}

// ---------------------------------------------------------------------------
// Following the history of a line past revisions that are ignored

/// How many revisions are passed at most.
pub const MAX_IGNORED: u32 = 5;

/// Where the history of a line is followed from: what is known of it, the revision, path and line
/// that were reached, and how many more revisions may be passed.
pub struct WalkView {
    pub trail: Seq<EntryView>,
    pub rev: Seq<char>,
    pub path: Seq<char>,
    pub lineno: u32,
    pub left: int,
}

/// The path that an entry stands for, given the path that `%` stands for.
pub open spec fn resolved(filespec: Seq<char>, same: Seq<char>) -> Seq<char> {
    if filespec == "%"@ {
        same
    } else {
        filespec
    }
}

/// The walk from the blame line of a line of the file `path`.
pub open spec fn walk_from(line: Seq<char>, path: Seq<char>) -> WalkView {
    let entry = blame_entry(line);
    WalkView {
        trail: seq![entry],
        rev: entry.rev,
        path: resolved(entry.filespec, path),
        lineno: text::u32_of(entry.lineno)->0,
        left: MAX_IGNORED as int,
    }
}

/// How an earlier path is told, seen from the current one: `filespec` is what the blame line of
/// the previous revision holds, and `prev` the file's path in that revision.
pub open spec fn told_path(filespec: Seq<char>, prev: Seq<char>, cur: Seq<char>) -> Seq<char> {
    if filespec == "%"@ {
        if paths::components(prev) == paths::components(cur) {
            // The file did not move.
            "%"@
        } else {
            // It moved.
            prev
        }
    } else if paths::components(filespec) == paths::components(cur) {
        // It moved, then moved back.
        "%"@
    } else {
        // It moved and moved again.
        filespec
    }
}

/// The walk once the blame line of the previous revision is known.
pub open spec fn walk_on(w: WalkView, line: Seq<char>, path: Seq<char>) -> WalkView {
    let entry = blame_entry(line);
    WalkView {
        trail: w.trail.push(
            EntryView {
                rev: entry.rev,
                filespec: told_path(entry.filespec, path, w.path),
                lineno: entry.lineno,
            },
        ),
        rev: entry.rev,
        path: resolved(entry.filespec, path),
        lineno: text::u32_of(entry.lineno)->0,
        left: w.left,
    }
}

/// The walk with one revision less to pass.
pub open spec fn walk_passed(w: WalkView) -> WalkView {
    WalkView { trail: w.trail, rev: w.rev, path: w.path, lineno: w.lineno, left: w.left - 1 }
}

/// The walk past as many revisions as there are blame lines, each with the file's path.
pub open spec fn walk_along(w: WalkView, found: Seq<(Seq<char>, Seq<char>)>) -> WalkView
    decreases found.len(),
{
    if found.len() == 0 {
        w
    } else {
        let before = walk_along(w, found.drop_last());
        walk_on(walk_passed(before), found.last().0, found.last().1)
    }
}

/// A history that is being followed.
#[derive(Debug)]
pub struct BlameWalk {
    trail: BlameTrail,
    rev: String,
    path: String,
    lineno: u32,
    left: u32,
}

impl View for BlameWalk {
    type V = WalkView;

    closed spec fn view(&self) -> WalkView {
        WalkView {
            trail: self.trail@,
            rev: self.rev@,
            path: self.path@,
            lineno: self.lineno,
            left: self.left as int,
        }
    }
}

/// What is to be done next.
#[derive(Debug)]
pub enum BlameStep {
    /// The history is known as far as it is wanted.
    Done(BlameTrail),
    /// The blame line of the previous revision is wanted.
    FindPrevious(BlameWalk),
}

fn resolve(filespec: &str, same: &str) -> (r: String)
    ensures
        r@ == resolved(filespec@, same@),
{
    if same_text(filespec, "%") {
        same.to_owned()
    } else {
        filespec.to_owned()
    }
}

impl BlameWalk {
    /// Starts at a blame line of the file `path`.
    pub fn begin(line: &str, path: &str) -> (r: BlameWalk)
        requires
            is_blame_line(line@),
            is_numbered(line@),
        ensures
            r@ == walk_from(line@, path@),
    {
        let pieces = split_first(line, 4, ':');
        proof {
            let all = blame_pieces(line@);
            assert(all.len() == pieces@.len());
            assert(all[0] == pieces@[0]@);
            assert(all[1] == pieces@[1]@);
            assert(all[2] == pieces@[2]@);
        }
        let lineno = parse_u32(pieces[2]).unwrap();
        BlameWalk {
            trail: BlameTrail::single(line),
            rev: pieces[0].to_owned(),
            path: resolve(pieces[1], path),
            lineno,
            left: MAX_IGNORED,
        }
    }

    /// The revision that was reached.
    pub fn rev(&self) -> (r: &str)
        ensures
            r@ == self@.rev,
    {
        self.rev.as_str()
    }

    /// The path of the file in that revision.
    pub fn path(&self) -> (r: &str)
        ensures
            r@ == self@.path,
    {
        self.path.as_str()
    }

    /// The line's number in that revision.
    pub fn lineno(&self) -> (r: u32)
        ensures
            r == self@.lineno,
    {
        self.lineno
    }

    /// Goes on if the revision that was reached is ignored and the limit is not reached. Where it
    /// is ignored and the limit is reached, the trail ends in an empty entry.
    pub fn decide(self, ignored: bool) -> (r: BlameStep)
        ensures
            match r {
                BlameStep::Done(trail) => {
                    &&& !ignored || self@.left <= 0
                    &&& trail@ == if ignored {
                        self@.trail.push(cut_entry())
                    } else {
                        self@.trail
                    }
                },
                BlameStep::FindPrevious(next) => {
                    &&& ignored
                    &&& self@.left > 0
                    &&& next@ == walk_passed(self@)
                },
            },
    {
        if !ignored {
            BlameStep::Done(self.trail)
        } else if self.left == 0 {
            BlameStep::Done(self.trail.add(String::new(), String::new(), String::new()))
        } else {
            BlameStep::FindPrevious(
                BlameWalk {
                    trail: self.trail,
                    rev: self.rev,
                    path: self.path,
                    lineno: self.lineno,
                    left: self.left - 1,
                },
            )
        }
    }

    /// Goes on with the blame line of the previous revision and the file's path there.
    pub fn resume(self, line: &str, prev_path: &str) -> (r: BlameWalk)
        requires
            is_blame_line(line@),
            is_numbered(line@),
        ensures
            r@ == walk_on(self@, line@, prev_path@),
    {
        let pieces = split_first(line, 4, ':');
        proof {
            let all = blame_pieces(line@);
            assert(all.len() == pieces@.len());
            assert(all[0] == pieces@[0]@);
            assert(all[1] == pieces@[1]@);
            assert(all[2] == pieces@[2]@);
        }
        let cur = self.path.as_str();
        let told: String = if same_text(pieces[1], "%") {
            if same_path(prev_path, cur) {
                "%".to_owned()
            } else {
                prev_path.to_owned()
            }
        } else if same_path(pieces[1], cur) {
            "%".to_owned()
        } else {
            pieces[1].to_owned()
        };
        let lineno = parse_u32(pieces[2]).unwrap();
        BlameWalk {
            trail: self.trail.add(pieces[0].to_owned(), told, pieces[2].to_owned()),
            rev: pieces[0].to_owned(),
            path: resolve(pieces[1], prev_path),
            lineno,
            left: self.left,
        }
    }

    /// Ends where no previous revision can be found.
    pub fn give_up(self) -> (r: BlameTrail)
        ensures
            r@ == self@.trail,
    {
        self.trail
    }
}

/// A walk tells one entry for the line itself and one for each revision that it passed, in order;
/// it passes no more revisions than it may, and whoever follows it to the end gets at most one
/// further entry, the empty one.
pub proof fn law_walk(line: Seq<char>, path: Seq<char>, found: Seq<(Seq<char>, Seq<char>)>)
    ensures
        ({
            let w = walk_along(walk_from(line, path), found);
            &&& w.trail.len() == 1 + found.len()
            &&& w.left == MAX_IGNORED - found.len()
            &&& w.trail[0] == blame_entry(line)
            &&& forall|i: int|
                0 <= i < found.len() ==> (#[trigger] w.trail[i + 1]).rev == blame_entry(
                    found[i].0,
                ).rev && w.trail[i + 1].lineno == blame_entry(found[i].0).lineno
        }),
    decreases found.len(),
{
    if found.len() > 0 {
        law_walk(line, path, found.drop_last());
        let before = walk_along(walk_from(line, path), found.drop_last());
        let w = walk_along(walk_from(line, path), found);
        assert forall|i: int| 0 <= i < found.len() implies (#[trigger] w.trail[i + 1]).rev
            == blame_entry(found[i].0).rev && w.trail[i + 1].lineno == blame_entry(
            found[i].0,
        ).lineno by {
            if i < found.len() - 1 {
                assert(w.trail[i + 1] == before.trail[i + 1]);
                assert(found.drop_last()[i] == found[i]);
            }
        }
    }
}

/// What is told of an earlier path, read from the current one, leads to the path that the file
/// had: telling loses nothing. (A file whose path is `%` itself cannot be told apart from one
/// that did not move.)
pub proof fn law_told_path(filespec: Seq<char>, prev: Seq<char>, cur: Seq<char>)
    requires
        prev != "%"@,
    ensures
        paths::components(resolved(told_path(filespec, prev, cur), cur)) == paths::components(
            resolved(filespec, prev),
        ),
{
}

// ---------------------------------------------------------------------------
// Blame strips

/// The color of the last blame strip, and the revisions that it was for.
pub struct ShadeView {
    pub last: Option<Seq<char>>,
    pub color: bool,
}

/// No strip yet.
pub open spec fn no_shade() -> ShadeView {
    ShadeView { last: None, color: false }
}

/// The strip after one for these revisions: the color changes where the revisions do.
pub open spec fn shaded(shade: ShadeView, revs: Seq<char>) -> ShadeView {
    ShadeView {
        last: Some(revs),
        color: if shade.last == Some(revs) {
            shade.color
        } else {
            !shade.color
        },
    }
}

/// The strip after the first `n` lines, where those without revisions have none.
pub open spec fn shade_after(revs: Seq<Option<Seq<char>>>, n: int) -> ShadeView
    decreases n,
{
    if n <= 0 {
        no_shade()
    } else {
        match revs[n - 1] {
            Some(r) => shaded(shade_after(revs, n - 1), r),
            None => shade_after(revs, n - 1),
        }
    }
}

/// Two strips with no other between them have one color exactly if they are for the same
/// revisions.
pub proof fn law_shades(revs: Seq<Option<Seq<char>>>, i: int, j: int)
    requires
        0 <= i < j < revs.len(),
        revs[i] is Some,
        revs[j] is Some,
        forall|k: int| i < k < j ==> (#[trigger] revs[k]) is None,
    ensures
        (shade_after(revs, i + 1).color == shade_after(revs, j + 1).color) <==> revs[i] == revs[j],
{
    lemma_shade_stays(revs, i + 1, j);
}

/// Lines without revisions leave the strip as it is.
pub proof fn lemma_shade_stays(revs: Seq<Option<Seq<char>>>, i: int, j: int)
    requires
        0 <= i <= j <= revs.len(),
        forall|k: int| i <= k < j ==> (#[trigger] revs[k]) is None,
    ensures
        shade_after(revs, i) == shade_after(revs, j),
    decreases j - i,
{
    if i < j {
        lemma_shade_stays(revs, i, j - 1);
        assert(revs[j - 1] is None);
    }
}

/// The attributes of a blame strip.
pub open spec fn strip_attributes(
    color: bool,
    revs: Seq<char>,
    filespecs: Seq<char>,
    linenos: Seq<char>,
) -> Seq<char> {
    (if color {
        " class=\"blame-strip c1\" data-blame=\""@
    } else {
        " class=\"blame-strip c2\" data-blame=\""@
    }) + revs + "#"@ + filespecs + "#"@ + linenos
        + "\" role=\"button\" aria-label=\"blame\" aria-expanded=\"false\""@
}

/// The attributes of the space that is left where there is no blame; screen readers pass it.
pub open spec fn no_strip_attributes() -> Seq<char> {
    " class=\"blame-strip\" role=\"aria-hidden\""@
}

/// The cell that holds a blame strip.
pub open spec fn blame_cell(attributes: Seq<char>) -> Seq<char> {
    "<div role=\"cell\" class=\"blame-container\"><div"@ + attributes + "></div></div>"@
}

/// The color of the last blame strip, and the revisions that it was for.
pub(crate) struct Shade {
    last: Option<String>,
    color: bool,
}

impl View for Shade {
    type V = ShadeView;

    closed spec fn view(&self) -> ShadeView {
        ShadeView {
            last: match self.last {
                Some(s) => Some(s@),
                None => None,
            },
            color: self.color,
        }
    }
}

impl Shade {
    pub fn none() -> (r: Shade)
        ensures
            r@ == no_shade(),
    {
        Shade { last: None, color: false }
    }

    /// The cell with the strip for these revisions.
    pub fn cell(&mut self, revs: &str, filespecs: &str, linenos: &str) -> (r: String)
        ensures
            final(self)@ == shaded(old(self)@, revs@),
            r@ == blame_cell(
                strip_attributes(final(self)@.color, revs@, filespecs@, linenos@),
            ),
    {
        let same = match &self.last {
            Some(last) => same_text(last.as_str(), revs),
            None => false,
        };
        if !same {
            self.color = !self.color;
        }
        self.last = Some(revs.to_owned());
        let mut attributes = if self.color {
            " class=\"blame-strip c1\" data-blame=\"".to_owned()
        } else {
            " class=\"blame-strip c2\" data-blame=\"".to_owned()
        };
        attributes.append(revs);
        attributes.append("#");
        attributes.append(filespecs);
        attributes.append("#");
        attributes.append(linenos);
        attributes.append("\" role=\"button\" aria-label=\"blame\" aria-expanded=\"false\"");
        write_cell(attributes.as_str())
    }
}

/// The cell that holds a blame strip with these attributes.
pub(crate) fn write_cell(attributes: &str) -> (r: String)
    ensures
        r@ == blame_cell(attributes@),
{
    let mut r = "<div role=\"cell\" class=\"blame-container\"><div".to_owned();
    r.append(attributes);
    r.append("></div></div>");
    r
}

/// The cell without a blame strip.
pub(crate) fn empty_cell() -> (r: String)
    ensures
        r@ == blame_cell(no_strip_attributes()),
{
    write_cell(" class=\"blame-strip\" role=\"aria-hidden\"")
}

} // verus!
