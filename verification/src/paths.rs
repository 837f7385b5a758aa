//! Slash separated paths, taken apart into their components.
//!
//! Repeated slashes, a slash at the end, and every `.` but one at the front are not components.

use crate::split;
use crate::split::split_at_each;
use crate::text::same_text;
use crate::text_laws;
use vstd::prelude::*;

verus! {

/// A component of a path.
pub enum Component {
    /// The slash at the front of an absolute path.
    RootDir,
    /// A `.` at the front.
    CurDir,
    /// `..`
    ParentDir,
    /// A name.
    Normal(Seq<char>),
}

/// The component that piece `i` between the slashes stands for, if it is one.
pub open spec fn piece_component(pieces: Seq<Seq<char>>, i: int) -> Option<Component> {
    let piece = pieces[i];
    if piece.len() == 0 {
        if i == 0 && pieces.len() > 1 {
            Some(Component::RootDir)
        } else {
            None
        }
    } else if piece == seq!['.'] {
        if i == 0 {
            Some(Component::CurDir)
        } else {
            None
        }
    } else if piece == seq!['.', '.'] {
        Some(Component::ParentDir)
    } else {
        Some(Component::Normal(piece))
    }
}

/// The components among the first `n` pieces.
pub open spec fn piece_components(pieces: Seq<Seq<char>>, n: int) -> Seq<Component>
    decreases n,
{
    if n <= 0 {
        seq![]
    } else {
        match piece_component(pieces, n - 1) {
            Some(c) => piece_components(pieces, n - 1).push(c),
            None => piece_components(pieces, n - 1),
        }
    }
}

/// The pieces of a path between its slashes.
pub open spec fn pieces(path: Seq<char>) -> Seq<Seq<char>> {
    split::split(path, '/')
}

/// The components of a path.
pub open spec fn components(path: Seq<char>) -> Seq<Component> {
    piece_components(pieces(path), pieces(path).len() as int)
}

/// The number of pieces up to the last component among the first `n`.
pub open spec fn trimmed(pieces: Seq<Seq<char>>, n: int) -> int
    decreases n,
{
    if n <= 0 {
        0
    } else if piece_component(pieces, n - 1) is Some {
        n
    } else {
        trimmed(pieces, n - 1)
    }
}

/// The path that the first `m` pieces make.
pub open spec fn front(pieces: Seq<Seq<char>>, m: int) -> Seq<char> {
    if m == 1 && piece_component(pieces, 0) == Some(Component::RootDir) {
        seq!['/']
    } else {
        split::join(pieces.take(m), seq!['/'])
    }
}

/// The last component of a path, if it is a name.
pub open spec fn file_name(path: Seq<char>) -> Option<Seq<char>> {
    let cs = components(path);
    if cs.len() > 0 && cs.last() is Normal {
        Some(cs.last()->Normal_0)
    } else {
        None
    }
}

/// What follows the last dot of a name; a dot at its very front does not count.
pub open spec fn name_extension(name: Seq<char>) -> Option<Seq<char>> {
    let parts = split::split(name, '.');
    if parts.len() == 1 || (parts.len() == 2 && parts[0].len() == 0) {
        None
    } else {
        Some(parts.last())
    }
}

/// The extension of the file name of a path.
pub open spec fn extension(path: Seq<char>) -> Option<Seq<char>> {
    match file_name(path) {
        Some(name) => name_extension(name),
        None => None,
    }
}

/// The path without its last component, if there is one that is not the root.
pub open spec fn parent(path: Seq<char>) -> Option<Seq<char>> {
    let ps = pieces(path);
    let m = trimmed(ps, ps.len() as int);
    if m == 0 || piece_component(ps, m - 1) == Some(Component::RootDir) {
        None
    } else {
        Some(front(ps, trimmed(ps, m - 1)))
    }
}

/// The number of pieces that hold the first `n` components.
pub open spec fn holding(pieces: Seq<Seq<char>>, n: nat, k: int) -> int
    decreases pieces.len() - k,
{
    if k < 0 || k >= pieces.len() || piece_components(pieces, k).len() >= n {
        k
    } else {
        holding(pieces, n, k + 1)
    }
}

/// The first piece from `k` on that is a component, or `m`.
pub open spec fn next_component(pieces: Seq<Seq<char>>, k: int, m: int) -> int
    decreases m - k,
{
    if k >= m || piece_component(pieces, k) is Some {
        k
    } else {
        next_component(pieces, k + 1, m)
    }
}

/// What follows `base` in `path`, if the components of `path` start with those of `base`.
pub open spec fn strip_prefix(path: Seq<char>, base: Seq<char>) -> Option<Seq<char>> {
    let n = components(base).len();
    let ps = pieces(path);
    let m = trimmed(ps, ps.len() as int);
    if !components(base).is_prefix_of(components(path)) {
        None
    } else if n == 0 {
        Some(front(ps, m))
    } else {
        let i = next_component(ps, holding(ps, n, 0), m);
        Some(
            if i < m {
                split::join(ps.subrange(i, m), seq!['/'])
            } else {
                seq![]
            },
        )
    }
}

// ---------------------------------------------------------------------------
// Laws

proof fn lemma_split_of_join(parts: Seq<Seq<char>>, c: char)
    requires
        parts.len() > 0,
        forall|i: int| 0 <= i < parts.len() ==> !(#[trigger] parts[i]).contains(c),
    ensures
        split::split(split::join(parts, seq![c]), c) == parts,
{
    text_laws::law_split_of_join(parts, c);
}

/// Pieces that stand for the same components have them in common.
pub proof fn lemma_same_components(a: Seq<Seq<char>>, b: Seq<Seq<char>>, n: int)
    requires
        0 <= n,
        forall|i: int| 0 <= i < n ==> #[trigger] piece_component(a, i) == piece_component(b, i),
    ensures
        piece_components(a, n) == piece_components(b, n),
    decreases n,
{
    if n > 0 {
        lemma_same_components(a, b, n - 1);
        assert(piece_component(a, n - 1) == piece_component(b, n - 1));
    }
}

proof fn lemma_trimmed(ps: Seq<Seq<char>>, n: int)
    requires
        0 <= n <= ps.len(),
    ensures
        0 <= trimmed(ps, n) <= n,
        piece_components(ps, trimmed(ps, n)) == piece_components(ps, n),
        trimmed(ps, n) > 0 ==> piece_component(ps, trimmed(ps, n) - 1) is Some,
    decreases n,
{
    if n > 0 && piece_component(ps, n - 1) is None {
        lemma_trimmed(ps, n - 1);
    }
}

/// The path that the first pieces make has their components.
proof fn lemma_front(ps: Seq<Seq<char>>, m: int)
    requires
        0 <= m <= ps.len(),
        ps.len() > 0,
        forall|i: int| 0 <= i < ps.len() ==> !(#[trigger] ps[i]).contains('/'),
    ensures
        components(front(ps, m)) == piece_components(ps, m),
{
    let sep = seq!['/'];
    let path = front(ps, m);
    if m == 0 {
        assert(ps.take(0).len() == 0);
        assert(path =~= Seq::<char>::empty());
        assert(split::position(path, '/') == 0);
        assert(pieces(path) =~= seq![path]);
        reveal_with_fuel(piece_components, 2);
        assert(components(path) =~= Seq::<Component>::empty());
    } else if m == 1 && piece_component(ps, 0) == Some(Component::RootDir) {
        let e = Seq::<char>::empty();
        assert(split::join(seq![e, e], sep) =~= path) by {
            split::lemma_join_first(seq![e, e], sep);
        }
        let two = seq![e, e];
        assert forall|i: int| 0 <= i < two.len() implies !(#[trigger] two[i]).contains('/') by {}
        lemma_split_of_join(two, '/');
        assert(pieces(path) == two);
        reveal_with_fuel(piece_components, 3);
        assert(piece_component(two, 0) == Some(Component::RootDir));
        assert(piece_component(two, 1) is None);
        assert(components(path) =~= piece_components(ps, 1));
    } else {
        let head = ps.take(m);
        assert forall|i: int| 0 <= i < head.len() implies !(#[trigger] head[i]).contains('/') by {
            assert(head[i] == ps[i]);
        }
        lemma_split_of_join(head, '/');
        assert forall|i: int| 0 <= i < m implies #[trigger] piece_component(head, i)
            == piece_component(ps, i) by {
            assert(head[i] == ps[i]);
            if m == 1 {
                assert(piece_component(ps, 0) != Some(Component::RootDir));
            }
        }
        lemma_same_components(head, ps, m);
    }
}

/// The parent of a path has all its components but the last.
pub proof fn law_parent(path: Seq<char>)
    ensures
        parent(path) is Some <==> components(path).len() > 0 && components(path).last()
            != Component::RootDir,
        parent(path) is Some ==> components(parent(path)->0) == components(path).drop_last(),
{
    split::law_split_join(path, '/');
    let ps = pieces(path);
    let n = ps.len() as int;
    lemma_trimmed(ps, n);
    let m = trimmed(ps, n);
    if m > 0 {
        lemma_trimmed(ps, m - 1);
        let c = piece_component(ps, m - 1)->0;
        assert(piece_components(ps, m) == piece_components(ps, m - 1).push(c));
        assert(components(path).last() == c);
        assert(components(path).drop_last() =~= piece_components(ps, m - 1));
        lemma_front(ps, trimmed(ps, m - 1));
    } else {
        assert(piece_components(ps, 0).len() == 0);
    }
}

/// Further pieces add components behind those that there are.
pub proof fn lemma_components_grow(ps: Seq<Seq<char>>, i: int, j: int)
    requires
        0 <= i <= j,
    ensures
        piece_components(ps, i).len() <= piece_components(ps, j).len(),
        piece_components(ps, i).is_prefix_of(piece_components(ps, j)),
    decreases j,
{
    if i < j {
        lemma_components_grow(ps, i, j - 1);
        let a = piece_components(ps, i);
        let b = piece_components(ps, j - 1);
        let c = piece_components(ps, j);
        assert(c.subrange(0, a.len() as int) =~= b.subrange(0, a.len() as int));
    } else {
        let a = piece_components(ps, i);
        assert(a =~= a.subrange(0, a.len() as int));
    }
}

proof fn lemma_holding(ps: Seq<Seq<char>>, n: nat, k: int)
    requires
        0 <= k <= ps.len(),
        0 < n <= piece_components(ps, ps.len() as int).len(),
        piece_components(ps, k).len() < n || (piece_components(ps, k).len() == n && k > 0
            && piece_component(ps, k - 1) is Some),
    ensures
        k <= holding(ps, n, k) <= ps.len(),
        holding(ps, n, k) > 0,
        piece_components(ps, holding(ps, n, k)).len() == n,
        piece_component(ps, holding(ps, n, k) - 1) is Some,
    decreases ps.len() - k,
{
    if k < ps.len() && piece_components(ps, k).len() < n {
        lemma_holding(ps, n, k + 1);
    }
}

proof fn lemma_behind_trimmed(ps: Seq<Seq<char>>, n: int, j: int)
    requires
        trimmed(ps, n) <= j < n,
    ensures
        piece_component(ps, j) is None,
    decreases n,
{
    if n > 0 && piece_component(ps, n - 1) is None && j < n - 1 {
        lemma_behind_trimmed(ps, n - 1, j);
    }
}

proof fn lemma_next_component(ps: Seq<Seq<char>>, k: int, m: int)
    requires
        0 <= k <= m,
    ensures
        k <= next_component(ps, k, m) <= m,
        piece_components(ps, next_component(ps, k, m)) == piece_components(ps, k),
        next_component(ps, k, m) < m ==> piece_component(ps, next_component(ps, k, m)) is Some,
    decreases m - k,
{
    if k < m && piece_component(ps, k) is None {
        lemma_next_component(ps, k + 1, m);
    }
}

proof fn lemma_tail_components(ps: Seq<Seq<char>>, i: int, m: int, t: int)
    requires
        0 < i < m <= ps.len(),
        0 <= t <= m - i,
        piece_component(ps, i) is Some,
    ensures
        piece_components(ps, i + t) == piece_components(ps, i) + piece_components(
            ps.subrange(i, m),
            t,
        ),
    decreases t,
{
    let rest = ps.subrange(i, m);
    if t == 0 {
        assert(piece_components(ps, i) + piece_components(rest, 0) =~= piece_components(ps, i));
    } else {
        lemma_tail_components(ps, i, m, t - 1);
        assert(rest[t - 1] == ps[i + t - 1]);
        assert(piece_component(rest, t - 1) == piece_component(ps, i + t - 1));
        assert(piece_components(ps, i + t) =~= piece_components(ps, i) + piece_components(
            rest,
            t,
        ));
    }
}

/// What is left of a path once a base is taken off it has the components that follow those of
/// the base; and a base can be taken off exactly if the path's components start with its own.
pub proof fn law_strip_prefix(path: Seq<char>, base: Seq<char>)
    ensures
        strip_prefix(path, base) is Some <==> components(base).is_prefix_of(components(path)),
        strip_prefix(path, base) is Some ==> components(path) == components(base) + components(
            strip_prefix(path, base)->0,
        ),
{
    if components(base).is_prefix_of(components(path)) {
        split::law_split_join(path, '/');
        let ps = pieces(path);
        let len = ps.len() as int;
        let n = components(base).len();
        lemma_trimmed(ps, len);
        let m = trimmed(ps, len);
        let rest = strip_prefix(path, base)->0;
        if n == 0 {
            lemma_front(ps, m);
            assert(components(path) =~= components(base) + components(rest));
        } else {
            assert(piece_components(ps, 0).len() == 0);
            lemma_holding(ps, n, 0);
            let k = holding(ps, n, 0);
            if k > m {
                lemma_behind_trimmed(ps, len, k - 1);
            }
            lemma_next_component(ps, k, m);
            lemma_components_grow(ps, k, len);
            assert(piece_components(ps, k) =~= components(base));
            let i = next_component(ps, k, m);
            if i < m {
                let tail = ps.subrange(i, m);
                assert forall|j: int| 0 <= j < tail.len() implies !(#[trigger] tail[j]).contains(
                    '/',
                ) by {
                    assert(tail[j] == ps[i + j]);
                }
                lemma_split_of_join(tail, '/');
                lemma_tail_components(ps, i, m, m - i);
                assert(components(path) =~= components(base) + components(rest));
            } else {
                assert(split::position(rest, '/') == 0);
                assert(pieces(rest) =~= seq![rest]);
                reveal_with_fuel(piece_components, 2);
                assert(components(rest) =~= Seq::<Component>::empty());
                assert(components(path) =~= components(base) + components(rest));
            }
        }
    }
}

// ---------------------------------------------------------------------------
// Reading paths

/// A component of a path.
enum Part<'a> {
    RootDir,
    CurDir,
    ParentDir,
    Normal(&'a str),
}

impl<'a> View for Part<'a> {
    type V = Component;

    closed spec fn view(&self) -> Component {
        match self {
            Part::RootDir => Component::RootDir,
            Part::CurDir => Component::CurDir,
            Part::ParentDir => Component::ParentDir,
            Part::Normal(name) => Component::Normal(name@),
        }
    }
}

fn read_part<'a>(ps: &Vec<&'a str>, i: usize) -> (r: Option<Part<'a>>)
    requires
        i < ps@.len(),
    ensures
        match r {
            Some(part) => piece_component(split::strs(ps@), i as int) == Some(part@),
            None => piece_component(split::strs(ps@), i as int) is None,
        },
{
    let piece = ps[i];
    proof {
        reveal_strlit(".");
        reveal_strlit("..");
        assert("."@ =~= seq!['.']);
        assert(".."@ =~= seq!['.', '.']);
    }
    if piece.is_empty() {
        if i == 0 && ps.len() > 1 {
            Some(Part::RootDir)
        } else {
            None
        }
    } else if same_text(piece, ".") {
        if i == 0 {
            Some(Part::CurDir)
        } else {
            None
        }
    } else if same_text(piece, "..") {
        Some(Part::ParentDir)
    } else {
        Some(Part::Normal(piece))
    }
}

fn same_part(a: &Part, b: &Part) -> (r: bool)
    ensures
        r == (a@ == b@),
{
    match (a, b) {
        (Part::RootDir, Part::RootDir) => true,
        (Part::CurDir, Part::CurDir) => true,
        (Part::ParentDir, Part::ParentDir) => true,
        (Part::Normal(x), Part::Normal(y)) => same_text(x, y),
        _ => false,
    }
}

spec fn parts_view(parts: Seq<Part>) -> Seq<Component> {
    Seq::new(parts.len(), |i: int| parts[i]@)
}

fn read_components<'a>(path: &'a str) -> (r: Vec<Part<'a>>)
    ensures
        parts_view(r@) == components(path@),
{
    let ps = split_at_each(path, '/');
    let mut parts: Vec<Part<'a>> = Vec::new();
    let mut i: usize = 0;
    proof {
        assert(parts_view(parts@) =~= Seq::<Component>::empty());
    }
    while i < ps.len()
        invariant
            i <= ps@.len(),
            split::strs(ps@) == pieces(path@),
            parts_view(parts@) == piece_components(pieces(path@), i as int),
        decreases ps@.len() - i,
    {
        let ghost before = parts@;
        match read_part(&ps, i) {
            Some(part) => {
                parts.push(part);
                proof {
                    assert(parts_view(parts@) =~= parts_view(before).push(part@));
                }
            },
            None => {},
        }
        i = i + 1;
    }
    parts
}

/// Whether two paths have the same components.
pub fn same_path(a: &str, b: &str) -> (r: bool)
    ensures
        r == (components(a@) == components(b@)),
{
    let x = read_components(a);
    let y = read_components(b);
    if x.len() != y.len() {
        proof {
            assert(components(a@).len() == x@.len());
            assert(components(b@).len() == y@.len());
        }
        return false;
    }
    let mut i: usize = 0;
    while i < x.len()
        invariant
            i <= x@.len(),
            x@.len() == y@.len(),
            parts_view(x@) == components(a@),
            parts_view(y@) == components(b@),
            forall|k: int| 0 <= k < i ==> (#[trigger] x@[k])@ == y@[k]@,
        decreases x@.len() - i,
    {
        if !same_part(&x[i], &y[i]) {
            proof {
                assert(components(a@)[i as int] == x@[i as int]@);
                assert(components(b@)[i as int] == y@[i as int]@);
            }
            return false;
        }
        i = i + 1;
    }
    proof {
        assert(parts_view(x@) =~= parts_view(y@));
    }
    true
}

/// The last component of a path, if it is a name.
pub fn read_file_name<'a>(path: &'a str) -> (r: Option<&'a str>)
    ensures
        match r {
            Some(name) => file_name(path@) == Some(name@),
            None => file_name(path@) is None,
        },
{
    let parts = read_components(path);
    let n = parts.len();
    if n == 0 {
        return None;
    }
    proof {
        assert(components(path@).last() == parts@[n - 1]@);
    }
    match &parts[n - 1] {
        Part::Normal(name) => Some(*name),
        _ => None,
    }
}

/// Whether the file name of a path has the given extension.
pub fn has_extension(path: &str, wanted: &str) -> (r: bool)
    ensures
        r == (extension(path@) == Some(wanted@)),
{
    match read_file_name(path) {
        None => false,
        Some(name) => {
            let parts = split_at_each(name, '.');
            let n = parts.len();
            proof {
                let all = split::split(name@, '.');
                assert(all.len() == n);
                assert(all[0] == parts@[0]@);
                assert(all.last() == parts@[n - 1]@);
            }
            if n == 1 || (n == 2 && parts[0].is_empty()) {
                false
            } else {
                same_text(parts[n - 1], wanted)
            }
        },
    }
}

fn join_range(ps: &Vec<&str>, from: usize, to: usize) -> (r: String)
    requires
        from <= to <= ps@.len(),
    ensures
        r@ == split::join(split::strs(ps@).subrange(from as int, to as int), seq!['/']),
{
    let ghost all = split::strs(ps@);
    let mut r = String::new();
    let mut i: usize = from;
    while i < to
        invariant
            all == split::strs(ps@),
            from <= i <= to <= ps@.len(),
            r@ == split::join(all.subrange(from as int, i as int), seq!['/']),
        decreases to - i,
    {
        let ghost next = all.subrange(from as int, i + 1);
        proof {
            assert(next.drop_last() =~= all.subrange(from as int, i as int));
            assert(next.last() == ps@[i as int]@);
        }
        if i > from {
            r.push('/');
        }
        r.append(ps[i]);
        proof {
            if i > from {
                assert(r@ =~= split::join(all.subrange(from as int, i as int), seq!['/']) + seq![
                    '/',
                ] + next.last());
            } else {
                assert(r@ =~= next[0]);
            }
        }
        i = i + 1;
    }
    r
}

fn read_trimmed(ps: &Vec<&str>, n: usize) -> (r: usize)
    requires
        n <= ps@.len(),
    ensures
        r == trimmed(split::strs(ps@), n as int),
        r <= n,
{
    let mut m: usize = n;
    loop
        invariant
            m <= n <= ps@.len(),
            trimmed(split::strs(ps@), n as int) == trimmed(split::strs(ps@), m as int),
        decreases m,
    {
        if m == 0 {
            return 0;
        }
        if read_part(ps, m - 1).is_some() {
            return m;
        }
        m = m - 1;
    }
}

fn read_front(ps: &Vec<&str>, m: usize) -> (r: String)
    requires
        m <= ps@.len(),
        ps@.len() > 0,
    ensures
        r@ == front(split::strs(ps@), m as int),
{
    if m == 1 {
        if let Some(Part::RootDir) = read_part(ps, 0) {
            let mut r = String::new();
            r.push('/');
            proof {
                assert(r@ =~= seq!['/']);
            }
            return r;
        }
    }
    let r = join_range(ps, 0, m);
    proof {
        let all = split::strs(ps@);
        assert(all.subrange(0, m as int) =~= all.take(m as int));
    }
    r
}

/// The path without its last component; none where nothing is left to take off.
pub fn read_parent(path: &str) -> (r: Option<String>)
    ensures
        match r {
            Some(p) => parent(path@) == Some(p@),
            None => parent(path@) is None,
        },
{
    let ps = split_at_each(path, '/');
    let m = read_trimmed(&ps, ps.len());
    if m == 0 {
        return None;
    }
    if let Some(Part::RootDir) = read_part(&ps, m - 1) {
        return None;
    }
    let k = read_trimmed(&ps, m - 1);
    Some(read_front(&ps, k))
}

/// What follows `base` in `path`; none where the components of `path` do not start with those of
/// `base`.
pub fn read_strip_prefix(path: &str, base: &str) -> (r: Option<String>)
    ensures
        match r {
            Some(p) => strip_prefix(path@, base@) == Some(p@),
            None => strip_prefix(path@, base@) is None,
        },
{
    let x = read_components(path);
    let y = read_components(base);
    let ghost cx = components(path@);
    let ghost cy = components(base@);
    proof {
        assert(cx.len() == x@.len());
        assert(cy.len() == y@.len());
    }
    let n = y.len();
    if n > x.len() {
        return None;
    }
    let mut i: usize = 0;
    while i < n
        invariant
            i <= n <= x@.len(),
            n == y@.len(),
            cx == components(path@),
            cy == components(base@),
            parts_view(x@) == cx,
            parts_view(y@) == cy,
            forall|k: int| 0 <= k < i ==> (#[trigger] x@[k])@ == y@[k]@,
        decreases n - i,
    {
        if !same_part(&x[i], &y[i]) {
            proof {
                assert(cx[i as int] == x@[i as int]@);
                assert(cy[i as int] == y@[i as int]@);
                if cy.is_prefix_of(cx) {
                    assert(cx.subrange(0, cy.len() as int)[i as int] == cx[i as int]);
                }
            }
            return None;
        }
        i = i + 1;
    }
    proof {
        assert forall|k: int| 0 <= k < cy.len() implies cy[k] == cx[k] by {
            assert(x@[k]@ == y@[k]@);
        }
        assert(cy =~= cx.subrange(0, cy.len() as int));
    }
    let ps = split_at_each(path, '/');
    let m = read_trimmed(&ps, ps.len());
    if n == 0 {
        return Some(read_front(&ps, m));
    }
    // The pieces that hold the first `n` components.
    let ghost all = pieces(path@);
    let mut k: usize = 0;
    let mut count: usize = 0;
    while k < ps.len() && count < n
        invariant
            k <= ps@.len(),
            split::strs(ps@) == all,
            count == piece_components(all, k as int).len(),
            count <= k,
            holding(all, n as nat, 0) == holding(all, n as nat, k as int),
        decreases ps@.len() - k,
    {
        if read_part(&ps, k).is_some() {
            count = count + 1;
        }
        k = k + 1;
    }
    while k < m && read_part(&ps, k).is_none()
        invariant
            m <= ps@.len(),
            split::strs(ps@) == all,
            next_component(all, holding(all, n as nat, 0), m as int) == next_component(
                all,
                k as int,
                m as int,
            ),
        decreases m - k,
    {
        k = k + 1;
    }
    if k < m {
        Some(join_range(&ps, k, m))
    } else {
        Some(String::new())
    }
}

} // verus!
