//! What holds of paths, whatever they are.

use crate::paths;
use crate::paths::Component;
use crate::split;
use crate::text_laws;
use vstd::prelude::*;

verus! {

proof fn lemma_single_piece(piece: Seq<char>)
    requires
        !piece.contains('/'),
    ensures
        paths::pieces(piece) == seq![piece],
{
    text_laws::law_split_of_join(seq![piece], '/');
}

/// A path without a slash is its one component; an empty one has none.
pub proof fn law_single_component(piece: Seq<char>)
    requires
        !piece.contains('/'),
    ensures
        piece.len() == 0 ==> paths::components(piece).len() == 0,
        piece == seq!['.'] ==> paths::components(piece) == seq![Component::CurDir],
        piece == seq!['.', '.'] ==> paths::components(piece) == seq![Component::ParentDir],
        piece.len() > 0 && piece != seq!['.'] && piece != seq!['.', '.'] ==> paths::components(
            piece,
        ) == seq![Component::Normal(piece)],
{
    lemma_single_piece(piece);
    reveal_with_fuel(paths::piece_components, 2);
    let ps = paths::pieces(piece);
    assert(ps[0] == piece);
}

/// A slash alone is the root.
pub proof fn law_root()
    ensures
        paths::components(seq!['/']) == seq![Component::RootDir],
{
    let e = Seq::<char>::empty();
    let two = seq![e, e];
    split::lemma_join_first(two, seq!['/']);
    assert(split::join(two, seq!['/']) =~= seq!['/']);
    text_laws::law_split_of_join(two, '/');
    reveal_with_fuel(paths::piece_components, 3);
    assert(paths::piece_component(two, 0) == Some(Component::RootDir));
    assert(paths::piece_component(two, 1) is None);
    assert(paths::components(seq!['/']) =~= seq![Component::RootDir]);
}

/// What follows a further slash adds one component, unless it is nothing or a dot.
pub proof fn law_component_added(path: Seq<char>, piece: Seq<char>)
    requires
        path.len() > 0,
        !piece.contains('/'),
    ensures
        ({
            let longer = paths::components(path + seq!['/'] + piece);
            if piece.len() == 0 || piece == seq!['.'] {
                longer == paths::components(path)
            } else if piece == seq!['.', '.'] {
                longer == paths::components(path).push(Component::ParentDir)
            } else {
                longer == paths::components(path).push(Component::Normal(piece))
            }
        }),
{
    split::law_split_join(path, '/');
    let ps = paths::pieces(path);
    let all = ps.push(piece);
    let n = ps.len() as int;
    assert(all.drop_last() =~= ps);
    assert(split::join(all, seq!['/']) == path + seq!['/'] + piece);
    assert forall|i: int| 0 <= i < all.len() implies !(#[trigger] all[i]).contains('/') by {
        if i < n {
            assert(all[i] == ps[i]);
        }
    }
    text_laws::law_split_of_join(all, '/');
    assert forall|i: int| 0 <= i < n implies #[trigger] paths::piece_component(all, i)
        == paths::piece_component(ps, i) by {
        assert(all[i] == ps[i]);
        if n == 1 {
            assert(ps[0] == path);
        }
    }
    paths::lemma_same_components(all, ps, n);
    assert(all[n] == piece);
}

/// The file name is the last component, where that is a name.
pub proof fn law_file_name(path: Seq<char>)
    ensures
        paths::file_name(path) is Some <==> (paths::components(path).len() > 0
            && paths::components(path).last() is Normal),
        paths::file_name(path) matches Some(name) ==> paths::components(path).last()
            == Component::Normal(name),
{
}

/// The name behind the last slash of a path is its file name.
pub proof fn law_file_name_of(path: Seq<char>, name: Seq<char>)
    requires
        !name.contains('/'),
        name.len() > 0,
        name != seq!['.'],
        name != seq!['.', '.'],
    ensures
        paths::file_name(name) == Some(name),
        path.len() > 0 ==> paths::file_name(path + seq!['/'] + name) == Some(name),
{
    law_single_component(name);
    if path.len() > 0 {
        law_component_added(path, name);
    }
}

/// What follows the last dot of a file name is its extension, unless the dot stands at the front.
pub proof fn law_extension(path: Seq<char>, stem: Seq<char>, ext: Seq<char>)
    requires
        paths::file_name(path) == Some(stem + seq!['.'] + ext),
        !ext.contains('.'),
    ensures
        stem.len() > 0 ==> paths::extension(path) == Some(ext),
        stem.len() == 0 ==> paths::extension(path) is None,
{
    let name = stem + seq!['.'] + ext;
    split::law_split_join(stem, '.');
    let parts = split::split(stem, '.');
    let all = parts.push(ext);
    assert(all.drop_last() =~= parts);
    assert(split::join(all, seq!['.']) == name);
    assert forall|i: int| 0 <= i < all.len() implies !(#[trigger] all[i]).contains('.') by {
        if i < parts.len() {
            assert(all[i] == parts[i]);
        }
    }
    text_laws::law_split_of_join(all, '.');
    if stem.len() == 0 {
        if parts.len() > 1 {
            split::lemma_join_first(parts, seq!['.']);
            assert(stem.len() >= 1);
        }
        assert(parts[0] == stem);
    } else if parts.len() == 1 {
        assert(parts[0] == stem);
    }
}

/// A file name without a dot has no extension.
pub proof fn law_no_extension(path: Seq<char>)
    requires
        paths::file_name(path) matches Some(name) ==> !name.contains('.'),
    ensures
        paths::extension(path) is None,
{
    if let Some(name) = paths::file_name(path) {
        text_laws::law_split_of_join(seq![name], '.');
    }
}

// ---------------------------------------------------------------------------
// Parts of a path, as they are written

/// Whether a path starts and ends with a component: neither with a slash, nor with a dot that does
/// not count.
pub open spec fn tight(path: Seq<char>) -> bool {
    let ps = split::split(path, '/');
    &&& ps[0].len() > 0
    &&& ps.last().len() > 0
    &&& ps.len() > 1 ==> ps[0] != seq!['.'] && ps.last() != seq!['.']
    &&& ps[0] != seq!['.']
}

proof fn lemma_pieces_joined(a: Seq<char>, b: Seq<char>)
    ensures
        paths::pieces(a + seq!['/'] + b) == paths::pieces(a) + paths::pieces(b),
{
    split::law_split_join(a, '/');
    split::law_split_join(b, '/');
    let x = paths::pieces(a);
    let y = paths::pieces(b);
    let all = x + y;
    text_laws::law_join_parts(x, y, seq!['/']);
    assert forall|i: int| 0 <= i < all.len() implies !(#[trigger] all[i]).contains('/') by {
        if i < x.len() {
            assert(all[i] == x[i]);
        } else {
            assert(all[i] == y[i - x.len()]);
        }
    }
    text_laws::law_split_of_join(all, '/');
}

/// The path around a component is what is written before it.
pub proof fn law_parent_text(path: Seq<char>, name: Seq<char>)
    requires
        tight(path),
        !name.contains('/'),
        name.len() > 0,
        name != seq!['.'],
    ensures
        paths::parent(path + seq!['/'] + name) == Some(path),
{
    lemma_pieces_joined(path, name);
    lemma_single_piece(name);
    split::law_split_join(path, '/');
    let ps = paths::pieces(path);
    let all = ps + seq![name];
    let n = ps.len() as int;
    assert(all[n] == name);
    assert(all[n - 1] == ps.last());
    assert(paths::piece_component(all, n) is Some);
    assert(paths::piece_component(all, n) != Some(Component::RootDir));
    assert(paths::piece_component(all, n - 1) is Some);
    assert(paths::trimmed(all, n + 1) == n + 1);
    assert(paths::trimmed(all, n) == n);
    assert(all.take(n) =~= ps);
    assert(all[0] == ps[0]);
}

proof fn lemma_holding_from(ps: Seq<Seq<char>>, n: nat, k: int, m: int)
    requires
        0 <= k <= m <= ps.len(),
        m > 0,
        paths::piece_components(ps, m).len() == n,
        paths::piece_components(ps, m - 1).len() < n,
    ensures
        paths::holding(ps, n, k) == m,
    decreases m - k,
{
    if k < m {
        paths::lemma_components_grow(ps, k, m - 1);
        lemma_holding_from(ps, n, k + 1, m);
    }
}

/// What is left of a path once a base is taken off is what is written behind the base.
pub proof fn law_strip_prefix_text(base: Seq<char>, rest: Seq<char>)
    requires
        tight(base),
        tight(rest),
    ensures
        paths::strip_prefix(base + seq!['/'] + rest, base) == Some(rest),
{
    lemma_pieces_joined(base, rest);
    split::law_split_join(base, '/');
    split::law_split_join(rest, '/');
    let b = paths::pieces(base);
    let r = paths::pieces(rest);
    let all = b + r;
    let n = b.len() as int;
    let m = all.len() as int;
    let path = base + seq!['/'] + rest;
    assert forall|i: int| 0 <= i < n implies #[trigger] paths::piece_component(all, i)
        == paths::piece_component(b, i) by {
        assert(all[i] == b[i]);
    }
    paths::lemma_same_components(all, b, n);
    paths::lemma_components_grow(all, n, m);
    let count = paths::components(base).len();
    assert(paths::piece_components(all, n) == paths::components(base));
    assert(paths::components(base).is_prefix_of(paths::components(path)));
    assert(all[n - 1] == b.last());
    assert(paths::piece_component(all, n - 1) is Some);
    assert(paths::piece_components(all, n).len() == paths::piece_components(all, n - 1).len() + 1);
    lemma_holding_from(all, count, 0, n);
    assert(all[m - 1] == r.last());
    assert(paths::piece_component(all, m - 1) is Some);
    assert(paths::trimmed(all, m) == m);
    assert(all[n] == r[0]);
    assert(paths::piece_component(all, n) is Some);
    assert(paths::next_component(all, n, m) == n);
    assert(all.subrange(n, m) =~= r);
}

} // verus!
