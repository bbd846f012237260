//! Paths as bytes, compared component by component.
use vstd::prelude::*;

verus! {

pub const SEPARATOR: u8 = 47;

pub const DOT: u8 = 46;

/// What stands between the separators, first to last; empty pieces included.
pub open spec fn pieces(path: Seq<u8>) -> Seq<Seq<u8>>
    decreases path.len(),
{
    if path.len() == 0 {
        seq![Seq::empty()]
    } else {
        let before = pieces(path.drop_last());
        if path.last() == SEPARATOR {
            before.push(Seq::empty())
        } else {
            before.update(before.len() - 1, before.last().push(path.last()))
        }
    }
}

/// The piece at position `k` is a component: not empty, and not a `.` behind the first position.
pub open spec fn is_component(piece: Seq<u8>, k: int) -> bool {
    piece.len() > 0 && (piece != seq![DOT] || k == 0)
}

/// Those of the pieces that are components.
pub open spec fn kept(all: Seq<Seq<u8>>) -> Seq<Seq<u8>>
    decreases all.len(),
{
    if all.len() == 0 {
        Seq::empty()
    } else if is_component(all.last(), all.len() - 1) {
        kept(all.drop_last()).push(all.last())
    } else {
        kept(all.drop_last())
    }
}

pub open spec fn is_absolute(path: Seq<u8>) -> bool {
    path.len() > 0 && path[0] == SEPARATOR
}

/// The components of a path; that of the root comes first. Repeated separators, one at the end, and
/// a `.` that does not begin the path make no difference.
pub open spec fn components(path: Seq<u8>) -> Seq<Seq<u8>> {
    if is_absolute(path) {
        seq![seq![SEPARATOR]] + kept(pieces(path))
    } else {
        kept(pieces(path))
    }
}

/// `path` is `base`, or lies somewhere below it.
pub open spec fn lies_under(path: Seq<u8>, base: Seq<u8>) -> bool {
    components(base).is_prefix_of(components(path))
}

pub open spec fn piece_views(all: Seq<Vec<u8>>) -> Seq<Seq<u8>> {
    Seq::new(all.len(), |k: int| all[k]@)
}

proof fn lemma_pieces_nonempty(path: Seq<u8>)
    ensures
        pieces(path).len() > 0,
    decreases path.len(),
{
    if path.len() > 0 {
        lemma_pieces_nonempty(path.drop_last());
    }
}

fn same_bytes(a: &Vec<u8>, b: &Vec<u8>) -> (yes: bool)
    ensures
        yes == (a@ == b@),
{
    if a.len() != b.len() {
        return false;
    }
    let mut i: usize = 0;
    while i < a.len()
        invariant
            a.len() == b.len(),
            i <= a.len(),
            forall|k: int| 0 <= k < i ==> a@[k] == b@[k],
        decreases a.len() - i,
    {
        if a[i] != b[i] {
            return false;
        }
        i += 1;
    }
    assert(a@ =~= b@);
    true
}

/// Append a piece if it is a component.
fn keep_piece(out: &mut Vec<Vec<u8>>, piece: Vec<u8>, k: usize)
    ensures
        piece_views(final(out)@) == if is_component(piece@, k as int) {
            piece_views(old(out)@).push(piece@)
        } else {
            piece_views(old(out)@)
        },
{
    let is_dot = piece.len() == 1 && piece[0] == DOT;
    assert(is_dot == (piece@ == seq![DOT])) by {
        if is_dot {
            assert(piece@ =~= seq![DOT]);
        }
    }
    if piece.len() > 0 && (!is_dot || k == 0) {
        let ghost p = piece@;
        let ghost before = out@;
        out.push(piece);
        assert(piece_views(out@) =~= piece_views(before).push(p));
    }
}

fn split(path: &Vec<u8>) -> (out: Vec<Vec<u8>>)
    ensures
        piece_views(out@) == components(path@),
{
    let mut out: Vec<Vec<u8>> = Vec::new();
    let ghost mut head = Seq::<Seq<u8>>::empty();
    assert(piece_views(out@) =~= Seq::empty());
    if path.len() > 0 && path[0] == SEPARATOR {
        let mut root: Vec<u8> = Vec::new();
        root.push(SEPARATOR);
        assert(root@ =~= seq![SEPARATOR]);
        out.push(root);
        proof {
            head = seq![seq![SEPARATOR]];
            assert(piece_views(out@) =~= head);
        }
    }
    let mut piece: Vec<u8> = Vec::new();
    let mut k: usize = 0;
    let mut i: usize = 0;
    proof {
        assert(path@.take(0) =~= Seq::empty());
        assert(pieces(path@.take(0)).drop_last() =~= Seq::empty());
        assert(head + kept(Seq::empty()) =~= head);
        assert(piece@ =~= Seq::empty());
    }
    while i < path.len()
        invariant
            i <= path.len(),
            k <= i,
            k == pieces(path@.take(i as int)).len() - 1,
            piece@ == pieces(path@.take(i as int)).last(),
            piece_views(out@) == head + kept(pieces(path@.take(i as int)).drop_last()),
        decreases path.len() - i,
    {
        let ghost so_far = pieces(path@.take(i as int));
        proof {
            assert(path@.take(i as int + 1).drop_last() =~= path@.take(i as int));
            lemma_pieces_nonempty(path@.take(i as int));
        }
        if path[i] == SEPARATOR {
            let ghost done = piece@;
            keep_piece(&mut out, piece, k);
            piece = Vec::new();
            k += 1;
            proof {
                let next = pieces(path@.take(i as int + 1));
                assert(next =~= so_far.push(Seq::empty()));
                assert(next.drop_last() =~= so_far);
                assert(piece@ =~= Seq::empty());
                assert(so_far.last() == done);
                assert(piece_views(out@) =~= head + kept(so_far));
            }
        } else {
            piece.push(path[i]);
            proof {
                let next = pieces(path@.take(i as int + 1));
                assert(next.drop_last() =~= so_far.drop_last());
            }
        }
        i += 1;
    }
    let ghost all = pieces(path@);
    proof {
        assert(path@.take(i as int) =~= path@);
        lemma_pieces_nonempty(path@);
    }
    let ghost last = piece@;
    keep_piece(&mut out, piece, k);
    proof {
        assert(all.last() == last);
        assert(piece_views(out@) =~= head + kept(all));
        if !is_absolute(path@) {
            assert(head + kept(all) =~= kept(all));
        }
    }
    out
}

/// Whether `path` is `base` or lies below it, component by component.
pub fn starts_with(path: &Vec<u8>, base: &Vec<u8>) -> (yes: bool)
    ensures
        yes == lies_under(path@, base@),
{
    let a = split(path);
    let b = split(base);
    let ghost whole = piece_views(a@);
    let ghost part = piece_views(b@);
    if b.len() > a.len() {
        return false;
    }
    let mut i: usize = 0;
    while i < b.len()
        invariant
            i <= b.len() <= a.len(),
            whole == piece_views(a@),
            part == piece_views(b@),
            whole == components(path@),
            part == components(base@),
            forall|k: int| 0 <= k < i ==> #[trigger] whole[k] == part[k],
        decreases b.len() - i,
    {
        if !same_bytes(&a[i], &b[i]) {
            assert(whole[i as int] != part[i as int]);
            assert(part.is_prefix_of(whole) ==> whole.subrange(0, part.len() as int)[i as int]
                == part[i as int]);
            return false;
        }
        i += 1;
    }
    assert(whole.subrange(0, part.len() as int) =~= part);
    true
}

/// Everything lies under itself, and what lies under something that lies under a base lies under
/// the base.
pub proof fn law_lies_under_is_an_order(a: Seq<u8>, b: Seq<u8>, c: Seq<u8>)
    ensures
        lies_under(a, a),
        lies_under(a, b) && lies_under(b, c) ==> lies_under(a, c),
{
    let (x, y, z) = (components(a), components(b), components(c));
    assert(x.subrange(0, x.len() as int) =~= x);
    if y.is_prefix_of(x) && z.is_prefix_of(y) {
        assert(x.subrange(0, z.len() as int) =~= y.subrange(0, z.len() as int));
    }
}

proof fn lemma_pieces_behind(p: Seq<u8>, name: Seq<u8>)
    requires
        forall|k: int| 0 <= k < name.len() ==> #[trigger] name[k] != SEPARATOR,
    ensures
        pieces(p.push(SEPARATOR) + name) == pieces(p).push(name),
    decreases name.len(),
{
    let all = p.push(SEPARATOR) + name;
    if name.len() == 0 {
        assert(all =~= p.push(SEPARATOR));
        assert(all.drop_last() =~= p);
        assert(name =~= Seq::empty());
    } else {
        let less = name.drop_last();
        lemma_pieces_behind(p, less);
        assert(all.drop_last() =~= p.push(SEPARATOR) + less);
        let before = pieces(all.drop_last());
        assert(less.push(name.last()) =~= name);
        assert(before.update(before.len() - 1, name) =~= pieces(p).push(name));
    }
}

/// What stands in a directory has the components of the directory, and then its own name.
pub proof fn law_names_are_components(p: Seq<u8>, name: Seq<u8>)
    requires
        p.len() > 0,
        name.len() > 0,
        name != seq![DOT],
        forall|k: int| 0 <= k < name.len() ==> #[trigger] name[k] != SEPARATOR,
    ensures
        components(p.push(SEPARATOR) + name) == components(p).push(name),
{
    lemma_pieces_behind(p, name);
    lemma_some_piece(p);
    let all = p.push(SEPARATOR) + name;
    assert(pieces(all).drop_last() =~= pieces(p));
    assert(all[0] == p[0]);
    assert(components(all) =~= components(p).push(name));
}

proof fn lemma_some_piece(p: Seq<u8>)
    ensures
        pieces(p).len() > 0,
    decreases p.len(),
{
    if p.len() > 0 {
        lemma_some_piece(p.drop_last());
    }
}

/// What stands in a directory lies under it, at any depth; what stands beside it does not, also where
/// its name begins with the name of the directory, and the directory does not lie under what is in it.
pub proof fn law_siblings_lie_apart(p: Seq<u8>, name: Seq<u8>, other: Seq<u8>, inner: Seq<u8>)
    requires
        p.len() > 0,
        name.len() > 0 && other.len() > 0 && inner.len() > 0,
        name != seq![DOT] && other != seq![DOT] && inner != seq![DOT],
        forall|k: int| 0 <= k < name.len() ==> #[trigger] name[k] != SEPARATOR,
        forall|k: int| 0 <= k < other.len() ==> #[trigger] other[k] != SEPARATOR,
        forall|k: int| 0 <= k < inner.len() ==> #[trigger] inner[k] != SEPARATOR,
    ensures
        ({
            let dir = p.push(SEPARATOR) + name;
            let beside = p.push(SEPARATOR) + other;
            let within = dir.push(SEPARATOR) + inner;
            let elsewhere = beside.push(SEPARATOR) + inner;
            &&& lies_under(dir, p)
            &&& lies_under(within, dir)
            &&& lies_under(within, p)
            &&& !lies_under(dir, within)
            &&& !lies_under(p, dir)
            &&& other != name ==> !lies_under(beside, dir) && !lies_under(elsewhere, dir)
        }),
{
    let dir = p.push(SEPARATOR) + name;
    let beside = p.push(SEPARATOR) + other;
    let within = dir.push(SEPARATOR) + inner;
    let elsewhere = beside.push(SEPARATOR) + inner;
    law_names_are_components(p, name);
    law_names_are_components(p, other);
    law_names_are_components(dir, inner);
    law_names_are_components(beside, inner);
    let n = components(p).len() as int;
    assert(components(dir)[n] == name);
    assert(components(beside)[n] == other);
    assert(components(elsewhere)[n] == other);
    if other != name && lies_under(beside, dir) {
        assert(components(dir)[n] == components(beside)[n]);
    }
    if other != name && lies_under(elsewhere, dir) {
        assert(components(dir)[n] == components(elsewhere)[n]);
    }
}

/// A separator at the end of a path makes no difference, nor do two of them in a row, nor a `.` behind
/// the beginning.
pub proof fn law_empty_steps_make_no_difference(p: Seq<u8>)
    requires
        p.len() > 0,
    ensures
        components(p.push(SEPARATOR)) == components(p),
        components(p.push(SEPARATOR).push(SEPARATOR)) == components(p),
        components(p.push(SEPARATOR).push(DOT)) == components(p),
{
    let none = Seq::<u8>::empty();
    let once = p.push(SEPARATOR);
    lemma_some_piece(p);
    lemma_pieces_behind(p, none);
    assert(once + none =~= once);
    assert(pieces(once).drop_last() =~= pieces(p));
    assert(once[0] == p[0]);
    lemma_pieces_behind(once, none);
    assert(once.push(SEPARATOR) + none =~= once.push(SEPARATOR));
    assert(pieces(once.push(SEPARATOR)).drop_last() =~= pieces(once));
    assert(once.push(SEPARATOR)[0] == p[0]);
    lemma_pieces_behind(p, seq![DOT]);
    assert(once + seq![DOT] =~= once.push(DOT));
    assert(pieces(once.push(DOT)).drop_last() =~= pieces(p));
    assert(once.push(DOT)[0] == p[0]);
}

} // verus!
