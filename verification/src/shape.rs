//! When two expressions have the same positions: as many of them, with
//! the same leaves, the same first and last positions and the same pairs
//! of positions that follow each other. Nesting concatenations and
//! alternations otherwise changes none of these.

use crate::agree::{alt, cat, wrap};
use crate::parse::{Hir, MAX_VARS};
use crate::position::{cross, first, follow, last, leaves, nullable, size, Leaf};
use vstd::prelude::*;

verus! {

/// The first positions, the last positions and the pairs of two
/// expressions are the same, where both are numbered from `off + 1` on.
pub open spec fn sets_same(x: Hir, y: Hir, off: int) -> bool {
    first(x, off) == first(y, off) && last(x, off) == last(y, off) && follow(x, off) == follow(y, off)
}

/// Two expressions have the same positions.
pub open spec fn twin(x: Hir, y: Hir) -> bool {
    &&& size(x) == size(y)
    &&& nullable(x) == nullable(y)
    &&& leaves(x) == leaves(y)
    &&& forall|off: int| #[trigger] sets_same(x, y, off)
}

/// The expression has no position and matches the empty word.
pub open spec fn void(x: Hir) -> bool {
    twin(x, Hir::Empty)
}

/// Two leaves are alike: the same ranges, or the markers that open, or
/// that close, the groups of one name.
pub open spec fn leaf_alike(l1: Leaf, n1: Seq<String>, l2: Leaf, n2: Seq<String>) -> bool {
    match (l1, l2) {
        (Leaf::Ranges(r1), Leaf::Ranges(r2)) => r1 == r2,
        (Leaf::Marker(m1), Leaf::Marker(m2)) => m1 % 2 == m2 % 2 && m1 / 2 < n1.len() && m2 / 2 < n2.len() && n1[(m1
            / 2) as int]@ == n2[(m2 / 2) as int]@,
        _ => false,
    }
}

/// Two lists of leaves are alike, leaf by leaf.
pub open spec fn leaves_alike(s1: Seq<Leaf>, n1: Seq<String>, s2: Seq<Leaf>, n2: Seq<String>) -> bool {
    &&& s1.len() == s2.len()
    &&& forall|t: int| 0 <= t < s1.len() ==> leaf_alike(#[trigger] s1[t], n1, s2[t], n2)
}

/// Two expressions, whose variables may be numbered differently, have the
/// same positions, with leaves that are alike.
pub open spec fn kin(x: Hir, n1: Seq<String>, y: Hir, n2: Seq<String>) -> bool {
    &&& size(x) == size(y)
    &&& nullable(x) == nullable(y)
    &&& leaves_alike(leaves(x), n1, leaves(y), n2)
    &&& forall|off: int| #[trigger] sets_same(x, y, off)
}

/// An expression has the positions that it has.
pub proof fn lemma_twin_self(x: Hir)
    ensures
        twin(x, x),
{
    assert forall|off: int| #[trigger] sets_same(x, x, off) by {}
}

/// Having the same positions goes both ways.
pub proof fn lemma_twin_sym(x: Hir, y: Hir)
    requires
        twin(x, y),
    ensures
        twin(y, x),
{
    assert forall|off: int| #[trigger] sets_same(y, x, off) by {
        assert(sets_same(x, y, off));
    }
}

/// Having the same positions carries over a third expression.
pub proof fn lemma_twin_trans(x: Hir, y: Hir, z: Hir)
    requires
        twin(x, y),
        twin(y, z),
    ensures
        twin(x, z),
{
    assert forall|off: int| #[trigger] sets_same(x, z, off) by {
        assert(sets_same(x, y, off));
        assert(sets_same(y, z, off));
    }
}

/// Concatenation keeps the positions of its left part.
pub proof fn lemma_twin_cat(l: Hir, l2: Hir, r: Hir)
    requires
        twin(l, l2),
    ensures
        twin(cat(l, r), cat(l2, r)),
{
    assert forall|off: int| #[trigger] sets_same(cat(l, r), cat(l2, r), off) by {
        assert(sets_same(l, l2, off));
    }
}

/// Alternation keeps the positions of its left part.
pub proof fn lemma_twin_alt(l: Hir, l2: Hir, r: Hir)
    requires
        twin(l, l2),
    ensures
        twin(alt(l, r), alt(l2, r)),
{
    assert forall|off: int| #[trigger] sets_same(alt(l, r), alt(l2, r), off) by {
        assert(sets_same(l, l2, off));
    }
}

/// An expression without positions changes nothing in front of another
/// or behind it.
pub proof fn lemma_twin_unit(e: Hir, a: Hir)
    requires
        void(e),
    ensures
        twin(cat(e, a), a),
        twin(cat(a, e), a),
        void(a) ==> void(cat(e, a)),
{
    assert(leaves(Hir::Empty) =~= Seq::<Leaf>::empty());
    assert(leaves(cat(e, a)) =~= leaves(a));
    assert(leaves(cat(a, e)) =~= leaves(a));
    assert forall|off: int| #[trigger] sets_same(cat(e, a), a, off) by {
        assert(sets_same(e, Hir::Empty, off));
        assert(first(cat(e, a), off) =~= first(a, off));
        assert(last(cat(e, a), off) =~= last(a, off));
        assert(follow(cat(e, a), off) =~= follow(a, off));
    }
    assert forall|off: int| #[trigger] sets_same(cat(a, e), a, off) by {
        assert(sets_same(e, Hir::Empty, off + size(a)));
        assert(first(cat(a, e), off) =~= first(a, off));
        assert(last(cat(a, e), off) =~= last(a, off));
        assert(follow(cat(a, e), off) =~= follow(a, off));
    }
    if void(a) {
        lemma_twin_trans(cat(e, a), a, Hir::Empty);
    }
}

/// How concatenations are nested changes no position.
pub proof fn lemma_twin_assoc(a: Hir, b: Hir, c: Hir)
    ensures
        twin(cat(cat(a, b), c), cat(a, cat(b, c))),
{
    let x = cat(cat(a, b), c);
    let y = cat(a, cat(b, c));
    assert(size(cat(a, b)) == size(a) + size(b));
    assert(size(cat(b, c)) == size(b) + size(c));
    assert(nullable(cat(a, b)) == (nullable(a) && nullable(b)));
    assert(nullable(cat(b, c)) == (nullable(b) && nullable(c)));
    assert(leaves(cat(a, b)) == leaves(a) + leaves(b));
    assert(leaves(cat(b, c)) == leaves(b) + leaves(c));
    assert(leaves(x) =~= leaves(y));
    assert forall|off: int| #[trigger] sets_same(x, y, off) by {
        let ob = off + size(a);
        let oc = off + size(a) + size(b);
        assert(first(cat(a, b), off) == if nullable(a) {
            first(a, off).union(first(b, ob))
        } else {
            first(a, off)
        });
        assert(first(cat(b, c), ob) == if nullable(b) {
            first(b, ob).union(first(c, oc))
        } else {
            first(b, ob)
        });
        assert(last(cat(a, b), off) == if nullable(b) {
            last(b, ob).union(last(a, off))
        } else {
            last(b, ob)
        });
        assert(last(cat(b, c), ob) == if nullable(c) {
            last(c, oc).union(last(b, ob))
        } else {
            last(c, oc)
        });
        assert(follow(cat(a, b), off) == follow(a, off).union(follow(b, ob)).union(
            cross(last(a, off), first(b, ob)),
        ));
        assert(follow(cat(b, c), ob) == follow(b, ob).union(follow(c, oc)).union(cross(last(b, ob), first(c, oc))));
        assert(first(x, off) =~= first(y, off));
        assert(last(x, off) =~= last(y, off));
        assert(follow(x, off) =~= follow(y, off));
    }
}

/// How alternations are nested changes no position.
pub proof fn lemma_twin_alt_assoc(a: Hir, b: Hir, c: Hir)
    ensures
        twin(alt(alt(a, b), c), alt(a, alt(b, c))),
{
    let x = alt(alt(a, b), c);
    let y = alt(a, alt(b, c));
    assert(size(alt(a, b)) == size(a) + size(b));
    assert(size(alt(b, c)) == size(b) + size(c));
    assert(nullable(alt(a, b)) == (nullable(a) || nullable(b)));
    assert(nullable(alt(b, c)) == (nullable(b) || nullable(c)));
    assert(leaves(alt(a, b)) == leaves(a) + leaves(b));
    assert(leaves(alt(b, c)) == leaves(b) + leaves(c));
    assert(leaves(x) =~= leaves(y));
    assert forall|off: int| #[trigger] sets_same(x, y, off) by {
        let ob = off + size(a);
        let oc = off + size(a) + size(b);
        assert(first(alt(a, b), off) == first(a, off).union(first(b, ob)));
        assert(first(alt(b, c), ob) == first(b, ob).union(first(c, oc)));
        assert(last(alt(a, b), off) == last(a, off).union(last(b, ob)));
        assert(last(alt(b, c), ob) == last(b, ob).union(last(c, oc)));
        assert(follow(alt(a, b), off) == follow(a, off).union(follow(b, ob)));
        assert(follow(alt(b, c), ob) == follow(b, ob).union(follow(c, oc)));
        assert(first(x, off) =~= first(y, off));
        assert(last(x, off) =~= last(y, off));
        assert(follow(x, off) =~= follow(y, off));
    }
}

/// Lists of leaves that are alike piece by piece are alike.
pub proof fn lemma_leaves_concat(
    u1: Seq<Leaf>,
    v1: Seq<Leaf>,
    n1: Seq<String>,
    u2: Seq<Leaf>,
    v2: Seq<Leaf>,
    n2: Seq<String>,
)
    requires
        leaves_alike(u1, n1, u2, n2),
        leaves_alike(v1, n1, v2, n2),
    ensures
        leaves_alike(u1 + v1, n1, u2 + v2, n2),
{
    assert forall|t: int| 0 <= t < (u1 + v1).len() implies leaf_alike(#[trigger] (u1 + v1)[t], n1, (u2 + v2)[t], n2) by {
        if t < u1.len() {
            assert(leaf_alike(u1[t], n1, u2[t], n2));
        } else {
            assert(leaf_alike(v1[t - u1.len()], n1, v2[t - u1.len()], n2));
        }
    }
}

/// Expressions without positions are kin.
pub proof fn lemma_kin_void(x: Hir, n1: Seq<String>, y: Hir, n2: Seq<String>)
    requires
        void(x),
        void(y),
    ensures
        kin(x, n1, y, n2),
{
    assert(leaves(Hir::Empty) =~= Seq::<Leaf>::empty());
    assert forall|off: int| #[trigger] sets_same(x, y, off) by {
        assert(sets_same(x, Hir::Empty, off));
        assert(sets_same(y, Hir::Empty, off));
    }
}

/// What has the same positions as kin is kin.
pub proof fn lemma_kin_twins(h1: Hir, x1: Hir, n1: Seq<String>, h2: Hir, x2: Hir, n2: Seq<String>)
    requires
        twin(h1, x1),
        kin(x1, n1, x2, n2),
        twin(h2, x2),
    ensures
        kin(h1, n1, h2, n2),
{
    assert forall|off: int| #[trigger] sets_same(h1, h2, off) by {
        assert(sets_same(h1, x1, off));
        assert(sets_same(x1, x2, off));
        assert(sets_same(h2, x2, off));
    }
}

/// Concatenations of kin are kin.
pub proof fn lemma_kin_cat(a1: Hir, b1: Hir, n1: Seq<String>, a2: Hir, b2: Hir, n2: Seq<String>)
    requires
        kin(a1, n1, a2, n2),
        kin(b1, n1, b2, n2),
    ensures
        kin(cat(a1, b1), n1, cat(a2, b2), n2),
{
    lemma_leaves_concat(leaves(a1), leaves(b1), n1, leaves(a2), leaves(b2), n2);
    assert forall|off: int| #[trigger] sets_same(cat(a1, b1), cat(a2, b2), off) by {
        assert(sets_same(a1, a2, off));
        assert(sets_same(b1, b2, off + size(a1)));
    }
}

/// Alternations of kin are kin.
pub proof fn lemma_kin_alt(a1: Hir, b1: Hir, n1: Seq<String>, a2: Hir, b2: Hir, n2: Seq<String>)
    requires
        kin(a1, n1, a2, n2),
        kin(b1, n1, b2, n2),
    ensures
        kin(alt(a1, b1), n1, alt(a2, b2), n2),
{
    lemma_leaves_concat(leaves(a1), leaves(b1), n1, leaves(a2), leaves(b2), n2);
    assert forall|off: int| #[trigger] sets_same(alt(a1, b1), alt(a2, b2), off) by {
        assert(sets_same(a1, a2, off));
        assert(sets_same(b1, b2, off + size(a1)));
    }
}

/// Kin with the same repetition signs behind them are kin.
pub proof fn lemma_kin_wrap(optional: bool, repeated: bool, x1: Hir, n1: Seq<String>, x2: Hir, n2: Seq<String>)
    requires
        kin(x1, n1, x2, n2),
    ensures
        kin(wrap(optional, repeated, x1), n1, wrap(optional, repeated, x2), n2),
{
    let h1 = wrap(optional, repeated, x1);
    let h2 = wrap(optional, repeated, x2);
    assert forall|off: int| #[trigger] sets_same(h1, h2, off) by {
        assert(sets_same(x1, x2, off));
    }
}

/// Groups of one name around kin are kin.
pub proof fn lemma_kin_label(v1: usize, x1: Hir, n1: Seq<String>, v2: usize, x2: Hir, n2: Seq<String>)
    requires
        kin(x1, n1, x2, n2),
        v1 < n1.len() <= MAX_VARS,
        v2 < n2.len() <= MAX_VARS,
        n1[v1 as int]@ == n2[v2 as int]@,
    ensures
        kin(Hir::Label(v1, Box::new(x1)), n1, Hir::Label(v2, Box::new(x2)), n2),
{
    let h1 = Hir::Label(v1, Box::new(x1));
    let h2 = Hir::Label(v2, Box::new(x2));
    let open1 = seq![Leaf::Marker((2 * v1) as usize)];
    let close1 = seq![Leaf::Marker((2 * v1 + 1) as usize)];
    let open2 = seq![Leaf::Marker((2 * v2) as usize)];
    let close2 = seq![Leaf::Marker((2 * v2 + 1) as usize)];
    assert(leaves_alike(open1, n1, open2, n2));
    assert(leaves_alike(close1, n1, close2, n2));
    lemma_leaves_concat(open1, leaves(x1), n1, open2, leaves(x2), n2);
    lemma_leaves_concat(open1 + leaves(x1), close1, n1, open2 + leaves(x2), close2, n2);
    assert forall|off: int| #[trigger] sets_same(h1, h2, off) by {
        assert(sets_same(x1, x2, off + 1));
    }
}

} // verus!
