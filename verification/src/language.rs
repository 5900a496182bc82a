//! What an expression stands for: the words that it matches, with the
//! markers of its groups where the groups open and close.

use crate::parse::Hir;
use vstd::prelude::*;

verus! {

/// A letter of a marked word: a character of the text, or the marker of a
/// group that opens or closes between two characters.
pub enum Sym {
    Char(char),
    Mark(usize),
}

/// The code point of `c` lies in one of the ranges, ends included.
pub open spec fn in_ranges(ranges: Seq<(u32, u32)>, c: char) -> bool {
    exists|i: int| 0 <= i < ranges.len() && (#[trigger] ranges[i]).0 <= c as u32 <= ranges[i].1
}

/// The expression `h` matches the marked word `w`. A group with the
/// variable `v` matches what its expression matches, with the marker `2 * v`
/// before and the marker `2 * v + 1` behind.
pub open spec fn lang(h: Hir, w: Seq<Sym>) -> bool
    decreases h, w.len(), 0int,
{
    match h {
        Hir::Empty => w.len() == 0,
        Hir::Class(ranges) => w.len() == 1 && (w[0] matches Sym::Char(c) && in_ranges(ranges@, c)),
        Hir::Concat(a, b) => exists|k: int| 0 <= k <= w.len() && lang(*a, #[trigger] w.take(k)) && lang(*b, w.skip(k)),
        Hir::Alternation(a, b) => lang(*a, w) || lang(*b, w),
        Hir::Option(a) => w.len() == 0 || lang(*a, w),
        Hir::Closure(a) => star(*a, w),
        Hir::Plus(a) => exists|k: int| 0 <= k <= w.len() && lang(*a, #[trigger] w.take(k)) && star(*a, w.skip(k)),
        Hir::Label(v, a) => w.len() >= 2 && w[0] == Sym::Mark((2 * v) as usize) && w.last() == Sym::Mark(
            (2 * v + 1) as usize,
        ) && lang(*a, w.subrange(1, w.len() - 1)),
    }
}

/// The marked word `w` is made of pieces, none of them empty, each of
/// which `a` matches.
pub open spec fn star(a: Hir, w: Seq<Sym>) -> bool
    decreases a, w.len(), 1int,
{
    w.len() == 0 || exists|k: int| 0 < k <= w.len() && lang(a, #[trigger] w.take(k)) && star(a, w.skip(k))
}

/// The characters of a marked word, in their order.
pub open spec fn chars_of(w: Seq<Sym>) -> Seq<char>
    decreases w.len(),
{
    if w.len() == 0 {
        Seq::empty()
    } else {
        match w.last() {
            Sym::Char(c) => chars_of(w.drop_last()).push(c),
            Sym::Mark(_) => chars_of(w.drop_last()),
        }
    }
}

/// The markers of a marked word, each with the position at which the
/// text stands where the marker is passed, for a word that begins behind
/// `base` characters of the text: `positions[l]` is where the text stands
/// behind `l` characters.
pub open spec fn pairs_from(w: Seq<Sym>, positions: Seq<usize>, base: int) -> Set<(usize, usize)>
    decreases w.len(),
{
    if w.len() == 0 {
        Set::empty()
    } else {
        match w.last() {
            Sym::Char(_) => pairs_from(w.drop_last(), positions, base),
            Sym::Mark(m) => pairs_from(w.drop_last(), positions, base).insert(
                (m, positions[base + chars_of(w.drop_last()).len()]),
            ),
        }
    }
}

/// The markers of a marked word, each with the position at which the
/// text stands where the marker is passed.
pub open spec fn pairs_of(w: Seq<Sym>, positions: Seq<usize>) -> Set<(usize, usize)> {
    pairs_from(w, positions, 0)
}

/// The characters of two words, one behind the other.
pub proof fn lemma_chars_concat(u: Seq<Sym>, v: Seq<Sym>)
    ensures
        chars_of(u + v) == chars_of(u) + chars_of(v),
    decreases v.len(),
{
    if v.len() == 0 {
        assert(u + v =~= u);
        assert(chars_of(u) + chars_of(v) =~= chars_of(u));
    } else {
        let all = u + v;
        assert(all.drop_last() =~= u + v.drop_last());
        assert(all.last() == v.last());
        lemma_chars_concat(u, v.drop_last());
        match v.last() {
            Sym::Char(c) => {
                assert(chars_of(all) =~= chars_of(u) + chars_of(v));
            },
            Sym::Mark(_) => {},
        }
    }
}

/// The markers of two words, one behind the other.
pub proof fn lemma_pairs_concat(u: Seq<Sym>, v: Seq<Sym>, positions: Seq<usize>, base: int)
    ensures
        pairs_from(u + v, positions, base) == pairs_from(u, positions, base).union(
            pairs_from(v, positions, base + chars_of(u).len()),
        ),
    decreases v.len(),
{
    let all = u + v;
    let later = base + chars_of(u).len();
    if v.len() == 0 {
        assert(all =~= u);
        assert(pairs_from(all, positions, base) =~= pairs_from(u, positions, base).union(
            pairs_from(v, positions, later),
        ));
    } else {
        assert(all.drop_last() =~= u + v.drop_last());
        assert(all.last() == v.last());
        lemma_pairs_concat(u, v.drop_last(), positions, base);
        lemma_chars_concat(u, v.drop_last());
        assert(pairs_from(all, positions, base) =~= pairs_from(u, positions, base).union(
            pairs_from(v, positions, later),
        ));
    }
}

} // verus!
