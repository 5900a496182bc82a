//! The positions of an expression: its character classes and the markers of
//! its groups, numbered from left to right, with the positions at which its
//! words may begin and end and the pairs of positions that may follow each
//! other.

use crate::language::{in_ranges, lang, star, Sym};
use crate::parse::Hir;
use vstd::prelude::*;

verus! {

/// What stands at a position.
pub enum Leaf {
    Ranges(Seq<(u32, u32)>),
    Marker(usize),
}

/// The letter `s` can be read at a position where `leaf` stands.
pub open spec fn fits(leaf: Leaf, s: Sym) -> bool {
    match leaf {
        Leaf::Ranges(ranges) => s matches Sym::Char(c) && in_ranges(ranges, c),
        Leaf::Marker(m) => s == Sym::Mark(m),
    }
}

/// The number of positions of `h`.
pub open spec fn size(h: Hir) -> nat
    decreases h,
{
    match h {
        Hir::Empty => 0,
        Hir::Class(_) => 1,
        Hir::Concat(a, b) => size(*a) + size(*b),
        Hir::Alternation(a, b) => size(*a) + size(*b),
        Hir::Option(a) => size(*a),
        Hir::Closure(a) => size(*a),
        Hir::Plus(a) => size(*a),
        Hir::Label(_, a) => size(*a) + 2,
    }
}

/// What stands at the positions of `h`, from left to right.
pub open spec fn leaves(h: Hir) -> Seq<Leaf>
    decreases h,
{
    match h {
        Hir::Empty => Seq::empty(),
        Hir::Class(ranges) => seq![Leaf::Ranges(ranges@)],
        Hir::Concat(a, b) => leaves(*a) + leaves(*b),
        Hir::Alternation(a, b) => leaves(*a) + leaves(*b),
        Hir::Option(a) => leaves(*a),
        Hir::Closure(a) => leaves(*a),
        Hir::Plus(a) => leaves(*a),
        Hir::Label(v, a) => seq![Leaf::Marker((2 * v) as usize)] + leaves(*a) + seq![
            Leaf::Marker((2 * v + 1) as usize),
        ],
    }
}

/// Whether `h` matches the empty word.
pub open spec fn nullable(h: Hir) -> bool
    decreases h,
{
    match h {
        Hir::Empty => true,
        Hir::Class(_) => false,
        Hir::Concat(a, b) => nullable(*a) && nullable(*b),
        Hir::Alternation(a, b) => nullable(*a) || nullable(*b),
        Hir::Option(_) => true,
        Hir::Closure(_) => true,
        Hir::Plus(a) => nullable(*a),
        Hir::Label(_, _) => false,
    }
}

/// The pairs of an entry of `xs` and an entry of `ys`.
pub open spec fn cross(xs: Set<int>, ys: Set<int>) -> Set<(int, int)> {
    Set::new(|pr: (int, int)| xs.contains(pr.0) && ys.contains(pr.1))
}

/// The positions at which a word of `h` may begin, where the positions of
/// `h` are numbered from `off + 1` on.
pub open spec fn first(h: Hir, off: int) -> Set<int>
    decreases h,
{
    match h {
        Hir::Empty => Set::empty(),
        Hir::Class(_) => set![off + 1],
        Hir::Concat(a, b) => if nullable(*a) {
            first(*a, off).union(first(*b, off + size(*a)))
        } else {
            first(*a, off)
        },
        Hir::Alternation(a, b) => first(*a, off).union(first(*b, off + size(*a))),
        Hir::Option(a) => first(*a, off),
        Hir::Closure(a) => first(*a, off),
        Hir::Plus(a) => first(*a, off),
        Hir::Label(_, _) => set![off + 1],
    }
}

/// The positions at which a word of `h` may end.
pub open spec fn last(h: Hir, off: int) -> Set<int>
    decreases h,
{
    match h {
        Hir::Empty => Set::empty(),
        Hir::Class(_) => set![off + 1],
        Hir::Concat(a, b) => if nullable(*b) {
            last(*b, off + size(*a)).union(last(*a, off))
        } else {
            last(*b, off + size(*a))
        },
        Hir::Alternation(a, b) => last(*a, off).union(last(*b, off + size(*a))),
        Hir::Option(a) => last(*a, off),
        Hir::Closure(a) => last(*a, off),
        Hir::Plus(a) => last(*a, off),
        Hir::Label(_, a) => set![off + size(*a) + 2],
    }
}

/// The pairs of positions of which the second may follow the first in a
/// word of `h`.
pub open spec fn follow(h: Hir, off: int) -> Set<(int, int)>
    decreases h,
{
    match h {
        Hir::Empty => Set::empty(),
        Hir::Class(_) => Set::empty(),
        Hir::Concat(a, b) => follow(*a, off).union(follow(*b, off + size(*a))).union(
            cross(last(*a, off), first(*b, off + size(*a))),
        ),
        Hir::Alternation(a, b) => follow(*a, off).union(follow(*b, off + size(*a))),
        Hir::Option(a) => follow(*a, off),
        Hir::Closure(a) => follow(*a, off).union(cross(last(*a, off), first(*a, off))),
        Hir::Plus(a) => follow(*a, off).union(cross(last(*a, off), first(*a, off))),
        Hir::Label(_, a) => {
            let open = off + 1;
            let close = off + size(*a) + 2;
            let inner = follow(*a, off + 1).union(cross(set![open], first(*a, off + 1))).union(
                cross(last(*a, off + 1), set![close]),
            );
            if nullable(*a) {
                inner.insert((open, close))
            } else {
                inner
            }
        },
    }
}

/// `x` is one of the `n` positions that follow `off`.
pub open spec fn in_span(off: int, n: nat, x: int) -> bool {
    off < x <= off + n
}

/// The first and last positions of `h` and the positions of its pairs
/// lie in its span.
pub open spec fn spans_ok(h: Hir, off: int) -> bool {
    &&& leaves(h).len() == size(h)
    &&& forall|x: int| #[trigger] first(h, off).contains(x) ==> in_span(off, size(h), x)
    &&& forall|x: int| #[trigger] last(h, off).contains(x) ==> in_span(off, size(h), x)
    &&& forall|x: int, y: int| #[trigger]
        follow(h, off).contains((x, y)) ==> in_span(off, size(h), x) && in_span(off, size(h), y)
}

proof fn lemma_spans_two(h: Hir, a: Hir, b: Hir, off: int)
    requires
        h == Hir::Concat(Box::new(a), Box::new(b)) || h == Hir::Alternation(Box::new(a), Box::new(b)),
        spans_ok(a, off),
        spans_ok(b, off + size(a)),
    ensures
        spans_ok(h, off),
{
    assert(size(h) == size(a) + size(b));
    assert forall|x: int| #[trigger] first(h, off).contains(x) implies in_span(off, size(h), x) by {
        if first(a, off).contains(x) {
        } else {
            assert(first(b, off + size(a)).contains(x));
        }
    }
    assert forall|x: int| #[trigger] last(h, off).contains(x) implies in_span(off, size(h), x) by {
        if last(a, off).contains(x) {
        } else {
            assert(last(b, off + size(a)).contains(x));
        }
    }
    assert forall|x: int, y: int| #[trigger] follow(h, off).contains((x, y)) implies in_span(off, size(h), x)
        && in_span(off, size(h), y) by {
        if follow(a, off).contains((x, y)) {
        } else if follow(b, off + size(a)).contains((x, y)) {
        } else {
            assert(last(a, off).contains(x) && first(b, off + size(a)).contains(y));
        }
    }
}

proof fn lemma_spans_one(h: Hir, a: Hir, off: int)
    requires
        h == Hir::Option(Box::new(a)) || h == Hir::Closure(Box::new(a)) || h == Hir::Plus(Box::new(a)),
        spans_ok(a, off),
    ensures
        spans_ok(h, off),
{
    assert(size(h) == size(a));
    assert forall|x: int| #[trigger] first(h, off).contains(x) implies in_span(off, size(h), x) by {
        assert(first(a, off).contains(x));
    }
    assert forall|x: int| #[trigger] last(h, off).contains(x) implies in_span(off, size(h), x) by {
        assert(last(a, off).contains(x));
    }
    assert forall|x: int, y: int| #[trigger] follow(h, off).contains((x, y)) implies in_span(off, size(h), x)
        && in_span(off, size(h), y) by {
        if follow(a, off).contains((x, y)) {
        } else {
            assert(last(a, off).contains(x) && first(a, off).contains(y));
        }
    }
}

proof fn lemma_spans_label(h: Hir, v: usize, a: Hir, off: int)
    requires
        h == Hir::Label(v, Box::new(a)),
        spans_ok(a, off + 1),
    ensures
        spans_ok(h, off),
{
    let open = off + 1;
    let close = off + size(a) + 2;
    assert(size(h) == size(a) + 2);
    assert forall|x: int| #[trigger] first(h, off).contains(x) implies in_span(off, size(h), x) by {
        assert(x == open);
    }
    assert forall|x: int| #[trigger] last(h, off).contains(x) implies in_span(off, size(h), x) by {
        assert(x == close);
    }
    assert forall|x: int, y: int| #[trigger] follow(h, off).contains((x, y)) implies in_span(off, size(h), x)
        && in_span(off, size(h), y) by {
        if follow(a, off + 1).contains((x, y)) {
        } else if x == open && first(a, off + 1).contains(y) {
        } else if last(a, off + 1).contains(x) && y == close {
        } else {
            assert(x == open && y == close);
        }
    }
}

/// The positions of `h` lie in its span, and there is a leaf for each.
pub proof fn lemma_spans(h: Hir, off: int)
    ensures
        spans_ok(h, off),
    decreases h,
{
    match h {
        Hir::Empty => {
            assert(spans_ok(h, off));
        },
        Hir::Class(_) => {
            assert forall|x: int| #[trigger] first(h, off).contains(x) implies in_span(off, size(h), x) by {
                assert(x == off + 1);
            }
            assert forall|x: int| #[trigger] last(h, off).contains(x) implies in_span(off, size(h), x) by {
                assert(x == off + 1);
            }
            assert(spans_ok(h, off));
        },
        Hir::Concat(a, b) => {
            lemma_spans(*a, off);
            lemma_spans(*b, off + size(*a));
            lemma_spans_two(h, *a, *b, off);
        },
        Hir::Alternation(a, b) => {
            lemma_spans(*a, off);
            lemma_spans(*b, off + size(*a));
            lemma_spans_two(h, *a, *b, off);
        },
        Hir::Option(a) => {
            lemma_spans(*a, off);
            lemma_spans_one(h, *a, off);
        },
        Hir::Closure(a) => {
            lemma_spans(*a, off);
            lemma_spans_one(h, *a, off);
        },
        Hir::Plus(a) => {
            lemma_spans(*a, off);
            lemma_spans_one(h, *a, off);
        },
        Hir::Label(v, a) => {
            lemma_spans(*a, off + 1);
            lemma_spans_label(h, v, *a, off);
        },
    }
}

/// The `i`-th position of `ps` and the one behind it.
pub open spec fn pair_at(ps: Seq<int>, i: int) -> (int, int) {
    (ps[i], ps[i + 1])
}

/// `ps` begins in `firsts`, ends in `lasts`, and each of its positions is
/// followed by the next according to `steps`; or `ps` is empty and `empty`
/// holds.
pub open spec fn is_chain(firsts: Set<int>, lasts: Set<int>, steps: Set<(int, int)>, empty: bool, ps: Seq<int>) -> bool {
    if ps.len() == 0 {
        empty
    } else {
        &&& firsts.contains(ps[0])
        &&& lasts.contains(ps.last())
        &&& forall|i: int| 0 <= i < ps.len() - 1 ==> steps.contains(#[trigger] pair_at(ps, i))
    }
}

/// `ps` is the list of the positions of a word of `h`, as far as the
/// first and last positions and the pairs that follow each other tell.
pub open spec fn is_path(h: Hir, off: int, ps: Seq<int>) -> bool {
    is_chain(first(h, off), last(h, off), follow(h, off), nullable(h), ps)
}

/// `ps` is the list of the positions of pieces that `a` matches, one piece
/// behind the other.
pub open spec fn is_star_path(a: Hir, off: int, ps: Seq<int>) -> bool {
    is_chain(first(a, off), last(a, off), follow(a, off).union(cross(last(a, off), first(a, off))), true, ps)
}

/// The letters of `w` can be read at the positions `ps`, which are
/// positions of `h`.
pub open spec fn spells(h: Hir, off: int, ps: Seq<int>, w: Seq<Sym>) -> bool {
    &&& ps.len() == w.len()
    &&& forall|i: int|
        0 <= i < ps.len() ==> in_span(off, size(h), #[trigger] ps[i]) && fits(leaves(h)[ps[i] - off - 1], w[i])
}

/// `ps` lists the positions of a word of `h` at which `w` can be read.
pub open spec fn word_path(h: Hir, off: int, w: Seq<Sym>, ps: Seq<int>) -> bool {
    is_path(h, off, ps) && spells(h, off, ps, w)
}

/// `ps` lists the positions of pieces of `a`, one behind the other, at
/// which `w` can be read.
pub open spec fn star_word_path(a: Hir, off: int, w: Seq<Sym>, ps: Seq<int>) -> bool {
    is_star_path(a, off, ps) && spells(a, off, ps, w)
}

proof fn lemma_concat_path(h: Hir, a: Hir, b: Hir, off: int, w: Seq<Sym>, k: int, pa: Seq<int>, pb: Seq<int>)
    requires
        h == Hir::Concat(Box::new(a), Box::new(b)),
        spans_ok(a, off),
        spans_ok(b, off + size(a)),
        0 <= k <= w.len(),
        word_path(a, off, w.take(k), pa),
        word_path(b, off + size(a), w.skip(k), pb),
    ensures
        word_path(h, off, w, pa + pb),
{
    let ps = pa + pb;
    let offb = off + size(a);
    assert(size(h) == size(a) + size(b));
    assert(leaves(h) == leaves(a) + leaves(b));
    assert(spells(h, off, ps, w)) by {
        assert forall|i: int| 0 <= i < ps.len() implies in_span(off, size(h), #[trigger] ps[i]) && fits(
            leaves(h)[ps[i] - off - 1],
            w[i],
        ) by {
            if i < pa.len() {
                assert(ps[i] == pa[i]);
                assert(in_span(off, size(a), pa[i]));
                assert(w.take(k)[i] == w[i]);
                assert(leaves(h)[pa[i] - off - 1] == leaves(a)[pa[i] - off - 1]);
            } else {
                let i2 = i - pa.len();
                assert(ps[i] == pb[i2]);
                assert(in_span(offb, size(b), pb[i2]));
                assert(w.skip(k)[i2] == w[i]);
                assert(leaves(h)[pb[i2] - off - 1] == leaves(b)[pb[i2] - offb - 1]);
            }
        }
    }
    if ps.len() > 0 {
        if pa.len() > 0 {
            assert(ps[0] == pa[0]);
            assert(first(a, off).contains(pa[0]));
        } else {
            assert(ps[0] == pb[0]);
            assert(nullable(a));
            assert(first(b, offb).contains(pb[0]));
        }
        assert(first(h, off).contains(ps[0]));
        if pb.len() > 0 {
            assert(ps.last() == pb.last());
            assert(last(b, offb).contains(pb.last()));
        } else {
            assert(ps.last() == pa.last());
            assert(nullable(b));
            assert(last(a, off).contains(pa.last()));
        }
        assert(last(h, off).contains(ps.last()));
        assert forall|i: int| 0 <= i < ps.len() - 1 implies follow(h, off).contains(#[trigger] pair_at(ps, i)) by {
            if i + 1 < pa.len() {
                assert(pair_at(ps, i) == pair_at(pa, i));
                assert(follow(a, off).contains(pair_at(pa, i)));
            } else if i >= pa.len() {
                let i2 = i - pa.len();
                assert(pair_at(ps, i) == pair_at(pb, i2));
                assert(follow(b, offb).contains(pair_at(pb, i2)));
            } else {
                assert(pair_at(ps, i) == (pa.last(), pb[0]));
                assert(cross(last(a, off), first(b, offb)).contains((pa.last(), pb[0])));
            }
        }
    }
}

proof fn lemma_alt_path(h: Hir, a: Hir, b: Hir, off: int, w: Seq<Sym>, ps: Seq<int>, left: bool)
    requires
        h == Hir::Alternation(Box::new(a), Box::new(b)),
        spans_ok(a, off),
        spans_ok(b, off + size(a)),
        left ==> word_path(a, off, w, ps),
        !left ==> word_path(b, off + size(a), w, ps),
    ensures
        word_path(h, off, w, ps),
{
    let offb = off + size(a);
    assert(size(h) == size(a) + size(b));
    assert(leaves(h) == leaves(a) + leaves(b));
    assert(spells(h, off, ps, w)) by {
        assert forall|i: int| 0 <= i < ps.len() implies in_span(off, size(h), #[trigger] ps[i]) && fits(
            leaves(h)[ps[i] - off - 1],
            w[i],
        ) by {
            if left {
                assert(in_span(off, size(a), ps[i]));
                assert(leaves(h)[ps[i] - off - 1] == leaves(a)[ps[i] - off - 1]);
            } else {
                assert(in_span(offb, size(b), ps[i]));
                assert(leaves(h)[ps[i] - off - 1] == leaves(b)[ps[i] - offb - 1]);
            }
        }
    }
    if ps.len() > 0 {
        if left {
            assert(first(a, off).contains(ps[0]));
            assert(last(a, off).contains(ps.last()));
        } else {
            assert(first(b, offb).contains(ps[0]));
            assert(last(b, offb).contains(ps.last()));
        }
        assert(first(h, off).contains(ps[0]));
        assert(last(h, off).contains(ps.last()));
        assert forall|i: int| 0 <= i < ps.len() - 1 implies follow(h, off).contains(#[trigger] pair_at(ps, i)) by {
            if left {
                assert(follow(a, off).contains(pair_at(ps, i)));
            } else {
                assert(follow(b, offb).contains(pair_at(ps, i)));
            }
        }
    }
}

/// A piece of `a` before pieces of `a` makes pieces of `a`.
proof fn lemma_star_path_step(a: Hir, off: int, w: Seq<Sym>, k: int, pa: Seq<int>, pb: Seq<int>)
    requires
        spans_ok(a, off),
        0 <= k <= w.len(),
        word_path(a, off, w.take(k), pa),
        star_word_path(a, off, w.skip(k), pb),
    ensures
        star_word_path(a, off, w, pa + pb),
        pa.len() > 0 || pb.len() > 0 || nullable(a),
{
    let ps = pa + pb;
    let steps = follow(a, off).union(cross(last(a, off), first(a, off)));
    assert(spells(a, off, ps, w)) by {
        assert forall|i: int| 0 <= i < ps.len() implies in_span(off, size(a), #[trigger] ps[i]) && fits(
            leaves(a)[ps[i] - off - 1],
            w[i],
        ) by {
            if i < pa.len() {
                assert(ps[i] == pa[i]);
                assert(w.take(k)[i] == w[i]);
            } else {
                let i2 = i - pa.len();
                assert(ps[i] == pb[i2]);
                assert(w.skip(k)[i2] == w[i]);
            }
        }
    }
    if ps.len() > 0 {
        if pa.len() > 0 {
            assert(ps[0] == pa[0]);
        } else {
            assert(ps[0] == pb[0]);
        }
        assert(first(a, off).contains(ps[0]));
        if pb.len() > 0 {
            assert(ps.last() == pb.last());
        } else {
            assert(ps.last() == pa.last());
        }
        assert(last(a, off).contains(ps.last()));
        assert forall|i: int| 0 <= i < ps.len() - 1 implies steps.contains(#[trigger] pair_at(ps, i)) by {
            if i + 1 < pa.len() {
                assert(pair_at(ps, i) == pair_at(pa, i));
                assert(follow(a, off).contains(pair_at(pa, i)));
            } else if i >= pa.len() {
                let i2 = i - pa.len();
                assert(pair_at(ps, i) == pair_at(pb, i2));
                assert(steps.contains(pair_at(pb, i2)));
            } else {
                assert(pair_at(ps, i) == (pa.last(), pb[0]));
                assert(cross(last(a, off), first(a, off)).contains((pa.last(), pb[0])));
            }
        }
    }
}

/// What pieces of `a` are for the expressions that repeat `a`.
proof fn lemma_star_is_path(h: Hir, a: Hir, off: int, w: Seq<Sym>, ps: Seq<int>)
    requires
        h == Hir::Closure(Box::new(a)) || h == Hir::Plus(Box::new(a)),
        h is Plus && ps.len() == 0 ==> nullable(a),
    ensures
        word_path(h, off, w, ps) <==> star_word_path(a, off, w, ps),
{
    assert(size(h) == size(a));
    assert(leaves(h) == leaves(a));
    assert(first(h, off) == first(a, off));
    assert(last(h, off) == last(a, off));
    assert(follow(h, off) == follow(a, off).union(cross(last(a, off), first(a, off))));
}

proof fn lemma_label_path(h: Hir, v: usize, a: Hir, off: int, w: Seq<Sym>, pa: Seq<int>)
    requires
        h == Hir::Label(v, Box::new(a)),
        spans_ok(a, off + 1),
        w.len() >= 2,
        w[0] == Sym::Mark((2 * v) as usize),
        w.last() == Sym::Mark((2 * v + 1) as usize),
        word_path(a, off + 1, w.subrange(1, w.len() - 1), pa),
    ensures
        word_path(h, off, w, seq![off + 1] + pa + seq![off + size(a) + 2]),
{
    let open = off + 1;
    let close = off + size(a) + 2;
    let ps = seq![open] + pa + seq![close];
    let inner = w.subrange(1, w.len() - 1);
    assert(size(h) == size(a) + 2);
    let lv = leaves(h);
    assert(lv == seq![Leaf::Marker((2 * v) as usize)] + leaves(a) + seq![Leaf::Marker((2 * v + 1) as usize)]);
    assert(ps.len() == pa.len() + 2);
    assert(ps[0] == open);
    assert(ps.last() == close);
    assert(spells(h, off, ps, w)) by {
        assert forall|i: int| 0 <= i < ps.len() implies in_span(off, size(h), #[trigger] ps[i]) && fits(
            leaves(h)[ps[i] - off - 1],
            w[i],
        ) by {
            if i == 0 {
                assert(lv[0] == Leaf::Marker((2 * v) as usize));
            } else if i == ps.len() - 1 {
                assert(lv[size(a) as int + 1] == Leaf::Marker((2 * v + 1) as usize));
            } else {
                assert(ps[i] == pa[i - 1]);
                assert(in_span(off + 1, size(a), pa[i - 1]));
                assert(inner[i - 1] == w[i]);
                assert(lv[pa[i - 1] - off - 1] == leaves(a)[pa[i - 1] - (off + 1) - 1]);
            }
        }
    }
    assert(first(h, off).contains(open));
    assert(last(h, off).contains(close));
    assert forall|i: int| 0 <= i < ps.len() - 1 implies follow(h, off).contains(#[trigger] pair_at(ps, i)) by {
        if pa.len() == 0 {
            assert(pair_at(ps, i) == (open, close));
            assert(nullable(a));
        } else if i == 0 {
            assert(pair_at(ps, i) == (open, pa[0]));
            assert(cross(set![open], first(a, off + 1)).contains((open, pa[0])));
        } else if i == ps.len() - 2 {
            assert(pair_at(ps, i) == (pa.last(), close));
            assert(cross(last(a, off + 1), set![close]).contains((pa.last(), close)));
        } else {
            assert(pair_at(ps, i) == pair_at(pa, i - 1));
            assert(follow(a, off + 1).contains(pair_at(pa, i - 1)));
        }
    }
}

/// The positions of a word: where `h` matches `w`, `w` can be read along
/// positions that begin in a first position, end in a last one and follow
/// each other.
pub proof fn lemma_word_path(h: Hir, off: int, w: Seq<Sym>) -> (ps: Seq<int>)
    requires
        lang(h, w),
    ensures
        word_path(h, off, w, ps),
    decreases h, w.len(), 0int,
{
    lemma_spans(h, off);
    match h {
        Hir::Empty => {
            Seq::empty()
        },
        Hir::Class(ranges) => {
            let ps = seq![off + 1];
            assert(leaves(h)[0] == Leaf::Ranges(ranges@));
            assert(first(h, off).contains(off + 1));
            assert(last(h, off).contains(off + 1));
            ps
        },
        Hir::Concat(a, b) => {
            let k = choose|k: int| 0 <= k <= w.len() && lang(*a, #[trigger] w.take(k)) && lang(*b, w.skip(k));
            lemma_spans(*a, off);
            lemma_spans(*b, off + size(*a));
            let pa = lemma_word_path(*a, off, w.take(k));
            let pb = lemma_word_path(*b, off + size(*a), w.skip(k));
            lemma_concat_path(h, *a, *b, off, w, k, pa, pb);
            pa + pb
        },
        Hir::Alternation(a, b) => {
            lemma_spans(*a, off);
            lemma_spans(*b, off + size(*a));
            if lang(*a, w) {
                let ps = lemma_word_path(*a, off, w);
                lemma_alt_path(h, *a, *b, off, w, ps, true);
                ps
            } else {
                let ps = lemma_word_path(*b, off + size(*a), w);
                lemma_alt_path(h, *a, *b, off, w, ps, false);
                ps
            }
        },
        Hir::Option(a) => {
            if w.len() == 0 {
                Seq::empty()
            } else {
                let ps = lemma_word_path(*a, off, w);
                assert(size(h) == size(*a));
                assert(leaves(h) == leaves(*a));
                assert(first(h, off) == first(*a, off));
                assert(last(h, off) == last(*a, off));
                assert(follow(h, off) == follow(*a, off));
                ps
            }
        },
        Hir::Closure(a) => {
            let ps = lemma_star_word_path(*a, off, w);
            lemma_star_is_path(h, *a, off, w, ps);
            ps
        },
        Hir::Plus(a) => {
            let k = choose|k: int| 0 <= k <= w.len() && lang(*a, #[trigger] w.take(k)) && star(*a, w.skip(k));
            lemma_spans(*a, off);
            let pa = lemma_word_path(*a, off, w.take(k));
            let pb = lemma_star_word_path(*a, off, w.skip(k));
            lemma_star_path_step(*a, off, w, k, pa, pb);
            lemma_star_is_path(h, *a, off, w, pa + pb);
            pa + pb
        },
        Hir::Label(v, a) => {
            lemma_spans(*a, off + 1);
            let pa = lemma_word_path(*a, off + 1, w.subrange(1, w.len() - 1));
            lemma_label_path(h, v, *a, off, w, pa);
            seq![off + 1] + pa + seq![off + size(*a) + 2]
        },
    }
}

/// The same for a word made of pieces.
pub proof fn lemma_star_word_path(a: Hir, off: int, w: Seq<Sym>) -> (ps: Seq<int>)
    requires
        star(a, w),
    ensures
        star_word_path(a, off, w, ps),
    decreases a, w.len(), 1int,
{
    lemma_spans(a, off);
    if w.len() == 0 {
        Seq::empty()
    } else {
        let k = choose|k: int| 0 < k <= w.len() && lang(a, #[trigger] w.take(k)) && star(a, w.skip(k));
        let pa = lemma_word_path(a, off, w.take(k));
        let pb = lemma_star_word_path(a, off, w.skip(k));
        lemma_star_path_step(a, off, w, k, pa, pb);
        pa + pb
    }
}

/// The first place from `from` on at which `ps` holds a position above
/// `bound`, or the length of `ps`.
proof fn lemma_find_above(ps: Seq<int>, bound: int, from: int) -> (k: int)
    requires
        0 <= from <= ps.len(),
    ensures
        from <= k <= ps.len(),
        forall|i: int| from <= i < k ==> ps[i] <= bound,
        k < ps.len() ==> ps[k] > bound,
    decreases ps.len() - from,
{
    if from == ps.len() || ps[from] > bound {
        from
    } else {
        lemma_find_above(ps, bound, from + 1)
    }
}

/// Where every pair that starts above `bound` ends above `bound`, the
/// positions of a chain stay above `bound` once they are.
proof fn lemma_stays_above(steps: Set<(int, int)>, ps: Seq<int>, bound: int, k: int, i: int)
    requires
        forall|x: int, y: int| #[trigger] steps.contains((x, y)) && x > bound ==> y > bound,
        forall|j: int| 0 <= j < ps.len() - 1 ==> steps.contains(#[trigger] pair_at(ps, j)),
        0 <= k <= i < ps.len(),
        ps[k] > bound,
    ensures
        ps[i] > bound,
    decreases i - k,
{
    if i > k {
        lemma_stays_above(steps, ps, bound, k, i - 1);
        assert(steps.contains(pair_at(ps, i - 1)));
        assert(steps.contains((ps[i - 1], ps[i])));
    }
}

/// Where every pair that starts at or below `bound` ends there, the
/// positions of a chain that begins there stay there.
proof fn lemma_stays_below(steps: Set<(int, int)>, ps: Seq<int>, bound: int, i: int)
    requires
        forall|x: int, y: int| #[trigger] steps.contains((x, y)) && x <= bound ==> y <= bound,
        forall|j: int| 0 <= j < ps.len() - 1 ==> steps.contains(#[trigger] pair_at(ps, j)),
        0 <= i < ps.len(),
        ps[0] <= bound,
    ensures
        ps[i] <= bound,
    decreases i,
{
    if i > 0 {
        lemma_stays_below(steps, ps, bound, i - 1);
        assert(steps.contains(pair_at(ps, i - 1)));
        assert(steps.contains((ps[i - 1], ps[i])));
    }
}

/// The positions of a word of two parts, one behind the other, are those
/// of a word of the first part and behind them those of a word of the
/// second.
proof fn lemma_concat_split(h: Hir, a: Hir, b: Hir, off: int, w: Seq<Sym>, ps: Seq<int>) -> (k: int)
    requires
        h == Hir::Concat(Box::new(a), Box::new(b)),
        spans_ok(a, off),
        spans_ok(b, off + size(a)),
        word_path(h, off, w, ps),
    ensures
        0 <= k <= ps.len(),
        word_path(a, off, w.take(k), ps.take(k)),
        word_path(b, off + size(a), w.skip(k), ps.skip(k)),
{
    let offb = off + size(a);
    let bound = off + size(a);
    let steps = follow(h, off);
    assert(size(h) == size(a) + size(b));
    assert(leaves(h) == leaves(a) + leaves(b));
    let k = lemma_find_above(ps, bound, 0);
    let pa = ps.take(k);
    let pb = ps.skip(k);
    assert forall|x: int, y: int| #[trigger] steps.contains((x, y)) && x > bound implies y > bound by {
        if follow(a, off).contains((x, y)) {
        } else if follow(b, offb).contains((x, y)) {
        } else {
            assert(last(a, off).contains(x));
        }
    }
    assert forall|i: int| k <= i < ps.len() implies ps[i] > bound by {
        lemma_stays_above(steps, ps, bound, k, i);
    }
    assert(spells(a, off, pa, w.take(k))) by {
        assert forall|i: int| 0 <= i < pa.len() implies in_span(off, size(a), #[trigger] pa[i]) && fits(
            leaves(a)[pa[i] - off - 1],
            w.take(k)[i],
        ) by {
            assert(pa[i] == ps[i]);
            assert(in_span(off, size(h), ps[i]));
            assert(leaves(h)[ps[i] - off - 1] == leaves(a)[ps[i] - off - 1]);
        }
    }
    assert(spells(b, offb, pb, w.skip(k))) by {
        assert forall|i: int| 0 <= i < pb.len() implies in_span(offb, size(b), #[trigger] pb[i]) && fits(
            leaves(b)[pb[i] - offb - 1],
            w.skip(k)[i],
        ) by {
            assert(pb[i] == ps[i + k]);
            assert(in_span(off, size(h), ps[i + k]));
            assert(leaves(h)[ps[i + k] - off - 1] == leaves(b)[ps[i + k] - offb - 1]);
        }
    }
    if ps.len() == 0 {
    } else {
        assert(first(h, off).contains(ps[0]));
        assert(last(h, off).contains(ps.last()));
        if k == 0 {
            assert(!first(a, off).contains(ps[0]));
            assert(nullable(a));
            assert(first(b, offb).contains(ps[0]));
        } else {
            assert(pa[0] == ps[0]);
            assert(!first(b, offb).contains(ps[0]));
            assert(first(a, off).contains(pa[0]));
            assert(pa.last() == ps[k - 1]);
            if k == ps.len() {
                assert(!last(b, offb).contains(ps.last()));
                assert(nullable(b));
                assert(last(a, off).contains(pa.last()));
            } else {
                assert(steps.contains(pair_at(ps, k - 1)));
                let x = ps[k - 1];
                let y = ps[k];
                assert(steps.contains((x, y)));
                assert(!follow(a, off).contains((x, y)));
                assert(!follow(b, offb).contains((x, y)));
                assert(cross(last(a, off), first(b, offb)).contains((x, y)));
            }
            assert forall|i: int| 0 <= i < pa.len() - 1 implies follow(a, off).contains(#[trigger] pair_at(pa, i)) by {
                assert(pair_at(pa, i) == pair_at(ps, i));
                assert(steps.contains(pair_at(ps, i)));
                let x = ps[i];
                let y = ps[i + 1];
                assert(steps.contains((x, y)));
                assert(!follow(b, offb).contains((x, y)));
                if cross(last(a, off), first(b, offb)).contains((x, y)) {
                    assert(first(b, offb).contains(y));
                }
            }
        }
        if k < ps.len() {
            assert(pb[0] == ps[k]);
            assert(pb.last() == ps.last());
            assert(!last(a, off).contains(ps.last()));
            assert(last(b, offb).contains(pb.last()));
            assert(first(b, offb).contains(pb[0]));
            assert forall|i: int| 0 <= i < pb.len() - 1 implies follow(b, offb).contains(#[trigger] pair_at(pb, i)) by {
                assert(pair_at(pb, i) == pair_at(ps, i + k));
                assert(steps.contains(pair_at(ps, i + k)));
                let x = ps[i + k];
                let y = ps[i + k + 1];
                assert(steps.contains((x, y)));
                assert(!follow(a, off).contains((x, y)));
                if cross(last(a, off), first(b, offb)).contains((x, y)) {
                    assert(last(a, off).contains(x));
                }
            }
        } else {
            assert(k == ps.len());
            if k > 0 {
                assert(nullable(b));
            }
        }
    }
    k
}

/// The positions of a word of one of two parts are those of a word of
/// that part.
proof fn lemma_alt_side(h: Hir, a: Hir, b: Hir, off: int, w: Seq<Sym>, ps: Seq<int>) -> (left: bool)
    requires
        h == Hir::Alternation(Box::new(a), Box::new(b)),
        spans_ok(a, off),
        spans_ok(b, off + size(a)),
        word_path(h, off, w, ps),
    ensures
        left ==> word_path(a, off, w, ps),
        !left ==> word_path(b, off + size(a), w, ps),
{
    let offb = off + size(a);
    let bound = off + size(a);
    let steps = follow(h, off);
    assert(size(h) == size(a) + size(b));
    assert(leaves(h) == leaves(a) + leaves(b));
    if ps.len() == 0 {
        nullable(a)
    } else {
        assert(first(h, off).contains(ps[0]));
        assert(last(h, off).contains(ps.last()));
        if ps[0] <= bound {
            assert forall|x: int, y: int| #[trigger] steps.contains((x, y)) && x <= bound implies y <= bound by {
                if follow(a, off).contains((x, y)) {
                } else {
                    assert(follow(b, offb).contains((x, y)));
                }
            }
            assert forall|i: int| 0 <= i < ps.len() implies ps[i] <= bound by {
                lemma_stays_below(steps, ps, bound, i);
            }
            assert(!first(b, offb).contains(ps[0]));
            assert(!last(b, offb).contains(ps.last()));
            assert forall|i: int| 0 <= i < ps.len() - 1 implies follow(a, off).contains(#[trigger] pair_at(ps, i)) by {
                assert(steps.contains(pair_at(ps, i)));
                assert(steps.contains((ps[i], ps[i + 1])));
                assert(!follow(b, offb).contains((ps[i], ps[i + 1])));
            }
            assert(spells(a, off, ps, w)) by {
                assert forall|i: int| 0 <= i < ps.len() implies in_span(off, size(a), #[trigger] ps[i]) && fits(
                    leaves(a)[ps[i] - off - 1],
                    w[i],
                ) by {
                    assert(in_span(off, size(h), ps[i]));
                    assert(leaves(h)[ps[i] - off - 1] == leaves(a)[ps[i] - off - 1]);
                }
            }
            true
        } else {
            assert forall|x: int, y: int| #[trigger] steps.contains((x, y)) && x > bound implies y > bound by {
                if follow(a, off).contains((x, y)) {
                } else {
                    assert(follow(b, offb).contains((x, y)));
                }
            }
            assert forall|i: int| 0 <= i < ps.len() implies ps[i] > bound by {
                lemma_stays_above(steps, ps, bound, 0, i);
            }
            assert(!first(a, off).contains(ps[0]));
            assert(!last(a, off).contains(ps.last()));
            assert forall|i: int| 0 <= i < ps.len() - 1 implies follow(b, offb).contains(#[trigger] pair_at(ps, i)) by {
                assert(steps.contains(pair_at(ps, i)));
                assert(steps.contains((ps[i], ps[i + 1])));
                assert(!follow(a, off).contains((ps[i], ps[i + 1])));
            }
            assert(spells(b, offb, ps, w)) by {
                assert forall|i: int| 0 <= i < ps.len() implies in_span(offb, size(b), #[trigger] ps[i]) && fits(
                    leaves(b)[ps[i] - offb - 1],
                    w[i],
                ) by {
                    assert(in_span(off, size(h), ps[i]));
                    assert(leaves(h)[ps[i] - off - 1] == leaves(b)[ps[i] - offb - 1]);
                }
            }
            false
        }
    }
}

/// The first place from `from` on at which the pair of `ps` is not in
/// `steps`, or the last place of `ps`.
proof fn lemma_find_break(ps: Seq<int>, steps: Set<(int, int)>, from: int) -> (i: int)
    requires
        0 <= from < ps.len(),
    ensures
        from <= i < ps.len(),
        forall|j: int| from <= j < i ==> steps.contains(#[trigger] pair_at(ps, j)),
        i < ps.len() - 1 ==> !steps.contains(pair_at(ps, i)),
    decreases ps.len() - from,
{
    if from == ps.len() - 1 || !steps.contains(pair_at(ps, from)) {
        from
    } else {
        lemma_find_break(ps, steps, from + 1)
    }
}

/// The positions of pieces begin with those of one piece, behind which
/// come those of pieces.
proof fn lemma_star_cut(a: Hir, off: int, w: Seq<Sym>, ps: Seq<int>) -> (k: int)
    requires
        spans_ok(a, off),
        star_word_path(a, off, w, ps),
        ps.len() > 0,
    ensures
        0 < k <= ps.len(),
        word_path(a, off, w.take(k), ps.take(k)),
        star_word_path(a, off, w.skip(k), ps.skip(k)),
{
    let inner = follow(a, off);
    let steps = inner.union(cross(last(a, off), first(a, off)));
    let i = lemma_find_break(ps, inner, 0);
    let k = i + 1;
    let pa = ps.take(k);
    let pb = ps.skip(k);
    assert(spells(a, off, pa, w.take(k))) by {
        assert forall|j: int| 0 <= j < pa.len() implies in_span(off, size(a), #[trigger] pa[j]) && fits(
            leaves(a)[pa[j] - off - 1],
            w.take(k)[j],
        ) by {
            assert(pa[j] == ps[j]);
        }
    }
    assert(spells(a, off, pb, w.skip(k))) by {
        assert forall|j: int| 0 <= j < pb.len() implies in_span(off, size(a), #[trigger] pb[j]) && fits(
            leaves(a)[pb[j] - off - 1],
            w.skip(k)[j],
        ) by {
            assert(pb[j] == ps[j + k]);
        }
    }
    assert(pa[0] == ps[0]);
    assert(pa.last() == ps[i]);
    assert forall|j: int| 0 <= j < pa.len() - 1 implies inner.contains(#[trigger] pair_at(pa, j)) by {
        assert(pair_at(pa, j) == pair_at(ps, j));
    }
    if k < ps.len() {
        assert(steps.contains(pair_at(ps, i)));
        assert(!inner.contains(pair_at(ps, i)));
        assert(cross(last(a, off), first(a, off)).contains((ps[i], ps[i + 1])));
        assert(pb[0] == ps[k]);
        assert(pb.last() == ps.last());
        assert forall|j: int| 0 <= j < pb.len() - 1 implies steps.contains(#[trigger] pair_at(pb, j)) by {
            assert(pair_at(pb, j) == pair_at(ps, j + k));
        }
    }
    k
}

/// The positions of a word of a group are the positions of its two
/// markers, with those of a word of its expression in between.
proof fn lemma_label_inner(h: Hir, v: usize, a: Hir, off: int, w: Seq<Sym>, ps: Seq<int>)
    requires
        h == Hir::Label(v, Box::new(a)),
        spans_ok(a, off + 1),
        word_path(h, off, w, ps),
    ensures
        w.len() >= 2,
        w[0] == Sym::Mark((2 * v) as usize),
        w.last() == Sym::Mark((2 * v + 1) as usize),
        word_path(a, off + 1, w.subrange(1, w.len() - 1), ps.subrange(1, ps.len() - 1)),
{
    let open = off + 1;
    let close = off + size(a) + 2;
    let steps = follow(h, off);
    let offa = off + 1;
    assert(size(h) == size(a) + 2);
    let lv = leaves(h);
    assert(lv == seq![Leaf::Marker((2 * v) as usize)] + leaves(a) + seq![Leaf::Marker((2 * v + 1) as usize)]);
    assert(ps.len() > 0);
    assert(first(h, off).contains(ps[0]));
    assert(last(h, off).contains(ps.last()));
    assert(ps[0] == open);
    assert(ps.last() == close);
    assert(ps.len() >= 2);
    let n = ps.len() as int;
    assert(lv[0] == Leaf::Marker((2 * v) as usize));
    assert(lv[size(a) as int + 1] == Leaf::Marker((2 * v + 1) as usize));
    assert(fits(lv[ps[0] - off - 1], w[0]));
    assert(fits(lv[ps[n - 1] - off - 1], w[n - 1]));
    assert forall|x: int, y: int| #[trigger] steps.contains((x, y)) implies (x == open || in_span(offa, size(a), x))
        && (y == close || in_span(offa, size(a), y)) by {
        if follow(a, offa).contains((x, y)) {
        } else if x == open && first(a, offa).contains(y) {
        } else if last(a, offa).contains(x) && y == close {
        } else {
            assert(x == open && y == close);
        }
    }
    let pin = ps.subrange(1, n - 1);
    let win = w.subrange(1, w.len() - 1);
    assert forall|i: int| 1 <= i < n - 1 implies in_span(offa, size(a), ps[i]) by {
        assert(steps.contains(pair_at(ps, i)));
        assert(steps.contains((ps[i], ps[i + 1])));
        assert(steps.contains(pair_at(ps, i - 1)));
        assert(steps.contains((ps[i - 1], ps[i])));
    }
    assert(spells(a, offa, pin, win)) by {
        assert forall|i: int| 0 <= i < pin.len() implies in_span(offa, size(a), #[trigger] pin[i]) && fits(
            leaves(a)[pin[i] - offa - 1],
            win[i],
        ) by {
            assert(pin[i] == ps[i + 1]);
            assert(win[i] == w[i + 1]);
            assert(fits(lv[ps[i + 1] - off - 1], w[i + 1]));
            assert(lv[ps[i + 1] - off - 1] == leaves(a)[ps[i + 1] - offa - 1]);
        }
    }
    if pin.len() == 0 {
        assert(steps.contains(pair_at(ps, 0)));
        assert(steps.contains((open, close)));
        assert(!follow(a, offa).contains((open, close)));
        assert(!first(a, offa).contains(close));
        assert(!last(a, offa).contains(open));
        assert(nullable(a));
    } else {
        assert(pin[0] == ps[1]);
        assert(pin.last() == ps[n - 2]);
        assert(steps.contains(pair_at(ps, 0)));
        assert(steps.contains((open, ps[1])));
        assert(!follow(a, offa).contains((open, ps[1])));
        assert(first(a, offa).contains(ps[1]));
        assert(steps.contains(pair_at(ps, n - 2)));
        assert(steps.contains((ps[n - 2], close)));
        assert(!follow(a, offa).contains((ps[n - 2], close)));
        assert(last(a, offa).contains(ps[n - 2]));
        assert forall|i: int| 0 <= i < pin.len() - 1 implies follow(a, offa).contains(#[trigger] pair_at(pin, i)) by {
            assert(pair_at(pin, i) == pair_at(ps, i + 1));
            assert(steps.contains(pair_at(ps, i + 1)));
            assert(steps.contains((ps[i + 1], ps[i + 2])));
            assert(in_span(offa, size(a), ps[i + 1]));
            assert(in_span(offa, size(a), ps[i + 2]));
        }
    }
}

/// The word of positions: a word that can be read along positions that
/// begin in a first position of `h`, end in a last one and follow each
/// other is matched by `h`.
pub proof fn lemma_path_word(h: Hir, off: int, w: Seq<Sym>, ps: Seq<int>)
    requires
        word_path(h, off, w, ps),
    ensures
        lang(h, w),
    decreases h, ps.len(), 0int,
{
    lemma_spans(h, off);
    match h {
        Hir::Empty => {
            if ps.len() > 0 {
                assert(first(h, off).contains(ps[0]));
            }
        },
        Hir::Class(ranges) => {
            assert(ps.len() > 0);
            if ps.len() > 1 {
                assert(follow(h, off).contains(pair_at(ps, 0)));
            }
            assert(first(h, off).contains(ps[0]));
            assert(ps[0] == off + 1);
            assert(leaves(h)[0] == Leaf::Ranges(ranges@));
            assert(fits(leaves(h)[ps[0] - off - 1], w[0]));
        },
        Hir::Concat(a, b) => {
            lemma_spans(*a, off);
            lemma_spans(*b, off + size(*a));
            let k = lemma_concat_split(h, *a, *b, off, w, ps);
            lemma_path_word(*a, off, w.take(k), ps.take(k));
            lemma_path_word(*b, off + size(*a), w.skip(k), ps.skip(k));
            assert(lang(*a, w.take(k)) && lang(*b, w.skip(k)));
        },
        Hir::Alternation(a, b) => {
            lemma_spans(*a, off);
            lemma_spans(*b, off + size(*a));
            let left = lemma_alt_side(h, *a, *b, off, w, ps);
            if left {
                lemma_path_word(*a, off, w, ps);
            } else {
                lemma_path_word(*b, off + size(*a), w, ps);
            }
        },
        Hir::Option(a) => {
            if ps.len() > 0 {
                assert(size(h) == size(*a));
                assert(leaves(h) == leaves(*a));
                assert(first(h, off) == first(*a, off));
                assert(last(h, off) == last(*a, off));
                assert(follow(h, off) == follow(*a, off));
                lemma_path_word(*a, off, w, ps);
            }
        },
        Hir::Closure(a) => {
            lemma_star_is_path(h, *a, off, w, ps);
            lemma_star_path_word(*a, off, w, ps);
        },
        Hir::Plus(a) => {
            lemma_spans(*a, off);
            if ps.len() == 0 {
                assert(nullable(*a));
                assert(word_path(*a, off, w, ps)) by {
                    assert(size(h) == size(*a));
                }
                lemma_path_word(*a, off, w, ps);
                assert(w.take(0) =~= w);
                assert(w.skip(0) =~= w);
                assert(star(*a, w.skip(0)));
                assert(lang(*a, w.take(0)) && star(*a, w.skip(0)));
            } else {
                lemma_star_is_path(h, *a, off, w, ps);
                let k = lemma_star_cut(*a, off, w, ps);
                lemma_path_word(*a, off, w.take(k), ps.take(k));
                lemma_star_path_word(*a, off, w.skip(k), ps.skip(k));
                assert(lang(*a, w.take(k)) && star(*a, w.skip(k)));
            }
        },
        Hir::Label(v, a) => {
            lemma_spans(*a, off + 1);
            lemma_label_inner(h, v, *a, off, w, ps);
            lemma_path_word(*a, off + 1, w.subrange(1, w.len() - 1), ps.subrange(1, ps.len() - 1));
        },
    }
}

/// The same for positions of pieces.
pub proof fn lemma_star_path_word(a: Hir, off: int, w: Seq<Sym>, ps: Seq<int>)
    requires
        star_word_path(a, off, w, ps),
    ensures
        star(a, w),
    decreases a, ps.len(), 1int,
{
    lemma_spans(a, off);
    if ps.len() > 0 {
        let k = lemma_star_cut(a, off, w, ps);
        lemma_path_word(a, off, w.take(k), ps.take(k));
        lemma_star_path_word(a, off, w.skip(k), ps.skip(k));
        assert(lang(a, w.take(k)) && star(a, w.skip(k)));
    }
}

} // verus!
