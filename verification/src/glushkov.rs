//! From a regular expression to its position automaton: one state for each
//! character class and for each opening or closing of a group, besides the
//! initial state, and an edge from a state to each state that may follow it.

use crate::automaton::{given_view, Automaton, AutomatonError, AutomatonView, CharEdge, MarkerEdge};
use crate::language::in_ranges;
use crate::parse::Hir;
use crate::position::{cross, first, follow, last, leaves, lemma_spans, nullable, size, Leaf};
use vstd::prelude::*;

verus! {

/// What is read or emitted on the way into a state.
pub enum Symbol {
    Class(Vec<(u32, u32)>),
    Marker(usize),
}

/// The most positions that an expression may have: with the initial
/// state, the states are then as many as the machine can count.
pub const MAX_STATES: usize = usize::MAX - 1;

/// Where the words of an expression may begin and end.
pub struct Local {
    pub nullable: bool,
    pub first: Vec<usize>,
    pub last: Vec<usize>,
}

/// Why an expression has no automaton.
#[derive(Clone, Copy, Debug, PartialEq, Eq, Structural)]
pub enum GlushkovError {
    /// The expression has more than `MAX_STATES` positions.
    TooLarge,
    /// Some group could open or close twice without a character read in
    /// between.
    RepeatedMarker,
}

/// What stands at the position of `s`.
pub open spec fn leaf_of(s: Symbol) -> Leaf {
    match s {
        Symbol::Class(ranges) => Leaf::Ranges(ranges@),
        Symbol::Marker(m) => Leaf::Marker(m),
    }
}

/// What stands at the positions of `symbols`.
pub open spec fn leaves_of(symbols: Seq<Symbol>) -> Seq<Leaf> {
    Seq::new(symbols.len(), |i: int| leaf_of(symbols[i]))
}

/// `v` lists the numbers of `s`.
pub open spec fn lists(v: Seq<usize>, s: Set<int>) -> bool {
    forall|x: usize| v.contains(x) <==> s.contains(x as int)
}

/// Every marker among the leaves of an expression whose variables are below
/// `bound` is below twice `bound`.
pub proof fn lemma_leaf_markers(h: Hir, bound: int, i: int)
    requires
        h.vars_below(bound),
        0 <= i < leaves(h).len(),
        2 * bound <= usize::MAX,
    ensures
        leaves(h)[i] matches Leaf::Marker(m) ==> m < 2 * bound,
    decreases h,
{
    match h {
        Hir::Empty => {},
        Hir::Class(_) => {},
        Hir::Concat(a, b) => {
            if i < leaves(*a).len() {
                lemma_leaf_markers(*a, bound, i);
            } else {
                lemma_leaf_markers(*b, bound, i - leaves(*a).len());
            }
        },
        Hir::Alternation(a, b) => {
            if i < leaves(*a).len() {
                lemma_leaf_markers(*a, bound, i);
            } else {
                lemma_leaf_markers(*b, bound, i - leaves(*a).len());
            }
        },
        Hir::Option(a) => {
            lemma_leaf_markers(*a, bound, i);
        },
        Hir::Closure(a) => {
            lemma_leaf_markers(*a, bound, i);
        },
        Hir::Plus(a) => {
            lemma_leaf_markers(*a, bound, i);
        },
        Hir::Label(v, a) => {
            if 1 <= i <= leaves(*a).len() {
                lemma_leaf_markers(*a, bound, i - 1);
            }
        },
    }
}

/// The entries of `a` followed by those of `b`.
fn join(a: Vec<usize>, b: &Vec<usize>) -> (c: Vec<usize>)
    ensures
        c@ == a@ + b@,
        forall|x: usize| c@.contains(x) <==> a@.contains(x) || b@.contains(x),
{
    let mut c = a;
    let mut i: usize = 0;
    while i < b.len()
        invariant
            i <= b@.len(),
            c@ == a@ + b@.take(i as int),
        decreases b@.len() - i,
    {
        c.push(b[i]);
        proof {
            assert(b@.take(i + 1) =~= b@.take(i as int).push(b@[i as int]));
            assert(c@ =~= a@ + b@.take(i + 1));
        }
        i += 1;
    }
    proof {
        assert(b@.take(b@.len() as int) =~= b@);
        assert forall|x: usize| c@.contains(x) <==> a@.contains(x) || b@.contains(x) by {
            if a@.contains(x) {
                let k = choose|k: int| 0 <= k < a@.len() && a@[k] == x;
                assert(c@[k] == x);
            }
            if b@.contains(x) {
                let k = choose|k: int| 0 <= k < b@.len() && b@[k] == x;
                assert(c@[a@.len() + k] == x);
            }
            if c@.contains(x) {
                let k = choose|k: int| 0 <= k < c@.len() && c@[k] == x;
                if k < a@.len() {
                    assert(a@[k] == x);
                } else {
                    assert(b@[k - a@.len()] == x);
                }
            }
        }
    }
    c
}

/// Adds a pair for each state of `from` and each state of `to`.
fn link(follow: &mut Vec<(usize, usize)>, from: &Vec<usize>, to: &Vec<usize>)
    ensures
        forall|x: usize, y: usize| #[trigger]
            final(follow)@.contains((x, y)) <==> old(follow)@.contains((x, y)) || (from@.contains(x)
                && to@.contains(y)),
{
    let mut i: usize = 0;
    while i < from.len()
        invariant
            i <= from@.len(),
            forall|x: usize, y: usize| #[trigger]
                follow@.contains((x, y)) <==> old(follow)@.contains((x, y)) || (exists|a: int|
                    0 <= a < i && from@[a] == x) && to@.contains(y),
        decreases from@.len() - i,
    {
        let mut k: usize = 0;
        let ghost outer = follow@;
        while k < to.len()
            invariant
                k <= to@.len(),
                i < from@.len(),
                forall|x: usize, y: usize| #[trigger]
                    follow@.contains((x, y)) <==> outer.contains((x, y)) || (x == from@[i as int] && exists|b: int|
                        0 <= b < k && to@[b] == y),
            decreases to@.len() - k,
        {
            let ghost inner = follow@;
            follow.push((from[i], to[k]));
            proof {
                let added = (from@[i as int], to@[k as int]);
                assert(follow@ == inner.push(added));
                assert forall|x: usize, y: usize| #[trigger] follow@.contains((x, y)) <==> outer.contains((x, y)) || (
                x == from@[i as int] && exists|b: int| 0 <= b < k + 1 && to@[b] == y) by {
                    if inner.contains((x, y)) {
                        let j = choose|j: int| 0 <= j < inner.len() && inner[j] == (x, y);
                        assert(follow@[j] == (x, y));
                    }
                    if (x, y) == added {
                        assert(follow@[inner.len() as int] == added);
                        assert(to@[k as int] == y);
                    }
                    if follow@.contains((x, y)) {
                        let j = choose|j: int| 0 <= j < follow@.len() && follow@[j] == (x, y);
                        if j < inner.len() {
                            assert(inner[j] == (x, y));
                        }
                    }
                    if x == from@[i as int] && exists|b: int| 0 <= b < k + 1 && to@[b] == y {
                        let b = choose|b: int| 0 <= b < k + 1 && to@[b] == y;
                        if b < k {
                            assert(inner.contains((x, y)));
                        }
                    }
                }
            }
            k += 1;
        }
        proof {
            assert forall|x: usize, y: usize| #[trigger] follow@.contains((x, y)) <==> old(follow)@.contains((x, y)) || (
            exists|a: int| 0 <= a < i + 1 && from@[a] == x) && to@.contains(y) by {
                if (exists|a: int| 0 <= a < i + 1 && from@[a] == x) && to@.contains(y) {
                    let a = choose|a: int| 0 <= a < i + 1 && from@[a] == x;
                    let b = choose|b: int| 0 <= b < to@.len() && to@[b] == y;
                    if a < i {
                        assert(outer.contains((x, y)));
                    }
                }
                if x == from@[i as int] && exists|b: int| 0 <= b < to@.len() && to@[b] == y {
                    assert(0 <= i < i + 1 && from@[i as int] == x);
                }
                if outer.contains((x, y)) && !old(follow)@.contains((x, y)) {
                    let a = choose|a: int| 0 <= a < i && from@[a] == x;
                    assert(0 <= a < i + 1 && from@[a] == x);
                }
            }
        }
        i += 1;
    }
    proof {
        assert forall|x: usize, y: usize| #[trigger] follow@.contains((x, y)) <==> old(follow)@.contains((x, y)) || (
        from@.contains(x) && to@.contains(y)) by {
            if from@.contains(x) {
                let a = choose|a: int| 0 <= a < from@.len() && from@[a] == x;
                assert(0 <= a < from@.len() && from@[a] == x);
            }
        }
    }
}

/// A list with the one entry `x`.
fn single(x: usize) -> (v: Vec<usize>)
    ensures
        v@ == seq![x],
        forall|y: usize| v@.contains(y) <==> y == x,
{
    let mut v: Vec<usize> = Vec::new();
    v.push(x);
    proof {
        assert(v@[0] == x);
    }
    v
}

/// What `build` has done for `h`, whose positions are numbered from
/// `off + 1` on: the leaves of `h` stand behind the symbols that were there,
/// the local lists hold the first and last positions of `h`, and the pairs of
/// `h` are added to the pairs that were there.
pub open spec fn built(
    h: Hir,
    off: int,
    symbols_before: Seq<Symbol>,
    symbols_after: Seq<Symbol>,
    follow_before: Seq<(usize, usize)>,
    follow_after: Seq<(usize, usize)>,
    local: Local,
) -> bool {
    &&& leaves_of(symbols_after) == leaves_of(symbols_before) + leaves(h)
    &&& symbols_after.len() <= MAX_STATES
    &&& local.nullable == nullable(h)
    &&& lists(local.first@, first(h, off))
    &&& lists(local.last@, last(h, off))
    &&& forall|x: usize, y: usize| #[trigger]
        follow_after.contains((x, y)) <==> follow_before.contains((x, y)) || follow(h, off).contains(
            (x as int, y as int),
        )
}

/// Adds the positions of `h` to `symbols` and the pairs of positions that
/// may follow each other in `h` to `follow`. Returns where the words of
/// `h` may begin and end, or `None` where there would be more than
/// `MAX_STATES` positions.
fn build(h: &Hir, symbols: &mut Vec<Symbol>, pairs: &mut Vec<(usize, usize)>, Ghost(bound): Ghost<int>) -> (r: Option<
    Local,
>)
    requires
        old(symbols)@.len() <= MAX_STATES,
        h.vars_below(bound),
        2 * bound <= usize::MAX,
    ensures
        match r {
            Some(local) => built(
                *h,
                old(symbols)@.len() as int,
                old(symbols)@,
                final(symbols)@,
                old(pairs)@,
                final(pairs)@,
                local,
            ),
            None => old(symbols)@.len() + size(*h) > MAX_STATES,
        },
    decreases h,
{
    let ghost off = symbols@.len() as int;
    let ghost s0 = symbols@;
    let ghost f0 = pairs@;
    proof {
        lemma_spans(*h, off);
    }
    match h {
        Hir::Empty => {
            let local = Local { nullable: true, first: Vec::new(), last: Vec::new() };
            proof {
                assert(leaves_of(symbols@) =~= leaves_of(s0) + leaves(*h));
            }
            Some(local)
        },
        Hir::Class(ranges) => {
            if symbols.len() >= MAX_STATES {
                return None;
            }
            let mut own: Vec<(u32, u32)> = Vec::new();
            let mut i: usize = 0;
            while i < ranges.len()
                invariant
                    i <= ranges@.len(),
                    own@ == ranges@.take(i as int),
                decreases ranges@.len() - i,
            {
                own.push(ranges[i]);
                proof {
                    assert(ranges@.take(i + 1) =~= ranges@.take(i as int).push(ranges@[i as int]));
                }
                i += 1;
            }
            proof {
                assert(ranges@.take(ranges@.len() as int) =~= ranges@);
            }
            symbols.push(Symbol::Class(own));
            let state = symbols.len();
            let local = Local { nullable: false, first: single(state), last: single(state) };
            proof {
                assert(leaves_of(symbols@) =~= leaves_of(s0) + leaves(*h));
                assert(first(*h, off) =~= set![off + 1]);
                assert(last(*h, off) =~= set![off + 1]);
            }
            Some(local)
        },
        Hir::Concat(a, b) => {
            let left = match build(a, symbols, pairs, Ghost(bound)) {
                Some(l) => l,
                None => {
                    return None;
                },
            };
            let ghost s1 = symbols@;
            let ghost f1 = pairs@;
            proof {
                lemma_spans(**a, off);
                assert(leaves_of(s1).len() == leaves_of(s0).len() + leaves(**a).len());
            }
            let right = match build(b, symbols, pairs, Ghost(bound)) {
                Some(l) => l,
                None => {
                    return None;
                },
            };
            let ghost f2 = pairs@;
            let ghost offb = off + size(**a);
            link(pairs, &left.last, &right.first);
            let empty_ok = left.nullable && right.nullable;
            let firsts = if left.nullable {
                join(left.first, &right.first)
            } else {
                left.first
            };
            let lasts = if right.nullable {
                join(right.last, &left.last)
            } else {
                right.last
            };
            let local = Local { nullable: empty_ok, first: firsts, last: lasts };
            proof {
                lemma_spans(**b, offb);
                assert(leaves_of(symbols@) =~= leaves_of(s0) + leaves(*h));
                assert forall|x: usize, y: usize| #[trigger] pairs@.contains((x, y)) <==> f0.contains((x, y))
                    || follow(*h, off).contains((x as int, y as int)) by {
                    assert(f2.contains((x, y)) <==> f1.contains((x, y)) || follow(**b, offb).contains(
                        (x as int, y as int),
                    ));
                    assert(f1.contains((x, y)) <==> f0.contains((x, y)) || follow(**a, off).contains(
                        (x as int, y as int),
                    ));
                    assert(cross(last(**a, off), first(**b, offb)).contains((x as int, y as int)) <==> last(
                        **a,
                        off,
                    ).contains(x as int) && first(**b, offb).contains(y as int));
                }
            }
            Some(local)
        },
        Hir::Alternation(a, b) => {
            let left = match build(a, symbols, pairs, Ghost(bound)) {
                Some(l) => l,
                None => {
                    return None;
                },
            };
            let ghost s1 = symbols@;
            let ghost f1 = pairs@;
            proof {
                lemma_spans(**a, off);
                assert(leaves_of(s1).len() == leaves_of(s0).len() + leaves(**a).len());
            }
            let right = match build(b, symbols, pairs, Ghost(bound)) {
                Some(l) => l,
                None => {
                    return None;
                },
            };
            let ghost offb = off + size(**a);
            let local = Local {
                nullable: left.nullable || right.nullable,
                first: join(left.first, &right.first),
                last: join(left.last, &right.last),
            };
            proof {
                assert(leaves_of(symbols@) =~= leaves_of(s0) + leaves(*h));
                assert forall|x: usize, y: usize| #[trigger] pairs@.contains((x, y)) <==> f0.contains((x, y))
                    || follow(*h, off).contains((x as int, y as int)) by {
                    assert(pairs@.contains((x, y)) <==> f1.contains((x, y)) || follow(**b, offb).contains(
                        (x as int, y as int),
                    ));
                    assert(f1.contains((x, y)) <==> f0.contains((x, y)) || follow(**a, off).contains(
                        (x as int, y as int),
                    ));
                }
            }
            Some(local)
        },
        Hir::Option(a) => {
            match build(a, symbols, pairs, Ghost(bound)) {
                Some(inner) => {
                    let local = Local { nullable: true, first: inner.first, last: inner.last };
                    proof {
                        assert forall|x: usize, y: usize| #[trigger] pairs@.contains((x, y)) <==> f0.contains((x, y))
                            || follow(*h, off).contains((x as int, y as int)) by {
                            assert(pairs@.contains((x, y)) <==> f0.contains((x, y)) || follow(**a, off).contains(
                                (x as int, y as int),
                            ));
                        }
                    }
                    Some(local)
                },
                None => None,
            }
        },
        Hir::Closure(a) => {
            match build(a, symbols, pairs, Ghost(bound)) {
                Some(inner) => {
                    let ghost f1 = pairs@;
                    link(pairs, &inner.last, &inner.first);
                    let local = Local { nullable: true, first: inner.first, last: inner.last };
                    proof {
                        assert forall|x: usize, y: usize| #[trigger] pairs@.contains((x, y)) <==> f0.contains((x, y))
                            || follow(*h, off).contains((x as int, y as int)) by {
                            assert(f1.contains((x, y)) <==> f0.contains((x, y)) || follow(**a, off).contains(
                                (x as int, y as int),
                            ));
                            assert(cross(last(**a, off), first(**a, off)).contains((x as int, y as int)) <==> last(
                                **a,
                                off,
                            ).contains(x as int) && first(**a, off).contains(y as int));
                        }
                    }
                    Some(local)
                },
                None => None,
            }
        },
        Hir::Plus(a) => {
            match build(a, symbols, pairs, Ghost(bound)) {
                Some(inner) => {
                    let ghost f1 = pairs@;
                    link(pairs, &inner.last, &inner.first);
                    let local = Local { nullable: inner.nullable, first: inner.first, last: inner.last };
                    proof {
                        assert forall|x: usize, y: usize| #[trigger] pairs@.contains((x, y)) <==> f0.contains((x, y))
                            || follow(*h, off).contains((x as int, y as int)) by {
                            assert(f1.contains((x, y)) <==> f0.contains((x, y)) || follow(**a, off).contains(
                                (x as int, y as int),
                            ));
                            assert(cross(last(**a, off), first(**a, off)).contains((x as int, y as int)) <==> last(
                                **a,
                                off,
                            ).contains(x as int) && first(**a, off).contains(y as int));
                        }
                    }
                    Some(local)
                },
                None => None,
            }
        },
        Hir::Label(v, a) => {
            if symbols.len() >= MAX_STATES {
                return None;
            }
            symbols.push(Symbol::Marker(2 * *v));
            let open = symbols.len();
            let ghost s1 = symbols@;
            let inner = match build(a, symbols, pairs, Ghost(bound)) {
                Some(l) => l,
                None => {
                    return None;
                },
            };
            let ghost f1 = pairs@;
            let ghost s2 = symbols@;
            if symbols.len() >= MAX_STATES {
                proof {
                    lemma_spans(**a, off + 1);
                    assert(leaves_of(s2).len() == leaves_of(s1).len() + leaves(**a).len());
                }
                return None;
            }
            symbols.push(Symbol::Marker(2 * *v + 1));
            let close = symbols.len();
            let firsts = single(open);
            let lasts = single(close);
            link(pairs, &firsts, &inner.first);
            let ghost f2 = pairs@;
            link(pairs, &inner.last, &lasts);
            let ghost f3 = pairs@;
            if inner.nullable {
                link(pairs, &firsts, &lasts);
            }
            let local = Local { nullable: false, first: firsts, last: lasts };
            proof {
                lemma_spans(**a, off + 1);
                assert(leaves_of(s2).len() == leaves_of(s1).len() + leaves(**a).len());
                assert(open == off + 1);
                assert(close == off + size(**a) + 2);
                assert(leaves_of(s1) =~= leaves_of(s0) + seq![Leaf::Marker((2 * *v) as usize)]);
                assert(leaves_of(symbols@) =~= leaves_of(s2) + seq![Leaf::Marker((2 * *v + 1) as usize)]);
                assert(leaves_of(symbols@) =~= leaves_of(s0) + leaves(*h));
                assert(first(*h, off) =~= set![off + 1]);
                assert(last(*h, off) =~= set![off + size(**a) + 2]);
                assert forall|x: usize, y: usize| #[trigger] pairs@.contains((x, y)) <==> f0.contains((x, y))
                    || follow(*h, off).contains((x as int, y as int)) by {
                    let xi = x as int;
                    let yi = y as int;
                    let oi = off + 1;
                    let ci = off + size(**a) + 2;
                    assert(f1.contains((x, y)) <==> f0.contains((x, y)) || follow(**a, off + 1).contains((xi, yi)));
                    assert(f2.contains((x, y)) <==> f1.contains((x, y)) || (x == open && inner.first@.contains(y)));
                    assert(f3.contains((x, y)) <==> f2.contains((x, y)) || (inner.last@.contains(x) && y == close));
                    assert(cross(set![oi], first(**a, off + 1)).contains((xi, yi)) <==> xi == oi && first(
                        **a,
                        off + 1,
                    ).contains(yi));
                    assert(cross(last(**a, off + 1), set![ci]).contains((xi, yi)) <==> last(**a, off + 1).contains(
                        xi,
                    ) && yi == ci);
                }
            }
            Some(local)
        },
    }
}

/// An edge of the position automaton of `h` leads from `p` to `q`: from
/// the initial state 0 to a first position, or from a position to one that
/// may follow it.
pub open spec fn edge(h: Hir, p: int, q: int) -> bool {
    (p == 0 && first(h, 0).contains(q)) || follow(h, 0).contains((p, q))
}

/// `v` is the position automaton of `h`: its states are 0 and the positions
/// of `h`; an edge into a position emits the marker that stands there or
/// reads a character of the class that stands there; the final states are
/// the last positions, and 0 where `h` matches the empty word.
pub open spec fn is_position_automaton(v: AutomatonView, h: Hir, n: nat) -> bool {
    &&& v.nb_states == size(h) + 1
    &&& v.nb_vars == n
    &&& v.initial == 0
    &&& forall|q: usize| v.finals.contains(q) <==> last(h, 0).contains(q as int) || (q == 0 && nullable(h))
    &&& forall|p: usize, m: usize, q: usize| #[trigger]
        v.marker_step(p, m, q) <==> edge(h, p as int, q as int) && leaves(h)[q - 1] == Leaf::Marker(m)
    &&& forall|p: usize, c: char, q: usize| #[trigger]
        v.char_step(p, c, q) <==> edge(h, p as int, q as int) && (leaves(h)[q - 1] matches Leaf::Ranges(r)
            && in_ranges(r, c))
}

/// The number of ranges of the class at position `q`; zero for a marker.
pub open spec fn ranges_len(lv: Seq<Leaf>, q: int) -> int {
    match lv[q - 1] {
        Leaf::Ranges(r) => r.len() as int,
        Leaf::Marker(_) => 0,
    }
}

/// The `t`-th range of the class at position `q`.
pub open spec fn range_at(lv: Seq<Leaf>, q: int, t: int) -> (u32, u32) {
    match lv[q - 1] {
        Leaf::Ranges(r) => r[t],
        Leaf::Marker(_) => (0u32, 0u32),
    }
}

/// The marker edge `e` is the edge of one of the first `upto` pairs.
pub open spec fn from_pair(lv: Seq<Leaf>, pairs: Seq<(usize, usize)>, upto: int, e: MarkerEdge) -> bool {
    exists|k: int|
        0 <= k < upto && #[trigger] pairs[k] == (e.source, e.target) && lv[e.target - 1] == Leaf::Marker(e.marker)
}

/// The character edge `e` is an edge of one of the first `upto` pairs.
pub open spec fn char_from_pair(lv: Seq<Leaf>, pairs: Seq<(usize, usize)>, upto: int, e: CharEdge) -> bool {
    exists|k: int, t: int|
        0 <= k < upto && #[trigger] pairs[k] == (e.source, e.target) && 0 <= t < ranges_len(lv, e.target as int)
            && #[trigger] range_at(lv, e.target as int, t) == (e.low, e.high)
}

/// The edges from `p` into `q`, one for each range of a class.
pub open spec fn char_edges_of(lv: Seq<Leaf>, p: usize, q: usize) -> Seq<CharEdge> {
    Seq::new(
        ranges_len(lv, q as int) as nat,
        |t: int| CharEdge { source: p, low: range_at(lv, q as int, t).0, high: range_at(lv, q as int, t).1, target: q },
    )
}

/// Adds the edges from `p` into `q`: one for each range of the class of `q`,
/// or the one for its marker.
fn add_edges(
    symbols: &Vec<Symbol>,
    p: usize,
    q: usize,
    char_edges: &mut Vec<CharEdge>,
    marker_edges: &mut Vec<MarkerEdge>,
)
    requires
        1 <= q <= symbols@.len(),
    ensures
        final(char_edges)@ == old(char_edges)@ + char_edges_of(leaves_of(symbols@), p, q),
        final(marker_edges)@ == match leaves_of(symbols@)[q - 1] {
            Leaf::Marker(m) => old(marker_edges)@.push(MarkerEdge { source: p, marker: m, target: q }),
            Leaf::Ranges(_) => old(marker_edges)@,
        },
{
    let ghost lv = leaves_of(symbols@);
    match &symbols[q - 1] {
        Symbol::Class(ranges) => {
            let mut i: usize = 0;
            proof {
                assert(lv[q - 1] == Leaf::Ranges(ranges@));
                assert(char_edges_of(lv, p, q).take(0) =~= Seq::<CharEdge>::empty());
                assert(char_edges@ =~= old(char_edges)@ + char_edges_of(lv, p, q).take(0));
            }
            while i < ranges.len()
                invariant
                    i <= ranges@.len(),
                    1 <= q <= symbols@.len(),
                    lv == leaves_of(symbols@),
                    lv[q - 1] == Leaf::Ranges(ranges@),
                    char_edges@ == old(char_edges)@ + char_edges_of(lv, p, q).take(i as int),
                decreases ranges@.len() - i,
            {
                let (low, high) = ranges[i];
                char_edges.push(CharEdge { source: p, low, high, target: q });
                proof {
                    let all = char_edges_of(lv, p, q);
                    assert(all[i as int] == CharEdge { source: p, low, high, target: q });
                    assert(all.take(i + 1) =~= all.take(i as int).push(all[i as int]));
                    assert(char_edges@ =~= old(char_edges)@ + all.take(i + 1));
                }
                i += 1;
            }
            proof {
                let all = char_edges_of(lv, p, q);
                assert(all.take(all.len() as int) =~= all);
            }
        },
        Symbol::Marker(m) => {
            marker_edges.push(MarkerEdge { source: p, marker: *m, target: q });
            proof {
                assert(lv[q - 1] == Leaf::Marker(*m));
                assert(char_edges_of(lv, p, q) =~= Seq::<CharEdge>::empty());
                assert(char_edges@ =~= old(char_edges)@ + char_edges_of(lv, p, q));
            }
        },
    }
}

/// The edges of the pairs: one marker edge for each pair that ends at a
/// marker, one character edge for each range of each pair that ends at a
/// class.
fn edges_of(symbols: &Vec<Symbol>, pairs: &Vec<(usize, usize)>) -> (r: (Vec<CharEdge>, Vec<MarkerEdge>))
    requires
        forall|k: int| 0 <= k < pairs@.len() ==> 1 <= (#[trigger] pairs@[k]).1 <= symbols@.len(),
    ensures
        forall|e: MarkerEdge| r.1@.contains(e) <==> from_pair(leaves_of(symbols@), pairs@, pairs@.len() as int, e),
        forall|e: CharEdge| r.0@.contains(e) <==> char_from_pair(leaves_of(symbols@), pairs@, pairs@.len() as int, e),
{
    let ghost lv = leaves_of(symbols@);
    let mut char_edges: Vec<CharEdge> = Vec::new();
    let mut marker_edges: Vec<MarkerEdge> = Vec::new();
    let mut i: usize = 0;
    while i < pairs.len()
        invariant
            i <= pairs@.len(),
            lv == leaves_of(symbols@),
            forall|k: int| 0 <= k < pairs@.len() ==> 1 <= (#[trigger] pairs@[k]).1 <= symbols@.len(),
            forall|e: MarkerEdge| marker_edges@.contains(e) <==> from_pair(lv, pairs@, i as int, e),
            forall|e: CharEdge| char_edges@.contains(e) <==> char_from_pair(lv, pairs@, i as int, e),
        decreases pairs@.len() - i,
    {
        let (p, q) = pairs[i];
        let ghost m0 = marker_edges@;
        let ghost c0 = char_edges@;
        add_edges(symbols, p, q, &mut char_edges, &mut marker_edges);
        proof {
            let added = char_edges_of(lv, p, q);
            assert forall|e: MarkerEdge| marker_edges@.contains(e) <==> from_pair(lv, pairs@, i + 1, e) by {
                if m0.contains(e) {
                    let j = choose|j: int| 0 <= j < m0.len() && m0[j] == e;
                    assert(marker_edges@[j] == e);
                    let k = choose|k: int|
                        0 <= k < i && #[trigger] pairs@[k] == (e.source, e.target) && lv[e.target - 1]
                            == Leaf::Marker(e.marker);
                    assert(0 <= k < i + 1 && pairs@[k] == (e.source, e.target));
                }
                if marker_edges@.contains(e) && !m0.contains(e) {
                    let j = choose|j: int| 0 <= j < marker_edges@.len() && marker_edges@[j] == e;
                    if j < m0.len() {
                        assert(m0[j] == e);
                    }
                    assert(0 <= i < i + 1 && pairs@[i as int] == (e.source, e.target));
                }
                if from_pair(lv, pairs@, i + 1, e) {
                    let k = choose|k: int|
                        0 <= k < i + 1 && #[trigger] pairs@[k] == (e.source, e.target) && lv[e.target - 1]
                            == Leaf::Marker(e.marker);
                    if k < i {
                        assert(from_pair(lv, pairs@, i as int, e));
                    } else {
                        assert(marker_edges@[m0.len() as int] == e);
                    }
                }
            }
            assert forall|e: CharEdge| char_edges@.contains(e) <==> char_from_pair(lv, pairs@, i + 1, e) by {
                if c0.contains(e) {
                    let j = choose|j: int| 0 <= j < c0.len() && c0[j] == e;
                    assert(char_edges@[j] == e);
                    let (k, t) = choose|k: int, t: int|
                        0 <= k < i && #[trigger] pairs@[k] == (e.source, e.target) && 0 <= t < ranges_len(
                            lv,
                            e.target as int,
                        ) && #[trigger] range_at(lv, e.target as int, t) == (e.low, e.high);
                    assert(0 <= k < i + 1 && pairs@[k] == (e.source, e.target) && 0 <= t < ranges_len(
                        lv,
                        e.target as int,
                    ) && range_at(lv, e.target as int, t) == (e.low, e.high));
                }
                if char_edges@.contains(e) && !c0.contains(e) {
                    let j = choose|j: int| 0 <= j < char_edges@.len() && char_edges@[j] == e;
                    if j < c0.len() {
                        assert(c0[j] == e);
                    }
                    let t = j - c0.len();
                    assert(added[t] == e);
                    assert(0 <= i < i + 1 && pairs@[i as int] == (e.source, e.target) && 0 <= t < ranges_len(
                        lv,
                        e.target as int,
                    ) && range_at(lv, e.target as int, t) == (e.low, e.high));
                }
                if char_from_pair(lv, pairs@, i + 1, e) {
                    let (k, t) = choose|k: int, t: int|
                        0 <= k < i + 1 && #[trigger] pairs@[k] == (e.source, e.target) && 0 <= t < ranges_len(
                            lv,
                            e.target as int,
                        ) && #[trigger] range_at(lv, e.target as int, t) == (e.low, e.high);
                    if k < i {
                        assert(char_from_pair(lv, pairs@, i as int, e));
                    } else {
                        assert(added[t] == e);
                        assert(char_edges@[c0.len() + t] == e);
                    }
                }
            }
        }
        i += 1;
    }
    (char_edges, marker_edges)
}

/// The automaton that is made of the edges of the pairs is the position
/// automaton, and its states and markers are in range.
proof fn lemma_given_is_position(
    h: Hir,
    n: nat,
    lv: Seq<Leaf>,
    pairs: Seq<(usize, usize)>,
    finals: Seq<usize>,
    char_edges: Seq<CharEdge>,
    marker_edges: Seq<MarkerEdge>,
    nb_states: usize,
)
    requires
        h.vars_below(n as int),
        2 * n <= usize::MAX,
        lv == leaves(h),
        nb_states == size(h) + 1,
        forall|x: usize, y: usize| #[trigger] pairs.contains((x, y)) <==> edge(h, x as int, y as int),
        forall|q: usize| finals.contains(q) <==> last(h, 0).contains(q as int) || (q == 0 && nullable(h)),
        forall|e: MarkerEdge| marker_edges.contains(e) <==> from_pair(lv, pairs, pairs.len() as int, e),
        forall|e: CharEdge| char_edges.contains(e) <==> char_from_pair(lv, pairs, pairs.len() as int, e),
    ensures
        is_position_automaton(given_view(nb_states, 0, finals, char_edges, marker_edges, n), h, n),
        given_view(nb_states, 0, finals, char_edges, marker_edges, n).states_ok(),
        given_view(nb_states, 0, finals, char_edges, marker_edges, n).markers_ok(),
{
    let v = given_view(nb_states, 0, finals, char_edges, marker_edges, n);
    lemma_spans(h, 0);
    assert forall|x: usize, y: usize| #[trigger] pairs.contains((x, y)) implies x < nb_states && 1 <= y < nb_states by {
        assert(edge(h, x as int, y as int));
    }
    assert forall|p: usize, m: usize, q: usize| #[trigger] v.marker_step(p, m, q) <==> edge(h, p as int, q as int)
        && leaves(h)[q - 1] == Leaf::Marker(m) by {
        let e = MarkerEdge { source: p, marker: m, target: q };
        if from_pair(lv, pairs, pairs.len() as int, e) {
            let k = choose|k: int|
                0 <= k < pairs.len() && #[trigger] pairs[k] == (e.source, e.target) && lv[e.target - 1]
                    == Leaf::Marker(e.marker);
            assert(pairs.contains((p, q)));
        }
        if edge(h, p as int, q as int) && leaves(h)[q - 1] == Leaf::Marker(m) {
            assert(pairs.contains((p, q)));
            let k = choose|k: int| 0 <= k < pairs.len() && pairs[k] == (p, q);
            assert(pairs[k] == (e.source, e.target));
        }
    }
    assert forall|p: usize, c: char, q: usize| #[trigger] v.char_step(p, c, q) <==> edge(h, p as int, q as int) && (
    leaves(h)[q - 1] matches Leaf::Ranges(r) && in_ranges(r, c)) by {
        if v.char_step(p, c, q) {
            let i = choose|i: int|
                0 <= i < v.char_edges.len() && (#[trigger] v.char_edges[i]).source == p && v.char_edges[i].target
                    == q && v.char_edges[i].low <= c as u32 <= v.char_edges[i].high;
            let e = char_edges[i];
            assert(char_edges.contains(e));
            let (k, t) = choose|k: int, t: int|
                0 <= k < pairs.len() && #[trigger] pairs[k] == (e.source, e.target) && 0 <= t < ranges_len(
                    lv,
                    e.target as int,
                ) && #[trigger] range_at(lv, e.target as int, t) == (e.low, e.high);
            assert(pairs.contains((p, q)));
            match lv[q - 1] {
                Leaf::Ranges(r) => {
                    assert(r[t] == (e.low, e.high));
                    assert(in_ranges(r, c));
                },
                Leaf::Marker(_) => {},
            }
        }
        if edge(h, p as int, q as int) && (leaves(h)[q - 1] matches Leaf::Ranges(r) && in_ranges(r, c)) {
            assert(pairs.contains((p, q)));
            let k = choose|k: int| 0 <= k < pairs.len() && pairs[k] == (p, q);
            match lv[q - 1] {
                Leaf::Ranges(r) => {
                    let t = choose|t: int| 0 <= t < r.len() && (#[trigger] r[t]).0 <= c as u32 <= r[t].1;
                    let e = CharEdge { source: p, low: r[t].0, high: r[t].1, target: q };
                    assert(pairs[k] == (e.source, e.target) && 0 <= t < ranges_len(lv, e.target as int) && range_at(
                        lv,
                        e.target as int,
                        t,
                    ) == (e.low, e.high));
                    assert(char_from_pair(lv, pairs, pairs.len() as int, e));
                    assert(char_edges.contains(e));
                    let i = choose|i: int| 0 <= i < char_edges.len() && char_edges[i] == e;
                    assert(v.char_edges[i].source == p);
                },
                Leaf::Marker(_) => {},
            }
        }
    }
    assert forall|q: usize| v.finals.contains(q) <==> last(h, 0).contains(q as int) || (q == 0 && nullable(h)) by {
        assert(v.finals.contains(q) <==> finals.contains(q));
    }
    assert forall|q: usize| v.finals.contains(q) implies q < v.nb_states by {
        assert(finals.contains(q));
    }
    assert forall|i: int| 0 <= i < v.char_edges.len() implies (#[trigger] v.char_edges[i]).source < v.nb_states
        && v.char_edges[i].target < v.nb_states by {
        let e = char_edges[i];
        assert(char_edges.contains(e));
        let (k, t) = choose|k: int, t: int|
            0 <= k < pairs.len() && #[trigger] pairs[k] == (e.source, e.target) && 0 <= t < ranges_len(
                lv,
                e.target as int,
            ) && #[trigger] range_at(lv, e.target as int, t) == (e.low, e.high);
        assert(pairs.contains((e.source, e.target)));
    }
    assert forall|i: int| 0 <= i < v.marker_edges.len() implies (#[trigger] v.marker_edges[i]).source < v.nb_states
        && v.marker_edges[i].target < v.nb_states && v.marker_edges[i].marker < 2 * v.nb_vars by {
        let e = marker_edges[i];
        assert(marker_edges.contains(e));
        let k = choose|k: int|
            0 <= k < pairs.len() && #[trigger] pairs[k] == (e.source, e.target) && lv[e.target - 1] == Leaf::Marker(
                e.marker,
            );
        assert(pairs.contains((e.source, e.target)));
        lemma_leaf_markers(h, n as int, e.target - 1);
    }
}

/// The position automaton of `h`, whose variables are called `names`.
pub fn glushkov(h: &Hir, names: Vec<String>) -> (r: Result<Automaton, GlushkovError>)
    requires
        h.vars_below(names@.len() as int),
        2 * names@.len() <= usize::MAX,
    ensures
        match r {
            Ok(a) => a.wf() && size(*h) <= MAX_STATES && is_position_automaton(a@, *h, names@.len())
                && a.spec_variables() == names@,
            Err(GlushkovError::TooLarge) => size(*h) > MAX_STATES,
            Err(GlushkovError::RepeatedMarker) => size(*h) <= MAX_STATES && exists|v: AutomatonView|
                is_position_automaton(v, *h, names@.len()) && v.states_ok() && v.markers_ok() && !v.markers_once(),
        },
{
    let ghost n = names@.len();
    let mut symbols: Vec<Symbol> = Vec::new();
    let mut pairs: Vec<(usize, usize)> = Vec::new();
    let local = match build(h, &mut symbols, &mut pairs, Ghost(n as int)) {
        Some(l) => l,
        None => {
            return Err(GlushkovError::TooLarge);
        },
    };
    let ghost lv = leaves_of(symbols@);
    let ghost inner = pairs@;
    proof {
        lemma_spans(*h, 0);
        assert(leaves_of(Seq::<Symbol>::empty()) =~= Seq::<Leaf>::empty());
        assert(lv =~= leaves(*h));
        assert(symbols@.len() == lv.len());
    }
    let zero = single(0);
    link(&mut pairs, &zero, &local.first);
    proof {
        assert forall|x: usize, y: usize| #[trigger] pairs@.contains((x, y)) <==> edge(*h, x as int, y as int) by {
            assert(inner.contains((x, y)) <==> follow(*h, 0).contains((x as int, y as int)));
        }
        assert forall|k: int| 0 <= k < pairs@.len() implies 1 <= (#[trigger] pairs@[k]).1 <= symbols@.len() by {
            assert(pairs@.contains((pairs@[k].0, pairs@[k].1)));
            assert(edge(*h, pairs@[k].0 as int, pairs@[k].1 as int));
        }
    }
    let (char_edges, marker_edges) = edges_of(&symbols, &pairs);
    let mut finals = local.last;
    let ghost lasts = finals@;
    if local.nullable {
        finals.push(0);
    }
    let nb_states = symbols.len() + 1;
    proof {
        assert forall|q: usize| finals@.contains(q) <==> last(*h, 0).contains(q as int) || (q == 0 && nullable(*h)) by {
            if lasts.contains(q) {
                let k = choose|k: int| 0 <= k < lasts.len() && lasts[k] == q;
                assert(finals@[k] == q);
            }
            if finals@.contains(q) {
                let k = choose|k: int| 0 <= k < finals@.len() && finals@[k] == q;
                if k < lasts.len() {
                    assert(lasts[k] == q);
                }
            }
            if q == 0 && nullable(*h) {
                assert(finals@[lasts.len() as int] == 0);
            }
        }
        lemma_given_is_position(*h, n, lv, pairs@, finals@, char_edges@, marker_edges@, nb_states);
    }
    match Automaton::new(nb_states, 0, finals, char_edges, marker_edges, names) {
        Ok(a) => Ok(a),
        Err(AutomatonError::RepeatedMarker) => Err(GlushkovError::RepeatedMarker),
        Err(_) => Err(GlushkovError::TooLarge),
    }
}

} // verus!
