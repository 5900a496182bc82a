//! No match is handed out twice.

use crate::automaton::{is_back_adj, AutomatonView};
use crate::enumerate::{all_matches, choices_at, jump_level_of, jump_set_of, level_set, pending, stamp};
use crate::expected::expected;
use crate::indexed_dag::IndexedDag;
use crate::jump::Jump;
use crate::next_level::lemma_choices_distinct;
use crate::runs::lemma_expected_ok;
use crate::text::{byte_offset, lemma_byte_offset_step};
use vstd::prelude::*;

verus! {

/// The positions of the first `n + 1` levels ascend strictly.
pub open spec fn positions_ascend(positions: Seq<usize>, n: int) -> bool {
    forall|l1: int, l2: int| 0 <= l1 < l2 <= n ==> #[trigger] positions[l1] < #[trigger] positions[l2]
}

/// Every later character starts at a greater byte offset.
pub proof fn lemma_offsets_ascend(text: Seq<char>, l1: int, l2: int)
    requires
        0 <= l1 < l2 <= text.len(),
    ensures
        byte_offset(text, l1) < byte_offset(text, l2),
    decreases l2 - l1,
{
    lemma_byte_offset_step(text, l2 - 1);
    if l2 - 1 > l1 {
        lemma_offsets_ascend(text, l1, l2 - 1);
    }
}

/// Every entry of `s` stands at a position above `pos`.
pub open spec fn all_above(s: Seq<(usize, usize)>, pos: usize) -> bool {
    forall|t: int| 0 <= t < s.len() ==> (#[trigger] s[t]).1 > pos
}

/// Every entry of `s` stands at a position below `pos`.
pub open spec fn all_below(s: Seq<(usize, usize)>, pos: usize) -> bool {
    forall|t: int| 0 <= t < s.len() ==> (#[trigger] s[t]).1 < pos
}

/// Each match that comes from choices at a level is made of the markers met
/// above, the markers of one of the choices at the position of the level,
/// and markers at positions below.
pub proof fn lemma_pending_shape(
    rev: Seq<Seq<(usize, usize)>>,
    j: &Jump,
    positions: Seq<usize>,
    initial: usize,
    n: int,
    level: int,
    partial: Seq<(usize, usize)>,
    cs: Seq<(Seq<usize>, Set<usize>)>,
    k: int,
) -> (r: (int, Seq<(usize, usize)>))
    requires
        positions_ascend(positions, n),
        0 <= level <= n,
        0 <= k < pending(rev, j, positions, initial, level, partial, cs).len(),
    ensures
        0 <= r.0 < cs.len(),
        pending(rev, j, positions, initial, level, partial, cs)[k] == partial + stamp(cs[r.0].0, positions[level])
            + r.1,
        all_below(r.1, positions[level]),
    decreases level, cs.len(),
{
    let c = cs[0];
    let rest_cs = cs.drop_first();
    let rest = pending(rev, j, positions, initial, level, partial, rest_cs);
    let extended = partial + stamp(c.0, positions[level]);
    let none = Seq::<(usize, usize)>::empty();
    if c.1 == Set::<usize>::empty() {
        let (i, tail) = lemma_pending_shape(rev, j, positions, initial, n, level, partial, rest_cs, k);
        assert(rest_cs[i] == cs[i + 1]);
        (i + 1, tail)
    } else if level <= 0 {
        if c.1.contains(initial) && k == 0 {
            assert(extended + none =~= extended);
            (0, none)
        } else {
            let k2 = if c.1.contains(initial) { k - 1 } else { k };
            let (i, tail) = lemma_pending_shape(rev, j, positions, initial, n, level, partial, rest_cs, k2);
            assert(rest_cs[i] == cs[i + 1]);
            (i + 1, tail)
        }
    } else {
        let to = jump_level_of(j, level, c.1) as int;
        if to < level && k >= rest.len() {
            let next_cs = choices_at(rev, j, to, jump_set_of(j, level, c.1));
            let (i, tail) = lemma_pending_shape(rev, j, positions, initial, n, to, extended, next_cs, k - rest.len());
            let lower = stamp(next_cs[i].0, positions[to]) + tail;
            assert(positions[to] < positions[level]);
            assert(all_below(lower, positions[level])) by {
                assert forall|t: int| 0 <= t < lower.len() implies (#[trigger] lower[t]).1 < positions[level] by {
                    if t >= next_cs[i].0.len() {
                        assert(lower[t] == tail[t - next_cs[i].0.len()]);
                    }
                }
            }
            assert(extended + stamp(next_cs[i].0, positions[to]) + tail =~= partial + stamp(c.0, positions[level])
                + lower);
            (0, lower)
        } else {
            let (i, tail) = lemma_pending_shape(rev, j, positions, initial, n, level, partial, rest_cs, k);
            assert(rest_cs[i] == cs[i + 1]);
            (i + 1, tail)
        }
    }
}

/// Two lists that are made alike but for the markers at one position hold
/// the same pairs only if the markers are the same.
pub proof fn lemma_middle_differs(
    partial: Seq<(usize, usize)>,
    pos: usize,
    m1: Seq<usize>,
    t1: Seq<(usize, usize)>,
    m2: Seq<usize>,
    t2: Seq<(usize, usize)>,
)
    requires
        all_above(partial, pos),
        all_below(t1, pos),
        all_below(t2, pos),
        m1.to_set() != m2.to_set(),
    ensures
        (partial + stamp(m1, pos) + t1).to_set() != (partial + stamp(m2, pos) + t2).to_set(),
{
    let s1 = partial + stamp(m1, pos) + t1;
    let s2 = partial + stamp(m2, pos) + t2;
    assert forall|m: usize| m1.contains(m) <==> s1.contains((m, pos)) by {
        if m1.contains(m) {
            let i = choose|i: int| 0 <= i < m1.len() && m1[i] == m;
            assert(s1[partial.len() + i] == (m, pos));
        }
        if s1.contains((m, pos)) {
            let i = choose|i: int| 0 <= i < s1.len() && s1[i] == (m, pos);
            if i < partial.len() {
                assert(partial[i].1 > pos);
            } else if i < partial.len() + m1.len() {
                assert(m1[i - partial.len()] == m);
            } else {
                assert(t1[i - partial.len() - m1.len()].1 < pos);
            }
        }
    }
    assert forall|m: usize| m2.contains(m) <==> s2.contains((m, pos)) by {
        if m2.contains(m) {
            let i = choose|i: int| 0 <= i < m2.len() && m2[i] == m;
            assert(s2[partial.len() + i] == (m, pos));
        }
        if s2.contains((m, pos)) {
            let i = choose|i: int| 0 <= i < s2.len() && s2[i] == (m, pos);
            if i < partial.len() {
                assert(partial[i].1 > pos);
            } else if i < partial.len() + m2.len() {
                assert(m2[i - partial.len()] == m);
            } else {
                assert(t2[i - partial.len() - m2.len()].1 < pos);
            }
        }
    }
    if s1.to_set() == s2.to_set() {
        assert forall|m: usize| m1.to_set().contains(m) <==> m2.to_set().contains(m) by {
            assert(s1.to_set().contains((m, pos)) <==> s2.to_set().contains((m, pos)));
        }
        assert(m1.to_set() =~= m2.to_set());
    }
}

/// Two choices of `cs` differ in their markers.
pub open spec fn choices_differ(cs: Seq<(Seq<usize>, Set<usize>)>) -> bool {
    forall|i1: int, i2: int|
        0 <= i1 < i2 < cs.len() ==> (#[trigger] cs[i1]).0.to_set() != (#[trigger] cs[i2]).0.to_set()
}

/// Two matches that come from choices at a level are not the same.
pub proof fn lemma_pending_distinct(
    a: AutomatonView,
    rev: Seq<Seq<(usize, usize)>>,
    j: &Jump,
    positions: Seq<usize>,
    n: int,
    level: int,
    partial: Seq<(usize, usize)>,
    cs: Seq<(Seq<usize>, Set<usize>)>,
    k1: int,
    k2: int,
)
    requires
        is_back_adj(a, rev),
        2 * a.nb_vars <= usize::MAX,
        positions_ascend(positions, n),
        0 <= level <= n,
        all_above(partial, positions[level]),
        choices_differ(cs),
        0 <= k1 < k2 < pending(rev, j, positions, a.initial, level, partial, cs).len(),
    ensures
        pending(rev, j, positions, a.initial, level, partial, cs)[k1].to_set() != pending(
            rev,
            j,
            positions,
            a.initial,
            level,
            partial,
            cs,
        )[k2].to_set(),
    decreases level, cs.len(),
{
    let initial = a.initial;
    let c = cs[0];
    let rest_cs = cs.drop_first();
    let rest = pending(rev, j, positions, initial, level, partial, rest_cs);
    let extended = partial + stamp(c.0, positions[level]);
    let none = Seq::<(usize, usize)>::empty();
    assert(choices_differ(rest_cs)) by {
        assert forall|i1: int, i2: int| 0 <= i1 < i2 < rest_cs.len() implies (#[trigger] rest_cs[i1]).0.to_set() != (
        #[trigger] rest_cs[i2]).0.to_set() by {
            assert(rest_cs[i1] == cs[i1 + 1] && rest_cs[i2] == cs[i2 + 1]);
        }
    }
    if c.1 == Set::<usize>::empty() {
        lemma_pending_distinct(a, rev, j, positions, n, level, partial, rest_cs, k1, k2);
    } else if level <= 0 {
        if c.1.contains(initial) {
            if k1 == 0 {
                let (i, tail) = lemma_pending_shape(rev, j, positions, initial, n, level, partial, rest_cs, k2 - 1);
                assert(rest_cs[i] == cs[i + 1]);
                assert(c.0.to_set() != cs[i + 1].0.to_set());
                lemma_middle_differs(partial, positions[level], c.0, none, cs[i + 1].0, tail);
                assert(extended + none =~= extended);
            } else {
                lemma_pending_distinct(a, rev, j, positions, n, level, partial, rest_cs, k1 - 1, k2 - 1);
            }
        } else {
            lemma_pending_distinct(a, rev, j, positions, n, level, partial, rest_cs, k1, k2);
        }
    } else {
        let to = jump_level_of(j, level, c.1) as int;
        if to < level {
            let below = jump_set_of(j, level, c.1);
            let next_cs = choices_at(rev, j, to, below);
            let child = pending(rev, j, positions, initial, to, extended, next_cs);
            if k2 < rest.len() {
                lemma_pending_distinct(a, rev, j, positions, n, level, partial, rest_cs, k1, k2);
            } else if k1 < rest.len() {
                let (i, tail1) = lemma_pending_shape(rev, j, positions, initial, n, level, partial, rest_cs, k1);
                assert(rest_cs[i] == cs[i + 1]);
                let (i2, tail2) = lemma_pending_shape(rev, j, positions, initial, n, to, extended, next_cs, k2 - rest.len());
                let lower = stamp(next_cs[i2].0, positions[to]) + tail2;
                assert(positions[to] < positions[level]);
                assert(all_below(lower, positions[level])) by {
                    assert forall|t: int| 0 <= t < lower.len() implies (#[trigger] lower[t]).1 < positions[level] by {
                        if t >= next_cs[i2].0.len() {
                            assert(lower[t] == tail2[t - next_cs[i2].0.len()]);
                        }
                    }
                }
                assert(extended + stamp(next_cs[i2].0, positions[to]) + tail2 =~= partial + stamp(
                    c.0,
                    positions[level],
                ) + lower);
                assert(cs[i + 1].0.to_set() != c.0.to_set());
                lemma_middle_differs(partial, positions[level], cs[i + 1].0, tail1, c.0, lower);
            } else {
                lemma_expected_ok(a, rev, below);
                assert(choices_differ(next_cs)) by {
                    assert forall|i1: int, i2: int| 0 <= i1 < i2 < next_cs.len() implies (#[trigger] next_cs[i1]).0.to_set()
                        != (#[trigger] next_cs[i2]).0.to_set() by {
                        lemma_choices_distinct(rev, below, level_set(j, to), expected(rev, below), i1, i2);
                    }
                }
                assert(positions[to] < positions[level]);
                assert(all_above(extended, positions[to])) by {
                    assert forall|t: int| 0 <= t < extended.len() implies (#[trigger] extended[t]).1 > positions[to] by {
                        if t < partial.len() {
                            assert(extended[t] == partial[t]);
                        }
                    }
                }
                lemma_pending_distinct(
                    a,
                    rev,
                    j,
                    positions,
                    n,
                    to,
                    extended,
                    next_cs,
                    k1 - rest.len(),
                    k2 - rest.len(),
                );
            }
        } else {
            lemma_pending_distinct(a, rev, j, positions, n, level, partial, rest_cs, k1, k2);
        }
    }
}

/// The enumeration hands out no match twice: two matches at different
/// places in the enumeration differ in a marker or in its position.
pub proof fn lemma_matches_distinct(dag: &IndexedDag, k1: int, k2: int)
    requires
        dag.wf(),
        0 <= k1 < k2 < all_matches(dag).len(),
    ensures
        all_matches(dag)[k1].to_set() != all_matches(dag)[k2].to_set(),
{
    let a = dag.spec_automaton()@;
    let rev = dag.spec_automaton().back_adj();
    let text = dag.spec_text();
    let positions = dag.spec_positions();
    let j = dag.index()->0;
    let n = text.len() as int;
    dag.spec_automaton().lemma_wf();
    assert(positions_ascend(positions, n)) by {
        assert forall|l1: int, l2: int| 0 <= l1 < l2 <= n implies #[trigger] positions[l1] < #[trigger] positions[l2] by {
            lemma_offsets_ascend(text, l1, l2);
        }
    }
    let gamma = level_set(&j, n).intersect(a.finals);
    let cs = choices_at(rev, &j, n, gamma);
    lemma_expected_ok(a, rev, gamma);
    assert(choices_differ(cs)) by {
        assert forall|i1: int, i2: int| 0 <= i1 < i2 < cs.len() implies (#[trigger] cs[i1]).0.to_set() != (
        #[trigger] cs[i2]).0.to_set() by {
            lemma_choices_distinct(rev, gamma, level_set(&j, n), expected(rev, gamma), i1, i2);
        }
    }
    lemma_pending_distinct(a, rev, &j, positions, n, n, Seq::empty(), cs, k1, k2);
}

} // verus!
