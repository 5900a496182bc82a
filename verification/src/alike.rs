//! Two indexes of the same graph: whatever the order in which the vertices
//! of a level were found, the jump levels, the jumps and the enumeration are
//! the same.

use crate::enumerate::{all_matches, choices_at, jump_level_of, jump_set_of, level_set, pending, stamp};
use crate::expected::expected;
use crate::tables::lemma_ascending_unique;
use crate::graph::{connected, has_edge, is_climb};
use crate::indexed_dag::IndexedDag;
use crate::jump::{climbs_into, is_greatest_jump_level, Jump};
use crate::layers::entered_by;
use crate::next_level::{choices, lemma_choices_within};
use crate::tables::{candidate, is_jump_level, is_reach};
use vstd::prelude::*;

verus! {

/// Both indexes cover `n + 1` levels; a vertex is in a level of the one
/// where it is in that level of the other, an edge leads into a level of
/// the one where it does in the other, and the edges inside the levels are
/// the same.
pub open spec fn alike(j1: &Jump, j2: &Jump, n: int) -> bool {
    &&& j1.wf()
    &&& j2.wf()
    &&& j1.levels().len() == n + 1
    &&& j2.levels().len() == n + 1
    &&& j1.indexed() == n
    &&& j2.indexed() == n
    &&& j1.marks() == j2.marks()
    &&& j1.spec_num_vertices() == j2.spec_num_vertices()
    &&& forall|l: int, q: usize| 0 <= l <= n ==> (#[trigger] j1.levels()[l].contains(q) <==> j2.levels()[l].contains(q))
    &&& forall|l: int, p: usize, q: usize|
        1 <= l <= n ==> (#[trigger] has_edge(j1.steps()[l], p, q) <==> has_edge(j2.steps()[l], p, q))
}

/// A climb in the one index is a climb in the other.
pub proof fn lemma_alike_connected(j1: &Jump, j2: &Jump, n: int, from: int, p: usize, to: int, q: usize)
    requires
        alike(j1, j2, n),
        0 <= from <= to <= n,
        connected(j1.levels(), j1.steps(), from, p, to, q),
    ensures
        connected(j2.levels(), j2.steps(), from, p, to, q),
{
    let path = choose|path: Seq<usize>|
        is_climb(j1.levels(), j1.steps(), from, path) && path.len() == to - from + 1 && path[0] == p && path.last()
            == q;
    assert forall|i: int| 0 <= i < path.len() implies j2.levels()[from + i].contains(#[trigger] path[i]) by {
        assert(j1.levels()[from + i].contains(path[i]));
    }
    assert forall|i: int| 0 <= i < path.len() - 1 implies has_edge(
        j2.steps()[from + i + 1],
        #[trigger] path[i],
        path[i + 1],
    ) by {
        assert(has_edge(j1.steps()[from + i + 1], path[i], path[i + 1]));
    }
    assert(is_climb(j2.levels(), j2.steps(), from, path));
}

/// The same vertices are entered by an edge inside a level.
pub proof fn lemma_alike_nonjump(j1: &Jump, j2: &Jump, n: int, l: int)
    requires
        alike(j1, j2, n),
        0 <= l <= n,
    ensures
        j1.nonjump_at(l) == j2.nonjump_at(l),
{
    assert forall|t: usize| j1.nonjump_at(l).contains(t) <==> j2.nonjump_at(l).contains(t) by {
        j1.lemma_nonjump(l, t);
        j2.lemma_nonjump(l, t);
        if entered_by(j1.marks(), j1.levels()[l], t) && j1.levels()[l].contains(t) {
            let p = choose|p: usize| j1.levels()[l].contains(p) && #[trigger] has_edge(j1.marks(), p, t);
            assert(j2.levels()[l].contains(p) && has_edge(j2.marks(), p, t));
        }
        if entered_by(j2.marks(), j2.levels()[l], t) && j2.levels()[l].contains(t) {
            let p = choose|p: usize| j2.levels()[l].contains(p) && #[trigger] has_edge(j2.marks(), p, t);
            assert(j1.levels()[l].contains(p) && has_edge(j1.marks(), p, t));
        }
    }
    assert(j1.nonjump_at(l) =~= j2.nonjump_at(l));
}

/// The jump level of a vertex is the same in both indexes.
pub proof fn lemma_alike_jump_level(j1: &Jump, j2: &Jump, n: int, l: int, q: usize)
    requires
        alike(j1, j2, n),
        0 <= l <= n,
        j1.levels()[l].contains(q),
    ensures
        q < j1.jl_row(l).len(),
        q < j2.jl_row(l).len(),
        j1.jl_row(l)[q as int] == j2.jl_row(l)[q as int],
    decreases l, 1int,
{
    j1.lemma_levels_distinct(l);
    j2.lemma_levels_distinct(l);
    assert(j1.jl_row(l).len() == j1.spec_num_vertices());
    assert(j2.jl_row(l).len() == j2.spec_num_vertices());
    if l == 0 {
        j1.lemma_jump_level_first(q);
        j2.lemma_jump_level_first(q);
    } else {
        j1.lemma_jump_level(l, q);
        j2.lemma_jump_level(l, q);
        lemma_alike_half(j1, j2, n, l, q);
        lemma_alike_half(j2, j1, n, l, q);
    }
}

/// The jump level of a vertex in the one index is not above its jump level
/// in the other.
proof fn lemma_alike_half(j1: &Jump, j2: &Jump, n: int, l: int, q: usize)
    requires
        alike(j1, j2, n) || alike(j2, j1, n),
        1 <= l <= n,
        j1.levels()[l].contains(q),
        j2.levels()[l].contains(q),
        q < j1.jl_row(l).len(),
        q < j2.jl_row(l).len(),
        is_jump_level(
            j1.levels()[l - 1],
            j1.steps()[l],
            l - 1,
            j1.nonjump_at(l - 1),
            j1.jl_row(l - 1),
            q,
            j1.jl_row(l)[q as int] as int,
        ),
        is_jump_level(
            j2.levels()[l - 1],
            j2.steps()[l],
            l - 1,
            j2.nonjump_at(l - 1),
            j2.jl_row(l - 1),
            q,
            j2.jl_row(l)[q as int] as int,
        ),
    ensures
        j1.jl_row(l)[q as int] <= j2.jl_row(l)[q as int],
    decreases l, 0int,
{
    let v1 = j1.jl_row(l)[q as int] as int;
    let v2 = j2.jl_row(l)[q as int] as int;
    if v1 != 0 {
        let p = choose|p: usize|
            j1.levels()[l - 1].contains(p) && #[trigger] has_edge(j1.steps()[l], p, q) && candidate(
                l - 1,
                j1.nonjump_at(l - 1),
                j1.jl_row(l - 1),
                p,
            ) == v1;
        if alike(j1, j2, n) {
            lemma_alike_nonjump(j1, j2, n, l - 1);
            lemma_alike_jump_level(j1, j2, n, l - 1, p);
        } else {
            lemma_alike_nonjump(j2, j1, n, l - 1);
            lemma_alike_jump_level(j2, j1, n, l - 1, p);
        }
        assert(j2.levels()[l - 1].contains(p) && has_edge(j2.steps()[l], p, q));
        assert(candidate(l - 1, j2.nonjump_at(l - 1), j2.jl_row(l - 1), p) == v1);
    }
}

/// Among the jump levels of the vertices of a set that is not empty, one
/// is the greatest.
pub proof fn lemma_greatest_exists(jl: Seq<usize>, level: Seq<usize>, upto: int, gamma: Set<usize>) -> (v: usize)
    requires
        0 <= upto <= level.len(),
        forall|q: usize| gamma.contains(q) ==> level.take(upto).contains(q),
        exists|q: usize| gamma.contains(q),
    ensures
        is_greatest_jump_level(jl, gamma, v),
    decreases upto,
{
    let q0 = choose|q: usize| gamma.contains(q);
    assert(level.take(upto).contains(q0));
    assert(upto > 0);
    let top = level[upto - 1];
    let fewer = gamma.remove(top);
    assert forall|q: usize| fewer.contains(q) implies level.take(upto - 1).contains(q) by {
        let i = choose|i: int| 0 <= i < level.take(upto).len() && level.take(upto)[i] == q;
        assert(i != upto - 1);
        assert(level.take(upto - 1)[i] == q);
    }
    if exists|q: usize| fewer.contains(q) {
        let v = lemma_greatest_exists(jl, level, upto - 1, fewer);
        if gamma.contains(top) && jl[top as int] > v {
            assert forall|q: usize| gamma.contains(q) implies (#[trigger] jl[q as int]) <= jl[top as int] by {
                if q != top {
                    assert(fewer.contains(q));
                }
            }
            jl[top as int]
        } else {
            let w = choose|w: usize| fewer.contains(w) && (#[trigger] jl[w as int]) == v;
            assert(gamma.contains(w));
            assert forall|q: usize| gamma.contains(q) implies (#[trigger] jl[q as int]) <= v by {
                if q != top {
                    assert(fewer.contains(q));
                }
            }
            v
        }
    } else {
        assert(gamma.contains(top)) by {
            if q0 != top {
                assert(fewer.contains(q0));
            }
        }
        assert forall|q: usize| gamma.contains(q) implies (#[trigger] jl[q as int]) <= jl[top as int] by {
            if q != top {
                assert(fewer.contains(q));
            }
        }
        jl[top as int]
    }
}

/// The level to which a set of vertices jumps is the greatest of their
/// jump levels.
pub proof fn lemma_jump_level_of(j: &Jump, level: int, gamma: Set<usize>)
    requires
        j.wf(),
        0 <= level < j.levels().len(),
        gamma.subset_of(level_set(j, level)),
        gamma != Set::<usize>::empty(),
    ensures
        is_greatest_jump_level(j.jl_row(level), gamma, jump_level_of(j, level, gamma)),
{
    if forall|q: usize| !gamma.contains(q) {
        assert(gamma =~= Set::<usize>::empty());
    }
    let cur = j.levels()[level];
    assert(cur.take(cur.len() as int) =~= cur);
    assert forall|q: usize| gamma.contains(q) implies cur.take(cur.len() as int).contains(q) by {
        assert(level_set(j, level).contains(q));
    }
    let v = lemma_greatest_exists(j.jl_row(level), cur, cur.len() as int, gamma);
}

/// Above the first level, a set of vertices jumps to a level below.
pub proof fn lemma_jump_below(j: &Jump, level: int, gamma: Set<usize>)
    requires
        j.wf(),
        1 <= level <= j.indexed(),
        gamma.subset_of(level_set(j, level)),
        gamma != Set::<usize>::empty(),
    ensures
        is_greatest_jump_level(j.jl_row(level), gamma, jump_level_of(j, level, gamma)),
        jump_level_of(j, level, gamma) < level,
{
    lemma_jump_level_of(j, level, gamma);
    let v = jump_level_of(j, level, gamma);
    let w = choose|w: usize| gamma.contains(w) && (#[trigger] j.jl_row(level)[w as int]) == v;
    assert(level_set(j, level).contains(w));
    j.lemma_jump_level(level, w);
}

/// A set of vertices jumps to the same level and to the same vertices in
/// both indexes.
pub proof fn lemma_alike_jump(j1: &Jump, j2: &Jump, n: int, level: int, gamma: Set<usize>)
    requires
        alike(j1, j2, n),
        0 <= level <= n,
        gamma.subset_of(level_set(j1, level)),
        gamma != Set::<usize>::empty(),
    ensures
        jump_level_of(j1, level, gamma) == jump_level_of(j2, level, gamma),
        jump_set_of(j1, level, gamma) == jump_set_of(j2, level, gamma),
        jump_level_of(j1, level, gamma) <= level,
        level >= 1 ==> jump_level_of(j1, level, gamma) < level,
{
    assert(gamma.subset_of(level_set(j2, level))) by {
        assert forall|q: usize| gamma.contains(q) implies level_set(j2, level).contains(q) by {
            assert(level_set(j1, level).contains(q));
        }
    }
    lemma_jump_level_of(j1, level, gamma);
    lemma_jump_level_of(j2, level, gamma);
    let v1 = jump_level_of(j1, level, gamma);
    let v2 = jump_level_of(j2, level, gamma);
    let w1 = choose|w: usize| gamma.contains(w) && (#[trigger] j1.jl_row(level)[w as int]) == v1;
    let w2 = choose|w: usize| gamma.contains(w) && (#[trigger] j2.jl_row(level)[w as int]) == v2;
    assert(level_set(j1, level).contains(w1));
    assert(level_set(j1, level).contains(w2));
    lemma_alike_jump_level(j1, j2, n, level, w1);
    lemma_alike_jump_level(j1, j2, n, level, w2);
    assert(j2.jl_row(level)[w1 as int] <= v2);
    assert(j1.jl_row(level)[w2 as int] <= v1);
    assert(v1 == v2);
    if level >= 1 {
        j1.lemma_jump_level(level, w1);
    } else {
        j1.lemma_jump_level_first(w1);
    }
    let to = v1 as int;
    assert forall|p: usize| jump_set_of(j1, level, gamma).contains(p) <==> jump_set_of(j2, level, gamma).contains(
        p,
    ) by {
        if j1.levels()[to].contains(p) && climbs_into(j1.levels(), j1.steps(), to, p, level, gamma) {
            let q = choose|q: usize| gamma.contains(q) && #[trigger] connected(j1.levels(), j1.steps(), to, p, level, q);
            lemma_alike_connected(j1, j2, n, to, p, level, q);
        }
        if j2.levels()[to].contains(p) && climbs_into(j2.levels(), j2.steps(), to, p, level, gamma) {
            let q = choose|q: usize| gamma.contains(q) && #[trigger] connected(j2.levels(), j2.steps(), to, p, level, q);
            lemma_alike_connected(j2, j1, n, to, p, level, q);
        }
    }
    assert(jump_set_of(j1, level, gamma) =~= jump_set_of(j2, level, gamma));
}

/// The matches that come from choices at a level are the same in both
/// indexes.
pub proof fn lemma_alike_pending(
    rev: Seq<Seq<(usize, usize)>>,
    j1: &Jump,
    j2: &Jump,
    n: int,
    positions: Seq<usize>,
    initial: usize,
    level: int,
    partial: Seq<(usize, usize)>,
    cs: Seq<(Seq<usize>, Set<usize>)>,
)
    requires
        alike(j1, j2, n),
        0 <= level <= n,
        forall|i: int| 0 <= i < cs.len() ==> (#[trigger] cs[i]).1.subset_of(level_set(j1, level)),
    ensures
        pending(rev, j1, positions, initial, level, partial, cs) == pending(
            rev,
            j2,
            positions,
            initial,
            level,
            partial,
            cs,
        ),
    decreases level, cs.len(),
{
    if cs.len() > 0 {
        let c = cs[0];
        let rest_cs = cs.drop_first();
        assert forall|i: int| 0 <= i < rest_cs.len() implies (#[trigger] rest_cs[i]).1.subset_of(
            level_set(j1, level),
        ) by {
            assert(rest_cs[i] == cs[i + 1]);
        }
        lemma_alike_pending(rev, j1, j2, n, positions, initial, level, partial, rest_cs);
        if c.1 != Set::<usize>::empty() && level > 0 {
            lemma_alike_jump(j1, j2, n, level, c.1);
            let to = jump_level_of(j1, level, c.1) as int;
            let below = jump_set_of(j1, level, c.1);
            let extended = partial + stamp(c.0, positions[level]);
            assert(level_set(j1, to) =~= level_set(j2, to));
            let next_cs = choices_at(rev, j1, to, below);
            assert(next_cs == choices_at(rev, j2, to, below));
            assert forall|i: int| 0 <= i < next_cs.len() implies (#[trigger] next_cs[i]).1.subset_of(
                level_set(j1, to),
            ) by {
                lemma_choices_within(rev, below, level_set(j1, to), expected(rev, below), i);
            }
            lemma_alike_pending(rev, j1, j2, n, positions, initial, to, extended, next_cs);
        }
    }
}

/// The tables are determined by the levels: two indexes with the same
/// lists of vertices, level by level, and the same edges hold the same jump
/// levels, the same jump targets and the same matrices.
pub proof fn lemma_tables_determined(j1: &Jump, j2: &Jump, n: int, l: int)
    requires
        alike(j1, j2, n),
        j1.levels() == j2.levels(),
        0 <= l <= n,
    ensures
        j1.jl_row(l) == j2.jl_row(l),
        j1.rlevel_at(l) == j2.rlevel_at(l),
        j1.reach_count(l) == j2.reach_count(l),
        forall|k: int| 0 <= k < j1.reach_count(l) ==> j1.reach_at(l, k) == j2.reach_at(l, k),
{
    let cur = j1.levels()[l];
    assert(j1.jl_row(l).len() == j1.spec_num_vertices());
    assert(j2.jl_row(l).len() == j2.spec_num_vertices());
    assert forall|q: int| 0 <= q < j1.jl_row(l).len() implies j1.jl_row(l)[q] == j2.jl_row(l)[q] by {
        let v = q as usize;
        if cur.contains(v) {
            lemma_alike_jump_level(j1, j2, n, l, v);
        } else if l >= 1 {
            assert(j1.jl_holds(l));
            assert(j2.jl_holds(l));
            assert(j1.jl_row(l)[v as int] == 0);
            assert(j2.jl_row(l)[v as int] == 0);
        } else {
            j1.lemma_jump_level_first(v);
            j2.lemma_jump_level_first(v);
        }
    }
    assert(j1.jl_row(l) =~= j2.jl_row(l));
    if l >= 1 {
        j1.lemma_jump_targets(l);
        j2.lemma_jump_targets(l);
        assert forall|x: usize| j1.rlevel_at(l).contains(x) <==> j2.rlevel_at(l).contains(x) by {}
        lemma_ascending_unique(j1.rlevel_at(l), j2.rlevel_at(l));
        assert(j1.reach_holds(l));
        assert(j2.reach_holds(l));
        assert forall|k: int| 0 <= k < j1.reach_count(l) implies j1.reach_at(l, k) == j2.reach_at(l, k) by {
            let sub = j1.rlevel_at(l)[k] as int;
            let m1 = j1.reach_at(l, k);
            let m2 = j2.reach_at(l, k);
            assert(is_reach(j1.levels(), j1.steps(), sub, l, m1));
            assert(j2.rlevel_at(l)[k] == j1.rlevel_at(l)[k]);
            assert(is_reach(j2.levels(), j2.steps(), sub, l, m2));
            assert forall|r: int| 0 <= r < m1.len() implies m1[r] == m2[r] by {
                assert forall|c: int| 0 <= c < m1[r].len() implies m1[r][c] == m2[r][c] by {
                    let p = j1.levels()[sub][c];
                    let q = j1.levels()[l][r];
                    if connected(j1.levels(), j1.steps(), sub, p, l, q) {
                        lemma_alike_connected(j1, j2, n, sub, p, l, q);
                    }
                    if connected(j2.levels(), j2.steps(), sub, p, l, q) {
                        lemma_alike_connected(j2, j1, n, sub, p, l, q);
                    }
                }
                assert(m1[r] =~= m2[r]);
            }
            assert(m1 =~= m2);
        }
    } else {
        assert(j1.rlevel_at(0) =~= j2.rlevel_at(0));
    }
}

/// The enumeration is determined by what is indexed: two indexes of the
/// same automaton on the same text, trimmed by the same strategy, hand out
/// the same matches in the same order.
pub proof fn lemma_matches_determined(d1: &IndexedDag, d2: &IndexedDag)
    requires
        d1.wf(),
        d2.wf(),
        d1.index() is Some,
        d2.index() is Some,
        d1.spec_automaton() == d2.spec_automaton(),
        d1.spec_text() == d2.spec_text(),
        d1.spec_strategy() == d2.spec_strategy(),
    ensures
        all_matches(d1) == all_matches(d2),
{
    let j1 = d1.index()->0;
    let j2 = d2.index()->0;
    let a = d1.spec_automaton();
    let text = d1.spec_text();
    let n = text.len() as int;
    assert(d1.spec_positions() =~= d2.spec_positions());
    if !j1.spec_disconnected() {
        assert(alike(&j1, &j2, n)) by {
            assert forall|l: int, p: usize, q: usize| 1 <= l <= n implies (#[trigger] has_edge(j1.steps()[l], p, q)
                <==> has_edge(j2.steps()[l], p, q)) by {
                assert(crate::automaton::is_char_adj(a@, text[l - 1], j1.steps()[l]));
                assert(crate::automaton::is_char_adj(a@, text[l - 1], j2.steps()[l]));
            }
        }
        let rev = a.back_adj();
        let gamma = level_set(&j1, n).intersect(a@.finals);
        assert(level_set(&j1, n) =~= level_set(&j2, n));
        let cs = choices_at(rev, &j1, n, gamma);
        assert forall|i: int| 0 <= i < cs.len() implies (#[trigger] cs[i]).1.subset_of(level_set(&j1, n)) by {
            lemma_choices_within(rev, gamma, level_set(&j1, n), expected(rev, gamma), i);
        }
        lemma_alike_pending(rev, &j1, &j2, n, d1.spec_positions(), a@.initial, n, Seq::empty(), cs);
    }
}

} // verus!
