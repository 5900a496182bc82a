//! Filling the levels of a layered graph: the edges that lead from one level
//! into the next, and the saturation of a level under the edges inside it.

use crate::bits::{members, set_insert, set_new};
use crate::graph::{
    adj_view, adjacency_ok, closed_under, has_edge, lemma_closed_holds_reachable, lemma_distinct_bounded,
    lemma_reaches_edge, lemma_reaches_self, reaches,
};
use crate::levelset::{push_new, LevelSet};
use bit_set::BitSet;
use vstd::prelude::*;

verus! {

/// Some vertex of `level` has an edge to `t`.
pub open spec fn entered_by(adj: Seq<Seq<usize>>, level: Seq<usize>, t: usize) -> bool {
    exists|p: usize| level.contains(p) && #[trigger] has_edge(adj, p, t)
}

/// Some vertex of `start` reaches `q` by a walk, possibly of no edge.
pub open spec fn reached_from(adj: Seq<Seq<usize>>, start: Seq<usize>, q: usize) -> bool {
    exists|p: usize| start.contains(p) && #[trigger] reaches(adj, p, q)
}

/// The targets of the edges of `adj` that leave a vertex of `level`.
pub open spec fn targets_of(adj: Seq<Seq<usize>>, level: Seq<usize>) -> Set<usize> {
    Set::new(|t: usize| entered_by(adj, level, t))
}

/// An edge of `adj` from a vertex of `prev` leads to a vertex from which a
/// walk along the edges of `marks` leads to `q`.
pub open spec fn led_into(marks: Seq<Seq<usize>>, adj: Seq<Seq<usize>>, prev: Seq<usize>, q: usize) -> bool {
    exists|t: usize| entered_by(adj, prev, t) && #[trigger] reaches(marks, t, q)
}

/// `nj` holds exactly the vertices of `level` that an edge from a vertex of
/// `level` enters.
pub open spec fn nonjump_ok(adj: Seq<Seq<usize>>, level: Seq<usize>, nj: Set<usize>) -> bool {
    forall|t: usize| #[trigger] nj.contains(t) <==> level.contains(t) && entered_by(adj, level, t)
}

/// `longer` begins with `shorter`.
pub open spec fn extends(longer: Seq<usize>, shorter: Seq<usize>) -> bool {
    &&& shorter.len() <= longer.len()
    &&& forall|i: int| 0 <= i < shorter.len() ==> longer[i] == shorter[i]
}

/// `s` with each of `items` appended in turn, unless it already occurs.
pub open spec fn push_all(s: Seq<usize>, items: Seq<usize>) -> Seq<usize>
    decreases items.len(),
{
    if items.len() == 0 {
        s
    } else {
        push_new(push_all(s, items.drop_last()), items.last())
    }
}

/// `acc` with the targets of the edges of `adj` that leave the vertices
/// `sources` appended as they are found, each once: the sources are taken
/// in their order, and the edges of a source in the order of `adj`.
pub open spec fn spread_into(adj: Seq<Seq<usize>>, sources: Seq<usize>, acc: Seq<usize>) -> Seq<usize>
    decreases sources.len(),
{
    if sources.len() == 0 {
        acc
    } else {
        push_all(spread_into(adj, sources.drop_last(), acc), adj[sources.last() as int])
    }
}

/// What `push_new` does to the membership test and to the old entries.
pub proof fn lemma_push_new(s: Seq<usize>, t: usize)
    ensures
        extends(push_new(s, t), s),
        push_new(s, t).contains(t),
        forall|q: usize| #[trigger] push_new(s, t).contains(q) <==> s.contains(q) || q == t,
{
    let r = push_new(s, t);
    if !s.contains(t) {
        assert(r[s.len() as int] == t);
    }
    assert forall|q: usize| #[trigger] r.contains(q) <==> s.contains(q) || q == t by {
        if s.contains(q) {
            let k = choose|k: int| 0 <= k < s.len() && s[k] == q;
            assert(r[k] == q);
        }
        if r.contains(q) {
            let k = choose|k: int| 0 <= k < r.len() && r[k] == q;
            if k < s.len() {
                assert(s[k] == q);
            }
        }
    }
}

/// Registers in level `to` the target of every edge of `adj` that leaves a
/// vertex of level `from`.
pub fn spread(levelset: &mut LevelSet, from: usize, to: usize, adj: &Vec<Vec<usize>>)
    requires
        old(levelset).wf(),
        from < old(levelset)@.len(),
        to < old(levelset)@.len(),
        from != to,
        adjacency_ok(adj_view(adj), old(levelset).spec_num_vertices() as nat),
    ensures
        final(levelset).wf(),
        final(levelset).spec_num_vertices() == old(levelset).spec_num_vertices(),
        final(levelset)@.len() == old(levelset)@.len(),
        forall|l: int| 0 <= l < old(levelset)@.len() && l != to ==> final(levelset)@[l] == old(levelset)@[l],
        extends(final(levelset)@[to as int], old(levelset)@[to as int]),
        final(levelset)@[to as int] == spread_into(
            adj_view(adj),
            old(levelset)@[from as int],
            old(levelset)@[to as int],
        ),
        forall|q: usize|
            final(levelset)@[to as int].contains(q) <==> old(levelset)@[to as int].contains(q) || entered_by(
                adj_view(adj),
                old(levelset)@[from as int],
                q,
            ),
{
    let ghost adjv = adj_view(adj);
    let ghost sources = levelset@[from as int];
    let ghost before = levelset@[to as int];
    let n = levelset.get_level(from).len();
    let mut i: usize = 0;
    proof {
        levelset.lemma_level_distinct(from as int);
    }
    while i < n
        invariant
            i <= n,
            n == sources.len(),
            levelset.wf(),
            levelset.spec_num_vertices() == old(levelset).spec_num_vertices(),
            levelset@.len() == old(levelset)@.len(),
            from < levelset@.len(),
            to < levelset@.len(),
            from != to,
            adjv == adj_view(adj),
            adjacency_ok(adjv, levelset.spec_num_vertices() as nat),
            sources == old(levelset)@[from as int],
            before == old(levelset)@[to as int],
            forall|k: int| 0 <= k < sources.len() ==> (#[trigger] sources[k]) < levelset.spec_num_vertices(),
            forall|l: int| 0 <= l < levelset@.len() && l != to ==> levelset@[l] == old(levelset)@[l],
            extends(levelset@[to as int], before),
            levelset@[to as int] == spread_into(adjv, sources.take(i as int), before),
            forall|q: usize|
                levelset@[to as int].contains(q) ==> before.contains(q) || entered_by(adjv, sources, q),
            forall|q: usize| before.contains(q) ==> levelset@[to as int].contains(q),
            forall|k: int, q: usize|
                0 <= k < i && #[trigger] has_edge(adjv, sources[k], q) ==> levelset@[to as int].contains(q),
        decreases n - i,
    {
        let source = levelset.get_level(from)[i];
        assert(source == sources[i as int]);
        let ghost so_far = levelset@[to as int];
        let m = adj[source].len();
        let mut j: usize = 0;
        while j < m
            invariant
                j <= m,
                i < n,
                n == sources.len(),
                source == sources[i as int],
                source < adj@.len(),
                m == adj@[source as int]@.len(),
                levelset.wf(),
                levelset.spec_num_vertices() == old(levelset).spec_num_vertices(),
                levelset@.len() == old(levelset)@.len(),
                from < levelset@.len(),
                to < levelset@.len(),
                from != to,
                adjv == adj_view(adj),
                adjacency_ok(adjv, levelset.spec_num_vertices() as nat),
                sources == old(levelset)@[from as int],
                before == old(levelset)@[to as int],
                forall|l: int| 0 <= l < levelset@.len() && l != to ==> levelset@[l] == old(levelset)@[l],
                extends(levelset@[to as int], before),
                levelset@[to as int] == push_all(so_far, adjv[source as int].take(j as int)),
                forall|q: usize|
                    levelset@[to as int].contains(q) ==> before.contains(q) || entered_by(adjv, sources, q),
                forall|q: usize| before.contains(q) ==> levelset@[to as int].contains(q),
                forall|k: int, q: usize|
                    0 <= k < i && #[trigger] has_edge(adjv, sources[k], q) ==> levelset@[to as int].contains(q),
                forall|b: int| 0 <= b < j ==> levelset@[to as int].contains(#[trigger] adjv[source as int][b]),
            decreases m - j,
        {
            let target = adj[source][j];
            let ghost prior = levelset@[to as int];
            assert(target == adjv[source as int][j as int]);
            levelset.register(to, target);
            proof {
                assert(levelset@[to as int] == push_new(prior, target));
                assert(adjv[source as int].take(j + 1).drop_last() =~= adjv[source as int].take(j as int));
                assert(adjv[source as int].take(j + 1).last() == target);
                assert(has_edge(adjv, source, target));
                assert(sources.contains(source));
                assert(entered_by(adjv, sources, target));
                assert forall|q: usize| prior.contains(q) implies levelset@[to as int].contains(q) by {
                    let k = choose|k: int| 0 <= k < prior.len() && prior[k] == q;
                    assert(levelset@[to as int][k] == q);
                }
                assert forall|q: usize| levelset@[to as int].contains(q) implies prior.contains(q) || q
                    == target by {
                    let k = choose|k: int| 0 <= k < levelset@[to as int].len() && levelset@[to as int][k] == q;
                    if k < prior.len() {
                        assert(prior[k] == q);
                    }
                }
                assert(levelset@[to as int].contains(target)) by {
                    if prior.contains(target) {
                    } else {
                        assert(levelset@[to as int][prior.len() as int] == target);
                    }
                }
            }
            j += 1;
        }
        proof {
            assert(adjv[source as int].take(m as int) =~= adjv[source as int]);
            assert(sources.take(i + 1).drop_last() =~= sources.take(i as int));
            assert(sources.take(i + 1).last() == source);
            assert forall|k: int, q: usize|
                0 <= k < i + 1 && #[trigger] has_edge(adjv, sources[k], q) implies levelset@[to as int].contains(
                q,
            ) by {
                if k == i {
                    let b = choose|b: int| 0 <= b < adjv[source as int].len() && adjv[source as int][b] == q;
                    assert(levelset@[to as int].contains(adjv[source as int][b]));
                }
            }
        }
        i += 1;
    }
    proof {
        assert(sources.take(n as int) =~= sources);
        assert forall|q: usize| entered_by(adjv, sources, q) implies levelset@[to as int].contains(q) by {
            let p = choose|p: usize| sources.contains(p) && #[trigger] has_edge(adjv, p, q);
            let k = choose|k: int| 0 <= k < sources.len() && sources[k] == p;
            assert(has_edge(adjv, sources[k], q));
        }
    }
}

/// Adds to `level` every vertex that one of its vertices reaches along the
/// edges of `adj`, and returns the set of the vertices that such an edge
/// enters.
pub fn saturate(levelset: &mut LevelSet, level: usize, adj: &Vec<Vec<usize>>) -> (nj: BitSet<u32>)
    requires
        old(levelset).wf(),
        level < old(levelset)@.len(),
        adjacency_ok(adj_view(adj), old(levelset).spec_num_vertices() as nat),
    ensures
        final(levelset).wf(),
        final(levelset).spec_num_vertices() == old(levelset).spec_num_vertices(),
        final(levelset)@.len() == old(levelset)@.len(),
        forall|l: int| 0 <= l < old(levelset)@.len() && l != level ==> final(levelset)@[l] == old(levelset)@[l],
        extends(final(levelset)@[level as int], old(levelset)@[level as int]),
        forall|q: usize|
            final(levelset)@[level as int].contains(q) <==> reached_from(
                adj_view(adj),
                old(levelset)@[level as int],
                q,
            ),
        nonjump_ok(adj_view(adj), final(levelset)@[level as int], members(nj)),
{
    let ghost adjv = adj_view(adj);
    let ghost start = levelset@[level as int];
    let mut nj = set_new();
    let mut i: usize = 0;
    proof {
        assert forall|q: usize| start.contains(q) implies reached_from(adjv, start, q) by {
            lemma_reaches_self(adjv, q);
        }
    }
    while i < levelset.get_level(level).len()
        invariant
            levelset.wf(),
            levelset.spec_num_vertices() == old(levelset).spec_num_vertices(),
            levelset@.len() == old(levelset)@.len(),
            level < levelset@.len(),
            adjv == adj_view(adj),
            adjacency_ok(adjv, levelset.spec_num_vertices() as nat),
            start == old(levelset)@[level as int],
            i <= levelset@[level as int].len(),
            forall|l: int| 0 <= l < levelset@.len() && l != level ==> levelset@[l] == old(levelset)@[l],
            extends(levelset@[level as int], start),
            forall|q: usize| levelset@[level as int].contains(q) ==> reached_from(adjv, start, q),
            forall|k: int, q: usize|
                0 <= k < i && #[trigger] has_edge(adjv, levelset@[level as int][k], q) ==> levelset@[level as int].contains(q)
                    && members(nj).contains(q),
            forall|t: usize| #[trigger]
                members(nj).contains(t) ==> levelset@[level as int].contains(t) && entered_by(
                    adjv,
                    levelset@[level as int],
                    t,
                ),
        decreases levelset.spec_num_vertices() - i,
    {
        proof {
            levelset.lemma_level_distinct(level as int);
            lemma_distinct_bounded(levelset@[level as int], levelset.spec_num_vertices() as nat);
        }
        let source = levelset.get_level(level)[i];
        let m = adj[source].len();
        let mut j: usize = 0;
        while j < m
            invariant
                j <= m,
                source < adj@.len(),
                m == adj@[source as int]@.len(),
                levelset.wf(),
                levelset.spec_num_vertices() == old(levelset).spec_num_vertices(),
                levelset@.len() == old(levelset)@.len(),
                level < levelset@.len(),
                adjv == adj_view(adj),
                adjacency_ok(adjv, levelset.spec_num_vertices() as nat),
                start == old(levelset)@[level as int],
                i < levelset@[level as int].len(),
                source == levelset@[level as int][i as int],
                forall|l: int| 0 <= l < levelset@.len() && l != level ==> levelset@[l] == old(levelset)@[l],
                extends(levelset@[level as int], start),
                forall|q: usize| levelset@[level as int].contains(q) ==> reached_from(adjv, start, q),
                forall|k: int, q: usize|
                    0 <= k < i && #[trigger] has_edge(adjv, levelset@[level as int][k], q) ==> levelset@[level as int].contains(q)
                        && members(nj).contains(q),
                forall|t: usize| #[trigger]
                    members(nj).contains(t) ==> levelset@[level as int].contains(t) && entered_by(
                        adjv,
                        levelset@[level as int],
                        t,
                    ),
                forall|b: int|
                    0 <= b < j ==> levelset@[level as int].contains(#[trigger] adjv[source as int][b])
                        && members(nj).contains(adjv[source as int][b]),
            decreases m - j,
        {
            let target = adj[source][j];
            let ghost prior = levelset@[level as int];
            let ghost prior_nj = members(nj);
            assert(target == adjv[source as int][j as int]);
            levelset.register(level, target);
            set_insert(&mut nj, target);
            proof {
                let cur = levelset@[level as int];
                lemma_push_new(prior, target);
                assert(cur == push_new(prior, target));
                assert(has_edge(adjv, source, target));
                assert(prior.contains(source));
                assert(reached_from(adjv, start, source));
                assert(reached_from(adjv, start, target)) by {
                    let p = choose|p: usize| start.contains(p) && #[trigger] reaches(adjv, p, source);
                    lemma_reaches_edge(adjv, p, source, target);
                }
                assert forall|k: int, q: usize|
                    0 <= k < i && #[trigger] has_edge(adjv, cur[k], q) implies cur.contains(q) && members(
                    nj,
                ).contains(q) by {
                    assert(cur[k] == prior[k]);
                    assert(has_edge(adjv, prior[k], q));
                }
                assert forall|t: usize| #[trigger] members(nj).contains(t) implies cur.contains(t)
                    && entered_by(adjv, cur, t) by {
                    if t == target {
                        assert(cur.contains(source) && has_edge(adjv, source, target));
                    } else {
                        assert(prior_nj.contains(t));
                        let p = choose|p: usize| prior.contains(p) && #[trigger] has_edge(adjv, p, t);
                        assert(cur.contains(p) && has_edge(adjv, p, t));
                    }
                }
            }
            j += 1;
        }
        proof {
            let cur = levelset@[level as int];
            assert forall|k: int, q: usize|
                0 <= k < i + 1 && #[trigger] has_edge(adjv, cur[k], q) implies cur.contains(q) && members(
                nj,
            ).contains(q) by {
                if k == i {
                    let b = choose|b: int| 0 <= b < adjv[source as int].len() && adjv[source as int][b] == q;
                    assert(cur.contains(adjv[source as int][b]));
                }
            }
        }
        i += 1;
    }
    proof {
        let cur = levelset@[level as int];
        let held = Set::new(|q: usize| cur.contains(q));
        assert(closed_under(adjv, held)) by {
            assert forall|p: usize, q: usize| held.contains(p) && has_edge(adjv, p, q) implies held.contains(
                q,
            ) by {
                let k = choose|k: int| 0 <= k < cur.len() && cur[k] == p;
                assert(has_edge(adjv, cur[k], q));
            }
        }
        assert forall|q: usize| reached_from(adjv, start, q) implies cur.contains(q) by {
            let p = choose|p: usize| start.contains(p) && #[trigger] reaches(adjv, p, q);
            let k = choose|k: int| 0 <= k < start.len() && start[k] == p;
            assert(cur[k] == p);
            assert(held.contains(p));
            lemma_closed_holds_reachable(adjv, held, p, q);
        }
        assert forall|t: usize| cur.contains(t) && entered_by(adjv, cur, t) implies #[trigger] members(
            nj,
        ).contains(t) by {
            let p = choose|p: usize| cur.contains(p) && #[trigger] has_edge(adjv, p, t);
            let k = choose|k: int| 0 <= k < cur.len() && cur[k] == p;
            assert(has_edge(adjv, cur[k], t));
        }
    }
    nj
}

/// The vertices of `level` that an edge of `adj` from a vertex of `level`
/// enters.
pub fn entered(levelset: &LevelSet, level: usize, adj: &Vec<Vec<usize>>) -> (nj: BitSet<u32>)
    requires
        levelset.wf(),
        level < levelset@.len(),
        adjacency_ok(adj_view(adj), levelset.spec_num_vertices() as nat),
    ensures
        nonjump_ok(adj_view(adj), levelset@[level as int], members(nj)),
{
    let ghost adjv = adj_view(adj);
    let ghost cur = levelset@[level as int];
    let mut nj = set_new();
    let n = levelset.get_level(level).len();
    let mut i: usize = 0;
    proof {
        levelset.lemma_level_distinct(level as int);
    }
    while i < n
        invariant
            i <= n,
            n == cur.len(),
            levelset.wf(),
            level < levelset@.len(),
            cur == levelset@[level as int],
            adjv == adj_view(adj),
            adjacency_ok(adjv, levelset.spec_num_vertices() as nat),
            forall|k: int| 0 <= k < cur.len() ==> (#[trigger] cur[k]) < levelset.spec_num_vertices(),
            forall|k: int, q: usize|
                0 <= k < i && #[trigger] has_edge(adjv, cur[k], q) && cur.contains(q) ==> members(nj).contains(q),
            forall|t: usize| #[trigger] members(nj).contains(t) ==> cur.contains(t) && entered_by(adjv, cur, t),
        decreases n - i,
    {
        let source = levelset.get_level(level)[i];
        let m = adj[source].len();
        let mut j: usize = 0;
        while j < m
            invariant
                j <= m,
                i < n,
                n == cur.len(),
                source == cur[i as int],
                source < adj@.len(),
                m == adj@[source as int]@.len(),
                levelset.wf(),
                level < levelset@.len(),
                cur == levelset@[level as int],
                adjv == adj_view(adj),
                adjacency_ok(adjv, levelset.spec_num_vertices() as nat),
                forall|k: int, q: usize|
                    0 <= k < i && #[trigger] has_edge(adjv, cur[k], q) && cur.contains(q) ==> members(nj).contains(q),
                forall|t: usize| #[trigger] members(nj).contains(t) ==> cur.contains(t) && entered_by(adjv, cur, t),
                forall|b: int|
                    0 <= b < j && cur.contains(#[trigger] adjv[source as int][b]) ==> members(nj).contains(
                        adjv[source as int][b],
                    ),
            decreases m - j,
        {
            let target = adj[source][j];
            assert(target == adjv[source as int][j as int]);
            if levelset.get_vertex_index(level, target).is_some() {
                set_insert(&mut nj, target);
                proof {
                    assert(cur.contains(source) && has_edge(adjv, source, target));
                }
            }
            j += 1;
        }
        proof {
            assert forall|k: int, q: usize|
                0 <= k < i + 1 && #[trigger] has_edge(adjv, cur[k], q) && cur.contains(q) implies members(
                nj,
            ).contains(q) by {
                if k == i {
                    let b = choose|b: int| 0 <= b < adjv[source as int].len() && adjv[source as int][b] == q;
                    assert(cur.contains(adjv[source as int][b]));
                }
            }
        }
        i += 1;
    }
    proof {
        assert forall|t: usize| cur.contains(t) && entered_by(adjv, cur, t) implies #[trigger] members(
            nj,
        ).contains(t) by {
            let p = choose|p: usize| cur.contains(p) && #[trigger] has_edge(adjv, p, t);
            let k = choose|k: int| 0 <= k < cur.len() && cur[k] == p;
            assert(has_edge(adjv, cur[k], t));
        }
    }
    nj
}

/// The set of the targets of the edges of `adj` that leave a vertex of
/// `level`.
pub fn targets(levelset: &LevelSet, level: usize, adj: &Vec<Vec<usize>>) -> (found: BitSet<u32>)
    requires
        levelset.wf(),
        level < levelset@.len(),
        adjacency_ok(adj_view(adj), levelset.spec_num_vertices() as nat),
    ensures
        members(found) == targets_of(adj_view(adj), levelset@[level as int]),
{
    let ghost adjv = adj_view(adj);
    let ghost cur = levelset@[level as int];
    let mut found = set_new();
    let n = levelset.get_level(level).len();
    let mut i: usize = 0;
    proof {
        levelset.lemma_level_distinct(level as int);
    }
    while i < n
        invariant
            i <= n,
            n == cur.len(),
            levelset.wf(),
            level < levelset@.len(),
            cur == levelset@[level as int],
            adjv == adj_view(adj),
            adjacency_ok(adjv, levelset.spec_num_vertices() as nat),
            forall|k: int| 0 <= k < cur.len() ==> (#[trigger] cur[k]) < levelset.spec_num_vertices(),
            forall|k: int, q: usize| 0 <= k < i && #[trigger] has_edge(adjv, cur[k], q) ==> members(found).contains(q),
            forall|t: usize| #[trigger] members(found).contains(t) ==> entered_by(adjv, cur, t),
        decreases n - i,
    {
        let source = levelset.get_level(level)[i];
        let m = adj[source].len();
        let mut j: usize = 0;
        while j < m
            invariant
                j <= m,
                i < n,
                n == cur.len(),
                source == cur[i as int],
                source < adj@.len(),
                m == adj@[source as int]@.len(),
                adjv == adj_view(adj),
                adjacency_ok(adjv, levelset.spec_num_vertices() as nat),
                forall|k: int, q: usize|
                    0 <= k < i && #[trigger] has_edge(adjv, cur[k], q) ==> members(found).contains(q),
                forall|t: usize| #[trigger] members(found).contains(t) ==> entered_by(adjv, cur, t),
                forall|b: int| 0 <= b < j ==> members(found).contains(#[trigger] adjv[source as int][b]),
            decreases m - j,
        {
            let target = adj[source][j];
            assert(target == adjv[source as int][j as int]);
            set_insert(&mut found, target);
            proof {
                assert(cur.contains(source) && has_edge(adjv, source, target));
            }
            j += 1;
        }
        proof {
            assert forall|k: int, q: usize| 0 <= k < i + 1 && #[trigger] has_edge(adjv, cur[k], q) implies members(
                found,
            ).contains(q) by {
                if k == i {
                    let b = choose|b: int| 0 <= b < adjv[source as int].len() && adjv[source as int][b] == q;
                    assert(members(found).contains(adjv[source as int][b]));
                }
            }
        }
        i += 1;
    }
    proof {
        assert forall|t: usize| entered_by(adjv, cur, t) implies members(found).contains(t) by {
            let p = choose|p: usize| cur.contains(p) && #[trigger] has_edge(adjv, p, t);
            let k = choose|k: int| 0 <= k < cur.len() && cur[k] == p;
            assert(has_edge(adjv, cur[k], t));
        }
        assert(members(found) =~= targets_of(adjv, cur));
    }
    found
}

} // verus!
