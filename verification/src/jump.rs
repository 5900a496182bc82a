//! The jump index of a layered graph.
//!
//! The graph is built level by level. Between two levels run the jumpable
//! edges; inside a level run the edges that cannot be jumped over. For each
//! vertex the index records the closest level below from which such an inner
//! edge could have led to it, and between a level and each of those levels it
//! keeps the matrix of the climbs, so that a set of vertices is taken down to
//! that level in one step.

use crate::bits::{
    members, set_contains, set_from_bit_vec, set_insert, set_new, set_to_vec, vec_from_elem, vec_set,
};
use crate::graph::{adj_view, adjacency_ok, connected, has_edge, reaches};
use crate::layers::{entered, entered_by, extends, led_into, lemma_push_new, nonjump_ok, push_all, reached_from, saturate, spread, spread_into, targets, targets_of};
use crate::levelset::{lemma_filter_agree, member_of, LevelSet};
use crate::matrix::Matrix;
use crate::tables::{
    ascending, identity, is_reach, is_step, jl_ok, jump_levels, jump_targets, lemma_identity_is_reach,
    lemma_is_reach_frame, lemma_product_is_reach, lemma_step_is_reach, offered, one_step, position, rlevel_ok,
};
use bit_set::BitSet;
use vstd::prelude::*;

verus! {

pub struct Jump {
    /// The vertices of each level.
    levelset: LevelSet,
    /// The edges inside a level, the same for every level.
    nonjump_adj: Vec<Vec<usize>>,
    /// For each level, the vertices that an edge inside the level enters.
    nonjump: Vec<BitSet<u32>>,
    /// For each indexed level, the jump level of each vertex.
    jl: Vec<Vec<usize>>,
    /// For each indexed level, the levels that a jump from it can lead to.
    rlevel: Vec<Vec<usize>>,
    /// For each indexed level and each entry of `rlevel`, the climbs between the two.
    reach: Vec<Vec<Matrix>>,
    /// The climbs from level 0 to the last indexed level.
    root_reach: Matrix,
    num_vertices: usize,
    disconnected: bool,
    /// For each level but the first, the edges that were given to lead into it.
    steps: Ghost<Seq<Seq<Seq<usize>>>>,
}

/// The vertices that are in `finals` or have an edge of `adj` to a vertex in
/// `finals`.
pub open spec fn accepting(adj: Seq<Seq<usize>>, finals: Set<usize>) -> Set<usize> {
    Set::new(|q: usize| finals.contains(q) || exists|f: usize| #[trigger] has_edge(adj, q, f) && finals.contains(f))
}

/// A climb leads from vertex `p` of level `from` to a vertex of `gamma` in
/// level `to`.
pub open spec fn climbs_into(
    levels: Seq<Seq<usize>>,
    steps: Seq<Seq<Seq<usize>>>,
    from: int,
    p: usize,
    to: int,
    gamma: Set<usize>,
) -> bool {
    exists|q: usize| gamma.contains(q) && #[trigger] connected(levels, steps, from, p, to, q)
}

/// `v` is the greatest jump level among the vertices of `gamma`.
pub open spec fn is_greatest_jump_level(jl: Seq<usize>, gamma: Set<usize>, v: usize) -> bool {
    &&& forall|q: usize| gamma.contains(q) ==> (#[trigger] jl[q as int]) <= v
    &&& exists|q: usize| gamma.contains(q) && (#[trigger] jl[q as int]) == v
}

impl Jump {
    /// The levels, first to last, each as the list of its vertices.
    pub closed spec fn levels(&self) -> Seq<Seq<usize>> {
        self.levelset@
    }

    /// The adjacency of the edges inside a level.
    pub closed spec fn marks(&self) -> Seq<Seq<usize>> {
        adj_view(&self.nonjump_adj)
    }

    /// The vertices of level `l` that an edge inside the level enters.
    pub closed spec fn nonjump_at(&self, l: int) -> Set<usize> {
        members(self.nonjump@[l])
    }

    /// For each level `l` above the first, the adjacency of the jumpable
    /// edges that lead into it.
    pub closed spec fn steps(&self) -> Seq<Seq<Seq<usize>>> {
        self.steps@
    }

    /// The last level whose tables are filled.
    pub closed spec fn indexed(&self) -> int {
        self.jl@.len() - 1
    }

    /// The jump levels of level `l`, indexed by vertex.
    pub closed spec fn jl_row(&self, l: int) -> Seq<usize> {
        self.jl@[l]@
    }

    /// The levels that a jump from level `l` can lead to.
    pub closed spec fn rlevel_at(&self, l: int) -> Seq<usize> {
        self.rlevel@[l]@
    }

    /// The number of matrices kept for level `l`.
    pub closed spec fn reach_count(&self, l: int) -> nat {
        self.reach@[l]@.len()
    }

    /// The matrix between level `l` and the level `rlevel_at(l)[k]`.
    pub closed spec fn reach_at(&self, l: int, k: int) -> Seq<Seq<bool>> {
        self.reach@[l]@[k]@
    }

    /// The matrix between the last indexed level and level 0.
    pub closed spec fn root(&self) -> Seq<Seq<bool>> {
        self.root_reach@
    }

    /// The exclusive upper bound of the vertices.
    pub closed spec fn spec_num_vertices(&self) -> usize {
        self.num_vertices
    }

    /// Whether some level is empty.
    pub closed spec fn spec_disconnected(&self) -> bool {
        self.disconnected
    }

    /// What holds of the representation: the parts fit together.
    pub closed spec fn repr_ok(&self) -> bool {
        &&& self.levelset.wf()
        &&& self.levelset.spec_num_vertices() == self.num_vertices
        &&& self.nonjump@.len() == self.levelset@.len()
        &&& self.steps@.len() == self.levelset@.len()
        &&& self.rlevel@.len() == self.jl@.len()
        &&& self.reach@.len() == self.jl@.len()
        &&& self.jl@.len() <= self.levelset@.len()
        &&& self.root_reach.wf()
        &&& self.root_reach.spec_height() == self.levelset@[self.jl@.len() - 1].len()
        &&& self.root_reach.spec_width() == self.levelset@[0].len()
        &&& forall|l: int| 0 <= l < self.reach@.len() ==> (#[trigger] self.reach@[l])@.len() == self.rlevel@[l]@.len()
        &&& forall|l: int, k: int|
            0 <= l < self.reach@.len() && 0 <= k < self.reach@[l]@.len() ==> {
                &&& (#[trigger] self.reach@[l]@[k]).wf()
                &&& self.reach@[l]@[k].spec_height() == self.levelset@[l].len()
                &&& self.rlevel@[l]@[k] < self.levelset@.len()
                &&& self.reach@[l]@[k].spec_width() == self.levelset@[self.rlevel@[l]@[k] as int].len()
            }
    }

    /// The vertices that an edge inside level `l` enters are recorded.
    pub open spec fn nonjump_holds(&self, l: int) -> bool {
        nonjump_ok(self.marks(), self.levels()[l], self.nonjump_at(l))
    }

    /// The jump level of each vertex of level `l` is the greatest level that
    /// one of its predecessors hands to it, zero where it has none, and it
    /// is below `l`.
    pub open spec fn jl_holds(&self, l: int) -> bool {
        &&& jl_ok(
            self.levels()[l - 1],
            self.levels()[l],
            self.steps()[l],
            l - 1,
            self.nonjump_at(l - 1),
            self.jl_row(l - 1),
            self.jl_row(l),
        )
        &&& forall|q: int| 0 <= q < self.jl_row(l).len() ==> (#[trigger] self.jl_row(l)[q]) < l
        &&& forall|q: usize|
            q < self.jl_row(l).len() && !self.levels()[l].contains(q) ==> (#[trigger] self.jl_row(l)[q as int]) == 0
    }

    /// The jump targets of level `l` are the jump levels of its vertices, in
    /// ascending order.
    pub open spec fn rlevel_holds(&self, l: int) -> bool {
        rlevel_ok(self.levels()[l], self.jl_row(l), self.rlevel_at(l))
    }

    /// Level `l` has one matrix for each jump target, and it tells between
    /// which vertices of the two levels a climb exists.
    pub open spec fn reach_holds(&self, l: int) -> bool {
        &&& self.reach_count(l) == self.rlevel_at(l).len()
        &&& forall|k: int|
            0 <= k < self.rlevel_at(l).len() ==> is_reach(
                self.levels(),
                self.steps(),
                (#[trigger] self.rlevel_at(l)[k]) as int,
                l,
                self.reach_at(l, k),
            )
    }

    /// The invariant of the index.
    pub open spec fn wf(&self) -> bool {
        &&& self.repr_ok()
        &&& adjacency_ok(self.marks(), self.spec_num_vertices() as nat)
        &&& 0 <= self.indexed() < self.levels().len()
        &&& self.steps().len() == self.levels().len()
        &&& self.spec_disconnected() == (exists|l: int| 0 <= l < self.levels().len() && (#[trigger] self.levels()[l]).len() == 0)
        &&& forall|l: int| 0 <= l < self.levels().len() ==> #[trigger] self.nonjump_holds(l)
        &&& forall|l: int| 0 <= l <= self.indexed() ==> (#[trigger] self.jl_row(l)).len() == self.spec_num_vertices()
        &&& forall|q: int| 0 <= q < self.jl_row(0).len() ==> (#[trigger] self.jl_row(0)[q]) == 0
        &&& self.rlevel_at(0).len() == 0
        &&& self.reach_count(0) == 0
        &&& forall|l: int| 1 <= l <= self.indexed() ==> #[trigger] self.jl_holds(l)
        &&& forall|l: int| 1 <= l <= self.indexed() ==> #[trigger] self.rlevel_holds(l)
        &&& forall|l: int| 1 <= l <= self.indexed() ==> #[trigger] self.reach_holds(l)
        &&& is_reach(self.levels(), self.steps(), 0, self.indexed(), self.root())
    }

    /// The index of a graph with one level: the vertices of `initial_level`
    /// and everything that they reach along the edges of `nonjump_adj`, which
    /// are the edges inside every level. `num_levels` is the number of levels
    /// to make room for.
    pub fn new(
        initial_level: Vec<usize>,
        nonjump_adj: Vec<Vec<usize>>,
        num_levels: usize,
        num_vertices: usize,
    ) -> (jump: Jump)
        requires
            adjacency_ok(adj_view(&nonjump_adj), num_vertices as nat),
            forall|i: int| 0 <= i < initial_level@.len() ==> initial_level@[i] < num_vertices,
        ensures
            jump.wf(),
            jump.spec_num_vertices() == num_vertices,
            jump.marks() == adj_view(&nonjump_adj),
            jump.levels().len() == 1,
            jump.indexed() == 0,
            extends(jump.levels()[0], push_all(Seq::<usize>::empty(), initial_level@)),
            forall|q: usize|
                jump.levels()[0].contains(q) <==> reached_from(adj_view(&nonjump_adj), initial_level@, q),
    {
        let ghost adjv = adj_view(&nonjump_adj);
        let mut levelset = LevelSet::new(num_levels, num_vertices);
        levelset.add_level();
        let mut i: usize = 0;
        while i < initial_level.len()
            invariant
                i <= initial_level@.len(),
                levelset.wf(),
                levelset.spec_num_vertices() == num_vertices,
                levelset@.len() == 1,
                forall|k: int| 0 <= k < initial_level@.len() ==> initial_level@[k] < num_vertices,
                forall|q: usize| levelset@[0].contains(q) ==> initial_level@.contains(q),
                forall|k: int| 0 <= k < i ==> levelset@[0].contains(#[trigger] initial_level@[k]),
                levelset@[0] == push_all(Seq::<usize>::empty(), initial_level@.take(i as int)),
            decreases initial_level@.len() - i,
        {
            let ghost prior = levelset@[0];
            levelset.register(0, initial_level[i]);
            proof {
                lemma_push_new(prior, initial_level@[i as int]);
                assert(initial_level@.take(i + 1).drop_last() =~= initial_level@.take(i as int));
                assert(initial_level@.take(i + 1).last() == initial_level@[i as int]);
            }
            i += 1;
        }
        let ghost seeds = levelset@[0];
        proof {
            assert(initial_level@.take(initial_level@.len() as int) =~= initial_level@);
        }
        let nj = saturate(&mut levelset, 0, &nonjump_adj);
        let root_reach = identity(levelset.get_level(0).len());
        let disconnected = levelset.get_level(0).len() == 0;
        let mut nonjump: Vec<BitSet<u32>> = Vec::new();
        nonjump.push(nj);
        let mut jl: Vec<Vec<usize>> = Vec::new();
        jl.push(vec![0usize; num_vertices]);
        let mut rlevel: Vec<Vec<usize>> = Vec::new();
        rlevel.push(Vec::new());
        let mut reach: Vec<Vec<Matrix>> = Vec::new();
        reach.push(Vec::new());
        let ghost steps: Seq<Seq<Seq<usize>>> = seq![Seq::<Seq<usize>>::empty()];
        let jump = Jump {
            levelset,
            nonjump_adj,
            nonjump,
            jl,
            rlevel,
            reach,
            root_reach,
            num_vertices,
            disconnected,
            steps: Ghost(steps),
        };
        proof {
            jump.levelset.lemma_level_distinct(0);
            lemma_identity_is_reach(jump.levels(), jump.steps(), 0, jump.root());
            assert(jump.nonjump_holds(0));
            if jump.spec_disconnected() {
                assert(jump.levels()[0].len() == 0);
            }
            assert forall|q: usize| jump.levels()[0].contains(q) <==> reached_from(adjv, initial_level@, q) by {
                if reached_from(adjv, seeds, q) {
                    let p = choose|p: usize| seeds.contains(p) && #[trigger] reaches(adjv, p, q);
                    assert(initial_level@.contains(p) && reaches(adjv, p, q));
                }
                if reached_from(adjv, initial_level@, q) {
                    let p = choose|p: usize| initial_level@.contains(p) && #[trigger] reaches(adjv, p, q);
                    let k = choose|k: int| 0 <= k < initial_level@.len() && initial_level@[k] == p;
                    assert(seeds.contains(initial_level@[k]));
                    assert(seeds.contains(p) && reaches(adjv, p, q));
                }
            }
            assert(jump.wf());
        }
        jump
    }

    /// The tables of the levels up to `upto` do not depend on what lies
    /// above: they stay right when levels are added or changed there.
    proof fn lemma_tables_frame(&self, other: &Jump, upto: int)
        requires
            self.wf(),
            other.repr_ok(),
            0 <= upto <= self.indexed(),
            upto <= other.indexed(),
            upto < other.levels().len(),
            upto < other.steps().len(),
            forall|l: int| 0 <= l <= upto ==> other.levels()[l] == self.levels()[l],
            forall|l: int| 0 < l <= upto ==> other.steps()[l] == self.steps()[l],
            forall|l: int| 0 <= l <= upto ==> other.nonjump_at(l) == self.nonjump_at(l),
            forall|l: int| 0 <= l <= upto ==> other.jl_row(l) == self.jl_row(l),
            forall|l: int| 0 <= l <= upto ==> other.rlevel_at(l) == self.rlevel_at(l),
            forall|l: int| 0 <= l <= upto ==> other.reach_count(l) == self.reach_count(l),
            forall|l: int, k: int|
                0 <= l <= upto && 0 <= k < self.reach_count(l) ==> other.reach_at(l, k) == self.reach_at(l, k),
        ensures
            forall|l: int| 0 <= l <= upto ==> (#[trigger] other.jl_row(l)).len() == self.spec_num_vertices(),
            forall|q: int| 0 <= q < other.jl_row(0).len() ==> (#[trigger] other.jl_row(0)[q]) == 0,
            other.rlevel_at(0).len() == 0,
            other.reach_count(0) == 0,
            forall|l: int| 1 <= l <= upto ==> #[trigger] other.jl_holds(l),
            forall|l: int| 1 <= l <= upto ==> #[trigger] other.rlevel_holds(l),
            forall|l: int| 1 <= l <= upto ==> #[trigger] other.reach_holds(l),
    {
        assert forall|l: int| 0 <= l <= upto implies (#[trigger] other.jl_row(l)).len()
            == self.spec_num_vertices() by {
            assert(self.jl_row(l).len() == self.spec_num_vertices());
        }
        assert forall|l: int| 1 <= l <= upto implies #[trigger] other.jl_holds(l) by {
            assert(self.jl_holds(l));
        }
        assert forall|l: int| 1 <= l <= upto implies #[trigger] other.rlevel_holds(l) by {
            assert(self.rlevel_holds(l));
        }
        assert forall|l: int| 1 <= l <= upto implies #[trigger] other.reach_holds(l) by {
            assert(self.reach_holds(l));
            assert forall|k: int| 0 <= k < other.rlevel_at(l).len() implies is_reach(
                other.levels(),
                other.steps(),
                (#[trigger] other.rlevel_at(l)[k]) as int,
                l,
                other.reach_at(l, k),
            ) by {
                assert(other.reach_at(l, k) == self.reach_at(l, k));
                lemma_is_reach_frame(
                    self.levels(),
                    self.steps(),
                    other.levels(),
                    other.steps(),
                    self.rlevel_at(l)[k] as int,
                    l,
                    self.reach_at(l, k),
                );
            }
        }
    }

    /// Adds a level on top: the targets of the edges of `jump_adj` that
    /// leave the last level, and everything that they reach along the edges
    /// inside the level. Where there is no such target the new level stays
    /// empty and the graph is disconnected; otherwise the tables of the new
    /// level are filled.
    pub fn init_next_level(&mut self, jump_adj: &Vec<Vec<usize>>)
        requires
            old(self).wf(),
            !old(self).spec_disconnected(),
            old(self).indexed() == old(self).levels().len() - 1,
            adjacency_ok(adj_view(jump_adj), old(self).spec_num_vertices() as nat),
        ensures
            final(self).wf(),
            final(self).marks() == old(self).marks(),
            final(self).spec_num_vertices() == old(self).spec_num_vertices(),
            final(self).levels().len() == old(self).levels().len() + 1,
            forall|l: int| 0 <= l < old(self).levels().len() ==> final(self).levels()[l] == old(self).levels()[l],
            forall|l: int| 0 <= l < old(self).levels().len() ==> final(self).steps()[l] == old(self).steps()[l],
            forall|l: int| 0 <= l < old(self).levels().len() ==> final(self).nonjump_at(l) == old(self).nonjump_at(l),
            final(self).steps().last() == adj_view(jump_adj),
            forall|q: usize|
                final(self).levels().last().contains(q) <==> led_into(
                    old(self).marks(),
                    adj_view(jump_adj),
                    old(self).levels().last(),
                    q,
                ),
            extends(
                final(self).levels().last(),
                spread_into(adj_view(jump_adj), old(self).levels().last(), Seq::<usize>::empty()),
            ),
            final(self).spec_disconnected() == (final(self).levels().last().len() == 0),
            final(self).indexed() == if final(self).spec_disconnected() {
                old(self).indexed()
            } else {
                old(self).indexed() + 1
            },
            forall|l: int| 0 <= l <= old(self).indexed() ==> #[trigger] final(self).jl_row(l) == old(self).jl_row(l),
            forall|l: int|
                0 <= l <= old(self).indexed() ==> #[trigger] final(self).rlevel_at(l) == old(self).rlevel_at(l),
            forall|l: int|
                0 <= l <= old(self).indexed() ==> #[trigger] final(self).reach_count(l) == old(self).reach_count(l),
            forall|l: int, k: int|
                0 <= l <= old(self).indexed() && 0 <= k < old(self).reach_count(l) ==> #[trigger] final(self).reach_at(
                    l,
                    k,
                ) == old(self).reach_at(l, k),
    {
        let ghost adjv = adj_view(jump_adj);
        let ghost before = *self;
        let level = self.levelset.add_level();
        spread(&mut self.levelset, level - 1, level, jump_adj);
        let ghost seeds = self.levelset@[level as int];
        proof {
            assert forall|q: usize| seeds.contains(q) <==> entered_by(adjv, before.levels().last(), q) by {
                assert(before.levelset@.push(Seq::<usize>::empty())[level as int].len() == 0);
            }
            assert(before.levelset@.push(Seq::<usize>::empty())[level as int] =~= Seq::<usize>::empty());
            assert(before.levelset@.push(Seq::<usize>::empty())[level - 1] == before.levels().last());
            assert(seeds == spread_into(adjv, before.levels().last(), Seq::<usize>::empty()));
        }
        let nj = saturate(&mut self.levelset, level, &self.nonjump_adj);
        self.nonjump.push(nj);
        self.steps = Ghost(self.steps@.push(adjv));
        self.disconnected = self.levelset.get_level(level).len() == 0;
        proof {
            assert forall|l: int| 0 <= l < level implies #[trigger] self.levelset@[l] == before.levelset@[l] by {
                assert(before.levelset@.push(Seq::<usize>::empty())[l] == before.levelset@[l]);
            }
            assert(self.levelset@[self.jl@.len() - 1] == before.levelset@[self.jl@.len() - 1]);
            assert(self.levelset@[0] == before.levelset@[0]);
            assert forall|l: int, k: int| 0 <= l < self.reach@.len() && 0 <= k < self.reach@[l]@.len() implies {
                &&& (#[trigger] self.reach@[l]@[k]).wf()
                &&& self.reach@[l]@[k].spec_height() == self.levelset@[l].len()
                &&& self.rlevel@[l]@[k] < self.levelset@.len()
                &&& self.reach@[l]@[k].spec_width() == self.levelset@[self.rlevel@[l]@[k] as int].len()
            } by {
                assert(before.reach@[l]@[k].wf());
                let sub = before.rlevel@[l]@[k] as int;
                assert(before.rlevel_at(l)[k] == sub);
                if l >= 1 {
                    assert(before.reach_holds(l));
                    assert(is_reach(before.levels(), before.steps(), sub, l, before.reach_at(l, k)));
                } else {
                    assert(before.reach_count(0) == 0);
                }
                assert(self.levelset@[sub] == before.levelset@[sub]);
            }
            assert(self.repr_ok());
            assert forall|q: usize| self.levels().last().contains(q) <==> led_into(
                before.marks(),
                adjv,
                before.levels().last(),
                q,
            ) by {
                if reached_from(before.marks(), seeds, q) {
                    let t = choose|t: usize| seeds.contains(t) && #[trigger] reaches(before.marks(), t, q);
                    assert(entered_by(adjv, before.levels().last(), t) && reaches(before.marks(), t, q));
                }
                if led_into(before.marks(), adjv, before.levels().last(), q) {
                    let t = choose|t: usize|
                        entered_by(adjv, before.levels().last(), t) && #[trigger] reaches(before.marks(), t, q);
                    assert(seeds.contains(t) && reaches(before.marks(), t, q));
                }
            }
            assert forall|l: int| 0 <= l < self.levels().len() implies #[trigger] self.nonjump_holds(l) by {
                if l < level {
                    assert(before.nonjump_holds(l));
                    assert(self.levels()[l] == before.levels()[l]);
                }
            }
            before.lemma_tables_frame(self, level - 1);
            lemma_is_reach_frame(
                before.levels(),
                before.steps(),
                self.levels(),
                self.steps(),
                0,
                level - 1,
                before.root(),
            );
            if self.spec_disconnected() {
                assert(self.levels()[level as int].len() == 0);
            } else {
                assert forall|l: int| 0 <= l < self.levels().len() implies (#[trigger] self.levels()[l]).len()
                    != 0 by {
                    if l < level {
                        assert(self.levels()[l] == before.levels()[l]);
                    }
                }
            }
            assert(self.wf());
            assert(extends(self.levels().last(), seeds));
        }
        if !self.disconnected {
            self.init_reach(level, jump_adj);
        }
    }

    /// Fills the tables of `level`, the level above the last indexed one,
    /// for the jumpable edges `jump_adj` from the level below into it.
    pub fn init_reach(&mut self, level: usize, jump_adj: &Vec<Vec<usize>>)
        requires
            old(self).wf(),
            level == old(self).indexed() + 1,
            level < old(self).levels().len(),
            adjacency_ok(adj_view(jump_adj), old(self).spec_num_vertices() as nat),
        ensures
            final(self).wf(),
            final(self).indexed() == level,
            final(self).levels() == old(self).levels(),
            final(self).marks() == old(self).marks(),
            final(self).spec_num_vertices() == old(self).spec_num_vertices(),
            final(self).spec_disconnected() == old(self).spec_disconnected(),
            forall|l: int| 0 <= l < old(self).levels().len() ==> final(self).nonjump_at(l) == old(self).nonjump_at(l),
            final(self).steps() == old(self).steps().update(level as int, adj_view(jump_adj)),
            forall|l: int| 0 <= l < level ==> #[trigger] final(self).jl_row(l) == old(self).jl_row(l),
            forall|l: int| 0 <= l < level ==> #[trigger] final(self).rlevel_at(l) == old(self).rlevel_at(l),
            forall|l: int| 0 <= l < level ==> #[trigger] final(self).reach_count(l) == old(self).reach_count(l),
            forall|l: int, k: int|
                0 <= l < level && 0 <= k < old(self).reach_count(l) ==> #[trigger] final(self).reach_at(l, k) == old(
                    self,
                ).reach_at(l, k),
    {
        let ghost adjv = adj_view(jump_adj);
        let ghost levels = self.levels();
        let ghost steps0 = self.steps();
        let ghost steps1 = steps0.update(level as int, adjv);
        proof {
            assert(old(self).jl_row(level - 1).len() == self.num_vertices);
            if level >= 2 {
                assert(old(self).jl_holds(level - 1));
            }
        }
        let jl_new = jump_levels(&self.levelset, level, jump_adj, &self.nonjump[level - 1], &self.jl[level - 1]);
        let rl = jump_targets(&self.levelset, level, &jl_new);
        let step = one_step(&self.levelset, level, jump_adj);
        let new_root = step.mul(&self.root_reach);
        proof {
            assert(is_step(steps1[level as int], levels[level - 1], levels[level as int], step@));
            lemma_is_reach_frame(levels, steps0, levels, steps1, 0, level - 1, self.root());
            self.root_reach.lemma_shape();
            lemma_product_is_reach(levels, steps1, 0, level as int, step@, self.root(), new_root@);
        }
        let mut row: Vec<Matrix> = Vec::new();
        let mut k: usize = 0;
        while k < rl.len()
            invariant
                k <= rl@.len(),
                row@.len() == k,
                *self == *old(self),
                self.wf(),
                level == self.indexed() + 1,
                level < self.levels().len(),
                levels == self.levels(),
                steps0 == self.steps(),
                steps1 == steps0.update(level as int, adjv),
                rlevel_ok(levels[level as int], jl_new@, rl@),
                jl_ok(
                    levels[level - 1],
                    levels[level as int],
                    adjv,
                    level - 1,
                    self.nonjump_at(level - 1),
                    self.jl_row(level - 1),
                    jl_new@,
                ),
                forall|q: int| 0 <= q < jl_new@.len() ==> jl_new@[q] < level,
                jl_new@.len() == self.num_vertices,
                step.wf(),
                step.spec_height() == levels[level as int].len(),
                step.spec_width() == levels[level - 1].len(),
                is_step(adjv, levels[level - 1], levels[level as int], step@),
                new_root.wf(),
                new_root.spec_height() == levels[level as int].len(),
                new_root.spec_width() == levels[0].len(),
                is_reach(levels, steps1, 0, level as int, new_root@),
                forall|j: int|
                    0 <= j < k ==> {
                        &&& (#[trigger] row@[j]).wf()
                        &&& row@[j].spec_height() == levels[level as int].len()
                        &&& row@[j].spec_width() == levels[rl@[j] as int].len()
                        &&& is_reach(levels, steps1, rl@[j] as int, level as int, row@[j]@)
                    },
            decreases rl@.len() - k,
        {
            let sub = rl[k];
            proof {
                assert(rl@.contains(sub));
                assert(offered(levels[level as int], jl_new@, sub));
                let q = choose|q: usize| #[trigger] levels[level as int].contains(q) && jl_new@[q as int] == sub;
                self.levelset.lemma_level_distinct(level as int);
                assert(sub < level);
            }
            let m = if sub == level - 1 {
                proof {
                    lemma_step_is_reach(levels, steps1, level as int, step@);
                }
                step.duplicate()
            } else if sub == 0 {
                new_root.duplicate()
            } else {
                proof {
                    let q = choose|q: usize| #[trigger] levels[level as int].contains(q) && jl_new@[q as int] == sub;
                    let p = choose|p: usize|
                        levels[level - 1].contains(p) && #[trigger] has_edge(adjv, p, q) && crate::tables::candidate(
                            level - 1,
                            self.nonjump_at(level - 1),
                            self.jl_row(level - 1),
                            p,
                        ) == sub;
                    assert(self.jl_row(level - 1)[p as int] == sub);
                    assert(self.rlevel_holds(level - 1));
                    assert(offered(levels[level - 1], self.jl_row(level - 1), sub));
                    assert(self.rlevel_at(level - 1).contains(sub));
                }
                match position(&self.rlevel[level - 1], sub) {
                    Some(below) => {
                        proof {
                            assert(self.reach_holds(level - 1));
                            assert(self.rlevel_at(level - 1)[below as int] == sub);
                            let lower = self.reach_at(level - 1, below as int);
                            assert(is_reach(levels, steps0, sub as int, level - 1, lower));
                            lemma_is_reach_frame(levels, steps0, levels, steps1, sub as int, level - 1, lower);
                        }
                        let product = step.mul(&self.reach[level - 1][below]);
                        proof {
                            self.reach@[level - 1]@[below as int].lemma_shape();
                            lemma_product_is_reach(
                                levels,
                                steps1,
                                sub as int,
                                level as int,
                                step@,
                                self.reach_at(level - 1, below as int),
                                product@,
                            );
                        }
                        product
                    },
                    None => Matrix::new(0, 0),
                }
            };
            row.push(m);
            k += 1;
        }
        self.jl.push(jl_new);
        self.rlevel.push(rl);
        self.reach.push(row);
        self.root_reach = new_root;
        self.steps = Ghost(steps1);
        proof {
            assert(self.levels() == levels);
            assert(self.steps() == steps1);
            assert forall|l: int| 0 <= l < self.levels().len() implies #[trigger] self.nonjump_holds(l) by {
                assert(old(self).nonjump_holds(l));
            }
            assert forall|l: int| 0 <= l <= self.indexed() implies (#[trigger] self.jl_row(l)).len()
                == self.spec_num_vertices() by {
                if l < level {
                    assert(self.jl_row(l) == old(self).jl_row(l));
                }
            }
            assert(self.jl_row(0) == old(self).jl_row(0));
            assert(self.rlevel_at(0) == old(self).rlevel_at(0));
            assert(self.reach_count(0) == old(self).reach_count(0));
            assert forall|l: int| 1 <= l <= self.indexed() implies #[trigger] self.jl_holds(l) by {
                if l < level {
                    assert(old(self).jl_holds(l));
                    assert(self.jl_row(l) == old(self).jl_row(l));
                    assert(self.jl_row(l - 1) == old(self).jl_row(l - 1));
                    assert(self.nonjump_at(l - 1) == old(self).nonjump_at(l - 1));
                    assert(steps1[l] == steps0[l]);
                } else {
                    assert(self.jl_row(l - 1) == old(self).jl_row(l - 1));
                    assert(self.nonjump_at(l - 1) == old(self).nonjump_at(l - 1));
                }
            }
            assert forall|l: int| 1 <= l <= self.indexed() implies #[trigger] self.rlevel_holds(l) by {
                if l < level {
                    assert(old(self).rlevel_holds(l));
                    assert(self.jl_row(l) == old(self).jl_row(l));
                    assert(self.rlevel_at(l) == old(self).rlevel_at(l));
                }
            }
            assert forall|l: int| 1 <= l <= self.indexed() implies #[trigger] self.reach_holds(l) by {
                if l < level {
                    assert(old(self).reach_holds(l));
                    assert(self.rlevel_at(l) == old(self).rlevel_at(l));
                    assert(self.reach_count(l) == old(self).reach_count(l));
                    assert forall|k: int| 0 <= k < self.rlevel_at(l).len() implies is_reach(
                        self.levels(),
                        self.steps(),
                        (#[trigger] self.rlevel_at(l)[k]) as int,
                        l,
                        self.reach_at(l, k),
                    ) by {
                        assert(self.reach_at(l, k) == old(self).reach_at(l, k));
                        lemma_is_reach_frame(
                            levels,
                            steps0,
                            levels,
                            steps1,
                            old(self).rlevel_at(l)[k] as int,
                            l,
                            old(self).reach_at(l, k),
                        );
                    }
                } else {
                    assert forall|k: int| 0 <= k < self.rlevel_at(l).len() implies is_reach(
                        self.levels(),
                        self.steps(),
                        (#[trigger] self.rlevel_at(l)[k]) as int,
                        l,
                        self.reach_at(l, k),
                    ) by {
                        assert(self.reach_at(l, k) == self.reach@[l]@[k]@);
                    }
                }
            }
            assert(self.repr_ok());
            assert(self.wf());
        }
    }

    /// Forgets the tables of every level but the first, so that they can
    /// be filled again, level by level.
    pub fn clear_index(&mut self)
        requires
            old(self).wf(),
        ensures
            final(self).wf(),
            final(self).indexed() == 0,
            final(self).levels() == old(self).levels(),
            final(self).marks() == old(self).marks(),
            final(self).steps() == old(self).steps(),
            final(self).spec_num_vertices() == old(self).spec_num_vertices(),
            final(self).spec_disconnected() == old(self).spec_disconnected(),
            forall|l: int| 0 <= l < old(self).levels().len() ==> final(self).nonjump_at(l) == old(self).nonjump_at(l),
    {
        self.jl.truncate(1);
        self.rlevel.truncate(1);
        self.reach.truncate(1);
        self.root_reach = identity(self.levelset.get_level(0).len());
        proof {
            self.levelset.lemma_level_distinct(0);
            lemma_identity_is_reach(self.levels(), self.steps(), 0, self.root());
            assert(self.jl_row(0) == old(self).jl_row(0));
            assert(self.rlevel_at(0) == old(self).rlevel_at(0));
            assert(self.reach_count(0) == old(self).reach_count(0));
            assert forall|l: int| 0 <= l < self.levels().len() implies #[trigger] self.nonjump_holds(l) by {
                assert(old(self).nonjump_holds(l));
            }
            assert(old(self).jl_row(0).len() == self.num_vertices);
        }
    }

    /// Drops from `level` the vertices that `keep` does not hold, and
    /// forgets the tables above the first level.
    fn prune(&mut self, level: usize, keep: &BitSet<u32>)
        requires
            old(self).wf(),
            level < old(self).levels().len(),
        ensures
            final(self).wf(),
            final(self).indexed() == 0,
            final(self).levels() == old(self).levels().update(
                level as int,
                old(self).levels()[level as int].filter(member_of(members(*keep))),
            ),
            final(self).marks() == old(self).marks(),
            final(self).steps() == old(self).steps(),
            final(self).spec_num_vertices() == old(self).spec_num_vertices(),
    {
        let ghost before = *self;
        self.jl.truncate(1);
        self.rlevel.truncate(1);
        self.reach.truncate(1);
        self.levelset.retain(level, keep);
        let nj = entered(&self.levelset, level, &self.nonjump_adj);
        self.nonjump[level] = nj;
        self.root_reach = identity(self.levelset.get_level(0).len());
        if self.levelset.get_level(level).len() == 0 {
            self.disconnected = true;
        }
        proof {
            self.levelset.lemma_level_distinct(0);
            lemma_identity_is_reach(self.levels(), self.steps(), 0, self.root());
            assert(self.jl_row(0) == before.jl_row(0));
            assert(self.rlevel_at(0) == before.rlevel_at(0));
            assert(self.reach_count(0) == before.reach_count(0));
            assert(before.jl_row(0).len() == self.num_vertices);
            assert forall|l: int| 0 <= l < self.levels().len() implies #[trigger] self.nonjump_holds(l) by {
                if l != level {
                    assert(before.nonjump_holds(l));
                    assert(self.nonjump_at(l) == before.nonjump_at(l));
                }
            }
            before.levels()[level as int].lemma_filter_len(member_of(members(*keep)));
            if before.spec_disconnected() {
                let l0 = choose|l: int| 0 <= l < before.levels().len() && (#[trigger] before.levels()[l]).len() == 0;
                assert(self.levels()[l0].len() == 0);
            }
            if exists|l: int| 0 <= l < self.levels().len() && (#[trigger] self.levels()[l]).len() == 0 {
                let l1 = choose|l: int| 0 <= l < self.levels().len() && (#[trigger] self.levels()[l]).len() == 0;
                if l1 != level {
                    assert(before.levels()[l1].len() == 0);
                }
            }
            assert(self.repr_ok());
            assert(self.wf());
        }
    }

    /// Drops from the level below `level` the vertices without an edge to a
    /// vertex of `level`. `rev_jump_adj` lists, for each vertex, the sources
    /// of the jumpable edges that lead to it. The tables above the first
    /// level are forgotten.
    pub fn trim_level(&mut self, level: usize, rev_jump_adj: &Vec<Vec<usize>>)
        requires
            old(self).wf(),
            1 <= level < old(self).levels().len(),
            adjacency_ok(adj_view(rev_jump_adj), old(self).spec_num_vertices() as nat),
        ensures
            final(self).wf(),
            final(self).indexed() == 0,
            final(self).levels() == old(self).levels().update(
                level - 1,
                old(self).levels()[level - 1].filter(
                    member_of(targets_of(adj_view(rev_jump_adj), old(self).levels()[level as int])),
                ),
            ),
            final(self).marks() == old(self).marks(),
            final(self).steps() == old(self).steps(),
            final(self).spec_num_vertices() == old(self).spec_num_vertices(),
    {
        let keep = targets(&self.levelset, level, rev_jump_adj);
        self.prune(level - 1, &keep);
    }

    /// Drops from the last level the vertices that neither are in `finals`
    /// nor have an edge of `closure` to a vertex in `finals`. The tables
    /// above the first level are forgotten.
    pub fn trim_last_level(&mut self, finals: &BitSet<u32>, closure: &Vec<Vec<usize>>)
        requires
            old(self).wf(),
            adjacency_ok(adj_view(closure), old(self).spec_num_vertices() as nat),
        ensures
            final(self).wf(),
            final(self).indexed() == 0,
            final(self).levels() == old(self).levels().update(
                old(self).levels().len() - 1,
                old(self).levels().last().filter(member_of(accepting(adj_view(closure), members(*finals)))),
            ),
            final(self).marks() == old(self).marks(),
            final(self).steps() == old(self).steps(),
            final(self).spec_num_vertices() == old(self).spec_num_vertices(),
    {
        let ghost adjv = adj_view(closure);
        let ghost wanted = accepting(adjv, members(*finals));
        let top = self.levelset.num_levels() - 1;
        let ghost cur = self.levelset@[top as int];
        let mut keep = set_new();
        let n = self.levelset.get_level(top).len();
        let mut i: usize = 0;
        proof {
            self.levelset.lemma_level_distinct(top as int);
        }
        while i < n
            invariant
                i <= n,
                n == cur.len(),
                *self == *old(self),
                self.wf(),
                top == self.levels().len() - 1,
                cur == self.levelset@[top as int],
                adjv == adj_view(closure),
                adjacency_ok(adjv, self.num_vertices as nat),
                wanted == accepting(adjv, members(*finals)),
                forall|k: int| 0 <= k < cur.len() ==> (#[trigger] cur[k]) < self.num_vertices,
                forall|k: int| 0 <= k < i ==> members(keep).contains(#[trigger] cur[k]) == wanted.contains(cur[k]),
                forall|q: usize| #[trigger] members(keep).contains(q) ==> wanted.contains(q),
            decreases n - i,
        {
            let q = self.levelset.get_level(top)[i];
            let mut good = set_contains(finals, q);
            let m = closure[q].len();
            let mut j: usize = 0;
            while j < m
                invariant
                    j <= m,
                    q < closure@.len(),
                    m == closure@[q as int]@.len(),
                    adjv == adj_view(closure),
                    good == (members(*finals).contains(q) || exists|b: int|
                        0 <= b < j && members(*finals).contains(#[trigger] adjv[q as int][b])),
                decreases m - j,
            {
                let f = closure[q][j];
                assert(f == adjv[q as int][j as int]);
                if set_contains(finals, f) {
                    good = true;
                }
                j += 1;
            }
            proof {
                if good && !members(*finals).contains(q) {
                    let b = choose|b: int| 0 <= b < m && members(*finals).contains(#[trigger] adjv[q as int][b]);
                    assert(has_edge(adjv, q, adjv[q as int][b]));
                }
                if wanted.contains(q) && !members(*finals).contains(q) {
                    let f = choose|f: usize| #[trigger] has_edge(adjv, q, f) && members(*finals).contains(f);
                    let b = choose|b: int| 0 <= b < adjv[q as int].len() && adjv[q as int][b] == f;
                    assert(members(*finals).contains(adjv[q as int][b]));
                }
                assert(good == wanted.contains(q));
            }
            if good {
                set_insert(&mut keep, q);
            }
            proof {
                assert forall|k: int| 0 <= k < i + 1 implies members(keep).contains(#[trigger] cur[k])
                    == wanted.contains(cur[k]) by {
                    if k < i && cur[k] == q {
                    }
                }
            }
            i += 1;
        }
        proof {
            lemma_filter_agree(cur, member_of(members(keep)), member_of(wanted));
        }
        self.prune(top, &keep);
    }

    /// Takes the vertices `gamma` of `level` down to the closest level at
    /// which an edge inside the level may have led to where they come from:
    /// the greatest of their jump levels. Returns that level and its vertices
    /// from which a climb leads to one of `gamma`. On the first level there
    /// is nothing below: the level itself comes back, with no vertex.
    pub fn jump(&self, level: usize, gamma: &BitSet<u32>) -> (r: (usize, BitSet<u32>))
        requires
            self.wf(),
            level <= self.indexed(),
            exists|q: usize| members(*gamma).contains(q),
            forall|q: usize| members(*gamma).contains(q) ==> self.levels()[level as int].contains(q),
        ensures
            is_greatest_jump_level(self.jl_row(level as int), members(*gamma), r.0),
            r.0 <= level,
            r.0 == level ==> level == 0 && members(r.1) == Set::<usize>::empty(),
            r.0 < level ==> forall|p: usize|
                members(r.1).contains(p) <==> self.levels()[r.0 as int].contains(p) && climbs_into(
                    self.levels(),
                    self.steps(),
                    r.0 as int,
                    p,
                    level as int,
                    members(*gamma),
                ),
    {
        let ghost levels = self.levels();
        let ghost steps = self.steps();
        let ghost cur = levels[level as int];
        let ghost jl = self.jl_row(level as int);
        let ghost g = members(*gamma);
        let elems = set_to_vec(gamma);
        proof {
            self.levelset.lemma_level_distinct(level as int);
            assert(jl.len() == self.num_vertices);
            let q0 = choose|q: usize| members(*gamma).contains(q);
            assert(elems@.contains(q0));
        }
        let mut best: usize = 0;
        let mut i: usize = 0;
        while i < elems.len()
            invariant
                i <= elems@.len(),
                self.wf(),
                level <= self.indexed(),
                jl == self.jl_row(level as int),
                jl.len() == self.num_vertices,
                g == members(*gamma),
                cur == self.levels()[level as int],
                forall|q: usize| elems@.contains(q) <==> g.contains(q),
                forall|q: usize| g.contains(q) ==> cur.contains(q),
                forall|k: int| 0 <= k < cur.len() ==> (#[trigger] cur[k]) < self.num_vertices,
                forall|k: int| 0 <= k < i ==> jl[(#[trigger] elems@[k]) as int] <= best,
                i == 0 ==> best == 0,
                i > 0 ==> exists|k: int| 0 <= k < i && jl[(#[trigger] elems@[k]) as int] == best,
            decreases elems@.len() - i,
        {
            let q = elems[i];
            assert(elems@.contains(q));
            assert(cur.contains(q));
            let v = self.jl[level][q];
            if i == 0 || v > best {
                best = v;
            }
            i += 1;
        }
        proof {
            let k = choose|k: int| 0 <= k < elems@.len() && jl[(#[trigger] elems@[k]) as int] == best;
            assert(elems@.contains(elems@[k]));
            assert(g.contains(elems@[k]) && jl[elems@[k] as int] == best);
            assert forall|q: usize| g.contains(q) implies (#[trigger] jl[q as int]) <= best by {
                let k2 = choose|k2: int| 0 <= k2 < elems@.len() && elems@[k2] == q;
                assert(jl[elems@[k2] as int] <= best);
            }
            assert(is_greatest_jump_level(jl, g, best));
            if level >= 1 {
                assert(self.jl_holds(level as int));
                assert(best < level);
                assert(self.rlevel_holds(level as int));
                assert(offered(cur, jl, best));
                assert(self.rlevel_at(level as int).contains(best));
            } else {
                assert(best == 0);
            }
        }
        if best == level {
            return (level, set_new());
        }
        let slot = match position(&self.rlevel[level], best) {
            Some(slot) => slot,
            None => {
                return (level, set_new());
            },
        };
        proof {
            assert(self.reach_holds(level as int));
            assert(self.rlevel_at(level as int)[slot as int] == best);
            assert(is_reach(levels, steps, best as int, level as int, self.reach_at(level as int, slot as int)));
        }
        let ghost table = self.reach_at(level as int, slot as int);
        let ghost low = levels[best as int];
        let width = self.levelset.get_level(level).len();
        let mut source = vec_from_elem(width, false);
        let mut j: usize = 0;
        while j < elems.len()
            invariant
                j <= elems@.len(),
                self.wf(),
                level < self.levels().len(),
                cur == self.levels()[level as int],
                cur == self.levelset@[level as int],
                cur.no_duplicates(),
                width == cur.len(),
                crate::bits::bits(source).len() == width,
                forall|q: usize| elems@.contains(q) ==> cur.contains(q),
                forall|x: int|
                    0 <= x < width ==> (#[trigger] crate::bits::bits(source)[x]) == (exists|k: int|
                        0 <= k < j && #[trigger] elems@[k] == cur[x]),
            decreases elems@.len() - j,
        {
            let q = elems[j];
            assert(elems@.contains(q));
            let ghost prior = crate::bits::bits(source);
            match self.levelset.get_vertex_index(level, q) {
                Some(x) => {
                    vec_set(&mut source, x, true);
                },
                None => {},
            }
            proof {
                assert forall|x: int| 0 <= x < width implies (#[trigger] crate::bits::bits(source)[x]) == (exists|
                    k: int,
                | 0 <= k < j + 1 && #[trigger] elems@[k] == cur[x]) by {
                    if prior[x] {
                        let k = choose|k: int| 0 <= k < j && #[trigger] elems@[k] == cur[x];
                        assert(0 <= k < j + 1 && elems@[k] == cur[x]);
                    }
                    if cur[x] == q {
                        assert(0 <= j < j + 1 && elems@[j as int] == cur[x]);
                    }
                    if exists|k: int| 0 <= k < j + 1 && #[trigger] elems@[k] == cur[x] {
                        let k = choose|k: int| 0 <= k < j + 1 && #[trigger] elems@[k] == cur[x];
                        if k < j {
                            assert(prior[x]);
                        }
                    }
                }
            }
            j += 1;
        }
        let ghost picked = crate::bits::bits(source);
        proof {
            self.reach@[level as int]@[slot as int].lemma_shape();
        }
        let target = self.reach[level][slot].col_mul(&source);
        let ghost found = crate::bits::bits(target);
        let hits = set_to_vec(&set_from_bit_vec(target));
        let lower = self.levelset.get_level(best);
        let low_len = lower.len();
        let mut out = set_new();
        let mut h: usize = 0;
        proof {
            self.levelset.lemma_level_distinct(best as int);
        }
        while h < hits.len()
            invariant
                h <= hits@.len(),
                lower@ == low,
                low_len == low.len(),
                found.len() == low.len(),
                forall|c: usize| #[trigger] hits@.contains(c) <==> (c < found.len() && found[c as int]),
                forall|c: int| 0 <= c < low.len() ==> (#[trigger] low[c]) < self.num_vertices,
                forall|p: usize|
                    members(out).contains(p) ==> exists|c: int| 0 <= c < low.len() && found[c] && #[trigger] low[c] == p,
                forall|k: int| 0 <= k < h ==> members(out).contains(#[trigger] low[hits@[k] as int]),
            decreases hits@.len() - h,
        {
            let c = hits[h];
            assert(hits@.contains(c));
            let ghost prior_out = members(out);
            set_insert(&mut out, lower[c]);
            proof {
                assert forall|p: usize| members(out).contains(p) implies exists|c2: int|
                    0 <= c2 < low.len() && found[c2] && #[trigger] low[c2] == p by {
                    if p == low[c as int] {
                        assert(0 <= c < low.len() && found[c as int] && low[c as int] == p);
                    } else {
                        assert(prior_out.contains(p));
                    }
                }
            }
            h += 1;
        }
        proof {
            assert forall|p: usize| members(out).contains(p) <==> low.contains(p) && climbs_into(
                levels,
                steps,
                best as int,
                p,
                level as int,
                g,
            ) by {
                if members(out).contains(p) {
                    let c = choose|c: int| 0 <= c < low.len() && found[c] && #[trigger] low[c] == p;
                    assert(found[c] == crate::matrix::row_times(picked, table, c));
                    assert(crate::matrix::row_times_below(picked, table, c, picked.len() as int));
                    let x = choose|x: int| 0 <= x < picked.len() && picked[x] && #[trigger] table[x][c];
                    assert(picked[x]);
                    let k = choose|k: int| 0 <= k < elems@.len() && #[trigger] elems@[k] == cur[x];
                    assert(elems@.contains(elems@[k]));
                    assert(g.contains(cur[x]));
                    assert(table[x][c] == connected(levels, steps, best as int, low[c], level as int, cur[x]));
                }
                if low.contains(p) && climbs_into(levels, steps, best as int, p, level as int, g) {
                    let q = choose|q: usize| g.contains(q) && #[trigger] connected(
                        levels,
                        steps,
                        best as int,
                        p,
                        level as int,
                        q,
                    );
                    let c = choose|c: int| 0 <= c < low.len() && low[c] == p;
                    let x = choose|x: int| 0 <= x < cur.len() && cur[x] == q;
                    let k = choose|k: int| 0 <= k < elems@.len() && elems@[k] == q;
                    assert(0 <= k < elems@.len() && elems@[k] == cur[x]);
                    assert(picked[x]);
                    assert(table[x][c] == connected(levels, steps, best as int, low[c], level as int, cur[x]));
                    assert(0 <= x < picked.len() && picked[x] && table[x][c]);
                    assert(crate::matrix::row_times_below(picked, table, c, picked.len() as int));
                    assert(found[c]);
                    let cu = c as usize;
                    assert(cu < found.len() && found[cu as int]);
                    assert(hits@.contains(cu));
                    let k3 = choose|k3: int| 0 <= k3 < hits@.len() && hits@[k3] == cu;
                    assert(members(out).contains(low[hits@[k3] as int]));
                }
            }
        }
        (best, out)
    }

    /// Whether some level holds no vertex, so that nothing leads from the
    /// first level to the last.
    pub fn is_disconnected(&self) -> (b: bool)
        requires
            self.wf(),
        ensures
            b == self.spec_disconnected(),
            b == (exists|l: int| 0 <= l < self.levels().len() && (#[trigger] self.levels()[l]).len() == 0),
    {
        self.disconnected
    }

    /// The number of levels.
    pub fn get_nb_levels(&self) -> (n: usize)
        requires
            self.wf(),
        ensures
            n == self.levels().len(),
            n >= 1,
    {
        self.levelset.num_levels()
    }

    /// The vertices of `level`, in the order in which they were found.
    pub fn get_level(&self, level: usize) -> (vertices: &Vec<usize>)
        requires
            self.wf(),
            level < self.levels().len(),
        ensures
            vertices@ == self.levels()[level as int],
    {
        self.levelset.get_level(level)
    }

    /// The position of `vertex` in `level`, if it is in it.
    pub closed spec fn spec_vertex_index(&self, level: int, vertex: int) -> Option<usize> {
        self.levelset.spec_vertex_index(level, vertex)
    }

    /// The position of `vertex` in `level`; `None` where it is not in the
    /// level or there is no such level.
    pub fn get_vertex_index(&self, level: usize, vertex: usize) -> (position: Option<usize>)
        requires
            self.wf(),
        ensures
            position == self.spec_vertex_index(level as int, vertex as int),
            position is Some <==> level < self.levels().len() && self.levels()[level as int].contains(vertex),
            position is Some ==> position->0 < self.levels()[level as int].len() && self.levels()[level as int][position->0 as int]
                == vertex,
    {
        self.levelset.get_vertex_index(level, vertex)
    }

    /// In every level a vertex has a position exactly when it is in the
    /// level, the position points back at the vertex, and the vertex at a
    /// position has that position: so no vertex is twice in a level.
    pub proof fn lemma_index_inverse(&self, level: int, vertex: usize)
        requires
            self.wf(),
            0 <= level < self.levels().len(),
        ensures
            self.levels()[level].contains(vertex) <==> self.spec_vertex_index(level, vertex as int) is Some,
            self.levels()[level].contains(vertex) ==> {
                let i = self.spec_vertex_index(level, vertex as int)->0;
                &&& i < self.levels()[level].len()
                &&& self.levels()[level][i as int] == vertex
                &&& self.spec_vertex_index(level, self.levels()[level][i as int] as int) == Some(i)
            },
    {
        self.levelset.lemma_index_inverse(level, vertex);
    }

    /// The vertices of the last level; none where the graph is disconnected.
    pub fn finals(&self) -> (last: BitSet<u32>)
        requires
            self.wf(),
        ensures
            forall|q: usize|
                members(last).contains(q) <==> !self.spec_disconnected() && self.levels().last().contains(q),
    {
        let mut last = set_new();
        if self.disconnected {
            return last;
        }
        let top = self.levelset.num_levels() - 1;
        let vertices = self.levelset.get_level(top);
        let mut i: usize = 0;
        proof {
            self.levelset.lemma_level_distinct(top as int);
        }
        while i < vertices.len()
            invariant
                i <= vertices@.len(),
                forall|k: int| 0 <= k < vertices@.len() ==> (#[trigger] vertices@[k]) < self.num_vertices,
                forall|q: usize| members(last).contains(q) ==> vertices@.contains(q),
                forall|k: int| 0 <= k < i ==> members(last).contains(#[trigger] vertices@[k]),
            decreases vertices@.len() - i,
        {
            set_insert(&mut last, vertices[i]);
            i += 1;
        }
        last
    }

    /// The jump level of a vertex of an indexed level above the first is
    /// below the level, and it is the greatest level that the predecessors
    /// of the vertex hand to it: the level below where an edge inside that
    /// level enters the predecessor, and the predecessor's own jump level
    /// otherwise; it is zero where the vertex has no predecessor.
    pub proof fn lemma_jump_level(&self, l: int, q: usize)
        requires
            self.wf(),
            1 <= l <= self.indexed(),
            self.levels()[l].contains(q),
        ensures
            q < self.jl_row(l).len(),
            self.jl_row(l)[q as int] < l,
            crate::tables::is_jump_level(
                self.levels()[l - 1],
                self.steps()[l],
                l - 1,
                self.nonjump_at(l - 1),
                self.jl_row(l - 1),
                q,
                self.jl_row(l)[q as int] as int,
            ),
    {
        assert(self.jl_holds(l));
        self.lemma_levels_distinct(l);
        assert(self.jl_row(l).len() == self.spec_num_vertices());
    }

    /// On the first level every jump level is zero.
    pub proof fn lemma_jump_level_first(&self, q: usize)
        requires
            self.wf(),
            q < self.spec_num_vertices(),
        ensures
            self.jl_row(0)[q as int] == 0,
    {
        assert(self.jl_row(0).len() == self.spec_num_vertices());
    }

    /// The jump targets of an indexed level above the first ascend strictly,
    /// and they are the jump levels of the vertices of the level.
    pub proof fn lemma_jump_targets(&self, l: int)
        requires
            self.wf(),
            1 <= l <= self.indexed(),
        ensures
            ascending(self.rlevel_at(l)),
            forall|x: usize| self.rlevel_at(l).contains(x) <==> offered(self.levels()[l], self.jl_row(l), x),
    {
        assert(self.rlevel_holds(l));
    }

    /// An entry of the matrix between an indexed level and one of its jump
    /// targets is set exactly where a climb leads from the column's vertex
    /// in the target level to the row's vertex.
    pub proof fn lemma_reach_entry(&self, l: int, k: int, row: int, col: int)
        requires
            self.wf(),
            1 <= l <= self.indexed(),
            0 <= k < self.rlevel_at(l).len(),
            0 <= row < self.levels()[l].len(),
            0 <= col < self.levels()[self.rlevel_at(l)[k] as int].len(),
        ensures
            self.reach_at(l, k)[row][col] == connected(
                self.levels(),
                self.steps(),
                self.rlevel_at(l)[k] as int,
                self.levels()[self.rlevel_at(l)[k] as int][col],
                l,
                self.levels()[l][row],
            ),
    {
        assert(self.reach_holds(l));
        let sub = self.rlevel_at(l)[k] as int;
        assert(is_reach(self.levels(), self.steps(), sub, l, self.reach_at(l, k)));
    }

    /// The vertices recorded as entered by an edge inside a level are
    /// vertices of the level, and they are exactly those to which an edge
    /// inside the level leads from a vertex of the level.
    pub proof fn lemma_nonjump(&self, l: int, t: usize)
        requires
            self.wf(),
            0 <= l < self.levels().len(),
        ensures
            self.nonjump_at(l).contains(t) ==> self.levels()[l].contains(t),
            self.nonjump_at(l).contains(t) <==> self.levels()[l].contains(t) && entered_by(
                self.marks(),
                self.levels()[l],
                t,
            ),
    {
        assert(self.nonjump_holds(l));
    }

    /// The jump level of `vertex` in `level`; zero for a vertex that is not
    /// in the level.
    pub fn get_jump_level(&self, level: usize, vertex: usize) -> (v: usize)
        requires
            self.wf(),
            level <= self.indexed(),
            vertex < self.spec_num_vertices(),
        ensures
            v == self.jl_row(level as int)[vertex as int],
    {
        assert(self.jl_row(level as int).len() == self.spec_num_vertices());
        self.jl[level][vertex]
    }

    /// The levels that a jump from `level` can lead to, smallest first.
    pub fn get_jump_targets(&self, level: usize) -> (targets: &Vec<usize>)
        requires
            self.wf(),
            level <= self.indexed(),
        ensures
            targets@ == self.rlevel_at(level as int),
    {
        &self.rlevel[level]
    }

    /// The matrix of the climbs between `level` and the `k`-th of its jump
    /// targets: a row for each vertex of `level`, a column for each vertex of
    /// the target.
    pub fn get_reach(&self, level: usize, k: usize) -> (m: &Matrix)
        requires
            self.wf(),
            level <= self.indexed(),
            k < self.rlevel_at(level as int).len(),
        ensures
            m@ == self.reach_at(level as int, k as int),
            m.wf(),
            m.spec_height() == self.levels()[level as int].len(),
            m.spec_width() == self.levels()[self.rlevel_at(level as int)[k as int] as int].len(),
    {
        &self.reach[level][k]
    }

    /// Whether an edge inside `level` enters `vertex`.
    pub fn is_nonjump(&self, level: usize, vertex: usize) -> (b: bool)
        requires
            self.wf(),
            level < self.levels().len(),
        ensures
            b == self.nonjump_at(level as int).contains(vertex),
    {
        set_contains(&self.nonjump[level], vertex)
    }

    /// The last level whose tables are filled.
    pub fn get_indexed(&self) -> (level: usize)
        requires
            self.wf(),
        ensures
            level == self.indexed(),
    {
        self.jl.len() - 1
    }

    /// In every level the vertices are distinct and below the bound.
    pub proof fn lemma_levels_distinct(&self, l: int)
        requires
            self.wf(),
            0 <= l < self.levels().len(),
        ensures
            self.levels()[l].no_duplicates(),
            forall|i: int| 0 <= i < self.levels()[l].len() ==> (#[trigger] self.levels()[l][i]) < self.spec_num_vertices(),
    {
        self.levelset.lemma_level_distinct(l);
    }
}

} // verus!
