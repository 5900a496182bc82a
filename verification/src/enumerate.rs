//! The enumeration of the matches: from the last level down to the first,
//! choosing at each level the markers that are passed and jumping to the next
//! level at which markers may be passed.

use crate::bits::{members, set_contains, set_insert, set_intersect_with, set_is_empty, set_new};
use crate::expected::{expected, expected_markers};
use crate::indexed_dag::IndexedDag;
use crate::jump::{climbs_into, is_greatest_jump_level, Jump};
use crate::mapping::Mapping;
use crate::next_level::{choices, lemma_choices_within, NextLevelIterator};
use bit_set::BitSet;
use crate::runs::{is_match_of, lemma_matches_sound};
use vstd::prelude::*;

verus! {

/// The vertices of `level`.
pub open spec fn level_set(j: &Jump, level: int) -> Set<usize> {
    Set::new(|q: usize| j.levels()[level].contains(q))
}

/// The level to which the vertices `gamma` of `level` jump.
pub open spec fn jump_level_of(j: &Jump, level: int, gamma: Set<usize>) -> usize {
    choose|v: usize| is_greatest_jump_level(j.jl_row(level), gamma, v)
}

/// The vertices that the vertices `gamma` of `level` jump to.
pub open spec fn jump_set_of(j: &Jump, level: int, gamma: Set<usize>) -> Set<usize> {
    let to = jump_level_of(j, level, gamma) as int;
    Set::new(|p: usize| j.levels()[to].contains(p) && climbs_into(j.levels(), j.steps(), to, p, level, gamma))
}

/// Each marker with the position `pos`.
pub open spec fn stamp(markers: Seq<usize>, pos: usize) -> Seq<(usize, usize)> {
    Seq::new(markers.len(), |i: int| (markers[i], pos))
}

/// The choices at `level` for the vertices `gamma`.
pub open spec fn choices_at(
    rev: Seq<Seq<(usize, usize)>>,
    j: &Jump,
    level: int,
    gamma: Set<usize>,
) -> Seq<(Seq<usize>, Set<usize>)> {
    choices(rev, gamma, level_set(j, level), expected(rev, gamma))
}

/// The matches that come from the choices `cs` at `level`, each of them
/// added to the markers `partial` that were met above. On the first level a
/// choice gives a match if its states hold the initial state. On another
/// level each choice leads on to the level that its states jump to, and
/// the last choice is followed up first. A choice without states gives
/// nothing.
pub open spec fn pending(
    rev: Seq<Seq<(usize, usize)>>,
    j: &Jump,
    positions: Seq<usize>,
    initial: usize,
    level: int,
    partial: Seq<(usize, usize)>,
    cs: Seq<(Seq<usize>, Set<usize>)>,
) -> Seq<Seq<(usize, usize)>>
    decreases level, cs.len(),
{
    if cs.len() == 0 {
        Seq::empty()
    } else {
        let c = cs[0];
        let rest = pending(rev, j, positions, initial, level, partial, cs.drop_first());
        let extended = partial + stamp(c.0, positions[level]);
        if c.1 == Set::<usize>::empty() {
            rest
        } else if level <= 0 {
            if c.1.contains(initial) {
                seq![extended] + rest
            } else {
                rest
            }
        } else {
            let to = jump_level_of(j, level, c.1) as int;
            if to < level {
                rest + pending(
                    rev,
                    j,
                    positions,
                    initial,
                    to,
                    extended,
                    choices_at(rev, j, to, jump_set_of(j, level, c.1)),
                )
            } else {
                rest
            }
        }
    }
}

/// The matches that end in the vertices `gamma` of `level`, each of them
/// added to the markers `partial`.
pub open spec fn tree(
    rev: Seq<Seq<(usize, usize)>>,
    j: &Jump,
    positions: Seq<usize>,
    initial: usize,
    level: int,
    gamma: Set<usize>,
    partial: Seq<(usize, usize)>,
) -> Seq<Seq<(usize, usize)>> {
    pending(rev, j, positions, initial, level, partial, choices_at(rev, j, level, gamma))
}

/// The matches that wait on a stack of levels with vertices and markers,
/// last entry first.
pub open spec fn stack_trees(
    rev: Seq<Seq<(usize, usize)>>,
    j: &Jump,
    positions: Seq<usize>,
    initial: usize,
    frames: Seq<(int, Set<usize>, Seq<(usize, usize)>)>,
) -> Seq<Seq<(usize, usize)>>
    decreases frames.len(),
{
    if frames.len() == 0 {
        Seq::empty()
    } else {
        tree(rev, j, positions, initial, frames.last().0, frames.last().1, frames.last().2) + stack_trees(
            rev,
            j,
            positions,
            initial,
            frames.drop_last(),
        )
    }
}

/// The number of steps that the choices `cs` at `level` take to follow up.
pub open spec fn cost(
    rev: Seq<Seq<(usize, usize)>>,
    j: &Jump,
    level: int,
    cs: Seq<(Seq<usize>, Set<usize>)>,
) -> nat
    decreases level, cs.len(),
{
    if cs.len() == 0 {
        0
    } else {
        let c = cs[0];
        let rest = cost(rev, j, level, cs.drop_first());
        if c.1 == Set::<usize>::empty() || level <= 0 {
            1 + rest
        } else {
            let to = jump_level_of(j, level, c.1) as int;
            if to < level {
                2 + rest + cost(rev, j, to, choices_at(rev, j, to, jump_set_of(j, level, c.1)))
            } else {
                2 + rest
            }
        }
    }
}

/// The number of steps that a stack takes to follow up.
pub open spec fn stack_cost(
    rev: Seq<Seq<(usize, usize)>>,
    j: &Jump,
    frames: Seq<(int, Set<usize>, Seq<(usize, usize)>)>,
) -> nat
    decreases frames.len(),
{
    if frames.len() == 0 {
        0
    } else {
        1 + cost(rev, j, frames.last().0, choices_at(rev, j, frames.last().0, frames.last().1)) + stack_cost(
            rev,
            j,
            frames.drop_last(),
        )
    }
}

/// All the matches of the indexed automaton on the indexed text, in the
/// order of the enumeration: those that end in a final state of the last
/// level. There is none where the graph is disconnected.
pub open spec fn all_matches(dag: &IndexedDag) -> Seq<Seq<(usize, usize)>> {
    match dag.index() {
        Some(j) => if j.spec_disconnected() {
            Seq::empty()
        } else {
            let last = j.levels().len() - 1;
            tree(
                dag.spec_automaton().back_adj(),
                &j,
                dag.spec_positions(),
                dag.spec_automaton()@.initial,
                last,
                level_set(&j, last).intersect(dag.spec_automaton()@.finals),
                Seq::empty(),
            )
        },
        None => Seq::empty(),
    }
}

/// A copy of `v`.
pub fn copy_pairs(v: &Vec<(usize, usize)>) -> (copy: Vec<(usize, usize)>)
    ensures
        copy@ == v@,
{
    let mut copy: Vec<(usize, usize)> = Vec::new();
    let mut i: usize = 0;
    while i < v.len()
        invariant
            i <= v@.len(),
            copy@ == v@.take(i as int),
        decreases v@.len() - i,
    {
        copy.push(v[i]);
        proof {
            assert(v@.take(i + 1) =~= v@.take(i as int).push(v@[i as int]));
        }
        i += 1;
    }
    proof {
        assert(v@.take(v@.len() as int) =~= v@);
    }
    copy
}

/// The set of the vertices of `level`.
pub fn level_mask(j: &Jump, level: usize) -> (mask: BitSet<u32>)
    requires
        j.wf(),
        level < j.levels().len(),
    ensures
        members(mask) == level_set(j, level as int),
{
    let vertices = j.get_level(level);
    let mut mask = set_new();
    let mut i: usize = 0;
    proof {
        j.lemma_levels_distinct(level as int);
    }
    while i < vertices.len()
        invariant
            i <= vertices@.len(),
            forall|k: int| 0 <= k < vertices@.len() ==> (#[trigger] vertices@[k]) < j.spec_num_vertices(),
            forall|q: usize| members(mask).contains(q) ==> vertices@.contains(q),
            forall|k: int| 0 <= k < i ==> members(mask).contains(#[trigger] vertices@[k]),
        decreases vertices@.len() - i,
    {
        set_insert(&mut mask, vertices[i]);
        i += 1;
    }
    proof {
        assert(members(mask) =~= level_set(j, level as int));
    }
    mask
}

impl IndexedDag {
    /// The iterator over all the matches of a driver that is indexed.
    pub fn iter<'a>(&'a self) -> (it: IndexedDagIterator<'a>)
        requires
            self.wf(),
            self.index() is Some,
        ensures
            it.wf(),
            it.dag() == self,
            it.handed() == 0,
            it.remaining() == all_matches(self),
    {
        IndexedDagIterator::init(self)
    }

    /// The iterator over the choices at `level` for its vertices `gamma`:
    /// which markers are passed on the way to `gamma`, and from where. The
    /// markers are decided on in the order in which the search from `gamma`
    /// against the marker edges meets them.
    pub fn next_level<'a>(&'a self, gamma: BitSet<u32>, level: usize) -> (it: NextLevelIterator<'a>)
        requires
            self.wf(),
            self.index() is Some,
            level < self.index()->0.levels().len(),
            members(gamma).subset_of(level_set(&self.index()->0, level as int)),
        ensures
            it.wf(),
            it.remaining() == choices_at(
                self.spec_automaton().back_adj(),
                &self.index()->0,
                level as int,
                members(gamma),
            ),
    {
        let automaton = self.get_automaton();
        match self.get_jump() {
            Some(j) => {
                proof {
                    j.lemma_levels_distinct(level as int);
                    assert forall|g: usize| members(gamma).contains(g) implies g < automaton@.nb_states by {
                        assert(level_set(j, level as int).contains(g));
                        let k = choose|k: int| 0 <= k < j.levels()[level as int].len() && j.levels()[level as int][k] == g;
                        assert(j.levels()[level as int][k] < j.spec_num_vertices());
                    }
                    automaton.lemma_wf();
                }
                let e = expected_markers(automaton, &gamma);
                let mask = level_mask(j, level);
                NextLevelIterator::explore(automaton, e, gamma, mask)
            },
            None => NextLevelIterator::empty(automaton),
        }
    }
}

/// The levels, vertices and markers of the entries of a stack.
pub open spec fn frames_of(stack: Seq<(usize, BitSet<u32>, Vec<(usize, usize)>)>) -> Seq<
    (int, Set<usize>, Seq<(usize, usize)>),
> {
    Seq::new(stack.len(), |i: int| (stack[i].0 as int, members(stack[i].1), stack[i].2@))
}

/// Hands out the matches one by one.
pub struct IndexedDagIterator<'i> {
    indexed_dag: &'i IndexedDag,
    /// The levels that wait, each with its vertices and the markers met
    /// above it.
    stack: Vec<(usize, BitSet<u32>, Vec<(usize, usize)>)>,
    curr_level: usize,
    curr_mapping: Vec<(usize, usize)>,
    curr_next_level: NextLevelIterator<'i>,
    num_vars: usize,
    /// How many matches were handed out.
    handed: Ghost<nat>,
}

impl<'i> IndexedDagIterator<'i> {
    /// The index that is enumerated.
    pub closed spec fn dag(&self) -> &'i IndexedDag {
        self.indexed_dag
    }

    /// What holds of the representation: the stack and the enumerator of
    /// the level at hand fit the index.
    pub closed spec fn wf(&self) -> bool {
        let dag = self.indexed_dag;
        &&& dag.wf()
        &&& self.curr_next_level.wf()
        &&& self.num_vars == dag.spec_automaton()@.nb_vars
        &&& self.handed@ <= all_matches(dag).len()
        &&& self.remaining() == all_matches(dag).skip(self.handed@ as int)
        &&& match dag.index() {
            Some(j) => if j.spec_disconnected() {
                self.stack@.len() == 0 && self.curr_next_level.remaining().len() == 0
            } else {
                &&& self.curr_level < j.levels().len()
                &&& forall|i: int|
                    0 <= i < self.curr_next_level.remaining().len() ==> (#[trigger] self.curr_next_level.remaining()[i]).1.subset_of(
                        level_set(&j, self.curr_level as int),
                    )
                &&& forall|i: int|
                    0 <= i < self.stack@.len() ==> (#[trigger] self.stack@[i]).0 < j.levels().len()
                        && members(self.stack@[i].1).subset_of(level_set(&j, self.stack@[i].0 as int))
            },
            None => self.stack@.len() == 0 && self.curr_next_level.remaining().len() == 0,
        }
    }

    /// The number of matches that were handed out.
    pub closed spec fn handed(&self) -> nat {
        self.handed@
    }

    /// The matches that are still to come are all the matches but those
    /// that were handed out.
    pub proof fn lemma_remaining(&self)
        requires
            self.wf(),
        ensures
            self.handed() <= all_matches(self.dag()).len(),
            self.remaining() == all_matches(self.dag()).skip(self.handed() as int),
    {
    }

    /// The matches that are still to come, next first.
    pub closed spec fn remaining(&self) -> Seq<Seq<(usize, usize)>> {
        let dag = self.indexed_dag;
        match dag.index() {
            Some(j) => {
                let rev = dag.spec_automaton().back_adj();
                let initial = dag.spec_automaton()@.initial;
                pending(
                    rev,
                    &j,
                    dag.spec_positions(),
                    initial,
                    self.curr_level as int,
                    self.curr_mapping@,
                    self.curr_next_level.remaining(),
                ) + stack_trees(rev, &j, dag.spec_positions(), initial, frames_of(self.stack@))
            },
            None => Seq::empty(),
        }
    }

    /// The number of steps that are left.
    closed spec fn steps_left(&self) -> nat {
        let dag = self.indexed_dag;
        match dag.index() {
            Some(j) => {
                let rev = dag.spec_automaton().back_adj();
                cost(rev, &j, self.curr_level as int, self.curr_next_level.remaining()) + stack_cost(
                    rev,
                    &j,
                    frames_of(self.stack@),
                )
            },
            None => 0,
        }
    }

    /// The iterator over all the matches of a driver that is indexed: it
    /// starts from the final states in the last level.
    pub fn init(indexed_dag: &'i IndexedDag) -> (it: IndexedDagIterator<'i>)
        requires
            indexed_dag.wf(),
            indexed_dag.index() is Some,
        ensures
            it.wf(),
            it.dag() == indexed_dag,
            it.handed() == 0,
            it.remaining() == all_matches(indexed_dag),
    {
        let automaton = indexed_dag.get_automaton();
        let mut stack: Vec<(usize, BitSet<u32>, Vec<(usize, usize)>)> = Vec::new();
        match indexed_dag.get_jump() {
            None => {},
            Some(j) => {
                if !j.is_disconnected() {
                    let mut start = j.finals();
                    let ghost before = members(start);
                    set_intersect_with(&mut start, automaton.get_finals());
                    let last = j.get_nb_levels() - 1;
                    proof {
                        assert(members(start) =~= level_set(j, last as int).intersect(automaton@.finals)) by {
                            assert forall|q: usize| before.contains(q) <==> level_set(j, last as int).contains(q) by {
                                assert(j.levels().last() == j.levels()[last as int]);
                            }
                        }
                    }
                    stack.push((last, start, Vec::new()));
                }
            },
        }
        let it = IndexedDagIterator {
            indexed_dag,
            stack,
            curr_next_level: NextLevelIterator::empty(automaton),
            curr_level: 0,
            curr_mapping: Vec::new(),
            num_vars: automaton.num_vars(),
            handed: Ghost(0),
        };
        proof {
            match indexed_dag.index() {
                Some(j) => {
                    let rev = indexed_dag.spec_automaton().back_adj();
                    let initial = indexed_dag.spec_automaton()@.initial;
                    let positions = indexed_dag.spec_positions();
                    let frames = frames_of(it.stack@);
                    let none = Seq::<Seq<(usize, usize)>>::empty();
                    assert(pending(rev, &j, positions, initial, 0, it.curr_mapping@, it.curr_next_level.remaining())
                        =~= none);
                    if !j.spec_disconnected() {
                        let last = j.levels().len() - 1;
                        assert(frames.len() == 1);
                        assert(frames.drop_last() =~= Seq::<(int, Set<usize>, Seq<(usize, usize)>)>::empty());
                        assert(stack_trees(rev, &j, positions, initial, frames.drop_last()) =~= none);
                        assert(it.stack@[0].2@ =~= Seq::<(usize, usize)>::empty());
                        assert(frames.last() == (
                            last,
                            level_set(&j, last).intersect(indexed_dag.spec_automaton()@.finals),
                            Seq::<(usize, usize)>::empty(),
                        ));
                        assert(it.remaining() =~= all_matches(indexed_dag));
                    } else {
                        assert(frames.len() == 0);
                        assert(it.remaining() =~= all_matches(indexed_dag));
                    }
                },
                None => {},
            }
            assert(all_matches(indexed_dag).skip(0) =~= all_matches(indexed_dag));
        }
        it
    }

    /// The next match, or `None` when every match has been handed out.
    pub fn next(&mut self) -> (r: Option<Mapping>)
        requires
            old(self).wf(),
        ensures
            final(self).wf(),
            final(self).dag() == old(self).dag(),
            match r {
                Some(m) => {
                    &&& old(self).remaining().len() > 0
                    &&& m.wf()
                    &&& m.spec_markers() == old(self).remaining()[0]
                    &&& m.spec_num_vars() == old(self).dag().spec_automaton()@.nb_vars
                    &&& final(self).remaining() == old(self).remaining().drop_first()
                    &&& old(self).handed() < all_matches(old(self).dag()).len()
                    &&& m.spec_markers() == all_matches(old(self).dag())[old(self).handed() as int]
                    &&& final(self).handed() == old(self).handed() + 1
                    &&& is_match_of(
                        old(self).dag().spec_automaton()@,
                        old(self).dag().spec_automaton().back_adj(),
                        old(self).dag().spec_text(),
                        old(self).dag().spec_positions(),
                        m.spec_markers().to_set(),
                    )
                },
                None => {
                    &&& old(self).remaining().len() == 0
                    &&& final(self).remaining().len() == 0
                    &&& final(self).handed() == old(self).handed()
                    &&& old(self).handed() == all_matches(old(self).dag()).len()
                },
            },
    {
        let ghost all = all_matches(old(self).dag());
        let ghost count = old(self).handed();
        proof {
            assert(old(self).remaining().len() == all.len() - count);
        }
        let dag: &'i IndexedDag = self.indexed_dag;
        let automaton = dag.get_automaton();
        let j = match dag.get_jump() {
            Some(j) => j,
            None => {
                return None;
            },
        };
        let ghost rev = automaton.back_adj();
        let ghost initial = automaton@.initial;
        let ghost positions = dag.spec_positions();
        let ghost start = old(self).remaining();
        loop
            invariant
                self.wf(),
                self.indexed_dag == dag,
                dag == old(self).indexed_dag,
                dag.wf(),
                dag.index() == Some(*j),
                *automaton == dag.spec_automaton(),
                rev == automaton.back_adj(),
                initial == automaton@.initial,
                positions == dag.spec_positions(),
                start == old(self).remaining(),
                self.remaining() == start,
                all == all_matches(dag),
                self.handed() == count,
                count == old(self).handed(),
                all == all_matches(old(self).dag()),
                count <= all.len(),
                start == all.skip(count as int),
            decreases self.steps_left(),
        {
            let ghost cs = self.curr_next_level.remaining();
            let ghost frames = frames_of(self.stack@);
            let ghost level = self.curr_level as int;
            let ghost partial = self.curr_mapping@;
            let ghost stack_a = self.stack@;
            match self.curr_next_level.next() {
                Some((s_p, new_gamma)) => {
                    let ghost c = (s_p@, members(new_gamma));
                    let ghost rest = cs.drop_first();
                    proof {
                        assert(cs[0] == c);
                        assert(self.curr_next_level.remaining() == rest);
                        assert forall|i: int| 0 <= i < rest.len() implies (#[trigger] rest[i]).1.subset_of(
                            level_set(j, level),
                        ) by {
                            assert(rest[i] == cs[i + 1]);
                        }
                    }
                    if !set_is_empty(&new_gamma) {
                        let pos = dag.get_pos(self.curr_level);
                        let mut new_mapping = copy_pairs(&self.curr_mapping);
                        let mut k: usize = 0;
                        while k < s_p.len()
                            invariant
                                k <= s_p@.len(),
                                new_mapping@ == partial + stamp(s_p@, pos).take(k as int),
                            decreases s_p@.len() - k,
                        {
                            new_mapping.push((s_p[k], pos));
                            proof {
                                assert(stamp(s_p@, pos).take(k + 1) =~= stamp(s_p@, pos).take(k as int).push(
                                    (s_p@[k as int], pos),
                                ));
                                assert(new_mapping@ =~= partial + stamp(s_p@, pos).take(k + 1));
                            }
                            k += 1;
                        }
                        proof {
                            assert(stamp(s_p@, pos).take(s_p@.len() as int) =~= stamp(s_p@, pos));
                        }
                        let ghost extended = partial + stamp(c.0, positions[level]);
                        assert(new_mapping@ == extended);
                        if self.curr_level == 0 {
                            if set_contains(&new_gamma, automaton.get_initial()) {
                                proof {
                                    let tail = pending(rev, j, positions, initial, level, partial, rest)
                                        + stack_trees(rev, j, positions, initial, frames);
                                    assert(start =~= seq![extended] + tail);
                                    assert(start.drop_first() =~= tail);
                                    assert(self.remaining() == tail);
                                    assert(start.len() == all.len() - count);
                                    assert(start[0] == all[count as int]);
                                    assert(new_mapping@ == all[count as int]);
                                    assert(start.drop_first() =~= all.skip(count as int + 1));
                                    lemma_matches_sound(dag, count as int);
                                }
                                self.handed = Ghost((count + 1) as nat);
                                let found = Mapping::from_markers(new_mapping, self.num_vars);
                                proof {
                                    assert(found.spec_markers() == all[count as int]);
                                    assert(self.remaining() == all.skip(count as int + 1));
                                    assert(self.wf());
                                }
                                return Some(found);
                            }
                        } else {
                            proof {
                                let q = choose|q: usize| members(new_gamma).contains(q);
                                if forall|q: usize| !members(new_gamma).contains(q) {
                                    assert(members(new_gamma) =~= Set::<usize>::empty());
                                }
                                assert(c.1.subset_of(level_set(j, level)));
                            }
                            let (to, lower) = j.jump(self.curr_level, &new_gamma);
                            proof {
                                let v2 = jump_level_of(j, level, c.1);
                                assert(is_greatest_jump_level(j.jl_row(level), c.1, v2));
                                assert(to == v2);
                                assert(members(lower) =~= jump_set_of(j, level, c.1));
                                assert(members(lower).subset_of(level_set(j, to as int)));
                            }
                            self.stack.push((to, lower, new_mapping));
                            proof {
                                let frames2 = frames_of(self.stack@);
                                assert(frames2.drop_last() =~= frames);
                                assert(frames2.last() == (to as int, jump_set_of(j, level, c.1), extended));
                                let tail = pending(rev, j, positions, initial, level, partial, rest);
                                let child = tree(rev, j, positions, initial, to as int, jump_set_of(j, level, c.1), extended);
                                let older = stack_trees(rev, j, positions, initial, frames);
                                assert((tail + child) + older =~= tail + (child + older));
                                assert forall|i: int| 0 <= i < self.stack@.len() implies (#[trigger] self.stack@[i]).0
                                    < j.levels().len() && members(self.stack@[i].1).subset_of(
                                    level_set(j, self.stack@[i].0 as int),
                                ) by {
                                    if i < stack_a.len() {
                                        assert(self.stack@[i] == stack_a[i]);
                                    }
                                }
                            }
                        }
                    }
                },
                None => {
                    match self.stack.pop() {
                        None => {
                            proof {
                                assert(frames.len() == 0);
                                assert(start.len() == all.len() - count);
                            }
                            return None;
                        },
                        Some((level2, gamma2, mapping2)) => {
                            let ghost g2 = members(gamma2);
                            proof {
                                assert(stack_a[stack_a.len() - 1] == (level2, gamma2, mapping2));
                                assert(frames.last() == (level2 as int, g2, mapping2@));
                                assert(frames_of(self.stack@) =~= frames.drop_last());
                                assert forall|i: int| 0 <= i < self.stack@.len() implies (#[trigger] self.stack@[i]).0
                                    < j.levels().len() && members(self.stack@[i].1).subset_of(
                                    level_set(j, self.stack@[i].0 as int),
                                ) by {
                                    assert(self.stack@[i] == stack_a[i]);
                                }
                                assert forall|i: int|
                                    0 <= i < choices_at(rev, j, level2 as int, g2).len() implies (#[trigger] choices_at(
                                    rev,
                                    j,
                                    level2 as int,
                                    g2,
                                )[i]).1.subset_of(level_set(j, level2 as int)) by {
                                    lemma_choices_within(rev, g2, level_set(j, level2 as int), expected(rev, g2), i);
                                }
                            }
                            self.curr_level = level2;
                            self.curr_mapping = mapping2;
                            self.curr_next_level = dag.next_level(gamma2, level2);
                        },
                    }
                },
            }
        }
    }
}

} // verus!
