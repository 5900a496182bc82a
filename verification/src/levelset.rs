//! The vertices of a layered graph, level by level, with their positions.

use crate::bits::{members, set_contains};
use bit_set::BitSet;
use vstd::prelude::*;

verus! {

/// `s` with `q` appended unless it already occurs.
pub open spec fn push_new(s: Seq<usize>, q: usize) -> Seq<usize> {
    if s.contains(q) {
        s
    } else {
        s.push(q)
    }
}

/// The test "is a member of `keep`".
pub open spec fn member_of(keep: Set<usize>) -> spec_fn(usize) -> bool {
    |q: usize| keep.contains(q)
}

/// Two tests that agree on the entries of `s` filter it alike.
pub proof fn lemma_filter_agree(s: Seq<usize>, f: spec_fn(usize) -> bool, g: spec_fn(usize) -> bool)
    requires
        forall|i: int| 0 <= i < s.len() ==> f(#[trigger] s[i]) == g(s[i]),
    ensures
        s.filter(f) == s.filter(g),
    decreases s.len(),
{
    reveal(Seq::filter);
    if s.len() > 0 {
        let shorter = s.drop_last();
        assert forall|i: int| 0 <= i < shorter.len() implies f(#[trigger] shorter[i]) == g(shorter[i]) by {
            assert(shorter[i] == s[i]);
        }
        lemma_filter_agree(shorter, f, g);
        assert(f(s[s.len() - 1]) == g(s[s.len() - 1]));
    }
}

/// What is left of `s` are its entries that pass the test.
pub proof fn lemma_filter_contains(s: Seq<usize>, f: spec_fn(usize) -> bool, x: usize)
    ensures
        s.filter(f).contains(x) <==> s.contains(x) && f(x),
    decreases s.len(),
{
    reveal(Seq::filter);
    if s.len() > 0 {
        let shorter = s.drop_last();
        lemma_filter_contains(shorter, f, x);
        let kept = shorter.filter(f);
        if shorter.contains(x) {
            let i = choose|i: int| 0 <= i < shorter.len() && shorter[i] == x;
            assert(s[i] == x);
        }
        if s.contains(x) {
            let i = choose|i: int| 0 <= i < s.len() && s[i] == x;
            if i < s.len() - 1 {
                assert(shorter[i] == x);
            }
        }
        if f(s.last()) {
            let longer = kept.push(s.last());
            assert(longer[kept.len() as int] == s.last());
            if kept.contains(x) {
                let i = choose|i: int| 0 <= i < kept.len() && kept[i] == x;
                assert(longer[i] == x);
            }
            if longer.contains(x) {
                let i = choose|i: int| 0 <= i < longer.len() && longer[i] == x;
                if i < kept.len() {
                    assert(kept[i] == x);
                }
            }
        }
    }
}

/// For each level, the vertices registered in it, in the order in which they
/// were first registered, and for each vertex its position in that order.
pub struct LevelSet {
    levels: Vec<Vec<usize>>,
    index: Vec<Vec<Option<usize>>>,
    num_vertices: usize,
}

impl View for LevelSet {
    type V = Seq<Seq<usize>>;

    /// The levels, first to last, each as the list of its vertices.
    closed spec fn view(&self) -> Seq<Seq<usize>> {
        Seq::new(self.levels@.len(), |l: int| self.levels@[l]@)
    }
}

impl LevelSet {
    /// The exclusive upper bound of the vertices that can be registered.
    pub closed spec fn spec_num_vertices(&self) -> usize {
        self.num_vertices
    }

    /// The position stored for `vertex` in `level`.
    pub closed spec fn spec_vertex_index(&self, level: int, vertex: int) -> Option<usize> {
        if 0 <= level < self.index@.len() && 0 <= vertex < self.index@[level]@.len() {
            self.index@[level]@[vertex]
        } else {
            None
        }
    }

    /// The position table is the inverse of each level's list.
    pub closed spec fn wf(&self) -> bool {
        &&& self.index@.len() == self.levels@.len()
        &&& forall|l: int| 0 <= l < self.index@.len() ==> (#[trigger] self.index@[l])@.len() == self.num_vertices
        &&& forall|l: int, i: int|
            0 <= l < self.levels@.len() && 0 <= i < self.levels@[l]@.len() ==> {
                &&& (#[trigger] self.levels@[l]@[i]) < self.num_vertices
                &&& self.index@[l]@[self.levels@[l]@[i] as int] is Some
                &&& self.index@[l]@[self.levels@[l]@[i] as int]->0 == i
            }
        &&& forall|l: int, q: int|
            0 <= l < self.index@.len() && 0 <= q < self.num_vertices
                && (#[trigger] self.index@[l]@[q]) is Some ==> {
                &&& self.index@[l]@[q]->0 < self.levels@[l]@.len()
                &&& self.levels@[l]@[self.index@[l]@[q]->0 as int] == q
            }
    }

    /// In a well-formed registry a vertex has a position exactly when it is in
    /// the level, the position points back at the vertex, and the vertex at a
    /// position has that position.
    pub proof fn lemma_index_inverse(&self, level: int, vertex: usize)
        requires
            self.wf(),
            0 <= level < self@.len(),
        ensures
            self@[level].contains(vertex) <==> self.spec_vertex_index(level, vertex as int) is Some,
            self@[level].contains(vertex) ==> {
                let i = self.spec_vertex_index(level, vertex as int)->0;
                &&& i < self@[level].len()
                &&& self@[level][i as int] == vertex
                &&& self.spec_vertex_index(level, self@[level][i as int] as int) == Some(i)
            },
    {
        if self@[level].contains(vertex) {
            let i = choose|i: int| 0 <= i < self@[level].len() && self@[level][i] == vertex;
            assert(self.levels@[level]@[i] == vertex);
        }
        if self.spec_vertex_index(level, vertex as int) is Some {
            let i = self.index@[level]@[vertex as int]->0;
            assert(self.levels@[level]@[i as int] == vertex);
            assert(self@[level][i as int] == vertex);
        }
    }

    /// No vertex occurs twice in a level, and every vertex is below the bound.
    pub proof fn lemma_level_distinct(&self, level: int)
        requires
            self.wf(),
            0 <= level < self@.len(),
        ensures
            self@[level].no_duplicates(),
            forall|i: int| 0 <= i < self@[level].len() ==> (#[trigger] self@[level][i]) < self.spec_num_vertices(),
    {
        assert forall|i: int, j: int|
            0 <= i < self@[level].len() && 0 <= j < self@[level].len() && i != j implies self@[level][i]
            != self@[level][j] by {
            assert(self.index@[level]@[self.levels@[level]@[i] as int]->0 == i);
            assert(self.index@[level]@[self.levels@[level]@[j] as int]->0 == j);
        }
        assert forall|i: int| 0 <= i < self@[level].len() implies (#[trigger] self@[level][i])
            < self.spec_num_vertices() by {
            assert(self.levels@[level]@[i] < self.num_vertices);
        }
    }

    /// A registry without levels for vertices below `num_vertices`;
    /// `num_levels` is the number of levels to make room for.
    pub fn new(num_levels: usize, num_vertices: usize) -> (ls: LevelSet)
        ensures
            ls.wf(),
            ls@.len() == 0,
            ls.spec_num_vertices() == num_vertices,
    {
        LevelSet {
            levels: Vec::with_capacity(num_levels),
            index: Vec::with_capacity(num_levels),
            num_vertices,
        }
    }

    /// Appends an empty level and returns its number.
    pub fn add_level(&mut self) -> (level: usize)
        requires
            old(self).wf(),
        ensures
            final(self).wf(),
            final(self).spec_num_vertices() == old(self).spec_num_vertices(),
            level == old(self)@.len(),
            final(self)@ == old(self)@.push(Seq::<usize>::empty()),
    {
        let level = self.levels.len();
        let mut slots: Vec<Option<usize>> = Vec::new();
        let mut q: usize = 0;
        while q < self.num_vertices
            invariant
                q <= self.num_vertices,
                slots@.len() == q,
                forall|k: int| 0 <= k < q ==> slots@[k] is None,
            decreases self.num_vertices - q,
        {
            slots.push(None);
            q += 1;
        }
        self.levels.push(Vec::new());
        self.index.push(slots);
        assert(self@ =~= old(self)@.push(Seq::<usize>::empty()));
        level
    }

    /// Puts `vertex` into `level` unless it is there already; the vertices
    /// registered before keep their positions.
    pub fn register(&mut self, level: usize, vertex: usize)
        requires
            old(self).wf(),
            level < old(self)@.len(),
            vertex < old(self).spec_num_vertices(),
        ensures
            final(self).wf(),
            final(self).spec_num_vertices() == old(self).spec_num_vertices(),
            final(self)@ == old(self)@.update(level as int, push_new(old(self)@[level as int], vertex)),
    {
        proof {
            self.lemma_index_inverse(level as int, vertex);
        }
        if self.index[level][vertex].is_none() {
            let position = self.levels[level].len();
            self.levels[level].push(vertex);
            self.index[level][vertex] = Some(position);
        }
        assert(self@ =~= old(self)@.update(level as int, push_new(old(self)@[level as int], vertex)));
    }

    /// Drops from `level` the vertices that `keep` does not hold; the others
    /// stay in their order and move up to close the gaps.
    pub fn retain(&mut self, level: usize, keep: &BitSet<u32>)
        requires
            old(self).wf(),
            level < old(self)@.len(),
        ensures
            final(self).wf(),
            final(self).spec_num_vertices() == old(self).spec_num_vertices(),
            final(self)@ == old(self)@.update(
                level as int,
                old(self)@[level as int].filter(member_of(members(*keep))),
            ),
    {
        let ghost pred = member_of(members(*keep));
        let ghost before = self@[level as int];
        let n = self.levels[level].len();
        let mut kept: Vec<usize> = Vec::new();
        let ghost mut origin: Seq<int> = Seq::empty();
        let mut i: usize = 0;
        proof {
            self.lemma_level_distinct(level as int);
            reveal(Seq::filter);
            assert(before.take(0) =~= Seq::<usize>::empty());
        }
        while i < n
            invariant
                i <= n,
                n == before.len(),
                pred == member_of(members(*keep)),
                before == old(self)@[level as int],
                before.no_duplicates(),
                old(self).wf(),
                level < old(self).levels@.len(),
                self.levels@ == old(self).levels@,
                self.num_vertices == old(self).num_vertices,
                self.index@.len() == old(self).index@.len(),
                forall|l: int| 0 <= l < self.index@.len() && l != level ==> self.index@[l] == old(self).index@[l],
                self.index@[level as int]@.len() == self.num_vertices,
                forall|q: int|
                    0 <= q < self.num_vertices && (#[trigger] self.index@[level as int]@[q]) is Some ==> {
                        &&& old(self).index@[level as int]@[q] == self.index@[level as int]@[q]
                        &&& self.index@[level as int]@[q]->0 >= i
                    },
                kept@ == before.take(i as int).filter(pred),
                origin.len() == kept@.len(),
                forall|k: int| 0 <= k < origin.len() ==> 0 <= #[trigger] origin[k] < i && kept@[k] == before[origin[k]],
                forall|a: int, b: int| 0 <= a < b < origin.len() ==> origin[a] < origin[b],
            decreases n - i,
        {
            let q = self.levels[level][i];
            assert(q == before[i as int]);
            assert(old(self).levels@[level as int]@[i as int] == q);
            if set_contains(keep, q) {
                kept.push(q);
                proof {
                    origin = origin.push(i as int);
                }
            }
            self.index[level][q] = None;
            proof {
                reveal(Seq::filter);
                let longer = before.take(i + 1);
                assert(longer.drop_last() =~= before.take(i as int));
                assert(longer.last() == q);
                assert(longer.len() > 0);
                assert(pred(q) == members(*keep).contains(q));
                assert(longer.filter(pred) == if pred(longer.last()) {
                    longer.drop_last().filter(pred).push(longer.last())
                } else {
                    longer.drop_last().filter(pred)
                });
                assert forall|r: int|
                    0 <= r < self.num_vertices && (#[trigger] self.index@[level as int]@[r]) is Some implies self.index@[level as int]@[r]->0
                    >= i + 1 by {
                    if self.index@[level as int]@[r]->0 == i {
                        assert(old(self).levels@[level as int]@[i as int] == r);
                    }
                }
            }
            i += 1;
        }
        self.levels[level] = Vec::new();
        proof {
            assert(before.take(n as int) =~= before);
            assert forall|q: int| 0 <= q < self.num_vertices implies (#[trigger] self.index@[level as int]@[q]) is None by {
                if self.index@[level as int]@[q] is Some {
                    assert(old(self).index@[level as int]@[q]->0 < old(self).levels@[level as int]@.len());
                }
            }
            assert(self.wf());
            assert(kept@.take(0) =~= Seq::<usize>::empty());
            assert(self@[level as int] =~= kept@.take(0));
            assert(self@ =~= old(self)@.update(level as int, kept@.take(0)));
        }
        let mut j: usize = 0;
        while j < kept.len()
            invariant
                j <= kept@.len(),
                self.wf(),
                level < self@.len(),
                level < old(self)@.len(),
                self.num_vertices == old(self).num_vertices,
                self@ == old(self)@.update(level as int, kept@.take(j as int)),
                before == old(self)@[level as int],
                before.no_duplicates(),
                forall|i: int| 0 <= i < before.len() ==> (#[trigger] before[i]) < self.num_vertices,
                origin.len() == kept@.len(),
                forall|k: int| 0 <= k < origin.len() ==> 0 <= #[trigger] origin[k] < before.len() && kept@[k] == before[origin[k]],
                forall|a: int, b: int| 0 <= a < b < origin.len() ==> origin[a] < origin[b],
            decreases kept@.len() - j,
        {
            let q = kept[j];
            assert(q == before[origin[j as int]]);
            self.register(level, q);
            proof {
                let prefix = kept@.take(j as int);
                if prefix.contains(q) {
                    let k = choose|k: int| 0 <= k < prefix.len() && prefix[k] == q;
                    assert(kept@[k] == before[origin[k]]);
                    assert(origin[k] < origin[j as int]);
                }
                assert(push_new(prefix, q) =~= kept@.take(j + 1));
                assert(self@ =~= old(self)@.update(level as int, kept@.take(j + 1)));
            }
            j += 1;
        }
        proof {
            assert(kept@.take(kept@.len() as int) =~= kept@);
        }
    }

    /// The vertices of `level`, in the order of their registration.
    pub fn get_level(&self, level: usize) -> (vertices: &Vec<usize>)
        requires
            level < self@.len(),
        ensures
            vertices@ == self@[level as int],
    {
        &self.levels[level]
    }

    /// The position of `vertex` in `level`, or `None` where it is not there.
    pub fn get_vertex_index(&self, level: usize, vertex: usize) -> (position: Option<usize>)
        requires
            self.wf(),
        ensures
            position == self.spec_vertex_index(level as int, vertex as int),
            position is Some <==> level < self@.len() && self@[level as int].contains(vertex),
            position is Some ==> position->0 < self@[level as int].len() && self@[level as int][position->0 as int]
                == vertex,
    {
        if level < self.index.len() && vertex < self.num_vertices {
            proof {
                self.lemma_index_inverse(level as int, vertex);
            }
            self.index[level][vertex]
        } else {
            proof {
                if level < self@.len() {
                    self.lemma_level_distinct(level as int);
                }
            }
            None
        }
    }

    /// Whether `level` exists and holds at least one vertex.
    pub fn has_level(&self, level: usize) -> (b: bool)
        ensures
            b == (level < self@.len() && self@[level as int].len() > 0),
    {
        level < self.levels.len() && self.levels[level].len() > 0
    }

    /// The number of levels, empty ones included.
    pub fn num_levels(&self) -> (n: usize)
        ensures
            n == self@.len(),
    {
        self.levels.len()
    }

    /// The exclusive upper bound of the vertices.
    pub fn num_vertices(&self) -> (n: usize)
        ensures
            n == self.spec_num_vertices(),
    {
        self.num_vertices
    }
}

} // verus!
