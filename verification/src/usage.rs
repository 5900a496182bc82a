//! How large an index is: its levels, vertices, jump targets and matrix
//! entries.

use crate::indexed_dag::IndexedDag;
use crate::jump::Jump;
use vstd::prelude::*;

verus! {

/// `n`, or the greatest `usize` where `n` is greater.
pub open spec fn capped(n: int) -> usize {
    if n > usize::MAX {
        usize::MAX
    } else if n < 0 {
        0
    } else {
        n as usize
    }
}

/// The number of vertices in the first `n` levels.
pub open spec fn vertices_upto(levels: Seq<Seq<usize>>, n: int) -> int
    decreases n,
{
    if n <= 0 {
        0
    } else {
        vertices_upto(levels, n - 1) + levels[n - 1].len()
    }
}

/// The number of jump targets of the first `n` levels.
pub open spec fn targets_upto(j: &Jump, n: int) -> int
    decreases n,
{
    if n <= 0 {
        0
    } else {
        targets_upto(j, n - 1) + j.rlevel_at(n - 1).len()
    }
}

/// The number of entries of the first `k` matrices of level `l`: each has
/// a row for each vertex of the level and a column for each vertex of its
/// jump target.
pub open spec fn entries_of(j: &Jump, l: int, k: int) -> int
    decreases k,
{
    if k <= 0 {
        0
    } else {
        entries_of(j, l, k - 1) + j.levels()[l].len() * j.levels()[j.rlevel_at(l)[k - 1] as int].len()
    }
}

/// The number of entries of the matrices of the first `n` levels.
pub open spec fn entries_upto(j: &Jump, n: int) -> int
    decreases n,
{
    if n <= 0 {
        0
    } else {
        entries_upto(j, n - 1) + entries_of(j, n - 1, j.rlevel_at(n - 1).len() as int)
    }
}

/// None of the counts is negative.
pub proof fn lemma_counts(j: &Jump, l: int, k: int)
    ensures
        vertices_upto(j.levels(), l) >= 0,
        targets_upto(j, l) >= 0,
        entries_of(j, l, k) >= 0,
        entries_upto(j, l) >= 0,
    decreases l, k,
{
    if k > 0 {
        lemma_counts(j, l, k - 1);
        assert(j.levels()[l].len() * j.levels()[j.rlevel_at(l)[k - 1] as int].len() >= 0) by (nonlinear_arith);
    }
    if l > 0 {
        lemma_counts(j, l - 1, j.rlevel_at(l - 1).len() as int);
        lemma_counts(j, l - 1, 0);
    }
}

impl IndexedDag {
    /// The size of the index, or `None` before `preprocess`: how many
    /// levels it has, how many vertices in all its levels, how many jump
    /// targets in all its indexed levels, and how many entries in all its
    /// matrices. A count that does not fit is the greatest `usize`.
    pub fn get_memory_usage(&self) -> (r: Option<(usize, usize, usize, usize)>)
        requires
            self.wf(),
        ensures
            match self.index() {
                None => r is None,
                Some(j) => r == Some(
                    (
                        j.levels().len() as usize,
                        capped(vertices_upto(j.levels(), j.levels().len() as int)),
                        capped(targets_upto(&j, j.indexed() + 1)),
                        capped(entries_upto(&j, j.indexed() + 1)),
                    ),
                ),
            },
    {
        match self.get_jump() {
            None => None,
            Some(j) => {
                let levels = j.get_nb_levels();
                let indexed = j.get_indexed();
                let mut vertices: usize = 0;
                let mut l: usize = 0;
                while l < levels
                    invariant
                        l <= levels,
                        j.wf(),
                        levels == j.levels().len(),
                        vertices == capped(vertices_upto(j.levels(), l as int)),
                    decreases levels - l,
                {
                    proof {
                        lemma_counts(j, l as int, 0);
                    }
                    vertices = vertices.saturating_add(j.get_level(l).len());
                    l += 1;
                }
                let mut targets: usize = 0;
                let mut entries: usize = 0;
                l = 0;
                while l <= indexed
                    invariant
                        l <= indexed + 1,
                        j.wf(),
                        indexed == j.indexed(),
                        indexed < j.levels().len(),
                        levels == j.levels().len(),
                        targets == capped(targets_upto(j, l as int)),
                        entries == capped(entries_upto(j, l as int)),
                    decreases indexed + 1 - l,
                {
                    let row = j.get_jump_targets(l);
                    let count = row.len();
                    proof {
                        lemma_counts(j, l as int, 0);
                    }
                    targets = targets.saturating_add(count);
                    let ghost base = entries_upto(j, l as int);
                    let mut k: usize = 0;
                    while k < count
                        invariant
                            k <= count,
                            j.wf(),
                            l <= j.indexed(),
                            count == j.rlevel_at(l as int).len(),
                            base == entries_upto(j, l as int),
                            base >= 0,
                            entries == capped(base + entries_of(j, l as int, k as int)),
                        decreases count - k,
                    {
                        let m = j.get_reach(l, k);
                        let h = m.height();
                        let w = m.width();
                        let product = match h.checked_mul(w) {
                            Some(x) => x,
                            None => usize::MAX,
                        };
                        proof {
                            lemma_counts(j, l as int, k as int);
                            assert(h * w >= 0) by (nonlinear_arith);
                            assert(product == capped(h * w));
                        }
                        entries = entries.saturating_add(product);
                        k += 1;
                    }
                    l += 1;
                }
                Some((levels, vertices, targets, entries))
            },
        }
    }
}

} // verus!
