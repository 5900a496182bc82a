//! The tables of one level of the jump index: the jump level of each
//! vertex, the levels that are jump targets, and the edges from the level below.

use crate::bits::{members, set_contains, set_insert, set_new, set_to_vec};
use crate::graph::{
    adj_view, adjacency_ok, connected, has_edge, lemma_connected_extend, lemma_connected_frame,
    lemma_connected_same_level, lemma_connected_split,
};
use crate::levelset::LevelSet;
use crate::matrix::{row_times, row_times_below, Matrix};
use bit_set::BitSet;
use vstd::prelude::*;

verus! {

/// The level that vertex `p` of level `l` hands to its successors in the next
/// level: `l` itself where an edge inside the level enters `p`, and the jump
/// level of `p` otherwise.
pub open spec fn candidate(l: int, nj: Set<usize>, jl: Seq<usize>, p: usize) -> int {
    if nj.contains(p) {
        l
    } else {
        jl[p as int] as int
    }
}

/// Some predecessor of `t` in `prev` hands it the level `v`.
pub open spec fn handed(
    prev: Seq<usize>,
    adj: Seq<Seq<usize>>,
    l: int,
    nj: Set<usize>,
    jl: Seq<usize>,
    t: usize,
    v: int,
) -> bool {
    exists|p: usize| prev.contains(p) && #[trigger] has_edge(adj, p, t) && candidate(l, nj, jl, p) == v
}

/// `v` is the greatest level that a predecessor of `t` in `prev` hands to it,
/// and zero where `t` has no predecessor.
pub open spec fn is_jump_level(
    prev: Seq<usize>,
    adj: Seq<Seq<usize>>,
    l: int,
    nj: Set<usize>,
    jl: Seq<usize>,
    t: usize,
    v: int,
) -> bool {
    &&& forall|p: usize| prev.contains(p) && #[trigger] has_edge(adj, p, t) ==> candidate(l, nj, jl, p) <= v
    &&& (v == 0 || handed(prev, adj, l, nj, jl, t, v))
}

/// `jl_cur` holds the jump level of every vertex of `cur`, the level above
/// level `l`.
pub open spec fn jl_ok(
    prev: Seq<usize>,
    cur: Seq<usize>,
    adj: Seq<Seq<usize>>,
    l: int,
    nj: Set<usize>,
    jl_prev: Seq<usize>,
    jl_cur: Seq<usize>,
) -> bool {
    forall|t: usize| #[trigger] cur.contains(t) ==> is_jump_level(prev, adj, l, nj, jl_prev, t, jl_cur[t as int] as int)
}

/// Some vertex of `cur` has the jump level `x`.
pub open spec fn offered(cur: Seq<usize>, jl: Seq<usize>, x: usize) -> bool {
    exists|q: usize| #[trigger] cur.contains(q) && jl[q as int] == x
}

/// `s` ascends strictly.
pub open spec fn ascending(s: Seq<usize>) -> bool {
    forall|i: int, j: int| 0 <= i < j < s.len() ==> s[i] < s[j]
}

/// `rl` lists, smallest first and each once, the jump levels of the vertices
/// of `cur`.
pub open spec fn rlevel_ok(cur: Seq<usize>, jl: Seq<usize>, rl: Seq<usize>) -> bool {
    &&& ascending(rl)
    &&& forall|x: usize| #[trigger] rl.contains(x) <==> offered(cur, jl, x)
}

/// The jump level of every vertex of `level`, indexed by vertex; zero for the
/// vertices that are not in the level.
pub fn jump_levels(
    levelset: &LevelSet,
    level: usize,
    adj: &Vec<Vec<usize>>,
    nj_prev: &BitSet<u32>,
    jl_prev: &Vec<usize>,
) -> (jl: Vec<usize>)
    requires
        levelset.wf(),
        1 <= level < levelset@.len(),
        adjacency_ok(adj_view(adj), levelset.spec_num_vertices() as nat),
        jl_prev@.len() == levelset.spec_num_vertices(),
        forall|q: int| 0 <= q < jl_prev@.len() ==> jl_prev@[q] < level,
    ensures
        jl@.len() == levelset.spec_num_vertices(),
        forall|q: int| 0 <= q < jl@.len() ==> jl@[q] < level,
        forall|q: usize| q < jl@.len() && !levelset@[level as int].contains(q) ==> jl@[q as int] == 0,
        jl_ok(
            levelset@[level - 1],
            levelset@[level as int],
            adj_view(adj),
            level - 1,
            members(*nj_prev),
            jl_prev@,
            jl@,
        ),
{
    let ghost adjv = adj_view(adj);
    let ghost prev = levelset@[level - 1];
    let ghost cur = levelset@[level as int];
    let ghost nj = members(*nj_prev);
    let ghost l = level - 1;
    let nv = levelset.num_vertices();
    let mut jl: Vec<usize> = vec![0usize; nv];
    let n = levelset.get_level(level - 1).len();
    let mut a: usize = 0;
    proof {
        levelset.lemma_level_distinct(level - 1);
    }
    while a < n
        invariant
            a <= n,
            n == prev.len(),
            nv == levelset.spec_num_vertices(),
            levelset.wf(),
            1 <= level < levelset@.len(),
            l == level - 1,
            prev == levelset@[level - 1],
            cur == levelset@[level as int],
            nj == members(*nj_prev),
            adjv == adj_view(adj),
            adjacency_ok(adjv, nv as nat),
            jl_prev@.len() == nv,
            forall|q: int| 0 <= q < jl_prev@.len() ==> jl_prev@[q] < level,
            forall|k: int| 0 <= k < prev.len() ==> (#[trigger] prev[k]) < nv,
            jl@.len() == nv,
            forall|q: int| 0 <= q < jl@.len() ==> jl@[q] < level,
            forall|q: usize| q < jl@.len() && !cur.contains(q) ==> jl@[q as int] == 0,
            forall|k: int, t: usize|
                0 <= k < a && #[trigger] has_edge(adjv, prev[k], t) && cur.contains(t) ==> candidate(
                    l,
                    nj,
                    jl_prev@,
                    prev[k],
                ) <= jl@[t as int],
            forall|t: usize|
                t < nv ==> (#[trigger] jl@[t as int]) == 0 || handed(prev, adjv, l, nj, jl_prev@, t, jl@[t as int] as int),
        decreases n - a,
    {
        let source = levelset.get_level(level - 1)[a];
        assert(source == prev[a as int]);
        let offer = if set_contains(nj_prev, source) {
            level - 1
        } else {
            jl_prev[source]
        };
        assert(offer == candidate(l, nj, jl_prev@, source));
        let m = adj[source].len();
        let mut b: usize = 0;
        while b < m
            invariant
                b <= m,
                a < n,
                n == prev.len(),
                source == prev[a as int],
                source < adj@.len(),
                m == adj@[source as int]@.len(),
                offer == candidate(l, nj, jl_prev@, source),
                offer < level,
                nv == levelset.spec_num_vertices(),
                levelset.wf(),
                1 <= level < levelset@.len(),
                l == level - 1,
                prev == levelset@[level - 1],
                cur == levelset@[level as int],
                nj == members(*nj_prev),
                adjv == adj_view(adj),
                adjacency_ok(adjv, nv as nat),
                jl_prev@.len() == nv,
                jl@.len() == nv,
                forall|q: int| 0 <= q < jl@.len() ==> jl@[q] < level,
                forall|q: usize| q < jl@.len() && !cur.contains(q) ==> jl@[q as int] == 0,
                forall|k: int, t: usize|
                    0 <= k < a && #[trigger] has_edge(adjv, prev[k], t) && cur.contains(t) ==> candidate(
                        l,
                        nj,
                        jl_prev@,
                        prev[k],
                    ) <= jl@[t as int],
                forall|t: usize|
                    t < nv ==> (#[trigger] jl@[t as int]) == 0 || handed(
                        prev,
                        adjv,
                        l,
                        nj,
                        jl_prev@,
                        t,
                        jl@[t as int] as int,
                    ),
                forall|c: int|
                    0 <= c < b && cur.contains(#[trigger] adjv[source as int][c]) ==> offer
                        <= jl@[adjv[source as int][c] as int],
            decreases m - b,
        {
            let target = adj[source][b];
            let ghost before = jl@;
            assert(target == adjv[source as int][b as int]);
            assert(has_edge(adjv, source, target));
            if levelset.get_vertex_index(level, target).is_some() && offer > jl[target] {
                jl[target] = offer;
                proof {
                    assert(prev.contains(source));
                    assert(handed(prev, adjv, l, nj, jl_prev@, target, offer as int));
                }
            }
            proof {
                assert forall|q: int| 0 <= q < before.len() implies before[q] <= #[trigger] jl@[q] by {}
                assert forall|k: int, t: usize|
                    0 <= k < a && #[trigger] has_edge(adjv, prev[k], t) && cur.contains(t) implies candidate(
                    l,
                    nj,
                    jl_prev@,
                    prev[k],
                ) <= jl@[t as int] by {
                    assert(before[t as int] <= jl@[t as int]);
                }
                assert forall|t: usize| t < nv implies (#[trigger] jl@[t as int]) == 0 || handed(
                    prev,
                    adjv,
                    l,
                    nj,
                    jl_prev@,
                    t,
                    jl@[t as int] as int,
                ) by {
                    if t != target {
                        assert(jl@[t as int] == before[t as int]);
                    }
                }
                assert forall|c: int|
                    0 <= c < b + 1 && cur.contains(#[trigger] adjv[source as int][c]) implies offer
                    <= jl@[adjv[source as int][c] as int] by {
                    let t = adjv[source as int][c];
                    assert(before[t as int] <= jl@[t as int]);
                }
            }
            b += 1;
        }
        proof {
            assert forall|k: int, t: usize|
                0 <= k < a + 1 && #[trigger] has_edge(adjv, prev[k], t) && cur.contains(t) implies candidate(
                l,
                nj,
                jl_prev@,
                prev[k],
            ) <= jl@[t as int] by {
                if k == a {
                    let c = choose|c: int| 0 <= c < adjv[source as int].len() && adjv[source as int][c] == t;
                    assert(cur.contains(adjv[source as int][c]));
                }
            }
        }
        a += 1;
    }
    proof {
        assert forall|t: usize| #[trigger] cur.contains(t) implies is_jump_level(
            prev,
            adjv,
            l,
            nj,
            jl_prev@,
            t,
            jl@[t as int] as int,
        ) by {
            levelset.lemma_level_distinct(level as int);
            assert(t < nv);
            assert forall|p: usize| prev.contains(p) && #[trigger] has_edge(adjv, p, t) implies candidate(
                l,
                nj,
                jl_prev@,
                p,
            ) <= jl@[t as int] by {
                let k = choose|k: int| 0 <= k < prev.len() && prev[k] == p;
                assert(has_edge(adjv, prev[k], t));
            }
            assert(jl@[t as int] == 0 || handed(prev, adjv, l, nj, jl_prev@, t, jl@[t as int] as int));
        }
    }
    jl
}

/// The jump levels of the vertices of `level`, smallest first, each once.
pub fn jump_targets(levelset: &LevelSet, level: usize, jl: &Vec<usize>) -> (rl: Vec<usize>)
    requires
        levelset.wf(),
        level < levelset@.len(),
        jl@.len() == levelset.spec_num_vertices(),
        forall|q: int| 0 <= q < jl@.len() ==> jl@[q] < usize::MAX,
    ensures
        rlevel_ok(levelset@[level as int], jl@, rl@),
{
    let ghost cur = levelset@[level as int];
    let mut seen = set_new();
    let n = levelset.get_level(level).len();
    let mut i: usize = 0;
    proof {
        levelset.lemma_level_distinct(level as int);
    }
    while i < n
        invariant
            i <= n,
            n == cur.len(),
            level < levelset@.len(),
            cur == levelset@[level as int],
            jl@.len() == levelset.spec_num_vertices(),
            forall|q: int| 0 <= q < jl@.len() ==> jl@[q] < usize::MAX,
            forall|k: int| 0 <= k < cur.len() ==> (#[trigger] cur[k]) < jl@.len(),
            forall|k: int| 0 <= k < i ==> members(seen).contains(#[trigger] jl@[cur[k] as int]),
            forall|x: usize| #[trigger] members(seen).contains(x) ==> offered(cur, jl@, x),
        decreases n - i,
    {
        let q = levelset.get_level(level)[i];
        assert(q == cur[i as int]);
        set_insert(&mut seen, jl[q]);
        proof {
            assert(cur.contains(q));
            assert(offered(cur, jl@, jl@[q as int]));
        }
        i += 1;
    }
    let rl = set_to_vec(&seen);
    proof {
        assert forall|x: usize| offered(cur, jl@, x) implies #[trigger] rl@.contains(x) by {
            let q = choose|q: usize| #[trigger] cur.contains(q) && jl@[q as int] == x;
            let k = choose|k: int| 0 <= k < cur.len() && cur[k] == q;
            assert(members(seen).contains(jl@[cur[k] as int]));
        }
    }
    rl
}

/// The first position at which `x` occurs in `v`.
pub fn position(v: &Vec<usize>, x: usize) -> (r: Option<usize>)
    ensures
        r is Some <==> v@.contains(x),
        r is Some ==> r->0 < v@.len() && v@[r->0 as int] == x,
        r is Some ==> forall|k: int| 0 <= k < r->0 ==> v@[k] != x,
{
    let mut i: usize = 0;
    while i < v.len()
        invariant
            i <= v@.len(),
            forall|k: int| 0 <= k < i ==> v@[k] != x,
        decreases v@.len() - i,
    {
        if v[i] == x {
            return Some(i);
        }
        i += 1;
    }
    None
}

/// The edges of `adj` from level `level - 1` into `level`, as a matrix with a
/// row for each vertex of `level` and a column for each vertex of the level
/// below.
pub fn one_step(levelset: &LevelSet, level: usize, adj: &Vec<Vec<usize>>) -> (m: Matrix)
    requires
        levelset.wf(),
        1 <= level < levelset@.len(),
        adjacency_ok(adj_view(adj), levelset.spec_num_vertices() as nat),
    ensures
        m.wf(),
        m.spec_height() == levelset@[level as int].len(),
        m.spec_width() == levelset@[level - 1].len(),
        m@.len() == levelset@[level as int].len(),
        forall|r: int| 0 <= r < m@.len() ==> (#[trigger] m@[r]).len() == levelset@[level - 1].len(),
        forall|r: int, c: int|
            0 <= r < levelset@[level as int].len() && 0 <= c < levelset@[level - 1].len() ==> #[trigger] m@[r][c]
                == has_edge(adj_view(adj), levelset@[level - 1][c], levelset@[level as int][r]),
{
    let ghost adjv = adj_view(adj);
    let ghost prev = levelset@[level - 1];
    let ghost cur = levelset@[level as int];
    let n = levelset.get_level(level - 1).len();
    let mut m = Matrix::new(levelset.get_level(level).len(), n);
    let mut c: usize = 0;
    proof {
        levelset.lemma_level_distinct(level - 1);
        levelset.lemma_level_distinct(level as int);
    }
    while c < n
        invariant
            c <= n,
            n == prev.len(),
            levelset.wf(),
            1 <= level < levelset@.len(),
            prev == levelset@[level - 1],
            cur == levelset@[level as int],
            cur.no_duplicates(),
            adjv == adj_view(adj),
            adjacency_ok(adjv, levelset.spec_num_vertices() as nat),
            forall|k: int| 0 <= k < prev.len() ==> (#[trigger] prev[k]) < levelset.spec_num_vertices(),
            m.wf(),
            m.spec_height() == cur.len(),
            m.spec_width() == prev.len(),
            m@.len() == cur.len(),
            forall|r: int| 0 <= r < m@.len() ==> (#[trigger] m@[r]).len() == prev.len(),
            forall|r: int, k: int|
                0 <= r < cur.len() && 0 <= k < prev.len() && #[trigger] m@[r][k] ==> has_edge(adjv, prev[k], cur[r]),
            forall|r: int, k: int|
                0 <= r < cur.len() && 0 <= k < c && has_edge(adjv, prev[k], cur[r]) ==> #[trigger] m@[r][k],
        decreases n - c,
    {
        let source = levelset.get_level(level - 1)[c];
        assert(source == prev[c as int]);
        let d = adj[source].len();
        let mut b: usize = 0;
        while b < d
            invariant
                b <= d,
                c < n,
                n == prev.len(),
                source == prev[c as int],
                source < adj@.len(),
                d == adj@[source as int]@.len(),
                levelset.wf(),
                1 <= level < levelset@.len(),
                prev == levelset@[level - 1],
                cur == levelset@[level as int],
                cur.no_duplicates(),
                adjv == adj_view(adj),
                adjacency_ok(adjv, levelset.spec_num_vertices() as nat),
                m.wf(),
                m.spec_height() == cur.len(),
                m.spec_width() == prev.len(),
                m@.len() == cur.len(),
                forall|r: int| 0 <= r < m@.len() ==> (#[trigger] m@[r]).len() == prev.len(),
                forall|r: int, k: int|
                    0 <= r < cur.len() && 0 <= k < prev.len() && #[trigger] m@[r][k] ==> has_edge(
                        adjv,
                        prev[k],
                        cur[r],
                    ),
                forall|r: int, k: int|
                    0 <= r < cur.len() && 0 <= k < c && has_edge(adjv, prev[k], cur[r]) ==> #[trigger] m@[r][k],
                forall|r: int, e: int|
                    0 <= r < cur.len() && 0 <= e < b && cur[r] == #[trigger] adjv[source as int][e] ==> #[trigger] m@[r][c as int],
            decreases d - b,
        {
            let target = adj[source][b];
            assert(target == adjv[source as int][b as int]);
            assert(has_edge(adjv, source, target));
            match levelset.get_vertex_index(level, target) {
                Some(row) => {
                    m.set(row, c, true);
                },
                None => {},
            }
            b += 1;
        }
        proof {
            assert forall|r: int, k: int|
                0 <= r < cur.len() && 0 <= k < c + 1 && has_edge(adjv, prev[k], cur[r]) implies #[trigger] m@[r][k] by {
                if k == c {
                    let e = choose|e: int| 0 <= e < adjv[source as int].len() && adjv[source as int][e] == cur[r];
                    assert(cur[r] == adjv[source as int][e]);
                }
            }
        }
        c += 1;
    }
    m
}

/// The square matrix of side `n` whose set entries are those on the diagonal.
pub fn identity(n: usize) -> (m: Matrix)
    ensures
        m.wf(),
        m.spec_height() == n,
        m.spec_width() == n,
        m@.len() == n,
        forall|r: int| 0 <= r < n ==> (#[trigger] m@[r]).len() == n,
        forall|r: int, c: int| 0 <= r < n && 0 <= c < n ==> #[trigger] m@[r][c] == (r == c),
{
    let mut m = Matrix::new(n, n);
    let mut i: usize = 0;
    while i < n
        invariant
            i <= n,
            m.wf(),
            m.spec_height() == n,
            m.spec_width() == n,
            m@.len() == n,
            forall|r: int| 0 <= r < n ==> (#[trigger] m@[r]).len() == n,
            forall|r: int, c: int| 0 <= r < n && 0 <= c < n ==> #[trigger] m@[r][c] == (r == c && r < i),
        decreases n - i,
    {
        m.set(i, i, true);
        i += 1;
    }
    m
}

/// `m` has a row for each vertex of level `l` and a column for each vertex
/// of level `sub`, and an entry is set exactly where a climb leads from the
/// column's vertex to the row's vertex.
pub open spec fn is_reach(
    levels: Seq<Seq<usize>>,
    steps: Seq<Seq<Seq<usize>>>,
    sub: int,
    l: int,
    m: Seq<Seq<bool>>,
) -> bool {
    &&& 0 <= sub <= l < levels.len()
    &&& l < steps.len()
    &&& m.len() == levels[l].len()
    &&& forall|r: int| 0 <= r < m.len() ==> (#[trigger] m[r]).len() == levels[sub].len()
    &&& forall|r: int, c: int|
        0 <= r < levels[l].len() && 0 <= c < levels[sub].len() ==> #[trigger] m[r][c] == connected(
            levels,
            steps,
            sub,
            levels[sub][c],
            l,
            levels[l][r],
        )
}

/// `m` marks the edges of `adj` from `prev` into `cur`, row by vertex of
/// `cur`, column by vertex of `prev`.
pub open spec fn is_step(adj: Seq<Seq<usize>>, prev: Seq<usize>, cur: Seq<usize>, m: Seq<Seq<bool>>) -> bool {
    &&& m.len() == cur.len()
    &&& forall|r: int| 0 <= r < m.len() ==> (#[trigger] m[r]).len() == prev.len()
    &&& forall|r: int, c: int|
        0 <= r < cur.len() && 0 <= c < prev.len() ==> #[trigger] m[r][c] == has_edge(adj, prev[c], cur[r])
}

/// The identity matrix on a level without repetitions is its reach matrix
/// to itself.
pub proof fn lemma_identity_is_reach(
    levels: Seq<Seq<usize>>,
    steps: Seq<Seq<Seq<usize>>>,
    l: int,
    m: Seq<Seq<bool>>,
)
    requires
        0 <= l < levels.len(),
        l < steps.len(),
        levels[l].no_duplicates(),
        m.len() == levels[l].len(),
        forall|r: int| 0 <= r < m.len() ==> (#[trigger] m[r]).len() == levels[l].len(),
        forall|r: int, c: int| 0 <= r < m.len() && 0 <= c < m.len() ==> #[trigger] m[r][c] == (r == c),
    ensures
        is_reach(levels, steps, l, l, m),
{
    assert forall|r: int, c: int| 0 <= r < levels[l].len() && 0 <= c < levels[l].len() implies #[trigger] m[r][c]
        == connected(levels, steps, l, levels[l][c], l, levels[l][r]) by {
        lemma_connected_same_level(levels, steps, l, levels[l][c], levels[l][r]);
    }
}

/// The matrix of the edges into level `l` is the reach matrix from the
/// level below.
pub proof fn lemma_step_is_reach(levels: Seq<Seq<usize>>, steps: Seq<Seq<Seq<usize>>>, l: int, m: Seq<Seq<bool>>)
    requires
        1 <= l < levels.len(),
        l < steps.len(),
        is_step(steps[l], levels[l - 1], levels[l], m),
    ensures
        is_reach(levels, steps, l - 1, l, m),
{
    assert forall|r: int, c: int| 0 <= r < levels[l].len() && 0 <= c < levels[l - 1].len() implies #[trigger] m[r][c]
        == connected(levels, steps, l - 1, levels[l - 1][c], l, levels[l][r]) by {
        let p = levels[l - 1][c];
        let q = levels[l][r];
        lemma_connected_same_level(levels, steps, l - 1, p, p);
        if has_edge(steps[l], p, q) {
            lemma_connected_extend(levels, steps, l - 1, p, l - 1, p, q);
        }
        if connected(levels, steps, l - 1, p, l, q) {
            let mid = lemma_connected_split(levels, steps, l - 1, p, l, q);
            lemma_connected_same_level(levels, steps, l - 1, p, mid);
        }
    }
}

/// The product of the edges into level `l` with the reach matrix of the
/// level below is the reach matrix of level `l`.
pub proof fn lemma_product_is_reach(
    levels: Seq<Seq<usize>>,
    steps: Seq<Seq<Seq<usize>>>,
    sub: int,
    l: int,
    step: Seq<Seq<bool>>,
    lower: Seq<Seq<bool>>,
    product: Seq<Seq<bool>>,
)
    requires
        1 <= l < levels.len(),
        l < steps.len(),
        sub <= l - 1,
        is_reach(levels, steps, sub, l - 1, lower),
        is_step(steps[l], levels[l - 1], levels[l], step),
        product.len() == levels[l].len(),
        forall|r: int| 0 <= r < product.len() ==> (#[trigger] product[r]).len() == levels[sub].len(),
        forall|r: int, c: int|
            0 <= r < levels[l].len() && 0 <= c < levels[sub].len() ==> #[trigger] product[r][c] == row_times(
                step[r],
                lower,
                c,
            ),
    ensures
        is_reach(levels, steps, sub, l, product),
{
    assert forall|r: int, c: int| 0 <= r < levels[l].len() && 0 <= c < levels[sub].len() implies #[trigger] product[r][c]
        == connected(levels, steps, sub, levels[sub][c], l, levels[l][r]) by {
        let p = levels[sub][c];
        let q = levels[l][r];
        let prev = levels[l - 1];
        if product[r][c] {
            assert(row_times_below(step[r], lower, c, step[r].len() as int));
            let a = choose|a: int| 0 <= a < step[r].len() && step[r][a] && #[trigger] lower[a][c];
            assert(step[r][a] == has_edge(steps[l], prev[a], q));
            assert(lower[a][c] == connected(levels, steps, sub, p, l - 1, prev[a]));
            lemma_connected_extend(levels, steps, sub, p, l - 1, prev[a], q);
        }
        if connected(levels, steps, sub, p, l, q) {
            let mid = lemma_connected_split(levels, steps, sub, p, l, q);
            let a = choose|a: int| 0 <= a < prev.len() && prev[a] == mid;
            assert(step[r][a] == has_edge(steps[l], prev[a], q));
            assert(lower[a][c] == connected(levels, steps, sub, p, l - 1, prev[a]));
            assert(0 <= a < step[r].len() && step[r][a] && lower[a][c]);
            assert(row_times_below(step[r], lower, c, step[r].len() as int));
        }
    }
}

/// A reach matrix stays one when the levels and adjacencies change only
/// outside the span it covers.
pub proof fn lemma_is_reach_frame(
    levels: Seq<Seq<usize>>,
    steps: Seq<Seq<Seq<usize>>>,
    levels2: Seq<Seq<usize>>,
    steps2: Seq<Seq<Seq<usize>>>,
    sub: int,
    l: int,
    m: Seq<Seq<bool>>,
)
    requires
        is_reach(levels, steps, sub, l, m),
        l < levels2.len(),
        l < steps2.len(),
        forall|x: int| sub <= x <= l ==> levels[x] == levels2[x],
        forall|x: int| sub < x <= l ==> steps[x] == steps2[x],
    ensures
        is_reach(levels2, steps2, sub, l, m),
{
    assert forall|r: int, c: int| 0 <= r < levels2[l].len() && 0 <= c < levels2[sub].len() implies #[trigger] m[r][c]
        == connected(levels2, steps2, sub, levels2[sub][c], l, levels2[l][r]) by {
        let p = levels[sub][c];
        let q = levels[l][r];
        if connected(levels, steps, sub, p, l, q) {
            lemma_connected_frame(levels, steps, levels2, steps2, sub, p, l, q);
        }
        if connected(levels2, steps2, sub, p, l, q) {
            lemma_connected_frame(levels2, steps2, levels, steps, sub, p, l, q);
        }
    }
}

/// Two ascending lists with the same entries are the same list.
pub proof fn lemma_ascending_unique(a: Seq<usize>, b: Seq<usize>)
    requires
        ascending(a),
        ascending(b),
        forall|x: usize| a.contains(x) <==> b.contains(x),
    ensures
        a == b,
    decreases a.len(),
{
    if a.len() == 0 {
        if b.len() > 0 {
            assert(b.contains(b[0]));
        }
        assert(a =~= b);
    } else {
        assert(a.contains(a.last()));
        let kb = choose|k: int| 0 <= k < b.len() && b[k] == a.last();
        assert(b.contains(b.last()));
        let ka = choose|k: int| 0 <= k < a.len() && a[k] == b.last();
        assert(a.last() == b.last());
        let a2 = a.drop_last();
        let b2 = b.drop_last();
        assert forall|x: usize| a2.contains(x) <==> b2.contains(x) by {
            if a2.contains(x) {
                let i = choose|i: int| 0 <= i < a2.len() && a2[i] == x;
                assert(a[i] == x);
                assert(a.contains(x));
                let j = choose|j: int| 0 <= j < b.len() && b[j] == x;
                assert(x < a.last());
                assert(b2[j] == x);
            }
            if b2.contains(x) {
                let i = choose|i: int| 0 <= i < b2.len() && b2[i] == x;
                assert(b[i] == x);
                assert(b.contains(x));
                let j = choose|j: int| 0 <= j < a.len() && a[j] == x;
                assert(x < b.last());
                assert(a2[j] == x);
            }
        }
        lemma_ascending_unique(a2, b2);
        assert(a =~= a2.push(a.last()));
        assert(b =~= b2.push(b.last()));
    }
}

} // verus!
