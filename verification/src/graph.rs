//! Adjacency lists, walks inside one graph, and climbs through a layered graph.

use vstd::prelude::*;

verus! {

/// The adjacency lists held by `adj`: entry `p` lists the targets of the
/// edges that leave vertex `p`.
pub open spec fn adj_view(adj: &Vec<Vec<usize>>) -> Seq<Seq<usize>> {
    Seq::new(adj@.len(), |p: int| adj@[p]@)
}

/// `adj` has one list for each of `n` vertices, and every target is below `n`.
pub open spec fn adjacency_ok(adj: Seq<Seq<usize>>, n: nat) -> bool {
    &&& adj.len() == n
    &&& forall|p: int, i: int| 0 <= p < adj.len() && 0 <= i < adj[p].len() ==> (#[trigger] adj[p][i]) < n
}

/// There is an edge from `p` to `q`.
pub open spec fn has_edge(adj: Seq<Seq<usize>>, p: usize, q: usize) -> bool {
    p < adj.len() && adj[p as int].contains(q)
}

/// `w` is a non-empty list of vertices, each joined to the next by an edge.
pub open spec fn is_walk(adj: Seq<Seq<usize>>, w: Seq<usize>) -> bool {
    &&& w.len() > 0
    &&& forall|i: int| 0 <= i < w.len() - 1 ==> has_edge(adj, #[trigger] w[i], w[i + 1])
}

/// Some walk leads from `p` to `q`; the walk of one vertex counts, so every
/// vertex reaches itself.
pub open spec fn reaches(adj: Seq<Seq<usize>>, p: usize, q: usize) -> bool {
    exists|w: Seq<usize>| is_walk(adj, w) && w[0] == p && w.last() == q
}

/// Some walk with at least one edge leads from `p` to `q`.
pub open spec fn reaches_strictly(adj: Seq<Seq<usize>>, p: usize, q: usize) -> bool {
    exists|w: Seq<usize>| is_walk(adj, w) && w.len() > 1 && w[0] == p && w.last() == q
}

/// `s` contains the target of every edge that leaves one of its members.
pub open spec fn closed_under(adj: Seq<Seq<usize>>, s: Set<usize>) -> bool {
    forall|p: usize, q: usize| s.contains(p) && has_edge(adj, p, q) ==> s.contains(q)
}

/// Every vertex reaches itself.
pub proof fn lemma_reaches_self(adj: Seq<Seq<usize>>, p: usize)
    ensures
        reaches(adj, p, p),
{
    let w = seq![p];
    assert(is_walk(adj, w) && w[0] == p && w.last() == p);
}

/// What reaches the source of an edge reaches its target.
pub proof fn lemma_reaches_edge(adj: Seq<Seq<usize>>, p: usize, q: usize, r: usize)
    requires
        reaches(adj, p, q),
        has_edge(adj, q, r),
    ensures
        reaches(adj, p, r),
        reaches_strictly(adj, p, r),
{
    let w = choose|w: Seq<usize>| is_walk(adj, w) && w[0] == p && w.last() == q;
    let w2 = w.push(r);
    assert forall|i: int| 0 <= i < w2.len() - 1 implies has_edge(adj, #[trigger] w2[i], w2[i + 1]) by {
        if i < w.len() - 1 {
            assert(has_edge(adj, w[i], w[i + 1]));
        }
    }
    assert(is_walk(adj, w2) && w2.len() > 1 && w2[0] == p && w2.last() == r);
}

/// A walk never leaves a set that is closed under the edges.
pub proof fn lemma_walk_stays(adj: Seq<Seq<usize>>, s: Set<usize>, w: Seq<usize>, i: int)
    requires
        closed_under(adj, s),
        is_walk(adj, w),
        s.contains(w[0]),
        0 <= i < w.len(),
    ensures
        s.contains(w[i]),
    decreases i,
{
    if i > 0 {
        lemma_walk_stays(adj, s, w, i - 1);
        assert(has_edge(adj, w[i - 1], w[i - 1 + 1]));
    }
}

/// A set that edges do not leave holds what its members reach.
pub proof fn lemma_closed_holds_reachable(adj: Seq<Seq<usize>>, s: Set<usize>, p: usize, q: usize)
    requires
        closed_under(adj, s),
        s.contains(p),
        reaches(adj, p, q),
    ensures
        s.contains(q),
{
    let w = choose|w: Seq<usize>| is_walk(adj, w) && w[0] == p && w.last() == q;
    lemma_walk_stays(adj, s, w, w.len() - 1);
}

/// `path` climbs one level per entry, starting in level `from`: entry `i` is a
/// vertex of level `from + i`, and an edge of `steps[from + i + 1]`, the
/// adjacency that leads into level `from + i + 1`, joins it to the next entry.
pub open spec fn is_climb(
    levels: Seq<Seq<usize>>,
    steps: Seq<Seq<Seq<usize>>>,
    from: int,
    path: Seq<usize>,
) -> bool {
    &&& path.len() > 0
    &&& 0 <= from
    &&& from + path.len() <= levels.len()
    &&& from + path.len() <= steps.len()
    &&& forall|i: int| 0 <= i < path.len() ==> levels[from + i].contains(#[trigger] path[i])
    &&& forall|i: int| 0 <= i < path.len() - 1 ==> has_edge(steps[from + i + 1], #[trigger] path[i], path[i + 1])
}

/// A climb leads from vertex `p` of level `from` to vertex `q` of level `to`.
pub open spec fn connected(
    levels: Seq<Seq<usize>>,
    steps: Seq<Seq<Seq<usize>>>,
    from: int,
    p: usize,
    to: int,
    q: usize,
) -> bool {
    exists|path: Seq<usize>|
        is_climb(levels, steps, from, path) && path.len() == to - from + 1 && path[0] == p && path.last() == q
}

/// Within one level, a vertex is connected to itself and to nothing else.
pub proof fn lemma_connected_same_level(
    levels: Seq<Seq<usize>>,
    steps: Seq<Seq<Seq<usize>>>,
    level: int,
    p: usize,
    q: usize,
)
    requires
        0 <= level < levels.len(),
        level < steps.len(),
    ensures
        connected(levels, steps, level, p, level, q) <==> (p == q && levels[level].contains(p)),
{
    if p == q && levels[level].contains(p) {
        let path = seq![p];
        assert(is_climb(levels, steps, level, path) && path.len() == level - level + 1 && path[0] == p
            && path.last() == q);
    }
    if connected(levels, steps, level, p, level, q) {
        let path = choose|path: Seq<usize>|
            is_climb(levels, steps, level, path) && path.len() == level - level + 1 && path[0] == p
                && path.last() == q;
        assert(levels[level + 0].contains(path[0]));
    }
}

/// A climb that ends in `r` goes on along an edge from `r` to a vertex of the
/// next level.
pub proof fn lemma_connected_extend(
    levels: Seq<Seq<usize>>,
    steps: Seq<Seq<Seq<usize>>>,
    from: int,
    p: usize,
    to: int,
    r: usize,
    q: usize,
)
    requires
        connected(levels, steps, from, p, to, r),
        to + 1 < levels.len(),
        to + 1 < steps.len(),
        has_edge(steps[to + 1], r, q),
        levels[to + 1].contains(q),
    ensures
        connected(levels, steps, from, p, to + 1, q),
{
    let path = choose|path: Seq<usize>|
        is_climb(levels, steps, from, path) && path.len() == to - from + 1 && path[0] == p && path.last() == r;
    let longer = path.push(q);
    assert forall|i: int| 0 <= i < longer.len() implies levels[from + i].contains(#[trigger] longer[i]) by {
        if i < path.len() {
            assert(levels[from + i].contains(path[i]));
        }
    }
    assert forall|i: int| 0 <= i < longer.len() - 1 implies has_edge(
        steps[from + i + 1],
        #[trigger] longer[i],
        longer[i + 1],
    ) by {
        if i < path.len() - 1 {
            assert(has_edge(steps[from + i + 1], path[i], path[i + 1]));
        }
    }
    assert(is_climb(levels, steps, from, longer) && longer.len() == to + 1 - from + 1 && longer[0] == p
        && longer.last() == q);
}

/// A climb over at least one edge passes through a vertex of the level below
/// its end, which has an edge to the end.
pub proof fn lemma_connected_split(
    levels: Seq<Seq<usize>>,
    steps: Seq<Seq<Seq<usize>>>,
    from: int,
    p: usize,
    to: int,
    q: usize,
) -> (r: usize)
    requires
        connected(levels, steps, from, p, to, q),
        from < to,
    ensures
        connected(levels, steps, from, p, to - 1, r),
        levels[to - 1].contains(r),
        has_edge(steps[to], r, q),
        levels[to].contains(q),
{
    let path = choose|path: Seq<usize>|
        is_climb(levels, steps, from, path) && path.len() == to - from + 1 && path[0] == p && path.last() == q;
    let shorter = path.drop_last();
    let r = shorter.last();
    assert forall|i: int| 0 <= i < shorter.len() implies levels[from + i].contains(#[trigger] shorter[i]) by {
        assert(levels[from + i].contains(path[i]));
    }
    assert forall|i: int| 0 <= i < shorter.len() - 1 implies has_edge(
        steps[from + i + 1],
        #[trigger] shorter[i],
        shorter[i + 1],
    ) by {
        assert(has_edge(steps[from + i + 1], path[i], path[i + 1]));
    }
    assert(is_climb(levels, steps, from, shorter) && shorter.len() == to - 1 - from + 1 && shorter[0] == p
        && shorter.last() == r);
    let last = to - from - 1;
    assert(has_edge(steps[from + last + 1], path[last], path[last + 1]));
    assert(levels[from + last].contains(path[last]));
    assert(levels[from + (last + 1)].contains(path[last + 1]));
    r
}

/// Whether two vertices are connected depends only on the levels and the
/// adjacencies between the two.
pub proof fn lemma_connected_frame(
    levels: Seq<Seq<usize>>,
    steps: Seq<Seq<Seq<usize>>>,
    levels2: Seq<Seq<usize>>,
    steps2: Seq<Seq<Seq<usize>>>,
    from: int,
    p: usize,
    to: int,
    q: usize,
)
    requires
        0 <= from <= to,
        to < levels.len(),
        to < steps.len(),
        to < levels2.len(),
        to < steps2.len(),
        forall|l: int| from <= l <= to ==> levels[l] == levels2[l],
        forall|l: int| from < l <= to ==> steps[l] == steps2[l],
        connected(levels, steps, from, p, to, q),
    ensures
        connected(levels2, steps2, from, p, to, q),
{
    let path = choose|path: Seq<usize>|
        is_climb(levels, steps, from, path) && path.len() == to - from + 1 && path[0] == p && path.last() == q;
    assert forall|i: int| 0 <= i < path.len() implies levels2[from + i].contains(#[trigger] path[i]) by {
        assert(levels[from + i].contains(path[i]));
    }
    assert forall|i: int| 0 <= i < path.len() - 1 implies has_edge(
        steps2[from + i + 1],
        #[trigger] path[i],
        path[i + 1],
    ) by {
        assert(has_edge(steps[from + i + 1], path[i], path[i + 1]));
    }
    assert(is_climb(levels2, steps2, from, path));
}

/// A list of distinct numbers below `n` has at most `n` entries.
pub proof fn lemma_distinct_bounded(s: Seq<usize>, n: nat)
    requires
        s.no_duplicates(),
        forall|i: int| 0 <= i < s.len() ==> (#[trigger] s[i]) < n,
    ensures
        s.len() <= n,
    decreases n,
{
    if s.len() > 0 {
        assert(s[0] < n);
        let top = (n - 1) as usize;
        if s.contains(top) {
            let k = choose|k: int| 0 <= k < s.len() && s[k] == top;
            let rest = s.remove(k);
            assert forall|i: int| 0 <= i < rest.len() implies (#[trigger] rest[i]) < (n - 1) as nat by {
                if i < k {
                    assert(rest[i] == s[i]);
                } else {
                    assert(rest[i] == s[i + 1]);
                }
            }
            assert forall|i: int, j: int| 0 <= i < rest.len() && 0 <= j < rest.len() && i != j implies rest[i]
                != rest[j] by {
                let i2 = if i < k { i } else { i + 1 };
                let j2 = if j < k { j } else { j + 1 };
                assert(rest[i] == s[i2] && rest[j] == s[j2]);
            }
            lemma_distinct_bounded(rest, (n - 1) as nat);
        } else {
            assert forall|i: int| 0 <= i < s.len() implies (#[trigger] s[i]) < (n - 1) as nat by {
                assert(s.contains(s[i]));
            }
            lemma_distinct_bounded(s, (n - 1) as nat);
        }
    }
}

/// A walk is either a single vertex or has at least one edge.
pub proof fn lemma_reaches_cases(adj: Seq<Seq<usize>>, p: usize, q: usize)
    ensures
        reaches(adj, p, q) <==> p == q || reaches_strictly(adj, p, q),
{
    if p == q {
        lemma_reaches_self(adj, p);
    }
    if reaches_strictly(adj, p, q) {
        let w = choose|w: Seq<usize>| is_walk(adj, w) && w.len() > 1 && w[0] == p && w.last() == q;
        assert(is_walk(adj, w) && w[0] == p && w.last() == q);
    }
    if reaches(adj, p, q) && p != q {
        let w = choose|w: Seq<usize>| is_walk(adj, w) && w[0] == p && w.last() == q;
        assert(is_walk(adj, w) && w.len() > 1 && w[0] == p && w.last() == q);
    }
}

/// An edge followed by a walk is a walk with at least one edge.
pub proof fn lemma_edge_then_reaches(adj: Seq<Seq<usize>>, p: usize, t: usize, q: usize)
    requires
        has_edge(adj, p, t),
        reaches(adj, t, q),
    ensures
        reaches_strictly(adj, p, q),
{
    let w = choose|w: Seq<usize>| is_walk(adj, w) && w[0] == t && w.last() == q;
    let w2 = seq![p] + w;
    assert forall|i: int| 0 <= i < w2.len() - 1 implies has_edge(adj, #[trigger] w2[i], w2[i + 1]) by {
        if i > 0 {
            assert(w2[i] == w[i - 1]);
            assert(w2[i + 1] == w[i - 1 + 1]);
            assert(has_edge(adj, w[i - 1], w[i - 1 + 1]));
        } else {
            assert(w2[1] == w[0]);
        }
    }
    assert(w2.last() == w.last());
    assert(is_walk(adj, w2) && w2.len() > 1 && w2[0] == p && w2.last() == q);
}

/// A walk with at least one edge begins with an edge to a vertex that
/// reaches its end.
pub proof fn lemma_reaches_strictly_first(adj: Seq<Seq<usize>>, p: usize, q: usize) -> (t: usize)
    requires
        reaches_strictly(adj, p, q),
    ensures
        has_edge(adj, p, t),
        reaches(adj, t, q),
{
    let w = choose|w: Seq<usize>| is_walk(adj, w) && w.len() > 1 && w[0] == p && w.last() == q;
    let v = w.drop_first();
    assert forall|i: int| 0 <= i < v.len() - 1 implies has_edge(adj, #[trigger] v[i], v[i + 1]) by {
        assert(v[i] == w[i + 1]);
        assert(v[i + 1] == w[i + 1 + 1]);
        assert(has_edge(adj, w[i + 1], w[i + 1 + 1]));
    }
    assert(has_edge(adj, w[0int], w[0int + 1]));
    assert(v[0] == w[1]);
    assert(v.last() == w.last());
    assert(is_walk(adj, v) && v[0] == w[1] && v.last() == q);
    w[1]
}

/// What one more edge does to an adjacency.
pub proof fn lemma_adj_push(before: Seq<Seq<usize>>, after: Seq<Seq<usize>>, p: usize, q: usize)
    requires
        p < before.len(),
        after == before.update(p as int, before[p as int].push(q)),
    ensures
        forall|a: usize, b: usize| #[trigger] has_edge(after, a, b) <==> has_edge(before, a, b) || (a == p && b == q),
{
    assert(after[p as int][before[p as int].len() as int] == q);
    assert forall|a: usize, b: usize| #[trigger] has_edge(after, a, b) <==> has_edge(before, a, b) || (a == p && b
        == q) by {
        if has_edge(before, a, b) {
            let k = choose|k: int| 0 <= k < before[a as int].len() && before[a as int][k] == b;
            if a == p {
                assert(after[a as int][k] == b);
            } else {
                assert(after[a as int] == before[a as int]);
            }
        }
        if has_edge(after, a, b) {
            let k = choose|k: int| 0 <= k < after[a as int].len() && after[a as int][k] == b;
            if a == p {
                if k < before[a as int].len() {
                    assert(before[a as int][k] == b);
                }
            } else {
                assert(after[a as int] == before[a as int]);
            }
        }
    }
}

/// One more edge between vertices below `n` keeps an adjacency in range.
pub proof fn lemma_adj_push_ok(before: Seq<Seq<usize>>, after: Seq<Seq<usize>>, p: usize, q: usize, n: nat)
    requires
        adjacency_ok(before, n),
        p < n,
        q < n,
        after == before.update(p as int, before[p as int].push(q)),
    ensures
        adjacency_ok(after, n),
{
    assert forall|x: int, i: int| 0 <= x < after.len() && 0 <= i < after[x].len() implies (#[trigger] after[x][i])
        < n by {
        if x == p && i == before[x].len() {
        } else {
            assert(after[x][i] == before[x][i]);
        }
    }
}

/// `n` empty lists.
pub fn empty_lists<T>(n: usize) -> (lists: Vec<Vec<T>>)
    ensures
        lists@.len() == n,
        forall|p: int| 0 <= p < n ==> (#[trigger] lists@[p])@.len() == 0,
{
    let mut lists: Vec<Vec<T>> = Vec::new();
    let mut p: usize = 0;
    while p < n
        invariant
            p <= n,
            lists@.len() == p,
            forall|k: int| 0 <= k < p ==> (#[trigger] lists@[k])@.len() == 0,
        decreases n - p,
    {
        lists.push(Vec::new());
        p += 1;
    }
    lists
}

/// A copy of the lists of `adj`.
pub fn copy_lists(adj: &Vec<Vec<usize>>) -> (copy: Vec<Vec<usize>>)
    ensures
        adj_view(&copy) == adj_view(adj),
{
    let mut copy: Vec<Vec<usize>> = Vec::new();
    let mut p: usize = 0;
    while p < adj.len()
        invariant
            p <= adj@.len(),
            copy@.len() == p,
            forall|k: int| 0 <= k < p ==> (#[trigger] copy@[k])@ == adj@[k]@,
        decreases adj@.len() - p,
    {
        let mut list: Vec<usize> = Vec::new();
        let mut i: usize = 0;
        while i < adj[p].len()
            invariant
                p < adj@.len(),
                i <= adj@[p as int]@.len(),
                list@ == adj@[p as int]@.take(i as int),
            decreases adj@[p as int]@.len() - i,
        {
            list.push(adj[p][i]);
            proof {
                assert(adj@[p as int]@.take(i + 1) =~= adj@[p as int]@.take(i as int).push(adj@[p as int]@[i as int]));
            }
            i += 1;
        }
        proof {
            assert(adj@[p as int]@.take(adj@[p as int]@.len() as int) =~= adj@[p as int]@);
        }
        copy.push(list);
        p += 1;
    }
    proof {
        assert(adj_view(&copy) =~= adj_view(adj));
    }
    copy
}

/// The adjacency with every edge turned round.
pub fn transpose(adj: &Vec<Vec<usize>>) -> (rev: Vec<Vec<usize>>)
    requires
        adjacency_ok(adj_view(adj), adj@.len()),
    ensures
        adjacency_ok(adj_view(&rev), adj@.len()),
        forall|p: usize, q: usize| #[trigger] has_edge(adj_view(&rev), q, p) <==> has_edge(adj_view(adj), p, q),
{
    let ghost adjv = adj_view(adj);
    let n = adj.len();
    let mut rev: Vec<Vec<usize>> = empty_lists(n);
    let mut p: usize = 0;
    while p < n
        invariant
            p <= n,
            n == adj@.len(),
            adjv == adj_view(adj),
            adjacency_ok(adjv, n as nat),
            adjacency_ok(adj_view(&rev), n as nat),
            forall|a: usize, b: usize| #[trigger] has_edge(adj_view(&rev), b, a) ==> a < p && has_edge(adjv, a, b),
            forall|a: usize, b: usize| a < p && #[trigger] has_edge(adjv, a, b) ==> has_edge(adj_view(&rev), b, a),
        decreases n - p,
    {
        let m = adj[p].len();
        let mut j: usize = 0;
        while j < m
            invariant
                j <= m,
                p < n,
                n == adj@.len(),
                m == adj@[p as int]@.len(),
                adjv == adj_view(adj),
                adjacency_ok(adjv, n as nat),
                adjacency_ok(adj_view(&rev), n as nat),
                forall|a: usize, b: usize| #[trigger]
                    has_edge(adj_view(&rev), b, a) ==> a <= p && has_edge(adjv, a, b),
                forall|a: usize, b: usize| a < p && #[trigger] has_edge(adjv, a, b) ==> has_edge(adj_view(&rev), b, a),
                forall|k: int| 0 <= k < j ==> has_edge(adj_view(&rev), #[trigger] adjv[p as int][k], p),
            decreases m - j,
        {
            let q = adj[p][j];
            assert(q == adjv[p as int][j as int]);
            assert(has_edge(adjv, p, q));
            let ghost before = adj_view(&rev);
            rev[q].push(p);
            proof {
                let after = adj_view(&rev);
                assert(after[q as int] == before[q as int].push(p));
                assert(after[q as int][before[q as int].len() as int] == p);
                assert forall|b: usize, a: usize| has_edge(before, b, a) implies has_edge(after, b, a) by {
                    let k = choose|k: int| 0 <= k < before[b as int].len() && before[b as int][k] == a;
                    if b == q {
                        assert(after[b as int][k] == a);
                    } else {
                        assert(after[b as int] == before[b as int]);
                    }
                }
                assert forall|b: usize, a: usize| has_edge(after, b, a) implies has_edge(before, b, a) || (b == q
                    && a == p) by {
                    let k = choose|k: int| 0 <= k < after[b as int].len() && after[b as int][k] == a;
                    if b == q {
                        if k < before[b as int].len() {
                            assert(before[b as int][k] == a);
                        }
                    } else {
                        assert(after[b as int] == before[b as int]);
                    }
                }
                assert forall|x: int, i: int| 0 <= x < after.len() && 0 <= i < after[x].len() implies (#[trigger] after[x][i])
                    < n by {
                    if x == q && i == before[x].len() {
                    } else {
                        assert(after[x][i] == before[x][i]);
                    }
                }
            }
            j += 1;
        }
        proof {
            assert forall|a: usize, b: usize| a < p + 1 && #[trigger] has_edge(adjv, a, b) implies has_edge(
                adj_view(&rev),
                b,
                a,
            ) by {
                if a == p {
                    let k = choose|k: int| 0 <= k < adjv[p as int].len() && adjv[p as int][k] == b;
                    assert(has_edge(adj_view(&rev), adjv[p as int][k], p));
                }
            }
        }
        p += 1;
    }
    rev
}

} // verus!
