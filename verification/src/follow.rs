//! The states from which a set of states is reached by marker edges that
//! pass given markers and avoid others.

use crate::automaton::labelled_view;
use crate::bits::{members, set_contains, set_insert, set_new, set_to_vec};
use crate::walks::{avoids, count_in, follows, follows_exactly, is_back_walk, lemma_avoids_drop_last, lemma_empty_walk, lemma_follows_exactly, lemma_follows_fewer, lemma_follows_step, no_repeat, walk_end};
use bit_set::BitSet;
use vstd::prelude::*;

verus! {

/// Every state that `rev` lists is one of its states.
pub open spec fn back_ok(rev: Seq<Seq<(usize, usize)>>) -> bool {
    forall|q: int, i: int| 0 <= q < rev.len() && 0 <= i < rev[q].len() ==> (#[trigger] rev[q][i]).1 < rev.len()
}

/// One more than the count recorded for a state, and zero where none is.
pub open spec fn score(o: Option<usize>) -> int {
    match o {
        None => 0,
        Some(k) => k + 1,
    }
}

/// How far the records are from their greatest values.
pub open spec fn potential(best: Seq<Option<usize>>, need: int) -> int
    decreases best.len(),
{
    if best.len() == 0 {
        0
    } else {
        potential(best.drop_last(), need) + (need + 1 - score(best.last()))
    }
}

proof fn lemma_potential_update(best: Seq<Option<usize>>, need: int, i: int, o: Option<usize>)
    requires
        0 <= i < best.len(),
        score(o) > score(best[i]),
    ensures
        potential(best.update(i, o), need) < potential(best, need),
    decreases best.len(),
{
    let after = best.update(i, o);
    if i == best.len() - 1 {
        assert(after.drop_last() =~= best.drop_last());
    } else {
        assert(after.drop_last() =~= best.drop_last().update(i, o));
        lemma_potential_update(best.drop_last(), need, i, o);
    }
}

proof fn lemma_potential_bound(best: Seq<Option<usize>>, need: int)
    requires
        forall|i: int| 0 <= i < best.len() ==> score(#[trigger] best[i]) <= need + 1,
    ensures
        potential(best, need) >= 0,
    decreases best.len(),
{
    if best.len() > 0 {
        assert forall|i: int| 0 <= i < best.drop_last().len() implies score(#[trigger] best.drop_last()[i]) <= need
            + 1 by {
            assert(best.drop_last()[i] == best[i]);
        }
        lemma_potential_bound(best.drop_last(), need);
        assert(score(best[best.len() - 1]) <= need + 1);
    }
}

/// The count after a step that passes `label`, from the count `k` before
/// it: one more for a marker of `sp`, but never more than `need`.
pub open spec fn bump(k: int, label: usize, sp: Set<usize>, need: int) -> int {
    if sp.contains(label) && k < need {
        k + 1
    } else {
        k
    }
}

/// State `t` is recorded with a count of `k` at least.
spec fn reached(best: Seq<Option<usize>>, t: usize, k: int) -> bool {
    t < best.len() && score(best[t as int]) > k
}

/// State `t` waits in the queue with a count of `k` at least.
spec fn queued(queue: Seq<(usize, usize)>, t: usize, k: int) -> bool {
    exists|j: int| 0 <= j < queue.len() && (#[trigger] queue[j]).0 == t && queue[j].1 >= k
}

spec fn covered(best: Seq<Option<usize>>, queue: Seq<(usize, usize)>, t: usize, k: int) -> bool {
    reached(best, t, k) || queued(queue, t, k)
}

/// The `i`-th step from state `u` needs no more work.
spec fn edge_done(
    rev: Seq<Seq<(usize, usize)>>,
    best: Seq<Option<usize>>,
    queue: Seq<(usize, usize)>,
    sp: Set<usize>,
    sm: Set<usize>,
    need: int,
    u: int,
    i: int,
) -> bool {
    sm.contains(rev[u][i].0) || covered(best, queue, rev[u][i].1, bump(score(best[u]) - 1, rev[u][i].0, sp, need))
}

spec fn relaxed(
    rev: Seq<Seq<(usize, usize)>>,
    best: Seq<Option<usize>>,
    queue: Seq<(usize, usize)>,
    sp: Set<usize>,
    sm: Set<usize>,
    need: int,
    u: int,
    upto: int,
) -> bool {
    forall|i: int| 0 <= i < upto ==> #[trigger] edge_done(rev, best, queue, sp, sm, need, u, i)
}

/// Nothing that the first records and queue cover is lost in the second.
#[verifier::opaque]
spec fn carries(
    best: Seq<Option<usize>>,
    queue: Seq<(usize, usize)>,
    best2: Seq<Option<usize>>,
    queue2: Seq<(usize, usize)>,
) -> bool {
    &&& best2.len() == best.len()
    &&& forall|v: int| 0 <= v < best.len() ==> score(#[trigger] best2[v]) >= score(best[v])
    &&& forall|j: int|
        0 <= j < queue.len() ==> (j < queue2.len() && queue2[j] == queue[j]) || reached(
            best2,
            (#[trigger] queue[j]).0,
            queue[j].1 as int,
        )
}

proof fn lemma_covered_carries(
    best: Seq<Option<usize>>,
    queue: Seq<(usize, usize)>,
    best2: Seq<Option<usize>>,
    queue2: Seq<(usize, usize)>,
    t: usize,
    k: int,
)
    requires
        carries(best, queue, best2, queue2),
        covered(best, queue, t, k),
    ensures
        covered(best2, queue2, t, k),
{
    reveal(carries);
    if reached(best, t, k) {
        assert(score(best2[t as int]) >= score(best[t as int]));
    } else {
        let j = choose|j: int| 0 <= j < queue.len() && (#[trigger] queue[j]).0 == t && queue[j].1 >= k;
        if j < queue2.len() && queue2[j] == queue[j] {
            assert(queue2[j].0 == t && queue2[j].1 >= k);
        } else {
            assert(reached(best2, queue[j].0, queue[j].1 as int));
        }
    }
}

proof fn lemma_relaxed_carries(
    rev: Seq<Seq<(usize, usize)>>,
    best: Seq<Option<usize>>,
    queue: Seq<(usize, usize)>,
    best2: Seq<Option<usize>>,
    queue2: Seq<(usize, usize)>,
    sp: Set<usize>,
    sm: Set<usize>,
    need: int,
    u: int,
    upto: int,
)
    requires
        carries(best, queue, best2, queue2),
        0 <= u < best.len(),
        best2[u] == best[u],
        relaxed(rev, best, queue, sp, sm, need, u, upto),
    ensures
        relaxed(rev, best2, queue2, sp, sm, need, u, upto),
{
    assert(best2.len() == best.len()) by {
        reveal(carries);
    }
    assert forall|i: int| 0 <= i < upto implies #[trigger] edge_done(rev, best2, queue2, sp, sm, need, u, i) by {
        assert(edge_done(rev, best, queue, sp, sm, need, u, i));
        if !sm.contains(rev[u][i].0) {
            lemma_covered_carries(
                best,
                queue,
                best2,
                queue2,
                rev[u][i].1,
                bump(score(best[u]) - 1, rev[u][i].0, sp, need),
            );
        }
    }
}

/// Where every step from every recorded state is accounted for in the
/// records, the end of every walk is recorded with the markers that the
/// walk passes, up to `need`.
proof fn lemma_closed_covers(
    rev: Seq<Seq<(usize, usize)>>,
    best: Seq<Option<usize>>,
    gamma: Set<usize>,
    sp: Set<usize>,
    sm: Set<usize>,
    need: int,
    g: usize,
    walk: Seq<(usize, usize)>,
)
    requires
        best.len() == rev.len(),
        0 <= need,
        forall|x: usize| gamma.contains(x) ==> reached(best, x, 0),
        forall|u: int|
            0 <= u < best.len() && (#[trigger] best[u]) is Some ==> relaxed(
                rev,
                best,
                Seq::empty(),
                sp,
                sm,
                need,
                u,
                rev[u].len() as int,
            ),
        gamma.contains(g),
        is_back_walk(rev, g, walk),
        avoids(walk, sm),
    ensures
        reached(best, walk_end(g, walk), if count_in(walk, sp) < need {
            count_in(walk, sp) as int
        } else {
            need
        }),
    decreases walk.len(),
{
    if walk.len() == 0 {
        assert(reached(best, g, 0));
    } else {
        let shorter = walk.drop_last();
        lemma_avoids_drop_last(walk, sm);
        lemma_closed_covers(rev, best, gamma, sp, sm, need, g, shorter);
        let u = walk_end(g, shorter);
        let step = walk.last();
        let i = choose|i: int| 0 <= i < rev[u as int].len() && rev[u as int][i] == step;
        assert(best[u as int] is Some);
        assert(relaxed(rev, best, Seq::empty(), sp, sm, need, u as int, rev[u as int].len() as int));
        assert(edge_done(rev, best, Seq::empty(), sp, sm, need, u as int, i));
        assert(!queued(Seq::empty(), step.1, bump(score(best[u as int]) - 1, step.0, sp, need)));
    }
}

/// Every record and every queue entry is vouched for by a walk.
#[verifier::opaque]
spec fn sound(
    rv: Seq<Seq<(usize, usize)>>,
    g: Set<usize>,
    sp: Set<usize>,
    sm: Set<usize>,
    need: int,
    best: Seq<Option<usize>>,
    queue: Seq<(usize, usize)>,
) -> bool {
    &&& best.len() == rv.len()
    &&& forall|j: int|
        0 <= j < queue.len() ==> (#[trigger] queue[j]).0 < rv.len() && queue[j].1 <= need && follows(
            rv,
            g,
            sp,
            sm,
            queue[j].1 as nat,
            queue[j].0,
        )
    &&& forall|v: int|
        0 <= v < best.len() && (#[trigger] best[v]) is Some ==> best[v]->0 <= need && follows(
            rv,
            g,
            sp,
            sm,
            best[v]->0 as nat,
            v as usize,
        )
}

/// Every start and every step from a recorded state is recorded or waits.
#[verifier::opaque]
spec fn complete(
    rv: Seq<Seq<(usize, usize)>>,
    g: Set<usize>,
    sp: Set<usize>,
    sm: Set<usize>,
    need: int,
    best: Seq<Option<usize>>,
    queue: Seq<(usize, usize)>,
) -> bool {
    &&& forall|x: usize| g.contains(x) ==> covered(best, queue, x, 0)
    &&& forall|u: int|
        0 <= u < best.len() && (#[trigger] best[u]) is Some ==> relaxed(rv, best, queue, sp, sm, need, u, rv[u].len() as int)
}

proof fn lemma_complete_carries(
    rv: Seq<Seq<(usize, usize)>>,
    g: Set<usize>,
    sp: Set<usize>,
    sm: Set<usize>,
    need: int,
    best: Seq<Option<usize>>,
    queue: Seq<(usize, usize)>,
    best2: Seq<Option<usize>>,
    queue2: Seq<(usize, usize)>,
    changed: int,
)
    requires
        complete(rv, g, sp, sm, need, best, queue),
        carries(best, queue, best2, queue2),
        forall|u: int| 0 <= u < best.len() && u != changed ==> best2[u] == best[u],
        0 <= changed < best.len() ==> relaxed(rv, best2, queue2, sp, sm, need, changed, rv[changed].len() as int),
    ensures
        complete(rv, g, sp, sm, need, best2, queue2),
{
    reveal(complete);
    assert(best2.len() == best.len()) by {
        reveal(carries);
    }
    assert forall|x: usize| g.contains(x) implies covered(best2, queue2, x, 0) by {
        lemma_covered_carries(best, queue, best2, queue2, x, 0);
    }
    assert forall|u: int| 0 <= u < best2.len() && (#[trigger] best2[u]) is Some implies relaxed(
        rv,
        best2,
        queue2,
        sp,
        sm,
        need,
        u,
        rv[u].len() as int,
    ) by {
        if u != changed {
            assert(best[u] == best2[u]);
            lemma_relaxed_carries(rv, best, queue, best2, queue2, sp, sm, need, u, rv[u].len() as int);
        }
    }
}

/// The entry that leaves the queue names a state and a count within bounds.
proof fn lemma_popped(
    rv: Seq<Seq<(usize, usize)>>,
    g: Set<usize>,
    sp: Set<usize>,
    sm: Set<usize>,
    need: int,
    best: Seq<Option<usize>>,
    queue: Seq<(usize, usize)>,
)
    requires
        sound(rv, g, sp, sm, need, best, queue),
        queue.len() > 0,
    ensures
        queue.last().0 < rv.len(),
        queue.last().1 <= need,
        best.len() == rv.len(),
{
    reveal(sound);
    assert(queue[queue.len() - 1].0 < rv.len());
}

/// An entry whose state is already recorded with as many markers is dropped.
proof fn lemma_pop_stale(
    rv: Seq<Seq<(usize, usize)>>,
    g: Set<usize>,
    sp: Set<usize>,
    sm: Set<usize>,
    need: int,
    best: Seq<Option<usize>>,
    queue: Seq<(usize, usize)>,
)
    requires
        sound(rv, g, sp, sm, need, best, queue),
        complete(rv, g, sp, sm, need, best, queue),
        queue.len() > 0,
        queue.last().0 < best.len(),
        score(best[queue.last().0 as int]) > queue.last().1,
    ensures
        sound(rv, g, sp, sm, need, best, queue.drop_last()),
        complete(rv, g, sp, sm, need, best, queue.drop_last()),
{
    let rest = queue.drop_last();
    assert(sound(rv, g, sp, sm, need, best, rest)) by {
        reveal(sound);
        assert forall|j: int| 0 <= j < rest.len() implies (#[trigger] rest[j]).0 < rv.len() && rest[j].1 <= need
            && follows(rv, g, sp, sm, rest[j].1 as nat, rest[j].0) by {
            assert(rest[j] == queue[j]);
        }
    }
    assert(carries(best, queue, best, rest)) by {
        reveal(carries);
        assert forall|j: int| 0 <= j < queue.len() implies (j < rest.len() && rest[j] == queue[j]) || reached(
            best,
            (#[trigger] queue[j]).0,
            queue[j].1 as int,
        ) by {
            if j < rest.len() {
                assert(rest[j] == queue[j]);
            }
        }
    }
    lemma_complete_carries(rv, g, sp, sm, need, best, queue, best, rest, -1);
}

/// An entry that brings more markers than are recorded is recorded.
proof fn lemma_pop_record(
    rv: Seq<Seq<(usize, usize)>>,
    g: Set<usize>,
    sp: Set<usize>,
    sm: Set<usize>,
    need: int,
    best: Seq<Option<usize>>,
    queue: Seq<(usize, usize)>,
)
    requires
        sound(rv, g, sp, sm, need, best, queue),
        queue.len() > 0,
        queue.last().0 < best.len(),
        score(best[queue.last().0 as int]) <= queue.last().1,
        potential(best, need) >= 0,
    ensures
        sound(rv, g, sp, sm, need, best.update(queue.last().0 as int, Some(queue.last().1)), queue.drop_last()),
        carries(best, queue, best.update(queue.last().0 as int, Some(queue.last().1)), queue.drop_last()),
        potential(best.update(queue.last().0 as int, Some(queue.last().1)), need) < potential(best, need),
        potential(best.update(queue.last().0 as int, Some(queue.last().1)), need) >= 0,
{
    reveal(sound);
    reveal(carries);
    let rest = queue.drop_last();
    let source = queue.last().0;
    let k = queue.last().1;
    let best2 = best.update(source as int, Some(k));
    assert(queue[queue.len() - 1] == (source, k));
    lemma_potential_update(best, need, source as int, Some(k));
    assert forall|i: int| 0 <= i < best2.len() implies score(#[trigger] best2[i]) <= need + 1 by {
        if i != source {
            assert(best2[i] == best[i]);
        }
    }
    lemma_potential_bound(best2, need);
    assert forall|j: int| 0 <= j < rest.len() implies (#[trigger] rest[j]).0 < rv.len() && rest[j].1 <= need
        && follows(rv, g, sp, sm, rest[j].1 as nat, rest[j].0) by {
        assert(rest[j] == queue[j]);
    }
    assert forall|v: int| 0 <= v < best2.len() && (#[trigger] best2[v]) is Some implies best2[v]->0 <= need
        && follows(rv, g, sp, sm, best2[v]->0 as nat, v as usize) by {
        if v != source {
            assert(best2[v] == best[v]);
        }
    }
    assert forall|j: int| 0 <= j < queue.len() implies (j < rest.len() && rest[j] == queue[j]) || reached(
        best2,
        (#[trigger] queue[j]).0,
        queue[j].1 as int,
    ) by {
        if j < rest.len() {
            assert(rest[j] == queue[j]);
        }
    }
    assert forall|v: int| 0 <= v < best.len() implies score(#[trigger] best2[v]) >= score(best[v]) by {}
}

proof fn lemma_carries_twice(
    best: Seq<Option<usize>>,
    queue: Seq<(usize, usize)>,
    best2: Seq<Option<usize>>,
    queue2: Seq<(usize, usize)>,
    queue3: Seq<(usize, usize)>,
)
    requires
        carries(best, queue, best2, queue2),
        carries(best2, queue2, best2, queue3),
    ensures
        carries(best, queue, best2, queue3),
{
    reveal(carries);
    assert forall|j: int| 0 <= j < queue.len() implies (j < queue3.len() && queue3[j] == queue[j]) || reached(
        best2,
        (#[trigger] queue[j]).0,
        queue[j].1 as int,
    ) by {
        if j < queue2.len() && queue2[j] == queue[j] {
            assert((j < queue3.len() && queue3[j] == queue2[j]) || reached(best2, queue2[j].0, queue2[j].1 as int));
        }
    }
}

/// Puts in the queue what the steps from `source`, just recorded with the
/// count `k`, lead to.
fn relax_from(
    rev: &Vec<Vec<(usize, usize)>>,
    best: &Vec<Option<usize>>,
    queue: &mut Vec<(usize, usize)>,
    source: usize,
    k: usize,
    gamma: &BitSet<u32>,
    s_p: &BitSet<u32>,
    s_m: &BitSet<u32>,
    need: usize,
)
    requires
        back_ok(labelled_view(rev)),
        source < rev@.len(),
        best@[source as int] == Some(k),
        sound(
            labelled_view(rev),
            members(*gamma),
            members(*s_p),
            members(*s_m),
            need as int,
            best@,
            old(queue)@,
        ),
    ensures
        sound(
            labelled_view(rev),
            members(*gamma),
            members(*s_p),
            members(*s_m),
            need as int,
            best@,
            final(queue)@,
        ),
        carries(best@, old(queue)@, best@, final(queue)@),
        relaxed(
            labelled_view(rev),
            best@,
            final(queue)@,
            members(*s_p),
            members(*s_m),
            need as int,
            source as int,
            labelled_view(rev)[source as int].len() as int,
        ),
{
    let ghost rv = labelled_view(rev);
    let ghost g = members(*gamma);
    let ghost sp = members(*s_p);
    let ghost sm = members(*s_m);
    let m = rev[source].len();
    let mut i: usize = 0;
    proof {
        reveal(sound);
        reveal(carries);
    }
    while i < m
        invariant
            i <= m,
            source < rev@.len(),
            m == rv[source as int].len(),
            rv == labelled_view(rev),
            g == members(*gamma),
            sp == members(*s_p),
            sm == members(*s_m),
            back_ok(rv),
            best@[source as int] == Some(k),
            sound(rv, g, sp, sm, need as int, best@, queue@),
            carries(best@, old(queue)@, best@, queue@),
            relaxed(rv, best@, queue@, sp, sm, need as int, source as int, i as int),
        decreases m - i,
    {
        proof {
            reveal(sound);
            reveal(carries);
        }
        let (label, target) = rev[source][i];
        assert(rv[source as int][i as int] == (label, target));
        assert(rv[source as int].contains((label, target)));
        let ghost queue_i = queue@;
        if !set_contains(s_m, label) {
            let k2 = if set_contains(s_p, label) && k < need {
                k + 1
            } else {
                k
            };
            assert(k2 == bump(k as int, label, sp, need as int));
            let known = match best[target] {
                Some(v) => v >= k2,
                None => false,
            };
            if !known {
                proof {
                    lemma_follows_step(rv, g, sp, sm, k as nat, source, (label, target));
                }
                queue.push((target, k2));
                proof {
                    assert(queue@[queue_i.len() as int] == (target, k2));
                    assert(queued(queue@, target, k2 as int));
                    assert forall|j: int| 0 <= j < queue@.len() implies (#[trigger] queue@[j]).0 < rv.len()
                        && queue@[j].1 <= need && follows(rv, g, sp, sm, queue@[j].1 as nat, queue@[j].0) by {
                        if j < queue_i.len() {
                            assert(queue@[j] == queue_i[j]);
                        }
                    }
                }
            } else {
                assert(reached(best@, target, k2 as int));
            }
        }
        proof {
            assert(carries(best@, queue_i, best@, queue@)) by {
                assert forall|j: int| 0 <= j < queue_i.len() implies (j < queue@.len() && queue@[j]
                    == queue_i[j]) || reached(best@, (#[trigger] queue_i[j]).0, queue_i[j].1 as int) by {
                    assert(queue@[j] == queue_i[j]);
                }
            }
            lemma_relaxed_carries(rv, best@, queue_i, best@, queue@, sp, sm, need as int, source as int, i as int);
            assert(edge_done(rv, best@, queue@, sp, sm, need as int, source as int, i as int));
            assert forall|j: int| 0 <= j < old(queue)@.len() implies (j < queue@.len() && queue@[j]
                == old(queue)@[j]) || reached(best@, (#[trigger] old(queue)@[j]).0, old(queue)@[j].1 as int) by {
                if j < queue_i.len() && queue_i[j] == old(queue)@[j] {
                    assert(queue@[j] == queue_i[j]);
                }
            }
        }
        i += 1;
    }
}

/// The states of `mask` from which a walk along marker edges leads to a
/// state of `gamma`, passes no marker of `s_m`, and passes markers of `s_p`
/// at least `need` times. Where no walk passes a marker twice and `need`
/// is the number of the markers of `s_p`, that is exactly `need` times.
/// `rev` lists for each state the marker edges that lead to it, each as
/// its marker and its source.
pub fn follow_sp_sm(
    rev: &Vec<Vec<(usize, usize)>>,
    gamma: &BitSet<u32>,
    s_p: &BitSet<u32>,
    s_m: &BitSet<u32>,
    need: usize,
    mask: &BitSet<u32>,
) -> (found: BitSet<u32>)
    requires
        back_ok(labelled_view(rev)),
        forall|g: usize| members(*gamma).contains(g) ==> g < rev@.len(),
    ensures
        forall|v: usize|
            members(found).contains(v) <==> members(*mask).contains(v) && follows(
                labelled_view(rev),
                members(*gamma),
                members(*s_p),
                members(*s_m),
                need as nat,
                v,
            ),
        no_repeat(labelled_view(rev)) && members(*s_p).finite() && need == members(*s_p).len() ==> forall|v: usize|
            members(found).contains(v) <==> members(*mask).contains(v) && follows_exactly(
                labelled_view(rev),
                members(*gamma),
                members(*s_p),
                members(*s_m),
                need as nat,
                v,
            ),
{
    let ghost rv = labelled_view(rev);
    let ghost g = members(*gamma);
    let ghost sp = members(*s_p);
    let ghost sm = members(*s_m);
    let n = rev.len();
    let mut best: Vec<Option<usize>> = Vec::new();
    let mut a: usize = 0;
    while a < n
        invariant
            a <= n,
            best@.len() == a,
            forall|v: int| 0 <= v < a ==> (#[trigger] best@[v]) is None,
        decreases n - a,
    {
        best.push(None);
        a += 1;
    }
    let seeds = set_to_vec(gamma);
    let mut queue: Vec<(usize, usize)> = Vec::new();
    let mut b: usize = 0;
    while b < seeds.len()
        invariant
            b <= seeds@.len(),
            queue@.len() == b,
            forall|j: int| 0 <= j < b ==> (#[trigger] queue@[j]) == (seeds@[j], 0usize),
        decreases seeds@.len() - b,
    {
        queue.push((seeds[b], 0));
        b += 1;
    }
    proof {
        reveal(sound);
        reveal(complete);
        assert forall|x: usize| g.contains(x) implies covered(best@, queue@, x, 0) by {
            let j = choose|j: int| 0 <= j < seeds@.len() && seeds@[j] == x;
            assert(queue@[j].0 == x && queue@[j].1 >= 0);
        }
        assert forall|j: int| 0 <= j < queue@.len() implies (#[trigger] queue@[j]).0 < n && queue@[j].1 <= need
            && follows(rv, g, sp, sm, queue@[j].1 as nat, queue@[j].0) by {
            assert(seeds@.contains(seeds@[j]));
            lemma_empty_walk(rv, g, sp, sm, seeds@[j]);
        }
        lemma_potential_bound(best@, need as int);
    }
    while queue.len() > 0
        invariant
            rv == labelled_view(rev),
            g == members(*gamma),
            sp == members(*s_p),
            sm == members(*s_m),
            n == rev@.len(),
            best@.len() == n,
            back_ok(rv),
            sound(rv, g, sp, sm, need as int, best@, queue@),
            complete(rv, g, sp, sm, need as int, best@, queue@),
            potential(best@, need as int) >= 0,
        decreases potential(best@, need as int), queue@.len(),
    {
        let ghost best_a = best@;
        let ghost queue_a = queue@;
        let (source, k) = queue.pop().unwrap();
        proof {
            assert(queue@ == queue_a.drop_last());
            assert(queue_a.last() == (source, k));
            lemma_popped(rv, g, sp, sm, need as int, best_a, queue_a);
        }
        let stale = match best[source] {
            Some(v) => v >= k,
            None => false,
        };
        if stale {
            proof {
                lemma_pop_stale(rv, g, sp, sm, need as int, best_a, queue_a);
            }
        } else {
            best[source] = Some(k);
            let ghost queue_b = queue@;
            proof {
                assert(best@ == best_a.update(source as int, Some(k)));
                lemma_pop_record(rv, g, sp, sm, need as int, best_a, queue_a);
            }
            relax_from(rev, &best, &mut queue, source, k, gamma, s_p, s_m, need);
            proof {
                lemma_carries_twice(best_a, queue_a, best@, queue_b, queue@);
                lemma_complete_carries(rv, g, sp, sm, need as int, best_a, queue_a, best@, queue@, source as int);
            }
        }
    }
    let mut found = set_new();
    let mut v: usize = 0;
    proof {
        assert(queue@ =~= Seq::<(usize, usize)>::empty());
    }
    let ghost best_f = best@;
    while v < n
        invariant
            v <= n,
            n == best@.len(),
            best@ == best_f,
            forall|x: usize|
                members(found).contains(x) <==> x < v && members(*mask).contains(x) && reached(
                    best@,
                    x,
                    need as int,
                ),
        decreases n - v,
    {
        let hit = match best[v] {
            Some(c) => c >= need,
            None => false,
        };
        if hit && set_contains(mask, v) {
            set_insert(&mut found, v);
        }
        v += 1;
    }
    proof {
        assert forall|x: usize| members(found).contains(x) <==> members(*mask).contains(x) && follows(
            rv,
            g,
            sp,
            sm,
            need as nat,
            x,
        ) by {
            reveal(sound);
            reveal(complete);
            if members(found).contains(x) {
                assert(best@[x as int] is Some);
                lemma_follows_fewer(rv, g, sp, sm, best@[x as int]->0 as nat, need as nat, x);
            }
            if members(*mask).contains(x) && follows(rv, g, sp, sm, need as nat, x) {
                let (g0, walk) = choose|g0: usize, walk: Seq<(usize, usize)>|
                    g.contains(g0) && #[trigger] is_back_walk(rv, g0, walk) && walk_end(g0, walk) == x && avoids(
                        walk,
                        sm,
                    ) && count_in(walk, sp) >= need;
                assert forall|y: usize| g.contains(y) implies reached(best@, y, 0) by {
                    assert(covered(best@, queue@, y, 0));
                }
                lemma_closed_covers(rv, best@, g, sp, sm, need as int, g0, walk);
            }
        }
    }
    proof {
        if no_repeat(rv) && sp.finite() && need == sp.len() {
            assert forall|x: usize|
                follows(rv, g, sp, sm, need as nat, x) <==> follows_exactly(rv, g, sp, sm, need as nat, x) by {
                lemma_follows_exactly(rv, g, sp, sm, x);
            }
        }
    }
    found
}

} // verus!
