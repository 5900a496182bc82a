//! Walks against the marker edges of an automaton, with the markers that
//! they pass.

use vstd::prelude::*;

verus! {

/// The state in which `walk` from `g` ends. A step is the pair of the
/// marker that is passed and the state that is reached.
pub open spec fn walk_end(g: usize, walk: Seq<(usize, usize)>) -> usize {
    if walk.len() == 0 {
        g
    } else {
        walk.last().1
    }
}

/// Each step of `walk` is listed by `rev` for the state from which it is
/// taken: `rev` lists for each state the marker edges that lead to it, so
/// the walk runs against the edges.
pub open spec fn is_back_walk(rev: Seq<Seq<(usize, usize)>>, g: usize, walk: Seq<(usize, usize)>) -> bool
    decreases walk.len(),
{
    if walk.len() == 0 {
        true
    } else {
        let from = walk_end(g, walk.drop_last());
        &&& is_back_walk(rev, g, walk.drop_last())
        &&& from < rev.len()
        &&& rev[from as int].contains(walk.last())
    }
}

/// No step of `walk` passes a marker of `sm`.
pub open spec fn avoids(walk: Seq<(usize, usize)>, sm: Set<usize>) -> bool {
    forall|i: int| 0 <= i < walk.len() ==> !sm.contains((#[trigger] walk[i]).0)
}

/// The number of steps of `walk` that pass a marker of `sp`.
pub open spec fn count_in(walk: Seq<(usize, usize)>, sp: Set<usize>) -> nat
    decreases walk.len(),
{
    if walk.len() == 0 {
        0
    } else {
        count_in(walk.drop_last(), sp) + if sp.contains(walk.last().0) {
            1nat
        } else {
            0nat
        }
    }
}

/// Some walk from a state of `gamma` against the marker edges ends in `v`,
/// passes no marker of `sm`, and passes markers of `sp` at least `need`
/// times.
pub open spec fn follows(
    rev: Seq<Seq<(usize, usize)>>,
    gamma: Set<usize>,
    sp: Set<usize>,
    sm: Set<usize>,
    need: nat,
    v: usize,
) -> bool {
    exists|g: usize, walk: Seq<(usize, usize)>|
        gamma.contains(g) && #[trigger] is_back_walk(rev, g, walk) && walk_end(g, walk) == v && avoids(walk, sm)
            && count_in(walk, sp) >= need
}

/// The walk without steps.
pub proof fn lemma_empty_walk(rev: Seq<Seq<(usize, usize)>>, gamma: Set<usize>, sp: Set<usize>, sm: Set<usize>, g: usize)
    requires
        gamma.contains(g),
    ensures
        follows(rev, gamma, sp, sm, 0, g),
{
    let walk = Seq::<(usize, usize)>::empty();
    assert(is_back_walk(rev, g, walk) && walk_end(g, walk) == g && avoids(walk, sm) && count_in(walk, sp) >= 0);
}

/// What one more step does to a walk.
pub proof fn lemma_walk_push(
    rev: Seq<Seq<(usize, usize)>>,
    g: usize,
    walk: Seq<(usize, usize)>,
    step: (usize, usize),
    sp: Set<usize>,
    sm: Set<usize>,
)
    requires
        is_back_walk(rev, g, walk),
        walk_end(g, walk) < rev.len(),
        rev[walk_end(g, walk) as int].contains(step),
    ensures
        is_back_walk(rev, g, walk.push(step)),
        walk_end(g, walk.push(step)) == step.1,
        count_in(walk.push(step), sp) == count_in(walk, sp) + if sp.contains(step.0) {
            1nat
        } else {
            0nat
        },
        avoids(walk, sm) && !sm.contains(step.0) ==> avoids(walk.push(step), sm),
{
    let longer = walk.push(step);
    assert(longer.drop_last() =~= walk);
    if avoids(walk, sm) && !sm.contains(step.0) {
        assert forall|i: int| 0 <= i < longer.len() implies !sm.contains((#[trigger] longer[i]).0) by {
            if i < walk.len() {
                assert(longer[i] == walk[i]);
            }
        }
    }
}

/// A walk that avoids `sm` still does so without its last step.
pub proof fn lemma_avoids_drop_last(walk: Seq<(usize, usize)>, sm: Set<usize>)
    requires
        walk.len() > 0,
        avoids(walk, sm),
    ensures
        avoids(walk.drop_last(), sm),
        !sm.contains(walk.last().0),
{
    let shorter = walk.drop_last();
    assert forall|i: int| 0 <= i < shorter.len() implies !sm.contains((#[trigger] shorter[i]).0) by {
        assert(shorter[i] == walk[i]);
    }
    assert(!sm.contains(walk[walk.len() - 1].0));
}

/// A walk that follows with one step more: the step from `u` that `rev`
/// lists, which passes a marker outside `sm`.
pub proof fn lemma_follows_step(
    rev: Seq<Seq<(usize, usize)>>,
    gamma: Set<usize>,
    sp: Set<usize>,
    sm: Set<usize>,
    k: nat,
    u: usize,
    step: (usize, usize),
)
    requires
        follows(rev, gamma, sp, sm, k, u),
        u < rev.len(),
        rev[u as int].contains(step),
        !sm.contains(step.0),
    ensures
        follows(rev, gamma, sp, sm, k, step.1),
        sp.contains(step.0) ==> follows(rev, gamma, sp, sm, k + 1, step.1),
{
    let (g, walk) = choose|g: usize, walk: Seq<(usize, usize)>|
        gamma.contains(g) && #[trigger] is_back_walk(rev, g, walk) && walk_end(g, walk) == u && avoids(walk, sm)
            && count_in(walk, sp) >= k;
    lemma_walk_push(rev, g, walk, step, sp, sm);
    let longer = walk.push(step);
    assert(gamma.contains(g) && is_back_walk(rev, g, longer) && walk_end(g, longer) == step.1 && avoids(longer, sm)
        && count_in(longer, sp) >= k);
}

/// Whoever follows with `k` markers follows with fewer.
pub proof fn lemma_follows_fewer(
    rev: Seq<Seq<(usize, usize)>>,
    gamma: Set<usize>,
    sp: Set<usize>,
    sm: Set<usize>,
    k: nat,
    j: nat,
    v: usize,
)
    requires
        follows(rev, gamma, sp, sm, k, v),
        j <= k,
    ensures
        follows(rev, gamma, sp, sm, j, v),
{
    let (g, walk) = choose|g: usize, walk: Seq<(usize, usize)>|
        gamma.contains(g) && #[trigger] is_back_walk(rev, g, walk) && walk_end(g, walk) == v && avoids(walk, sm)
            && count_in(walk, sp) >= k;
    assert(gamma.contains(g) && is_back_walk(rev, g, walk) && walk_end(g, walk) == v && avoids(walk, sm)
        && count_in(walk, sp) >= j);
}

/// A marker outside `sp` that a walk passes counts on top of those of `sp`.
pub proof fn lemma_count_insert(walk: Seq<(usize, usize)>, sp: Set<usize>, m: usize)
    requires
        !sp.contains(m),
    ensures
        count_in(walk, sp.insert(m)) >= count_in(walk, sp),
        !avoids(walk, set![m]) ==> count_in(walk, sp.insert(m)) >= count_in(walk, sp) + 1,
    decreases walk.len(),
{
    if walk.len() > 0 {
        let shorter = walk.drop_last();
        lemma_count_insert(shorter, sp, m);
        if !avoids(walk, set![m]) {
            let i = choose|i: int| 0 <= i < walk.len() && set![m].contains((#[trigger] walk[i]).0);
            if i < walk.len() - 1 {
                assert(shorter[i] == walk[i]);
                assert(!avoids(shorter, set![m]));
            } else {
                assert(walk.last().0 == m);
            }
        }
    } else {
        assert(avoids(walk, set![m]));
    }
}

/// A walk that avoids `sm` and the marker `m` avoids `sm` with `m` added.
pub proof fn lemma_avoids_insert(walk: Seq<(usize, usize)>, sm: Set<usize>, m: usize)
    ensures
        avoids(walk, sm.insert(m)) <==> avoids(walk, sm) && avoids(walk, set![m]),
{
    if avoids(walk, sm.insert(m)) {
        assert forall|i: int| 0 <= i < walk.len() implies !sm.contains((#[trigger] walk[i]).0) by {
            assert(!sm.insert(m).contains(walk[i].0));
        }
        assert forall|i: int| 0 <= i < walk.len() implies !set![m].contains((#[trigger] walk[i]).0) by {
            assert(!sm.insert(m).contains(walk[i].0));
        }
    }
    if avoids(walk, sm) && avoids(walk, set![m]) {
        assert forall|i: int| 0 <= i < walk.len() implies !sm.insert(m).contains((#[trigger] walk[i]).0) by {
            assert(!sm.contains(walk[i].0));
            assert(!set![m].contains(walk[i].0));
        }
    }
}

/// The markers that `walk` passes.
pub open spec fn walk_labels(walk: Seq<(usize, usize)>) -> Set<usize> {
    Set::new(|m: usize| exists|i: int| 0 <= i < walk.len() && (#[trigger] walk[i]).0 == m)
}

/// `walk` passes no marker twice.
pub open spec fn labels_distinct(walk: Seq<(usize, usize)>) -> bool {
    forall|i: int, j: int| 0 <= i < j < walk.len() ==> (#[trigger] walk[i]).0 != (#[trigger] walk[j]).0
}

/// No walk against the edges of `rev` passes a marker twice.
pub open spec fn no_repeat(rev: Seq<Seq<(usize, usize)>>) -> bool {
    forall|g: usize, walk: Seq<(usize, usize)>| #[trigger] is_back_walk(rev, g, walk) ==> labels_distinct(walk)
}

/// The first `n` steps of a walk are a walk, and the step that follows is
/// listed for the state in which they end.
pub proof fn lemma_walk_take(rev: Seq<Seq<(usize, usize)>>, g: usize, walk: Seq<(usize, usize)>, n: int)
    requires
        is_back_walk(rev, g, walk),
        0 <= n <= walk.len(),
    ensures
        is_back_walk(rev, g, walk.take(n)),
        n < walk.len() ==> walk_end(g, walk.take(n)) < rev.len() && rev[walk_end(g, walk.take(n)) as int].contains(
            walk[n],
        ),
    decreases walk.len() - n,
{
    if n == walk.len() {
        assert(walk.take(n) =~= walk);
    } else {
        lemma_walk_take(rev, g, walk, n + 1);
        let longer = walk.take(n + 1);
        assert(longer.drop_last() =~= walk.take(n));
        assert(longer.last() == walk[n]);
    }
}

/// The steps from the `a`-th to the `b`-th of a walk are a walk from the
/// state after the first `a` steps to the state after the first `b`.
pub proof fn lemma_walk_sub(rev: Seq<Seq<(usize, usize)>>, g: usize, walk: Seq<(usize, usize)>, a: int, b: int)
    requires
        is_back_walk(rev, g, walk),
        0 <= a <= b <= walk.len(),
    ensures
        is_back_walk(rev, walk_end(g, walk.take(a)), walk.subrange(a, b)),
        walk_end(walk_end(g, walk.take(a)), walk.subrange(a, b)) == walk_end(g, walk.take(b)),
    decreases b - a,
{
    let from = walk_end(g, walk.take(a));
    let part = walk.subrange(a, b);
    if a == b {
        assert(part =~= Seq::<(usize, usize)>::empty());
    } else {
        lemma_walk_sub(rev, g, walk, a, b - 1);
        lemma_walk_take(rev, g, walk, b - 1);
        assert(part.drop_last() =~= walk.subrange(a, b - 1));
        assert(part.last() == walk[b - 1]);
        assert(walk.take(b).last() == walk[b - 1]);
    }
}

/// A walk that passes only markers of `sp` passes markers of `sp` as often
/// as it has steps.
pub proof fn lemma_count_all(walk: Seq<(usize, usize)>, sp: Set<usize>)
    ensures
        count_in(walk, sp) <= walk.len(),
        (forall|i: int| 0 <= i < walk.len() ==> sp.contains((#[trigger] walk[i]).0)) ==> count_in(walk, sp)
            == walk.len(),
    decreases walk.len(),
{
    if walk.len() > 0 {
        let shorter = walk.drop_last();
        lemma_count_all(shorter, sp);
        if forall|i: int| 0 <= i < walk.len() ==> sp.contains((#[trigger] walk[i]).0) {
            assert forall|i: int| 0 <= i < shorter.len() implies sp.contains((#[trigger] shorter[i]).0) by {
                assert(shorter[i] == walk[i]);
            }
            assert(sp.contains(walk[walk.len() - 1].0));
        }
    }
}

/// A list of distinct entries, all of them in a list of distinct entries,
/// is not longer than that list.
pub proof fn lemma_distinct_within(s: Seq<usize>, within: Seq<usize>)
    requires
        s.no_duplicates(),
        within.no_duplicates(),
        forall|i: int| 0 <= i < s.len() ==> within.contains(#[trigger] s[i]),
    ensures
        s.len() <= within.len(),
    decreases within.len(),
{
    if s.len() > 0 {
        if within.len() == 0 {
            assert(within.contains(s[0]));
        } else {
            let top = within.last();
            let rest = within.drop_last();
            assert forall|x: usize| within.contains(x) && x != top implies rest.contains(x) by {
                let k = choose|k: int| 0 <= k < within.len() && within[k] == x;
                assert(rest[k] == x);
            }
            assert(rest.no_duplicates()) by {
                assert forall|i: int, j: int| 0 <= i < rest.len() && 0 <= j < rest.len() && i != j implies rest[i]
                    != rest[j] by {
                    assert(rest[i] == within[i] && rest[j] == within[j]);
                }
            }
            if s.contains(top) {
                let k = choose|k: int| 0 <= k < s.len() && s[k] == top;
                let fewer = s.remove(k);
                assert forall|i: int| 0 <= i < fewer.len() implies rest.contains(#[trigger] fewer[i]) by {
                    let i2 = if i < k { i } else { i + 1 };
                    assert(fewer[i] == s[i2]);
                    assert(within.contains(s[i2]));
                }
                assert forall|i: int, j: int| 0 <= i < fewer.len() && 0 <= j < fewer.len() && i != j implies fewer[i]
                    != fewer[j] by {
                    let i2 = if i < k { i } else { i + 1 };
                    let j2 = if j < k { j } else { j + 1 };
                    assert(fewer[i] == s[i2] && fewer[j] == s[j2]);
                }
                lemma_distinct_within(fewer, rest);
            } else {
                assert forall|i: int| 0 <= i < s.len() implies rest.contains(#[trigger] s[i]) by {
                    assert(s.contains(s[i]));
                    assert(within.contains(s[i]));
                }
                lemma_distinct_within(s, rest);
            }
        }
    }
}

/// A walk without a marker twice that passes only markers of the distinct
/// list `chosen`, and as many as `chosen` has, passes them all.
pub proof fn lemma_passes_all(walk: Seq<(usize, usize)>, chosen: Seq<usize>)
    requires
        labels_distinct(walk),
        chosen.no_duplicates(),
        forall|i: int| 0 <= i < walk.len() ==> chosen.contains((#[trigger] walk[i]).0),
        walk.len() >= chosen.len(),
    ensures
        walk_labels(walk) == chosen.to_set(),
{
    let labels = Seq::new(walk.len(), |i: int| walk[i].0);
    assert(labels.no_duplicates()) by {
        assert forall|i: int, j: int| 0 <= i < labels.len() && 0 <= j < labels.len() && i != j implies labels[i]
            != labels[j] by {
            if i < j {
                assert(walk[i].0 != walk[j].0);
            } else {
                assert(walk[j].0 != walk[i].0);
            }
        }
    }
    assert forall|m: usize| chosen.contains(m) implies walk_labels(walk).contains(m) by {
        if !walk_labels(walk).contains(m) {
            let k = choose|k: int| 0 <= k < chosen.len() && chosen[k] == m;
            let fewer = chosen.remove(k);
            assert forall|i: int, j: int| 0 <= i < fewer.len() && 0 <= j < fewer.len() && i != j implies fewer[i]
                != fewer[j] by {
                let i2 = if i < k { i } else { i + 1 };
                let j2 = if j < k { j } else { j + 1 };
                assert(fewer[i] == chosen[i2] && fewer[j] == chosen[j2]);
            }
            assert forall|i: int| 0 <= i < labels.len() implies fewer.contains(#[trigger] labels[i]) by {
                assert(chosen.contains(walk[i].0));
                let x = choose|x: int| 0 <= x < chosen.len() && chosen[x] == walk[i].0;
                assert(x != k) by {
                    if x == k {
                        assert(walk[i].0 == m);
                    }
                }
                let x2 = if x < k { x } else { x - 1 };
                assert(fewer[x2] == chosen[x]);
            }
            lemma_distinct_within(labels, fewer);
        }
    }
    assert forall|m: usize| walk_labels(walk).contains(m) implies chosen.contains(m) by {
        let i = choose|i: int| 0 <= i < walk.len() && (#[trigger] walk[i]).0 == m;
        assert(chosen.contains(walk[i].0));
    }
    assert(walk_labels(walk) =~= chosen.to_set());
}

/// A walk that passes every marker of a list of distinct markers passes
/// markers of the list at least as often as the list is long.
pub proof fn lemma_count_covers(walk: Seq<(usize, usize)>, chosen: Seq<usize>)
    requires
        chosen.no_duplicates(),
        forall|i: int| 0 <= i < chosen.len() ==> walk_labels(walk).contains(#[trigger] chosen[i]),
    ensures
        count_in(walk, chosen.to_set()) >= chosen.len(),
    decreases chosen.len(),
{
    if chosen.len() == 0 {
    } else {
        let fewer = chosen.drop_last();
        let m = chosen.last();
        assert forall|i: int| 0 <= i < fewer.len() implies walk_labels(walk).contains(#[trigger] fewer[i]) by {
            assert(fewer[i] == chosen[i]);
        }
        assert(fewer.no_duplicates()) by {
            assert forall|i: int, j: int| 0 <= i < fewer.len() && 0 <= j < fewer.len() && i != j implies fewer[i]
                != fewer[j] by {
                assert(fewer[i] == chosen[i] && fewer[j] == chosen[j]);
            }
        }
        lemma_count_covers(walk, fewer);
        assert(!fewer.to_set().contains(m)) by {
            if fewer.contains(m) {
                let i = choose|i: int| 0 <= i < fewer.len() && fewer[i] == m;
                assert(chosen[i] == chosen[chosen.len() - 1]);
            }
        }
        assert(walk_labels(walk).contains(chosen[chosen.len() - 1]));
        let k = choose|k: int| 0 <= k < walk.len() && (#[trigger] walk[k]).0 == m;
        assert(set![m].contains(walk[k].0));
        assert(!avoids(walk, set![m]));
        lemma_count_insert(walk, fewer.to_set(), m);
        assert(fewer.to_set().insert(m) =~= chosen.to_set()) by {
            assert forall|x: usize| fewer.to_set().insert(m).contains(x) <==> chosen.to_set().contains(x) by {
                if fewer.contains(x) {
                    let i = choose|i: int| 0 <= i < fewer.len() && fewer[i] == x;
                    assert(chosen[i] == x);
                }
                if chosen.contains(x) && x != m {
                    let i = choose|i: int| 0 <= i < chosen.len() && chosen[i] == x;
                    assert(fewer[i] == x);
                }
            }
        }
    }
}

/// Some walk from a state of `gamma` against the marker edges ends in `v`,
/// passes no marker of `sm`, and passes markers of `sp` exactly `count`
/// times.
pub open spec fn follows_exactly(
    rev: Seq<Seq<(usize, usize)>>,
    gamma: Set<usize>,
    sp: Set<usize>,
    sm: Set<usize>,
    count: nat,
    v: usize,
) -> bool {
    exists|g: usize, walk: Seq<(usize, usize)>|
        gamma.contains(g) && #[trigger] is_back_walk(rev, g, walk) && walk_end(g, walk) == v && avoids(walk, sm)
            && count_in(walk, sp) == count
}

/// A marker that a walk does not pass does not count.
pub proof fn lemma_count_without(walk: Seq<(usize, usize)>, sp: Set<usize>, m: usize)
    requires
        forall|i: int| 0 <= i < walk.len() ==> (#[trigger] walk[i]).0 != m,
    ensures
        count_in(walk, sp) == count_in(walk, sp.remove(m)),
    decreases walk.len(),
{
    if walk.len() > 0 {
        let shorter = walk.drop_last();
        assert forall|i: int| 0 <= i < shorter.len() implies (#[trigger] shorter[i]).0 != m by {
            assert(shorter[i] == walk[i]);
        }
        lemma_count_without(shorter, sp, m);
        assert(walk[walk.len() - 1].0 != m);
    }
}

/// A walk that passes no marker twice passes markers of a finite set at
/// most as often as the set has members.
pub proof fn lemma_count_bound(walk: Seq<(usize, usize)>, sp: Set<usize>)
    requires
        labels_distinct(walk),
        sp.finite(),
    ensures
        count_in(walk, sp) <= sp.len(),
    decreases walk.len(),
{
    if walk.len() > 0 {
        let shorter = walk.drop_last();
        let m = walk.last().0;
        assert(labels_distinct(shorter)) by {
            assert forall|i: int, j: int| 0 <= i < j < shorter.len() implies (#[trigger] shorter[i]).0 != (
            #[trigger] shorter[j]).0 by {
                assert(walk[i].0 != walk[j].0);
            }
        }
        if sp.contains(m) {
            assert forall|i: int| 0 <= i < shorter.len() implies (#[trigger] shorter[i]).0 != m by {
                assert(walk[i].0 != walk[walk.len() - 1].0);
            }
            lemma_count_without(shorter, sp, m);
            lemma_count_bound(shorter, sp.remove(m));
        } else {
            lemma_count_bound(shorter, sp);
        }
    }
}

/// Where no walk passes a marker twice, to pass markers of a finite set
/// at least as often as the set has members is to pass them exactly as
/// often.
pub proof fn lemma_follows_exactly(
    rev: Seq<Seq<(usize, usize)>>,
    gamma: Set<usize>,
    sp: Set<usize>,
    sm: Set<usize>,
    v: usize,
)
    requires
        no_repeat(rev),
        sp.finite(),
    ensures
        follows(rev, gamma, sp, sm, sp.len(), v) <==> follows_exactly(rev, gamma, sp, sm, sp.len(), v),
{
    if follows(rev, gamma, sp, sm, sp.len(), v) {
        let (g, walk) = choose|g: usize, walk: Seq<(usize, usize)>|
            gamma.contains(g) && #[trigger] is_back_walk(rev, g, walk) && walk_end(g, walk) == v && avoids(walk, sm)
                && count_in(walk, sp) >= sp.len();
        lemma_count_bound(walk, sp);
        assert(gamma.contains(g) && is_back_walk(rev, g, walk) && walk_end(g, walk) == v && avoids(walk, sm)
            && count_in(walk, sp) == sp.len());
    }
    if follows_exactly(rev, gamma, sp, sm, sp.len(), v) {
        let (g, walk) = choose|g: usize, walk: Seq<(usize, usize)>|
            gamma.contains(g) && #[trigger] is_back_walk(rev, g, walk) && walk_end(g, walk) == v && avoids(walk, sm)
                && count_in(walk, sp) == sp.len();
        assert(gamma.contains(g) && is_back_walk(rev, g, walk) && walk_end(g, walk) == v && avoids(walk, sm)
            && count_in(walk, sp) >= sp.len());
    }
}

} // verus!
