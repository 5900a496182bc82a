//! The markers that can be passed on the way to a set of states.

use crate::automaton::{labelled_view, Automaton};
use crate::bits::{members, set_clone, set_contains, set_first, set_insert, set_new, set_remove};
use crate::follow::back_ok;
use crate::levelset::push_new;
use crate::walks::{avoids, count_in, follows, is_back_walk, lemma_empty_walk, lemma_follows_step, walk_end};
use bit_set::BitSet;
use vstd::prelude::*;

verus! {

/// Some marker edge for `m` leads to a state from which marker edges lead
/// to a state of `gamma`.
pub open spec fn passable(rev: Seq<Seq<(usize, usize)>>, gamma: Set<usize>, m: usize) -> bool {
    exists|u: usize, p: usize|
        follows(rev, gamma, Set::<usize>::empty(), Set::<usize>::empty(), 0, u) && u < rev.len()
            && #[trigger] rev[u as int].contains((m, p))
}

/// `e` lists the passable markers, each once.
pub open spec fn is_expected(rev: Seq<Seq<(usize, usize)>>, gamma: Set<usize>, e: Seq<usize>) -> bool {
    &&& e.no_duplicates()
    &&& forall|m: usize| e.contains(m) <==> passable(rev, gamma, m)
}

/// `x` is the smallest member of `s`.
pub open spec fn is_least(s: Set<usize>, x: usize) -> bool {
    s.contains(x) && forall|y: usize| s.contains(y) ==> x <= y
}

/// The smallest member of `s`.
pub open spec fn least(s: Set<usize>) -> usize {
    choose|x: usize| is_least(s, x)
}

/// The markers of `edges`, in the order of the edges, behind `seen`, each
/// only where it is new.
pub open spec fn noted(edges: Seq<(usize, usize)>, seen: Seq<usize>) -> Seq<usize>
    decreases edges.len(),
{
    if edges.len() == 0 {
        seen
    } else {
        push_new(noted(edges.drop_last(), seen), edges.last().0)
    }
}

/// The states from which `edges` come.
pub open spec fn origins(edges: Seq<(usize, usize)>) -> Set<usize> {
    Set::new(|p: usize| exists|i: int| 0 <= i < edges.len() && (#[trigger] edges[i]).1 == p)
}

/// The markers that a search against the marker edges meets, in the order
/// in which it meets them, behind `seen`. The search goes on from the
/// smallest of the states `pending`, notes the markers of the edges into
/// it, in their stored order, and then has the states from which these
/// edges come pending too, unless they are among `visited`. It makes at
/// most `rounds` rounds.
pub open spec fn search(
    rev: Seq<Seq<(usize, usize)>>,
    visited: Set<usize>,
    pending: Set<usize>,
    seen: Seq<usize>,
    rounds: nat,
) -> Seq<usize>
    decreases rounds,
{
    if rounds == 0 || pending == Set::<usize>::empty() {
        seen
    } else {
        let u = least(pending);
        let fresh = origins(rev[u as int]).difference(visited);
        search(
            rev,
            visited.union(fresh),
            pending.remove(u).union(fresh),
            noted(rev[u as int], seen),
            (rounds - 1) as nat,
        )
    }
}

/// The passable markers, in the order in which the search from `gamma`
/// meets them: one round for each state is enough.
pub open spec fn expected(rev: Seq<Seq<(usize, usize)>>, gamma: Set<usize>) -> Seq<usize> {
    search(rev, within(gamma, rev.len()), within(gamma, rev.len()), Seq::empty(), rev.len())
}

/// The states of `gamma` that are below `n`.
pub open spec fn within(gamma: Set<usize>, n: nat) -> Set<usize> {
    Set::new(|x: usize| gamma.contains(x) && x < n)
}

/// Everything that `s` is to hold of the search: where `done` marks the
/// states that are finished, their edges are noted and lead from visited
/// states, and a round is left for each state that is not finished.
pub open spec fn searching(
    rev: Seq<Seq<(usize, usize)>>,
    gamma: Set<usize>,
    visited: Set<usize>,
    pending: Set<usize>,
    seen: Seq<usize>,
    rounds: nat,
    done: Seq<bool>,
) -> bool {
    &&& forall|x: usize| gamma.contains(x) ==> visited.contains(x)
    &&& forall|x: usize| pending.contains(x) ==> visited.contains(x)
    &&& forall|x: usize|
        visited.contains(x) ==> x < rev.len() && follows(
            rev,
            gamma,
            Set::<usize>::empty(),
            Set::<usize>::empty(),
            0,
            x,
        )
    &&& done.len() == rev.len()
    &&& forall|x: usize| x < rev.len() ==> (#[trigger] done[x as int] <==> visited.contains(x) && !pending.contains(x))
    &&& count_true(done) + rounds == rev.len()
    &&& forall|u: usize, i: int|
        u < rev.len() && done[u as int] && 0 <= i < rev[u as int].len() ==> seen.contains(
            (#[trigger] rev[u as int][i]).0,
        ) && visited.contains(rev[u as int][i].1)
    &&& seen.no_duplicates()
    &&& forall|m: usize| seen.contains(m) ==> passable(rev, gamma, m)
}

/// The number of entries that are set.
pub open spec fn count_true(s: Seq<bool>) -> nat
    decreases s.len(),
{
    if s.len() == 0 {
        0
    } else {
        count_true(s.drop_last()) + if s.last() {
            1nat
        } else {
            0nat
        }
    }
}

/// Setting an entry that was not set makes one more.
pub proof fn lemma_count_set(s: Seq<bool>, i: int)
    requires
        0 <= i < s.len(),
        !s[i],
    ensures
        count_true(s.update(i, true)) == count_true(s) + 1,
    decreases s.len(),
{
    let t = s.update(i, true);
    if i == s.len() - 1 {
        assert(t.drop_last() =~= s.drop_last());
    } else {
        assert(t.drop_last() =~= s.drop_last().update(i, true));
        lemma_count_set(s.drop_last(), i);
    }
}

/// No more entries are set than there are, and where as many are set,
/// all are.
pub proof fn lemma_count_full(s: Seq<bool>)
    ensures
        count_true(s) <= s.len(),
        count_true(s) == s.len() ==> forall|i: int| 0 <= i < s.len() ==> s[i],
    decreases s.len(),
{
    if s.len() > 0 {
        lemma_count_full(s.drop_last());
        if count_true(s) == s.len() {
            assert forall|i: int| 0 <= i < s.len() implies s[i] by {
                if i < s.len() - 1 {
                    assert(s.drop_last()[i]);
                }
            }
        }
    }
}

/// A set with a member has a smallest member.
pub proof fn lemma_least(s: Set<usize>, x: usize)
    requires
        s.contains(x),
    ensures
        is_least(s, least(s)),
    decreases x,
{
    if exists|y: usize| s.contains(y) && y < x {
        let y = choose|y: usize| s.contains(y) && y < x;
        lemma_least(s, y);
    } else {
        assert(is_least(s, x));
    }
}

/// What the markers of edges add to a list: the list holds what it held
/// and the markers of the edges, and nothing twice.
pub proof fn lemma_noted(edges: Seq<(usize, usize)>, seen: Seq<usize>)
    requires
        seen.no_duplicates(),
    ensures
        noted(edges, seen).no_duplicates(),
        forall|m: usize|
            #![trigger noted(edges, seen).contains(m)]
            noted(edges, seen).contains(m) <==> seen.contains(m) || exists|i: int|
                0 <= i < edges.len() && (#[trigger] edges[i]).0 == m,
    decreases edges.len(),
{
    if edges.len() > 0 {
        let fewer = edges.drop_last();
        let before = noted(fewer, seen);
        let last = edges.last().0;
        let all = noted(edges, seen);
        lemma_noted(fewer, seen);
        assert forall|m: usize|
            all.contains(m) <==> seen.contains(m) || exists|i: int|
                0 <= i < edges.len() && (#[trigger] edges[i]).0 == m by {
            if all.contains(m) {
                if before.contains(m) {
                    if !seen.contains(m) {
                        let i = choose|i: int| 0 <= i < fewer.len() && (#[trigger] fewer[i]).0 == m;
                        assert(edges[i].0 == m);
                    }
                } else {
                    let k = choose|k: int| 0 <= k < all.len() && all[k] == m;
                    if k < before.len() {
                        assert(before[k] == m);
                    }
                    assert(m == last);
                    assert(edges[edges.len() - 1].0 == m);
                }
            }
            if seen.contains(m) {
                assert(before.contains(m));
                let k = choose|k: int| 0 <= k < before.len() && before[k] == m;
                assert(all[k] == m);
            }
            if exists|i: int| 0 <= i < edges.len() && (#[trigger] edges[i]).0 == m {
                let i = choose|i: int| 0 <= i < edges.len() && (#[trigger] edges[i]).0 == m;
                if i < fewer.len() {
                    assert(fewer[i].0 == m);
                    assert(before.contains(m));
                    let k = choose|k: int| 0 <= k < before.len() && before[k] == m;
                    assert(all[k] == m);
                } else if before.contains(m) {
                } else {
                    assert(all == before.push(m));
                    assert(all[before.len() as int] == m);
                }
            }
        }
        if !before.contains(last) {
            assert forall|x: int, y: int| 0 <= x < all.len() && 0 <= y < all.len() && x != y implies all[x]
                != all[y] by {
                if x < before.len() && y < before.len() {
                    assert(before[x] != before[y]);
                } else if x < before.len() {
                    assert(before.contains(before[x]));
                } else {
                    assert(before.contains(before[y]));
                }
            }
        }
    }
}

/// A set that holds `gamma` and the states from which the edges into its
/// states come holds every state from which marker edges lead to `gamma`.
pub proof fn lemma_closed_back(
    rev: Seq<Seq<(usize, usize)>>,
    gamma: Set<usize>,
    s: Set<usize>,
    g: usize,
    walk: Seq<(usize, usize)>,
)
    requires
        gamma.contains(g),
        is_back_walk(rev, g, walk),
        forall|x: usize| gamma.contains(x) ==> s.contains(x),
        forall|u: usize, i: int|
            s.contains(u) && u < rev.len() && 0 <= i < rev[u as int].len() ==> s.contains(
                (#[trigger] rev[u as int][i]).1,
            ),
    ensures
        s.contains(walk_end(g, walk)),
    decreases walk.len(),
{
    if walk.len() > 0 {
        lemma_closed_back(rev, gamma, s, g, walk.drop_last());
        let from = walk_end(g, walk.drop_last());
        let i = choose|i: int| 0 <= i < rev[from as int].len() && rev[from as int][i] == walk.last();
        assert(s.contains(rev[from as int][i].1));
    }
}

/// Where the search is over, every passable marker is listed.
pub proof fn lemma_search_done(
    rev: Seq<Seq<(usize, usize)>>,
    gamma: Set<usize>,
    visited: Set<usize>,
    pending: Set<usize>,
    seen: Seq<usize>,
    rounds: nat,
    done: Seq<bool>,
)
    requires
        searching(rev, gamma, visited, pending, seen, rounds, done),
        rounds == 0 || pending == Set::<usize>::empty(),
    ensures
        is_expected(rev, gamma, seen),
{
    let none = Set::<usize>::empty();
    if rounds == 0 {
        lemma_count_full(done);
    }
    assert forall|x: usize| !pending.contains(x) by {
        if pending.contains(x) {
            assert(visited.contains(x));
            assert(done[x as int]);
        }
    }
    assert forall|v: usize, i: int|
        visited.contains(v) && v < rev.len() && 0 <= i < rev[v as int].len() implies visited.contains(
        (#[trigger] rev[v as int][i]).1,
    ) by {
        assert(done[v as int]);
    }
    assert forall|m: usize| passable(rev, gamma, m) implies seen.contains(m) by {
        let (u, p) = choose|u: usize, p: usize|
            follows(rev, gamma, none, none, 0, u) && u < rev.len() && #[trigger] rev[u as int].contains((m, p));
        let (g, walk) = choose|g: usize, walk: Seq<(usize, usize)>|
            gamma.contains(g) && #[trigger] is_back_walk(rev, g, walk) && walk_end(g, walk) == u && avoids(walk, none)
                && count_in(walk, none) >= 0;
        lemma_closed_back(rev, gamma, visited, g, walk);
        assert(done[u as int]);
        let i = choose|i: int| 0 <= i < rev[u as int].len() && rev[u as int][i] == (m, p);
        assert(seen.contains(rev[u as int][i].0));
    }
}

/// The states that a round adds are states from which marker edges lead
/// to `gamma`.
proof fn lemma_round_reach(
    rev: Seq<Seq<(usize, usize)>>,
    gamma: Set<usize>,
    visited: Set<usize>,
    u: usize,
)
    requires
        back_ok(rev),
        u < rev.len(),
        visited.contains(u),
        forall|x: usize|
            visited.contains(x) ==> x < rev.len() && follows(
                rev,
                gamma,
                Set::<usize>::empty(),
                Set::<usize>::empty(),
                0,
                x,
            ),
    ensures
        forall|y: usize|
            visited.union(origins(rev[u as int]).difference(visited)).contains(y) ==> y < rev.len() && follows(
                rev,
                gamma,
                Set::<usize>::empty(),
                Set::<usize>::empty(),
                0,
                y,
            ),
{
    let none = Set::<usize>::empty();
    let edges = rev[u as int];
    assert forall|y: usize| visited.union(origins(edges).difference(visited)).contains(y) implies y < rev.len()
        && follows(rev, gamma, none, none, 0, y) by {
        if !visited.contains(y) {
            let i = choose|i: int| 0 <= i < edges.len() && (#[trigger] edges[i]).1 == y;
            assert(edges.contains(edges[i]));
            lemma_follows_step(rev, gamma, none, none, 0, u, edges[i]);
        }
    }
}

/// The markers that a round adds are passable.
proof fn lemma_round_seen(rev: Seq<Seq<(usize, usize)>>, gamma: Set<usize>, seen: Seq<usize>, u: usize)
    requires
        u < rev.len(),
        follows(rev, gamma, Set::<usize>::empty(), Set::<usize>::empty(), 0, u),
        seen.no_duplicates(),
        forall|m: usize| seen.contains(m) ==> passable(rev, gamma, m),
    ensures
        noted(rev[u as int], seen).no_duplicates(),
        forall|m: usize| noted(rev[u as int], seen).contains(m) ==> passable(rev, gamma, m),
        forall|m: usize| seen.contains(m) ==> noted(rev[u as int], seen).contains(m),
        forall|i: int| 0 <= i < rev[u as int].len() ==> noted(rev[u as int], seen).contains((#[trigger] rev[u as int][i]).0),
{
    let edges = rev[u as int];
    let seen2 = noted(edges, seen);
    lemma_noted(edges, seen);
    assert forall|i: int| 0 <= i < edges.len() implies seen2.contains((#[trigger] edges[i]).0) by {
        let m = edges[i].0;
        assert(exists|k: int| 0 <= k < edges.len() && (#[trigger] edges[k]).0 == m);
    }
    assert forall|m: usize| seen2.contains(m) implies passable(rev, gamma, m) by {
        if !seen.contains(m) {
            let i = choose|i: int| 0 <= i < edges.len() && (#[trigger] edges[i]).0 == m;
            assert(edges.contains(edges[i]));
            assert(edges[i] == (m, edges[i].1));
            assert(rev[u as int].contains((m, edges[i].1)));
        }
    }
}

/// A round of the search keeps what holds of it.
#[verifier::rlimit(40)]
pub proof fn lemma_search_round(
    rev: Seq<Seq<(usize, usize)>>,
    gamma: Set<usize>,
    visited: Set<usize>,
    pending: Set<usize>,
    seen: Seq<usize>,
    rounds: nat,
    done: Seq<bool>,
)
    requires
        back_ok(rev),
        searching(rev, gamma, visited, pending, seen, rounds, done),
        rounds > 0,
        pending != Set::<usize>::empty(),
    ensures
        is_least(pending, least(pending)),
        least(pending) < rev.len(),
        searching(
            rev,
            gamma,
            visited.union(origins(rev[least(pending) as int]).difference(visited)),
            pending.remove(least(pending)).union(origins(rev[least(pending) as int]).difference(visited)),
            noted(rev[least(pending) as int], seen),
            (rounds - 1) as nat,
            done.update(least(pending) as int, true),
        ),
{
    let none = Set::<usize>::empty();
    assert(exists|x: usize| pending.contains(x)) by {
        if forall|x: usize| !pending.contains(x) {
            assert(pending =~= none);
        }
    }
    let x = choose|x: usize| pending.contains(x);
    lemma_least(pending, x);
    let u = least(pending);
    assert(visited.contains(u));
    let edges = rev[u as int];
    let fresh = origins(edges).difference(visited);
    let visited2 = visited.union(fresh);
    let pending2 = pending.remove(u).union(fresh);
    let seen2 = noted(edges, seen);
    let done2 = done.update(u as int, true);
    assert(!done[u as int]);
    lemma_count_set(done, u as int);
    lemma_round_reach(rev, gamma, visited, u);
    lemma_round_seen(rev, gamma, seen, u);
    assert forall|y: usize| y < rev.len() implies (#[trigger] done2[y as int] <==> visited2.contains(y)
        && !pending2.contains(y)) by {
        if y != u {
            assert(done2[y as int] == done[y as int]);
        }
    }
    assert forall|v: usize, i: int|
        v < rev.len() && done2[v as int] && 0 <= i < rev[v as int].len() implies seen2.contains(
        (#[trigger] rev[v as int][i]).0,
    ) && visited2.contains(rev[v as int][i].1) by {
        if v == u {
            let p = edges[i].1;
            if !visited.contains(p) {
                assert(origins(edges).contains(p));
            }
        } else {
            assert(done[v as int]);
            assert(seen.contains(rev[v as int][i].0));
        }
    }
}

/// The search lists the passable markers, each once.
pub proof fn lemma_search(
    rev: Seq<Seq<(usize, usize)>>,
    gamma: Set<usize>,
    visited: Set<usize>,
    pending: Set<usize>,
    seen: Seq<usize>,
    rounds: nat,
    done: Seq<bool>,
)
    requires
        back_ok(rev),
        searching(rev, gamma, visited, pending, seen, rounds, done),
    ensures
        is_expected(rev, gamma, search(rev, visited, pending, seen, rounds)),
    decreases rounds,
{
    if rounds == 0 || pending == Set::<usize>::empty() {
        lemma_search_done(rev, gamma, visited, pending, seen, rounds, done);
    } else {
        lemma_search_round(rev, gamma, visited, pending, seen, rounds, done);
        let u = least(pending);
        let fresh = origins(rev[u as int]).difference(visited);
        lemma_search(
            rev,
            gamma,
            visited.union(fresh),
            pending.remove(u).union(fresh),
            noted(rev[u as int], seen),
            (rounds - 1) as nat,
            done.update(u as int, true),
        );
    }
}

/// A walk with a step begins at a state.
pub proof fn lemma_walk_start(rev: Seq<Seq<(usize, usize)>>, g: usize, walk: Seq<(usize, usize)>)
    requires
        is_back_walk(rev, g, walk),
        walk.len() > 0,
    ensures
        g < rev.len(),
    decreases walk.len(),
{
    if walk.len() > 1 {
        lemma_walk_start(rev, g, walk.drop_last());
    } else {
        assert(walk.drop_last().len() == 0);
    }
}

/// The search from `gamma` lists the passable markers, each once.
pub proof fn lemma_expected(rev: Seq<Seq<(usize, usize)>>, gamma: Set<usize>)
    requires
        back_ok(rev),
    ensures
        is_expected(rev, gamma, expected(rev, gamma)),
{
    let none = Set::<usize>::empty();
    let inside = within(gamma, rev.len());
    let done = Seq::new(rev.len(), |i: int| false);
    lemma_count_none(done);
    assert forall|x: usize| inside.contains(x) implies follows(rev, inside, none, none, 0, x) by {
        lemma_empty_walk(rev, inside, none, none, x);
    }
    assert(searching(rev, inside, inside, inside, Seq::<usize>::empty(), rev.len(), done));
    lemma_search(rev, inside, inside, inside, Seq::empty(), rev.len(), done);
    let e = expected(rev, gamma);
    assert forall|m: usize| passable(rev, inside, m) <==> passable(rev, gamma, m) by {
        if passable(rev, inside, m) {
            let (u, p) = choose|u: usize, p: usize|
                follows(rev, inside, none, none, 0, u) && u < rev.len() && #[trigger] rev[u as int].contains((m, p));
            let (g, walk) = choose|g: usize, walk: Seq<(usize, usize)>|
                inside.contains(g) && #[trigger] is_back_walk(rev, g, walk) && walk_end(g, walk) == u && avoids(
                    walk,
                    none,
                ) && count_in(walk, none) >= 0;
            assert(gamma.contains(g) && is_back_walk(rev, g, walk) && walk_end(g, walk) == u && avoids(walk, none)
                && count_in(walk, none) >= 0);
            assert(follows(rev, gamma, none, none, 0, u));
        }
        if passable(rev, gamma, m) {
            let (u, p) = choose|u: usize, p: usize|
                follows(rev, gamma, none, none, 0, u) && u < rev.len() && #[trigger] rev[u as int].contains((m, p));
            let (g, walk) = choose|g: usize, walk: Seq<(usize, usize)>|
                gamma.contains(g) && #[trigger] is_back_walk(rev, g, walk) && walk_end(g, walk) == u && avoids(
                    walk,
                    none,
                ) && count_in(walk, none) >= 0;
            if walk.len() > 0 {
                lemma_walk_start(rev, g, walk);
            }
            assert(inside.contains(g) && is_back_walk(rev, g, walk) && walk_end(g, walk) == u && avoids(walk, none)
                && count_in(walk, none) >= 0);
            assert(follows(rev, inside, none, none, 0, u));
        }
    }
}

/// Where no entry is set, none is counted.
pub proof fn lemma_count_none(s: Seq<bool>)
    requires
        forall|i: int| 0 <= i < s.len() ==> !s[i],
    ensures
        count_true(s) == 0,
    decreases s.len(),
{
    if s.len() > 0 {
        lemma_count_none(s.drop_last());
    }
}

/// The numbers below `n`.
pub fn full_set(n: usize) -> (all: BitSet<u32>)
    ensures
        forall|x: usize| members(all).contains(x) <==> x < n,
{
    let mut all = set_new();
    let mut x: usize = 0;
    while x < n
        invariant
            x <= n,
            forall|y: usize| members(all).contains(y) <==> y < x,
        decreases n - x,
    {
        set_insert(&mut all, x);
        x += 1;
    }
    all
}

/// The markers that can be passed on the way to the states `gamma`, in
/// the order in which a search against the marker edges meets them: the
/// search goes on from the smallest state that waits, and takes the edges
/// into a state in their stored order.
pub fn expected_markers(automaton: &Automaton, gamma: &BitSet<u32>) -> (e: Vec<usize>)
    requires
        automaton.wf(),
        forall|g: usize| members(*gamma).contains(g) ==> g < automaton@.nb_states,
    ensures
        e@ == expected(automaton.back_adj(), members(*gamma)),
        is_expected(automaton.back_adj(), members(*gamma), e@),
        forall|i: int| 0 <= i < e@.len() ==> e@[i] < 2 * automaton@.nb_vars,
{
    let rev = automaton.get_rev_assignations();
    let ghost rv = labelled_view(rev);
    let ghost g = members(*gamma);
    proof {
        automaton.lemma_wf();
    }
    proof {
        assert(members(*gamma) =~= within(g, rv.len()));
    }
    let mut visited = set_clone(gamma);
    let mut pending = set_clone(gamma);
    let mut known = set_new();
    let mut e: Vec<usize> = Vec::new();
    let n = rev.len();
    let mut rounds: usize = n;
    let mut cur = set_first(&pending);
    while rounds > 0 && cur.is_some()
        invariant
            rv == labelled_view(rev),
            rv == automaton.back_adj(),
            automaton.wf(),
            rounds <= rev@.len(),
            n == rev@.len(),
            rv.len() == rev@.len(),
            automaton@.nb_states == rev@.len(),
            expected(rv, g) == search(rv, members(visited), members(pending), e@, rounds as nat),
            forall|x: usize| members(pending).contains(x) ==> x < rev@.len(),
            forall|x: usize| members(visited).contains(x) ==> x < rev@.len(),
            forall|m: usize| members(known).contains(m) <==> e@.contains(m),
            forall|i: int| 0 <= i < e@.len() ==> e@[i] < 2 * automaton@.nb_vars,
            match cur {
                Some(x) => is_least(members(pending), x),
                None => members(pending) == Set::<usize>::empty(),
            },
        decreases rounds,
    {
        let u = match cur {
            Some(x) => x,
            None => 0,
        };
        let ghost visited0 = members(visited);
        let ghost pending0 = members(pending);
        let ghost seen0 = e@;
        proof {
            lemma_least(pending0, u);
            assert(least(pending0) == u);
            assert(pending0 != Set::<usize>::empty());
        }
        set_remove(&mut pending, u);
        let d = rev[u].len();
        let ghost edges = rv[u as int];
        let mut j: usize = 0;
        while j < d
            invariant
                j <= d,
                u < rev@.len(),
                d == edges.len(),
                edges == rv[u as int],
                n == rev@.len(),
                rv.len() == rev@.len(),
                automaton@.nb_states == rev@.len(),
                rv == labelled_view(rev),
                rv == automaton.back_adj(),
                automaton.wf(),
                e@ == noted(edges.take(j as int), seen0),
                members(visited) == visited0.union(origins(edges.take(j as int))),
                members(pending) == pending0.remove(u).union(origins(edges.take(j as int)).difference(visited0)),
                forall|x: usize| visited0.contains(x) ==> x < rev@.len(),
                forall|x: usize| pending0.contains(x) ==> x < rev@.len(),
                forall|m: usize| members(known).contains(m) <==> e@.contains(m),
                forall|i: int| 0 <= i < e@.len() ==> e@[i] < 2 * automaton@.nb_vars,
            decreases d - j,
        {
            let (label, source) = rev[u][j];
            let ghost before = edges.take(j as int);
            let ghost after = edges.take(j + 1);
            let ghost seen1 = e@;
            proof {
                automaton.lemma_wf();
                assert(rv[u as int][j as int] == (label, source));
                assert(rv[u as int][j as int].1 < automaton@.nb_states);
                assert(source < n);
                assert(after.drop_last() =~= before);
                assert(after.last() == (label, source));
                assert(noted(after, seen0) == push_new(seen1, label));
                assert(origins(after) =~= origins(before).insert(source)) by {
                    assert forall|p: usize| origins(after).contains(p) <==> origins(before).contains(p) || p
                        == source by {
                        if origins(after).contains(p) {
                            let i = choose|i: int| 0 <= i < after.len() && (#[trigger] after[i]).1 == p;
                            if i < j {
                                assert(before[i].1 == p);
                            }
                        }
                        if origins(before).contains(p) {
                            let i = choose|i: int| 0 <= i < before.len() && (#[trigger] before[i]).1 == p;
                            assert(after[i].1 == p);
                        }
                        if p == source {
                            assert(after[j as int].1 == p);
                        }
                    }
                }
            }
            if !set_contains(&known, label) {
                e.push(label);
                set_insert(&mut known, label);
                proof {
                    assert(e@ == seen1.push(label));
                    assert forall|m: usize| members(known).contains(m) <==> e@.contains(m) by {
                        if seen1.contains(m) {
                            let k = choose|k: int| 0 <= k < seen1.len() && seen1[k] == m;
                            assert(e@[k] == m);
                        }
                        if m == label {
                            assert(e@[seen1.len() as int] == m);
                        }
                        if e@.contains(m) {
                            let k = choose|k: int| 0 <= k < e@.len() && e@[k] == m;
                            if k < seen1.len() {
                                assert(seen1[k] == m);
                            }
                        }
                    }
                }
            }
            if !set_contains(&visited, source) {
                set_insert(&mut visited, source);
                set_insert(&mut pending, source);
            }
            proof {
                assert(members(visited) =~= visited0.union(origins(after)));
                assert(members(pending) =~= pending0.remove(u).union(origins(after).difference(visited0)));
            }
            j += 1;
        }
        proof {
            automaton.lemma_wf();
            assert(edges.take(d as int) =~= edges);
            let fresh = origins(edges).difference(visited0);
            assert(members(visited) =~= visited0.union(fresh));
            assert(members(pending) =~= pending0.remove(u).union(fresh));
            assert forall|x: usize| members(visited).contains(x) implies x < rev@.len() by {
                if !visited0.contains(x) {
                    let i = choose|i: int| 0 <= i < edges.len() && (#[trigger] edges[i]).1 == x;
                    assert(rv[u as int][i].1 < automaton@.nb_states);
                }
            }
            assert(search(rv, visited0, pending0, seen0, rounds as nat) == search(
                rv,
                visited0.union(fresh),
                pending0.remove(u).union(fresh),
                noted(edges, seen0),
                (rounds - 1) as nat,
            ));
        }
        rounds -= 1;
        cur = set_first(&pending);
    }
    proof {
        lemma_expected(rv, g);
    }
    e
}

} // verus!
