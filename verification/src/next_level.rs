//! The choices at one level: which markers are passed between a set of
//! states and the states that the level was entered by.

use crate::automaton::{labelled_view, Automaton};
use crate::bits::{
    members, set_clone, set_contains, set_insert, set_is_empty, set_new, set_remove, set_to_vec,
};
use crate::follow::{back_ok, follow_sp_sm};
use crate::expected::{is_expected, passable};
use crate::walks::{
    avoids, count_in, follows, is_back_walk, labels_distinct, lemma_avoids_insert, lemma_count_all,
    lemma_count_covers, lemma_count_insert, lemma_passes_all, lemma_walk_take, no_repeat, walk_end, walk_labels,
};
use bit_set::BitSet;
use vstd::prelude::*;

verus! {

/// The markers among the first `depth` of `e` that are not in `chosen`.
pub open spec fn left_out(e: Seq<usize>, depth: int, chosen: Seq<usize>) -> Set<usize> {
    Set::new(|m: usize| e.take(depth).contains(m) && !chosen.contains(m))
}

/// The states of `mask` from which a walk leads to `gamma` that passes
/// every marker of `chosen` and none of the other markers among the first
/// `depth` of `e`.
pub open spec fn node_set(
    rev: Seq<Seq<(usize, usize)>>,
    gamma: Set<usize>,
    mask: Set<usize>,
    e: Seq<usize>,
    depth: int,
    chosen: Seq<usize>,
) -> Set<usize> {
    Set::new(
        |v: usize|
            mask.contains(v) && follows(rev, gamma, chosen.to_set(), left_out(e, depth, chosen), chosen.len(), v),
    )
}

/// The choices that pass the markers `chosen` and no other among the first
/// `depth` of `e`: first those that pass none of the markers that follow,
/// last those that pass them all. A choice is a list of markers with the
/// states from which they are passed; a choice without states is left out.
pub open spec fn subtree(
    rev: Seq<Seq<(usize, usize)>>,
    gamma: Set<usize>,
    mask: Set<usize>,
    e: Seq<usize>,
    depth: int,
    chosen: Seq<usize>,
) -> Seq<(Seq<usize>, Set<usize>)>
    decreases e.len() - depth,
{
    let here = node_set(rev, gamma, mask, e, depth, chosen);
    if here == Set::<usize>::empty() {
        Seq::empty()
    } else if depth >= e.len() {
        seq![(chosen, here)]
    } else {
        subtree(rev, gamma, mask, e, depth + 1, chosen) + subtree(
            rev,
            gamma,
            mask,
            e,
            depth + 1,
            chosen.push(e[depth]),
        )
    }
}

/// The states of `mask` with a marker edge for `m` to a state of `gamma`.
pub open spec fn via(rev: Seq<Seq<(usize, usize)>>, gamma: Set<usize>, mask: Set<usize>, m: usize) -> Set<usize> {
    Set::new(
        |p: usize|
            mask.contains(p) && exists|g: usize|
                gamma.contains(g) && g < rev.len() && #[trigger] rev[g as int].contains((m, p)),
    )
}

/// All the choices for the markers `e`, in the order in which they are
/// handed out. Without markers there is the one choice of passing none; with
/// one marker there are two, passing none and passing it on one edge.
pub open spec fn choices(
    rev: Seq<Seq<(usize, usize)>>,
    gamma: Set<usize>,
    mask: Set<usize>,
    e: Seq<usize>,
) -> Seq<(Seq<usize>, Set<usize>)> {
    if e.len() == 0 {
        seq![(Seq::<usize>::empty(), gamma)]
    } else if e.len() == 1 {
        seq![(Seq::<usize>::empty(), gamma), (seq![e[0]], via(rev, gamma, mask, e[0]))]
    } else {
        subtree(rev, gamma, mask, e, 0, Seq::<usize>::empty())
    }
}

/// The choices that wait on a stack of pairs of a depth and chosen
/// markers, last pair first.
pub open spec fn stack_out(
    rev: Seq<Seq<(usize, usize)>>,
    gamma: Set<usize>,
    mask: Set<usize>,
    e: Seq<usize>,
    frames: Seq<(int, Seq<usize>)>,
) -> Seq<(Seq<usize>, Set<usize>)>
    decreases frames.len(),
{
    if frames.len() == 0 {
        Seq::empty()
    } else {
        subtree(rev, gamma, mask, e, frames.last().0, frames.last().1) + stack_out(
            rev,
            gamma,
            mask,
            e,
            frames.drop_last(),
        )
    }
}

/// `chosen` is made of markers among the first `depth` of `e`.
pub open spec fn chosen_ok(e: Seq<usize>, depth: int, chosen: Seq<usize>) -> bool {
    &&& 0 <= depth <= e.len()
    &&& forall|x: usize| chosen.contains(x) ==> e.take(depth).contains(x)
}

/// What deciding on the next marker does to the sets.
pub proof fn lemma_decide(e: Seq<usize>, depth: int, chosen: Seq<usize>)
    requires
        e.no_duplicates(),
        chosen_ok(e, depth, chosen),
        depth < e.len(),
    ensures
        !chosen.contains(e[depth]),
        !left_out(e, depth, chosen).contains(e[depth]),
        left_out(e, depth + 1, chosen) == left_out(e, depth, chosen).insert(e[depth]),
        left_out(e, depth + 1, chosen.push(e[depth])) == left_out(e, depth, chosen),
        chosen.push(e[depth]).to_set() == chosen.to_set().insert(e[depth]),
        chosen_ok(e, depth + 1, chosen),
        chosen_ok(e, depth + 1, chosen.push(e[depth])),
{
    let m = e[depth];
    let longer = chosen.push(m);
    assert(!e.take(depth).contains(m)) by {
        let short = e.take(depth);
        if short.contains(m) {
            let i = choose|i: int| 0 <= i < short.len() && short[i] == m;
            assert(e[i] == e[depth]);
        }
    }
    let short = e.take(depth);
    let long = e.take(depth + 1);
    assert forall|x: usize| long.contains(x) <==> short.contains(x) || x == m by {
        if short.contains(x) {
            let i = choose|i: int| 0 <= i < short.len() && short[i] == x;
            assert(long[i] == x);
        }
        if x == m {
            assert(long[depth] == m);
        }
        if long.contains(x) {
            let i = choose|i: int| 0 <= i < long.len() && long[i] == x;
            if i < depth {
                assert(short[i] == x);
            }
        }
    }
    assert forall|x: usize| longer.contains(x) <==> chosen.contains(x) || x == m by {
        if chosen.contains(x) {
            let i = choose|i: int| 0 <= i < chosen.len() && chosen[i] == x;
            assert(longer[i] == x);
        }
        if x == m {
            assert(longer[chosen.len() as int] == m);
        }
        if longer.contains(x) {
            let i = choose|i: int| 0 <= i < longer.len() && longer[i] == x;
            if i < chosen.len() {
                assert(chosen[i] == x);
            }
        }
    }
    assert(left_out(e, depth + 1, chosen) =~= left_out(e, depth, chosen).insert(m));
    assert(left_out(e, depth + 1, longer) =~= left_out(e, depth, chosen));
    assert(longer.to_set() =~= chosen.to_set().insert(m));
}

/// Where some state passes the chosen markers, but none does so without
/// the next marker, some state passes the chosen markers and the next.
pub proof fn lemma_forced(
    rev: Seq<Seq<(usize, usize)>>,
    gamma: Set<usize>,
    mask: Set<usize>,
    e: Seq<usize>,
    depth: int,
    chosen: Seq<usize>,
)
    requires
        e.no_duplicates(),
        chosen_ok(e, depth, chosen),
        depth < e.len(),
        node_set(rev, gamma, mask, e, depth, chosen) != Set::<usize>::empty(),
        node_set(rev, gamma, mask, e, depth + 1, chosen) == Set::<usize>::empty(),
    ensures
        node_set(rev, gamma, mask, e, depth + 1, chosen.push(e[depth])) != Set::<usize>::empty(),
{
    let m = e[depth];
    let here = node_set(rev, gamma, mask, e, depth, chosen);
    let sp = chosen.to_set();
    let sm = left_out(e, depth, chosen);
    lemma_decide(e, depth, chosen);
    assert(exists|v: usize| here.contains(v)) by {
        if forall|v: usize| !here.contains(v) {
            assert(here =~= Set::<usize>::empty());
        }
    }
    let v = choose|v: usize| here.contains(v);
    let (g, walk) = choose|g: usize, walk: Seq<(usize, usize)>|
        gamma.contains(g) && #[trigger] is_back_walk(rev, g, walk) && walk_end(g, walk) == v && avoids(walk, sm)
            && count_in(walk, sp) >= chosen.len();
    lemma_avoids_insert(walk, sm, m);
    if avoids(walk, set![m]) {
        assert(follows(rev, gamma, sp, sm.insert(m), chosen.len(), v));
        assert(node_set(rev, gamma, mask, e, depth + 1, chosen).contains(v));
        assert(false);
    }
    lemma_count_insert(walk, sp, m);
    let longer = chosen.push(m);
    assert(gamma.contains(g) && is_back_walk(rev, g, walk) && walk_end(g, walk) == v && avoids(walk, sm)
        && count_in(walk, sp.insert(m)) >= longer.len());
    assert(follows(rev, gamma, longer.to_set(), left_out(e, depth + 1, longer), longer.len(), v));
    assert(node_set(rev, gamma, mask, e, depth + 1, longer).contains(v));
}

/// Every choice below a node names states of `mask` only.
pub proof fn lemma_subtree_within(
    rev: Seq<Seq<(usize, usize)>>,
    gamma: Set<usize>,
    mask: Set<usize>,
    e: Seq<usize>,
    depth: int,
    chosen: Seq<usize>,
    i: int,
)
    requires
        0 <= i < subtree(rev, gamma, mask, e, depth, chosen).len(),
    ensures
        subtree(rev, gamma, mask, e, depth, chosen)[i].1.subset_of(mask),
    decreases e.len() - depth,
{
    let here = node_set(rev, gamma, mask, e, depth, chosen);
    if here == Set::<usize>::empty() {
    } else if depth >= e.len() {
    } else {
        let left = subtree(rev, gamma, mask, e, depth + 1, chosen);
        let right = subtree(rev, gamma, mask, e, depth + 1, chosen.push(e[depth]));
        if i < left.len() {
            lemma_subtree_within(rev, gamma, mask, e, depth + 1, chosen, i);
        } else {
            lemma_subtree_within(rev, gamma, mask, e, depth + 1, chosen.push(e[depth]), i - left.len());
        }
    }
}

/// Every choice for states of `mask` names states of `mask` only.
pub proof fn lemma_choices_within(
    rev: Seq<Seq<(usize, usize)>>,
    gamma: Set<usize>,
    mask: Set<usize>,
    e: Seq<usize>,
    i: int,
)
    requires
        gamma.subset_of(mask),
        0 <= i < choices(rev, gamma, mask, e).len(),
    ensures
        choices(rev, gamma, mask, e)[i].1.subset_of(mask),
{
    if e.len() >= 2 {
        lemma_subtree_within(rev, gamma, mask, e, 0, Seq::<usize>::empty(), i);
    }
}

/// A walk leads from `v` along marker edges to a state of `gamma`, and the
/// markers that it passes are those of `labels`.
pub open spec fn passes(rev: Seq<Seq<(usize, usize)>>, gamma: Set<usize>, labels: Set<usize>, v: usize) -> bool {
    exists|g: usize, walk: Seq<(usize, usize)>|
        gamma.contains(g) && #[trigger] is_back_walk(rev, g, walk) && walk_end(g, walk) == v && walk_labels(walk)
            == labels
}

/// Every choice below a node decides on all the markers: it is the list
/// of the chosen markers, which has those of the node at its start, with
/// the states of the node of that list.
pub proof fn lemma_subtree_leaf(
    rev: Seq<Seq<(usize, usize)>>,
    gamma: Set<usize>,
    mask: Set<usize>,
    e: Seq<usize>,
    depth: int,
    chosen: Seq<usize>,
    i: int,
) -> (full: Seq<usize>)
    requires
        e.no_duplicates(),
        chosen_ok(e, depth, chosen),
        chosen.no_duplicates(),
        0 <= i < subtree(rev, gamma, mask, e, depth, chosen).len(),
    ensures
        subtree(rev, gamma, mask, e, depth, chosen)[i] == (full, node_set(rev, gamma, mask, e, e.len() as int, full)),
        node_set(rev, gamma, mask, e, e.len() as int, full) != Set::<usize>::empty(),
        chosen_ok(e, e.len() as int, full),
        full.no_duplicates(),
        chosen.len() <= full.len(),
        full.take(chosen.len() as int) == chosen,
        forall|k: int| chosen.len() <= k < full.len() ==> !e.take(depth).contains(#[trigger] full[k]),
    decreases e.len() - depth,
{
    let here = node_set(rev, gamma, mask, e, depth, chosen);
    if depth >= e.len() {
        assert(chosen.take(chosen.len() as int) =~= chosen);
        chosen
    } else {
        lemma_decide(e, depth, chosen);
        let left = subtree(rev, gamma, mask, e, depth + 1, chosen);
        let longer = chosen.push(e[depth]);
        let short = e.take(depth);
        let long = e.take(depth + 1);
        assert forall|x: usize| short.contains(x) implies long.contains(x) by {
            let k = choose|k: int| 0 <= k < short.len() && short[k] == x;
            assert(long[k] == x);
        }
        if i < left.len() {
            let full = lemma_subtree_leaf(rev, gamma, mask, e, depth + 1, chosen, i);
            full
        } else {
            assert(longer.no_duplicates()) by {
                assert forall|a: int, b: int| 0 <= a < longer.len() && 0 <= b < longer.len() && a != b implies longer[a]
                    != longer[b] by {
                    if a < chosen.len() && b < chosen.len() {
                        assert(longer[a] == chosen[a] && longer[b] == chosen[b]);
                    } else if a < chosen.len() {
                        assert(chosen.contains(chosen[a]));
                    } else {
                        assert(chosen.contains(chosen[b]));
                    }
                }
            }
            let full = lemma_subtree_leaf(rev, gamma, mask, e, depth + 1, longer, i - left.len());
            assert(full.take(chosen.len() as int) =~= chosen) by {
                assert(full.take(longer.len() as int) == longer);
                assert forall|k: int| 0 <= k < chosen.len() implies full[k] == chosen[k] by {
                    assert(full.take(longer.len() as int)[k] == longer[k]);
                }
            }
            assert forall|k: int| chosen.len() <= k < full.len() implies !short.contains(#[trigger] full[k]) by {
                if k == chosen.len() {
                    assert(full.take(longer.len() as int)[k] == longer[k]);
                    assert(full[k] == e[depth]);
                } else {
                    assert(!long.contains(full[k]));
                }
            }
            full
        }
    }
}

/// Every state of a choice passes exactly the markers of the choice on a
/// walk to `gamma`, provided that no walk passes a marker twice and that
/// `e` lists the markers that can be passed.
pub proof fn lemma_choice_sound(
    rev: Seq<Seq<(usize, usize)>>,
    gamma: Set<usize>,
    mask: Set<usize>,
    e: Seq<usize>,
    i: int,
    v: usize,
)
    requires
        no_repeat(rev),
        is_expected(rev, gamma, e),
        0 <= i < choices(rev, gamma, mask, e).len(),
        choices(rev, gamma, mask, e)[i].1.contains(v),
    ensures
        passes(rev, gamma, choices(rev, gamma, mask, e)[i].0.to_set(), v),
{
    let c = choices(rev, gamma, mask, e)[i];
    let none = Seq::<(usize, usize)>::empty();
    if e.len() <= 1 && i == 0 {
        assert(c.0.to_set() =~= Set::<usize>::empty());
        assert(walk_labels(none) =~= Set::<usize>::empty());
        assert(gamma.contains(v) && is_back_walk(rev, v, none) && walk_end(v, none) == v);
    } else if e.len() == 1 {
        let m = e[0];
        let g = choose|g: usize| gamma.contains(g) && g < rev.len() && #[trigger] rev[g as int].contains((m, v));
        let walk = seq![(m, v)];
        assert(walk.drop_last() =~= none);
        assert(is_back_walk(rev, g, none));
        assert(walk_end(g, walk.drop_last()) == g);
        assert(walk.last() == (m, v));
        assert(is_back_walk(rev, g, walk));
        assert(walk_labels(walk) =~= seq![m].to_set()) by {
            assert(walk[0].0 == m);
            assert(seq![m][0] == m);
        }
        assert(c.0 == seq![m]);
    } else {
        let start = Seq::<usize>::empty();
        let full = lemma_subtree_leaf(rev, gamma, mask, e, 0, start, i);
        let sp = full.to_set();
        let sm = left_out(e, e.len() as int, full);
        let (g, walk) = choose|g: usize, walk: Seq<(usize, usize)>|
            gamma.contains(g) && #[trigger] is_back_walk(rev, g, walk) && walk_end(g, walk) == v && avoids(walk, sm)
                && count_in(walk, sp) >= full.len();
        assert(e.take(e.len() as int) =~= e);
        assert forall|k: int| 0 <= k < walk.len() implies full.contains((#[trigger] walk[k]).0) by {
            lemma_walk_take(rev, g, walk, k);
            let u = walk_end(g, walk.take(k));
            let empty = Set::<usize>::empty();
            assert(avoids(walk.take(k), empty));
            assert(gamma.contains(g) && is_back_walk(rev, g, walk.take(k)) && walk_end(g, walk.take(k)) == u && avoids(
                walk.take(k),
                empty,
            ) && count_in(walk.take(k), empty) >= 0);
            assert(follows(rev, gamma, empty, empty, 0, u));
            assert(rev[u as int].contains((walk[k].0, walk[k].1)));
            assert(passable(rev, gamma, walk[k].0));
            assert(e.contains(walk[k].0));
            assert(!sm.contains(walk[k].0));
        }
        assert forall|k: int| 0 <= k < walk.len() implies sp.contains((#[trigger] walk[k]).0) by {
            assert(full.contains(walk[k].0));
        }
        lemma_count_all(walk, sp);
        assert(labels_distinct(walk));
        lemma_passes_all(walk, full);
    }
}

/// Two choices below a node differ in their markers.
pub proof fn lemma_subtree_distinct(
    rev: Seq<Seq<(usize, usize)>>,
    gamma: Set<usize>,
    mask: Set<usize>,
    e: Seq<usize>,
    depth: int,
    chosen: Seq<usize>,
    i1: int,
    i2: int,
)
    requires
        e.no_duplicates(),
        chosen_ok(e, depth, chosen),
        chosen.no_duplicates(),
        0 <= i1 < i2 < subtree(rev, gamma, mask, e, depth, chosen).len(),
    ensures
        subtree(rev, gamma, mask, e, depth, chosen)[i1].0.to_set() != subtree(
            rev,
            gamma,
            mask,
            e,
            depth,
            chosen,
        )[i2].0.to_set(),
    decreases e.len() - depth,
{
    let here = node_set(rev, gamma, mask, e, depth, chosen);
    if depth < e.len() && here != Set::<usize>::empty() {
        lemma_decide(e, depth, chosen);
        let m = e[depth];
        let left = subtree(rev, gamma, mask, e, depth + 1, chosen);
        let longer = chosen.push(m);
        let right = subtree(rev, gamma, mask, e, depth + 1, longer);
        assert(longer.no_duplicates()) by {
            assert forall|a: int, b: int| 0 <= a < longer.len() && 0 <= b < longer.len() && a != b implies longer[a]
                != longer[b] by {
                if a < chosen.len() && b < chosen.len() {
                    assert(longer[a] == chosen[a] && longer[b] == chosen[b]);
                } else if a < chosen.len() {
                    assert(chosen.contains(chosen[a]));
                } else {
                    assert(chosen.contains(chosen[b]));
                }
            }
        }
        if i2 < left.len() {
            lemma_subtree_distinct(rev, gamma, mask, e, depth + 1, chosen, i1, i2);
        } else if i1 >= left.len() {
            lemma_subtree_distinct(rev, gamma, mask, e, depth + 1, longer, i1 - left.len(), i2 - left.len());
        } else {
            let full1 = lemma_subtree_leaf(rev, gamma, mask, e, depth + 1, chosen, i1);
            let full2 = lemma_subtree_leaf(rev, gamma, mask, e, depth + 1, longer, i2 - left.len());
            assert(full2.take(longer.len() as int)[chosen.len() as int] == m);
            assert(full2[chosen.len() as int] == m);
            assert(full2.contains(m));
            assert(!full1.contains(m)) by {
                if full1.contains(m) {
                    let k = choose|k: int| 0 <= k < full1.len() && full1[k] == m;
                    if k < chosen.len() {
                        assert(full1.take(chosen.len() as int)[k] == chosen[k]);
                        assert(chosen.contains(m));
                    } else {
                        assert(!e.take(depth + 1).contains(full1[k]));
                        assert(e.take(depth + 1)[depth] == m);
                    }
                }
            }
            assert(full2.to_set().contains(m) && !full1.to_set().contains(m));
        }
    }
}

/// Two choices differ in their markers.
pub proof fn lemma_choices_distinct(
    rev: Seq<Seq<(usize, usize)>>,
    gamma: Set<usize>,
    mask: Set<usize>,
    e: Seq<usize>,
    i1: int,
    i2: int,
)
    requires
        e.no_duplicates(),
        0 <= i1 < i2 < choices(rev, gamma, mask, e).len(),
    ensures
        choices(rev, gamma, mask, e)[i1].0.to_set() != choices(rev, gamma, mask, e)[i2].0.to_set(),
{
    if e.len() == 1 {
        let one = seq![e[0]];
        assert(one[0] == e[0]);
        assert(one.to_set().contains(e[0]));
        assert(!Seq::<usize>::empty().to_set().contains(e[0]));
    } else if e.len() >= 2 {
        lemma_subtree_distinct(rev, gamma, mask, e, 0, Seq::<usize>::empty(), i1, i2);
    }
}

/// Every marker that a walk to `gamma` passes is a passable marker.
pub proof fn lemma_labels_passable(
    rev: Seq<Seq<(usize, usize)>>,
    gamma: Set<usize>,
    g: usize,
    walk: Seq<(usize, usize)>,
    k: int,
)
    requires
        gamma.contains(g),
        is_back_walk(rev, g, walk),
        0 <= k < walk.len(),
    ensures
        passable(rev, gamma, walk[k].0),
{
    lemma_walk_take(rev, g, walk, k);
    let u = walk_end(g, walk.take(k));
    let empty = Set::<usize>::empty();
    assert(avoids(walk.take(k), empty));
    assert(gamma.contains(g) && is_back_walk(rev, g, walk.take(k)) && walk_end(g, walk.take(k)) == u && avoids(
        walk.take(k),
        empty,
    ) && count_in(walk.take(k), empty) >= 0);
    assert(follows(rev, gamma, empty, empty, 0, u));
    assert(rev[u as int].contains((walk[k].0, walk[k].1)));
}

/// Below a node whose chosen markers are those of `labels` among the
/// markers decided so far, the choice of exactly the markers `labels` is
/// found, and it names every state of `mask` that passes them.
pub proof fn lemma_subtree_find(
    rev: Seq<Seq<(usize, usize)>>,
    gamma: Set<usize>,
    mask: Set<usize>,
    e: Seq<usize>,
    depth: int,
    chosen: Seq<usize>,
    labels: Set<usize>,
    v: usize,
) -> (i: int)
    requires
        e.no_duplicates(),
        chosen_ok(e, depth, chosen),
        chosen.no_duplicates(),
        forall|m: usize| chosen.contains(m) <==> labels.contains(m) && e.take(depth).contains(m),
        forall|m: usize| labels.contains(m) ==> e.contains(m),
        mask.contains(v),
        passes(rev, gamma, labels, v),
    ensures
        0 <= i < subtree(rev, gamma, mask, e, depth, chosen).len(),
        subtree(rev, gamma, mask, e, depth, chosen)[i].0.to_set() == labels,
        subtree(rev, gamma, mask, e, depth, chosen)[i].1.contains(v),
    decreases e.len() - depth,
{
    let (g, walk) = choose|g: usize, walk: Seq<(usize, usize)>|
        gamma.contains(g) && #[trigger] is_back_walk(rev, g, walk) && walk_end(g, walk) == v && walk_labels(walk)
            == labels;
    let here = node_set(rev, gamma, mask, e, depth, chosen);
    let sm = left_out(e, depth, chosen);
    assert(avoids(walk, sm)) by {
        assert forall|k: int| 0 <= k < walk.len() implies !sm.contains((#[trigger] walk[k]).0) by {
            assert(labels.contains(walk[k].0));
        }
    }
    assert forall|k: int| 0 <= k < chosen.len() implies walk_labels(walk).contains(#[trigger] chosen[k]) by {
        assert(chosen.contains(chosen[k]));
    }
    lemma_count_covers(walk, chosen);
    assert(follows(rev, gamma, chosen.to_set(), sm, chosen.len(), v));
    assert(here.contains(v));
    if depth >= e.len() {
        assert(e.take(depth) =~= e);
        assert(chosen.to_set() =~= labels);
        0
    } else {
        lemma_decide(e, depth, chosen);
        let m = e[depth];
        let left = subtree(rev, gamma, mask, e, depth + 1, chosen);
        let longer = chosen.push(m);
        let right = subtree(rev, gamma, mask, e, depth + 1, longer);
        let short = e.take(depth);
        let long = e.take(depth + 1);
        assert forall|x: usize| long.contains(x) <==> short.contains(x) || x == m by {
            if short.contains(x) {
                let k = choose|k: int| 0 <= k < short.len() && short[k] == x;
                assert(long[k] == x);
            }
            if x == m {
                assert(long[depth] == m);
            }
            if long.contains(x) {
                let k = choose|k: int| 0 <= k < long.len() && long[k] == x;
                if k < depth {
                    assert(short[k] == x);
                }
            }
        }
        if labels.contains(m) {
            assert forall|x: usize| longer.contains(x) <==> chosen.contains(x) || x == m by {
                if chosen.contains(x) {
                    let k = choose|k: int| 0 <= k < chosen.len() && chosen[k] == x;
                    assert(longer[k] == x);
                }
                if x == m {
                    assert(longer[chosen.len() as int] == m);
                }
                if longer.contains(x) {
                    let k = choose|k: int| 0 <= k < longer.len() && longer[k] == x;
                    if k < chosen.len() {
                        assert(chosen[k] == x);
                    }
                }
            }
            assert(longer.no_duplicates()) by {
                assert forall|a: int, b: int| 0 <= a < longer.len() && 0 <= b < longer.len() && a != b implies longer[a]
                    != longer[b] by {
                    if a < chosen.len() && b < chosen.len() {
                        assert(longer[a] == chosen[a] && longer[b] == chosen[b]);
                    } else if a < chosen.len() {
                        assert(chosen.contains(chosen[a]));
                    } else {
                        assert(chosen.contains(chosen[b]));
                    }
                }
            }
            let i2 = lemma_subtree_find(rev, gamma, mask, e, depth + 1, longer, labels, v);
            assert((left + right)[left.len() + i2] == right[i2]);
            left.len() + i2
        } else {
            let i2 = lemma_subtree_find(rev, gamma, mask, e, depth + 1, chosen, labels, v);
            assert((left + right)[i2] == left[i2]);
            i2
        }
    }
}

/// The choice of exactly the markers `labels` is among the choices, and it
/// names every state of `mask` that passes them on a walk to `gamma`,
/// provided that no walk passes a marker twice and that `e` lists the
/// markers that can be passed.
pub proof fn lemma_choice_complete(
    rev: Seq<Seq<(usize, usize)>>,
    gamma: Set<usize>,
    mask: Set<usize>,
    e: Seq<usize>,
    labels: Set<usize>,
    v: usize,
) -> (i: int)
    requires
        no_repeat(rev),
        is_expected(rev, gamma, e),
        gamma.subset_of(mask),
        mask.contains(v),
        passes(rev, gamma, labels, v),
    ensures
        0 <= i < choices(rev, gamma, mask, e).len(),
        choices(rev, gamma, mask, e)[i].0.to_set() == labels,
        choices(rev, gamma, mask, e)[i].1.contains(v),
{
    let (g, walk) = choose|g: usize, walk: Seq<(usize, usize)>|
        gamma.contains(g) && #[trigger] is_back_walk(rev, g, walk) && walk_end(g, walk) == v && walk_labels(walk)
            == labels;
    assert forall|m: usize| labels.contains(m) implies e.contains(m) by {
        let k = choose|k: int| 0 <= k < walk.len() && (#[trigger] walk[k]).0 == m;
        lemma_labels_passable(rev, gamma, g, walk, k);
    }
    let none = Seq::<usize>::empty();
    if walk.len() == 0 {
        assert(labels =~= Set::<usize>::empty());
    }
    if e.len() == 0 {
        if walk.len() > 0 {
            assert(labels.contains(walk[0].0));
            assert(e.contains(walk[0].0));
        }
        assert(none.to_set() =~= labels);
        0
    } else if e.len() == 1 {
        let m = e[0];
        if walk.len() == 0 {
            assert(none.to_set() =~= labels);
            0
        } else {
            assert forall|k: int| 0 <= k < walk.len() implies (#[trigger] walk[k]).0 == m by {
                assert(labels.contains(walk[k].0));
                assert(e.contains(walk[k].0));
            }
            assert(labels_distinct(walk));
            if walk.len() >= 2 {
                assert(walk[0].0 != walk[1].0);
            }
            assert(walk.len() == 1);
            assert(walk.drop_last().len() == 0);
            assert(walk_end(g, walk.drop_last()) == g);
            assert(walk.last() == (m, v));
            assert(rev[g as int].contains((m, v)));
            assert(via(rev, gamma, mask, m).contains(v));
            assert(seq![m].to_set() =~= labels) by {
                assert(seq![m][0] == m);
                assert(labels.contains(walk[0].0));
            }
            1
        }
    } else {
        assert(e.take(0) =~= Seq::<usize>::empty());
        lemma_subtree_find(rev, gamma, mask, e, 0, none, labels, v)
    }
}

/// The states of `mask` with a marker edge for `marker` to a state of
/// `gamma`.
pub fn preds_via(
    rev: &Vec<Vec<(usize, usize)>>,
    gamma: &BitSet<u32>,
    mask: &BitSet<u32>,
    marker: usize,
) -> (found: BitSet<u32>)
    requires
        back_ok(labelled_view(rev)),
    ensures
        members(found) == via(labelled_view(rev), members(*gamma), members(*mask), marker),
{
    let ghost rv = labelled_view(rev);
    let ghost g = members(*gamma);
    let ghost mk = members(*mask);
    let sources = set_to_vec(gamma);
    let n = rev.len();
    let mut found = set_new();
    let mut i: usize = 0;
    while i < sources.len()
        invariant
            i <= sources@.len(),
            n == rv.len(),
            rv == labelled_view(rev),
            g == members(*gamma),
            mk == members(*mask),
            back_ok(rv),
            forall|x: usize| sources@.contains(x) <==> g.contains(x),
            forall|p: usize| members(found).contains(p) ==> via(rv, g, mk, marker).contains(p),
            forall|k: int, p: usize|
                0 <= k < i && mk.contains(p) && sources@[k] < rv.len() && #[trigger] rv[sources@[k] as int].contains(
                    (marker, p),
                ) ==> members(found).contains(p),
        decreases sources@.len() - i,
    {
        let source = sources[i];
        assert(sources@.contains(source));
        if source < rev.len() {
            let m = rev[source].len();
            let mut j: usize = 0;
            while j < m
                invariant
                    j <= m,
                    n == rv.len(),
                    source < rev@.len(),
                    m == rv[source as int].len(),
                    rv == labelled_view(rev),
                    g == members(*gamma),
                    mk == members(*mask),
                    back_ok(rv),
                    g.contains(source),
                    forall|p: usize| members(found).contains(p) ==> via(rv, g, mk, marker).contains(p),
                    forall|k: int, p: usize|
                        0 <= k < i && mk.contains(p) && sources@[k] < rv.len()
                            && #[trigger] rv[sources@[k] as int].contains((marker, p)) ==> members(found).contains(p),
                    forall|b: int|
                        0 <= b < j && mk.contains((#[trigger] rv[source as int][b]).1) && rv[source as int][b].0
                            == marker ==> members(found).contains(rv[source as int][b].1),
                decreases m - j,
            {
                let (label, target) = rev[source][j];
                assert(rv[source as int][j as int] == (label, target));
                if label == marker && set_contains(mask, target) {
                    assert(rv[source as int].contains((marker, target)));
                    assert(target < rv.len());
                    set_insert(&mut found, target);
                }
                j += 1;
            }
            proof {
                assert forall|p: usize|
                    mk.contains(p) && #[trigger] rv[source as int].contains((marker, p)) implies members(
                    found,
                ).contains(p) by {
                    let b = choose|b: int| 0 <= b < rv[source as int].len() && rv[source as int][b] == (marker, p);
                    assert(rv[source as int][b].1 == p);
                }
            }
        }
        i += 1;
    }
    proof {
        assert forall|p: usize| via(rv, g, mk, marker).contains(p) implies members(found).contains(p) by {
            let x = choose|x: usize| g.contains(x) && x < rv.len() && #[trigger] rv[x as int].contains((marker, p));
            let k = choose|k: int| 0 <= k < sources@.len() && sources@[k] == x;
            assert(rv[sources@[k] as int].contains((marker, p)));
        }
        assert(members(found) =~= via(rv, g, mk, marker));
    }
    found
}

/// A copy of `v`.
pub fn copy_of(v: &Vec<usize>) -> (copy: Vec<usize>)
    ensures
        copy@ == v@,
{
    let mut copy: Vec<usize> = Vec::new();
    let mut i: usize = 0;
    while i < v.len()
        invariant
            i <= v@.len(),
            copy@ == v@.take(i as int),
        decreases v@.len() - i,
    {
        copy.push(v[i]);
        proof {
            assert(v@.take(i + 1) =~= v@.take(i as int).push(v@[i as int]));
        }
        i += 1;
    }
    proof {
        assert(v@.take(v@.len() as int) =~= v@);
    }
    copy
}

/// A branch that waits to be explored: the markers chosen so far, the sets
/// of the chosen and of the refused markers, and how many markers are
/// decided.
pub struct Frame {
    s_p: BitSet<u32>,
    s_m: BitSet<u32>,
    markers: Vec<usize>,
    depth: usize,
}

/// The depth and the chosen markers of each frame.
pub open spec fn frames_view(stack: Seq<Frame>) -> Seq<(int, Seq<usize>)> {
    Seq::new(stack.len(), |i: int| (stack[i].spec_depth() as int, stack[i].spec_markers()))
}

impl Frame {
    /// How many of the expected markers are decided.
    pub closed spec fn spec_depth(&self) -> usize {
        self.depth
    }

    /// The markers chosen so far.
    pub closed spec fn spec_markers(&self) -> Seq<usize> {
        self.markers@
    }

    /// The two sets are those of the chosen and of the refused markers.
    pub closed spec fn ok(&self, e: Seq<usize>) -> bool {
        &&& chosen_ok(e, self.depth as int, self.markers@)
        &&& members(self.s_p) == self.markers@.to_set()
        &&& members(self.s_m) == left_out(e, self.depth as int, self.markers@)
    }
}

/// Hands out, one by one, the choices at a level: the sets of markers that
/// are passed on the way to the states `gamma`, each with the states of the
/// level from which they are passed.
pub struct NextLevelIterator<'a> {
    automaton: &'a Automaton,
    /// The markers that can be passed at all.
    expected_markers: Vec<usize>,
    /// The states that the walks lead to.
    gamma: BitSet<u32>,
    /// The states of the level.
    mask: BitSet<u32>,
    /// The branches that wait.
    stack: Vec<Frame>,
    /// Nothing is left.
    done: bool,
    /// With a single marker: the choice of passing it is left.
    almost_done: bool,
}

impl<'a> NextLevelIterator<'a> {
    /// What holds of the representation: the stack fits the markers that
    /// are expected.
    pub closed spec fn wf(&self) -> bool {
        &&& self.automaton.wf()
        &&& self.expected_markers@.no_duplicates()
        &&& forall|i: int| 0 <= i < self.expected_markers@.len() ==> self.expected_markers@[i] < usize::MAX
        &&& forall|g: usize| members(self.gamma).contains(g) ==> g < self.automaton@.nb_states
        &&& (self.almost_done && !self.done ==> self.expected_markers@.len() == 1)
        &&& forall|i: int| 0 <= i < self.stack@.len() ==> (#[trigger] self.stack@[i]).ok(self.expected_markers@)
    }

    /// The choices that are still to come, next first.
    pub closed spec fn remaining(&self) -> Seq<(Seq<usize>, Set<usize>)> {
        let rev = self.automaton.back_adj();
        let gamma = members(self.gamma);
        let mask = members(self.mask);
        let e = self.expected_markers@;
        if self.done {
            Seq::empty()
        } else if self.almost_done {
            seq![(seq![e[0]], via(rev, gamma, mask, e[0]))]
        } else if e.len() <= 1 {
            choices(rev, gamma, mask, e)
        } else {
            stack_out(rev, gamma, mask, e, frames_view(self.stack@))
        }
    }

    /// An iterator that hands out nothing.
    pub fn empty(automaton: &'a Automaton) -> (it: NextLevelIterator<'a>)
        requires
            automaton.wf(),
        ensures
            it.wf(),
            it.remaining().len() == 0,
    {
        NextLevelIterator {
            automaton,
            expected_markers: Vec::new(),
            gamma: set_new(),
            mask: set_new(),
            stack: Vec::new(),
            done: true,
            almost_done: true,
        }
    }

    /// The iterator over the choices for the states `gamma` of the level
    /// `mask`, where `expected_markers` lists the markers that can be
    /// passed.
    pub fn explore(
        automaton: &'a Automaton,
        expected_markers: Vec<usize>,
        gamma: BitSet<u32>,
        mask: BitSet<u32>,
    ) -> (it: NextLevelIterator<'a>)
        requires
            automaton.wf(),
            expected_markers@.no_duplicates(),
            forall|i: int| 0 <= i < expected_markers@.len() ==> expected_markers@[i] < usize::MAX,
            forall|g: usize| members(gamma).contains(g) ==> g < automaton@.nb_states,
        ensures
            it.wf(),
            it.remaining() == choices(automaton.back_adj(), members(gamma), members(mask), expected_markers@),
    {
        let mut stack: Vec<Frame> = Vec::new();
        stack.push(Frame { s_p: set_new(), s_m: set_new(), markers: Vec::new(), depth: 0 });
        let it = NextLevelIterator {
            automaton,
            expected_markers,
            gamma,
            mask,
            stack,
            done: false,
            almost_done: false,
        };
        proof {
            let e = it.expected_markers@;
            let none = Seq::<usize>::empty();
            assert(none.to_set() =~= Set::<usize>::empty());
            assert(left_out(e, 0, none) =~= Set::<usize>::empty());
            assert(it.stack@[0].ok(e));
            let frames = frames_view(it.stack@);
            assert(frames.len() == 1);
            assert(frames.last() == (0int, none));
            assert(frames.drop_last() =~= Seq::<(int, Seq<usize>)>::empty());
            let rev = automaton.back_adj();
            let first = subtree(rev, members(it.gamma), members(it.mask), e, 0, none);
            assert(stack_out(rev, members(it.gamma), members(it.mask), e, frames) =~= first) by {
                assert(stack_out(rev, members(it.gamma), members(it.mask), e, frames.drop_last())
                    =~= Seq::<(Seq<usize>, Set<usize>)>::empty());
            }
        }
        it
    }

    /// The next choice: the markers that are passed, in the order of the
    /// expected markers, and the states from which they are passed; `None`
    /// when every choice has been handed out.
    pub fn next(&mut self) -> (r: Option<(Vec<usize>, BitSet<u32>)>)
        requires
            old(self).wf(),
        ensures
            final(self).wf(),
            match r {
                Some(choice) => {
                    &&& old(self).remaining().len() > 0
                    &&& old(self).remaining()[0] == (choice.0@, members(choice.1))
                    &&& final(self).remaining() == old(self).remaining().drop_first()
                },
                None => old(self).remaining().len() == 0 && final(self).remaining().len() == 0,
            },
    {
        if self.done {
            return None;
        }
        let automaton: &'a Automaton = self.automaton;
        let rev = automaton.get_rev_assignations();
        let ghost rv = labelled_view(rev);
        let ghost g = members(self.gamma);
        let ghost mk = members(self.mask);
        let ghost e = self.expected_markers@;
        let ghost before = old(self).remaining();
        proof {
            automaton.lemma_wf();
        }
        if self.almost_done {
            let marker = self.expected_markers[0];
            let mut markers: Vec<usize> = Vec::new();
            markers.push(marker);
            let gamma2 = preds_via(rev, &self.gamma, &self.mask, marker);
            self.done = true;
            proof {
                assert(markers@ =~= seq![e[0]]);
                assert(before.drop_first() =~= Seq::<(Seq<usize>, Set<usize>)>::empty());
            }
            return Some((markers, gamma2));
        }
        if self.expected_markers.len() <= 1 {
            self.almost_done = true;
            if self.expected_markers.len() == 0 {
                self.done = true;
            }
            let markers: Vec<usize> = Vec::new();
            let gamma2 = set_clone(&self.gamma);
            proof {
                assert(markers@ =~= Seq::<usize>::empty());
                if e.len() == 0 {
                    assert(before.drop_first() =~= Seq::<(Seq<usize>, Set<usize>)>::empty());
                } else {
                    assert(before.drop_first() =~= seq![(seq![e[0]], via(rv, g, mk, e[0]))]);
                }
            }
            return Some((markers, gamma2));
        }
        while self.stack.len() > 0
            invariant
                self.wf(),
                self.automaton == automaton,
                automaton.wf(),
                rv == labelled_view(rev),
                rv == automaton.back_adj(),
                rv.len() == automaton@.nb_states,
                back_ok(rv),
                g == members(self.gamma),
                mk == members(self.mask),
                e == self.expected_markers@,
                e.len() >= 2,
                !self.done,
                !self.almost_done,
                before == old(self).remaining(),
                before == stack_out(rv, g, mk, e, frames_view(self.stack@)),
            decreases self.stack@.len(),
        {
            let ghost frames_a = frames_view(self.stack@);
            let ghost stack_a = self.stack@;
            let frame = self.stack.pop().unwrap();
            let Frame { s_p, s_m, markers, depth } = frame;
            let mut s_p = s_p;
            let mut s_m = s_m;
            let mut markers = markers;
            let mut depth = depth;
            proof {
                assert(stack_a[stack_a.len() - 1].ok(e));
                assert(frames_a.last() == (depth as int, markers@));
                assert(frames_view(self.stack@) =~= frames_a.drop_last());
                assert forall|i: int| 0 <= i < self.stack@.len() implies (#[trigger] self.stack@[i]).ok(e) by {
                    assert(self.stack@[i] == stack_a[i]);
                }
            }
            let mut gamma2 = follow_sp_sm(rev, &self.gamma, &s_p, &s_m, markers.len(), &self.mask);
            proof {
                assert(members(gamma2) =~= node_set(rv, g, mk, e, depth as int, markers@));
            }
            if !set_is_empty(&gamma2) {
                while depth < self.expected_markers.len()
                    invariant
                        self.wf(),
                        self.automaton == automaton,
                        automaton.wf(),
                        rv == labelled_view(rev),
                        rv == automaton.back_adj(),
                        rv.len() == automaton@.nb_states,
                        back_ok(rv),
                        g == members(self.gamma),
                        mk == members(self.mask),
                        e == self.expected_markers@,
                        e.len() >= 2,
                        !self.done,
                        !self.almost_done,
                        before == old(self).remaining(),
                        chosen_ok(e, depth as int, markers@),
                        members(s_p) == markers@.to_set(),
                        members(s_m) == left_out(e, depth as int, markers@),
                        members(gamma2) == node_set(rv, g, mk, e, depth as int, markers@),
                        members(gamma2) != Set::<usize>::empty(),
                        before == subtree(rv, g, mk, e, depth as int, markers@) + stack_out(
                            rv,
                            g,
                            mk,
                            e,
                            frames_view(self.stack@),
                        ),
                    decreases e.len() - depth,
                {
                    let marker = self.expected_markers[depth];
                    let ghost chosen = markers@;
                    let ghost frames_b = frames_view(self.stack@);
                    let ghost stack_b = self.stack@;
                    proof {
                        lemma_decide(e, depth as int, chosen);
                    }
                    set_insert(&mut s_m, marker);
                    let trial = follow_sp_sm(rev, &self.gamma, &s_p, &s_m, markers.len(), &self.mask);
                    proof {
                        assert(members(trial) =~= node_set(rv, g, mk, e, depth + 1, chosen));
                    }
                    if !set_is_empty(&trial) {
                        let mut new_s_p = set_clone(&s_p);
                        set_insert(&mut new_s_p, marker);
                        let mut new_s_m = set_clone(&s_m);
                        set_remove(&mut new_s_m, marker);
                        let mut new_markers = copy_of(&markers);
                        new_markers.push(marker);
                        let sibling = Frame { s_p: new_s_p, s_m: new_s_m, markers: new_markers, depth: depth + 1 };
                        proof {
                            assert(members(sibling.s_m) =~= left_out(e, depth as int, chosen));
                            assert(sibling.ok(e));
                        }
                        self.stack.push(sibling);
                        gamma2 = trial;
                        proof {
                            let frames_c = frames_view(self.stack@);
                            assert(frames_c.last() == (depth + 1, chosen.push(marker)));
                            assert(frames_c.drop_last() =~= frames_b);
                            assert forall|i: int| 0 <= i < self.stack@.len() implies (#[trigger] self.stack@[i]).ok(
                                e,
                            ) by {
                                if i < stack_b.len() {
                                    assert(self.stack@[i] == stack_b[i]);
                                }
                            }
                            let left = subtree(rv, g, mk, e, depth + 1, chosen);
                            let right = subtree(rv, g, mk, e, depth + 1, chosen.push(marker));
                            let rest = stack_out(rv, g, mk, e, frames_b);
                            assert(subtree(rv, g, mk, e, depth as int, chosen) == left + right);
                            assert(stack_out(rv, g, mk, e, frames_c) == right + rest);
                            assert((left + right) + rest =~= left + (right + rest));
                        }
                    } else {
                        proof {
                            lemma_forced(rv, g, mk, e, depth as int, chosen);
                        }
                        set_remove(&mut s_m, marker);
                        set_insert(&mut s_p, marker);
                        markers.push(marker);
                        gamma2 = follow_sp_sm(rev, &self.gamma, &s_p, &s_m, markers.len(), &self.mask);
                        proof {
                            assert(members(s_m) =~= left_out(e, depth + 1, markers@));
                            assert(members(gamma2) =~= node_set(rv, g, mk, e, depth + 1, markers@));
                            let left = subtree(rv, g, mk, e, depth + 1, chosen);
                            let right = subtree(rv, g, mk, e, depth + 1, chosen.push(marker));
                            assert(subtree(rv, g, mk, e, depth as int, chosen) == left + right);
                            assert(left =~= Seq::<(Seq<usize>, Set<usize>)>::empty());
                            assert(left + right =~= right);
                        }
                    }
                    depth += 1;
                }
                proof {
                    let leaf = subtree(rv, g, mk, e, depth as int, markers@);
                    assert(leaf =~= seq![(markers@, members(gamma2))]);
                    let rest = stack_out(rv, g, mk, e, frames_view(self.stack@));
                    assert(before =~= leaf + rest);
                    assert(before.drop_first() =~= rest);
                    assert(before[0] == (markers@, members(gamma2)));
                    assert(self.remaining() == rest);
                }
                return Some((markers, gamma2));
            } else {
                proof {
                    let dead = subtree(rv, g, mk, e, depth as int, markers@);
                    assert(dead =~= Seq::<(Seq<usize>, Set<usize>)>::empty());
                    let rest = stack_out(rv, g, mk, e, frames_view(self.stack@));
                    assert(stack_out(rv, g, mk, e, frames_a) == dead + rest);
                    assert(dead + rest =~= rest);
                }
            }
        }
        proof {
            assert(frames_view(self.stack@).len() == 0);
        }
        None
    }
}

} // verus!
