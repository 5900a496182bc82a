//! The runs of an automaton on a text, and the matches that they stand for.

use crate::automaton::{is_back_adj, is_char_adj, AutomatonView};
use crate::enumerate::{all_matches, choices_at, jump_level_of, jump_set_of, level_set, pending, stamp};
use crate::expected::{expected, is_expected, lemma_expected, passable};
use crate::graph::{connected, lemma_connected_same_level, lemma_connected_split};
use crate::indexed_dag::IndexedDag;
use crate::jump::Jump;
use crate::next_level::{choices, lemma_choice_sound, passes};
use crate::walks::{is_back_walk, no_repeat, walk_end, walk_labels};
use vstd::prelude::*;

verus! {

/// What a run does at one level: it enters the level in the state in which
/// `walk` ends, passes the markers of `walk`, against which the walk runs,
/// and leaves the level from the state `exit`.
pub struct Leg {
    pub exit: usize,
    pub walk: Seq<(usize, usize)>,
}

/// The state in which a run enters the level of `leg`.
pub open spec fn leg_entry(leg: Leg) -> usize {
    walk_end(leg.exit, leg.walk)
}

/// The markers `labels`, each with the position `pos`.
pub open spec fn pairs_at(labels: Set<usize>, pos: usize) -> Set<(usize, usize)> {
    Set::new(|pr: (usize, usize)| labels.contains(pr.0) && pr.1 == pos)
}

/// `legs` is the rest of an accepting run that leaves level `level` from
/// the state `from`: one leg for each level above, each entered by an edge
/// that reads the character between the two levels, the last one left from
/// a final state. Without legs, `level` is the last level and `from` is
/// final.
pub open spec fn suffix_ok(
    a: AutomatonView,
    rev: Seq<Seq<(usize, usize)>>,
    text: Seq<char>,
    level: int,
    from: usize,
    legs: Seq<Leg>,
) -> bool
    decreases legs.len(),
{
    if legs.len() == 0 {
        level == text.len() && a.finals.contains(from)
    } else {
        &&& 0 <= level < text.len()
        &&& is_back_walk(rev, legs[0].exit, legs[0].walk)
        &&& a.char_step(from, text[level], leg_entry(legs[0]))
        &&& suffix_ok(a, rev, text, level + 1, legs[0].exit, legs.drop_first())
    }
}

/// The markers that the legs above `level` pass, each with the position of
/// its level.
pub open spec fn suffix_pairs(legs: Seq<Leg>, level: int, positions: Seq<usize>) -> Set<(usize, usize)>
    decreases legs.len(),
{
    if legs.len() == 0 {
        Set::empty()
    } else {
        pairs_at(walk_labels(legs[0].walk), positions[level + 1]).union(
            suffix_pairs(legs.drop_first(), level + 1, positions),
        )
    }
}

/// Some accepting run of the automaton on the text passes exactly the
/// markers of `m`, each at the position that comes with it: the run enters
/// the first level in the initial state, passes markers, reads the first
/// character, passes markers, and so on, and ends in a final state.
pub open spec fn is_match_of(
    a: AutomatonView,
    rev: Seq<Seq<(usize, usize)>>,
    text: Seq<char>,
    positions: Seq<usize>,
    m: Set<(usize, usize)>,
) -> bool {
    exists|g: usize, walk: Seq<(usize, usize)>, legs: Seq<Leg>| #[trigger]
        suffix_ok(a, rev, text, 0, g, legs) && #[trigger] is_back_walk(rev, g, walk) && walk_end(g, walk)
            == a.initial && m == pairs_at(walk_labels(walk), positions[0]).union(suffix_pairs(legs, 0, positions))
}

/// Some rest of an accepting run leaves `level` from `g` and passes
/// exactly the markers of `partial`.
pub open spec fn has_suffix(
    a: AutomatonView,
    rev: Seq<Seq<(usize, usize)>>,
    text: Seq<char>,
    positions: Seq<usize>,
    level: int,
    g: usize,
    partial: Set<(usize, usize)>,
) -> bool {
    exists|legs: Seq<Leg>| #[trigger] suffix_ok(a, rev, text, level, g, legs) && suffix_pairs(legs, level, positions)
        == partial
}

/// The markers of a list with those of a choice added are the set of the
/// one and the markers of the other at the position.
pub proof fn lemma_extended_set(partial: Seq<(usize, usize)>, markers: Seq<usize>, pos: usize)
    ensures
        (partial + stamp(markers, pos)).to_set() == partial.to_set().union(pairs_at(markers.to_set(), pos)),
{
    let added = stamp(markers, pos);
    let all = partial + added;
    assert forall|pr: (usize, usize)| all.to_set().contains(pr) <==> partial.to_set().union(
        pairs_at(markers.to_set(), pos),
    ).contains(pr) by {
        if all.contains(pr) {
            let i = choose|i: int| 0 <= i < all.len() && all[i] == pr;
            if i < partial.len() {
                assert(partial[i] == pr);
                assert(partial.contains(pr));
            } else {
                assert(added[i - partial.len()] == pr);
                assert(markers[i - partial.len()] == pr.0);
                assert(markers.contains(pr.0));
            }
        }
        if partial.contains(pr) {
            let i = choose|i: int| 0 <= i < partial.len() && partial[i] == pr;
            assert(all[i] == pr);
        }
        if markers.contains(pr.0) && pr.1 == pos {
            let i = choose|i: int| 0 <= i < markers.len() && markers[i] == pr.0;
            assert(added[i] == pr);
            assert(all[partial.len() + i] == pr);
        }
    }
    assert(all.to_set() =~= partial.to_set().union(pairs_at(markers.to_set(), pos)));
}

/// The rest of a run that leaves a level from `x` goes on below: where a
/// climb leads from `p` to `x`, a rest of a run leaves the level of `p`
/// from `p`, and it passes the same markers.
pub proof fn lemma_climb_suffix(
    a: AutomatonView,
    rev: Seq<Seq<(usize, usize)>>,
    text: Seq<char>,
    j: &Jump,
    positions: Seq<usize>,
    to: int,
    p: usize,
    l: int,
    x: usize,
    legs: Seq<Leg>,
) -> (below: Seq<Leg>)
    requires
        0 <= to <= l <= text.len(),
        l < j.levels().len(),
        l < j.steps().len(),
        forall|i: int| 1 <= i <= text.len() ==> is_char_adj(a, text[i - 1], #[trigger] j.steps()[i]),
        connected(j.levels(), j.steps(), to, p, l, x),
        suffix_ok(a, rev, text, l, x, legs),
    ensures
        suffix_ok(a, rev, text, to, p, below),
        suffix_pairs(below, to, positions) == suffix_pairs(legs, l, positions),
    decreases l - to,
{
    if l == to {
        lemma_connected_same_level(j.levels(), j.steps(), to, p, x);
        legs
    } else {
        let r = lemma_connected_split(j.levels(), j.steps(), to, p, l, x);
        assert(is_char_adj(a, text[l - 1], j.steps()[l]));
        assert(a.char_step(r, text[l - 1], x));
        let none = Seq::<(usize, usize)>::empty();
        let idle = Leg { exit: x, walk: none };
        let longer = seq![idle] + legs;
        assert(longer[0] == idle);
        assert(longer.drop_first() =~= legs);
        assert(is_back_walk(rev, x, none));
        assert(suffix_ok(a, rev, text, l - 1, r, longer));
        assert(walk_labels(none) =~= Set::<usize>::empty());
        assert(pairs_at(walk_labels(none), positions[l - 1 + 1]) =~= Set::<(usize, usize)>::empty());
        assert(suffix_pairs(longer, l - 1, positions) =~= suffix_pairs(legs, l, positions));
        lemma_climb_suffix(a, rev, text, j, positions, to, p, l - 1, r, longer)
    }
}

/// The search against the marker edges of an automaton lists the
/// passable markers, each once.
pub proof fn lemma_expected_ok(a: AutomatonView, rev: Seq<Seq<(usize, usize)>>, gamma: Set<usize>)
    requires
        is_back_adj(a, rev),
    ensures
        is_expected(rev, gamma, expected(rev, gamma)),
{
    lemma_expected(rev, gamma);
}

/// Every match that comes from choices at a level stands for an accepting
/// run, where every state of `gamma` has a rest of a run that passes the
/// markers `partial`, and every state of a choice passes the markers of the
/// choice on a walk to `gamma`.
pub proof fn lemma_pending_sound(
    a: AutomatonView,
    rev: Seq<Seq<(usize, usize)>>,
    text: Seq<char>,
    j: &Jump,
    positions: Seq<usize>,
    level: int,
    gamma: Set<usize>,
    partial: Seq<(usize, usize)>,
    cs: Seq<(Seq<usize>, Set<usize>)>,
    k: int,
)
    requires
        no_repeat(rev),
        is_back_adj(a, rev),
        2 * a.nb_vars <= usize::MAX,
        j.levels().len() == text.len() + 1,
        j.steps().len() == text.len() + 1,
        forall|i: int| 1 <= i <= text.len() ==> is_char_adj(a, text[i - 1], #[trigger] j.steps()[i]),
        0 <= level <= text.len(),
        forall|g: usize| gamma.contains(g) ==> has_suffix(a, rev, text, positions, level, g, partial.to_set()),
        forall|i: int, v: usize|
            0 <= i < cs.len() && #[trigger] cs[i].1.contains(v) ==> passes(rev, gamma, cs[i].0.to_set(), v),
        0 <= k < pending(rev, j, positions, a.initial, level, partial, cs).len(),
    ensures
        is_match_of(a, rev, text, positions, pending(rev, j, positions, a.initial, level, partial, cs)[k].to_set()),
    decreases level, cs.len(),
{
    let c = cs[0];
    let rest_cs = cs.drop_first();
    let rest = pending(rev, j, positions, a.initial, level, partial, rest_cs);
    let extended = partial + stamp(c.0, positions[level]);
    assert forall|i: int, v: usize| 0 <= i < rest_cs.len() && #[trigger] rest_cs[i].1.contains(v) implies passes(
        rev,
        gamma,
        rest_cs[i].0.to_set(),
        v,
    ) by {
        assert(rest_cs[i] == cs[i + 1]);
    }
    lemma_extended_set(partial, c.0, positions[level]);
    if c.1 == Set::<usize>::empty() {
        lemma_pending_sound(a, rev, text, j, positions, level, gamma, partial, rest_cs, k);
    } else if level <= 0 {
        if c.1.contains(a.initial) {
            if k == 0 {
                assert(passes(rev, gamma, c.0.to_set(), a.initial));
                let (g, walk) = choose|g: usize, walk: Seq<(usize, usize)>|
                    gamma.contains(g) && #[trigger] is_back_walk(rev, g, walk) && walk_end(g, walk) == a.initial
                        && walk_labels(walk) == c.0.to_set();
                assert(has_suffix(a, rev, text, positions, level, g, partial.to_set()));
                let legs = choose|legs: Seq<Leg>| #[trigger]
                    suffix_ok(a, rev, text, level, g, legs) && suffix_pairs(legs, level, positions)
                        == partial.to_set();
                assert(extended.to_set() =~= pairs_at(walk_labels(walk), positions[0]).union(
                    suffix_pairs(legs, 0, positions),
                ));
                assert(suffix_ok(a, rev, text, 0, g, legs) && is_back_walk(rev, g, walk));
            } else {
                lemma_pending_sound(a, rev, text, j, positions, level, gamma, partial, rest_cs, k - 1);
            }
        } else {
            lemma_pending_sound(a, rev, text, j, positions, level, gamma, partial, rest_cs, k);
        }
    } else {
        let to = jump_level_of(j, level, c.1) as int;
        if to < level {
            if k < rest.len() {
                lemma_pending_sound(a, rev, text, j, positions, level, gamma, partial, rest_cs, k);
            } else {
                let below = jump_set_of(j, level, c.1);
                let next_cs = choices_at(rev, j, to, below);
                assert forall|p: usize| below.contains(p) implies has_suffix(
                    a,
                    rev,
                    text,
                    positions,
                    to,
                    p,
                    extended.to_set(),
                ) by {
                    let v = choose|v: usize| c.1.contains(v) && #[trigger] connected(
                        j.levels(),
                        j.steps(),
                        to,
                        p,
                        level,
                        v,
                    );
                    assert(passes(rev, gamma, c.0.to_set(), v));
                    let (g, walk) = choose|g: usize, walk: Seq<(usize, usize)>|
                        gamma.contains(g) && #[trigger] is_back_walk(rev, g, walk) && walk_end(g, walk) == v
                            && walk_labels(walk) == c.0.to_set();
                    assert(has_suffix(a, rev, text, positions, level, g, partial.to_set()));
                    let legs = choose|legs: Seq<Leg>| #[trigger]
                        suffix_ok(a, rev, text, level, g, legs) && suffix_pairs(legs, level, positions)
                            == partial.to_set();
                    let r = lemma_connected_split(j.levels(), j.steps(), to, p, level, v);
                    assert(is_char_adj(a, text[level - 1], j.steps()[level]));
                    assert(a.char_step(r, text[level - 1], v));
                    let leg = Leg { exit: g, walk };
                    let longer = seq![leg] + legs;
                    assert(longer[0] == leg);
                    assert(longer.drop_first() =~= legs);
                    assert(suffix_ok(a, rev, text, level - 1, r, longer));
                    assert(suffix_pairs(longer, level - 1, positions) =~= extended.to_set());
                    let lower = lemma_climb_suffix(a, rev, text, j, positions, to, p, level - 1, r, longer);
                    assert(suffix_ok(a, rev, text, to, p, lower));
                }
                lemma_expected_ok(a, rev, below);
                assert forall|i: int, v: usize|
                    0 <= i < next_cs.len() && #[trigger] next_cs[i].1.contains(v) implies passes(
                    rev,
                    below,
                    next_cs[i].0.to_set(),
                    v,
                ) by {
                    lemma_choice_sound(rev, below, level_set(j, to), expected(rev, below), i, v);
                }
                lemma_pending_sound(a, rev, text, j, positions, to, below, extended, next_cs, k - rest.len());
            }
        } else {
            lemma_pending_sound(a, rev, text, j, positions, level, gamma, partial, rest_cs, k);
        }
    }
}

/// The enumeration is sound: every match that is handed out stands for
/// an accepting run of the automaton on the text.
pub proof fn lemma_matches_sound(dag: &IndexedDag, k: int)
    requires
        dag.wf(),
        0 <= k < all_matches(dag).len(),
    ensures
        is_match_of(
            dag.spec_automaton()@,
            dag.spec_automaton().back_adj(),
            dag.spec_text(),
            dag.spec_positions(),
            all_matches(dag)[k].to_set(),
        ),
{
    let a = dag.spec_automaton()@;
    let rev = dag.spec_automaton().back_adj();
    let text = dag.spec_text();
    let positions = dag.spec_positions();
    let j = dag.index()->0;
    dag.spec_automaton().lemma_wf();
    let last = j.levels().len() - 1;
    let gamma = level_set(&j, last).intersect(a.finals);
    let none = Seq::<(usize, usize)>::empty();
    let cs = choices_at(rev, &j, last, gamma);
    assert forall|g: usize| gamma.contains(g) implies has_suffix(a, rev, text, positions, last, g, none.to_set()) by {
        let legs = Seq::<Leg>::empty();
        assert(suffix_ok(a, rev, text, last, g, legs));
        assert(suffix_pairs(legs, last, positions) =~= none.to_set());
    }
    lemma_expected_ok(a, rev, gamma);
    assert forall|i: int, v: usize| 0 <= i < cs.len() && #[trigger] cs[i].1.contains(v) implies passes(
        rev,
        gamma,
        cs[i].0.to_set(),
        v,
    ) by {
        lemma_choice_sound(rev, gamma, level_set(&j, last), expected(rev, gamma), i, v);
    }
    lemma_pending_sound(a, rev, text, &j, positions, last, gamma, none, cs, k);
}

} // verus!
