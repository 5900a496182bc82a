//! Every accepting run is found: the enumeration hands out the match that
//! the run stands for.

use crate::alike::lemma_jump_below;
use crate::automaton::{
    is_back_adj, is_char_adj, is_silent_adj, lemma_back_walk_reaches, leads_by_char, AutomatonView,
};
use crate::enumerate::{all_matches, choices_at, jump_level_of, jump_set_of, level_set, pending, stamp};
use crate::expected::expected;
use crate::graph::{
    connected, has_edge, lemma_connected_extend, lemma_connected_same_level, lemma_edge_then_reaches,
    lemma_reaches_cases, lemma_reaches_self, reaches,
};
use crate::indexed_dag::IndexedDag;
use crate::jump::{climbs_into, Jump};
use crate::layers::entered_by;
use crate::next_level::{lemma_choice_complete, lemma_choices_within, passes};
use crate::product::{in_forward, in_kept, leads_on, level_empty};
use crate::runs::{
    is_match_of, leg_entry, lemma_expected_ok, lemma_extended_set, pairs_at, suffix_ok, suffix_pairs, Leg,
};
use crate::strategy::TrimmingStrategy;
use crate::tables::candidate;
use crate::walks::{is_back_walk, lemma_walk_sub, lemma_walk_take, no_repeat, walk_end, walk_labels};
use vstd::prelude::*;

verus! {

/// `run` is an accepting run of the automaton on the text, one leg for each
/// level: the first leg is entered in the initial state, each further leg
/// is entered by an edge that reads the character before its level from
/// the state from which the leg before it is left, and the last leg is left
/// from a final state.
pub open spec fn run_ok(a: AutomatonView, rev: Seq<Seq<(usize, usize)>>, text: Seq<char>, run: Seq<Leg>) -> bool {
    &&& run.len() == text.len() + 1
    &&& forall|l: int| 0 <= l < run.len() ==> is_back_walk(rev, (#[trigger] run[l]).exit, run[l].walk)
    &&& leg_entry(run[0]) == a.initial
    &&& forall|l: int| 1 <= l < run.len() ==> a.char_step(run[l - 1].exit, text[l - 1], leg_entry(#[trigger] run[l]))
    &&& a.finals.contains(run.last().exit)
}

/// The markers that the legs of the levels up to `l` pass, each with the
/// position of its level.
pub open spec fn pairs_upto(run: Seq<Leg>, positions: Seq<usize>, l: int) -> Set<(usize, usize)>
    decreases l + 1,
{
    if l < 0 {
        Set::empty()
    } else {
        pairs_upto(run, positions, l - 1).union(pairs_at(walk_labels(run[l].walk), positions[l]))
    }
}

/// What the rest of a run is, leg by leg.
pub proof fn lemma_suffix_legs(
    a: AutomatonView,
    rev: Seq<Seq<(usize, usize)>>,
    text: Seq<char>,
    level: int,
    from: usize,
    legs: Seq<Leg>,
)
    requires
        suffix_ok(a, rev, text, level, from, legs),
        0 <= level <= text.len(),
    ensures
        legs.len() == text.len() - level,
        forall|i: int| 0 <= i < legs.len() ==> is_back_walk(rev, (#[trigger] legs[i]).exit, legs[i].walk),
        legs.len() > 0 ==> a.char_step(from, text[level], leg_entry(legs[0])),
        forall|i: int|
            1 <= i < legs.len() ==> a.char_step(legs[i - 1].exit, text[level + i], leg_entry(#[trigger] legs[i])),
        legs.len() > 0 ==> a.finals.contains(legs.last().exit),
        legs.len() == 0 ==> a.finals.contains(from),
    decreases legs.len(),
{
    if legs.len() > 0 {
        let rest = legs.drop_first();
        lemma_suffix_legs(a, rev, text, level + 1, legs[0].exit, rest);
        assert forall|i: int| 0 <= i < legs.len() implies is_back_walk(rev, (#[trigger] legs[i]).exit, legs[i].walk) by {
            if i > 0 {
                assert(legs[i] == rest[i - 1]);
            }
        }
        assert forall|i: int| 1 <= i < legs.len() implies a.char_step(
            legs[i - 1].exit,
            text[level + i],
            leg_entry(#[trigger] legs[i]),
        ) by {
            assert(legs[i] == rest[i - 1]);
            if i == 1 {
                assert(rest.len() > 0);
            } else {
                assert(legs[i - 1] == rest[i - 2]);
                assert(a.char_step(rest[i - 1 - 1].exit, text[level + 1 + (i - 1)], leg_entry(rest[i - 1])));
            }
        }
        if rest.len() > 0 {
            assert(legs.last() == rest.last());
        }
    }
}

/// The markers of the rest of a run are those of its legs, level by level.
pub proof fn lemma_suffix_pairs(run: Seq<Leg>, positions: Seq<usize>, level: int)
    requires
        0 <= level < run.len(),
    ensures
        pairs_upto(run, positions, level).union(suffix_pairs(run.skip(level + 1), level, positions)) == pairs_upto(
            run,
            positions,
            run.len() - 1,
        ),
    decreases run.len() - level,
{
    let rest = run.skip(level + 1);
    if level == run.len() - 1 {
        assert(rest.len() == 0);
        assert(pairs_upto(run, positions, level).union(suffix_pairs(rest, level, positions)) =~= pairs_upto(
            run,
            positions,
            level,
        ));
    } else {
        lemma_suffix_pairs(run, positions, level + 1);
        assert(rest[0] == run[level + 1]);
        assert(rest.drop_first() =~= run.skip(level + 2));
        assert(pairs_upto(run, positions, level).union(suffix_pairs(rest, level, positions)) =~= pairs_upto(
            run,
            positions,
            level + 1,
        ).union(suffix_pairs(run.skip(level + 2), level + 1, positions)));
    }
}

/// Marker edges lead from the state in which the run enters level `l` to
/// `q`, and from `q` to the state from which the run leaves the level.
pub open spec fn on_leg(silent: Seq<Seq<usize>>, run: Seq<Leg>, l: int, q: usize) -> bool {
    reaches(silent, leg_entry(run[l]), q) && reaches(silent, q, run[l].exit)
}

/// The run enters and leaves each level through states of its leg.
pub proof fn lemma_ends_on_leg(
    a: AutomatonView,
    silent: Seq<Seq<usize>>,
    rev: Seq<Seq<(usize, usize)>>,
    text: Seq<char>,
    run: Seq<Leg>,
    l: int,
)
    requires
        is_silent_adj(a, silent),
        is_back_adj(a, rev),
        run_ok(a, rev, text, run),
        0 <= l <= text.len(),
    ensures
        on_leg(silent, run, l, leg_entry(run[l])),
        on_leg(silent, run, l, run[l].exit),
{
    assert(is_back_walk(rev, run[l].exit, run[l].walk));
    lemma_back_walk_reaches(a, silent, rev, run[l].exit, run[l].walk);
    lemma_reaches_self(silent, leg_entry(run[l]));
    lemma_reaches_self(silent, run[l].exit);
}

/// A state of a leg of an accepting run is reached by the characters before
/// its level.
pub proof fn lemma_run_forward(
    a: AutomatonView,
    silent: Seq<Seq<usize>>,
    rev: Seq<Seq<(usize, usize)>>,
    text: Seq<char>,
    run: Seq<Leg>,
    l: int,
    q: usize,
)
    requires
        is_silent_adj(a, silent),
        is_back_adj(a, rev),
        run_ok(a, rev, text, run),
        0 <= l <= text.len(),
        on_leg(silent, run, l, q),
    ensures
        in_forward(a, silent, text, l, q),
    decreases l,
{
    if l > 0 {
        lemma_ends_on_leg(a, silent, rev, text, run, l - 1);
        lemma_run_forward(a, silent, rev, text, run, l - 1, run[l - 1].exit);
        assert(a.char_step(run[l - 1].exit, text[l - 1], leg_entry(run[l])));
        assert(leads_on(a, silent, run[l - 1].exit, text[l - 1], q));
    }
}

/// A state of a leg of an accepting run belongs to its level, however the
/// levels are trimmed.
pub proof fn lemma_run_kept(
    a: AutomatonView,
    silent: Seq<Seq<usize>>,
    rev: Seq<Seq<(usize, usize)>>,
    text: Seq<char>,
    strategy: TrimmingStrategy,
    run: Seq<Leg>,
    l: int,
    q: usize,
)
    requires
        is_silent_adj(a, silent),
        is_back_adj(a, rev),
        run_ok(a, rev, text, run),
        0 <= l <= text.len(),
        on_leg(silent, run, l, q),
    ensures
        in_kept(a, silent, text, strategy, l, q),
    decreases text.len() - l,
{
    lemma_run_forward(a, silent, rev, text, run, l, q);
    if strategy is NoTrimming {
    } else if l >= text.len() {
        assert(run.last() == run[l]);
        assert(a.finals.contains(run[l].exit) && reaches(silent, q, run[l].exit));
    } else {
        lemma_ends_on_leg(a, silent, rev, text, run, l + 1);
        lemma_run_kept(a, silent, rev, text, strategy, run, l + 1, leg_entry(run[l + 1]));
        assert(a.char_step(run[l + 1 - 1].exit, text[l + 1 - 1], leg_entry(run[l + 1])));
        assert(reaches(silent, q, run[l].exit) && a.char_step(run[l].exit, text[l], leg_entry(run[l + 1])));
        assert(leads_by_char(a, silent, q, text[l], leg_entry(run[l + 1])));
    }
}

/// The index `j` holds the trimmed levels of the product of the automaton
/// with the text, all of them, with their tables.
pub open spec fn covers(
    j: &Jump,
    a: AutomatonView,
    silent: Seq<Seq<usize>>,
    rev: Seq<Seq<(usize, usize)>>,
    text: Seq<char>,
    strategy: TrimmingStrategy,
) -> bool {
    &&& j.wf()
    &&& j.marks() == silent
    &&& is_silent_adj(a, silent)
    &&& is_back_adj(a, rev)
    &&& no_repeat(rev)
    &&& 2 * a.nb_vars <= usize::MAX
    &&& j.levels().len() == text.len() + 1
    &&& j.indexed() == text.len()
    &&& forall|l: int, q: usize|
        0 <= l <= text.len() ==> (#[trigger] j.levels()[l].contains(q) <==> in_kept(a, silent, text, strategy, l, q))
    &&& forall|l: int| 1 <= l <= text.len() ==> is_char_adj(a, text[l - 1], #[trigger] j.steps()[l])
}

/// No leg of a level between `lo` and `hi`, both left out, passes a marker.
pub open spec fn idle_between(run: Seq<Leg>, lo: int, hi: int) -> bool {
    forall|x: int| lo < x < hi ==> (#[trigger] run[x]).walk.len() == 0
}

/// The legs that pass no marker add nothing.
pub proof fn lemma_idle_pairs(run: Seq<Leg>, positions: Seq<usize>, lo: int, hi: int)
    requires
        -1 <= lo <= hi,
        idle_between(run, lo, hi + 1),
    ensures
        pairs_upto(run, positions, hi) == pairs_upto(run, positions, lo),
    decreases hi - lo,
{
    if hi > lo {
        lemma_idle_pairs(run, positions, lo, hi - 1);
        assert(run[hi].walk.len() == 0);
        assert(walk_labels(run[hi].walk) =~= Set::<usize>::empty());
        assert(pairs_at(walk_labels(run[hi].walk), positions[hi]) =~= Set::<(usize, usize)>::empty());
        assert(pairs_upto(run, positions, hi) =~= pairs_upto(run, positions, hi - 1));
    }
}

/// The closest level below `level` whose leg passes a marker, or -1.
pub proof fn lemma_last_marked(run: Seq<Leg>, level: int) -> (m: int)
    requires
        0 <= level,
    ensures
        -1 <= m < level,
        m >= 0 ==> run[m].walk.len() > 0,
        idle_between(run, m, level),
    decreases level,
{
    if level == 0 {
        -1
    } else if run[level - 1].walk.len() > 0 {
        level - 1
    } else {
        let m = lemma_last_marked(run, level - 1);
        m
    }
}

/// From the state from which a run leaves a level, a climb leads to the
/// state in which it enters a level above, where the legs in between pass
/// no marker.
pub proof fn lemma_run_climb(
    j: &Jump,
    a: AutomatonView,
    silent: Seq<Seq<usize>>,
    rev: Seq<Seq<(usize, usize)>>,
    text: Seq<char>,
    strategy: TrimmingStrategy,
    run: Seq<Leg>,
    lo: int,
    hi: int,
)
    requires
        covers(j, a, silent, rev, text, strategy),
        run_ok(a, rev, text, run),
        0 <= lo < hi <= text.len(),
        idle_between(run, lo, hi),
    ensures
        connected(j.levels(), j.steps(), lo, run[lo].exit, hi, leg_entry(run[hi])),
    decreases hi - lo,
{
    lemma_ends_on_leg(a, silent, rev, text, run, hi);
    lemma_run_kept(a, silent, rev, text, strategy, run, hi, leg_entry(run[hi]));
    assert(j.levels()[hi].contains(leg_entry(run[hi])));
    assert(a.char_step(run[hi - 1].exit, text[hi - 1], leg_entry(run[hi])));
    assert(is_char_adj(a, text[hi - 1], j.steps()[hi]));
    assert(has_edge(j.steps()[hi], run[hi - 1].exit, leg_entry(run[hi])));
    if hi == lo + 1 {
        lemma_ends_on_leg(a, silent, rev, text, run, lo);
        lemma_run_kept(a, silent, rev, text, strategy, run, lo, run[lo].exit);
        assert(j.levels()[lo].contains(run[lo].exit));
        lemma_connected_same_level(j.levels(), j.steps(), lo, run[lo].exit, run[lo].exit);
        lemma_connected_extend(j.levels(), j.steps(), lo, run[lo].exit, lo, run[lo].exit, leg_entry(run[hi]));
    } else {
        assert(idle_between(run, lo, hi - 1));
        lemma_run_climb(j, a, silent, rev, text, strategy, run, lo, hi - 1);
        assert(run[hi - 1].walk.len() == 0);
        assert(leg_entry(run[hi - 1]) == run[hi - 1].exit);
        lemma_connected_extend(
            j.levels(),
            j.steps(),
            lo,
            run[lo].exit,
            hi - 1,
            run[hi - 1].exit,
            leg_entry(run[hi]),
        );
    }
}

/// The jump level of the state in which a run enters a level is not below
/// the closest level below whose leg passes a marker.
pub proof fn lemma_jl_lower(
    j: &Jump,
    a: AutomatonView,
    silent: Seq<Seq<usize>>,
    rev: Seq<Seq<(usize, usize)>>,
    text: Seq<char>,
    strategy: TrimmingStrategy,
    run: Seq<Leg>,
    m: int,
    l: int,
)
    requires
        covers(j, a, silent, rev, text, strategy),
        run_ok(a, rev, text, run),
        0 <= m < l <= text.len(),
        run[m].walk.len() > 0,
        idle_between(run, m, l),
    ensures
        leg_entry(run[l]) < j.jl_row(l).len(),
        j.jl_row(l)[leg_entry(run[l]) as int] >= m,
    decreases l - m,
{
    let entry = leg_entry(run[l]);
    let p = run[l - 1].exit;
    lemma_ends_on_leg(a, silent, rev, text, run, l);
    lemma_run_kept(a, silent, rev, text, strategy, run, l, entry);
    assert(j.levels()[l].contains(entry));
    lemma_ends_on_leg(a, silent, rev, text, run, l - 1);
    lemma_run_kept(a, silent, rev, text, strategy, run, l - 1, p);
    assert(j.levels()[l - 1].contains(p));
    assert(a.char_step(run[l - 1].exit, text[l - 1], leg_entry(run[l])));
    assert(is_char_adj(a, text[l - 1], j.steps()[l]));
    assert(has_edge(j.steps()[l], p, entry));
    j.lemma_jump_level(l, entry);
    let offer = candidate(l - 1, j.nonjump_at(l - 1), j.jl_row(l - 1), p);
    assert(offer <= j.jl_row(l)[entry as int]);
    if l - 1 == m {
        let walk = run[m].walk;
        let g = run[m].exit;
        assert(is_back_walk(rev, g, walk));
        lemma_walk_take(rev, g, walk, 0);
        assert(walk.take(0) =~= Seq::<(usize, usize)>::empty());
        assert(walk_end(g, walk.take(0)) == g);
        let s = walk[0].1;
        assert(rev[g as int].contains((walk[0].0, s)));
        assert(a.marker_step(s, walk[0].0, g));
        assert(a.silent_step(s, g));
        assert(has_edge(silent, s, g));
        lemma_walk_sub(rev, g, walk, 1, walk.len() as int);
        assert(walk.take(1).last() == walk[0]);
        assert(walk_end(g, walk.take(1)) == s);
        assert(walk.take(walk.len() as int) =~= walk);
        lemma_back_walk_reaches(a, silent, rev, s, walk.subrange(1, walk.len() as int));
        assert(reaches(silent, leg_entry(run[m]), s));
        lemma_reaches_self(silent, g);
        lemma_edge_then_reaches(silent, s, g, g);
        lemma_reaches_cases(silent, s, g);
        assert(on_leg(silent, run, m, s));
        lemma_run_kept(a, silent, rev, text, strategy, run, m, s);
        assert(j.levels()[m].contains(s));
        j.lemma_nonjump(m, g);
        assert(entered_by(j.marks(), j.levels()[m], g));
        assert(j.nonjump_at(m).contains(g));
    } else {
        assert(idle_between(run, m, l - 1));
        lemma_jl_lower(j, a, silent, rev, text, strategy, run, m, l - 1);
        assert(run[l - 1].walk.len() == 0);
        assert(leg_entry(run[l - 1]) == p);
    }
}

/// Among the matches that come from choices at a level, one is the match
/// of the run, where the markers met above with those of the run up to the
/// level make up that match, and one of the choices is what the run does
/// at the level.
pub proof fn lemma_pending_find(
    j: &Jump,
    a: AutomatonView,
    silent: Seq<Seq<usize>>,
    rev: Seq<Seq<(usize, usize)>>,
    text: Seq<char>,
    strategy: TrimmingStrategy,
    positions: Seq<usize>,
    run: Seq<Leg>,
    total: Set<(usize, usize)>,
    level: int,
    partial: Seq<(usize, usize)>,
    cs: Seq<(Seq<usize>, Set<usize>)>,
    at: int,
) -> (k: int)
    requires
        covers(j, a, silent, rev, text, strategy),
        run_ok(a, rev, text, run),
        0 <= level <= text.len(),
        partial.to_set().union(pairs_upto(run, positions, level)) == total,
        forall|i: int| 0 <= i < cs.len() ==> (#[trigger] cs[i]).1.subset_of(level_set(j, level)),
        0 <= at < cs.len(),
        cs[at].0.to_set() == walk_labels(run[level].walk),
        cs[at].1.contains(leg_entry(run[level])),
    ensures
        0 <= k < pending(rev, j, positions, a.initial, level, partial, cs).len(),
        pending(rev, j, positions, a.initial, level, partial, cs)[k].to_set() == total,
    decreases level, cs.len(),
{
    let c = cs[0];
    let rest_cs = cs.drop_first();
    let rest = pending(rev, j, positions, a.initial, level, partial, rest_cs);
    let extended = partial + stamp(c.0, positions[level]);
    let entry = leg_entry(run[level]);
    assert forall|i: int| 0 <= i < rest_cs.len() implies (#[trigger] rest_cs[i]).1.subset_of(level_set(j, level)) by {
        assert(rest_cs[i] == cs[i + 1]);
    }
    if c.1 != Set::<usize>::empty() && level > 0 {
        lemma_jump_below(j, level, c.1);
    }
    if at > 0 {
        assert(rest_cs[at - 1] == cs[at]);
        let k2 = lemma_pending_find(
            j,
            a,
            silent,
            rev,
            text,
            strategy,
            positions,
            run,
            total,
            level,
            partial,
            rest_cs,
            at - 1,
        );
        if c.1 == Set::<usize>::empty() {
            k2
        } else if level <= 0 {
            if c.1.contains(a.initial) {
                assert((seq![extended] + rest)[k2 + 1] == rest[k2]);
                k2 + 1
            } else {
                k2
            }
        } else {
            let to = jump_level_of(j, level, c.1) as int;
            let child = pending(rev, j, positions, a.initial, to, extended, choices_at(rev, j, to, jump_set_of(j, level, c.1)));
            assert((rest + child)[k2] == rest[k2]);
            k2
        }
    } else {
        lemma_extended_set(partial, c.0, positions[level]);
        if level <= 0 {
            assert(pairs_upto(run, positions, -1) =~= Set::<(usize, usize)>::empty());
            assert(extended.to_set() =~= total);
            assert((seq![extended] + rest)[0] == extended);
            0
        } else {
            let to = jump_level_of(j, level, c.1) as int;
            let below = jump_set_of(j, level, c.1);
            let next_cs = choices_at(rev, j, to, below);
            let child = pending(rev, j, positions, a.initial, to, extended, next_cs);
            let m = lemma_last_marked(run, level);
            if m >= 0 {
                lemma_jl_lower(j, a, silent, rev, text, strategy, run, m, level);
                assert(j.jl_row(level)[entry as int] <= to);
            }
            assert(idle_between(run, to, level));
            lemma_run_climb(j, a, silent, rev, text, strategy, run, to, level);
            lemma_ends_on_leg(a, silent, rev, text, run, to);
            lemma_run_kept(a, silent, rev, text, strategy, run, to, run[to].exit);
            lemma_run_kept(a, silent, rev, text, strategy, run, to, leg_entry(run[to]));
            assert(j.levels()[to].contains(run[to].exit));
            assert(climbs_into(j.levels(), j.steps(), to, run[to].exit, level, c.1));
            assert(below.contains(run[to].exit));
            assert(is_back_walk(rev, run[to].exit, run[to].walk));
            assert(passes(rev, below, walk_labels(run[to].walk), leg_entry(run[to])));
            lemma_expected_ok(a, rev, below);
            assert(level_set(j, to).contains(leg_entry(run[to])));
            let at2 = lemma_choice_complete(
                rev,
                below,
                level_set(j, to),
                expected(rev, below),
                walk_labels(run[to].walk),
                leg_entry(run[to]),
            );
            assert forall|i: int| 0 <= i < next_cs.len() implies (#[trigger] next_cs[i]).1.subset_of(
                level_set(j, to),
            ) by {
                lemma_choices_within(rev, below, level_set(j, to), expected(rev, below), i);
            }
            lemma_idle_pairs(run, positions, to, level - 1);
            assert(extended.to_set().union(pairs_upto(run, positions, to)) =~= total);
            let k2 = lemma_pending_find(
                j,
                a,
                silent,
                rev,
                text,
                strategy,
                positions,
                run,
                total,
                to,
                extended,
                next_cs,
                at2,
            );
            assert((rest + child)[rest.len() + k2] == child[k2]);
            rest.len() + k2
        }
    }
}

/// The enumeration is complete: the match of every accepting run of the
/// automaton on the text is handed out.
pub proof fn lemma_matches_complete(dag: &IndexedDag, m: Set<(usize, usize)>) -> (k: int)
    requires
        dag.wf(),
        dag.index() is Some,
        is_match_of(
            dag.spec_automaton()@,
            dag.spec_automaton().back_adj(),
            dag.spec_text(),
            dag.spec_positions(),
            m,
        ),
    ensures
        0 <= k < all_matches(dag).len(),
        all_matches(dag)[k].to_set() == m,
{
    let a = dag.spec_automaton()@;
    let silent = dag.spec_automaton().silent_adj();
    let rev = dag.spec_automaton().back_adj();
    let text = dag.spec_text();
    let strategy = dag.spec_strategy();
    let positions = dag.spec_positions();
    let j = dag.index()->0;
    let n = text.len() as int;
    dag.spec_automaton().lemma_wf();
    let (g, walk, legs) = choose|g: usize, walk: Seq<(usize, usize)>, legs: Seq<Leg>| #[trigger]
        suffix_ok(a, rev, text, 0, g, legs) && #[trigger] is_back_walk(rev, g, walk) && walk_end(g, walk) == a.initial
            && m == pairs_at(walk_labels(walk), positions[0]).union(suffix_pairs(legs, 0, positions));
    let first = Leg { exit: g, walk };
    let run = seq![first] + legs;
    lemma_suffix_legs(a, rev, text, 0, g, legs);
    assert(run_ok(a, rev, text, run)) by {
        assert(run[0] == first);
        assert forall|l: int| 0 <= l < run.len() implies is_back_walk(rev, (#[trigger] run[l]).exit, run[l].walk) by {
            if l > 0 {
                assert(run[l] == legs[l - 1]);
            }
        }
        assert forall|l: int| 1 <= l < run.len() implies a.char_step(
            run[l - 1].exit,
            text[l - 1],
            leg_entry(#[trigger] run[l]),
        ) by {
            assert(run[l] == legs[l - 1]);
            if l > 1 {
                assert(run[l - 1] == legs[l - 2]);
                assert(a.char_step(legs[l - 1 - 1].exit, text[0 + (l - 1)], leg_entry(legs[l - 1])));
            }
        }
        if legs.len() > 0 {
            assert(run.last() == legs.last());
        }
    }
    assert(run.skip(1) =~= legs);
    lemma_suffix_pairs(run, positions, 0);
    assert(pairs_upto(run, positions, -1) =~= Set::<(usize, usize)>::empty());
    assert(pairs_upto(run, positions, 0) =~= pairs_at(walk_labels(walk), positions[0]));
    assert(pairs_upto(run, positions, n) == m);
    assert(!j.spec_disconnected()) by {
        if j.spec_disconnected() {
            let l = choose|l: int| 0 <= l <= text.len() && #[trigger] level_empty(a, silent, text, strategy, l);
            lemma_ends_on_leg(a, silent, rev, text, run, l);
            lemma_run_kept(a, silent, rev, text, strategy, run, l, run[l].exit);
        }
    }
    assert(covers(&j, a, silent, rev, text, strategy));
    let gamma = level_set(&j, n).intersect(a.finals);
    let none = Seq::<(usize, usize)>::empty();
    let cs = choices_at(rev, &j, n, gamma);
    lemma_ends_on_leg(a, silent, rev, text, run, n);
    lemma_run_kept(a, silent, rev, text, strategy, run, n, run[n].exit);
    lemma_run_kept(a, silent, rev, text, strategy, run, n, leg_entry(run[n]));
    assert(run.last() == run[n]);
    assert(gamma.contains(run[n].exit));
    assert(is_back_walk(rev, run[n].exit, run[n].walk));
    assert(passes(rev, gamma, walk_labels(run[n].walk), leg_entry(run[n])));
    lemma_expected_ok(a, rev, gamma);
    let at = lemma_choice_complete(
        rev,
        gamma,
        level_set(&j, n),
        expected(rev, gamma),
        walk_labels(run[n].walk),
        leg_entry(run[n]),
    );
    assert forall|i: int| 0 <= i < cs.len() implies (#[trigger] cs[i]).1.subset_of(level_set(&j, n)) by {
        lemma_choices_within(rev, gamma, level_set(&j, n), expected(rev, gamma), i);
    }
    assert(none.to_set().union(pairs_upto(run, positions, n)) =~= m);
    lemma_pending_find(&j, a, silent, rev, text, strategy, positions, run, m, n, none, cs, at)
}

} // verus!
