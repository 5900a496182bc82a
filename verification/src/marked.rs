//! Accepting runs and accepted words: a run of the automaton on the text
//! that passes markers between the characters is a marked word that the
//! automaton accepts, and the other way round.

use crate::accept::{accepts, runs, step_at, sym_step};
use crate::automaton::{is_back_adj, AutomatonView};
use crate::language::{chars_of, lemma_chars_concat, lemma_pairs_concat, pairs_from, pairs_of, Sym};
use crate::runs::{is_match_of, leg_entry, pairs_at, suffix_ok, suffix_pairs, Leg};
use crate::walks::{is_back_walk, lemma_walk_push, walk_end, walk_labels};
use vstd::prelude::*;

verus! {

/// Two runs, the second from where the first ends, make one run.
pub proof fn lemma_runs_concat(a: AutomatonView, s1: Seq<usize>, w1: Seq<Sym>, s2: Seq<usize>, w2: Seq<Sym>)
    requires
        runs(a, s1, w1),
        runs(a, s2, w2),
        s1.last() == s2[0],
    ensures
        runs(a, s1 + s2.skip(1), w1 + w2),
        (s1 + s2.skip(1))[0] == s1[0],
        (s1 + s2.skip(1)).last() == s2.last(),
{
    let s = s1 + s2.skip(1);
    let w = w1 + w2;
    assert forall|i: int| 0 <= i < w.len() implies #[trigger] step_at(a, s, w, i) by {
        if i < w1.len() {
            assert(step_at(a, s1, w1, i));
            assert(s[i] == s1[i]);
            if i + 1 < s1.len() {
                assert(s[i + 1] == s1[i + 1]);
            }
        } else {
            let k = i - w1.len();
            assert(step_at(a, s2, w2, k));
            assert(w[i] == w2[k]);
            assert(s[i + 1] == s2[k + 1]);
            if k == 0 {
                assert(s[i] == s1.last());
            } else {
                assert(s[i] == s2[k]);
            }
        }
    }
}

/// A walk against the marker edges, read forwards, is a run that emits
/// its markers.
pub proof fn lemma_walk_forward(
    a: AutomatonView,
    rev: Seq<Seq<(usize, usize)>>,
    x: usize,
    walk: Seq<(usize, usize)>,
    positions: Seq<usize>,
    base: int,
) -> (r: (Seq<Sym>, Seq<usize>))
    requires
        is_back_adj(a, rev),
        is_back_walk(rev, x, walk),
    ensures
        runs(a, r.1, r.0),
        r.1[0] == walk_end(x, walk),
        r.1.last() == x,
        chars_of(r.0).len() == 0,
        pairs_from(r.0, positions, base) == pairs_at(walk_labels(walk), positions[base]),
    decreases walk.len(),
{
    if walk.len() == 0 {
        let w = Seq::<Sym>::empty();
        let states = seq![x];
        assert(walk_labels(walk) =~= Set::<usize>::empty());
        assert(pairs_at(walk_labels(walk), positions[base]) =~= Set::<(usize, usize)>::empty());
        (w, states)
    } else {
        let shorter = walk.drop_last();
        let step = walk.last();
        let from = walk_end(x, shorter);
        let (w2, s2) = lemma_walk_forward(a, rev, x, shorter, positions, base);
        assert(rev[from as int].contains((step.0, step.1)));
        assert(a.marker_step(step.1, step.0, from));
        let w1 = seq![Sym::Mark(step.0)];
        let s1 = seq![step.1, from];
        assert(runs(a, s1, w1)) by {
            assert forall|i: int| 0 <= i < w1.len() implies #[trigger] step_at(a, s1, w1, i) by {
                assert(sym_step(a, s1[0], w1[0], s1[1]));
            }
        }
        lemma_runs_concat(a, s1, w1, s2, w2);
        lemma_chars_concat(w1, w2);
        lemma_pairs_concat(w1, w2, positions, base);
        let none = Seq::<Sym>::empty();
        assert(w1.drop_last() =~= none);
        assert(w1.last() == Sym::Mark(step.0));
        assert(chars_of(none).len() == 0);
        assert(pairs_from(none, positions, base) =~= Set::<(usize, usize)>::empty());
        assert(chars_of(w1) == chars_of(w1.drop_last()));
        assert(chars_of(w1).len() == 0);
        assert(pairs_from(w1, positions, base) == pairs_from(w1.drop_last(), positions, base).insert(
            (step.0, positions[base + chars_of(w1.drop_last()).len()]),
        ));
        assert(pairs_from(w1, positions, base) =~= set![(step.0, positions[base])]);
        assert(walk_labels(walk) =~= walk_labels(shorter).insert(step.0)) by {
            assert forall|m: usize| walk_labels(walk).contains(m) <==> walk_labels(shorter).insert(step.0).contains(
                m,
            ) by {
                if walk_labels(walk).contains(m) {
                    let i = choose|i: int| 0 <= i < walk.len() && (#[trigger] walk[i]).0 == m;
                    if i < shorter.len() {
                        assert(shorter[i].0 == m);
                    }
                }
                if walk_labels(shorter).contains(m) {
                    let i = choose|i: int| 0 <= i < shorter.len() && (#[trigger] shorter[i]).0 == m;
                    assert(walk[i].0 == m);
                }
                if m == step.0 {
                    assert(walk[walk.len() - 1].0 == m);
                }
            }
        }
        assert(pairs_from(w1 + w2, positions, base) =~= pairs_at(walk_labels(walk), positions[base]));
        (w1 + w2, s1 + s2.skip(1))
    }
}

/// One edge that reads a character is a run of one letter.
proof fn lemma_char_run(a: AutomatonView, p: usize, c: char, q: usize, positions: Seq<usize>, base: int) -> (r: (
    Seq<Sym>,
    Seq<usize>,
))
    requires
        a.char_step(p, c, q),
    ensures
        runs(a, r.1, r.0),
        r.1[0] == p,
        r.1.last() == q,
        chars_of(r.0) == seq![c],
        pairs_from(r.0, positions, base) == Set::<(usize, usize)>::empty(),
{
    let wc = seq![Sym::Char(c)];
    let sc = seq![p, q];
    assert(runs(a, sc, wc)) by {
        assert forall|i: int| 0 <= i < wc.len() implies #[trigger] step_at(a, sc, wc, i) by {
            assert(sym_step(a, sc[0], wc[0], sc[1]));
        }
    }
    let none = Seq::<Sym>::empty();
    assert(wc.drop_last() =~= none);
    assert(wc.last() == Sym::Char(c));
    assert(chars_of(none) =~= Seq::<char>::empty());
    assert(pairs_from(none, positions, base) =~= Set::<(usize, usize)>::empty());
    assert(chars_of(wc) == chars_of(wc.drop_last()).push(c));
    assert(chars_of(wc) =~= seq![c]);
    assert(pairs_from(wc, positions, base) == pairs_from(wc.drop_last(), positions, base));
    (wc, sc)
}

/// The rest of an accepting run is a run that reads the rest of the text
/// and ends in a final state.
pub proof fn lemma_suffix_forward(
    a: AutomatonView,
    rev: Seq<Seq<(usize, usize)>>,
    text: Seq<char>,
    positions: Seq<usize>,
    level: int,
    from: usize,
    legs: Seq<Leg>,
) -> (r: (Seq<Sym>, Seq<usize>))
    requires
        is_back_adj(a, rev),
        0 <= level <= text.len(),
        suffix_ok(a, rev, text, level, from, legs),
    ensures
        runs(a, r.1, r.0),
        r.1[0] == from,
        a.finals.contains(r.1.last()),
        chars_of(r.0) == text.skip(level),
        pairs_from(r.0, positions, level) == suffix_pairs(legs, level, positions),
    decreases legs.len(),
{
    if legs.len() == 0 {
        let w = Seq::<Sym>::empty();
        let states = seq![from];
        assert(text.skip(level) =~= Seq::<char>::empty());
        (w, states)
    } else {
        let leg = legs[0];
        let c = text[level];
        assert(a.char_step(from, c, leg_entry(leg)));
        assert(is_back_walk(rev, leg.exit, leg.walk));
        assert(suffix_ok(a, rev, text, level + 1, leg.exit, legs.drop_first()));
        let (wc, sc) = lemma_char_run(a, from, c, leg_entry(leg), positions, level);
        let (wm, sm) = lemma_walk_forward(a, rev, leg.exit, leg.walk, positions, level + 1);
        let (wr, sr) = lemma_suffix_forward(a, rev, text, positions, level + 1, leg.exit, legs.drop_first());
        lemma_runs_concat(a, sc, wc, sm, wm);
        let s1 = sc + sm.skip(1);
        let w1 = wc + wm;
        lemma_runs_concat(a, s1, w1, sr, wr);
        lemma_chars_concat(wc, wm);
        lemma_chars_concat(w1, wr);
        assert(chars_of(wm) =~= Seq::<char>::empty());
        assert(chars_of(w1) =~= seq![c]);
        assert(chars_of(w1 + wr) =~= text.skip(level)) by {
            assert(text.skip(level) =~= seq![c] + text.skip(level + 1));
        }
        lemma_pairs_concat(wc, wm, positions, level);
        lemma_pairs_concat(w1, wr, positions, level);
        assert(pairs_from(w1 + wr, positions, level) =~= suffix_pairs(legs, level, positions));
        (w1 + wr, s1 + sr.skip(1))
    }
}

/// Reading an accepted word from its end: behind the first `i` letters the
/// run stands in a level that it leaves from `x`, having entered it where
/// the walk `cur` ends, with the legs `legs` above.
proof fn lemma_scan_back(
    a: AutomatonView,
    rev: Seq<Seq<(usize, usize)>>,
    text: Seq<char>,
    positions: Seq<usize>,
    states: Seq<usize>,
    w: Seq<Sym>,
    i: int,
    x: usize,
    cur: Seq<(usize, usize)>,
    legs: Seq<Leg>,
    total: Set<(usize, usize)>,
)
    requires
        is_back_adj(a, rev),
        runs(a, states, w),
        states[0] == a.initial,
        0 <= i <= w.len(),
        chars_of(w.take(i)) == text.take(chars_of(w.take(i)).len() as int),
        chars_of(w.take(i)).len() <= text.len(),
        is_back_walk(rev, x, cur),
        walk_end(x, cur) == states[i],
        suffix_ok(a, rev, text, chars_of(w.take(i)).len() as int, x, legs),
        total == pairs_from(w.take(i), positions, 0).union(
            pairs_at(walk_labels(cur), positions[chars_of(w.take(i)).len() as int]),
        ).union(suffix_pairs(legs, chars_of(w.take(i)).len() as int, positions)),
    ensures
        is_match_of(a, rev, text, positions, total),
    decreases i,
{
    let prefix = w.take(i);
    let l = chars_of(prefix).len() as int;
    if i == 0 {
        assert(prefix =~= Seq::<Sym>::empty());
        assert(total =~= pairs_at(walk_labels(cur), positions[0]).union(suffix_pairs(legs, 0, positions)));
        assert(suffix_ok(a, rev, text, 0, x, legs) && is_back_walk(rev, x, cur));
    } else {
        let shorter = w.take(i - 1);
        assert(prefix.drop_last() =~= shorter);
        assert(prefix.last() == w[i - 1]);
        assert(step_at(a, states, w, i - 1));
        match w[i - 1] {
            Sym::Mark(m) => {
                assert(a.marker_step(states[i - 1], m, states[i]));
                assert(rev[states[i] as int].contains((m, states[i - 1])));
                let step = (m, states[i - 1]);
                lemma_walk_push(rev, x, cur, step, Set::<usize>::empty(), Set::<usize>::empty());
                let longer = cur.push(step);
                assert(walk_labels(longer) =~= walk_labels(cur).insert(m)) by {
                    assert forall|k: usize| walk_labels(longer).contains(k) <==> walk_labels(cur).insert(m).contains(
                        k,
                    ) by {
                        if walk_labels(longer).contains(k) {
                            let j = choose|j: int| 0 <= j < longer.len() && (#[trigger] longer[j]).0 == k;
                            if j < cur.len() {
                                assert(cur[j].0 == k);
                            }
                        }
                        if walk_labels(cur).contains(k) {
                            let j = choose|j: int| 0 <= j < cur.len() && (#[trigger] cur[j]).0 == k;
                            assert(longer[j].0 == k);
                        }
                        if k == m {
                            assert(longer[cur.len() as int].0 == m);
                        }
                    }
                }
                assert(chars_of(prefix) == chars_of(shorter));
                assert(total =~= pairs_from(shorter, positions, 0).union(
                    pairs_at(walk_labels(longer), positions[l]),
                ).union(suffix_pairs(legs, l, positions)));
                lemma_scan_back(a, rev, text, positions, states, w, i - 1, x, longer, legs, total);
            },
            Sym::Char(c) => {
                assert(a.char_step(states[i - 1], c, states[i]));
                assert(chars_of(prefix) == chars_of(shorter).push(c));
                assert(text.take(l)[l - 1] == c);
                assert(chars_of(shorter) =~= text.take(l - 1)) by {
                    assert(chars_of(shorter) =~= chars_of(prefix).drop_last());
                    assert(text.take(l).drop_last() =~= text.take(l - 1));
                }
                let leg = Leg { exit: x, walk: cur };
                let more = seq![leg] + legs;
                assert(more[0] == leg);
                assert(more.drop_first() =~= legs);
                assert(suffix_ok(a, rev, text, l - 1, states[i - 1], more));
                let none = Seq::<(usize, usize)>::empty();
                assert(is_back_walk(rev, states[i - 1], none));
                assert(walk_labels(none) =~= Set::<usize>::empty());
                assert(pairs_at(walk_labels(none), positions[l - 1]) =~= Set::<(usize, usize)>::empty());
                assert(total =~= pairs_from(shorter, positions, 0).union(
                    pairs_at(walk_labels(none), positions[l - 1]),
                ).union(suffix_pairs(more, l - 1, positions)));
                lemma_scan_back(a, rev, text, positions, states, w, i - 1, states[i - 1], none, more, total);
            },
        }
    }
}

/// The matches of the automaton on the text are the marked words that the
/// automaton accepts and whose characters are the text: a set of markers
/// with positions is the match of an accepting run exactly if it holds the
/// markers of such a word, each with the position at which it stands.
pub proof fn lemma_match_is_word(
    a: AutomatonView,
    rev: Seq<Seq<(usize, usize)>>,
    text: Seq<char>,
    positions: Seq<usize>,
    m: Set<(usize, usize)>,
)
    requires
        is_back_adj(a, rev),
    ensures
        is_match_of(a, rev, text, positions, m) <==> exists|w: Seq<Sym>| #[trigger]
            accepts(a, w) && chars_of(w) == text && pairs_of(w, positions) == m,
{
    if is_match_of(a, rev, text, positions, m) {
        let (g, walk, legs) = choose|g: usize, walk: Seq<(usize, usize)>, legs: Seq<Leg>| #[trigger]
            suffix_ok(a, rev, text, 0, g, legs) && #[trigger] is_back_walk(rev, g, walk) && walk_end(g, walk)
                == a.initial && m == pairs_at(walk_labels(walk), positions[0]).union(
                suffix_pairs(legs, 0, positions),
            );
        let (w0, s0) = lemma_walk_forward(a, rev, g, walk, positions, 0);
        let (w1, s1) = lemma_suffix_forward(a, rev, text, positions, 0, g, legs);
        lemma_runs_concat(a, s0, w0, s1, w1);
        lemma_chars_concat(w0, w1);
        lemma_pairs_concat(w0, w1, positions, 0);
        let w = w0 + w1;
        let states = s0 + s1.skip(1);
        assert(chars_of(w0) =~= Seq::<char>::empty());
        assert(chars_of(w) =~= text) by {
            assert(text.skip(0) =~= text);
        }
        assert(runs(a, states, w) && states[0] == a.initial && a.finals.contains(states.last()));
        assert(accepts(a, w) && chars_of(w) == text && pairs_of(w, positions) == m);
    }
    if exists|w: Seq<Sym>| #[trigger] accepts(a, w) && chars_of(w) == text && pairs_of(w, positions) == m {
        let w = choose|w: Seq<Sym>| #[trigger] accepts(a, w) && chars_of(w) == text && pairs_of(w, positions) == m;
        let states = choose|states: Seq<usize>| #[trigger]
            runs(a, states, w) && states[0] == a.initial && a.finals.contains(states.last());
        let none = Seq::<(usize, usize)>::empty();
        let legs = Seq::<Leg>::empty();
        let n = w.len() as int;
        assert(w.take(n) =~= w);
        assert(text.take(text.len() as int) =~= text);
        assert(walk_labels(none) =~= Set::<usize>::empty());
        assert(pairs_at(walk_labels(none), positions[text.len() as int]) =~= Set::<(usize, usize)>::empty());
        assert(m =~= pairs_from(w.take(n), positions, 0).union(
            pairs_at(walk_labels(none), positions[chars_of(w.take(n)).len() as int]),
        ).union(suffix_pairs(legs, chars_of(w.take(n)).len() as int, positions)));
        assert(is_back_walk(rev, states.last(), none));
        lemma_scan_back(a, rev, text, positions, states, w, n, states.last(), none, legs, m);
    }
}

} // verus!
