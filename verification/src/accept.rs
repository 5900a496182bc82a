//! The marked words that an automaton accepts, and the expression whose
//! words they are.

use crate::automaton::AutomatonView;
use crate::glushkov::{edge, is_position_automaton};
use crate::language::{lang, Sym};
use crate::parse::Hir;
use crate::position::{
    first, fits, follow, in_span, last, leaves, lemma_path_word, lemma_spans, lemma_word_path, pair_at, size, spells,
    word_path,
};
use vstd::prelude::*;

verus! {

/// An edge from `p` to `q` reads the character or emits the marker `s`.
pub open spec fn sym_step(a: AutomatonView, p: usize, s: Sym, q: usize) -> bool {
    match s {
        Sym::Char(c) => a.char_step(p, c, q),
        Sym::Mark(m) => a.marker_step(p, m, q),
    }
}

/// An edge leads from the `i`-th state to the next with the `i`-th letter.
pub open spec fn step_at(a: AutomatonView, states: Seq<usize>, w: Seq<Sym>, i: int) -> bool {
    sym_step(a, states[i], w[i], states[i + 1])
}

/// The states are joined by edges that spell `w`.
pub open spec fn runs(a: AutomatonView, states: Seq<usize>, w: Seq<Sym>) -> bool {
    &&& states.len() == w.len() + 1
    &&& forall|i: int| 0 <= i < w.len() ==> #[trigger] step_at(a, states, w, i)
}

/// Edges that spell `w` lead from the initial state to a final state.
pub open spec fn accepts(a: AutomatonView, w: Seq<Sym>) -> bool {
    exists|states: Seq<usize>| #[trigger]
        runs(a, states, w) && states[0] == a.initial && a.finals.contains(states.last())
}

/// The position automaton of an expression accepts the marked words that
/// the expression matches, and no others.
pub proof fn lemma_automaton_language(a: AutomatonView, h: Hir, n: nat, w: Seq<Sym>)
    requires
        is_position_automaton(a, h, n),
        size(h) < usize::MAX,
    ensures
        accepts(a, w) <==> lang(h, w),
{
    lemma_spans(h, 0);
    if lang(h, w) {
        let ps = lemma_word_path(h, 0, w);
        let states = Seq::new((w.len() + 1) as nat, |i: int| if i == 0 { 0usize } else { ps[i - 1] as usize });
        assert forall|i: int| 0 <= i < w.len() implies #[trigger] step_at(a, states, w, i) by {
            let q = states[i + 1];
            let p = states[i];
            assert(in_span(0, size(h), ps[i]));
            assert(q == ps[i]);
            assert(fits(leaves(h)[ps[i] - 0 - 1], w[i]));
            if i == 0 {
                assert(first(h, 0).contains(ps[0]));
            } else {
                assert(in_span(0, size(h), ps[i - 1]));
                assert(p == ps[i - 1]);
                assert(follow(h, 0).contains(pair_at(ps, i - 1)));
            }
            assert(edge(h, p as int, q as int));
            match w[i] {
                Sym::Char(c) => {
                    assert(a.char_step(p, c, q));
                },
                Sym::Mark(m) => {
                    assert(a.marker_step(p, m, q));
                },
            }
        }
        if w.len() == 0 {
            assert(states.last() == 0);
        } else {
            assert(in_span(0, size(h), ps[w.len() - 1]));
            assert(states.last() == ps.last());
        }
        assert(runs(a, states, w) && states[0] == a.initial && a.finals.contains(states.last()));
    }
    if accepts(a, w) {
        let states = choose|states: Seq<usize>| #[trigger]
            runs(a, states, w) && states[0] == a.initial && a.finals.contains(states.last());
        let ps = Seq::new(w.len(), |i: int| states[i + 1] as int);
        assert forall|i: int| 0 <= i < w.len() && #[trigger] step_at(a, states, w, i) implies edge(
            h,
            states[i] as int,
            states[i + 1] as int,
        ) && fits(leaves(h)[states[i + 1] - 1], w[i]) && in_span(0, size(h), states[i + 1] as int) by {
            match w[i] {
                Sym::Char(c) => {
                    assert(a.char_step(states[i], c, states[i + 1]));
                },
                Sym::Mark(m) => {
                    assert(a.marker_step(states[i], m, states[i + 1]));
                },
            }
        }
        assert(spells(h, 0, ps, w)) by {
            assert forall|i: int| 0 <= i < ps.len() implies in_span(0, size(h), #[trigger] ps[i]) && fits(
                leaves(h)[ps[i] - 0 - 1],
                w[i],
            ) by {
                assert(step_at(a, states, w, i));
            }
        }
        if w.len() == 0 {
            assert(states.last() == states[0]);
            assert(!last(h, 0).contains(0));
        } else {
            assert(step_at(a, states, w, 0));
            assert(edge(h, states[0] as int, states[1] as int));
            assert(!follow(h, 0).contains((0, states[1] as int)));
            assert(first(h, 0).contains(ps[0]));
            assert(states.last() == states[w.len() as int]);
            assert(step_at(a, states, w, w.len() - 1));
            assert(edge(h, states[w.len() - 1] as int, states[w.len() as int] as int));
            assert(ps.last() == states.last());
            assert(last(h, 0).contains(ps.last()));
            assert forall|i: int| 0 <= i < ps.len() - 1 implies follow(h, 0).contains(#[trigger] pair_at(ps, i)) by {
                assert(step_at(a, states, w, i));
                assert(step_at(a, states, w, i + 1));
                assert(edge(h, states[i] as int, states[i + 1] as int));
                assert(edge(h, states[i + 1] as int, states[i + 2] as int));
                assert(in_span(0, size(h), states[i + 1] as int));
            }
        }
        assert(word_path(h, 0, w, ps));
        lemma_path_word(h, 0, w, ps);
    }
}

} // verus!
