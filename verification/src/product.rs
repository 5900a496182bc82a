//! The product of an automaton with a text: which states are reached after
//! each character, and which of them lead on to the end.

use crate::automaton::{is_char_adj, is_closure_adj, is_rev_char_adj, leads_by_char, AutomatonView};
use crate::graph::{has_edge, lemma_reaches_cases, reaches};
use crate::jump::accepting;
use crate::layers::{entered_by, led_into, targets_of};
use crate::levelset::{lemma_filter_contains, member_of};
use crate::strategy::TrimmingStrategy;
use vstd::prelude::*;

verus! {

/// From `p`, one edge that reads `c` and then marker edges lead to `q`.
pub open spec fn leads_on(a: AutomatonView, silent: Seq<Seq<usize>>, p: usize, c: char, q: usize) -> bool {
    exists|t: usize| #[trigger] a.char_step(p, c, t) && reaches(silent, t, q)
}

/// State `q` is reached from the initial state by reading the first `l`
/// characters of `text`, with marker edges passed wherever they fit.
pub open spec fn in_forward(a: AutomatonView, silent: Seq<Seq<usize>>, text: Seq<char>, l: int, q: usize) -> bool
    decreases l,
{
    if l <= 0 {
        reaches(silent, a.initial, q)
    } else {
        exists|p: usize| in_forward(a, silent, text, l - 1, p) && #[trigger] leads_on(a, silent, p, text[l - 1], q)
    }
}

/// No state is reached by reading the first `l` characters of `text`.
pub open spec fn forward_empty(a: AutomatonView, silent: Seq<Seq<usize>>, text: Seq<char>, l: int) -> bool {
    forall|q: usize| !in_forward(a, silent, text, l, q)
}

/// `n` levels are built for `text`: one for each number of characters
/// read, up to the first that no state reaches, which is the last one.
pub open spec fn built_levels(a: AutomatonView, silent: Seq<Seq<usize>>, text: Seq<char>, n: int) -> bool {
    &&& 1 <= n <= text.len() + 1
    &&& forall|l: int| 0 <= l < n - 1 ==> !#[trigger] forward_empty(a, silent, text, l)
    &&& n < text.len() + 1 ==> forward_empty(a, silent, text, n - 1)
}

/// Marker edges lead from `q` to a final state.
pub open spec fn can_accept(a: AutomatonView, silent: Seq<Seq<usize>>, q: usize) -> bool {
    exists|f: usize| a.finals.contains(f) && #[trigger] reaches(silent, q, f)
}

/// State `q` belongs to level `l` once the levels are trimmed: it is reached
/// by the first `l` characters and, where the strategy trims, the rest of
/// the text leads from it to the last level, and with full trimming to a
/// state of the last level that can accept.
pub open spec fn in_kept(
    a: AutomatonView,
    silent: Seq<Seq<usize>>,
    text: Seq<char>,
    strategy: TrimmingStrategy,
    l: int,
    q: usize,
) -> bool
    decreases text.len() - l,
{
    if strategy is NoTrimming {
        in_forward(a, silent, text, l, q)
    } else if l >= text.len() {
        in_forward(a, silent, text, l, q) && (strategy is FullTrimming ==> can_accept(a, silent, q))
    } else {
        in_forward(a, silent, text, l, q) && exists|r: usize|
            in_kept(a, silent, text, strategy, l + 1, r) && #[trigger] leads_by_char(a, silent, q, text[l], r)
    }
}

/// No state belongs to level `l`.
pub open spec fn level_empty(
    a: AutomatonView,
    silent: Seq<Seq<usize>>,
    text: Seq<char>,
    strategy: TrimmingStrategy,
    l: int,
) -> bool {
    forall|q: usize| !in_kept(a, silent, text, strategy, l, q)
}

/// What is kept was reached.
pub proof fn lemma_kept_forward(
    a: AutomatonView,
    silent: Seq<Seq<usize>>,
    text: Seq<char>,
    strategy: TrimmingStrategy,
    l: int,
    q: usize,
)
    requires
        in_kept(a, silent, text, strategy, l, q),
    ensures
        in_forward(a, silent, text, l, q),
{
}

/// The level above a level of reached states, as the jump index fills it,
/// holds the states reached with one character more.
pub proof fn lemma_forward_next(
    a: AutomatonView,
    silent: Seq<Seq<usize>>,
    text: Seq<char>,
    l: int,
    adj: Seq<Seq<usize>>,
    prev: Seq<usize>,
    cur: Seq<usize>,
)
    requires
        0 <= l < text.len(),
        is_char_adj(a, text[l], adj),
        forall|q: usize| prev.contains(q) <==> in_forward(a, silent, text, l, q),
        forall|q: usize| cur.contains(q) <==> led_into(silent, adj, prev, q),
    ensures
        forall|q: usize| cur.contains(q) <==> in_forward(a, silent, text, l + 1, q),
{
    assert forall|q: usize| cur.contains(q) <==> in_forward(a, silent, text, l + 1, q) by {
        if led_into(silent, adj, prev, q) {
            let t = choose|t: usize| entered_by(adj, prev, t) && #[trigger] reaches(silent, t, q);
            let p = choose|p: usize| prev.contains(p) && #[trigger] has_edge(adj, p, t);
            assert(a.char_step(p, text[l], t));
            assert(leads_on(a, silent, p, text[l], q));
            assert(in_forward(a, silent, text, l, p));
            let up = l + 1;
            assert(in_forward(a, silent, text, up - 1, p) && leads_on(a, silent, p, text[up - 1], q));
            assert(in_forward(a, silent, text, up, q));
        }
        if in_forward(a, silent, text, l + 1, q) {
            let p = choose|p: usize|
                in_forward(a, silent, text, l + 1 - 1, p) && #[trigger] leads_on(a, silent, p, text[l + 1 - 1], q);
            let t = choose|t: usize| #[trigger] a.char_step(p, text[l], t) && reaches(silent, t, q);
            assert(has_edge(adj, p, t));
            assert(prev.contains(p));
            assert(entered_by(adj, prev, t));
            assert(led_into(silent, adj, prev, q));
        }
    }
}

/// The last level, cut down to the states that can accept.
pub proof fn lemma_kept_last(
    a: AutomatonView,
    silent: Seq<Seq<usize>>,
    text: Seq<char>,
    closure: Seq<Seq<usize>>,
    last: Seq<usize>,
)
    requires
        is_closure_adj(a, silent, closure),
        forall|q: usize| last.contains(q) <==> in_forward(a, silent, text, text.len() as int, q),
    ensures
        forall|q: usize|
            last.filter(member_of(accepting(closure, a.finals))).contains(q) <==> in_kept(
                a,
                silent,
                text,
                TrimmingStrategy::FullTrimming,
                text.len() as int,
                q,
            ),
{
    let f = member_of(accepting(closure, a.finals));
    assert forall|q: usize| last.filter(f).contains(q) <==> in_kept(
        a,
        silent,
        text,
        TrimmingStrategy::FullTrimming,
        text.len() as int,
        q,
    ) by {
        lemma_filter_contains(last, f, q);
        if accepting(closure, a.finals).contains(q) {
            if a.finals.contains(q) {
                lemma_reaches_cases(silent, q, q);
            } else {
                let x = choose|x: usize| #[trigger] has_edge(closure, q, x) && a.finals.contains(x);
                lemma_reaches_cases(silent, q, x);
            }
        }
        if can_accept(a, silent, q) {
            let x = choose|x: usize| a.finals.contains(x) && #[trigger] reaches(silent, q, x);
            lemma_reaches_cases(silent, q, x);
            if q != x {
                assert(has_edge(closure, q, x));
            }
        }
    }
}

/// A level cut down to the states from which the level above is reached.
pub proof fn lemma_kept_prev(
    a: AutomatonView,
    silent: Seq<Seq<usize>>,
    text: Seq<char>,
    strategy: TrimmingStrategy,
    l: int,
    rev: Seq<Seq<usize>>,
    prev: Seq<usize>,
    next: Seq<usize>,
)
    requires
        0 <= l < text.len(),
        !(strategy is NoTrimming),
        is_rev_char_adj(a, silent, text[l], rev),
        forall|q: usize| prev.contains(q) <==> in_forward(a, silent, text, l, q),
        forall|q: usize| next.contains(q) <==> in_kept(a, silent, text, strategy, l + 1, q),
    ensures
        forall|q: usize|
            prev.filter(member_of(targets_of(rev, next))).contains(q) <==> in_kept(a, silent, text, strategy, l, q),
{
    let f = member_of(targets_of(rev, next));
    assert forall|q: usize| prev.filter(f).contains(q) <==> in_kept(a, silent, text, strategy, l, q) by {
        lemma_filter_contains(prev, f, q);
        if targets_of(rev, next).contains(q) {
            let r = choose|r: usize| next.contains(r) && #[trigger] has_edge(rev, r, q);
            assert(leads_by_char(a, silent, q, text[l], r));
            assert(in_kept(a, silent, text, strategy, l + 1, r));
        }
        if in_kept(a, silent, text, strategy, l, q) {
            let r = choose|r: usize|
                in_kept(a, silent, text, strategy, l + 1, r) && #[trigger] leads_by_char(a, silent, q, text[l], r);
            assert(has_edge(rev, r, q));
            assert(next.contains(r));
            assert(entered_by(rev, next, q));
        }
    }
}

} // verus!
