//! The index of the matches of a variable automaton on a text, and how it is
//! built: the product graph level by level, trimmed as the strategy asks,
//! then the jump tables.

use crate::automaton::{is_char_adj, Automaton};
use crate::graph::{adj_view, copy_lists, lemma_reaches_self, reaches};
use crate::jump::Jump;
use crate::layers::reached_from;
use crate::product::{built_levels, forward_empty, in_forward, in_kept, lemma_forward_next, lemma_kept_forward, lemma_kept_last, lemma_kept_prev, level_empty};
use crate::strategy::TrimmingStrategy;
use crate::text::{byte_offset, decode};
use vstd::prelude::*;

verus! {

/// The levels of `j` are those that reading `text` with `a` leads to, as
/// far as the text could be read: either one level for each number of
/// characters, none of them empty, or fewer, the last one empty.
pub open spec fn built_for(j: &Jump, a: &Automaton, text: Seq<char>) -> bool {
    &&& j.wf()
    &&& j.marks() == a.silent_adj()
    &&& j.spec_num_vertices() == a@.nb_states
    &&& j.levels().len() <= text.len() + 1
    &&& built_levels(a@, a.silent_adj(), text, j.levels().len() as int)
    &&& forall|l: int, q: usize|
        0 <= l < j.levels().len() ==> (#[trigger] j.levels()[l].contains(q) <==> in_forward(
            a@,
            a.silent_adj(),
            text,
            l,
            q,
        ))
    &&& forall|l: int| 1 <= l < j.levels().len() ==> is_char_adj(a@, text[l - 1], #[trigger] j.steps()[l])
    &&& !j.spec_disconnected() ==> j.levels().len() == text.len() + 1 && j.indexed() == text.len()
}

/// The levels of `j` are those of the product of `a` with `text`, trimmed
/// by `strategy`, unless one of these is empty, which `j` then records.
pub open spec fn trimmed_for(j: &Jump, a: &Automaton, text: Seq<char>, strategy: TrimmingStrategy) -> bool {
    &&& j.wf()
    &&& j.marks() == a.silent_adj()
    &&& j.spec_num_vertices() == a@.nb_states
    &&& built_levels(a@, a.silent_adj(), text, j.levels().len() as int)
    &&& j.spec_disconnected() <==> exists|l: int|
        0 <= l <= text.len() && #[trigger] level_empty(a@, a.silent_adj(), text, strategy, l)
    &&& !j.spec_disconnected() ==> {
        &&& j.levels().len() == text.len() + 1
        &&& forall|l: int, q: usize|
            0 <= l <= text.len() ==> (#[trigger] j.levels()[l].contains(q) <==> in_kept(
                a@,
                a.silent_adj(),
                text,
                strategy,
                l,
                q,
            ))
    }
}

/// `j` is trimmed for `a`, `text` and `strategy`, and unless it is
/// disconnected, the tables of all its levels are filled, for the edges
/// that read the characters of `text`.
pub open spec fn indexed_for(j: &Jump, a: &Automaton, text: Seq<char>, strategy: TrimmingStrategy) -> bool {
    &&& trimmed_for(j, a, text, strategy)
    &&& !j.spec_disconnected() ==> {
        &&& j.indexed() == text.len()
        &&& forall|l: int| 1 <= l <= text.len() ==> is_char_adj(a@, text[l - 1], #[trigger] j.steps()[l])
    }
}

/// An automaton and a text, and once `preprocess` has run, the index of the
/// matches of the one on the other.
pub struct IndexedDag {
    automaton: Automaton,
    text: Vec<char>,
    /// For each level, the byte offset in the text at which it stands.
    positions: Vec<usize>,
    jump_distance: usize,
    trimming_strategy: TrimmingStrategy,
    toggle_progress: bool,
    jump: Option<Jump>,
}

impl IndexedDag {
    /// The automaton that is run.
    pub closed spec fn spec_automaton(&self) -> Automaton {
        self.automaton
    }

    /// The characters of the text.
    pub closed spec fn spec_text(&self) -> Seq<char> {
        self.text@
    }

    /// How the levels are trimmed.
    pub closed spec fn spec_strategy(&self) -> TrimmingStrategy {
        self.trimming_strategy
    }

    /// The jump distance that was asked for.
    pub closed spec fn spec_jump_distance(&self) -> usize {
        self.jump_distance
    }

    /// Whether progress is to be shown.
    pub closed spec fn spec_toggle_progress(&self) -> bool {
        self.toggle_progress
    }

    /// The jump index, once it is built.
    pub closed spec fn index(&self) -> Option<Jump> {
        self.jump
    }

    /// The byte offset of each level.
    pub closed spec fn spec_positions(&self) -> Seq<usize> {
        self.positions@
    }

    /// The automaton is in order, the positions are the byte offsets of
    /// the characters, and the index, where there is one, is the index of
    /// this automaton on this text.
    pub open spec fn wf(&self) -> bool {
        &&& self.spec_automaton().wf()
        &&& self.spec_positions().len() == self.spec_text().len() + 1
        &&& forall|l: int|
            0 <= l <= self.spec_text().len() ==> self.spec_positions()[l] == byte_offset(self.spec_text(), l)
        &&& match self.index() {
            Some(j) => indexed_for(&j, &self.spec_automaton(), self.spec_text(), self.spec_strategy()),
            None => true,
        }
    }

    /// The automaton and the text, not yet indexed. `jump_distance` is kept
    /// for callers that tune the index; every table is built whatever it
    /// says. `toggle_progress` says whether the caller wants progress shown.
    pub fn new(
        automaton: Automaton,
        text: &str,
        jump_distance: usize,
        trimming_strategy: TrimmingStrategy,
        toggle_progress: bool,
    ) -> (dag: IndexedDag)
        requires
            automaton.wf(),
        ensures
            dag.wf(),
            dag.spec_automaton() == automaton,
            dag.spec_text() == text@,
            dag.spec_strategy() == trimming_strategy,
            dag.spec_jump_distance() == jump_distance,
            dag.spec_toggle_progress() == toggle_progress,
            dag.index() is None,
    {
        let (chars, positions) = decode(text);
        IndexedDag {
            automaton,
            text: chars,
            positions,
            jump_distance,
            trimming_strategy,
            toggle_progress,
            jump: None,
        }
    }

    /// The first phase: one level for each character, as long as the level
    /// is not empty.
    pub fn build(&self) -> (jump: Jump)
        requires
            self.wf(),
        ensures
            built_for(&jump, &self.spec_automaton(), self.spec_text()),
    {
        let ghost a = self.automaton@;
        let ghost silent = self.automaton.silent_adj();
        let ghost text = self.text@;
        let marks = copy_lists(self.automaton.get_assignations());
        let mut initial: Vec<usize> = Vec::new();
        initial.push(self.automaton.get_initial());
        proof {
            self.automaton.lemma_wf();
        }
        let mut jump = Jump::new(initial, marks, self.positions.len(), self.automaton.get_nb_states());
        proof {
            assert forall|q: usize| #[trigger] jump.levels()[0].contains(q) <==> in_forward(a, silent, text, 0, q) by {
                if reached_from(silent, initial@, q) {
                    let p = choose|p: usize| initial@.contains(p) && #[trigger] reaches(silent, p, q);
                    assert(p == a.initial);
                }
                if reaches(silent, a.initial, q) {
                    assert(initial@[0] == a.initial);
                    assert(initial@.contains(a.initial));
                }
            }
            lemma_reaches_self(silent, a.initial);
            assert(jump.levels()[0].contains(a.initial));
            assert(jump.levels()[0].len() > 0);
        }
        let mut i: usize = 0;
        while i < self.text.len() && !jump.is_disconnected()
            invariant
                i <= text.len(),
                self.wf(),
                a == self.automaton@,
                silent == self.automaton.silent_adj(),
                text == self.text@,
                jump.wf(),
                jump.marks() == silent,
                jump.spec_num_vertices() == a.nb_states,
                jump.levels().len() == i + 1,
                forall|l: int| 0 <= l < i ==> (#[trigger] jump.levels()[l]).len() > 0,
                !jump.spec_disconnected() ==> jump.indexed() == i,
                forall|l: int, q: usize|
                    0 <= l < jump.levels().len() ==> (#[trigger] jump.levels()[l].contains(q) <==> in_forward(
                        a,
                        silent,
                        text,
                        l,
                        q,
                    )),
                forall|l: int| 1 <= l < jump.levels().len() ==> is_char_adj(a, text[l - 1], #[trigger] jump.steps()[l]),
            decreases text.len() - i,
        {
            let ghost before = jump;
            let adj = self.automaton.get_adj_for_char(self.text[i]);
            jump.init_next_level(&adj);
            proof {
                let prev = before.levels()[i as int];
                let cur = jump.levels()[i + 1];
                assert(before.levels().last() == prev);
                assert(jump.levels().last() == cur);
                assert forall|q: usize| prev.contains(q) <==> in_forward(a, silent, text, i as int, q) by {
                    assert(before.levels()[i as int].contains(q) <==> in_forward(a, silent, text, i as int, q));
                }
                lemma_forward_next(a, silent, text, i as int, adj_view(&adj), prev, cur);
                assert forall|l: int, q: usize| 0 <= l < jump.levels().len() implies (#[trigger] jump.levels()[l].contains(
                    q,
                ) <==> in_forward(a, silent, text, l, q)) by {
                    if l <= i {
                        assert(jump.levels()[l] == before.levels()[l]);
                        assert(before.levels()[l].contains(q) <==> in_forward(a, silent, text, l, q));
                    }
                }
                assert forall|l: int| 1 <= l < jump.levels().len() implies is_char_adj(
                    a,
                    text[l - 1],
                    #[trigger] jump.steps()[l],
                ) by {
                    if l <= i {
                        assert(jump.steps()[l] == before.steps()[l]);
                    } else {
                        assert(jump.steps()[l] == jump.steps().last());
                    }
                }
            }
            i += 1;
        }
        proof {
            assert forall|l: int| 0 <= l < jump.levels().len() - 1 implies !#[trigger] forward_empty(
                a,
                silent,
                text,
                l,
            ) by {
                assert(jump.levels()[l].len() > 0);
                assert(jump.levels()[l].contains(jump.levels()[l][0]));
                assert(in_forward(a, silent, text, l, jump.levels()[l][0]));
            }
            if jump.levels().len() < text.len() + 1 {
                let l = jump.levels().len() - 1;
                assert(jump.spec_disconnected());
                assert forall|q: usize| !in_forward(a, silent, text, l, q) by {
                    assert(jump.levels()[l].contains(q) <==> in_forward(a, silent, text, l, q));
                }
            }
        }
        jump
    }

    /// The second phase: the levels are cut down as the strategy asks, the
    /// last level first with full trimming, then each level to the states
    /// that lead into the level above.
    pub fn trim(&self, jump: &mut Jump)
        requires
            self.wf(),
            built_for(old(jump), &self.spec_automaton(), self.spec_text()),
        ensures
            trimmed_for(final(jump), &self.spec_automaton(), self.spec_text(), self.spec_strategy()),
    {
        let ghost a = self.automaton@;
        let ghost silent = self.automaton.silent_adj();
        let ghost text = self.text@;
        let ghost strategy = self.trimming_strategy;
        let n = self.text.len();
        proof {
            self.automaton.lemma_wf();
        }
        if jump.is_disconnected() {
            proof {
                let l = choose|l: int| 0 <= l < jump.levels().len() && (#[trigger] jump.levels()[l]).len() == 0;
                assert forall|q: usize| !in_kept(a, silent, text, strategy, l, q) by {
                    if in_kept(a, silent, text, strategy, l, q) {
                        lemma_kept_forward(a, silent, text, strategy, l, q);
                        assert(jump.levels()[l].contains(q));
                    }
                }
                assert(level_empty(a, silent, text, strategy, l));
            }
            return;
        }
        match self.trimming_strategy {
            TrimmingStrategy::NoTrimming => {
                proof {
                    assert forall|l: int| 0 <= l <= text.len() implies !#[trigger] level_empty(
                        a,
                        silent,
                        text,
                        strategy,
                        l,
                    ) by {
                        assert(jump.levels()[l].len() != 0);
                        let q = jump.levels()[l][0];
                        assert(jump.levels()[l].contains(q));
                        assert(in_kept(a, silent, text, strategy, l, q));
                    }
                }
                return;
            },
            TrimmingStrategy::PartialTrimming => {},
            TrimmingStrategy::FullTrimming => {
                let ghost before = *jump;
                let closure = self.automaton.get_closure_for_assignations();
                jump.trim_last_level(self.automaton.get_finals(), closure);
                proof {
                    let last = before.levels()[n as int];
                    assert(before.levels().last() == last);
                    assert forall|q: usize| last.contains(q) <==> in_forward(a, silent, text, text.len() as int, q) by {
                        assert(before.levels()[n as int].contains(q) <==> in_forward(a, silent, text, n as int, q));
                    }
                    lemma_kept_last(a, silent, text, adj_view(closure), last);
                }
            },
        }
        let mut level: usize = n;
        proof {
            assert forall|l: int, q: usize| level <= l <= text.len() implies (#[trigger] jump.levels()[l].contains(q)
                <==> in_kept(a, silent, text, strategy, l, q)) by {
                if strategy is PartialTrimming {
                    assert(old(jump).levels()[l].contains(q) <==> in_forward(a, silent, text, l, q));
                }
            }
            assert forall|l: int, q: usize| 0 <= l < level implies (#[trigger] jump.levels()[l].contains(q)
                <==> in_forward(a, silent, text, l, q)) by {
                assert(jump.levels()[l] == old(jump).levels()[l]);
                assert(old(jump).levels()[l].contains(q) <==> in_forward(a, silent, text, l, q));
            }
        }
        while level > 0
            invariant
                level <= n,
                n == text.len(),
                self.wf(),
                a == self.automaton@,
                silent == self.automaton.silent_adj(),
                text == self.text@,
                strategy == self.trimming_strategy,
                !(strategy is NoTrimming),
                jump.wf(),
                jump.marks() == silent,
                jump.spec_num_vertices() == a.nb_states,
                jump.levels().len() == n + 1,
                forall|l: int, q: usize|
                    level <= l <= n ==> (#[trigger] jump.levels()[l].contains(q) <==> in_kept(
                        a,
                        silent,
                        text,
                        strategy,
                        l,
                        q,
                    )),
                forall|l: int, q: usize|
                    0 <= l < level ==> (#[trigger] jump.levels()[l].contains(q) <==> in_forward(
                        a,
                        silent,
                        text,
                        l,
                        q,
                    )),
            decreases level,
        {
            let ghost before = *jump;
            let rev = self.automaton.get_rev_adj_for_char_with_closure(self.text[level - 1]);
            jump.trim_level(level, &rev);
            proof {
                let prev = before.levels()[level - 1];
                let next = before.levels()[level as int];
                assert forall|q: usize| prev.contains(q) <==> in_forward(a, silent, text, level - 1, q) by {
                    assert(before.levels()[level - 1].contains(q) <==> in_forward(a, silent, text, level - 1, q));
                }
                assert forall|q: usize| next.contains(q) <==> in_kept(a, silent, text, strategy, level - 1 + 1, q) by {
                    assert(before.levels()[level as int].contains(q) <==> in_kept(
                        a,
                        silent,
                        text,
                        strategy,
                        level as int,
                        q,
                    ));
                }
                lemma_kept_prev(a, silent, text, strategy, level - 1, adj_view(&rev), prev, next);
                assert forall|l: int, q: usize| level - 1 <= l <= n implies (#[trigger] jump.levels()[l].contains(q)
                    <==> in_kept(a, silent, text, strategy, l, q)) by {
                    if l >= level {
                        assert(jump.levels()[l] == before.levels()[l]);
                        assert(before.levels()[l].contains(q) <==> in_kept(a, silent, text, strategy, l, q));
                    }
                }
                assert forall|l: int, q: usize| 0 <= l < level - 1 implies (#[trigger] jump.levels()[l].contains(q)
                    <==> in_forward(a, silent, text, l, q)) by {
                    assert(jump.levels()[l] == before.levels()[l]);
                    assert(before.levels()[l].contains(q) <==> in_forward(a, silent, text, l, q));
                }
            }
            level -= 1;
        }
        proof {
            if jump.spec_disconnected() {
                let l = choose|l: int| 0 <= l < jump.levels().len() && (#[trigger] jump.levels()[l]).len() == 0;
                assert forall|q: usize| !in_kept(a, silent, text, strategy, l, q) by {
                    if in_kept(a, silent, text, strategy, l, q) {
                        assert(jump.levels()[l].contains(q));
                    }
                }
                assert(level_empty(a, silent, text, strategy, l));
            }
            if exists|l: int| 0 <= l <= text.len() && #[trigger] level_empty(a, silent, text, strategy, l) {
                let l = choose|l: int| 0 <= l <= text.len() && #[trigger] level_empty(a, silent, text, strategy, l);
                if jump.levels()[l].len() > 0 {
                    let q = jump.levels()[l][0];
                    assert(jump.levels()[l].contains(q));
                    assert(in_kept(a, silent, text, strategy, l, q));
                }
                assert(jump.levels()[l].len() == 0);
            }
        }
    }

    /// The third phase: the tables of every level are filled again, from the
    /// first level up. Nothing is done where the graph is disconnected.
    pub fn reindex(&self, jump: &mut Jump)
        requires
            self.wf(),
            trimmed_for(old(jump), &self.spec_automaton(), self.spec_text(), self.spec_strategy()),
        ensures
            indexed_for(final(jump), &self.spec_automaton(), self.spec_text(), self.spec_strategy()),
            final(jump).levels() == old(jump).levels(),
    {
        let ghost a = self.automaton@;
        let ghost text = self.text@;
        let n = self.text.len();
        if jump.is_disconnected() {
            return;
        }
        jump.clear_index();
        let top = self.positions.len();
        let mut level: usize = 1;
        while level < top
            invariant
                1 <= level <= n + 1,
                top == n + 1,
                n == text.len(),
                self.wf(),
                a == self.automaton@,
                text == self.text@,
                jump.wf(),
                jump.indexed() == level - 1,
                jump.levels() == old(jump).levels(),
                jump.levels().len() == n + 1,
                jump.marks() == old(jump).marks(),
                jump.spec_num_vertices() == old(jump).spec_num_vertices(),
                jump.spec_num_vertices() == a.nb_states,
                jump.spec_disconnected() == old(jump).spec_disconnected(),
                forall|l: int| 1 <= l < level ==> is_char_adj(a, text[l - 1], #[trigger] jump.steps()[l]),
            decreases n + 1 - level,
        {
            let ghost before = *jump;
            let adj = self.automaton.get_adj_for_char(self.text[level - 1]);
            jump.init_reach(level, &adj);
            proof {
                assert forall|l: int| 1 <= l < level + 1 implies is_char_adj(a, text[l - 1], #[trigger] jump.steps()[l]) by {
                    if l < level {
                        assert(jump.steps()[l] == before.steps()[l]);
                    }
                }
            }
            level += 1;
        }
    }

    /// Builds the index: the levels, trimmed as the strategy asks, and the
    /// jump tables.
    pub fn preprocess(&mut self)
        requires
            old(self).wf(),
            old(self).index() is None,
        ensures
            final(self).wf(),
            final(self).index() is Some,
            final(self).spec_automaton() == old(self).spec_automaton(),
            final(self).spec_text() == old(self).spec_text(),
            final(self).spec_strategy() == old(self).spec_strategy(),
            final(self).spec_jump_distance() == old(self).spec_jump_distance(),
            final(self).spec_toggle_progress() == old(self).spec_toggle_progress(),
    {
        let mut jump = self.build();
        self.trim(&mut jump);
        self.reindex(&mut jump);
        self.jump = Some(jump);
    }

    /// Puts in place an index that was built for this automaton, text and
    /// strategy, phase by phase.
    pub fn install(&mut self, jump: Jump)
        requires
            old(self).wf(),
            indexed_for(&jump, &old(self).spec_automaton(), old(self).spec_text(), old(self).spec_strategy()),
        ensures
            final(self).wf(),
            final(self).index() == Some(jump),
            final(self).spec_automaton() == old(self).spec_automaton(),
            final(self).spec_text() == old(self).spec_text(),
            final(self).spec_strategy() == old(self).spec_strategy(),
            final(self).spec_jump_distance() == old(self).spec_jump_distance(),
            final(self).spec_toggle_progress() == old(self).spec_toggle_progress(),
    {
        self.jump = Some(jump);
    }

    /// The number of levels of the index; `None` before `preprocess`. For an
    /// index that is not disconnected it is the number of characters and
    /// one. For a disconnected index it is never that number: where no state
    /// is reached after fewer characters than the text has, it is the number
    /// of the levels that were built, of which the last is the first that
    /// no state reaches; otherwise, as where trimming has emptied a level,
    /// it is `None`.
    pub fn num_levels(&self) -> (n: Option<usize>)
        requires
            self.wf(),
        ensures
            match self.index() {
                None => n is None,
                Some(j) => {
                    let whole = self.spec_text().len() + 1;
                    &&& whole <= usize::MAX
                    &&& (j.spec_disconnected() <==> exists|l: int|
                        0 <= l <= self.spec_text().len() && #[trigger] level_empty(
                            self.spec_automaton()@,
                            self.spec_automaton().silent_adj(),
                            self.spec_text(),
                            self.spec_strategy(),
                            l,
                        ))
                    &&& built_levels(
                        self.spec_automaton()@,
                        self.spec_automaton().silent_adj(),
                        self.spec_text(),
                        j.levels().len() as int,
                    )
                    &&& (!j.spec_disconnected() ==> j.levels().len() == whole && n == Some(whole as usize))
                    &&& (j.spec_disconnected() ==> n != Some(whole as usize))
                    &&& (j.spec_disconnected() && j.levels().len() < whole ==> n == Some(j.levels().len() as usize))
                    &&& (j.spec_disconnected() && j.levels().len() >= whole ==> n is None)
                },
            },
    {
        match &self.jump {
            Some(j) => {
                let built = j.get_nb_levels();
                let whole = self.positions.len();
                if j.is_disconnected() && built >= whole {
                    None
                } else {
                    Some(built)
                }
            },
            None => None,
        }
    }

    /// Whether the index found that some level of the trimmed product is
    /// empty, so that there is no match; `false` before `preprocess`.
    pub fn is_disconnected(&self) -> (b: bool)
        requires
            self.wf(),
        ensures
            b == match self.index() {
                Some(j) => exists|l: int|
                    0 <= l <= self.spec_text().len() && #[trigger] level_empty(
                        self.spec_automaton()@,
                        self.spec_automaton().silent_adj(),
                        self.spec_text(),
                        self.spec_strategy(),
                        l,
                    ),
                None => false,
            },
    {
        match &self.jump {
            Some(j) => j.is_disconnected(),
            None => false,
        }
    }

    /// The trimming strategy.
    pub fn get_trimming_strategy(&self) -> (s: TrimmingStrategy)
        ensures
            s == self.spec_strategy(),
    {
        self.trimming_strategy
    }

    /// The jump distance that was given.
    pub fn get_jump_distance(&self) -> (d: usize)
        ensures
            d == self.spec_jump_distance(),
    {
        self.jump_distance
    }

    /// Whether progress is to be shown.
    pub fn shows_progress(&self) -> (b: bool)
        ensures
            b == self.spec_toggle_progress(),
    {
        self.toggle_progress
    }

    /// The automaton.
    pub fn get_automaton(&self) -> (a: &Automaton)
        ensures
            *a == self.spec_automaton(),
    {
        &self.automaton
    }

    /// The jump index, once it is built.
    pub fn get_jump(&self) -> (jump: &Option<Jump>)
        ensures
            *jump == self.index(),
    {
        &self.jump
    }

    /// The byte offset in the text at which `level` stands.
    pub fn get_pos(&self, level: usize) -> (pos: usize)
        requires
            self.wf(),
            level <= self.spec_text().len(),
        ensures
            pos == byte_offset(self.spec_text(), level as int),
    {
        self.positions[level]
    }
}

} // verus!
