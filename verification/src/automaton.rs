//! Variable automata: finite automata whose edges either read one character
//! or mark the place where a capture variable opens or closes.

use crate::bits::{members, set_insert, set_new};
use crate::graph::{
    adj_view, adjacency_ok, empty_lists, has_edge, lemma_adj_push, lemma_adj_push_ok, lemma_edge_then_reaches,
    lemma_reaches_cases, lemma_reaches_strictly_first, reaches, reaches_strictly, transpose,
};
use crate::layers::{lemma_push_new, reached_from, saturate};
use crate::levelset::LevelSet;
use crate::walks::{
    is_back_walk, labels_distinct, lemma_walk_sub, lemma_walk_take, no_repeat, walk_end,
};
use bit_set::BitSet;
use vstd::prelude::*;

verus! {

/// An edge that reads one character whose code point lies between `low` and
/// `high`, both included.
#[derive(Clone, Copy, Debug, PartialEq, Eq, Structural)]
pub struct CharEdge {
    pub source: usize,
    pub low: u32,
    pub high: u32,
    pub target: usize,
}

/// An edge that reads nothing and emits the marker `marker`. Marker `2 * v`
/// opens variable `v` and marker `2 * v + 1` closes it.
#[derive(Clone, Copy, Debug, PartialEq, Eq, Structural)]
pub struct MarkerEdge {
    pub source: usize,
    pub marker: usize,
    pub target: usize,
}

/// What an automaton is, apart from how it is stored.
pub struct AutomatonView {
    pub nb_states: nat,
    pub nb_vars: nat,
    pub initial: usize,
    pub finals: Set<usize>,
    pub char_edges: Seq<CharEdge>,
    pub marker_edges: Seq<MarkerEdge>,
}

impl AutomatonView {
    /// Some edge from `p` to `q` reads the character `c`.
    pub open spec fn char_step(&self, p: usize, c: char, q: usize) -> bool {
        exists|i: int|
            0 <= i < self.char_edges.len() && (#[trigger] self.char_edges[i]).source == p && self.char_edges[i].target
                == q && self.char_edges[i].low <= c as u32 <= self.char_edges[i].high
    }

    /// Some edge from `p` to `q` emits the marker `m`.
    pub open spec fn marker_step(&self, p: usize, m: usize, q: usize) -> bool {
        self.marker_edges.contains(MarkerEdge { source: p, marker: m, target: q })
    }

    /// Some marker edge leads from `p` to `q`.
    pub open spec fn silent_step(&self, p: usize, q: usize) -> bool {
        exists|m: usize| #[trigger] self.marker_step(p, m, q)
    }

    /// `w` is a non-empty list of states, each joined to the next by a
    /// marker edge.
    pub open spec fn is_silent_walk(&self, w: Seq<usize>) -> bool {
        &&& w.len() > 0
        &&& forall|i: int| 0 <= i < w.len() - 1 ==> self.silent_step(#[trigger] w[i], w[i + 1])
    }

    /// Marker edges lead from `p` to `q`, or `p` is `q`.
    pub open spec fn silent_reaches(&self, p: usize, q: usize) -> bool {
        exists|w: Seq<usize>| self.is_silent_walk(w) && w[0] == p && w.last() == q
    }

    /// No marker can be emitted twice without a character read in between:
    /// from the target of an edge that emits it, marker edges never lead to
    /// the source of an edge that emits it.
    pub open spec fn markers_once(&self) -> bool {
        forall|i: int, j: int|
            0 <= i < self.marker_edges.len() && 0 <= j < self.marker_edges.len() && (#[trigger] self.marker_edges[i]).marker
                == (#[trigger] self.marker_edges[j]).marker ==> !self.silent_reaches(
                self.marker_edges[i].target,
                self.marker_edges[j].source,
            )
    }

    /// The initial state, the final states and the ends of every edge are
    /// states.
    pub open spec fn states_ok(&self) -> bool {
        &&& self.initial < self.nb_states
        &&& forall|q: usize| self.finals.contains(q) ==> q < self.nb_states
        &&& forall|i: int|
            0 <= i < self.char_edges.len() ==> (#[trigger] self.char_edges[i]).source < self.nb_states
                && self.char_edges[i].target < self.nb_states
        &&& forall|i: int|
            0 <= i < self.marker_edges.len() ==> (#[trigger] self.marker_edges[i]).source < self.nb_states
                && self.marker_edges[i].target < self.nb_states
    }

    /// Every marker opens or closes one of the variables.
    pub open spec fn markers_ok(&self) -> bool {
        forall|i: int| 0 <= i < self.marker_edges.len() ==> (#[trigger] self.marker_edges[i]).marker < 2 * self.nb_vars
    }

    /// The automaton is in order: its states, its markers, and no marker
    /// twice with no character in between.
    pub open spec fn wf(&self) -> bool {
        self.states_ok() && self.markers_ok() && self.markers_once()
    }
}

/// `adj` lists, for each state, the states to which a marker edge of `a`
/// leads.
pub open spec fn is_silent_adj(a: AutomatonView, adj: Seq<Seq<usize>>) -> bool {
    &&& adjacency_ok(adj, a.nb_states)
    &&& forall|p: usize, q: usize| #[trigger] has_edge(adj, p, q) <==> a.silent_step(p, q)
}

/// Walks along the marker adjacency are walks along the marker edges.
pub proof fn lemma_silent_reaches(a: AutomatonView, adj: Seq<Seq<usize>>, p: usize, q: usize)
    requires
        is_silent_adj(a, adj),
    ensures
        a.silent_reaches(p, q) <==> reaches(adj, p, q),
{
    if a.silent_reaches(p, q) {
        let w = choose|w: Seq<usize>| a.is_silent_walk(w) && w[0] == p && w.last() == q;
        assert forall|i: int| 0 <= i < w.len() - 1 implies has_edge(adj, #[trigger] w[i], w[i + 1]) by {
            assert(a.silent_step(w[i], w[i + 1]));
        }
        assert(crate::graph::is_walk(adj, w));
    }
    if reaches(adj, p, q) {
        let w = choose|w: Seq<usize>| crate::graph::is_walk(adj, w) && w[0] == p && w.last() == q;
        assert forall|i: int| 0 <= i < w.len() - 1 implies a.silent_step(#[trigger] w[i], w[i + 1]) by {
            assert(has_edge(adj, w[i], w[i + 1]));
        }
        assert(a.is_silent_walk(w));
    }
}

/// Against the edges, a walk leads back: marker edges lead from its end to
/// its start.
pub proof fn lemma_back_walk_reaches(
    a: AutomatonView,
    silent: Seq<Seq<usize>>,
    rev: Seq<Seq<(usize, usize)>>,
    g: usize,
    walk: Seq<(usize, usize)>,
)
    requires
        is_silent_adj(a, silent),
        is_back_adj(a, rev),
        is_back_walk(rev, g, walk),
    ensures
        reaches(silent, walk_end(g, walk), g),
    decreases walk.len(),
{
    if walk.len() == 0 {
        crate::graph::lemma_reaches_self(silent, g);
    } else {
        let shorter = walk.drop_last();
        lemma_back_walk_reaches(a, silent, rev, g, shorter);
        let from = walk_end(g, shorter);
        let step = walk.last();
        assert(rev[from as int].contains((step.0, step.1)));
        assert(a.marker_step(step.1, step.0, from));
        assert(a.silent_step(step.1, from));
        assert(has_edge(silent, step.1, from));
        lemma_edge_then_reaches(silent, step.1, from, g);
        lemma_reaches_cases(silent, step.1, g);
    }
}

/// Where no marker can be emitted twice in a row of marker edges, no walk
/// against the edges passes a marker twice.
pub proof fn lemma_no_repeat(a: AutomatonView, silent: Seq<Seq<usize>>, rev: Seq<Seq<(usize, usize)>>)
    requires
        a.markers_once(),
        is_silent_adj(a, silent),
        is_back_adj(a, rev),
    ensures
        no_repeat(rev),
{
    assert forall|g: usize, walk: Seq<(usize, usize)>| #[trigger] is_back_walk(rev, g, walk) implies labels_distinct(
        walk,
    ) by {
        assert forall|i: int, j: int| 0 <= i < j < walk.len() implies (#[trigger] walk[i]).0 != (#[trigger] walk[j]).0 by {
            if walk[i].0 == walk[j].0 {
                let m = walk[i].0;
                lemma_walk_take(rev, g, walk, i);
                lemma_walk_take(rev, g, walk, j);
                let ui = walk_end(g, walk.take(i));
                let uj = walk_end(g, walk.take(j));
                let si = walk[i].1;
                let sj = walk[j].1;
                assert(rev[ui as int].contains((m, si)));
                assert(rev[uj as int].contains((m, sj)));
                assert(a.marker_step(si, m, ui));
                assert(a.marker_step(sj, m, uj));
                let ei = MarkerEdge { source: si, marker: m, target: ui };
                let ej = MarkerEdge { source: sj, marker: m, target: uj };
                let xi = choose|x: int| 0 <= x < a.marker_edges.len() && a.marker_edges[x] == ei;
                let xj = choose|x: int| 0 <= x < a.marker_edges.len() && a.marker_edges[x] == ej;
                lemma_walk_sub(rev, g, walk, i + 1, j);
                assert(walk.take(i + 1).last() == walk[i]);
                assert(walk_end(g, walk.take(i + 1)) == si);
                lemma_back_walk_reaches(a, silent, rev, si, walk.subrange(i + 1, j));
                assert(reaches(silent, uj, si));
                lemma_silent_reaches(a, silent, uj, si);
                assert(a.marker_edges[xj].marker == a.marker_edges[xi].marker);
                assert(!a.silent_reaches(a.marker_edges[xj].target, a.marker_edges[xi].source));
            }
        }
    }
}

/// `adj` lists, for each state, the states that it reaches by one marker
/// edge of `a` or more.
pub open spec fn is_closure_adj(a: AutomatonView, silent: Seq<Seq<usize>>, adj: Seq<Seq<usize>>) -> bool {
    &&& adjacency_ok(adj, a.nb_states)
    &&& forall|p: usize, q: usize| #[trigger] has_edge(adj, p, q) <==> reaches_strictly(silent, p, q)
}

/// `adj` lists, for each state, the states to which an edge of `a` that
/// reads `c` leads.
pub open spec fn is_char_adj(a: AutomatonView, c: char, adj: Seq<Seq<usize>>) -> bool {
    &&& adjacency_ok(adj, a.nb_states)
    &&& forall|p: usize, q: usize| #[trigger] has_edge(adj, p, q) <==> a.char_step(p, c, q)
}

/// From `p`, marker edges and then one edge that reads `c` lead to `q`.
pub open spec fn leads_by_char(a: AutomatonView, silent: Seq<Seq<usize>>, p: usize, c: char, q: usize) -> bool {
    exists|hop: usize| reaches(silent, p, hop) && #[trigger] a.char_step(hop, c, q)
}

/// `adj` lists, for each state `q`, the states from which marker edges and
/// then one edge that reads `c` lead to `q`.
pub open spec fn is_rev_char_adj(a: AutomatonView, silent: Seq<Seq<usize>>, c: char, adj: Seq<Seq<usize>>) -> bool {
    &&& adjacency_ok(adj, a.nb_states)
    &&& forall|p: usize, q: usize| #[trigger] has_edge(adj, q, p) <==> leads_by_char(a, silent, p, c, q)
}

/// One of the first `upto` edges reads `c` and leads from `p` to `q`.
pub open spec fn read_upto(edges: Seq<CharEdge>, c: char, upto: int, p: usize, q: usize) -> bool {
    exists|j: int|
        0 <= j < upto && (#[trigger] edges[j]).source == p && edges[j].target == q && edges[j].low <= c as u32
            <= edges[j].high
}

/// One of the first `upto` edges reads `c` and leads to `q` from `p` or
/// from a state that `rc` lists for `p`.
pub open spec fn back_upto(
    edges: Seq<CharEdge>,
    rc: Seq<Seq<usize>>,
    c: char,
    upto: int,
    q: usize,
    p: usize,
) -> bool {
    exists|j: int|
        0 <= j < upto && (#[trigger] edges[j]).target == q && edges[j].low <= c as u32 <= edges[j].high && (p
            == edges[j].source || has_edge(rc, edges[j].source, p))
}

/// The labelled lists held by `rev`.
pub open spec fn labelled_view(rev: &Vec<Vec<(usize, usize)>>) -> Seq<Seq<(usize, usize)>> {
    Seq::new(rev@.len(), |q: int| rev@[q]@)
}

/// `rev` lists, for each state `q`, the pairs of a marker `m` and a state `p`
/// with a marker edge of `a` from `p` to `q` that emits `m`.
pub open spec fn is_back_adj(a: AutomatonView, rev: Seq<Seq<(usize, usize)>>) -> bool {
    &&& rev.len() == a.nb_states
    &&& forall|q: int, i: int|
        0 <= q < rev.len() && 0 <= i < rev[q].len() ==> (#[trigger] rev[q][i]).1 < a.nb_states && rev[q][i].0 < 2
            * a.nb_vars
    &&& forall|p: usize, m: usize, q: usize|
        q < rev.len() && #[trigger] rev[q as int].contains((m, p)) <==> a.marker_step(p, m, q)
}

pub struct Automaton {
    nb_states: usize,
    initial: usize,
    finals: BitSet<u32>,
    variables: Vec<String>,
    char_edges: Vec<CharEdge>,
    marker_edges: Vec<MarkerEdge>,
    /// For each state, the targets of its marker edges.
    silent: Vec<Vec<usize>>,
    /// For each state, the marker edges that lead to it.
    rev_assignations: Vec<Vec<(usize, usize)>>,
    /// For each state, the states reached by one marker edge or more.
    closure: Vec<Vec<usize>>,
    /// For each state, the states that reach it by one marker edge or more.
    rev_closure: Vec<Vec<usize>>,
}

impl View for Automaton {
    type V = AutomatonView;

    closed spec fn view(&self) -> AutomatonView {
        AutomatonView {
            nb_states: self.nb_states as nat,
            nb_vars: self.variables@.len(),
            initial: self.initial,
            finals: members(self.finals),
            char_edges: self.char_edges@,
            marker_edges: self.marker_edges@,
        }
    }
}

/// Why a list of edges is not an automaton.
#[derive(Clone, Copy, Debug, PartialEq, Eq, Structural)]
pub enum AutomatonError {
    /// The initial state, a final state or an end of an edge is not below
    /// the number of states.
    StateOutOfRange,
    /// Twice the number of variables does not fit the machine's integers.
    TooManyVariables,
    /// A marker is not below twice the number of variables.
    MarkerOutOfRange,
    /// Some marker can be emitted twice without a character read in between.
    RepeatedMarker,
}

/// Some edge among the first `upto` of `edges` leads from `p` to `q`.
pub open spec fn joined_by(edges: Seq<MarkerEdge>, upto: int, p: usize, q: usize) -> bool {
    exists|j: int| 0 <= j < upto && (#[trigger] edges[j]).source == p && edges[j].target == q
}

/// For each state below `n`, the targets of the marker edges that leave it.
fn list_silent(n: usize, edges: &Vec<MarkerEdge>) -> (silent: Vec<Vec<usize>>)
    requires
        forall|j: int| 0 <= j < edges@.len() ==> (#[trigger] edges@[j]).source < n && edges@[j].target < n,
    ensures
        adjacency_ok(adj_view(&silent), n as nat),
        forall|p: usize, q: usize| #[trigger]
            has_edge(adj_view(&silent), p, q) <==> joined_by(edges@, edges@.len() as int, p, q),
{
    let mut silent: Vec<Vec<usize>> = empty_lists(n);
    let mut i: usize = 0;
    while i < edges.len()
        invariant
            i <= edges@.len(),
            forall|j: int| 0 <= j < edges@.len() ==> (#[trigger] edges@[j]).source < n && edges@[j].target < n,
            adjacency_ok(adj_view(&silent), n as nat),
            forall|p: usize, q: usize| #[trigger] has_edge(adj_view(&silent), p, q) <==> joined_by(edges@, i as int, p, q),
        decreases edges@.len() - i,
    {
        let e = edges[i];
        let ghost before = adj_view(&silent);
        silent[e.source].push(e.target);
        proof {
            let after = adj_view(&silent);
            assert(after =~= before.update(e.source as int, before[e.source as int].push(e.target)));
            lemma_adj_push(before, after, e.source, e.target);
            lemma_adj_push_ok(before, after, e.source, e.target, n as nat);
            assert forall|p: usize, q: usize| #[trigger] has_edge(after, p, q) <==> joined_by(edges@, i + 1, p, q) by {
                if joined_by(edges@, i + 1, p, q) {
                    let j = choose|j: int| 0 <= j < i + 1 && (#[trigger] edges@[j]).source == p && edges@[j].target == q;
                    if j < i {
                        assert(joined_by(edges@, i as int, p, q));
                    }
                }
                if has_edge(before, p, q) {
                    let j = choose|j: int| 0 <= j < i && (#[trigger] edges@[j]).source == p && edges@[j].target == q;
                    assert(0 <= j < i + 1 && edges@[j].source == p && edges@[j].target == q);
                }
                if p == e.source && q == e.target {
                    assert(0 <= i < i + 1 && edges@[i as int].source == p && edges@[i as int].target == q);
                }
            }
        }
        i += 1;
    }
    silent
}

/// For each state below `n`, the marker edges that lead to it, each as its
/// marker and its source.
fn list_back(n: usize, edges: &Vec<MarkerEdge>) -> (back: Vec<Vec<(usize, usize)>>)
    requires
        forall|j: int| 0 <= j < edges@.len() ==> (#[trigger] edges@[j]).source < n && edges@[j].target < n,
    ensures
        back@.len() == n,
        forall|q: int, k: int|
            0 <= q < n && 0 <= k < back@[q]@.len() ==> edges@.contains(
                MarkerEdge { source: (#[trigger] back@[q]@[k]).1, marker: back@[q]@[k].0, target: q as usize },
            ),
        forall|j: int|
            0 <= j < edges@.len() ==> back@[(#[trigger] edges@[j]).target as int]@.contains(
                (edges@[j].marker, edges@[j].source),
            ),
{
    let mut back: Vec<Vec<(usize, usize)>> = empty_lists(n);
    let mut i: usize = 0;
    while i < edges.len()
        invariant
            i <= edges@.len(),
            forall|j: int| 0 <= j < edges@.len() ==> (#[trigger] edges@[j]).source < n && edges@[j].target < n,
            back@.len() == n,
            forall|q: int, k: int|
                0 <= q < n && 0 <= k < back@[q]@.len() ==> edges@.contains(
                    MarkerEdge { source: (#[trigger] back@[q]@[k]).1, marker: back@[q]@[k].0, target: q as usize },
                ),
            forall|j: int|
                0 <= j < i ==> back@[(#[trigger] edges@[j]).target as int]@.contains(
                    (edges@[j].marker, edges@[j].source),
                ),
        decreases edges@.len() - i,
    {
        let e = edges[i];
        let ghost before = back@;
        back[e.target].push((e.marker, e.source));
        proof {
            let t = e.target as int;
            assert(back@[t]@ == before[t]@.push((e.marker, e.source)));
            assert forall|q: int, k: int| 0 <= q < n && 0 <= k < back@[q]@.len() implies edges@.contains(
                MarkerEdge { source: (#[trigger] back@[q]@[k]).1, marker: back@[q]@[k].0, target: q as usize },
            ) by {
                if q == t && k == before[t]@.len() {
                    assert(edges@[i as int] == MarkerEdge { source: e.source, marker: e.marker, target: e.target });
                } else {
                    assert(back@[q]@[k] == before[q]@[k]);
                }
            }
            assert forall|j: int| 0 <= j < i + 1 implies back@[(#[trigger] edges@[j]).target as int]@.contains(
                (edges@[j].marker, edges@[j].source),
            ) by {
                let x = edges@[j].target as int;
                if j < i {
                    let k = choose|k: int|
                        0 <= k < before[x]@.len() && before[x]@[k] == (edges@[j].marker, edges@[j].source);
                    assert(back@[x]@[k] == before[x]@[k]);
                } else {
                    assert(back@[t]@[before[t]@.len() as int] == (e.marker, e.source));
                }
            }
        }
        i += 1;
    }
    back
}

/// For each vertex, the vertices that it reaches by one edge of `adj` or
/// more.
fn close(adj: &Vec<Vec<usize>>) -> (closure: Vec<Vec<usize>>)
    requires
        adjacency_ok(adj_view(adj), adj@.len()),
    ensures
        adjacency_ok(adj_view(&closure), adj@.len()),
        forall|p: usize, q: usize| #[trigger]
            has_edge(adj_view(&closure), p, q) <==> reaches_strictly(adj_view(adj), p, q),
{
    let ghost adjv = adj_view(adj);
    let n = adj.len();
    let mut closure: Vec<Vec<usize>> = Vec::new();
    let mut p: usize = 0;
    while p < n
        invariant
            p <= n,
            n == adj@.len(),
            adjv == adj_view(adj),
            adjacency_ok(adjv, n as nat),
            closure@.len() == p,
            forall|a: int, i: int| 0 <= a < p && 0 <= i < closure@[a]@.len() ==> (#[trigger] closure@[a]@[i]) < n,
            forall|a: usize, b: usize|
                a < p ==> (#[trigger] closure@[a as int]@.contains(b) <==> reaches_strictly(adjv, a, b)),
        decreases n - p,
    {
        let mut scratch = LevelSet::new(1, n);
        scratch.add_level();
        let m = adj[p].len();
        let mut j: usize = 0;
        while j < m
            invariant
                j <= m,
                p < n,
                m == adj@[p as int]@.len(),
                adjv == adj_view(adj),
                adjacency_ok(adjv, n as nat),
                scratch.wf(),
                scratch.spec_num_vertices() == n,
                scratch@.len() == 1,
                forall|q: usize| scratch@[0].contains(q) ==> has_edge(adjv, p, q),
                forall|k: int| 0 <= k < j ==> scratch@[0].contains(#[trigger] adjv[p as int][k]),
            decreases m - j,
        {
            let t = adj[p][j];
            assert(t == adjv[p as int][j as int]);
            let ghost prior = scratch@[0];
            scratch.register(0, t);
            proof {
                lemma_push_new(prior, t);
            }
            j += 1;
        }
        let ghost seeds = scratch@[0];
        saturate(&mut scratch, 0, adj);
        let found = scratch.get_level(0);
        let mut copy: Vec<usize> = Vec::new();
        let mut k: usize = 0;
        while k < found.len()
            invariant
                k <= found@.len(),
                copy@ == found@.take(k as int),
            decreases found@.len() - k,
        {
            copy.push(found[k]);
            proof {
                assert(found@.take(k + 1) =~= found@.take(k as int).push(found@[k as int]));
            }
            k += 1;
        }
        proof {
            assert(found@.take(found@.len() as int) =~= found@);
            scratch.lemma_level_distinct(0);
            assert forall|b: usize| copy@.contains(b) <==> reaches_strictly(adjv, p, b) by {
                if reached_from(adjv, seeds, b) {
                    let t = choose|t: usize| seeds.contains(t) && #[trigger] reaches(adjv, t, b);
                    lemma_edge_then_reaches(adjv, p, t, b);
                }
                if reaches_strictly(adjv, p, b) {
                    let t = lemma_reaches_strictly_first(adjv, p, b);
                    let i = choose|i: int| 0 <= i < adjv[p as int].len() && adjv[p as int][i] == t;
                    assert(seeds.contains(adjv[p as int][i]));
                    assert(seeds.contains(t) && reaches(adjv, t, b));
                }
            }
        }
        closure.push(copy);
        p += 1;
    }
    proof {
        let cv = adj_view(&closure);
        assert forall|a: usize, b: usize| #[trigger] has_edge(cv, a, b) <==> reaches_strictly(adjv, a, b) by {
            if a < n {
                assert(closure@[a as int]@.contains(b) <==> reaches_strictly(adjv, a, b));
            } else {
                if reaches_strictly(adjv, a, b) {
                    let t = lemma_reaches_strictly_first(adjv, a, b);
                }
            }
        }
    }
    closure
}

/// Whether every entry of `states` is below `n`.
fn all_below(states: &Vec<usize>, n: usize) -> (b: bool)
    ensures
        b == forall|i: int| 0 <= i < states@.len() ==> states@[i] < n,
{
    let mut i: usize = 0;
    while i < states.len()
        invariant
            i <= states@.len(),
            forall|k: int| 0 <= k < i ==> states@[k] < n,
        decreases states@.len() - i,
    {
        if states[i] >= n {
            return false;
        }
        i += 1;
    }
    true
}

/// Whether both ends of every character edge are below `n`.
fn char_ends_below(edges: &Vec<CharEdge>, n: usize) -> (b: bool)
    ensures
        b == forall|i: int| 0 <= i < edges@.len() ==> (#[trigger] edges@[i]).source < n && edges@[i].target < n,
{
    let mut i: usize = 0;
    while i < edges.len()
        invariant
            i <= edges@.len(),
            forall|k: int| 0 <= k < i ==> (#[trigger] edges@[k]).source < n && edges@[k].target < n,
        decreases edges@.len() - i,
    {
        if edges[i].source >= n || edges[i].target >= n {
            return false;
        }
        i += 1;
    }
    true
}

/// Whether both ends of every marker edge are below `n`.
fn marker_ends_below(edges: &Vec<MarkerEdge>, n: usize) -> (b: bool)
    ensures
        b == forall|i: int| 0 <= i < edges@.len() ==> (#[trigger] edges@[i]).source < n && edges@[i].target < n,
{
    let mut i: usize = 0;
    while i < edges.len()
        invariant
            i <= edges@.len(),
            forall|k: int| 0 <= k < i ==> (#[trigger] edges@[k]).source < n && edges@[k].target < n,
        decreases edges@.len() - i,
    {
        if edges[i].source >= n || edges[i].target >= n {
            return false;
        }
        i += 1;
    }
    true
}

/// Whether every marker is below twice `nb_vars`.
fn markers_below(edges: &Vec<MarkerEdge>, nb_vars: usize) -> (b: bool)
    ensures
        b == forall|i: int| 0 <= i < edges@.len() ==> (#[trigger] edges@[i]).marker < 2 * nb_vars,
{
    let mut i: usize = 0;
    while i < edges.len()
        invariant
            i <= edges@.len(),
            forall|k: int| 0 <= k < i ==> (#[trigger] edges@[k]).marker < 2 * nb_vars,
        decreases edges@.len() - i,
    {
        if edges[i].marker / 2 >= nb_vars {
            return false;
        }
        i += 1;
    }
    true
}

/// Edges `i` and `j` emit the same marker, and the target of the first is
/// or reaches, by `closure`, the source of the second.
pub open spec fn repeats_at(edges: Seq<MarkerEdge>, closure: Seq<Seq<usize>>, i: int, j: int) -> bool {
    &&& 0 <= i < edges.len()
    &&& 0 <= j < edges.len()
    &&& edges[i].marker == edges[j].marker
    &&& (edges[i].target == edges[j].source || has_edge(closure, edges[i].target, edges[j].source))
}

/// Whether `list` holds `x`.
fn holds(list: &Vec<usize>, x: usize) -> (b: bool)
    ensures
        b == list@.contains(x),
{
    let mut k: usize = 0;
    while k < list.len()
        invariant
            k <= list@.len(),
            forall|i: int| 0 <= i < k ==> list@[i] != x,
        decreases list@.len() - k,
    {
        if list[k] == x {
            return true;
        }
        k += 1;
    }
    false
}

/// Whether some marker can be emitted twice in a row of marker edges.
fn find_repeat(edges: &Vec<MarkerEdge>, closure: &Vec<Vec<usize>>) -> (b: bool)
    requires
        forall|j: int|
            0 <= j < edges@.len() ==> (#[trigger] edges@[j]).source < closure@.len() && edges@[j].target
                < closure@.len(),
    ensures
        b == exists|i: int, j: int| repeats_at(edges@, adj_view(closure), i, j),
{
    let ghost cv = adj_view(closure);
    let mut i: usize = 0;
    while i < edges.len()
        invariant
            i <= edges@.len(),
            cv == adj_view(closure),
            forall|j: int|
                0 <= j < edges@.len() ==> (#[trigger] edges@[j]).source < closure@.len() && edges@[j].target
                    < closure@.len(),
            forall|a: int, b: int| 0 <= a < i ==> !repeats_at(edges@, cv, a, b),
        decreases edges@.len() - i,
    {
        let first = edges[i];
        let mut j: usize = 0;
        while j < edges.len()
            invariant
                j <= edges@.len(),
                i < edges@.len(),
                first == edges@[i as int],
                cv == adj_view(closure),
                forall|j: int|
                    0 <= j < edges@.len() ==> (#[trigger] edges@[j]).source < closure@.len() && edges@[j].target
                        < closure@.len(),
                forall|b: int| 0 <= b < j ==> !repeats_at(edges@, cv, i as int, b),
            decreases edges@.len() - j,
        {
            let second = edges[j];
            if first.marker == second.marker {
                if first.target == second.source || holds(&closure[first.target], second.source) {
                    proof {
                        assert(repeats_at(edges@, cv, i as int, j as int));
                    }
                    return true;
                }
            }
            j += 1;
        }
        i += 1;
    }
    false
}

impl Automaton {
    /// The adjacency of the marker edges, labels left out.
    pub closed spec fn silent_adj(&self) -> Seq<Seq<usize>> {
        adj_view(&self.silent)
    }

    /// The names of the variables, in the order of their numbers.
    pub closed spec fn spec_variables(&self) -> Seq<String> {
        self.variables@
    }

    /// For each state, the marker edges that lead to it, each as the pair of
    /// its marker and its source.
    pub closed spec fn back_adj(&self) -> Seq<Seq<(usize, usize)>> {
        labelled_view(&self.rev_assignations)
    }

    /// The lists derived from the edges agree with them.
    pub closed spec fn wf(&self) -> bool {
        &&& self@.wf()
        &&& 2 * self@.nb_vars <= usize::MAX
        &&& is_silent_adj(self@, adj_view(&self.silent))
        &&& is_back_adj(self@, labelled_view(&self.rev_assignations))
        &&& is_closure_adj(self@, adj_view(&self.silent), adj_view(&self.closure))
        &&& adjacency_ok(adj_view(&self.rev_closure), self.nb_states as nat)
        &&& forall|p: usize, q: usize| #[trigger]
            has_edge(adj_view(&self.rev_closure), q, p) <==> has_edge(adj_view(&self.closure), p, q)
    }

    /// A well-formed automaton has a well-formed view, and its marker
    /// adjacency lists the marker edges.
    pub proof fn lemma_wf(&self)
        requires
            self.wf(),
        ensures
            self@.wf(),
            2 * self@.nb_vars <= usize::MAX,
            is_silent_adj(self@, self.silent_adj()),
            is_back_adj(self@, self.back_adj()),
            no_repeat(self.back_adj()),
    {
        lemma_no_repeat(self@, self.silent_adj(), self.back_adj());
    }

    /// The automaton with the given states and edges. `variables` names the
    /// capture variables; marker `2 * v` opens variable `v` and marker
    /// `2 * v + 1` closes it.
    pub fn new(
        nb_states: usize,
        initial: usize,
        finals: Vec<usize>,
        char_edges: Vec<CharEdge>,
        marker_edges: Vec<MarkerEdge>,
        variables: Vec<String>,
    ) -> (r: Result<Automaton, AutomatonError>)
        ensures
            match r {
                Ok(a) => a.wf() && a.spec_variables() == variables@ && a@ == given_view(
                    nb_states,
                    initial,
                    finals@,
                    char_edges@,
                    marker_edges@,
                    variables@.len(),
                ),
                Err(AutomatonError::StateOutOfRange) => !given_view(
                    nb_states,
                    initial,
                    finals@,
                    char_edges@,
                    marker_edges@,
                    variables@.len(),
                ).states_ok(),
                Err(AutomatonError::TooManyVariables) => {
                    let v = given_view(nb_states, initial, finals@, char_edges@, marker_edges@, variables@.len());
                    v.states_ok() && 2 * variables@.len() > usize::MAX
                },
                Err(AutomatonError::MarkerOutOfRange) => {
                    let v = given_view(nb_states, initial, finals@, char_edges@, marker_edges@, variables@.len());
                    v.states_ok() && 2 * variables@.len() <= usize::MAX && !v.markers_ok()
                },
                Err(AutomatonError::RepeatedMarker) => {
                    let v = given_view(nb_states, initial, finals@, char_edges@, marker_edges@, variables@.len());
                    v.states_ok() && 2 * variables@.len() <= usize::MAX && v.markers_ok() && !v.markers_once()
                },
            },
    {
        let ghost given = given_view(nb_states, initial, finals@, char_edges@, marker_edges@, variables@.len());
        if initial >= nb_states {
            return Err(AutomatonError::StateOutOfRange);
        }
        if !all_below(&finals, nb_states) {
            proof {
                let i = choose|i: int| 0 <= i < finals@.len() && !(finals@[i] < nb_states);
                assert(given.finals.contains(finals@[i]));
            }
            return Err(AutomatonError::StateOutOfRange);
        }
        if !char_ends_below(&char_edges, nb_states) {
            proof {
                let i = choose|i: int|
                    0 <= i < char_edges@.len() && !((#[trigger] char_edges@[i]).source < nb_states
                        && char_edges@[i].target < nb_states);
                assert(given.char_edges[i] == char_edges@[i]);
            }
            return Err(AutomatonError::StateOutOfRange);
        }
        if !marker_ends_below(&marker_edges, nb_states) {
            proof {
                let i = choose|i: int|
                    0 <= i < marker_edges@.len() && !((#[trigger] marker_edges@[i]).source < nb_states
                        && marker_edges@[i].target < nb_states);
                assert(given.marker_edges[i] == marker_edges@[i]);
            }
            return Err(AutomatonError::StateOutOfRange);
        }
        assert(given.states_ok());
        if variables.len() > usize::MAX / 2 {
            return Err(AutomatonError::TooManyVariables);
        }
        if !markers_below(&marker_edges, variables.len()) {
            proof {
                let i = choose|i: int|
                    0 <= i < marker_edges@.len() && !((#[trigger] marker_edges@[i]).marker < 2 * variables@.len());
                assert(given.marker_edges[i] == marker_edges@[i]);
            }
            return Err(AutomatonError::MarkerOutOfRange);
        }
        let mut final_set = set_new();
        let mut i: usize = 0;
        while i < finals.len()
            invariant
                i <= finals@.len(),
                forall|k: int| 0 <= k < finals@.len() ==> finals@[k] < nb_states,
                forall|q: usize| members(final_set).contains(q) ==> finals@.contains(q),
                forall|k: int| 0 <= k < i ==> members(final_set).contains(#[trigger] finals@[k]),
            decreases finals@.len() - i,
        {
            set_insert(&mut final_set, finals[i]);
            i += 1;
        }
        assert(members(final_set) =~= finals@.to_set());
        let silent = list_silent(nb_states, &marker_edges);
        let rev_assignations = list_back(nb_states, &marker_edges);
        let closure = close(&silent);
        proof {
            let sv = adj_view(&silent);
            assert forall|p: usize, q: usize| #[trigger] has_edge(sv, p, q) <==> given.silent_step(p, q) by {
                if has_edge(sv, p, q) {
                    let j = choose|j: int|
                        0 <= j < marker_edges@.len() && (#[trigger] marker_edges@[j]).source == p
                            && marker_edges@[j].target == q;
                    let e = marker_edges@[j];
                    assert(e == MarkerEdge { source: p, marker: e.marker, target: q });
                    assert(given.marker_step(p, e.marker, q));
                }
                if given.silent_step(p, q) {
                    let m = choose|m: usize| #[trigger] given.marker_step(p, m, q);
                    let e = MarkerEdge { source: p, marker: m, target: q };
                    let j = choose|j: int| 0 <= j < marker_edges@.len() && marker_edges@[j] == e;
                    assert(marker_edges@[j].source == p && marker_edges@[j].target == q);
                    assert(joined_by(marker_edges@, marker_edges@.len() as int, p, q));
                }
            }
            assert(is_silent_adj(given, sv));
        }
        if find_repeat(&marker_edges, &closure) {
            proof {
                let sv = adj_view(&silent);
                let cv = adj_view(&closure);
                let (i, j) = choose|i: int, j: int| repeats_at(marker_edges@, cv, i, j);
                let t = marker_edges@[i].target;
                let x = marker_edges@[j].source;
                lemma_reaches_cases(sv, t, x);
                lemma_silent_reaches(given, sv, t, x);
                assert(given.marker_edges[i].marker == given.marker_edges[j].marker);
            }
            return Err(AutomatonError::RepeatedMarker);
        }
        proof {
            let sv = adj_view(&silent);
            let cv = adj_view(&closure);
            assert forall|i: int, j: int|
                0 <= i < given.marker_edges.len() && 0 <= j < given.marker_edges.len() && (#[trigger] given.marker_edges[i]).marker
                    == (#[trigger] given.marker_edges[j]).marker implies !given.silent_reaches(
                given.marker_edges[i].target,
                given.marker_edges[j].source,
            ) by {
                let t = marker_edges@[i].target;
                let x = marker_edges@[j].source;
                lemma_reaches_cases(sv, t, x);
                lemma_silent_reaches(given, sv, t, x);
                assert(!repeats_at(marker_edges@, cv, i, j));
            }
            assert(given.markers_once());
        }
        let rev_closure = transpose(&closure);
        let a = Automaton {
            nb_states,
            initial,
            finals: final_set,
            variables,
            char_edges,
            marker_edges,
            silent,
            rev_assignations,
            closure,
            rev_closure,
        };
        proof {
            assert(a@ == given);
            let sv = adj_view(&a.silent);
            assert forall|p: usize, q: usize| #[trigger] has_edge(sv, p, q) <==> given.silent_step(p, q) by {
                if has_edge(sv, p, q) {
                    let j = choose|j: int|
                        0 <= j < a.marker_edges@.len() && (#[trigger] a.marker_edges@[j]).source == p
                            && a.marker_edges@[j].target == q;
                    let e = a.marker_edges@[j];
                    assert(e == MarkerEdge { source: p, marker: e.marker, target: q });
                    assert(given.marker_step(p, e.marker, q));
                }
                if given.silent_step(p, q) {
                    let m = choose|m: usize| #[trigger] given.marker_step(p, m, q);
                    let e = MarkerEdge { source: p, marker: m, target: q };
                    let j = choose|j: int| 0 <= j < a.marker_edges@.len() && a.marker_edges@[j] == e;
                    assert(a.marker_edges@[j].source == p && a.marker_edges@[j].target == q);
                    assert(joined_by(a.marker_edges@, a.marker_edges@.len() as int, p, q));
                }
            }
            let lv = labelled_view(&a.rev_assignations);
            assert forall|q: int, k: int| 0 <= q < lv.len() && 0 <= k < lv[q].len() implies (#[trigger] lv[q][k]).1
                < given.nb_states && lv[q][k].0 < 2 * given.nb_vars by {
                let e = MarkerEdge { source: lv[q][k].1, marker: lv[q][k].0, target: q as usize };
                assert(a.rev_assignations@[q]@[k] == lv[q][k]);
                assert(a.marker_edges@.contains(e));
                let j = choose|j: int| 0 <= j < a.marker_edges@.len() && a.marker_edges@[j] == e;
                assert(a.marker_edges@[j].source < nb_states);
            }
            assert forall|p: usize, m: usize, q: usize|
                q < lv.len() && #[trigger] lv[q as int].contains((m, p)) <==> given.marker_step(p, m, q) by {
                if q < lv.len() && lv[q as int].contains((m, p)) {
                    let k = choose|k: int| 0 <= k < lv[q as int].len() && lv[q as int][k] == (m, p);
                    assert(a.rev_assignations@[q as int]@[k] == (m, p));
                }
                if given.marker_step(p, m, q) {
                    let e = MarkerEdge { source: p, marker: m, target: q };
                    let j = choose|j: int| 0 <= j < a.marker_edges@.len() && a.marker_edges@[j] == e;
                    assert(a.marker_edges@[j].target < nb_states);
                    assert(a.rev_assignations@[a.marker_edges@[j].target as int]@.contains((m, p)));
                }
            }
            assert(a.wf());
        }
        Ok(a)
    }

    /// The number of states.
    pub fn get_nb_states(&self) -> (n: usize)
        ensures
            n == self@.nb_states,
    {
        self.nb_states
    }

    /// The initial state.
    pub fn get_initial(&self) -> (q: usize)
        ensures
            q == self@.initial,
    {
        self.initial
    }

    /// The final states.
    pub fn get_finals(&self) -> (finals: &BitSet<u32>)
        ensures
            members(*finals) == self@.finals,
    {
        &self.finals
    }

    /// The number of capture variables.
    pub fn num_vars(&self) -> (n: usize)
        ensures
            n == self@.nb_vars,
    {
        self.variables.len()
    }

    /// The names of the capture variables, in the order of their numbers.
    pub fn get_variables(&self) -> (names: &Vec<String>)
        ensures
            names@ == self.spec_variables(),
            names@.len() == self@.nb_vars,
    {
        &self.variables
    }

    /// For each state, the targets of its edges that read `c`.
    pub fn get_adj_for_char(&self, c: char) -> (adj: Vec<Vec<usize>>)
        requires
            self.wf(),
        ensures
            is_char_adj(self@, c, adj_view(&adj)),
    {
        let ghost edges = self.char_edges@;
        let n = self.nb_states;
        let code = c as u32;
        let mut adj: Vec<Vec<usize>> = empty_lists(n);
        let mut i: usize = 0;
        while i < self.char_edges.len()
            invariant
                i <= edges.len(),
                edges == self.char_edges@,
                self@.wf(),
                n == self@.nb_states,
                code == c as u32,
                adjacency_ok(adj_view(&adj), n as nat),
                forall|p: usize, q: usize| #[trigger] has_edge(adj_view(&adj), p, q) <==> read_upto(edges, c, i as int, p, q),
            decreases edges.len() - i,
        {
            let e = self.char_edges[i];
            assert(e == self@.char_edges[i as int]);
            let ghost before = adj_view(&adj);
            if e.low <= code && code <= e.high {
                adj[e.source].push(e.target);
                proof {
                    let after = adj_view(&adj);
                    assert(after =~= before.update(e.source as int, before[e.source as int].push(e.target)));
                    lemma_adj_push(before, after, e.source, e.target);
                    lemma_adj_push_ok(before, after, e.source, e.target, n as nat);
                }
            }
            proof {
                let after = adj_view(&adj);
                assert forall|p: usize, q: usize| #[trigger] has_edge(after, p, q) <==> read_upto(edges, c, i + 1, p, q) by {
                    if read_upto(edges, c, i + 1, p, q) {
                        let j = choose|j: int|
                            0 <= j < i + 1 && (#[trigger] edges[j]).source == p && edges[j].target == q
                                && edges[j].low <= c as u32 <= edges[j].high;
                        if j < i {
                            assert(read_upto(edges, c, i as int, p, q));
                        }
                    }
                    if has_edge(before, p, q) {
                        let j = choose|j: int|
                            0 <= j < i && (#[trigger] edges[j]).source == p && edges[j].target == q && edges[j].low
                                <= c as u32 <= edges[j].high;
                        assert(0 <= j < i + 1 && edges[j].source == p);
                    }
                    if has_edge(after, p, q) && !has_edge(before, p, q) {
                        assert(0 <= i < i + 1 && edges[i as int].source == p);
                    }
                }
            }
            i += 1;
        }
        proof {
            assert forall|p: usize, q: usize| read_upto(edges, c, edges.len() as int, p, q) <==> self@.char_step(
                p,
                c,
                q,
            ) by {
                if read_upto(edges, c, edges.len() as int, p, q) {
                    let j = choose|j: int|
                        0 <= j < edges.len() && (#[trigger] edges[j]).source == p && edges[j].target == q
                            && edges[j].low <= c as u32 <= edges[j].high;
                    assert(self@.char_edges[j] == edges[j]);
                }
                if self@.char_step(p, c, q) {
                    let j = choose|j: int|
                        0 <= j < self@.char_edges.len() && (#[trigger] self@.char_edges[j]).source == p
                            && self@.char_edges[j].target == q && self@.char_edges[j].low <= c as u32
                            <= self@.char_edges[j].high;
                    assert(edges[j] == self@.char_edges[j]);
                }
            }
        }
        adj
    }

    /// For each state `q`, the states from which marker edges and then one
    /// edge that reads `c` lead to `q`.
    pub fn get_rev_adj_for_char_with_closure(&self, c: char) -> (adj: Vec<Vec<usize>>)
        requires
            self.wf(),
        ensures
            is_rev_char_adj(self@, self.silent_adj(), c, adj_view(&adj)),
    {
        let ghost edges = self.char_edges@;
        let ghost rc = adj_view(&self.rev_closure);
        let ghost silent = adj_view(&self.silent);
        let n = self.nb_states;
        let code = c as u32;
        let mut adj: Vec<Vec<usize>> = empty_lists(n);
        let mut i: usize = 0;
        while i < self.char_edges.len()
            invariant
                i <= edges.len(),
                edges == self.char_edges@,
                rc == adj_view(&self.rev_closure),
                self.wf(),
                n == self@.nb_states,
                code == c as u32,
                adjacency_ok(adj_view(&adj), n as nat),
                forall|p: usize, q: usize| #[trigger]
                    has_edge(adj_view(&adj), q, p) <==> back_upto(edges, rc, c, i as int, q, p),
            decreases edges.len() - i,
        {
            let e = self.char_edges[i];
            assert(e == self@.char_edges[i as int]);
            let ghost start = adj_view(&adj);
            if e.low <= code && code <= e.high {
                adj[e.target].push(e.source);
                proof {
                    let after = adj_view(&adj);
                    assert(after =~= start.update(e.target as int, start[e.target as int].push(e.source)));
                    lemma_adj_push(start, after, e.target, e.source);
                    lemma_adj_push_ok(start, after, e.target, e.source, n as nat);
                }
                let m = self.rev_closure[e.source].len();
                let mut k: usize = 0;
                while k < m
                    invariant
                        k <= m,
                        e.source < n,
                        e.target < n,
                        n == self.rev_closure@.len(),
                        m == self.rev_closure@[e.source as int]@.len(),
                        rc == adj_view(&self.rev_closure),
                        adjacency_ok(rc, n as nat),
                        adjacency_ok(adj_view(&adj), n as nat),
                        forall|p: usize, q: usize| #[trigger]
                            has_edge(adj_view(&adj), q, p) <==> has_edge(start, q, p) || (q == e.target && (p
                                == e.source || exists|x: int| 0 <= x < k && #[trigger] rc[e.source as int][x] == p)),
                    decreases m - k,
                {
                    let x = self.rev_closure[e.source][k];
                    assert(x == rc[e.source as int][k as int]);
                    let ghost before = adj_view(&adj);
                    adj[e.target].push(x);
                    proof {
                        let after = adj_view(&adj);
                        assert(after =~= before.update(e.target as int, before[e.target as int].push(x)));
                        lemma_adj_push(before, after, e.target, x);
                        lemma_adj_push_ok(before, after, e.target, x, n as nat);
                        assert forall|p: usize, q: usize| #[trigger] has_edge(after, q, p) <==> has_edge(start, q, p)
                            || (q == e.target && (p == e.source || exists|y: int|
                            0 <= y < k + 1 && #[trigger] rc[e.source as int][y] == p)) by {
                            if q == e.target {
                                if exists|y: int| 0 <= y < k + 1 && #[trigger] rc[e.source as int][y] == p {
                                    let y = choose|y: int| 0 <= y < k + 1 && #[trigger] rc[e.source as int][y] == p;
                                    if y < k {
                                        assert(has_edge(before, q, p));
                                    }
                                }
                                if has_edge(before, q, p) && !has_edge(start, q, p) && p != e.source {
                                    let y = choose|y: int| 0 <= y < k && #[trigger] rc[e.source as int][y] == p;
                                    assert(0 <= y < k + 1 && rc[e.source as int][y] == p);
                                }
                                if p == x {
                                    assert(0 <= k < k + 1 && rc[e.source as int][k as int] == p);
                                }
                            }
                        }
                    }
                    k += 1;
                }
            }
            proof {
                let after = adj_view(&adj);
                assert forall|p: usize, q: usize| #[trigger] has_edge(after, q, p) <==> back_upto(
                    edges,
                    rc,
                    c,
                    i + 1,
                    q,
                    p,
                ) by {
                    if back_upto(edges, rc, c, i + 1, q, p) {
                        let j = choose|j: int|
                            0 <= j < i + 1 && (#[trigger] edges[j]).target == q && edges[j].low <= c as u32
                                <= edges[j].high && (p == edges[j].source || has_edge(rc, edges[j].source, p));
                        if j < i {
                            assert(back_upto(edges, rc, c, i as int, q, p));
                        } else {
                            if p != e.source {
                                let y = choose|y: int| 0 <= y < rc[e.source as int].len() && rc[e.source as int][y] == p;
                                assert(rc[e.source as int][y] == p);
                            }
                        }
                    }
                    if has_edge(start, q, p) {
                        let j = choose|j: int|
                            0 <= j < i && (#[trigger] edges[j]).target == q && edges[j].low <= c as u32
                                <= edges[j].high && (p == edges[j].source || has_edge(rc, edges[j].source, p));
                        assert(0 <= j < i + 1 && edges[j].target == q);
                    }
                    if has_edge(after, q, p) && !has_edge(start, q, p) {
                        assert(0 <= i < i + 1 && edges[i as int].target == q);
                        if p != e.source {
                            let y = choose|y: int|
                                0 <= y < rc[e.source as int].len() && #[trigger] rc[e.source as int][y] == p;
                            assert(has_edge(rc, e.source, p));
                        }
                    }
                }
            }
            i += 1;
        }
        proof {
            let after = adj_view(&adj);
            let cl = adj_view(&self.closure);
            assert forall|p: usize, q: usize| #[trigger] has_edge(after, q, p) <==> leads_by_char(
                self@,
                silent,
                p,
                c,
                q,
            ) by {
                if has_edge(after, q, p) {
                    let j = choose|j: int|
                        0 <= j < edges.len() && (#[trigger] edges[j]).target == q && edges[j].low <= c as u32
                            <= edges[j].high && (p == edges[j].source || has_edge(rc, edges[j].source, p));
                    let hop = edges[j].source;
                    assert(self@.char_edges[j] == edges[j]);
                    assert(self@.char_step(hop, c, q));
                    if p != hop {
                        assert(has_edge(cl, p, hop));
                    }
                    lemma_reaches_cases(silent, p, hop);
                }
                if leads_by_char(self@, silent, p, c, q) {
                    let hop = choose|hop: usize| reaches(silent, p, hop) && #[trigger] self@.char_step(hop, c, q);
                    let j = choose|j: int|
                        0 <= j < self@.char_edges.len() && (#[trigger] self@.char_edges[j]).source == hop
                            && self@.char_edges[j].target == q && self@.char_edges[j].low <= c as u32
                            <= self@.char_edges[j].high;
                    lemma_reaches_cases(silent, p, hop);
                    if p != hop {
                        assert(has_edge(cl, p, hop));
                        assert(has_edge(rc, hop, p));
                    }
                    assert(edges[j].target == q && (p == edges[j].source || has_edge(rc, edges[j].source, p)));
                    assert(back_upto(edges, rc, c, edges.len() as int, q, p));
                }
            }
        }
        adj
    }

    /// For each state, the targets of its marker edges.
    pub fn get_assignations(&self) -> (adj: &Vec<Vec<usize>>)
        requires
            self.wf(),
        ensures
            adj_view(adj) == self.silent_adj(),
            is_silent_adj(self@, adj_view(adj)),
    {
        &self.silent
    }

    /// For each state, the marker edges that lead to it, each as the pair of
    /// its marker and its source.
    pub fn get_rev_assignations(&self) -> (rev: &Vec<Vec<(usize, usize)>>)
        requires
            self.wf(),
        ensures
            labelled_view(rev) == self.back_adj(),
            is_back_adj(self@, labelled_view(rev)),
    {
        &self.rev_assignations
    }

    /// For each state, the states that it reaches by one marker edge or
    /// more.
    pub fn get_closure_for_assignations(&self) -> (closure: &Vec<Vec<usize>>)
        requires
            self.wf(),
        ensures
            is_closure_adj(self@, self.silent_adj(), adj_view(closure)),
    {
        &self.closure
    }
}

/// The automaton described by the arguments of `Automaton::new`.
pub open spec fn given_view(
    nb_states: usize,
    initial: usize,
    finals: Seq<usize>,
    char_edges: Seq<CharEdge>,
    marker_edges: Seq<MarkerEdge>,
    nb_vars: nat,
) -> AutomatonView {
    AutomatonView {
        nb_states: nb_states as nat,
        nb_vars,
        initial,
        finals: finals.to_set(),
        char_edges,
        marker_edges,
    }
}

} // verus!
