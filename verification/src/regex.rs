//! From a regular expression to the automaton that is run on a text.

use crate::accept::{accepts, lemma_automaton_language};
use crate::agree::{
    lemma_kin_once, lemma_spelled_kin, lemma_spelled_same, lemma_spelled_size, lemma_spelled_text, matches_text,
};
use crate::automaton::{Automaton, AutomatonView};
use crate::complete::lemma_matches_complete;
use crate::enumerate::all_matches;
use crate::glushkov::{glushkov, is_position_automaton, GlushkovError, MAX_STATES};
use crate::indexed_dag::IndexedDag;
use crate::language::{chars_of, lang, pairs_of, Sym};
use crate::marked::lemma_match_is_word;
use crate::parse::{parse, spells, Hir, SyntaxError, MAX_DEPTH};
use crate::position::size;
use crate::readings::{
    at_stop, cat_to, distinct, has_name, lemma_alt_step, lemma_cat_done, lemma_cat_step, lemma_group_inside,
    lemma_name_end, lemma_plain_atom, lemma_rep_atom, name_end,
};
use crate::grammar::{reads_alt, reads_rep};
use crate::runs::{is_match_of, lemma_matches_sound};
use crate::strategy::TrimmingStrategy;
use vstd::prelude::*;
use vstd::string::*;

verus! {

/// Why an expression gives no automaton.
#[derive(Clone, Copy, Debug, PartialEq, Eq, Structural)]
pub enum RegexError {
    /// The expression is not in the grammar.
    Syntax(SyntaxError),
    /// The automaton would have more states than the machine can count.
    TooLarge,
    /// Some group could open or close twice without a character read in
    /// between.
    RepeatedMarker,
}

/// The expression that searches for `s` anywhere in a text and captures
/// what it finds in a group called `match`: before `s` comes `(.|\s)*`,
/// unless `s` begins with `^`, which is then dropped; after it comes
/// `(.|\s)*`, unless it ends with `$`, which is then dropped.
pub open spec fn reformat_spec(s: Seq<char>) -> Seq<char> {
    let head = if s.len() > 0 && s[0] == '^' {
        "(?P<match>"@ + s.skip(1)
    } else {
        "(.|\\s)*(?P<match>"@ + s
    };
    if head.len() > 0 && head.last() == '$' {
        head.drop_last() + ")"@
    } else {
        head + ")(.|\\s)*"@
    }
}

/// Wraps the expression so that it is searched for anywhere in a text and
/// what it matches is captured in a group called `match`.
pub fn reformat(regex: &str) -> (r: String)
    ensures
        r@ == reformat_spec(regex@),
{
    let n = regex.unicode_len();
    let mut head = if n > 0 && regex.get_char(0) == '^' {
        let mut h = String::from_str("(?P<match>");
        h.append(regex.substring_char(1, n));
        proof {
            assert(regex@.subrange(1, n as int) =~= regex@.skip(1));
        }
        h
    } else {
        let mut h = String::from_str("(.|\\s)*(?P<match>");
        h.append(regex);
        h
    };
    let m = head.as_str().unicode_len();
    if m > 0 && head.as_str().get_char(m - 1) == '$' {
        let mut out = String::from_str(head.as_str().substring_char(0, m - 1));
        out.append(")");
        proof {
            assert(head@.subrange(0, m - 1) =~= head@.drop_last());
        }
        out
    } else {
        head.append(")(.|\\s)*");
        head
    }
}

/// The expression `regex`, wrapped to be searched for anywhere, spells
/// `h`, whose variables are called `names`.
pub open spec fn reads(regex: Seq<char>, h: Hir, names: Seq<String>) -> bool {
    spells(reformat_spec(regex), h, names)
}

/// The expression `regex`, wrapped, spells something.
pub open spec fn spelled(regex: Seq<char>) -> bool {
    exists|h: Hir, names: Seq<String>| reads(regex, h, names)
}

/// Whatever the wrapped `regex` spells is small enough for an automaton.
pub open spec fn small(regex: Seq<char>) -> bool {
    forall|h: Hir, names: Seq<String>| #[trigger] reads(regex, h, names) ==> size(h) <= MAX_STATES
}

/// Whatever the wrapped `regex` spells is too large for an automaton.
pub open spec fn large(regex: Seq<char>) -> bool {
    forall|h: Hir, names: Seq<String>| #[trigger] reads(regex, h, names) ==> size(h) > MAX_STATES
}

/// Some expression that the wrapped `regex` spells, with names of which no
/// two are equal, has a position automaton in which a marker can be passed
/// twice with no character read in between.
pub open spec fn repeats(regex: Seq<char>) -> bool {
    exists|h: Hir, names: Seq<String>, v: AutomatonView| #[trigger]
        reads(regex, h, names) && distinct(names) && #[trigger] is_position_automaton(v, h, names.len())
            && v.states_ok() && v.markers_ok() && !v.markers_once()
}

/// How the wrapped expression begins.
pub proof fn lemma_wrapped_head(s: Seq<char>)
    ensures
        s.len() > 0 && s[0] == '^' ==> reformat_spec(s).len() > 10 && reformat_spec(s).take(10) == "(?P<match>"@,
        !(s.len() > 0 && s[0] == '^') ==> reformat_spec(s).len() > 17 && reformat_spec(s).take(17)
            == "(.|\\s)*(?P<match>"@,
{
    reveal_strlit("(?P<match>");
    reveal_strlit("(.|\\s)*(?P<match>");
    reveal_strlit(")");
    reveal_strlit(")(.|\\s)*");
    let cs = reformat_spec(s);
    if s.len() > 0 && s[0] == '^' {
        let lit = "(?P<match>"@;
        let head = lit + s.skip(1);
        assert(head.len() >= 10);
        if head.last() == '$' {
            assert(head.len() > 10);
            assert(cs == head.drop_last() + ")"@);
        } else {
            assert(cs == head + ")(.|\\s)*"@);
        }
        assert(cs.take(10) =~= lit);
    } else {
        let lit = "(.|\\s)*(?P<match>"@;
        let head = lit + s;
        assert(head.len() >= 17);
        if head.last() == '$' {
            assert(head.len() > 17);
            assert(cs == head.drop_last() + ")"@);
        } else {
            assert(cs == head + ")(.|\\s)*"@);
        }
        assert(cs.take(17) =~= lit);
    }
}

/// A group that begins at `i` with `(?P<match>`, and that an expression
/// that the text spells has as its atom there, gives the names `match`.
proof fn lemma_group_match(names: Seq<String>, cs: Seq<char>, i: int, j: int, d: int)
    requires
        0 <= i,
        i + 10 <= cs.len(),
        cs.subrange(i, i + 10) == "(?P<match>"@,
        cat_to(names, cs, i, j, d),
        at_stop(cs, j),
    ensures
        has_name(names, "match"@),
{
    reveal_strlit("(?P<match>");
    reveal_strlit("match");
    let lit = cs.subrange(i, i + 10);
    assert forall|t: int| 0 <= t < 10 implies cs[i + t] == #[trigger] lit[t] by {}
    assert(cs[i] == lit[0] && cs[i + 1] == lit[1] && cs[i + 2] == lit[2] && cs[i + 3] == lit[3] && cs[i + 4]
        == lit[4] && cs[i + 5] == lit[5] && cs[i + 6] == lit[6] && cs[i + 7] == lit[7] && cs[i + 8] == lit[8]
        && cs[i + 9] == lit[9]);
    let k = lemma_cat_step(names, cs, i, j, d);
    let h = choose|h: Hir| reads_rep(h, names, cs, i, k, d);
    let a = lemma_rep_atom(h, names, cs, i, k, d);
    lemma_group_inside(names, cs, i, a, d);
    let e = choose|e: int| #[trigger] name_end(cs, i, e) && e < a - 1 && has_name(names, cs.subrange(i + 4, e));
    assert forall|t: int| i + 4 <= t < i + 9 implies crate::grammar::is_name(#[trigger] cs[t]) by {
        assert(cs[t] == lit[t - i]);
    }
    lemma_name_end(cs, i, e, i + 9);
    assert(cs.subrange(i + 4, i + 9) =~= "match"@);
}

/// Whatever the wrapped expression spells, one of its variables is called
/// `match`.
pub proof fn lemma_match_named(regex: Seq<char>, h: Hir, names: Seq<String>)
    requires
        reads(regex, h, names),
    ensures
        has_name(names, "match"@),
{
    let cs = reformat_spec(regex);
    let d = MAX_DEPTH as int;
    let d1 = d - 1;
    lemma_wrapped_head(regex);
    reveal_strlit("(?P<match>");
    reveal_strlit("(.|\\s)*(?P<match>");
    assert(reads_alt(h, names, cs, 0, cs.len() as int, d));
    let k = lemma_alt_step(names, cs, 0, cs.len() as int, d);
    if regex.len() > 0 && regex[0] == '^' {
        assert(cs.subrange(0, 10) =~= cs.take(10));
        lemma_group_match(names, cs, 0, k, d);
    } else {
        let lit = cs.take(17);
        assert forall|t: int| 0 <= t < 17 implies cs[t] == #[trigger] lit[t] by {}
        assert(cs[0] == lit[0] && cs[1] == lit[1] && cs[2] == lit[2] && cs[3] == lit[3] && cs[4] == lit[4] && cs[5]
            == lit[5] && cs[6] == lit[6] && cs[7] == lit[7]);
        // The group `(.|\s)`, with `*` behind it, is the first repetition.
        let k1 = lemma_cat_step(names, cs, 0, k, d);
        let r = choose|r: Hir| reads_rep(r, names, cs, 0, k1, d);
        let a1 = lemma_rep_atom(r, names, cs, 0, k1, d);
        lemma_group_inside(names, cs, 0, a1, d);
        let k2 = lemma_alt_step(names, cs, 1, a1 - 1, d1);
        let r1 = lemma_cat_step(names, cs, 1, k2, d1);
        let x = choose|x: Hir| reads_rep(x, names, cs, 1, r1, d1);
        let x1 = lemma_rep_atom(x, names, cs, 1, r1, d1);
        lemma_plain_atom(names, cs, 1, x1, d1);
        assert(r1 == 2) by {
            if r1 > 2 {
                assert(crate::grammar::is_sign(cs[2]));
            }
        }
        lemma_cat_done(names, cs, 2, k2, d1);
        let k3 = lemma_alt_step(names, cs, 3, a1 - 1, d1);
        let r3 = lemma_cat_step(names, cs, 3, k3, d1);
        let y = choose|y: Hir| reads_rep(y, names, cs, 3, r3, d1);
        let y1 = lemma_rep_atom(y, names, cs, 3, r3, d1);
        lemma_plain_atom(names, cs, 3, y1, d1);
        assert(r3 == 5) by {
            if r3 > 5 {
                assert(crate::grammar::is_sign(cs[5]));
            }
        }
        lemma_cat_done(names, cs, 5, k3, d1);
        assert(a1 == 6);
        assert(k1 == 7) by {
            if k1 > 7 {
                assert(crate::grammar::is_sign(cs[7]));
            }
        }
        assert(cs.subrange(7, 17) =~= "(?P<match>"@) by {
            assert forall|t: int| 0 <= t < 10 implies cs.subrange(7, 17)[t] == "(?P<match>"@[t] by {
                assert(cs[7 + t] == lit[7 + t]);
            }
        }
        lemma_group_match(names, cs, 7, k, d);
    }
}

/// In the position automaton of whatever the wrapped `regex` spells, with
/// names of which no two are equal, no marker can be passed twice with no
/// character read in between.
pub open spec fn once(regex: Seq<char>) -> bool {
    forall|h: Hir, names: Seq<String>, v: AutomatonView|
        #![trigger reads(regex, h, names), is_position_automaton(v, h, names.len())]
        reads(regex, h, names) && distinct(names) && is_position_automaton(v, h, names.len()) ==> v.markers_once()
}

/// In the position automaton of whatever the wrapped `regex` spells, with
/// names of which no two are equal, some marker can be passed twice with
/// no character read in between.
pub open spec fn twice(regex: Seq<char>) -> bool {
    forall|h: Hir, names: Seq<String>, v: AutomatonView|
        #![trigger reads(regex, h, names), is_position_automaton(v, h, names.len())]
        reads(regex, h, names) && distinct(names) && is_position_automaton(v, h, names.len()) ==> !v.markers_once()
}

/// The automaton that finds the matches of `regex` anywhere in a text: the
/// position automaton of an expression that the wrapped `regex` spells.
/// One of its variables is called `match`, and no two have one name. It
/// accepts the marked words that the expression matches, whichever of the
/// expressions that the text spells with the automaton's variables is
/// taken. A syntax error where the wrapped `regex` spells no expression.
pub fn compile(regex: &str) -> (r: Result<Automaton, RegexError>)
    ensures
        match r {
            Ok(a) => {
                &&& a.wf()
                &&& small(regex@)
                &&& once(regex@)
                &&& distinct(a.spec_variables())
                &&& has_name(a.spec_variables(), "match"@)
                &&& exists|h: Hir| #[trigger]
                    reads(regex@, h, a.spec_variables()) && is_position_automaton(a@, h, a@.nb_vars)
                &&& forall|h: Hir, w: Seq<Sym>|
                    #![trigger reads(regex@, h, a.spec_variables()), lang(h, w)]
                    #![trigger reads(regex@, h, a.spec_variables()), accepts(a@, w)]
                    reads(regex@, h, a.spec_variables()) ==> accepts(a@, w) == lang(h, w)
            },
            Err(RegexError::Syntax(e)) => e.position <= reformat_spec(regex@).len() && !spelled(regex@),
            Err(RegexError::TooLarge) => spelled(regex@) && large(regex@),
            Err(RegexError::RepeatedMarker) => small(regex@) && repeats(regex@) && twice(regex@),
        },
{
    let wrapped = reformat(regex);
    match parse(wrapped.as_str()) {
        Err(e) => {
            proof {
                assert forall|h: Hir, names: Seq<String>| !reads(regex@, h, names) by {
                    assert(!spells(wrapped@, h, names));
                }
            }
            Err(RegexError::Syntax(e))
        },
        Ok((h, names)) => {
            let ghost n = names@;
            match glushkov(&h, names) {
                Ok(a) => {
                    proof {
                        assert(reads(regex@, h, a.spec_variables()) && is_position_automaton(a@, h, a@.nb_vars));
                        lemma_match_named(regex@, h, n);
                        a.lemma_wf();
                        assert forall|other: Hir, names2: Seq<String>, v: AutomatonView|
                            reads(regex@, other, names2) && distinct(names2) && is_position_automaton(
                                v,
                                other,
                                names2.len(),
                            ) implies v.markers_once() by {
                            lemma_spelled_kin(wrapped@, other, names2, h, n);
                            lemma_kin_once(a@, h, n, v, other, names2);
                        }
                        assert forall|other: Hir, names2: Seq<String>| #[trigger]
                            reads(regex@, other, names2) implies size(other) <= MAX_STATES by {
                            lemma_spelled_size(wrapped@, h, n, other, names2);
                        }
                        assert forall|other: Hir, w: Seq<Sym>| reads(regex@, other, n) implies accepts(a@, w)
                            == lang(other, w) by {
                            lemma_automaton_language(a@, h, a@.nb_vars, w);
                            lemma_spelled_same(wrapped@, h, other, n);
                        }
                    }
                    Ok(a)
                },
                Err(GlushkovError::TooLarge) => {
                    proof {
                        assert(reads(regex@, h, n));
                        assert forall|other: Hir, names2: Seq<String>| #[trigger]
                            reads(regex@, other, names2) implies size(other) > MAX_STATES by {
                            lemma_spelled_size(wrapped@, h, n, other, names2);
                        }
                    }
                    Err(RegexError::TooLarge)
                },
                Err(GlushkovError::RepeatedMarker) => {
                    proof {
                        let v = choose|v: AutomatonView|
                            is_position_automaton(v, h, n.len()) && v.states_ok() && v.markers_ok()
                                && !v.markers_once();
                        assert(reads(regex@, h, n) && is_position_automaton(v, h, n.len()) && v.states_ok()
                            && v.markers_ok() && !v.markers_once());
                        assert forall|other: Hir, names2: Seq<String>, u: AutomatonView|
                            reads(regex@, other, names2) && distinct(names2) && is_position_automaton(
                                u,
                                other,
                                names2.len(),
                            ) implies !u.markers_once() by {
                            if u.markers_once() {
                                lemma_spelled_kin(wrapped@, h, n, other, names2);
                                lemma_kin_once(u, other, names2, v, h, n);
                            }
                        }
                        assert forall|other: Hir, names2: Seq<String>| #[trigger]
                            reads(regex@, other, names2) implies size(other) <= MAX_STATES by {
                            lemma_spelled_size(wrapped@, h, n, other, names2);
                        }
                    }
                    Err(RegexError::RepeatedMarker)
                },
            }
        },
    }
}

/// The index of the matches of `automaton` on `text`, fully trimmed.
pub fn compile_matches(automaton: Automaton, text: &str) -> (dag: IndexedDag)
    requires
        automaton.wf(),
    ensures
        dag.wf(),
        dag.index() is Some,
        dag.spec_automaton() == automaton,
        dag.spec_text() == text@,
        dag.spec_strategy() == TrimmingStrategy::FullTrimming,
        dag.spec_jump_distance() == 0,
        !dag.spec_toggle_progress(),
{
    let mut dag = IndexedDag::new(automaton, text, 0, TrimmingStrategy::FullTrimming, false);
    dag.preprocess();
    dag
}

/// Whether the indexed automaton has an accepting run on the indexed text:
/// whether it accepts a marked word whose characters are the text.
pub fn has_match(dag: &IndexedDag) -> (b: bool)
    requires
        dag.wf(),
        dag.index() is Some,
    ensures
        b == (all_matches(dag).len() > 0),
        b == exists|m: Set<(usize, usize)>|
            is_match_of(
                dag.spec_automaton()@,
                dag.spec_automaton().back_adj(),
                dag.spec_text(),
                dag.spec_positions(),
                m,
            ),
        b == exists|w: Seq<Sym>| #[trigger] accepts(dag.spec_automaton()@, w) && chars_of(w) == dag.spec_text(),
{
    let mut it = dag.iter();
    let found = it.next().is_some();
    proof {
        let a = dag.spec_automaton()@;
        let rev = dag.spec_automaton().back_adj();
        let text = dag.spec_text();
        let positions = dag.spec_positions();
        dag.spec_automaton().lemma_wf();
        if all_matches(dag).len() > 0 {
            lemma_matches_sound(dag, 0);
        }
        if exists|m: Set<(usize, usize)>| is_match_of(a, rev, text, positions, m) {
            let m = choose|m: Set<(usize, usize)>| is_match_of(a, rev, text, positions, m);
            let k = lemma_matches_complete(dag, m);
            lemma_match_is_word(a, rev, text, positions, m);
        }
        if exists|w: Seq<Sym>| #[trigger] accepts(a, w) && chars_of(w) == text {
            let w = choose|w: Seq<Sym>| #[trigger] accepts(a, w) && chars_of(w) == text;
            lemma_match_is_word(a, rev, text, positions, pairs_of(w, positions));
            assert(is_match_of(a, rev, text, positions, pairs_of(w, positions)));
        }
    }
    found
}

/// Whether `regex` matches somewhere in `text`: whether the characters of
/// one of the marked words that the wrapped expression matches are those of
/// the text, whichever of the expressions that it spells is taken.
pub fn is_match(regex: &str, text: &str) -> (r: Result<bool, RegexError>)
    ensures
        match r {
            Ok(b) => spelled(regex@) && small(regex@) && once(regex@) && forall|h: Hir, names: Seq<String>| #[trigger]
                reads(regex@, h, names) ==> b == matches_text(h, text@),
            Err(RegexError::Syntax(e)) => e.position <= reformat_spec(regex@).len() && !spelled(regex@),
            Err(RegexError::TooLarge) => spelled(regex@) && large(regex@),
            Err(RegexError::RepeatedMarker) => small(regex@) && repeats(regex@) && twice(regex@),
        },
{
    match compile(regex) {
        Err(e) => Err(e),
        Ok(automaton) => {
            let ghost a = automaton@;
            let ghost names = automaton.spec_variables();
            let dag = compile_matches(automaton, text);
            let b = has_match(&dag);
            proof {
                let h = choose|h: Hir| #[trigger] reads(regex@, h, names) && is_position_automaton(a, h, a.nb_vars);
                assert(b == matches_text(h, text@)) by {
                    if exists|w: Seq<Sym>| #[trigger] accepts(a, w) && chars_of(w) == text@ {
                        let w = choose|w: Seq<Sym>| #[trigger] accepts(a, w) && chars_of(w) == text@;
                        lemma_automaton_language(a, h, a.nb_vars, w);
                        assert(lang(h, w) && chars_of(w) == text@);
                    }
                    if matches_text(h, text@) {
                        let w = choose|w: Seq<Sym>| #[trigger] lang(h, w) && chars_of(w) == text@;
                        lemma_automaton_language(a, h, a.nb_vars, w);
                        assert(accepts(a, w) && chars_of(w) == text@);
                    }
                }
                assert(reads(regex@, h, names));
                assert forall|other: Hir, names2: Seq<String>| #[trigger] reads(regex@, other, names2) implies b
                    == matches_text(other, text@) by {
                    lemma_spelled_text(reformat_spec(regex@), h, names, other, names2, text@);
                }
            }
            Ok(b)
        },
    }
}

} // verus!
