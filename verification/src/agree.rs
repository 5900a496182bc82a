//! A text may spell several expressions, which differ in how their
//! concatenations and alternations are nested and in the numbers of their
//! variables. They all match the same words.

use crate::grammar::{
    any_ranges, class_scan, cut, escape_ranges, is_name, reads_alt, reads_atom, reads_cat, reads_group, reads_rep,
    signs,
};
use crate::language::{chars_of, lang, star, Sym};
use crate::parse::{spells, Hir, MAX_DEPTH, MAX_VARS};
use crate::automaton::{AutomatonView, MarkerEdge};
use crate::glushkov::{edge, is_position_automaton};
use crate::position::{leaves, lemma_spans, size, Leaf};
use crate::shape::{
    kin, leaf_alike, lemma_kin_alt, lemma_kin_cat, lemma_kin_label, lemma_kin_twins, lemma_kin_void, lemma_kin_wrap,
    lemma_twin_alt, lemma_twin_alt_assoc, lemma_twin_assoc, lemma_twin_cat, lemma_twin_self, lemma_twin_sym,
    lemma_twin_trans, lemma_twin_unit, sets_same, twin, void,
};
use crate::readings::{
    at_close, at_stop, atom_to, cat_to, distinct, lemma_alt_first, lemma_atom_end, lemma_cat_end, lemma_cat_first,
    lemma_name_end, lemma_rep_atom, lemma_rep_end, name_end, no_sign, rep_to,
};
use vstd::prelude::*;

verus! {

/// Two letters are alike: the same character, or the markers that open,
/// or that close, the groups of one name.
pub open spec fn sym_alike(s1: Sym, n1: Seq<String>, s2: Sym, n2: Seq<String>) -> bool {
    match (s1, s2) {
        (Sym::Char(c1), Sym::Char(c2)) => c1 == c2,
        (Sym::Mark(m1), Sym::Mark(m2)) => m1 % 2 == m2 % 2 && m1 / 2 < n1.len() && m2 / 2 < n2.len() && n1[(m1
            / 2) as int]@ == n2[(m2 / 2) as int]@,
        _ => false,
    }
}

/// Two marked words are alike: letter by letter.
pub open spec fn words_alike(w1: Seq<Sym>, n1: Seq<String>, w2: Seq<Sym>, n2: Seq<String>) -> bool {
    &&& w1.len() == w2.len()
    &&& forall|t: int| 0 <= t < w1.len() ==> sym_alike(#[trigger] w1[t], n1, w2[t], n2)
}

/// Two expressions match the same marked words.
pub open spec fn same(a: Hir, b: Hir) -> bool {
    forall|w: Seq<Sym>| #![trigger lang(a, w)] #![trigger lang(b, w)] lang(a, w) == lang(b, w)
}

/// The expression matches the text `t`, with markers somewhere in it.
pub open spec fn matches_text(h: Hir, t: Seq<char>) -> bool {
    exists|w: Seq<Sym>| #[trigger] lang(h, w) && chars_of(w) == t
}

/// The expression matches the empty word and no other.
pub open spec fn is_unit(a: Hir) -> bool {
    forall|w: Seq<Sym>| #[trigger] lang(a, w) == (w.len() == 0)
}

/// `a` and then `b`.
pub open spec fn cat(a: Hir, b: Hir) -> Hir {
    Hir::Concat(Box::new(a), Box::new(b))
}

/// `a` or `b`.
pub open spec fn alt(a: Hir, b: Hir) -> Hir {
    Hir::Alternation(Box::new(a), Box::new(b))
}

/// The atom `a` with what the signs behind it ask for: `optional` and
/// `repeated`.
pub open spec fn wrap(optional: bool, repeated: bool, a: Hir) -> Hir {
    if optional && repeated {
        Hir::Closure(Box::new(a))
    } else if repeated {
        Hir::Plus(Box::new(a))
    } else if optional {
        Hir::Option(Box::new(a))
    } else {
        a
    }
}

/// Words that are alike have the same characters.
pub proof fn lemma_alike_chars(w1: Seq<Sym>, n1: Seq<String>, w2: Seq<Sym>, n2: Seq<String>)
    requires
        words_alike(w1, n1, w2, n2),
    ensures
        chars_of(w1) == chars_of(w2),
    decreases w1.len(),
{
    if w1.len() > 0 {
        let t = w1.len() - 1;
        assert(sym_alike(w1[t], n1, w2[t], n2));
        assert(words_alike(w1.drop_last(), n1, w2.drop_last(), n2)) by {
            assert forall|t: int| 0 <= t < w1.len() - 1 implies sym_alike(
                #[trigger] w1.drop_last()[t],
                n1,
                w2.drop_last()[t],
                n2,
            ) by {
                assert(sym_alike(w1[t], n1, w2[t], n2));
            }
        }
        lemma_alike_chars(w1.drop_last(), n1, w2.drop_last(), n2);
    }
}

/// With the same names, no two of them equal, words that are alike are
/// the same.
pub proof fn lemma_alike_same(w1: Seq<Sym>, w2: Seq<Sym>, names: Seq<String>)
    requires
        words_alike(w1, names, w2, names),
        distinct(names),
    ensures
        w1 == w2,
{
    assert forall|t: int| 0 <= t < w1.len() implies w1[t] == w2[t] by {
        assert(sym_alike(w1[t], names, w2[t], names));
        match (w1[t], w2[t]) {
            (Sym::Mark(m1), Sym::Mark(m2)) => {
                let a = (m1 / 2) as int;
                let b = (m2 / 2) as int;
                if a < b {
                    assert(names[a]@ != names[b]@);
                } else if b < a {
                    assert(names[b]@ != names[a]@);
                }
            },
            _ => {},
        }
    }
    assert(w1 =~= w2);
}

/// Words that are alike piece by piece are alike.
pub proof fn lemma_alike_concat(
    u1: Seq<Sym>,
    v1: Seq<Sym>,
    n1: Seq<String>,
    u2: Seq<Sym>,
    v2: Seq<Sym>,
    n2: Seq<String>,
)
    requires
        words_alike(u1, n1, u2, n2),
        words_alike(v1, n1, v2, n2),
    ensures
        words_alike(u1 + v1, n1, u2 + v2, n2),
{
    assert forall|t: int| 0 <= t < (u1 + v1).len() implies sym_alike(#[trigger] (u1 + v1)[t], n1, (u2 + v2)[t], n2) by {
        if t < u1.len() {
            assert(sym_alike(u1[t], n1, u2[t], n2));
        } else {
            assert(sym_alike(v1[t - u1.len()], n1, v2[t - u1.len()], n2));
        }
    }
}

/// Two words, one behind the other, are matched by two expressions, one
/// behind the other.
pub proof fn lemma_cat_joins(a: Hir, b: Hir, u: Seq<Sym>, v: Seq<Sym>)
    requires
        lang(a, u),
        lang(b, v),
    ensures
        lang(cat(a, b), u + v),
{
    let w = u + v;
    let k = u.len() as int;
    assert(w.take(k) =~= u);
    assert(w.skip(k) =~= v);
}

/// What two expressions, one behind the other, match is two words, one
/// behind the other.
pub proof fn lemma_cat_splits(a: Hir, b: Hir, w: Seq<Sym>) -> (k: int)
    requires
        lang(cat(a, b), w),
    ensures
        0 <= k <= w.len(),
        lang(a, w.take(k)),
        lang(b, w.skip(k)),
        w == w.take(k) + w.skip(k),
{
    let k = choose|k: int| 0 <= k <= w.len() && lang(a, #[trigger] w.take(k)) && lang(b, w.skip(k));
    assert(w =~= w.take(k) + w.skip(k));
    k
}

/// Concatenation keeps what the parts match.
pub proof fn lemma_cat_same(a: Hir, a2: Hir, b: Hir, b2: Hir)
    requires
        same(a, a2),
        same(b, b2),
    ensures
        same(cat(a, b), cat(a2, b2)),
{
    assert forall|w: Seq<Sym>| lang(cat(a, b), w) == lang(cat(a2, b2), w) by {
        if lang(cat(a, b), w) {
            let k = lemma_cat_splits(a, b, w);
            lemma_cat_joins(a2, b2, w.take(k), w.skip(k));
        }
        if lang(cat(a2, b2), w) {
            let k = lemma_cat_splits(a2, b2, w);
            lemma_cat_joins(a, b, w.take(k), w.skip(k));
        }
    }
}

/// How concatenations are nested changes nothing.
pub proof fn lemma_cat_assoc(a: Hir, b: Hir, c: Hir)
    ensures
        same(cat(cat(a, b), c), cat(a, cat(b, c))),
{
    assert forall|w: Seq<Sym>| lang(cat(cat(a, b), c), w) == lang(cat(a, cat(b, c)), w) by {
        if lang(cat(cat(a, b), c), w) {
            let k = lemma_cat_splits(cat(a, b), c, w);
            let m = lemma_cat_splits(a, b, w.take(k));
            let x = w.take(k).take(m);
            let y = w.take(k).skip(m);
            let z = w.skip(k);
            lemma_cat_joins(b, c, y, z);
            lemma_cat_joins(a, cat(b, c), x, y + z);
            assert(x + (y + z) =~= (x + y) + z);
        }
        if lang(cat(a, cat(b, c)), w) {
            let k = lemma_cat_splits(a, cat(b, c), w);
            let m = lemma_cat_splits(b, c, w.skip(k));
            let x = w.take(k);
            let y = w.skip(k).take(m);
            let z = w.skip(k).skip(m);
            lemma_cat_joins(a, b, x, y);
            lemma_cat_joins(cat(a, b), c, x + y, z);
            assert(x + (y + z) =~= (x + y) + z);
        }
    }
}

/// An expression that matches only the empty word changes nothing in
/// front of another or behind it.
pub proof fn lemma_cat_unit(e: Hir, a: Hir)
    requires
        is_unit(e),
    ensures
        same(cat(e, a), a),
        same(cat(a, e), a),
{
    assert forall|w: Seq<Sym>| lang(cat(e, a), w) == lang(a, w) by {
        if lang(cat(e, a), w) {
            let k = lemma_cat_splits(e, a, w);
            assert(w.take(k).len() == 0);
            assert(w.skip(k) =~= w);
        }
        if lang(a, w) {
            assert(lang(e, Seq::<Sym>::empty()));
            lemma_cat_joins(e, a, Seq::<Sym>::empty(), w);
            assert(Seq::<Sym>::empty() + w =~= w);
        }
    }
    assert forall|w: Seq<Sym>| lang(cat(a, e), w) == lang(a, w) by {
        if lang(cat(a, e), w) {
            let k = lemma_cat_splits(a, e, w);
            assert(w.skip(k).len() == 0);
            assert(w.take(k) =~= w);
        }
        if lang(a, w) {
            assert(lang(e, Seq::<Sym>::empty()));
            lemma_cat_joins(a, e, w, Seq::<Sym>::empty());
            assert(w + Seq::<Sym>::empty() =~= w);
        }
    }
}

/// A concatenation that no character spells matches the empty word and
/// no other.
pub proof fn lemma_cat_empty(h: Hir, names: Seq<String>, cs: Seq<char>, i: int, d: int)
    requires
        reads_cat(h, names, cs, i, i, d),
    ensures
        is_unit(h),
        size(h) == 0,
        void(h),
    decreases h,
{
    if h is Empty {
        lemma_twin_self(h);
    } else if reads_rep(h, names, cs, i, i, d) {
        let k = lemma_rep_atom(h, names, cs, i, i, d);
    } else {
        match h {
            Hir::Concat(l, r) => {
                let m = choose|m: int|
                    i <= m <= i && #[trigger] cut(m) && reads_cat(*l, names, cs, i, m, d) && reads_cat(
                        *r,
                        names,
                        cs,
                        m,
                        i,
                        d,
                    );
                lemma_cat_empty(*l, names, cs, i, d);
                lemma_cat_empty(*r, names, cs, i, d);
                lemma_cat_unit(*l, *r);
                lemma_twin_unit(*l, *r);
                assert(h == cat(*l, *r));
            },
            _ => {},
        }
    }
}

/// A concatenation that is not empty matches what its first repetition
/// and the concatenation behind it match, one behind the other.
pub proof fn lemma_cat_parts(h: Hir, names: Seq<String>, cs: Seq<char>, i: int, j: int, d: int) -> (r: (
    int,
    Hir,
    Hir,
))
    requires
        reads_cat(h, names, cs, i, j, d),
        i < j,
    ensures
        i < r.0 <= j,
        reads_rep(r.1, names, cs, i, r.0, d),
        reads_cat(r.2, names, cs, r.0, j, d),
        same(h, cat(r.1, r.2)),
        size(h) == size(r.1) + size(r.2),
        twin(h, cat(r.1, r.2)),
    decreases h,
{
    if reads_rep(h, names, cs, i, j, d) {
        assert(reads_cat(Hir::Empty, names, cs, j, j, d));
        assert(is_unit(Hir::Empty));
        lemma_cat_unit(Hir::Empty, h);
        lemma_twin_self(Hir::Empty);
        lemma_twin_unit(Hir::Empty, h);
        lemma_twin_sym(cat(h, Hir::Empty), h);
        (j, h, Hir::Empty)
    } else {
        match h {
            Hir::Concat(l, r) => {
                let m = choose|m: int|
                    i <= m <= j && #[trigger] cut(m) && reads_cat(*l, names, cs, i, m, d) && reads_cat(
                        *r,
                        names,
                        cs,
                        m,
                        j,
                        d,
                    );
                assert(h == cat(*l, *r));
                if i < m {
                    let (k, a, b) = lemma_cat_parts(*l, names, cs, i, m, d);
                    lemma_cat_first(b, names, cs, k, m, d);
                    let rest = cat(b, *r);
                    assert(k <= m <= j && cut(m) && reads_cat(b, names, cs, k, m, d) && reads_cat(
                        *r,
                        names,
                        cs,
                        m,
                        j,
                        d,
                    ));
                    assert(reads_cat(rest, names, cs, k, j, d));
                    lemma_cat_same(*l, cat(a, b), *r, *r);
                    lemma_cat_assoc(a, b, *r);
                    lemma_twin_cat(*l, cat(a, b), *r);
                    lemma_twin_assoc(a, b, *r);
                    lemma_twin_trans(h, cat(cat(a, b), *r), cat(a, rest));
                    (k, a, rest)
                } else {
                    lemma_cat_empty(*l, names, cs, i, d);
                    lemma_cat_unit(*l, *r);
                    lemma_twin_unit(*l, *r);
                    let (k, a, b) = lemma_cat_parts(*r, names, cs, i, j, d);
                    lemma_twin_trans(h, *r, cat(a, b));
                    (k, a, b)
                }
            },
            _ => (j, h, h),
        }
    }
}

/// An alternation matches what its first concatenation matches and, where
/// a `|` stands behind that, what the alternation behind the `|` matches.
pub proof fn lemma_alt_parts(h: Hir, names: Seq<String>, cs: Seq<char>, i: int, j: int, d: int) -> (r: (
    int,
    Hir,
    Hir,
))
    requires
        reads_alt(h, names, cs, i, j, d),
    ensures
        i <= r.0 <= j,
        reads_cat(r.1, names, cs, i, r.0, d),
        r.0 == j ==> same(h, r.1) && size(h) == size(r.1) && twin(h, r.1),
        r.0 < j ==> cs[r.0] == '|' && reads_alt(r.2, names, cs, r.0 + 1, j, d) && same(h, alt(r.1, r.2)) && size(h)
            == size(r.1) + size(r.2) && twin(h, alt(r.1, r.2)),
    decreases h,
{
    if reads_cat(h, names, cs, i, j, d) {
        lemma_cat_first(h, names, cs, i, j, d);
        lemma_twin_self(h);
        (j, h, h)
    } else {
        match h {
            Hir::Alternation(l, r) => {
                let m = choose|m: int|
                    i <= m < j && #[trigger] cs[m] == '|' && reads_alt(*l, names, cs, i, m, d) && reads_alt(
                        *r,
                        names,
                        cs,
                        m + 1,
                        j,
                        d,
                    );
                assert(h == alt(*l, *r));
                let (k, a, b) = lemma_alt_parts(*l, names, cs, i, m, d);
                if k == m {
                    assert forall|w: Seq<Sym>| lang(h, w) == lang(alt(a, *r), w) by {
                        assert(lang(h, w) == (lang(*l, w) || lang(*r, w)));
                        assert(lang(alt(a, *r), w) == (lang(a, w) || lang(*r, w)));
                    }
                    lemma_twin_alt(*l, a, *r);
                    (m, a, *r)
                } else {
                    lemma_alt_first(b, names, cs, k + 1, m, d);
                    let rest = alt(b, *r);
                    assert(k + 1 <= m < j && cs[m] == '|' && reads_alt(b, names, cs, k + 1, m, d) && reads_alt(
                        *r,
                        names,
                        cs,
                        m + 1,
                        j,
                        d,
                    ));
                    assert(reads_alt(rest, names, cs, k + 1, j, d));
                    assert forall|w: Seq<Sym>| lang(h, w) == lang(alt(a, rest), w) by {
                        assert(lang(h, w) == (lang(*l, w) || lang(*r, w)));
                        assert(lang(alt(a, b), w) == (lang(a, w) || lang(b, w)));
                        assert(lang(rest, w) == (lang(b, w) || lang(*r, w)));
                        assert(lang(alt(a, rest), w) == (lang(a, w) || lang(rest, w)));
                    }
                    lemma_twin_alt(*l, alt(a, b), *r);
                    lemma_twin_alt_assoc(a, b, *r);
                    lemma_twin_trans(h, alt(alt(a, b), *r), alt(a, rest));
                    (k, a, rest)
                }
            },
            _ => (j, h, h),
        }
    }
}

/// A repetition is its atom with what the signs behind it ask for.
pub proof fn lemma_rep_parts(h: Hir, names: Seq<String>, cs: Seq<char>, i: int, j: int, d: int) -> (r: (int, Hir))
    requires
        reads_rep(h, names, cs, i, j, d),
    ensures
        i < r.0 <= j,
        reads_atom(r.1, names, cs, i, r.0, d),
        signs(cs, r.0, j) matches Some((optional, repeated)) && h == wrap(optional, repeated, r.1),
{
    let k = choose|k: int|
        i < k <= j && match #[trigger] signs(cs, k, j) {
            Some((false, false)) => reads_atom(h, names, cs, i, k, d),
            Some((true, true)) => match h {
                Hir::Closure(t) => reads_atom(*t, names, cs, i, k, d),
                _ => false,
            },
            Some((false, true)) => match h {
                Hir::Plus(t) => reads_atom(*t, names, cs, i, k, d),
                _ => false,
            },
            Some((true, false)) => match h {
                Hir::Option(t) => reads_atom(*t, names, cs, i, k, d),
                _ => false,
            },
            None => false,
        };
    let a = match signs(cs, k, j) {
        Some((false, false)) => h,
        _ => match h {
            Hir::Closure(t) => *t,
            Hir::Plus(t) => *t,
            Hir::Option(t) => *t,
            _ => h,
        },
    };
    (k, a)
}

/// The ranges of the atom that begins at `i` with something else than
/// `(`.
pub open spec fn plain_ranges(cs: Seq<char>, i: int) -> Seq<(u32, u32)> {
    if cs[i] == '.' {
        any_ranges()
    } else if cs[i] == '\\' {
        escape_ranges(cs[i + 1])->0
    } else if cs[i] == '[' {
        match class_scan(cs, i + 1, Seq::empty()) {
            Some((r, _)) => r,
            None => Seq::empty(),
        }
    } else {
        seq![(cs[i] as u32, cs[i] as u32)]
    }
}

/// An atom that begins with something else than `(` is the class of the
/// ranges that the text gives.
pub proof fn lemma_plain_class(h: Hir, names: Seq<String>, cs: Seq<char>, i: int, j: int, d: int)
    requires
        reads_atom(h, names, cs, i, j, d),
        cs[i] != '(',
    ensures
        h matches Hir::Class(r) && r@ == plain_ranges(cs, i),
{
    assert(!reads_group(h, names, cs, i, j, d));
}

/// What stands in a group without a name.
pub proof fn lemma_group_plain(h: Hir, names: Seq<String>, cs: Seq<char>, i: int, j: int, d: int) -> (p: int)
    requires
        reads_group(h, names, cs, i, j, d),
        !(cs[i + 1] == '?' && cs[i + 2] != ':'),
    ensures
        i < p <= j - 1,
        p == if cs[i + 1] != '?' {
            i + 1
        } else {
            i + 3
        },
        reads_alt(h, names, cs, p, j - 1, d - 1),
{
    let p = if cs[i + 1] != '?' {
        i + 1
    } else {
        i + 3
    };
    if cs[i + 1] != '?' {
        assert(reads_alt(h, names, cs, i + 1, j - 1, d - 1));
    } else {
        assert(reads_alt(h, names, cs, i + 3, j - 1, d - 1));
    }
    lemma_alt_first(h, names, cs, p, j - 1, d - 1);
    p
}

/// What stands in a group with a name: the variable, the expression
/// inside, and where the name ends.
pub proof fn lemma_group_named(h: Hir, names: Seq<String>, cs: Seq<char>, i: int, j: int, d: int) -> (r: (
    usize,
    Hir,
    int,
))
    requires
        reads_group(h, names, cs, i, j, d),
        cs[i + 1] == '?',
        cs[i + 2] != ':',
    ensures
        h == Hir::Label(r.0, Box::new(r.1)),
        name_end(cs, i, r.2),
        r.2 < j - 1,
        r.0 < names.len(),
        names[r.0 as int]@ == cs.subrange(i + 4, r.2),
        reads_alt(r.1, names, cs, r.2 + 1, j - 1, d - 1),
{
    match h {
        Hir::Label(v, inner) => {
            let e = choose|e: int|
                i + 4 < e < j - 1 && #[trigger] cs[e] == '>' && cs[i + 1] == '?' && cs[i + 2] == 'P' && cs[i + 3]
                    == '<' && (forall|t: int| i + 4 <= t < e ==> is_name(#[trigger] cs[t])) && v < names.len()
                    && names[v as int]@ == cs.subrange(i + 4, e) && reads_alt(*inner, names, cs, e + 1, j - 1, d - 1);
            (v, *inner, e)
        },
        _ => (0, h, 0),
    }
}

/// Two atoms that the same characters spell: for each word that one
/// matches, the other matches a word that is alike.
pub proof fn lemma_atom_alike(
    h1: Hir,
    n1: Seq<String>,
    h2: Hir,
    n2: Seq<String>,
    cs: Seq<char>,
    i: int,
    j: int,
    d1: int,
    d2: int,
    w1: Seq<Sym>,
) -> (w2: Seq<Sym>)
    requires
        reads_atom(h1, n1, cs, i, j, d1),
        reads_atom(h2, n2, cs, i, j, d2),
        n1.len() <= MAX_VARS,
        n2.len() <= MAX_VARS,
        lang(h1, w1),
    ensures
        lang(h2, w2),
        words_alike(w1, n1, w2, n2),
    decreases j - i, 0int, w1.len(),
{
    if cs[i] != '(' {
        lemma_plain_class(h1, n1, cs, i, j, d1);
        lemma_plain_class(h2, n2, cs, i, j, d2);
        assert(sym_alike(w1[0], n1, w1[0], n2));
        w1
    } else {
        assert(reads_group(h1, n1, cs, i, j, d1));
        assert(reads_group(h2, n2, cs, i, j, d2));
        if cs[i + 1] == '?' && cs[i + 2] != ':' {
            let (v1, x1, e1) = lemma_group_named(h1, n1, cs, i, j, d1);
            let (v2, x2, e2) = lemma_group_named(h2, n2, cs, i, j, d2);
            lemma_name_end(cs, i, e1, e2);
            let mid = w1.subrange(1, w1.len() - 1);
            let y2 = lemma_alt_alike(x1, n1, x2, n2, cs, e1 + 1, j - 1, d1 - 1, d2 - 1, mid);
            let open = Sym::Mark((2 * v2) as usize);
            let close = Sym::Mark((2 * v2 + 1) as usize);
            let w2 = seq![open] + y2 + seq![close];
            assert(w2.subrange(1, w2.len() - 1) =~= y2);
            assert(w2[0] == open);
            assert(w2.last() == close);
            assert forall|t: int| 0 <= t < w1.len() implies sym_alike(#[trigger] w1[t], n1, w2[t], n2) by {
                if t == 0 {
                    assert(w1[0] == Sym::Mark((2 * v1) as usize));
                } else if t == w1.len() - 1 {
                    assert(w1[t] == Sym::Mark((2 * v1 + 1) as usize));
                    assert(w2[t] == close);
                } else {
                    assert(sym_alike(mid[t - 1], n1, y2[t - 1], n2));
                    assert(mid[t - 1] == w1[t]);
                    assert(w2[t] == y2[t - 1]);
                }
            }
            w2
        } else {
            let inner1 = lemma_group_plain(h1, n1, cs, i, j, d1);
            let inner2 = lemma_group_plain(h2, n2, cs, i, j, d2);
            lemma_alt_alike(h1, n1, h2, n2, cs, inner1, j - 1, d1 - 1, d2 - 1, w1)
        }
    }
}

/// The same of the words that are made of pieces that the atoms match.
pub proof fn lemma_star_alike(
    x1: Hir,
    n1: Seq<String>,
    x2: Hir,
    n2: Seq<String>,
    cs: Seq<char>,
    i: int,
    j: int,
    d1: int,
    d2: int,
    w1: Seq<Sym>,
) -> (w2: Seq<Sym>)
    requires
        reads_atom(x1, n1, cs, i, j, d1),
        reads_atom(x2, n2, cs, i, j, d2),
        n1.len() <= MAX_VARS,
        n2.len() <= MAX_VARS,
        star(x1, w1),
    ensures
        star(x2, w2),
        words_alike(w1, n1, w2, n2),
    decreases j - i, 1int, w1.len(),
{
    if w1.len() == 0 {
        w1
    } else {
        let s = choose|s: int| 0 < s <= w1.len() && lang(x1, #[trigger] w1.take(s)) && star(x1, w1.skip(s));
        let u2 = lemma_atom_alike(x1, n1, x2, n2, cs, i, j, d1, d2, w1.take(s));
        let v2 = lemma_star_alike(x1, n1, x2, n2, cs, i, j, d1, d2, w1.skip(s));
        let w2 = u2 + v2;
        lemma_alike_concat(w1.take(s), w1.skip(s), n1, u2, v2, n2);
        assert(w1 =~= w1.take(s) + w1.skip(s));
        assert(w2.take(s) =~= u2);
        assert(w2.skip(s) =~= v2);
        w2
    }
}

/// Two repetitions that the same characters spell: for each word that
/// one matches, the other matches a word that is alike.
pub proof fn lemma_rep_alike(
    h1: Hir,
    n1: Seq<String>,
    h2: Hir,
    n2: Seq<String>,
    cs: Seq<char>,
    i: int,
    j: int,
    d1: int,
    d2: int,
    w1: Seq<Sym>,
) -> (w2: Seq<Sym>)
    requires
        reads_rep(h1, n1, cs, i, j, d1),
        reads_rep(h2, n2, cs, i, j, d2),
        n1.len() <= MAX_VARS,
        n2.len() <= MAX_VARS,
        lang(h1, w1),
    ensures
        lang(h2, w2),
        words_alike(w1, n1, w2, n2),
    decreases j - i, 2int, w1.len(),
{
    let (k1, x1) = lemma_rep_parts(h1, n1, cs, i, j, d1);
    let (k2, x2) = lemma_rep_parts(h2, n2, cs, i, j, d2);
    assert(atom_to(n1, cs, i, k1, d1));
    assert(atom_to(n2, cs, i, k2, d2));
    lemma_atom_end(n1, n2, cs, i, k1, k2, d1, d2);
    let (optional, repeated) = signs(cs, k1, j)->0;
    if optional && repeated {
        lemma_star_alike(x1, n1, x2, n2, cs, i, k1, d1, d2, w1)
    } else if repeated {
        let s = choose|s: int| 0 <= s <= w1.len() && lang(x1, #[trigger] w1.take(s)) && star(x1, w1.skip(s));
        let u2 = lemma_atom_alike(x1, n1, x2, n2, cs, i, k1, d1, d2, w1.take(s));
        let v2 = lemma_star_alike(x1, n1, x2, n2, cs, i, k1, d1, d2, w1.skip(s));
        let w2 = u2 + v2;
        lemma_alike_concat(w1.take(s), w1.skip(s), n1, u2, v2, n2);
        assert(w1 =~= w1.take(s) + w1.skip(s));
        assert(w2.take(s) =~= u2);
        assert(w2.skip(s) =~= v2);
        w2
    } else if optional {
        if w1.len() == 0 {
            w1
        } else {
            lemma_atom_alike(x1, n1, x2, n2, cs, i, k1, d1, d2, w1)
        }
    } else {
        lemma_atom_alike(x1, n1, x2, n2, cs, i, k1, d1, d2, w1)
    }
}

/// Two concatenations that the same characters spell: for each word that
/// one matches, the other matches a word that is alike.
pub proof fn lemma_cat_alike(
    h1: Hir,
    n1: Seq<String>,
    h2: Hir,
    n2: Seq<String>,
    cs: Seq<char>,
    i: int,
    j: int,
    d1: int,
    d2: int,
    w1: Seq<Sym>,
) -> (w2: Seq<Sym>)
    requires
        reads_cat(h1, n1, cs, i, j, d1),
        reads_cat(h2, n2, cs, i, j, d2),
        at_stop(cs, j),
        0 <= i,
        n1.len() <= MAX_VARS,
        n2.len() <= MAX_VARS,
        lang(h1, w1),
    ensures
        lang(h2, w2),
        words_alike(w1, n1, w2, n2),
    decreases j - i, 3int, w1.len(),
{
    lemma_cat_first(h1, n1, cs, i, j, d1);
    if i == j {
        lemma_cat_empty(h1, n1, cs, i, d1);
        lemma_cat_empty(h2, n2, cs, i, d2);
        w1
    } else {
        let (k1, a1, b1) = lemma_cat_parts(h1, n1, cs, i, j, d1);
        let (k2, a2, b2) = lemma_cat_parts(h2, n2, cs, i, j, d2);
        lemma_cat_first(b1, n1, cs, k1, j, d1);
        lemma_cat_first(b2, n2, cs, k2, j, d2);
        assert(no_sign(cs, k1));
        assert(no_sign(cs, k2));
        assert(rep_to(n1, cs, i, k1, d1));
        assert(rep_to(n2, cs, i, k2, d2));
        lemma_rep_end(n1, n2, cs, i, k1, k2, d1, d2);
        let s = lemma_cat_splits(a1, b1, w1);
        let u2 = lemma_rep_alike(a1, n1, a2, n2, cs, i, k1, d1, d2, w1.take(s));
        let v2 = lemma_cat_alike(b1, n1, b2, n2, cs, k1, j, d1, d2, w1.skip(s));
        lemma_cat_joins(a2, b2, u2, v2);
        lemma_alike_concat(w1.take(s), w1.skip(s), n1, u2, v2, n2);
        u2 + v2
    }
}

/// Two alternations that the same characters spell: for each word that
/// one matches, the other matches a word that is alike.
pub proof fn lemma_alt_alike(
    h1: Hir,
    n1: Seq<String>,
    h2: Hir,
    n2: Seq<String>,
    cs: Seq<char>,
    i: int,
    j: int,
    d1: int,
    d2: int,
    w1: Seq<Sym>,
) -> (w2: Seq<Sym>)
    requires
        reads_alt(h1, n1, cs, i, j, d1),
        reads_alt(h2, n2, cs, i, j, d2),
        at_close(cs, j),
        0 <= i,
        n1.len() <= MAX_VARS,
        n2.len() <= MAX_VARS,
        lang(h1, w1),
    ensures
        lang(h2, w2),
        words_alike(w1, n1, w2, n2),
    decreases j - i, 4int, w1.len(),
{
    let (k1, a1, b1) = lemma_alt_parts(h1, n1, cs, i, j, d1);
    let (k2, a2, b2) = lemma_alt_parts(h2, n2, cs, i, j, d2);
    assert(at_stop(cs, k1));
    assert(at_stop(cs, k2));
    assert(cat_to(n1, cs, i, k1, d1));
    assert(cat_to(n2, cs, i, k2, d2));
    lemma_cat_end(n1, n2, cs, i, k1, k2, d1, d2);
    if k1 == j {
        lemma_cat_alike(a1, n1, a2, n2, cs, i, j, d1, d2, w1)
    } else {
        assert(lang(alt(a1, b1), w1) == (lang(a1, w1) || lang(b1, w1)));
        if lang(a1, w1) {
            let w2 = lemma_cat_alike(a1, n1, a2, n2, cs, i, k1, d1, d2, w1);
            assert(lang(alt(a2, b2), w2));
            w2
        } else {
            let w2 = lemma_alt_alike(b1, n1, b2, n2, cs, k1 + 1, j, d1, d2, w1);
            assert(lang(alt(a2, b2), w2));
            w2
        }
    }
}

/// Whatever two expressions a text spells, and however their variables
/// are numbered: for each marked word that one matches, the other matches
/// a word that is alike.
pub proof fn lemma_spelled_alike(
    text: Seq<char>,
    h1: Hir,
    n1: Seq<String>,
    h2: Hir,
    n2: Seq<String>,
    w1: Seq<Sym>,
) -> (w2: Seq<Sym>)
    requires
        spells(text, h1, n1),
        spells(text, h2, n2),
        lang(h1, w1),
    ensures
        lang(h2, w2),
        words_alike(w1, n1, w2, n2),
{
    lemma_alt_alike(h1, n1, h2, n2, text, 0, text.len() as int, MAX_DEPTH as int, MAX_DEPTH as int, w1)
}

/// Whatever two expressions a text spells, they match the same texts.
pub proof fn lemma_spelled_text(
    text: Seq<char>,
    h1: Hir,
    n1: Seq<String>,
    h2: Hir,
    n2: Seq<String>,
    t: Seq<char>,
)
    requires
        spells(text, h1, n1),
        spells(text, h2, n2),
    ensures
        matches_text(h1, t) == matches_text(h2, t),
{
    if matches_text(h1, t) {
        let w1 = choose|w: Seq<Sym>| #[trigger] lang(h1, w) && chars_of(w) == t;
        let w2 = lemma_spelled_alike(text, h1, n1, h2, n2, w1);
        lemma_alike_chars(w1, n1, w2, n2);
    }
    if matches_text(h2, t) {
        let w2 = choose|w: Seq<Sym>| #[trigger] lang(h2, w) && chars_of(w) == t;
        let w1 = lemma_spelled_alike(text, h2, n2, h1, n1, w2);
        lemma_alike_chars(w2, n2, w1, n1);
    }
}

/// The expressions that a text spells with given names, no two of them
/// equal, match the same marked words.
pub proof fn lemma_spelled_same(text: Seq<char>, h1: Hir, h2: Hir, names: Seq<String>)
    requires
        spells(text, h1, names),
        spells(text, h2, names),
        distinct(names),
    ensures
        same(h1, h2),
{
    assert forall|w: Seq<Sym>| lang(h1, w) == lang(h2, w) by {
        if lang(h1, w) {
            let w2 = lemma_spelled_alike(text, h1, names, h2, names, w);
            lemma_alike_same(w, w2, names);
        }
        if lang(h2, w) {
            let w1 = lemma_spelled_alike(text, h2, names, h1, names, w);
            lemma_alike_same(w, w1, names);
        }
    }
}

/// Two atoms that the same characters spell have as many positions.
pub proof fn lemma_atom_size(
    h1: Hir,
    n1: Seq<String>,
    h2: Hir,
    n2: Seq<String>,
    cs: Seq<char>,
    i: int,
    j: int,
    d1: int,
    d2: int,
)
    requires
        reads_atom(h1, n1, cs, i, j, d1),
        reads_atom(h2, n2, cs, i, j, d2),
    ensures
        size(h1) == size(h2),
    decreases j - i, 0int,
{
    if cs[i] != '(' {
        lemma_plain_class(h1, n1, cs, i, j, d1);
        lemma_plain_class(h2, n2, cs, i, j, d2);
    } else {
        assert(reads_group(h1, n1, cs, i, j, d1));
        assert(reads_group(h2, n2, cs, i, j, d2));
        if cs[i + 1] == '?' && cs[i + 2] != ':' {
            let (v1, x1, e1) = lemma_group_named(h1, n1, cs, i, j, d1);
            let (v2, x2, e2) = lemma_group_named(h2, n2, cs, i, j, d2);
            lemma_name_end(cs, i, e1, e2);
            lemma_alt_size(x1, n1, x2, n2, cs, e1 + 1, j - 1, d1 - 1, d2 - 1);
        } else {
            let inner1 = lemma_group_plain(h1, n1, cs, i, j, d1);
            let inner2 = lemma_group_plain(h2, n2, cs, i, j, d2);
            lemma_alt_size(h1, n1, h2, n2, cs, inner1, j - 1, d1 - 1, d2 - 1);
        }
    }
}

/// Two repetitions that the same characters spell have as many
/// positions.
pub proof fn lemma_rep_size(
    h1: Hir,
    n1: Seq<String>,
    h2: Hir,
    n2: Seq<String>,
    cs: Seq<char>,
    i: int,
    j: int,
    d1: int,
    d2: int,
)
    requires
        reads_rep(h1, n1, cs, i, j, d1),
        reads_rep(h2, n2, cs, i, j, d2),
    ensures
        size(h1) == size(h2),
    decreases j - i, 1int,
{
    let (k1, x1) = lemma_rep_parts(h1, n1, cs, i, j, d1);
    let (k2, x2) = lemma_rep_parts(h2, n2, cs, i, j, d2);
    assert(atom_to(n1, cs, i, k1, d1));
    assert(atom_to(n2, cs, i, k2, d2));
    lemma_atom_end(n1, n2, cs, i, k1, k2, d1, d2);
    lemma_atom_size(x1, n1, x2, n2, cs, i, k1, d1, d2);
}

/// Two concatenations that the same characters spell have as many
/// positions.
pub proof fn lemma_cat_size(
    h1: Hir,
    n1: Seq<String>,
    h2: Hir,
    n2: Seq<String>,
    cs: Seq<char>,
    i: int,
    j: int,
    d1: int,
    d2: int,
)
    requires
        reads_cat(h1, n1, cs, i, j, d1),
        reads_cat(h2, n2, cs, i, j, d2),
        at_stop(cs, j),
        0 <= i,
    ensures
        size(h1) == size(h2),
    decreases j - i, 2int,
{
    lemma_cat_first(h1, n1, cs, i, j, d1);
    if i == j {
        lemma_cat_empty(h1, n1, cs, i, d1);
        lemma_cat_empty(h2, n2, cs, i, d2);
    } else {
        let (k1, a1, b1) = lemma_cat_parts(h1, n1, cs, i, j, d1);
        let (k2, a2, b2) = lemma_cat_parts(h2, n2, cs, i, j, d2);
        lemma_cat_first(b1, n1, cs, k1, j, d1);
        lemma_cat_first(b2, n2, cs, k2, j, d2);
        assert(no_sign(cs, k1));
        assert(no_sign(cs, k2));
        assert(rep_to(n1, cs, i, k1, d1));
        assert(rep_to(n2, cs, i, k2, d2));
        lemma_rep_end(n1, n2, cs, i, k1, k2, d1, d2);
        lemma_rep_size(a1, n1, a2, n2, cs, i, k1, d1, d2);
        lemma_cat_size(b1, n1, b2, n2, cs, k1, j, d1, d2);
    }
}

/// Two alternations that the same characters spell have as many
/// positions.
pub proof fn lemma_alt_size(
    h1: Hir,
    n1: Seq<String>,
    h2: Hir,
    n2: Seq<String>,
    cs: Seq<char>,
    i: int,
    j: int,
    d1: int,
    d2: int,
)
    requires
        reads_alt(h1, n1, cs, i, j, d1),
        reads_alt(h2, n2, cs, i, j, d2),
        at_close(cs, j),
        0 <= i,
    ensures
        size(h1) == size(h2),
    decreases j - i, 3int,
{
    let (k1, a1, b1) = lemma_alt_parts(h1, n1, cs, i, j, d1);
    let (k2, a2, b2) = lemma_alt_parts(h2, n2, cs, i, j, d2);
    assert(at_stop(cs, k1));
    assert(at_stop(cs, k2));
    assert(cat_to(n1, cs, i, k1, d1));
    assert(cat_to(n2, cs, i, k2, d2));
    lemma_cat_end(n1, n2, cs, i, k1, k2, d1, d2);
    lemma_cat_size(a1, n1, a2, n2, cs, i, k1, d1, d2);
    if k1 < j {
        lemma_alt_size(b1, n1, b2, n2, cs, k1 + 1, j, d1, d2);
    }
}

/// Whatever two expressions a text spells, they have as many positions.
pub proof fn lemma_spelled_size(text: Seq<char>, h1: Hir, n1: Seq<String>, h2: Hir, n2: Seq<String>)
    requires
        spells(text, h1, n1),
        spells(text, h2, n2),
    ensures
        size(h1) == size(h2),
{
    lemma_alt_size(h1, n1, h2, n2, text, 0, text.len() as int, MAX_DEPTH as int, MAX_DEPTH as int);
}

/// Two atoms that the same characters spell are kin.
pub proof fn lemma_atom_kin(
    h1: Hir,
    n1: Seq<String>,
    h2: Hir,
    n2: Seq<String>,
    cs: Seq<char>,
    i: int,
    j: int,
    d1: int,
    d2: int,
)
    requires
        reads_atom(h1, n1, cs, i, j, d1),
        reads_atom(h2, n2, cs, i, j, d2),
        n1.len() <= MAX_VARS,
        n2.len() <= MAX_VARS,
    ensures
        kin(h1, n1, h2, n2),
    decreases j - i, 0int,
{
    if cs[i] != '(' {
        lemma_plain_class(h1, n1, cs, i, j, d1);
        lemma_plain_class(h2, n2, cs, i, j, d2);
        assert(leaf_alike(leaves(h1)[0], n1, leaves(h2)[0], n2));
        assert forall|off: int| #[trigger] sets_same(h1, h2, off) by {}
    } else {
        assert(reads_group(h1, n1, cs, i, j, d1));
        assert(reads_group(h2, n2, cs, i, j, d2));
        if cs[i + 1] == '?' && cs[i + 2] != ':' {
            let (v1, x1, e1) = lemma_group_named(h1, n1, cs, i, j, d1);
            let (v2, x2, e2) = lemma_group_named(h2, n2, cs, i, j, d2);
            lemma_name_end(cs, i, e1, e2);
            lemma_alt_kin(x1, n1, x2, n2, cs, e1 + 1, j - 1, d1 - 1, d2 - 1);
            lemma_kin_label(v1, x1, n1, v2, x2, n2);
        } else {
            let inner1 = lemma_group_plain(h1, n1, cs, i, j, d1);
            let inner2 = lemma_group_plain(h2, n2, cs, i, j, d2);
            lemma_alt_kin(h1, n1, h2, n2, cs, inner1, j - 1, d1 - 1, d2 - 1);
        }
    }
}

/// Two repetitions that the same characters spell are kin.
pub proof fn lemma_rep_kin(
    h1: Hir,
    n1: Seq<String>,
    h2: Hir,
    n2: Seq<String>,
    cs: Seq<char>,
    i: int,
    j: int,
    d1: int,
    d2: int,
)
    requires
        reads_rep(h1, n1, cs, i, j, d1),
        reads_rep(h2, n2, cs, i, j, d2),
        n1.len() <= MAX_VARS,
        n2.len() <= MAX_VARS,
    ensures
        kin(h1, n1, h2, n2),
    decreases j - i, 1int,
{
    let (k1, x1) = lemma_rep_parts(h1, n1, cs, i, j, d1);
    let (k2, x2) = lemma_rep_parts(h2, n2, cs, i, j, d2);
    assert(atom_to(n1, cs, i, k1, d1));
    assert(atom_to(n2, cs, i, k2, d2));
    lemma_atom_end(n1, n2, cs, i, k1, k2, d1, d2);
    lemma_atom_kin(x1, n1, x2, n2, cs, i, k1, d1, d2);
    let (optional, repeated) = signs(cs, k1, j)->0;
    lemma_kin_wrap(optional, repeated, x1, n1, x2, n2);
}

/// Two concatenations that the same characters spell are kin.
pub proof fn lemma_cat_kin(
    h1: Hir,
    n1: Seq<String>,
    h2: Hir,
    n2: Seq<String>,
    cs: Seq<char>,
    i: int,
    j: int,
    d1: int,
    d2: int,
)
    requires
        reads_cat(h1, n1, cs, i, j, d1),
        reads_cat(h2, n2, cs, i, j, d2),
        at_stop(cs, j),
        0 <= i,
        n1.len() <= MAX_VARS,
        n2.len() <= MAX_VARS,
    ensures
        kin(h1, n1, h2, n2),
    decreases j - i, 2int,
{
    lemma_cat_first(h1, n1, cs, i, j, d1);
    if i == j {
        lemma_cat_empty(h1, n1, cs, i, d1);
        lemma_cat_empty(h2, n2, cs, i, d2);
        lemma_kin_void(h1, n1, h2, n2);
    } else {
        let (k1, a1, b1) = lemma_cat_parts(h1, n1, cs, i, j, d1);
        let (k2, a2, b2) = lemma_cat_parts(h2, n2, cs, i, j, d2);
        lemma_cat_first(b1, n1, cs, k1, j, d1);
        lemma_cat_first(b2, n2, cs, k2, j, d2);
        assert(no_sign(cs, k1));
        assert(no_sign(cs, k2));
        assert(rep_to(n1, cs, i, k1, d1));
        assert(rep_to(n2, cs, i, k2, d2));
        lemma_rep_end(n1, n2, cs, i, k1, k2, d1, d2);
        lemma_rep_kin(a1, n1, a2, n2, cs, i, k1, d1, d2);
        lemma_cat_kin(b1, n1, b2, n2, cs, k1, j, d1, d2);
        lemma_kin_cat(a1, b1, n1, a2, b2, n2);
        lemma_kin_twins(h1, cat(a1, b1), n1, h2, cat(a2, b2), n2);
    }
}

/// Two alternations that the same characters spell are kin.
pub proof fn lemma_alt_kin(
    h1: Hir,
    n1: Seq<String>,
    h2: Hir,
    n2: Seq<String>,
    cs: Seq<char>,
    i: int,
    j: int,
    d1: int,
    d2: int,
)
    requires
        reads_alt(h1, n1, cs, i, j, d1),
        reads_alt(h2, n2, cs, i, j, d2),
        at_close(cs, j),
        0 <= i,
        n1.len() <= MAX_VARS,
        n2.len() <= MAX_VARS,
    ensures
        kin(h1, n1, h2, n2),
    decreases j - i, 3int,
{
    let (k1, a1, b1) = lemma_alt_parts(h1, n1, cs, i, j, d1);
    let (k2, a2, b2) = lemma_alt_parts(h2, n2, cs, i, j, d2);
    assert(at_stop(cs, k1));
    assert(at_stop(cs, k2));
    assert(cat_to(n1, cs, i, k1, d1));
    assert(cat_to(n2, cs, i, k2, d2));
    lemma_cat_end(n1, n2, cs, i, k1, k2, d1, d2);
    lemma_cat_kin(a1, n1, a2, n2, cs, i, k1, d1, d2);
    if k1 < j {
        lemma_alt_kin(b1, n1, b2, n2, cs, k1 + 1, j, d1, d2);
        lemma_kin_alt(a1, b1, n1, a2, b2, n2);
        lemma_kin_twins(h1, alt(a1, b1), n1, h2, alt(a2, b2), n2);
    } else {
        lemma_kin_twins(h1, a1, n1, h2, a2, n2);
    }
}

/// Whatever two expressions a text spells, they have the same positions,
/// with leaves that are alike.
pub proof fn lemma_spelled_kin(text: Seq<char>, h1: Hir, n1: Seq<String>, h2: Hir, n2: Seq<String>)
    requires
        spells(text, h1, n1),
        spells(text, h2, n2),
    ensures
        kin(h1, n1, h2, n2),
{
    lemma_alt_kin(h1, n1, h2, n2, text, 0, text.len() as int, MAX_DEPTH as int, MAX_DEPTH as int);
}

/// A marker edge of the position automaton of one of two kin is, with
/// the marker of the like leaf, a marker edge of that of the other.
pub proof fn lemma_kin_step(
    v1: AutomatonView,
    h1: Hir,
    n1: Seq<String>,
    v2: AutomatonView,
    h2: Hir,
    n2: Seq<String>,
    p: usize,
    m: usize,
    q: usize,
) -> (m2: usize)
    requires
        kin(h1, n1, h2, n2),
        is_position_automaton(v1, h1, n1.len()),
        is_position_automaton(v2, h2, n2.len()),
        v1.marker_step(p, m, q),
    ensures
        v2.marker_step(p, m2, q),
        leaf_alike(Leaf::Marker(m), n1, Leaf::Marker(m2), n2),
{
    lemma_spans(h1, 0);
    lemma_spans(h2, 0);
    assert(sets_same(h1, h2, 0));
    assert(edge(h1, p as int, q as int) && leaves(h1)[q - 1] == Leaf::Marker(m));
    assert(edge(h2, p as int, q as int));
    assert(1 <= q <= size(h1));
    assert(leaf_alike(leaves(h1)[q - 1], n1, leaves(h2)[q - 1], n2));
    let m2 = match leaves(h2)[q - 1] {
        Leaf::Marker(x) => x,
        Leaf::Ranges(_) => m,
    };
    assert(leaves(h2)[q - 1] == Leaf::Marker(m2));
    assert(v2.marker_step(p, m2, q));
    m2
}

/// Where no marker can be passed twice in the position automaton of one
/// of two kin, whose names are each different from the others, none can
/// in that of the other.
pub proof fn lemma_kin_once(
    v1: AutomatonView,
    h1: Hir,
    n1: Seq<String>,
    v2: AutomatonView,
    h2: Hir,
    n2: Seq<String>,
)
    requires
        kin(h2, n2, h1, n1),
        distinct(n1),
        is_position_automaton(v1, h1, n1.len()),
        is_position_automaton(v2, h2, n2.len()),
        v1.markers_once(),
    ensures
        v2.markers_once(),
{
    assert forall|i: int, j: int|
        0 <= i < v2.marker_edges.len() && 0 <= j < v2.marker_edges.len() && (#[trigger] v2.marker_edges[i]).marker
            == (#[trigger] v2.marker_edges[j]).marker implies !v2.silent_reaches(
        v2.marker_edges[i].target,
        v2.marker_edges[j].source,
    ) by {
        let a = v2.marker_edges[i];
        let b = v2.marker_edges[j];
        if v2.silent_reaches(a.target, b.source) {
            let w = choose|w: Seq<usize>| v2.is_silent_walk(w) && w[0] == a.target && w.last() == b.source;
            assert(v1.is_silent_walk(w)) by {
                assert forall|t: int| 0 <= t < w.len() - 1 implies v1.silent_step(#[trigger] w[t], w[t + 1]) by {
                    assert(v2.silent_step(w[t], w[t + 1]));
                    let m = choose|m: usize| #[trigger] v2.marker_step(w[t], m, w[t + 1]);
                    let m1 = lemma_kin_step(v2, h2, n2, v1, h1, n1, w[t], m, w[t + 1]);
                }
            }
            assert(v1.silent_reaches(a.target, b.source));
            assert(v2.marker_edges.contains(a));
            assert(v2.marker_edges.contains(b));
            assert(v2.marker_step(a.source, a.marker, a.target));
            assert(v2.marker_step(b.source, b.marker, b.target));
            let ma = lemma_kin_step(v2, h2, n2, v1, h1, n1, a.source, a.marker, a.target);
            let mb = lemma_kin_step(v2, h2, n2, v1, h1, n1, b.source, b.marker, b.target);
            assert(ma == mb) by {
                let x = (ma / 2) as int;
                let y = (mb / 2) as int;
                if x < y {
                    assert(n1[x]@ != n1[y]@);
                } else if y < x {
                    assert(n1[y]@ != n1[x]@);
                }
            }
            let ea = MarkerEdge { source: a.source, marker: ma, target: a.target };
            let eb = MarkerEdge { source: b.source, marker: mb, target: b.target };
            let ia = choose|ia: int| 0 <= ia < v1.marker_edges.len() && v1.marker_edges[ia] == ea;
            let ib = choose|ib: int| 0 <= ib < v1.marker_edges.len() && v1.marker_edges[ib] == eb;
            assert(v1.marker_edges[ia].marker == v1.marker_edges[ib].marker);
            assert(!v1.silent_reaches(v1.marker_edges[ia].target, v1.marker_edges[ib].source));
        }
    }
}

} // verus!
