//! What every reading of a text has in common: where an atom, a
//! repetition, a concatenation and an alternation that begin at a place
//! must end, and which names a reading needs.

use crate::grammar::{cut, is_name, is_sign, reads_alt, reads_atom, reads_cat, reads_group, reads_rep, signs};
use crate::parse::{Hir, MAX_VARS};
use vstd::prelude::*;

verus! {

/// The characters from `i` up to `j` spell an atom.
pub open spec fn atom_to(names: Seq<String>, cs: Seq<char>, i: int, j: int, d: int) -> bool {
    exists|h: Hir| reads_atom(h, names, cs, i, j, d)
}

/// The characters from `i` up to `j` spell a repetition.
pub open spec fn rep_to(names: Seq<String>, cs: Seq<char>, i: int, j: int, d: int) -> bool {
    exists|h: Hir| reads_rep(h, names, cs, i, j, d)
}

/// The characters from `i` up to `j` spell a concatenation.
pub open spec fn cat_to(names: Seq<String>, cs: Seq<char>, i: int, j: int, d: int) -> bool {
    exists|h: Hir| reads_cat(h, names, cs, i, j, d)
}

/// The characters from `i` up to `j` spell an alternation.
pub open spec fn alt_to(names: Seq<String>, cs: Seq<char>, i: int, j: int, d: int) -> bool {
    exists|h: Hir| reads_alt(h, names, cs, i, j, d)
}

/// At `j` the text ends or a repetition sign does not stand.
pub open spec fn no_sign(cs: Seq<char>, j: int) -> bool {
    j == cs.len() || (0 <= j < cs.len() && !is_sign(cs[j]))
}

/// At `j` the text ends or stands what ends a concatenation.
pub open spec fn at_stop(cs: Seq<char>, j: int) -> bool {
    j == cs.len() || (0 <= j < cs.len() && (cs[j] == '|' || cs[j] == ')'))
}

/// At `j` the text ends or stands what ends a group.
pub open spec fn at_close(cs: Seq<char>, j: int) -> bool {
    j == cs.len() || (0 <= j < cs.len() && cs[j] == ')')
}

/// An atom may begin with `c`.
pub open spec fn opens(c: char) -> bool {
    !is_sign(c) && c != '|' && c != ')' && c != '^' && c != '$'
}

/// One of `names` is `s`.
pub open spec fn has_name(names: Seq<String>, s: Seq<char>) -> bool {
    exists|u: int| 0 <= u < names.len() && (#[trigger] names[u])@ == s
}

/// The name of the group that begins at `i` ends before `e`, where its `>`
/// stands.
pub open spec fn name_end(cs: Seq<char>, i: int, e: int) -> bool {
    &&& i + 4 < e < cs.len()
    &&& cs[e] == '>'
    &&& forall|t: int| i + 4 <= t < e ==> is_name(#[trigger] cs[t])
}

/// Where signs ask for something, only signs stand.
pub proof fn lemma_signs_run(cs: Seq<char>, k: int, j: int)
    requires
        signs(cs, k, j) is Some,
        k < j,
    ensures
        0 <= k,
        j <= cs.len(),
        forall|t: int| k <= t < j ==> is_sign(#[trigger] cs[t]),
    decreases j - k,
{
    let next = if k + 1 < j && cs[k + 1] == '?' {
        k + 2
    } else {
        k + 1
    };
    if next < j {
        lemma_signs_run(cs, next, j);
    }
}

/// An atom is not empty, lies in the text and begins with a character
/// that may begin one.
pub proof fn lemma_atom_first(h: Hir, names: Seq<String>, cs: Seq<char>, i: int, j: int, d: int)
    requires
        reads_atom(h, names, cs, i, j, d),
    ensures
        0 <= i < j <= cs.len(),
        opens(cs[i]),
{
    if reads_group(h, names, cs, i, j, d) {
        assert(cs[i] == '(');
    }
}

/// A repetition is an atom with signs behind it.
pub proof fn lemma_rep_atom(h: Hir, names: Seq<String>, cs: Seq<char>, i: int, j: int, d: int) -> (k: int)
    requires
        reads_rep(h, names, cs, i, j, d),
    ensures
        0 <= i < k <= j <= cs.len(),
        opens(cs[i]),
        atom_to(names, cs, i, k, d),
        signs(cs, k, j) is Some,
        forall|t: int| k <= t < j ==> is_sign(#[trigger] cs[t]),
{
    let k = choose|k: int|
        i < k <= j && match #[trigger] signs(cs, k, j) {
            Some((false, false)) => reads_atom(h, names, cs, i, k, d),
            Some((true, true)) => match h {
                Hir::Closure(t) => reads_atom(*t, names, cs, i, k, d),
                _ => false,
            },
            Some((false, true)) => match h {
                Hir::Plus(t) => reads_atom(*t, names, cs, i, k, d),
                _ => false,
            },
            Some((true, false)) => match h {
                Hir::Option(t) => reads_atom(*t, names, cs, i, k, d),
                _ => false,
            },
            None => false,
        };
    let a = match signs(cs, k, j) {
        Some((false, false)) => h,
        _ => match h {
            Hir::Closure(t) => *t,
            Hir::Plus(t) => *t,
            Hir::Option(t) => *t,
            _ => h,
        },
    };
    assert(reads_atom(a, names, cs, i, k, d));
    lemma_atom_first(a, names, cs, i, k, d);
    if k < j {
        lemma_signs_run(cs, k, j);
    }
    k
}

/// A concatenation that is not empty lies in the text and begins with a
/// character that may begin an atom.
pub proof fn lemma_cat_first(h: Hir, names: Seq<String>, cs: Seq<char>, i: int, j: int, d: int)
    requires
        reads_cat(h, names, cs, i, j, d),
    ensures
        i <= j,
        i < j ==> 0 <= i && j <= cs.len() && opens(cs[i]),
    decreases h,
{
    if i == j && h is Empty {
    } else if reads_rep(h, names, cs, i, j, d) {
        let k = lemma_rep_atom(h, names, cs, i, j, d);
    } else {
        match h {
            Hir::Concat(l, r) => {
                let m = choose|m: int|
                    i <= m <= j && #[trigger] cut(m) && reads_cat(*l, names, cs, i, m, d) && reads_cat(
                        *r,
                        names,
                        cs,
                        m,
                        j,
                        d,
                    );
                lemma_cat_first(*l, names, cs, i, m, d);
                lemma_cat_first(*r, names, cs, m, j, d);
            },
            _ => {},
        }
    }
}

/// A concatenation that is not empty is a repetition and a concatenation
/// behind it.
pub proof fn lemma_cat_head(h: Hir, names: Seq<String>, cs: Seq<char>, i: int, j: int, d: int) -> (k: int)
    requires
        reads_cat(h, names, cs, i, j, d),
        i < j,
    ensures
        i < k <= j,
        rep_to(names, cs, i, k, d),
        cat_to(names, cs, k, j, d),
    decreases h,
{
    if reads_rep(h, names, cs, i, j, d) {
        assert(reads_cat(Hir::Empty, names, cs, j, j, d));
        j
    } else {
        match h {
            Hir::Concat(l, r) => {
                let m = choose|m: int|
                    i <= m <= j && #[trigger] cut(m) && reads_cat(*l, names, cs, i, m, d) && reads_cat(
                        *r,
                        names,
                        cs,
                        m,
                        j,
                        d,
                    );
                if i < m {
                    let k = lemma_cat_head(*l, names, cs, i, m, d);
                    let t = choose|t: Hir| reads_cat(t, names, cs, k, m, d);
                    let both = Hir::Concat(Box::new(t), r);
                    assert(k <= m <= j && cut(m) && reads_cat(t, names, cs, k, m, d) && reads_cat(
                        *r,
                        names,
                        cs,
                        m,
                        j,
                        d,
                    ));
                    assert(reads_cat(both, names, cs, k, j, d));
                    k
                } else {
                    lemma_cat_head(*r, names, cs, i, j, d)
                }
            },
            _ => j,
        }
    }
}

/// An alternation lies in the text where it is not empty.
pub proof fn lemma_alt_first(h: Hir, names: Seq<String>, cs: Seq<char>, i: int, j: int, d: int)
    requires
        reads_alt(h, names, cs, i, j, d),
    ensures
        i <= j,
    decreases h,
{
    if reads_cat(h, names, cs, i, j, d) {
        lemma_cat_first(h, names, cs, i, j, d);
    }
}

/// An alternation is a concatenation, behind which it ends or a `|` and an
/// alternation follow.
pub proof fn lemma_alt_head(h: Hir, names: Seq<String>, cs: Seq<char>, i: int, j: int, d: int) -> (k: int)
    requires
        reads_alt(h, names, cs, i, j, d),
    ensures
        i <= k <= j,
        cat_to(names, cs, i, k, d),
        k == j || (cs[k] == '|' && alt_to(names, cs, k + 1, j, d)),
    decreases h,
{
    if reads_cat(h, names, cs, i, j, d) {
        lemma_cat_first(h, names, cs, i, j, d);
        j
    } else {
        match h {
            Hir::Alternation(l, r) => {
                let m = choose|m: int|
                    i <= m < j && #[trigger] cs[m] == '|' && reads_alt(*l, names, cs, i, m, d) && reads_alt(
                        *r,
                        names,
                        cs,
                        m + 1,
                        j,
                        d,
                    );
                let k = lemma_alt_head(*l, names, cs, i, m, d);
                if k == m {
                    m
                } else {
                    let start = k + 1;
                    let t = choose|t: Hir| reads_alt(t, names, cs, start, m, d);
                    lemma_alt_first(t, names, cs, k + 1, m, d);
                    let both = Hir::Alternation(Box::new(t), r);
                    assert(k + 1 <= m < j && cs[m] == '|' && reads_alt(t, names, cs, k + 1, m, d) && reads_alt(
                        *r,
                        names,
                        cs,
                        m + 1,
                        j,
                        d,
                    ));
                    assert(reads_alt(both, names, cs, k + 1, j, d));
                    k
                }
            },
            _ => j,
        }
    }
}

/// What an atom that begins with something else than `(` is, and where
/// it ends.
pub proof fn lemma_plain_atom(names: Seq<String>, cs: Seq<char>, i: int, j: int, d: int)
    requires
        atom_to(names, cs, i, j, d),
        cs[i] != '(',
    ensures
        0 <= i < j <= cs.len(),
        cs[i] == '.' ==> j == i + 1,
        cs[i] == '\\' ==> j == i + 2 && crate::grammar::escape_ranges(cs[i + 1]) is Some,
        cs[i] == '[' ==> cs[i + 1] != '^' && j > i + 2 && (crate::grammar::class_scan(cs, i + 1, Seq::empty())
            matches Some((_, end)) && end == j),
        cs[i] != '.' && cs[i] != '\\' && cs[i] != '[' ==> j == i + 1 && !crate::grammar::is_special(cs[i]),
{
    let h = choose|h: Hir| reads_atom(h, names, cs, i, j, d);
    assert(!reads_group(h, names, cs, i, j, d));
}

/// What stands in a group: behind `(`, `(?:` or `(?P<name>` an
/// alternation up to the `)` that ends the group, one group less deep; and
/// the name is one of the names.
pub proof fn lemma_group_inside(names: Seq<String>, cs: Seq<char>, i: int, j: int, d: int)
    requires
        atom_to(names, cs, i, j, d),
        cs[i] == '(',
    ensures
        d > 0,
        0 <= i,
        i + 2 <= j <= cs.len(),
        cs[j - 1] == ')',
        cs[i + 1] != '?' ==> alt_to(names, cs, i + 1, j - 1, d - 1),
        cs[i + 1] == '?' ==> {
            ||| (cs[i + 2] == ':' && i + 3 <= j - 1 && alt_to(names, cs, i + 3, j - 1, d - 1))
            ||| (cs[i + 2] == 'P' && cs[i + 3] == '<' && exists|e: int|
                #[trigger] name_end(cs, i, e) && e < j - 1 && has_name(names, cs.subrange(i + 4, e)) && alt_to(
                    names,
                    cs,
                    e + 1,
                    j - 1,
                    d - 1,
                ))
        },
{
    let h = choose|h: Hir| reads_atom(h, names, cs, i, j, d);
    assert(reads_group(h, names, cs, i, j, d));
    if cs[i + 1] != '?' {
        assert(reads_alt(h, names, cs, i + 1, j - 1, d - 1));
    } else if i + 3 <= j - 1 && cs[i + 2] == ':' && reads_alt(h, names, cs, i + 3, j - 1, d - 1) {
    } else if cs[i + 1] == '?' && !(i + 3 <= j - 1 && cs[i + 2] == ':' && reads_alt(h, names, cs, i + 3, j - 1, d - 1)) {
        match h {
            Hir::Label(v, inner) => {
                let e = choose|e: int|
                    i + 4 < e < j - 1 && #[trigger] cs[e] == '>' && cs[i + 1] == '?' && cs[i + 2] == 'P' && cs[i + 3]
                        == '<' && (forall|t: int| i + 4 <= t < e ==> is_name(#[trigger] cs[t])) && v < names.len()
                        && names[v as int]@ == cs.subrange(i + 4, e) && reads_alt(
                        *inner,
                        names,
                        cs,
                        e + 1,
                        j - 1,
                        d - 1,
                    );
                assert(name_end(cs, i, e));
                assert(names[v as int]@ == cs.subrange(i + 4, e));
                assert(has_name(names, cs.subrange(i + 4, e)));
                assert(alt_to(names, cs, e + 1, j - 1, d - 1));
            },
            _ => {},
        }
    }
}

/// The name of a group ends where the first character stands that no name
/// can hold.
pub proof fn lemma_name_end(cs: Seq<char>, i: int, e: int, end: int)
    requires
        name_end(cs, i, e),
        i + 4 <= end <= cs.len(),
        forall|t: int| i + 4 <= t < end ==> is_name(#[trigger] cs[t]),
        end == cs.len() || !is_name(cs[end]),
    ensures
        e == end,
{
    if e < end {
        assert(is_name(cs[e]));
    } else if end < e {
        assert(is_name(cs[end]));
    }
}

/// The expression inside the group that begins at `i` begins at `p`:
/// behind `(`, behind `(?:`, or behind the `>` of `(?P<name>`.
pub open spec fn inside_at(cs: Seq<char>, i: int, p: int) -> bool {
    if cs[i + 1] != '?' {
        p == i + 1
    } else if cs[i + 2] == ':' {
        p == i + 3
    } else {
        cs[i + 2] == 'P' && cs[i + 3] == '<' && name_end(cs, i, p - 1)
    }
}

/// The group that begins at `i` has a name.
pub open spec fn is_named(cs: Seq<char>, i: int) -> bool {
    cs[i + 1] == '?' && cs[i + 2] != ':'
}

/// The names of `known` are among `names`.
pub open spec fn covers(names: Seq<String>, known: Seq<String>) -> bool {
    forall|t: int| 0 <= t < known.len() ==> has_name(names, (#[trigger] known[t])@)
}

/// No two of `names` are the same.
pub open spec fn distinct(names: Seq<String>) -> bool {
    forall|a: int, b: int| 0 <= a < b < names.len() ==> (#[trigger] names[a])@ != (#[trigger] names[b])@
}

/// `names` are not too many and hold the names of `known`.
pub open spec fn admits(names: Seq<String>, known: Seq<String>) -> bool {
    names.len() <= MAX_VARS && covers(names, known)
}

/// Names that hold different names are at least as many.
pub proof fn lemma_covers_len(known: Seq<String>, names: Seq<String>)
    requires
        distinct(known),
        covers(names, known),
    ensures
        known.len() <= names.len(),
{
    let a = Seq::new(known.len(), |t: int| known[t]@);
    let b = Seq::new(names.len(), |t: int| names[t]@);
    assert(a.no_duplicates()) by {
        assert forall|x: int, y: int| 0 <= x < a.len() && 0 <= y < a.len() && x != y implies a[x] != a[y] by {
            if x < y {
                assert(known[x]@ != known[y]@);
            } else {
                assert(known[y]@ != known[x]@);
            }
        }
    }
    a.unique_seq_to_set();
    b.lemma_cardinality_of_set();
    vstd::seq_lib::seq_to_set_is_finite(b);
    assert(a.to_set().subset_of(b.to_set())) by {
        assert forall|s: Seq<char>| a.to_set().contains(s) implies b.to_set().contains(s) by {
            let t = choose|t: int| 0 <= t < a.len() && a[t] == s;
            assert(has_name(names, known[t]@));
            let u = choose|u: int| 0 <= u < names.len() && (#[trigger] names[u])@ == s;
            assert(b[u] == s);
        }
    }
    vstd::set_lib::lemma_len_subset(a.to_set(), b.to_set());
}

/// Names that hold the known names and the one that was added hold them
/// all.
pub proof fn lemma_covers_more(names: Seq<String>, known: Seq<String>, more: Seq<String>)
    requires
        covers(names, known),
        crate::grammar::grows(known, more),
        more.len() <= known.len() + 1,
        more.len() > known.len() ==> has_name(names, more.last()@),
    ensures
        covers(names, more),
{
    assert forall|t: int| 0 <= t < more.len() implies has_name(names, (#[trigger] more[t])@) by {
        if t < known.len() {
            assert(more[t] == known[t]);
            assert(has_name(names, known[t]@));
        }
    }
}

/// What every reading of the group that begins at `i` holds, where the
/// expression inside begins at `p`.
pub proof fn lemma_group_reading(names: Seq<String>, cs: Seq<char>, i: int, j: int, d: int, p: int)
    requires
        atom_to(names, cs, i, j, d),
        cs[i] == '(',
        i + 1 < cs.len() ==> inside_at(cs, i, p),
    ensures
        d > 0,
        0 <= i,
        i + 1 < cs.len(),
        p <= j - 1 < cs.len(),
        cs[j - 1] == ')',
        at_close(cs, j - 1),
        alt_to(names, cs, p, j - 1, d - 1),
        is_named(cs, i) ==> has_name(names, cs.subrange(i + 4, p - 1)),
{
    lemma_group_inside(names, cs, i, j, d);
    if is_named(cs, i) {
        let e = choose|e: int|
            #[trigger] name_end(cs, i, e) && e < j - 1 && has_name(names, cs.subrange(i + 4, e)) && alt_to(
                names,
                cs,
                e + 1,
                j - 1,
                d - 1,
            );
        lemma_name_end(cs, i, e, p - 1);
    }
    let end = j - 1;
    let less = d - 1;
    let h = choose|h: Hir| reads_alt(h, names, cs, p, end, less);
    lemma_alt_first(h, names, cs, p, end, less);
}

/// A concatenation that does not begin where one ends begins with a
/// repetition, behind which no sign stands.
pub proof fn lemma_cat_step(names: Seq<String>, cs: Seq<char>, p: int, j: int, d: int) -> (k: int)
    requires
        cat_to(names, cs, p, j, d),
        at_stop(cs, j),
        0 <= p < cs.len(),
        cs[p] != '|',
        cs[p] != ')',
    ensures
        p < k <= j,
        rep_to(names, cs, p, k, d),
        no_sign(cs, k),
        cat_to(names, cs, k, j, d),
{
    let h = choose|h: Hir| reads_cat(h, names, cs, p, j, d);
    lemma_cat_first(h, names, cs, p, j, d);
    let k = lemma_cat_head(h, names, cs, p, j, d);
    if k < j {
        let t = choose|t: Hir| reads_cat(t, names, cs, k, j, d);
        lemma_cat_first(t, names, cs, k, j, d);
    }
    k
}

/// A concatenation that begins where one ends is empty.
pub proof fn lemma_cat_done(names: Seq<String>, cs: Seq<char>, p: int, j: int, d: int)
    requires
        cat_to(names, cs, p, j, d),
        at_stop(cs, p),
    ensures
        j == p,
{
    let h = choose|h: Hir| reads_cat(h, names, cs, p, j, d);
    lemma_cat_first(h, names, cs, p, j, d);
}

/// An alternation begins with a concatenation, behind which it ends or a
/// `|` and an alternation follow.
pub proof fn lemma_alt_step(names: Seq<String>, cs: Seq<char>, p: int, j: int, d: int) -> (k: int)
    requires
        alt_to(names, cs, p, j, d),
        at_close(cs, j),
        0 <= p,
    ensures
        p <= k <= j,
        cat_to(names, cs, p, k, d),
        at_stop(cs, k),
        k == j || (cs[k] == '|' && alt_to(names, cs, k + 1, j, d)),
{
    let h = choose|h: Hir| reads_alt(h, names, cs, p, j, d);
    lemma_alt_head(h, names, cs, p, j, d)
}

/// Two atoms that begin at one place end at one place.
pub proof fn lemma_atom_end(
    n1: Seq<String>,
    n2: Seq<String>,
    cs: Seq<char>,
    i: int,
    j1: int,
    j2: int,
    d1: int,
    d2: int,
)
    requires
        atom_to(n1, cs, i, j1, d1),
        atom_to(n2, cs, i, j2, d2),
    ensures
        j1 == j2,
    decreases cs.len() - i, 0int,
{
    if cs[i] == '(' {
        lemma_group_inside(n1, cs, i, j1, d1);
        lemma_group_inside(n2, cs, i, j2, d2);
        if cs[i + 1] != '?' {
            lemma_alt_end(n1, n2, cs, i + 1, j1 - 1, j2 - 1, d1 - 1, d2 - 1);
        } else if cs[i + 2] == ':' {
            lemma_alt_end(n1, n2, cs, i + 3, j1 - 1, j2 - 1, d1 - 1, d2 - 1);
        } else {
            let e1 = choose|e: int|
                #[trigger] name_end(cs, i, e) && e < j1 - 1 && has_name(n1, cs.subrange(i + 4, e)) && alt_to(
                    n1,
                    cs,
                    e + 1,
                    j1 - 1,
                    d1 - 1,
                );
            let e2 = choose|e: int|
                #[trigger] name_end(cs, i, e) && e < j2 - 1 && has_name(n2, cs.subrange(i + 4, e)) && alt_to(
                    n2,
                    cs,
                    e + 1,
                    j2 - 1,
                    d2 - 1,
                );
            lemma_name_end(cs, i, e1, e2);
            lemma_alt_end(n1, n2, cs, e1 + 1, j1 - 1, j2 - 1, d1 - 1, d2 - 1);
        }
    } else {
        lemma_plain_atom(n1, cs, i, j1, d1);
        lemma_plain_atom(n2, cs, i, j2, d2);
    }
}

/// Two repetitions that begin at one place, with no sign behind them, end
/// at one place.
pub proof fn lemma_rep_end(
    n1: Seq<String>,
    n2: Seq<String>,
    cs: Seq<char>,
    i: int,
    j1: int,
    j2: int,
    d1: int,
    d2: int,
)
    requires
        rep_to(n1, cs, i, j1, d1),
        no_sign(cs, j1),
        rep_to(n2, cs, i, j2, d2),
        no_sign(cs, j2),
    ensures
        j1 == j2,
    decreases cs.len() - i, 1int,
{
    let h1 = choose|h: Hir| reads_rep(h, n1, cs, i, j1, d1);
    let h2 = choose|h: Hir| reads_rep(h, n2, cs, i, j2, d2);
    let k1 = lemma_rep_atom(h1, n1, cs, i, j1, d1);
    let k2 = lemma_rep_atom(h2, n2, cs, i, j2, d2);
    lemma_atom_end(n1, n2, cs, i, k1, k2, d1, d2);
    if j1 < j2 {
        assert(is_sign(cs[j1]));
    } else if j2 < j1 {
        assert(is_sign(cs[j2]));
    }
}

/// Two concatenations that begin at one place and end where one may end,
/// end at one place.
pub proof fn lemma_cat_end(
    n1: Seq<String>,
    n2: Seq<String>,
    cs: Seq<char>,
    i: int,
    j1: int,
    j2: int,
    d1: int,
    d2: int,
)
    requires
        cat_to(n1, cs, i, j1, d1),
        at_stop(cs, j1),
        cat_to(n2, cs, i, j2, d2),
        at_stop(cs, j2),
        0 <= i,
    ensures
        j1 == j2,
    decreases cs.len() - i, 2int,
{
    if at_stop(cs, i) {
        lemma_cat_done(n1, cs, i, j1, d1);
        lemma_cat_done(n2, cs, i, j2, d2);
    } else {
        let h1 = choose|h: Hir| reads_cat(h, n1, cs, i, j1, d1);
        lemma_cat_first(h1, n1, cs, i, j1, d1);
        let k1 = lemma_cat_step(n1, cs, i, j1, d1);
        let k2 = lemma_cat_step(n2, cs, i, j2, d2);
        lemma_rep_end(n1, n2, cs, i, k1, k2, d1, d2);
        lemma_cat_end(n1, n2, cs, k1, j1, j2, d1, d2);
    }
}

/// Two alternations that begin at one place and end where a group or the
/// text ends, end at one place.
pub proof fn lemma_alt_end(
    n1: Seq<String>,
    n2: Seq<String>,
    cs: Seq<char>,
    i: int,
    j1: int,
    j2: int,
    d1: int,
    d2: int,
)
    requires
        alt_to(n1, cs, i, j1, d1),
        at_close(cs, j1),
        alt_to(n2, cs, i, j2, d2),
        at_close(cs, j2),
        0 <= i,
    ensures
        j1 == j2,
    decreases cs.len() - i, 3int,
{
    let k1 = lemma_alt_step(n1, cs, i, j1, d1);
    let k2 = lemma_alt_step(n2, cs, i, j2, d2);
    lemma_cat_end(n1, n2, cs, i, k1, k2, d1, d2);
    if k1 < j1 {
        lemma_alt_end(n1, n2, cs, k1 + 1, j1, j2, d1, d2);
    }
}

} // verus!
