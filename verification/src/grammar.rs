//! The grammar of the expressions: which expression a text spells.
//!
//! ```text
//! alternation := concatenation ( '|' concatenation )*
//! concatenation := repetition*
//! repetition := atom ( ( '*' | '+' | '?' ) '?'? )*
//! atom := '(' alternation ')' | '(?:' alternation ')' | '(?P<' name '>' alternation ')'
//!       | '[' item+ ']' | '.' | '\' escaped | any other character but ^ $ * + ? | )
//! item := character '-' character | character | '\' escaped
//! ```

use crate::parse::Hir;
use vstd::prelude::*;

verus! {

/// `c` is a repetition sign.
pub open spec fn is_sign(c: char) -> bool {
    c == '*' || c == '+' || c == '?'
}

/// `c` does not stand for itself.
pub open spec fn is_special(c: char) -> bool {
    c == '(' || c == ')' || c == '[' || c == '\\' || c == '.' || c == '*' || c == '+' || c == '?' || c == '^' || c
        == '$' || c == '|'
}

/// `c` may stand in the name of a group.
pub open spec fn is_name(c: char) -> bool {
    c == '_' || ('0' <= c <= '9') || ('a' <= c <= 'z') || ('A' <= c <= 'Z')
}

/// The characters that `.` stands for: all but the line feed.
pub open spec fn any_ranges() -> Seq<(u32, u32)> {
    seq![(0u32, 9u32), (11u32, 0x10FFFFu32)]
}

/// What the escape `\c` stands for: digits for `d`, letters, digits and
/// `_` for `w`, white space for `s`, the line feed, the carriage return and
/// the tabulator for `n`, `r` and `t`, and itself for a character that is
/// neither a letter nor a digit; nothing for another letter or a digit.
pub open spec fn escape_ranges(c: char) -> Option<Seq<(u32, u32)>> {
    let code = c as u32;
    if c == 'd' {
        Some(seq![(48u32, 57u32)])
    } else if c == 'w' {
        Some(seq![(48u32, 57u32), (65u32, 90u32), (95u32, 95u32), (97u32, 122u32)])
    } else if c == 's' {
        Some(seq![(9u32, 13u32), (32u32, 32u32)])
    } else if c == 'n' {
        Some(seq![(10u32, 10u32)])
    } else if c == 'r' {
        Some(seq![(13u32, 13u32)])
    } else if c == 't' {
        Some(seq![(9u32, 9u32)])
    } else if (48 <= code <= 57) || (65 <= code <= 90) || (97 <= code <= 122) {
        None
    } else {
        Some(seq![(code, code)])
    }
}

/// The ranges of the items of a class from `p` on, behind the ranges `acc`
/// of the items before, and the place behind the `]` that ends the class;
/// `None` where the class does not end or an item is wrong.
pub open spec fn class_scan(cs: Seq<char>, p: int, acc: Seq<(u32, u32)>) -> Option<(Seq<(u32, u32)>, int)>
    decreases cs.len() - p,
{
    if p < 0 || p >= cs.len() {
        None
    } else if cs[p] == ']' {
        Some((acc, p + 1))
    } else if cs[p] == '\\' {
        if cs.len() - p <= 1 {
            None
        } else {
            match escape_ranges(cs[p + 1]) {
                Some(r) => class_scan(cs, p + 2, acc + r),
                None => None,
            }
        }
    } else if cs.len() - p > 2 && cs[p + 1] == '-' && cs[p + 2] != ']' {
        if (cs[p + 2] as u32) < (cs[p] as u32) {
            None
        } else {
            class_scan(cs, p + 3, acc.push((cs[p] as u32, cs[p + 2] as u32)))
        }
    } else {
        class_scan(cs, p + 1, acc.push((cs[p] as u32, cs[p] as u32)))
    }
}

/// What the repetition signs from `k` up to `j` ask for: whether the atom
/// is optional and whether it is repeated. `*` asks for both, `+` for
/// repeated, `?` for optional; a `?` right behind a sign asks for nothing.
/// `None` where something else than signs stands there.
pub open spec fn signs(cs: Seq<char>, k: int, j: int) -> Option<(bool, bool)>
    decreases j - k,
{
    if k >= j {
        Some((false, false))
    } else if k < 0 || j > cs.len() || !is_sign(cs[k]) {
        None
    } else {
        let next = if k + 1 < j && cs[k + 1] == '?' {
            k + 2
        } else {
            k + 1
        };
        match signs(cs, next, j) {
            Some((optional, repeated)) => Some((optional || cs[k] != '+', repeated || cs[k] != '?')),
            None => None,
        }
    }
}

/// Marks a place at which a text is cut in two.
pub open spec fn cut(k: int) -> bool {
    true
}

/// The characters from `i` up to `j` spell the alternation `h`: a
/// concatenation, or two alternations with a `|` in between. Groups stand
/// inside each other at most `d` deep.
pub open spec fn reads_alt(h: Hir, names: Seq<String>, cs: Seq<char>, i: int, j: int, d: int) -> bool
    decreases h, j - i, 4int,
{
    ||| reads_cat(h, names, cs, i, j, d)
    ||| match h {
        Hir::Alternation(l, r) => exists|k: int|
            i <= k < j && #[trigger] cs[k] == '|' && reads_alt(*l, names, cs, i, k, d) && reads_alt(
                *r,
                names,
                cs,
                k + 1,
                j,
                d,
            ),
        _ => false,
    }
}

/// The characters from `i` up to `j` spell the concatenation `h`: nothing
/// at all, a repetition, or two concatenations one behind the other.
pub open spec fn reads_cat(h: Hir, names: Seq<String>, cs: Seq<char>, i: int, j: int, d: int) -> bool
    decreases h, j - i, 3int,
{
    ||| (i == j && h is Empty)
    ||| reads_rep(h, names, cs, i, j, d)
    ||| match h {
        Hir::Concat(l, r) => exists|k: int|
            i <= k <= j && #[trigger] cut(k) && reads_cat(*l, names, cs, i, k, d) && reads_cat(*r, names, cs, k, j, d),
        _ => false,
    }
}

/// The characters from `i` up to `j` spell the repetition `h`: an atom
/// with the repetition signs behind it.
pub open spec fn reads_rep(h: Hir, names: Seq<String>, cs: Seq<char>, i: int, j: int, d: int) -> bool
    decreases h, j - i, 2int,
{
    exists|k: int|
        i < k <= j && match #[trigger] signs(cs, k, j) {
            Some((false, false)) => reads_atom(h, names, cs, i, k, d),
            Some((true, true)) => match h {
                Hir::Closure(t) => reads_atom(*t, names, cs, i, k, d),
                _ => false,
            },
            Some((false, true)) => match h {
                Hir::Plus(t) => reads_atom(*t, names, cs, i, k, d),
                _ => false,
            },
            Some((true, false)) => match h {
                Hir::Option(t) => reads_atom(*t, names, cs, i, k, d),
                _ => false,
            },
            None => false,
        }
}

/// The characters from `i` up to `j` spell the atom `h`: a group, a
/// class, `.`, an escape, or a character that stands for itself.
pub open spec fn reads_atom(h: Hir, names: Seq<String>, cs: Seq<char>, i: int, j: int, d: int) -> bool
    decreases h, j - i, 1int,
{
    &&& 0 <= i < j <= cs.len()
    &&& {
        ||| reads_group(h, names, cs, i, j, d)
        ||| (j == i + 1 && cs[i] == '.' && (h matches Hir::Class(r) && r@ == any_ranges()))
        ||| (j == i + 2 && cs[i] == '\\' && (h matches Hir::Class(r) && escape_ranges(cs[i + 1]) == Some(r@)))
        ||| (cs[i] == '[' && cs[i + 1] != '^' && j > i + 2 && (h matches Hir::Class(r) && class_scan(
            cs,
            i + 1,
            Seq::empty(),
        ) == Some((r@, j))))
        ||| (j == i + 1 && !is_special(cs[i]) && (h matches Hir::Class(r) && r@ == seq![
            (cs[i] as u32, cs[i] as u32),
        ]))
    }
}

/// The characters from `i` up to `j` spell a group whose expression is
/// `h`, or, for a group with a name, whose expression is captured by the
/// variable of `h` that has that name. At most `d` groups stand inside each
/// other, this one counted.
pub open spec fn reads_group(h: Hir, names: Seq<String>, cs: Seq<char>, i: int, j: int, d: int) -> bool
    decreases h, j - i, 0int,
{
    &&& d > 0
    &&& 0 <= i
    &&& i + 2 <= j <= cs.len()
    &&& cs[i] == '('
    &&& cs[j - 1] == ')'
    &&& {
        ||| (cs[i + 1] != '?' && reads_alt(h, names, cs, i + 1, j - 1, d - 1))
        ||| (i + 3 <= j - 1 && cs[i + 1] == '?' && cs[i + 2] == ':' && reads_alt(h, names, cs, i + 3, j - 1, d - 1))
        ||| match h {
            Hir::Label(v, inner) => exists|e: int|
                i + 4 < e < j - 1 && #[trigger] cs[e] == '>' && cs[i + 1] == '?' && cs[i + 2] == 'P' && cs[i + 3]
                    == '<' && (forall|t: int| i + 4 <= t < e ==> is_name(#[trigger] cs[t])) && v < names.len()
                    && names[v as int]@ == cs.subrange(i + 4, e) && reads_alt(*inner, names, cs, e + 1, j - 1, d - 1),
            _ => false,
        }
    }
}

/// `after` begins with `before`.
pub open spec fn grows(before: Seq<String>, after: Seq<String>) -> bool {
    &&& before.len() <= after.len()
    &&& forall|i: int| 0 <= i < before.len() ==> after[i] == before[i]
}

/// What a text spells with some names it spells with more names.
pub proof fn lemma_alt_grows(h: Hir, n1: Seq<String>, n2: Seq<String>, cs: Seq<char>, i: int, j: int, d: int)
    requires
        reads_alt(h, n1, cs, i, j, d),
        grows(n1, n2),
    ensures
        reads_alt(h, n2, cs, i, j, d),
    decreases h, j - i, 4int,
{
    if reads_cat(h, n1, cs, i, j, d) {
        lemma_cat_grows(h, n1, n2, cs, i, j, d);
    } else {
        match h {
            Hir::Alternation(l, r) => {
                let k = choose|k: int|
                    i <= k < j && #[trigger] cs[k] == '|' && reads_alt(*l, n1, cs, i, k, d) && reads_alt(
                        *r,
                        n1,
                        cs,
                        k + 1,
                        j,
                        d,
                    );
                lemma_alt_grows(*l, n1, n2, cs, i, k, d);
                lemma_alt_grows(*r, n1, n2, cs, k + 1, j, d);
                assert(i <= k < j && cs[k] == '|' && reads_alt(*l, n2, cs, i, k, d) && reads_alt(*r, n2, cs, k + 1, j, d));
            },
            _ => {},
        }
    }
}

/// The same of a concatenation.
pub proof fn lemma_cat_grows(h: Hir, n1: Seq<String>, n2: Seq<String>, cs: Seq<char>, i: int, j: int, d: int)
    requires
        reads_cat(h, n1, cs, i, j, d),
        grows(n1, n2),
    ensures
        reads_cat(h, n2, cs, i, j, d),
    decreases h, j - i, 3int,
{
    if i == j && h is Empty {
    } else if reads_rep(h, n1, cs, i, j, d) {
        lemma_rep_grows(h, n1, n2, cs, i, j, d);
    } else {
        match h {
            Hir::Concat(l, r) => {
                let k = choose|k: int|
                    i <= k <= j && #[trigger] cut(k) && reads_cat(*l, n1, cs, i, k, d) && reads_cat(*r, n1, cs, k, j, d);
                lemma_cat_grows(*l, n1, n2, cs, i, k, d);
                lemma_cat_grows(*r, n1, n2, cs, k, j, d);
                assert(i <= k <= j && cut(k) && reads_cat(*l, n2, cs, i, k, d) && reads_cat(*r, n2, cs, k, j, d));
            },
            _ => {},
        }
    }
}

/// The same of a repetition.
pub proof fn lemma_rep_grows(h: Hir, n1: Seq<String>, n2: Seq<String>, cs: Seq<char>, i: int, j: int, d: int)
    requires
        reads_rep(h, n1, cs, i, j, d),
        grows(n1, n2),
    ensures
        reads_rep(h, n2, cs, i, j, d),
    decreases h, j - i, 2int,
{
    let k = choose|k: int|
        i < k <= j && match #[trigger] signs(cs, k, j) {
            Some((false, false)) => reads_atom(h, n1, cs, i, k, d),
            Some((true, true)) => match h {
                Hir::Closure(t) => reads_atom(*t, n1, cs, i, k, d),
                _ => false,
            },
            Some((false, true)) => match h {
                Hir::Plus(t) => reads_atom(*t, n1, cs, i, k, d),
                _ => false,
            },
            Some((true, false)) => match h {
                Hir::Option(t) => reads_atom(*t, n1, cs, i, k, d),
                _ => false,
            },
            None => false,
        };
    match signs(cs, k, j) {
        Some((false, false)) => {
            lemma_atom_grows(h, n1, n2, cs, i, k, d);
        },
        Some((true, true)) => {
            match h {
                Hir::Closure(t) => {
                    lemma_atom_grows(*t, n1, n2, cs, i, k, d);
                },
                _ => {},
            }
        },
        Some((false, true)) => {
            match h {
                Hir::Plus(t) => {
                    lemma_atom_grows(*t, n1, n2, cs, i, k, d);
                },
                _ => {},
            }
        },
        Some((true, false)) => {
            match h {
                Hir::Option(t) => {
                    lemma_atom_grows(*t, n1, n2, cs, i, k, d);
                },
                _ => {},
            }
        },
        None => {},
    }
    assert(i < k <= j && match signs(cs, k, j) {
        Some((false, false)) => reads_atom(h, n2, cs, i, k, d),
        Some((true, true)) => match h {
            Hir::Closure(t) => reads_atom(*t, n2, cs, i, k, d),
            _ => false,
        },
        Some((false, true)) => match h {
            Hir::Plus(t) => reads_atom(*t, n2, cs, i, k, d),
            _ => false,
        },
        Some((true, false)) => match h {
            Hir::Option(t) => reads_atom(*t, n2, cs, i, k, d),
            _ => false,
        },
        None => false,
    });
}

/// The same of an atom.
pub proof fn lemma_atom_grows(h: Hir, n1: Seq<String>, n2: Seq<String>, cs: Seq<char>, i: int, j: int, d: int)
    requires
        reads_atom(h, n1, cs, i, j, d),
        grows(n1, n2),
    ensures
        reads_atom(h, n2, cs, i, j, d),
    decreases h, j - i, 1int,
{
    if reads_group(h, n1, cs, i, j, d) {
        lemma_group_grows(h, n1, n2, cs, i, j, d);
    }
}

/// The same of a group.
pub proof fn lemma_group_grows(h: Hir, n1: Seq<String>, n2: Seq<String>, cs: Seq<char>, i: int, j: int, d: int)
    requires
        reads_group(h, n1, cs, i, j, d),
        grows(n1, n2),
    ensures
        reads_group(h, n2, cs, i, j, d),
    decreases h, j - i, 0int,
{
    if cs[i + 1] != '?' && reads_alt(h, n1, cs, i + 1, j - 1, d - 1) {
        lemma_alt_grows(h, n1, n2, cs, i + 1, j - 1, d - 1);
    } else if i + 3 <= j - 1 && cs[i + 1] == '?' && cs[i + 2] == ':' && reads_alt(h, n1, cs, i + 3, j - 1, d - 1) {
        lemma_alt_grows(h, n1, n2, cs, i + 3, j - 1, d - 1);
    } else {
        match h {
            Hir::Label(v, inner) => {
                let e = choose|e: int|
                    i + 4 < e < j - 1 && #[trigger] cs[e] == '>' && cs[i + 1] == '?' && cs[i + 2] == 'P' && cs[i + 3]
                        == '<' && (forall|t: int| i + 4 <= t < e ==> is_name(#[trigger] cs[t])) && v < n1.len()
                        && n1[v as int]@ == cs.subrange(i + 4, e) && reads_alt(*inner, n1, cs, e + 1, j - 1, d - 1);
                lemma_alt_grows(*inner, n1, n2, cs, e + 1, j - 1, d - 1);
                assert(n2[v as int] == n1[v as int]);
                assert(i + 4 < e < j - 1 && cs[e] == '>' && cs[i + 1] == '?' && cs[i + 2] == 'P' && cs[i + 3] == '<'
                    && (forall|t: int| i + 4 <= t < e ==> is_name(#[trigger] cs[t])) && v < n2.len() && n2[v as int]@
                    == cs.subrange(i + 4, e) && reads_alt(*inner, n2, cs, e + 1, j - 1, d - 1));
            },
            _ => {},
        }
    }
}

} // verus!
