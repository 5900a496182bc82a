//! Regular expressions with named groups: their syntax tree, and the
//! parser that reads them.

use crate::grammar::{
    any_ranges, class_scan, cut, escape_ranges, grows, is_name, is_sign, is_special, lemma_cat_grows,
    lemma_rep_grows, reads_alt, reads_atom, reads_cat, reads_group, reads_rep, signs,
};
use crate::readings::{
    admits, alt_to, at_close, at_stop, atom_to, cat_to, covers, distinct, has_name, inside_at, is_named,
    lemma_alt_step, lemma_cat_done, lemma_cat_step, lemma_covers_len, lemma_covers_more, lemma_group_inside,
    lemma_group_reading, lemma_name_end, lemma_plain_atom, lemma_rep_atom, name_end, no_sign, rep_to,
};
use vstd::prelude::*;
use vstd::string::*;

verus! {

/// A regular expression.
pub enum Hir {
    /// The empty word.
    Empty,
    /// One character out of the given ranges of code points, ends included.
    Class(Vec<(u32, u32)>),
    Concat(Box<Hir>, Box<Hir>),
    Alternation(Box<Hir>, Box<Hir>),
    /// The expression or the empty word.
    Option(Box<Hir>),
    /// The expression any number of times.
    Closure(Box<Hir>),
    /// The expression once or more.
    Plus(Box<Hir>),
    /// The expression, captured by the variable of the given number.
    Label(usize, Box<Hir>),
}

impl Hir {
    /// Every variable of the expression is below `n`.
    pub open spec fn vars_below(&self, n: int) -> bool
        decreases self,
    {
        match self {
            Hir::Empty => true,
            Hir::Class(_) => true,
            Hir::Concat(a, b) => a.vars_below(n) && b.vars_below(n),
            Hir::Alternation(a, b) => a.vars_below(n) && b.vars_below(n),
            Hir::Option(a) => a.vars_below(n),
            Hir::Closure(a) => a.vars_below(n),
            Hir::Plus(a) => a.vars_below(n),
            Hir::Label(v, a) => v < n && a.vars_below(n),
        }
    }
}

/// What is wrong with a regular expression.
#[derive(Clone, Copy, Debug, PartialEq, Eq, Structural)]
pub enum SyntaxErrorKind {
    /// The expression ends inside a group, a class or an escape.
    UnexpectedEnd,
    /// A `)` without a group, or something else than `)` where a group ends.
    UnbalancedGroup,
    /// A group that starts with `(?` but neither with `(?:` nor `(?P<name>`.
    BadGroup,
    /// An escape that is not known.
    BadEscape,
    /// A class without items, with a range that ends before it starts, or
    /// a negated class.
    BadClass,
    /// `*`, `+` or `?` with nothing before it.
    NothingToRepeat,
    /// `^` or `$` inside the expression.
    Anchor,
    /// More named groups than `MAX_VARS`, which the machine cannot number.
    TooManyGroups,
    /// Groups inside groups, more than `MAX_DEPTH` deep, which the machine
    /// cannot count.
    TooDeep,
}

/// A syntax error and the character at which it was found.
#[derive(Clone, Copy, Debug, PartialEq, Eq, Structural)]
pub struct SyntaxError {
    pub position: usize,
    pub kind: SyntaxErrorKind,
}

/// The most variables that an expression may name: each has two markers,
/// and the machine must be able to count the markers.
pub const MAX_VARS: usize = usize::MAX / 2;

/// The most groups that may stand inside each other: as many as the
/// machine can count.
pub const MAX_DEPTH: usize = usize::MAX;

/// The ranges of the characters that `.` stands for: all but the line feed.
pub fn any_char() -> (ranges: Vec<(u32, u32)>)
    ensures
        ranges@ == any_ranges(),
{
    let mut ranges: Vec<(u32, u32)> = Vec::new();
    ranges.push((0, 9));
    ranges.push((11, 0x10FFFF));
    proof {
        assert(ranges@ =~= any_ranges());
    }
    ranges
}

/// Adds to `ranges` what the escape `\c` stands for, and tells whether
/// there is such an escape.
pub fn push_escape(ranges: &mut Vec<(u32, u32)>, c: char) -> (known: bool)
    ensures
        match escape_ranges(c) {
            Some(r) => known && final(ranges)@ == old(ranges)@ + r,
            None => !known && final(ranges)@ == old(ranges)@,
        },
{
    let code = c as u32;
    if c == 'd' {
        ranges.push((48, 57));
        proof {
            assert(ranges@ =~= old(ranges)@ + seq![(48u32, 57u32)]);
        }
        true
    } else if c == 'w' {
        ranges.push((48, 57));
        ranges.push((65, 90));
        ranges.push((95, 95));
        ranges.push((97, 122));
        proof {
            assert(ranges@ =~= old(ranges)@ + seq![(48u32, 57u32), (65u32, 90u32), (95u32, 95u32), (97u32, 122u32)]);
        }
        true
    } else if c == 's' {
        ranges.push((9, 13));
        ranges.push((32, 32));
        proof {
            assert(ranges@ =~= old(ranges)@ + seq![(9u32, 13u32), (32u32, 32u32)]);
        }
        true
    } else if c == 'n' {
        ranges.push((10, 10));
        proof {
            assert(ranges@ =~= old(ranges)@ + seq![(10u32, 10u32)]);
        }
        true
    } else if c == 'r' {
        ranges.push((13, 13));
        proof {
            assert(ranges@ =~= old(ranges)@ + seq![(13u32, 13u32)]);
        }
        true
    } else if c == 't' {
        ranges.push((9, 9));
        proof {
            assert(ranges@ =~= old(ranges)@ + seq![(9u32, 9u32)]);
        }
        true
    } else if (48 <= code && code <= 57) || (65 <= code && code <= 90) || (97 <= code && code <= 122) {
        false
    } else {
        ranges.push((code, code));
        proof {
            assert(ranges@ =~= old(ranges)@ + seq![(code, code)]);
        }
        true
    }
}

/// Whether `c` may stand in the name of a group.
pub fn is_name_char(c: char) -> (b: bool)
    ensures
        b == is_name(c),
{
    let code = c as u32;
    code == 95 || (48 <= code && code <= 57) || (97 <= code && code <= 122) || (65 <= code && code <= 90)
}

/// Whether `c` is one of the repetition signs `*`, `+` and `?`.
pub fn is_sign_char(c: char) -> (b: bool)
    ensures
        b == is_sign(c),
{
    c == '*' || c == '+' || c == '?'
}

/// The number of the variable called `name`, which is added to `names`
/// where it is new; `None` where it is new and `names` is full.
fn variable(names: &mut Vec<String>, name: &str) -> (r: Option<usize>)
    requires
        distinct(old(names)@),
    ensures
        distinct(final(names)@),
        grows(old(names)@, final(names)@),
        final(names)@.len() <= old(names)@.len() + 1,
        old(names)@.len() <= MAX_VARS ==> final(names)@.len() <= MAX_VARS,
        final(names)@.len() > old(names)@.len() ==> final(names)@.last()@ == name@,
        match r {
            Some(v) => v < final(names)@.len() && final(names)@[v as int]@ == name@,
            None => final(names)@ == old(names)@ && old(names)@.len() >= MAX_VARS && !has_name(old(names)@, name@),
        },
{
    let owned = String::from_str(name);
    let mut i: usize = 0;
    while i < names.len()
        invariant
            i <= names@.len(),
            *names == *old(names),
            distinct(names@),
            owned@ == name@,
            forall|t: int| 0 <= t < i ==> (#[trigger] names@[t])@ != name@,
        decreases names@.len() - i,
    {
        if names[i] == owned {
            return Some(i);
        }
        i += 1;
    }
    if names.len() >= MAX_VARS {
        return None;
    }
    names.push(owned);
    Some(names.len() - 1)
}

/// The outcome is a success that ends at `j`.
pub open spec fn ends_at(r: Result<(Hir, usize), SyntaxError>, j: int) -> bool {
    r matches Ok((_, next)) && next == j
}

fn fail<T>(position: usize, kind: SyntaxErrorKind) -> (r: Result<T, SyntaxError>)
    ensures
        r == Err::<T, SyntaxError>(SyntaxError { position, kind }),
{
    Err(SyntaxError { position, kind })
}

/// The items of a class, from the character behind `[` on. Returns the
/// ranges and the position behind `]`.
fn parse_class(chars: &Vec<char>, pos: usize) -> (r: Result<(Vec<(u32, u32)>, usize), SyntaxError>)
    requires
        pos <= chars@.len(),
    ensures
        match r {
            Ok((ranges, next)) => pos + 1 < next <= chars@.len() && chars@[pos as int] != '^' && class_scan(
                chars@,
                pos as int,
                Seq::empty(),
            ) == Some((ranges@, next as int)),
            Err(e) => pos <= e.position <= chars@.len() && ((pos < chars@.len() && chars@[pos as int] == '^')
                || !(class_scan(chars@, pos as int, Seq::empty()) matches Some((_, end)) && end > pos + 1)),
        },
{
    let n = chars.len();
    let mut ranges: Vec<(u32, u32)> = Vec::new();
    let mut p: usize = pos;
    if p < n && chars[p] == '^' {
        return fail(p, SyntaxErrorKind::BadClass);
    }
    while p < n && chars[p] != ']'
        invariant
            pos <= p <= n,
            n == chars@.len(),
            class_scan(chars@, pos as int, Seq::empty()) == class_scan(chars@, p as int, ranges@),
        decreases n - p,
    {
        let c = chars[p];
        if c == '\\' {
            if n - p <= 1 {
                return fail(n, SyntaxErrorKind::UnexpectedEnd);
            }
            if !push_escape(&mut ranges, chars[p + 1]) {
                return fail(p + 1, SyntaxErrorKind::BadEscape);
            }
            p += 2;
        } else if n - p > 2 && chars[p + 1] == '-' && chars[p + 2] != ']' {
            let low = c as u32;
            let high = chars[p + 2] as u32;
            if high < low {
                return fail(p, SyntaxErrorKind::BadClass);
            }
            ranges.push((low, high));
            p += 3;
        } else {
            ranges.push((c as u32, c as u32));
            p += 1;
        }
    }
    if p >= n {
        return fail(n, SyntaxErrorKind::UnexpectedEnd);
    }
    if p == pos {
        return fail(p, SyntaxErrorKind::BadClass);
    }
    Ok((ranges, p + 1))
}

/// One group, from the `(` at `pos` on. Returns its expression and the
/// position behind its `)`.
fn parse_group(text: &str, chars: &Vec<char>, pos: usize, names: &mut Vec<String>, depth: usize) -> (r: Result<
    (Hir, usize),
    SyntaxError,
>)
    requires
        chars@ == text@,
        pos < chars@.len(),
        chars@[pos as int] == '(',
        old(names)@.len() <= MAX_VARS,
        distinct(old(names)@),
        depth <= MAX_DEPTH,
    ensures
        grows(old(names)@, final(names)@),
        final(names)@.len() <= MAX_VARS,
        distinct(final(names)@),
        match r {
            Ok((h, next)) => pos < next <= chars@.len() && h.vars_below(final(names)@.len() as int) && reads_group(
                h,
                final(names)@,
                chars@,
                pos as int,
                next as int,
                MAX_DEPTH - depth,
            ),
            Err(e) => pos <= e.position <= chars@.len(),
        },
        forall|names2: Seq<String>, j2: int|
            admits(names2, old(names)@) && #[trigger] atom_to(names2, chars@, pos as int, j2, MAX_DEPTH - depth)
                ==> ends_at(r, j2) && covers(names2, final(names)@),
    decreases chars@.len() - pos, 0int,
{
    let ghost d = MAX_DEPTH - depth;
    let ghost cs = chars@;
    let ghost i = pos as int;
    let ghost known = names@;
    let n = chars.len();
    if depth >= MAX_DEPTH {
        proof {
            assert forall|names2: Seq<String>, j2: int|
                admits(names2, known) && #[trigger] atom_to(names2, cs, i, j2, d) implies false by {
                lemma_group_inside(names2, cs, i, j2, d);
            }
        }
        return fail(pos, SyntaxErrorKind::TooDeep);
    }
    let mut p: usize = pos + 1;
    let mut label: Option<usize> = None;
    if p < n && chars[p] == '?' {
        if n - p > 1 && chars[p + 1] == ':' {
            p += 2;
        } else if n - p > 2 && chars[p + 1] == 'P' && chars[p + 2] == '<' {
            let start = p + 3;
            let mut end: usize = start;
            while end < n && is_name_char(chars[end])
                invariant
                    start <= end <= n,
                    n == chars@.len(),
                    forall|t: int| start <= t < end ==> is_name(#[trigger] chars@[t]),
                decreases n - end,
            {
                end += 1;
            }
            if end >= n || end == start || chars[end] != '>' {
                proof {
                    assert forall|names2: Seq<String>, j2: int|
                        admits(names2, known) && #[trigger] atom_to(names2, cs, i, j2, d) implies false by {
                        lemma_group_inside(names2, cs, i, j2, d);
                        let e = choose|e: int|
                            #[trigger] name_end(cs, i, e) && e < j2 - 1 && has_name(names2, cs.subrange(i + 4, e))
                                && alt_to(names2, cs, e + 1, j2 - 1, d - 1);
                        lemma_name_end(cs, i, e, end as int);
                    }
                }
                if end >= n {
                    return fail(n, SyntaxErrorKind::UnexpectedEnd);
                }
                return fail(end, SyntaxErrorKind::BadGroup);
            }
            match variable(names, text.substring_char(start, end)) {
                None => {
                    proof {
                        assert forall|names2: Seq<String>, j2: int|
                            admits(names2, known) && #[trigger] atom_to(names2, cs, i, j2, d) implies false by {
                            lemma_group_reading(names2, cs, i, j2, d, end + 1);
                            let name = cs.subrange(i + 4, end as int);
                            let u = choose|u: int| 0 <= u < names2.len() && (#[trigger] names2[u])@ == name;
                            let more = known.push(names2[u]);
                            assert(distinct(more)) by {
                                assert forall|a: int, b: int| 0 <= a < b < more.len() implies (#[trigger] more[a])@
                                    != (#[trigger] more[b])@ by {
                                    if b < known.len() {
                                        assert(known[a]@ != known[b]@);
                                    } else {
                                        assert(known[a]@ != name);
                                    }
                                }
                            }
                            lemma_covers_more(names2, known, more);
                            lemma_covers_len(more, names2);
                        }
                    }
                    return fail(pos, SyntaxErrorKind::TooManyGroups);
                },
                Some(v) => {
                    label = Some(v);
                    p = end + 1;
                },
            }
        } else {
            proof {
                assert forall|names2: Seq<String>, j2: int|
                    admits(names2, known) && #[trigger] atom_to(names2, cs, i, j2, d) implies false by {
                    lemma_group_inside(names2, cs, i, j2, d);
                    if cs[i + 2] != ':' {
                        let e = choose|e: int|
                            #[trigger] name_end(cs, i, e) && e < j2 - 1 && has_name(names2, cs.subrange(i + 4, e))
                                && alt_to(names2, cs, e + 1, j2 - 1, d - 1);
                    }
                }
            }
            return fail(p, SyntaxErrorKind::BadGroup);
        }
    }
    let ghost now = names@;
    proof {
        assert(i + 1 < cs.len() ==> inside_at(cs, i, p as int));
        assert(label is Some <==> i + 1 < cs.len() && is_named(cs, i));
        assert forall|names2: Seq<String>, j2: int|
            admits(names2, known) && #[trigger] atom_to(names2, cs, i, j2, d) implies admits(names2, now) by {
            lemma_group_reading(names2, cs, i, j2, d, p as int);
            lemma_covers_more(names2, known, now);
        }
    }
    let inner_result = parse_alternation(text, chars, p, names, depth + 1);
    proof {
        assert forall|names2: Seq<String>, j2: int|
            admits(names2, known) && #[trigger] atom_to(names2, cs, i, j2, d) implies p <= j2 - 1 < cs.len() && cs[j2
            - 1] == ')' && ends_at(inner_result, j2 - 1) && covers(names2, names@) by {
            lemma_group_reading(names2, cs, i, j2, d, p as int);
            assert(admits(names2, now));
            assert(alt_to(names2, cs, p as int, j2 - 1, MAX_DEPTH - (depth + 1)));
        }
    }
    match inner_result {
        Err(e) => Err(e),
        Ok((inner, q)) => {
            if q >= n {
                return fail(n, SyntaxErrorKind::UnexpectedEnd);
            }
            if chars[q] != ')' {
                return fail(q, SyntaxErrorKind::UnbalancedGroup);
            }
            match label {
                Some(v) => {
                    let h = Hir::Label(v, Box::new(inner));
                    proof {
                        let e = p - 1;
                        let j = q + 1;
                        assert(names@[v as int] == now[v as int]);
                        assert(i + 4 < e < j - 1 && cs[e] == '>' && cs[i + 1] == '?' && cs[i + 2] == 'P' && cs[i + 3]
                            == '<' && (forall|t: int| i + 4 <= t < e ==> is_name(#[trigger] cs[t])) && v
                            < names@.len() && names@[v as int]@ == cs.subrange(i + 4, e) && reads_alt(
                            inner,
                            names@,
                            cs,
                            e + 1,
                            j - 1,
                            d - 1,
                        ));
                        assert(reads_group(h, names@, cs, i, j, d));
                    }
                    Ok((h, q + 1))
                },
                None => {
                    proof {
                        assert(reads_group(inner, names@, cs, i, q + 1, d));
                    }
                    Ok((inner, q + 1))
                },
            }
        },
    }
}

/// One atom, from `pos` on. Returns it and the position behind it.
fn parse_atom(text: &str, chars: &Vec<char>, pos: usize, names: &mut Vec<String>, depth: usize) -> (r: Result<
    (Hir, usize),
    SyntaxError,
>)
    requires
        chars@ == text@,
        pos < chars@.len(),
        old(names)@.len() <= MAX_VARS,
        distinct(old(names)@),
        depth <= MAX_DEPTH,
    ensures
        grows(old(names)@, final(names)@),
        final(names)@.len() <= MAX_VARS,
        distinct(final(names)@),
        match r {
            Ok((h, next)) => pos < next <= chars@.len() && h.vars_below(final(names)@.len() as int) && reads_atom(
                h,
                final(names)@,
                chars@,
                pos as int,
                next as int,
                MAX_DEPTH - depth,
            ),
            Err(e) => pos <= e.position <= chars@.len(),
        },
        forall|names2: Seq<String>, j2: int|
            admits(names2, old(names)@) && #[trigger] atom_to(names2, chars@, pos as int, j2, MAX_DEPTH - depth)
                ==> ends_at(r, j2) && covers(names2, final(names)@),
    decreases chars@.len() - pos, 1int,
{
    let ghost d = MAX_DEPTH - depth;
    let ghost cs = chars@;
    let ghost i = pos as int;
    let n = chars.len();
    let c = chars[pos];
    if c == '(' {
        return parse_group(text, chars, pos, names, depth);
    }
    proof {
        assert forall|names2: Seq<String>, j2: int| #[trigger] atom_to(names2, cs, i, j2, d) implies 0 <= i < j2
            <= cs.len() && (c == '.' ==> j2 == i + 1) && (c == '\\' ==> j2 == i + 2 && escape_ranges(cs[i + 1])
            is Some) && (c == '[' ==> cs[i + 1] != '^' && j2 > i + 2 && (class_scan(cs, i + 1, Seq::empty())
            matches Some((_, end)) && end == j2)) && (c != '.' && c != '\\' && c != '[' ==> j2 == i + 1
            && !is_special(c)) by {
            lemma_plain_atom(names2, cs, i, j2, d);
        }
    }
    if c == '[' {
        match parse_class(chars, pos + 1) {
            Err(e) => Err(e),
            Ok((ranges, next)) => Ok((Hir::Class(ranges), next)),
        }
    } else if c == '\\' {
        if n - pos <= 1 {
            return fail(n, SyntaxErrorKind::UnexpectedEnd);
        }
        let mut ranges: Vec<(u32, u32)> = Vec::new();
        if !push_escape(&mut ranges, chars[pos + 1]) {
            return fail(pos + 1, SyntaxErrorKind::BadEscape);
        }
        proof {
            assert(Seq::<(u32, u32)>::empty() + escape_ranges(cs[i + 1])->0 =~= escape_ranges(cs[i + 1])->0);
        }
        Ok((Hir::Class(ranges), pos + 2))
    } else if c == '.' {
        Ok((Hir::Class(any_char()), pos + 1))
    } else if c == '*' || c == '+' || c == '?' {
        fail(pos, SyntaxErrorKind::NothingToRepeat)
    } else if c == '^' || c == '$' {
        fail(pos, SyntaxErrorKind::Anchor)
    } else if c == ')' || c == '|' {
        fail(pos, SyntaxErrorKind::UnbalancedGroup)
    } else {
        let mut ranges: Vec<(u32, u32)> = Vec::new();
        ranges.push((c as u32, c as u32));
        proof {
            assert(ranges@ =~= seq![(c as u32, c as u32)]);
            assert(!is_special(c));
        }
        Ok((Hir::Class(ranges), pos + 1))
    }
}

/// One atom with the repetition signs that follow it. A sign is `*`, `+`
/// or `?`, and a `?` right after a sign only asks for the shortest match,
/// which changes nothing here. Several signs in a row count as one: the atom
/// is optional if one of them is `*` or `?`, and repeated if one of them is
/// `*` or `+`.
fn parse_repetition(text: &str, chars: &Vec<char>, pos: usize, names: &mut Vec<String>, depth: usize) -> (r: Result<
    (Hir, usize),
    SyntaxError,
>)
    requires
        chars@ == text@,
        pos < chars@.len(),
        old(names)@.len() <= MAX_VARS,
        distinct(old(names)@),
        depth <= MAX_DEPTH,
    ensures
        grows(old(names)@, final(names)@),
        final(names)@.len() <= MAX_VARS,
        distinct(final(names)@),
        match r {
            Ok((h, next)) => pos < next <= chars@.len() && h.vars_below(final(names)@.len() as int) && reads_rep(
                h,
                final(names)@,
                chars@,
                pos as int,
                next as int,
                MAX_DEPTH - depth,
            ),
            Err(e) => pos <= e.position <= chars@.len(),
        },
        forall|names2: Seq<String>, j2: int|
            admits(names2, old(names)@) && #[trigger] rep_to(names2, chars@, pos as int, j2, MAX_DEPTH - depth) && no_sign(
                chars@,
                j2,
            ) ==> ends_at(r, j2) && covers(names2, final(names)@),
    decreases chars@.len() - pos, 2int,
{
    let ghost d = MAX_DEPTH - depth;    let ghost cs = chars@;
    let ghost i = pos as int;
    let ghost known = names@;
    let n = chars.len();
    let atom_result = parse_atom(text, chars, pos, names, depth);
    proof {
        assert forall|names2: Seq<String>, j2: int|
            admits(names2, known) && #[trigger] rep_to(names2, cs, i, j2, d) implies (atom_result matches Ok(
            (_, next),
        ) && next <= j2 <= cs.len() && forall|t: int| next <= t < j2 ==> is_sign(#[trigger] cs[t])) && covers(
            names2,
            names@,
        ) by {
            let h = choose|h: Hir| reads_rep(h, names2, cs, i, j2, d);
            let k = lemma_rep_atom(h, names2, cs, i, j2, d);
            assert(ends_at(atom_result, k));
        }
    }
    match atom_result {
        Err(e) => Err(e),
        Ok((atom, next)) => {
            let mut end: usize = next;
            while end < n && is_sign_char(chars[end])
                invariant
                    next <= end <= n,
                    n == chars@.len(),
                    forall|t: int| next <= t < end ==> is_sign(#[trigger] chars@[t]),
                decreases n - end,
            {
                end += 1;
            }
            proof {
                lemma_signs_some(chars@, next as int, end as int);
            }
            let mut optional = false;
            let mut repeated = false;
            let mut p: usize = next;
            while p < end
                invariant
                    next <= p <= end <= n,
                    n == chars@.len(),
                    forall|t: int| next <= t < end ==> is_sign(#[trigger] chars@[t]),
                    signs(chars@, next as int, end as int) == match signs(chars@, p as int, end as int) {
                        Some((o, r)) => Some((optional || o, repeated || r)),
                        None => None,
                    },
                    signs(chars@, p as int, end as int) is Some,
                decreases end - p,
            {
                let c = chars[p];
                let ghost before = p as int;
                if c == '*' {
                    optional = true;
                    repeated = true;
                } else if c == '+' {
                    repeated = true;
                } else {
                    optional = true;
                }
                p += 1;
                if p < end && chars[p] == '?' {
                    p += 1;
                }
                proof {
                    assert(is_sign(chars@[before]));
                    lemma_signs_some(chars@, p as int, end as int);
                    assert(signs(chars@, before, end as int) == match signs(chars@, p as int, end as int) {
                        Some((o, r)) => Some((o || chars@[before] != '+', r || chars@[before] != '?')),
                        None => None::<(bool, bool)>,
                    });
                }
            }
            let h = if optional && repeated {
                Hir::Closure(Box::new(atom))
            } else if repeated {
                Hir::Plus(Box::new(atom))
            } else if optional {
                Hir::Option(Box::new(atom))
            } else {
                atom
            };
            proof {
                assert(signs(chars@, next as int, end as int) == Some((optional, repeated)));
                assert(reads_rep(h, names@, chars@, pos as int, end as int, d));
                assert forall|names2: Seq<String>, j2: int|
                    admits(names2, known) && #[trigger] rep_to(names2, cs, i, j2, d) && no_sign(cs, j2) implies j2
                    == end by {
                    if j2 < end {
                        assert(is_sign(cs[j2]));
                    } else if end < j2 {
                        assert(is_sign(cs[end as int]));
                    }
                }
            }
            Ok((h, end))
        },
    }
}

/// Where only signs stand, they ask for something.
proof fn lemma_signs_some(cs: Seq<char>, k: int, j: int)
    requires
        0 <= k,
        j <= cs.len(),
        forall|t: int| k <= t < j ==> is_sign(#[trigger] cs[t]),
    ensures
        signs(cs, k, j) is Some,
    decreases j - k,
{
    if k < j {
        let next = if k + 1 < j && cs[k + 1] == '?' {
            k + 2
        } else {
            k + 1
        };
        lemma_signs_some(cs, next, j);
    }
}

/// The vars of an expression stay below a bound that grows.
pub proof fn lemma_vars_below_more(h: &Hir, n: int, m: int)
    requires
        h.vars_below(n),
        n <= m,
    ensures
        h.vars_below(m),
    decreases h,
{
    match h {
        Hir::Empty => {},
        Hir::Class(_) => {},
        Hir::Concat(a, b) => {
            lemma_vars_below_more(a, n, m);
            lemma_vars_below_more(b, n, m);
        },
        Hir::Alternation(a, b) => {
            lemma_vars_below_more(a, n, m);
            lemma_vars_below_more(b, n, m);
        },
        Hir::Option(a) => {
            lemma_vars_below_more(a, n, m);
        },
        Hir::Closure(a) => {
            lemma_vars_below_more(a, n, m);
        },
        Hir::Plus(a) => {
            lemma_vars_below_more(a, n, m);
        },
        Hir::Label(_, a) => {
            lemma_vars_below_more(a, n, m);
        },
    }
}

/// Every expression of `items` has its variables below `n`.
pub open spec fn all_vars_below(items: Seq<Hir>, n: int) -> bool {
    forall|i: int| 0 <= i < items.len() ==> (#[trigger] items[i]).vars_below(n)
}

/// The `t`-th cut is not behind the next.
pub open spec fn ascends_at(cuts: Seq<int>, t: int) -> bool {
    cuts[t] <= cuts[t + 1]
}

/// The `t`-th of `items` is the repetition spelled between the `t`-th cut
/// and the next.
pub open spec fn pieces_read(items: Seq<Hir>, names: Seq<String>, cs: Seq<char>, cuts: Seq<int>, d: int) -> bool {
    &&& cuts.len() == items.len() + 1
    &&& forall|t: int| 0 <= t < items.len() ==> #[trigger] ascends_at(cuts, t)
    &&& forall|t: int| 0 <= t < items.len() ==> reads_rep(#[trigger] items[t], names, cs, cuts[t], cuts[t + 1], d)
}

/// The `t`-th of `items` is the concatenation spelled between the `t`-th
/// start and the `t`-th end, and behind each end but the last stands a `|`,
/// behind which the next starts.
pub open spec fn parts_read(
    items: Seq<Hir>,
    names: Seq<String>,
    cs: Seq<char>,
    starts: Seq<int>,
    ends: Seq<int>,
    d: int,
) -> bool {
    &&& starts.len() == items.len()
    &&& ends.len() == items.len()
    &&& forall|t: int| 0 <= t < items.len() ==> #[trigger] starts[t] <= ends[t]
    &&& forall|t: int| 0 <= t < items.len() ==> reads_cat(#[trigger] items[t], names, cs, starts[t], ends[t], d)
    &&& forall|t: int|
        0 <= t < items.len() - 1 ==> 0 <= #[trigger] ends[t] < cs.len() && cs[ends[t]] == '|' && starts[t + 1]
            == ends[t] + 1
}

/// Takes the last `count` expressions off `items` and concatenates them, in
/// their order, as a tree that is no deeper than it must be.
fn fold_concat(
    items: &mut Vec<Hir>,
    count: usize,
    Ghost(d): Ghost<int>,
    Ghost(bound): Ghost<int>,
    Ghost(names): Ghost<Seq<String>>,
    Ghost(cs): Ghost<Seq<char>>,
    Ghost(cuts): Ghost<Seq<int>>,
) -> (h: Hir)
    requires
        count <= old(items)@.len(),
        all_vars_below(old(items)@, bound),
        pieces_read(old(items)@, names, cs, cuts, d),
    ensures
        final(items)@ == old(items)@.take(old(items)@.len() - count),
        h.vars_below(bound),
        reads_cat(h, names, cs, cuts[old(items)@.len() - count], cuts[old(items)@.len() as int], d),
    decreases count,
{
    let ghost before = items@;
    let ghost len = items@.len() as int;
    if count == 0 {
        proof {
            assert(items@.take(items@.len() as int) =~= items@);
        }
        Hir::Empty
    } else if count == 1 {
        match items.pop() {
            Some(h) => {
                proof {
                    assert(h == before[len - 1]);
                    assert(reads_rep(before[len - 1], names, cs, cuts[len - 1], cuts[len - 1 + 1], d));
                }
                h
            },
            None => Hir::Empty,
        }
    } else {
        let half = count / 2;
        let right = fold_concat(items, count - half, Ghost(d), Ghost(bound), Ghost(names), Ghost(cs), Ghost(cuts));
        let ghost mid = items@;
        let ghost shorter = cuts.take(mid.len() as int + 1);
        proof {
            assert(all_vars_below(mid, bound)) by {
                assert forall|i: int| 0 <= i < mid.len() implies (#[trigger] mid[i]).vars_below(bound) by {
                    assert(mid[i] == before[i]);
                }
            }
            assert(cuts.len() == before.len() + 1);
            assert(shorter.len() == mid.len() + 1);
            assert(pieces_read(mid, names, cs, shorter, d)) by {
                assert forall|t: int| 0 <= t < mid.len() implies #[trigger] ascends_at(shorter, t) by {
                    assert(ascends_at(cuts, t));
                }
                assert forall|t: int| 0 <= t < mid.len() implies reads_rep(
                    #[trigger] mid[t],
                    names,
                    cs,
                    shorter[t],
                    shorter[t + 1],
                    d,
                ) by {
                    assert(mid[t] == before[t]);
                    assert(reads_rep(before[t], names, cs, cuts[t], cuts[t + 1], d));
                }
            }
        }
        let left = fold_concat(items, half, Ghost(d), Ghost(bound), Ghost(names), Ghost(cs), Ghost(shorter));
        proof {
            assert(items@ =~= before.take(len - count));
            let k = cuts[len - (count - half)];
            assert(shorter[mid.len() as int] == k);
            assert(shorter[mid.len() - half] == cuts[len - count]);
            assert(cut(k));
            assert forall|t: int| len - count <= t < len implies #[trigger] ascends_at(cuts, t) by {
            }
            lemma_cuts_ascend(cuts, len - count, len - (count - half));
            lemma_cuts_ascend(cuts, len - (count - half), len);
        }
        Hir::Concat(Box::new(left), Box::new(right))
    }
}

/// Cuts that ascend step by step ascend.
proof fn lemma_cuts_ascend(cuts: Seq<int>, a: int, b: int)
    requires
        0 <= a <= b < cuts.len(),
        forall|t: int| a <= t < b ==> #[trigger] ascends_at(cuts, t),
    ensures
        cuts[a] <= cuts[b],
    decreases b - a,
{
    if a < b {
        lemma_cuts_ascend(cuts, a, b - 1);
        assert(ascends_at(cuts, b - 1));
    }
}

/// Takes the last `count` expressions off `items` and makes them the
/// alternatives of one expression, in their order, as a tree that is no
/// deeper than it must be.
fn fold_alt(
    items: &mut Vec<Hir>,
    count: usize,
    Ghost(d): Ghost<int>,
    Ghost(bound): Ghost<int>,
    Ghost(names): Ghost<Seq<String>>,
    Ghost(cs): Ghost<Seq<char>>,
    Ghost(starts): Ghost<Seq<int>>,
    Ghost(ends): Ghost<Seq<int>>,
) -> (h: Hir)
    requires
        1 <= count <= old(items)@.len(),
        all_vars_below(old(items)@, bound),
        parts_read(old(items)@, names, cs, starts, ends, d),
    ensures
        final(items)@ == old(items)@.take(old(items)@.len() - count),
        h.vars_below(bound),
        reads_alt(h, names, cs, starts[old(items)@.len() - count], ends[old(items)@.len() - 1], d),
    decreases count,
{
    let ghost before = items@;
    let ghost len = items@.len() as int;
    if count == 1 {
        match items.pop() {
            Some(h) => {
                proof {
                    assert(h == before[len - 1]);
                    assert(reads_cat(before[len - 1], names, cs, starts[len - 1], ends[len - 1], d));
                }
                h
            },
            None => Hir::Empty,
        }
    } else {
        let half = count / 2;
        let right = fold_alt(items, count - half, Ghost(d), Ghost(bound), Ghost(names), Ghost(cs), Ghost(starts), Ghost(ends));
        let ghost mid = items@;
        let ghost starts2 = starts.take(mid.len() as int);
        let ghost ends2 = ends.take(mid.len() as int);
        proof {
            assert(all_vars_below(mid, bound)) by {
                assert forall|i: int| 0 <= i < mid.len() implies (#[trigger] mid[i]).vars_below(bound) by {
                    assert(mid[i] == before[i]);
                }
            }
            assert(starts.len() == before.len() && ends.len() == before.len());
            assert(starts2.len() == mid.len() && ends2.len() == mid.len());
            assert(parts_read(mid, names, cs, starts2, ends2, d)) by {
                assert forall|t: int| 0 <= t < mid.len() implies #[trigger] starts2[t] <= ends2[t] by {
                    assert(starts[t] <= ends[t]);
                }
                assert forall|t: int| 0 <= t < mid.len() implies reads_cat(
                    #[trigger] mid[t],
                    names,
                    cs,
                    starts2[t],
                    ends2[t],
                    d,
                ) by {
                    assert(mid[t] == before[t]);
                    assert(reads_cat(before[t], names, cs, starts[t], ends[t], d));
                }
                assert forall|t: int| 0 <= t < mid.len() - 1 implies 0 <= #[trigger] ends2[t] < cs.len()
                    && cs[ends2[t]] == '|' && starts2[t + 1] == ends2[t] + 1 by {
                    assert(ends2[t] == ends[t]);
                    assert(cs[ends[t]] == '|' && starts[t + 1] == ends[t] + 1);
                }
            }
        }
        let left = fold_alt(items, half, Ghost(d), Ghost(bound), Ghost(names), Ghost(cs), Ghost(starts2), Ghost(ends2));
        proof {
            assert(items@ =~= before.take(len - count));
            let m = mid.len() as int;
            let k = ends[m - 1];
            assert(ends2[m - 1] == k);
            assert(starts2[m - half] == starts[len - count]);
            assert(cs[ends[m - 1]] == '|' && starts[m - 1 + 1] == ends[m - 1] + 1);
            lemma_parts_ascend(before, names, cs, starts, ends, len - count, m - 1, d);
            lemma_parts_ascend(before, names, cs, starts, ends, m, len - 1, d);
            assert(starts[len - count] <= k < ends[len - 1] && cs[k] == '|' && reads_alt(
                left,
                names,
                cs,
                starts[len - count],
                k,
                d,
            ) && reads_alt(right, names, cs, k + 1, ends[len - 1], d));
        }
        Hir::Alternation(Box::new(left), Box::new(right))
    }
}

/// The parts stand one behind the other.
proof fn lemma_parts_ascend(
    items: Seq<Hir>,
    names: Seq<String>,
    cs: Seq<char>,
    starts: Seq<int>,
    ends: Seq<int>,
    a: int,
    b: int,
    d: int,
)
    requires
        parts_read(items, names, cs, starts, ends, d),
        0 <= a <= b < items.len(),
    ensures
        starts[a] <= ends[b],
        a < b ==> ends[a] < ends[b],
    decreases b - a,
{
    assert(starts[b] <= ends[b]);
    if a < b {
        lemma_parts_ascend(items, names, cs, starts, ends, a, b - 1, d);
        assert(cs[ends[b - 1]] == '|' && starts[b - 1 + 1] == ends[b - 1] + 1);
    }
}

/// The repetitions up to the next `|` or `)` or the end.
fn parse_concatenation(text: &str, chars: &Vec<char>, pos: usize, names: &mut Vec<String>, depth: usize) -> (r: Result<
    (Hir, usize),
    SyntaxError,
>)
    requires
        chars@ == text@,
        pos <= chars@.len(),
        old(names)@.len() <= MAX_VARS,
        distinct(old(names)@),
        depth <= MAX_DEPTH,
    ensures
        grows(old(names)@, final(names)@),
        final(names)@.len() <= MAX_VARS,
        distinct(final(names)@),
        match r {
            Ok((h, next)) => pos <= next <= chars@.len() && h.vars_below(final(names)@.len() as int) && reads_cat(
                h,
                final(names)@,
                chars@,
                pos as int,
                next as int,
                MAX_DEPTH - depth,
            ),
            Err(e) => pos <= e.position <= chars@.len(),
        },
        forall|names2: Seq<String>, j2: int|
            admits(names2, old(names)@) && #[trigger] cat_to(names2, chars@, pos as int, j2, MAX_DEPTH - depth) && at_stop(
                chars@,
                j2,
            ) ==> ends_at(r, j2) && covers(names2, final(names)@),
    decreases chars@.len() - pos, 3int,
{
    let ghost d = MAX_DEPTH - depth;    let ghost cs = chars@;
    let ghost known = names@;
    let n = chars.len();
    let mut items: Vec<Hir> = Vec::new();
    let ghost mut cuts: Seq<int> = seq![pos as int];
    let mut p: usize = pos;
    while p < n && chars[p] != '|' && chars[p] != ')'
        invariant
            pos <= p <= n,
            n == chars@.len(),
            chars@ == text@,
            cs == chars@,
            known == old(names)@,
            grows(old(names)@, names@),
            names@.len() <= MAX_VARS,
            distinct(names@),
            forall|names2: Seq<String>, j2: int|
                admits(names2, known) && #[trigger] cat_to(names2, cs, pos as int, j2, d) && at_stop(cs, j2)
                    ==> cat_to(names2, cs, p as int, j2, d) && covers(names2, names@),
            all_vars_below(items@, names@.len() as int),
            pieces_read(items@, names@, chars@, cuts, d),
            depth <= MAX_DEPTH,
            d == MAX_DEPTH - depth,
            cuts[0] == pos,
            cuts.last() == p,
        decreases n - p,
    {
        let ghost names_before = names@;
        let ghost items_before = items@;
        let ghost cuts_before = cuts;
        let item_result = parse_repetition(text, chars, p, names, depth);
        proof {
            assert forall|names2: Seq<String>, j2: int|
                admits(names2, known) && #[trigger] cat_to(names2, cs, pos as int, j2, d) && at_stop(
                    cs,
                    j2,
                ) implies (item_result matches Ok((_, next)) && cat_to(names2, cs, next as int, j2, d)) && covers(
                names2,
                names@,
            ) by {
                let k = lemma_cat_step(names2, cs, p as int, j2, d);
                assert(admits(names2, names_before));
                assert(ends_at(item_result, k));
            }
        }
        match item_result {
            Err(e) => {
                return Err(e);
            },
            Ok((item, next)) => {
                items.push(item);
                proof {
                    cuts = cuts.push(next as int);
                    assert(cuts.len() == items@.len() + 1);
                    assert(cuts[0] == cuts_before[0]);
                    assert forall|i: int| 0 <= i < items@.len() implies (#[trigger] items@[i]).vars_below(
                        names@.len() as int,
                    ) by {
                        if i < items_before.len() {
                            assert(items@[i] == items_before[i]);
                            lemma_vars_below_more(&items_before[i], names_before.len() as int, names@.len() as int);
                        }
                    }
                    assert forall|t: int| 0 <= t < items@.len() implies #[trigger] ascends_at(cuts, t) by {
                        if t < items_before.len() {
                            assert(ascends_at(cuts_before, t));
                        }
                    }
                    assert forall|t: int| 0 <= t < items@.len() implies reads_rep(
                        #[trigger] items@[t],
                        names@,
                        chars@,
                        cuts[t],
                        cuts[t + 1],
                        d,
                    ) by {
                        if t < items_before.len() {
                            assert(items@[t] == items_before[t]);
                            assert(cuts[t] == cuts_before[t] && cuts[t + 1] == cuts_before[t + 1]);
                            assert(reads_rep(items_before[t], names_before, chars@, cuts_before[t], cuts_before[t + 1], d));
                            lemma_rep_grows(items_before[t], names_before, names@, chars@, cuts[t], cuts[t + 1], d);
                        } else {
                            assert(items@[t] == item);
                            assert(cuts[t] == cuts_before.last());
                            assert(cuts[t + 1] == next);
                        }
                    }
                }
                p = next;
            },
        }
    }
    proof {
        assert forall|names2: Seq<String>, j2: int|
            admits(names2, known) && #[trigger] cat_to(names2, cs, pos as int, j2, d) && at_stop(cs, j2) implies j2
            == p by {
            lemma_cat_done(names2, cs, p as int, j2, d);
        }
    }
    let count = items.len();
    let h = fold_concat(
        &mut items,
        count,
        Ghost(d),
        Ghost(names@.len() as int),
        Ghost(names@),
        Ghost(chars@),
        Ghost(cuts),
    );
    Ok((h, p))
}

/// The concatenations between `|`, up to the next `)` or the end.
fn parse_alternation(text: &str, chars: &Vec<char>, pos: usize, names: &mut Vec<String>, depth: usize) -> (r: Result<
    (Hir, usize),
    SyntaxError,
>)
    requires
        chars@ == text@,
        pos <= chars@.len(),
        old(names)@.len() <= MAX_VARS,
        distinct(old(names)@),
        depth <= MAX_DEPTH,
    ensures
        grows(old(names)@, final(names)@),
        final(names)@.len() <= MAX_VARS,
        distinct(final(names)@),
        match r {
            Ok((h, next)) => pos <= next <= chars@.len() && h.vars_below(final(names)@.len() as int) && reads_alt(
                h,
                final(names)@,
                chars@,
                pos as int,
                next as int,
                MAX_DEPTH - depth,
            ),
            Err(e) => pos <= e.position <= chars@.len(),
        },
        forall|names2: Seq<String>, j2: int|
            admits(names2, old(names)@) && #[trigger] alt_to(names2, chars@, pos as int, j2, MAX_DEPTH - depth) && at_close(
                chars@,
                j2,
            ) ==> ends_at(r, j2) && covers(names2, final(names)@),
    decreases chars@.len() - pos, 4int,
{
    let ghost d = MAX_DEPTH - depth;    let ghost cs = chars@;
    let ghost known = names@;
    let n = chars.len();
    let head_result = parse_concatenation(text, chars, pos, names, depth);
    proof {
        assert forall|names2: Seq<String>, j2: int|
            admits(names2, known) && #[trigger] alt_to(names2, cs, pos as int, j2, d) && at_close(
                cs,
                j2,
            ) implies (head_result matches Ok((_, next)) && (next == j2 || (next < j2 && cs[next as int] == '|'
            && alt_to(names2, cs, next + 1, j2, d)))) && covers(names2, names@) by {
            let k = lemma_alt_step(names2, cs, pos as int, j2, d);
            assert(ends_at(head_result, k));
        }
    }
    match head_result {
        Err(e) => Err(e),
        Ok((head, next)) => {
            let mut items: Vec<Hir> = Vec::new();
            items.push(head);
            let ghost mut starts: Seq<int> = seq![pos as int];
            let ghost mut ends: Seq<int> = seq![next as int];
            let mut p: usize = next;
            while p < n && chars[p] == '|'
                invariant
                    pos <= p <= n,
                    n == chars@.len(),
                    chars@ == text@,
                    cs == chars@,
                    known == old(names)@,
                    grows(old(names)@, names@),
                    names@.len() <= MAX_VARS,
                    distinct(names@),
                    forall|names2: Seq<String>, j2: int|
                        admits(names2, known) && #[trigger] alt_to(names2, cs, pos as int, j2, d) && at_close(cs, j2)
                            ==> covers(names2, names@) && (p == j2 || (p < j2 && cs[p as int] == '|' && alt_to(
                            names2,
                            cs,
                            p + 1,
                            j2,
                            d,
                        ))),
                    items@.len() >= 1,
                    all_vars_below(items@, names@.len() as int),
                    parts_read(items@, names@, chars@, starts, ends, d),
                    depth <= MAX_DEPTH,
                    d == MAX_DEPTH - depth,
                    starts[0] == pos,
                    ends.last() == p,
                decreases n - p,
            {
                let ghost names_before = names@;
                let ghost items_before = items@;
                let ghost starts_before = starts;
                let ghost ends_before = ends;
                let item_result = parse_concatenation(text, chars, p + 1, names, depth);
                proof {
                    assert forall|names2: Seq<String>, j2: int|
                        admits(names2, known) && #[trigger] alt_to(names2, cs, pos as int, j2, d) && at_close(
                            cs,
                            j2,
                        ) implies (item_result matches Ok((_, after)) && (after == j2 || (after < j2 && cs[after as int]
                        == '|' && alt_to(names2, cs, after + 1, j2, d)))) && covers(names2, names@) by {
                        assert(alt_to(names2, cs, p + 1, j2, d));
                        let k = lemma_alt_step(names2, cs, p + 1, j2, d);
                        assert(admits(names2, names_before));
                        assert(ends_at(item_result, k));
                    }
                }
                match item_result {
                    Err(e) => {
                        return Err(e);
                    },
                    Ok((item, after)) => {
                        items.push(item);
                        proof {
                            starts = starts.push(p + 1);
                            ends = ends.push(after as int);
                            assert(starts.len() == items@.len() && ends.len() == items@.len());
                            assert(starts[0] == starts_before[0]);
                            assert forall|i: int| 0 <= i < items@.len() implies (#[trigger] items@[i]).vars_below(
                                names@.len() as int,
                            ) by {
                                if i < items_before.len() {
                                    assert(items@[i] == items_before[i]);
                                    lemma_vars_below_more(
                                        &items_before[i],
                                        names_before.len() as int,
                                        names@.len() as int,
                                    );
                                }
                            }
                            assert forall|t: int| 0 <= t < items@.len() implies #[trigger] starts[t] <= ends[t] by {
                                if t < items_before.len() {
                                    assert(starts_before[t] <= ends_before[t]);
                                }
                            }
                            assert forall|t: int| 0 <= t < items@.len() implies reads_cat(
                                #[trigger] items@[t],
                                names@,
                                chars@,
                                starts[t],
                                ends[t],
                                d,
                            ) by {
                                if t < items_before.len() {
                                    assert(items@[t] == items_before[t]);
                                    assert(starts[t] == starts_before[t] && ends[t] == ends_before[t]);
                                    assert(reads_cat(items_before[t], names_before, chars@, starts_before[t], ends_before[t], d));
                                    lemma_cat_grows(items_before[t], names_before, names@, chars@, starts[t], ends[t], d);
                                } else {
                                    assert(items@[t] == item);
                                    assert(starts[t] == p + 1);
                                    assert(ends[t] == after);
                                }
                            }
                            assert forall|t: int| 0 <= t < items@.len() - 1 implies 0 <= #[trigger] ends[t]
                                < chars@.len() && chars@[ends[t]] == '|' && starts[t + 1] == ends[t] + 1 by {
                                if t < items_before.len() - 1 {
                                    assert(ends[t] == ends_before[t]);
                                    assert(starts[t + 1] == starts_before[t + 1]);
                                    assert(chars@[ends_before[t]] == '|' && starts_before[t + 1] == ends_before[t] + 1);
                                } else {
                                    assert(ends[t] == ends_before.last());
                                }
                            }
                        }
                        p = after;
                    },
                }
            }
            let count = items.len();
            let h = fold_alt(
                &mut items,
                count,
                Ghost(d),
                Ghost(names@.len() as int),
                Ghost(names@),
                Ghost(chars@),
                Ghost(starts),
                Ghost(ends),
            );
            Ok((h, p))
        },
    }
}

/// The text spells the expression `h`, whose variables are called
/// `names`, within the limits: at most `MAX_VARS` names, and groups inside
/// each other at most `MAX_DEPTH` deep.
pub open spec fn spells(text: Seq<char>, h: Hir, names: Seq<String>) -> bool {
    names.len() <= MAX_VARS && reads_alt(h, names, text, 0, text.len() as int, MAX_DEPTH as int)
}

/// The expression that `text` spells, with the names of its variables in
/// the order of their numbers; a syntax error where it spells none.
pub fn parse(text: &str) -> (r: Result<(Hir, Vec<String>), SyntaxError>)
    ensures
        match r {
            Ok((h, names)) => h.vars_below(names@.len() as int) && distinct(names@) && spells(text@, h, names@),
            Err(e) => e.position <= text@.len() && forall|h: Hir, names: Seq<String>| !#[trigger] spells(text@, h, names),
        },
{
    let (chars, _) = crate::text::decode(text);
    let mut names: Vec<String> = Vec::new();
    let ghost cs = chars@;
    let result = parse_alternation(text, &chars, 0, &mut names, 0);
    proof {
        assert forall|h: Hir, names2: Seq<String>| #[trigger] spells(cs, h, names2) implies ends_at(
            result,
            cs.len() as int,
        ) by {
            assert(admits(names2, Seq::<String>::empty()));
            assert(alt_to(names2, cs, 0, cs.len() as int, MAX_DEPTH - 0));
            assert(at_close(cs, cs.len() as int));
        }
    }
    match result {
        Err(e) => Err(e),
        Ok((h, next)) => {
            if next < chars.len() {
                return fail(next, SyntaxErrorKind::UnbalancedGroup);
            }
            Ok((h, names))
        },
    }
}

} // verus!
