use enum_spanner::mapping::Mapping;
use enum_spanner::glushkov::MAX_STATES;
use enum_spanner::parse::{parse, SyntaxErrorKind, MAX_DEPTH, MAX_VARS};
use enum_spanner::regex::{compile, has_match, compile_matches, is_match, reformat, RegexError};
use enum_spanner::text::{char_width, decode};

#[test]
fn reformat_wraps_the_expression() {
    assert_eq!(reformat("foo"), "(.|\\s)*(?P<match>foo)(.|\\s)*");
    assert_eq!(reformat("^foo"), "(?P<match>foo)(.|\\s)*");
    assert_eq!(reformat("foo$"), "(.|\\s)*(?P<match>foo)");
    assert_eq!(reformat("^foo$"), "(?P<match>foo)");
    assert_eq!(reformat(""), "(.|\\s)*(?P<match>)(.|\\s)*");
    assert_eq!(reformat("^"), "(?P<match>)(.|\\s)*");
    assert_eq!(reformat("$"), "(.|\\s)*(?P<match>)");
    assert_eq!(reformat("é$"), "(.|\\s)*(?P<match>é)");
}

fn kind(text: &str) -> Option<SyntaxErrorKind> {
    parse(text).err().map(|e| e.kind)
}

#[test]
fn syntax_errors() {
    assert_eq!(kind("(a"), Some(SyntaxErrorKind::UnexpectedEnd));
    assert_eq!(kind("[ab"), Some(SyntaxErrorKind::UnexpectedEnd));
    assert_eq!(kind("a\\"), Some(SyntaxErrorKind::UnexpectedEnd));
    assert_eq!(kind("(?P<x"), Some(SyntaxErrorKind::UnexpectedEnd));
    assert_eq!(kind("a)"), Some(SyntaxErrorKind::UnbalancedGroup));
    assert_eq!(kind("(?x)"), Some(SyntaxErrorKind::BadGroup));
    assert_eq!(kind("(?P<>a)"), Some(SyntaxErrorKind::BadGroup));
    assert_eq!(kind("(?P<x-y>a)"), Some(SyntaxErrorKind::BadGroup));
    assert_eq!(kind("\\q"), Some(SyntaxErrorKind::BadEscape));
    assert_eq!(kind("[\\q]"), Some(SyntaxErrorKind::BadEscape));
    assert_eq!(kind("[]"), Some(SyntaxErrorKind::BadClass));
    assert_eq!(kind("[z-a]"), Some(SyntaxErrorKind::BadClass));
    assert_eq!(kind("[^a]"), Some(SyntaxErrorKind::BadClass));
    assert_eq!(kind("*a"), Some(SyntaxErrorKind::NothingToRepeat));
    assert_eq!(kind("a|+"), Some(SyntaxErrorKind::NothingToRepeat));
    assert_eq!(kind("a^"), Some(SyntaxErrorKind::Anchor));
    assert_eq!(kind("a$b"), Some(SyntaxErrorKind::Anchor));
    assert_eq!(kind("a|b*(c?)+"), None);
}

#[test]
fn syntax_error_position() {
    let e = parse("ab)").err().unwrap();
    assert_eq!(e.position, 2);
    let e = parse("a(b").err().unwrap();
    assert_eq!(e.position, 3);
    let e = parse("é*+\\q").err().unwrap();
    assert_eq!(e.position, 4);
}

#[test]
fn many_groups() {
    let mut text = String::new();
    for i in 0..2000 {
        text.push_str(&format!("(?P<v{}>a)", i));
    }
    let again = format!("{}(?P<v0>b)", text);
    let (_, names) = parse(&again).ok().unwrap();
    assert_eq!(names.len(), 2000);
    assert_eq!(names[1999], "v1999");
    assert_eq!(MAX_VARS, usize::MAX / 2);
}

#[test]
fn groups_inside_groups() {
    let nested = format!("{}a{}", "(".repeat(300), ")".repeat(300));
    assert!(parse(&nested).is_ok());
    assert_eq!(is_match(&format!("^{}$", nested), "a"), Ok(true));
    let open = format!("{}a{}", "(".repeat(300), ")".repeat(299));
    assert_eq!(kind(&open), Some(SyntaxErrorKind::UnexpectedEnd));
    assert_eq!(MAX_DEPTH, usize::MAX);
}

#[test]
fn repetition_signs_add_up() {
    assert_eq!(is_match("^a+?$", ""), Ok(false));
    assert_eq!(is_match("^a+?$", "aaa"), Ok(true));
    assert_eq!(is_match("^a??$", "aa"), Ok(false));
    assert_eq!(is_match("^a??$", ""), Ok(true));
    assert_eq!(is_match("^a*?b$", "aab"), Ok(true));
    assert_eq!(is_match("^a++$", ""), Ok(false));
    assert_eq!(is_match("^a+*$", ""), Ok(true));
    assert_eq!(is_match("^a?+$", "aaa"), Ok(true));
    assert_eq!(is_match("^ab*c$", "abbbbc"), Ok(true));
    assert_eq!(is_match("^a|b|c$", "b"), Ok(true));
    assert_eq!(is_match("^(a|b|c)d$", "cd"), Ok(true));
    assert_eq!(is_match("^(a|b|c)d$", "dd"), Ok(false));
    let long = "a".repeat(2000);
    assert_eq!(is_match(&format!("^{}$", "a*".repeat(50)), &long[..40]), Ok(true));
}

#[test]
fn names_are_numbered_in_order() {
    let (_, names) = parse("(?P<b>x)(?P<a>y)(?P<b>z)").ok().unwrap();
    assert_eq!(names, vec![String::from("b"), String::from("a")]);
    let a = compile("(?P<b>x)|(?P<a>y)").unwrap();
    assert_eq!(
        a.get_variables(),
        &vec![String::from("match"), String::from("b"), String::from("a")]
    );
    assert_eq!(a.get_initial(), 0);
}

#[test]
fn compile_reports_syntax_errors() {
    match compile("a)") {
        Err(RegexError::Syntax(e)) => assert_eq!(e.kind, SyntaxErrorKind::UnbalancedGroup),
        _ => panic!("a syntax error was expected"),
    }
    assert!(compile("a)(").is_ok());
    match compile("[z-a]") {
        Err(RegexError::Syntax(e)) => assert_eq!(e.kind, SyntaxErrorKind::BadClass),
        _ => panic!("a syntax error was expected"),
    }
    assert!(matches!(is_match("(", "a"), Err(RegexError::Syntax(_))));
}

#[test]
fn long_expression() {
    let text = "a".repeat(5000);
    let automaton = compile(&text).unwrap();
    assert_eq!(automaton.get_nb_states(), 5007);
    assert_eq!(MAX_STATES, usize::MAX - 1);
}

#[test]
fn is_match_anywhere() {
    assert_eq!(is_match("b+", "aaabbbccc"), Ok(true));
    assert_eq!(is_match("^b+", "aaabbbccc"), Ok(false));
    assert_eq!(is_match("b+$", "aaabbbccc"), Ok(false));
    assert_eq!(is_match("^a+b+c+$", "aaabbbccc"), Ok(true));
    assert_eq!(is_match("\\d\\d", "a1b22"), Ok(true));
    assert_eq!(is_match("\\d\\d\\d", "a1b22"), Ok(false));
    assert_eq!(is_match("[a-c]x", "dx bx"), Ok(true));
    assert_eq!(is_match("[a-c]x", "dx ex"), Ok(false));
    assert_eq!(is_match("a.c", "a\nc"), Ok(false));
    assert_eq!(is_match("a\\sc", "a\nc"), Ok(true));
    assert_eq!(is_match("a?b", "cb"), Ok(true));
    assert_eq!(is_match("", ""), Ok(true));
}

#[test]
fn has_match_agrees_with_the_enumeration() {
    let yes = compile_matches(compile("ab").unwrap(), "xxabxx");
    assert!(has_match(&yes));
    assert!(yes.iter().next().is_some());
    let no = compile_matches(compile("ab").unwrap(), "xxbaxx");
    assert!(!has_match(&no));
    assert!(no.iter().next().is_none());
}

#[test]
fn byte_offsets_of_characters() {
    let (chars, offsets) = decode("aé€😀");
    assert_eq!(chars, vec!['a', 'é', '€', '😀']);
    assert_eq!(offsets, vec![0, 1, 3, 6, 10]);
    let (chars, offsets) = decode("");
    assert!(chars.is_empty());
    assert_eq!(offsets, vec![0]);
    assert_eq!(char_width('a'), 1);
    assert_eq!(char_width('\u{7f}'), 1);
    assert_eq!(char_width('\u{80}'), 2);
    assert_eq!(char_width('\u{7ff}'), 2);
    assert_eq!(char_width('\u{800}'), 3);
    assert_eq!(char_width('\u{ffff}'), 3);
    assert_eq!(char_width('\u{10000}'), 4);
}

#[test]
fn spans_of_a_mapping() {
    let m = Mapping::from_markers(vec![(1, 5), (0, 2), (0, 9), (3, 7)], 2);
    assert_eq!(m.num_vars(), 2);
    assert_eq!(m.get_markers(), &vec![(1, 5), (0, 2), (0, 9), (3, 7)]);
    assert_eq!(m.get_span(0), Some((2, 5)));
    assert_eq!(m.get_span(1), None);
    assert_eq!(m.get_span(2), None);
    let empty = Mapping::from_markers(vec![], 1);
    assert_eq!(empty.get_span(0), None);
}

#[test]
fn expression_that_repeats_a_marker() {
    assert_eq!(compile("(?P<x>a?)*").err(), Some(RegexError::RepeatedMarker));
    assert_eq!(compile("(?P<x>a*)+").err(), Some(RegexError::RepeatedMarker));
    assert_eq!(is_match("(?P<x>)*", "a"), Err(RegexError::RepeatedMarker));
    assert!(compile("(?P<x>a)*").is_ok());
    assert!(compile("(?P<x>a*)").is_ok());
    assert!(compile("(?P<x>a?)?").is_ok());
}

#[test]
fn compiled_automaton_has_one_state_per_position() {
    // The wrapped expression of "ab" has two classes on each side, the two
    // markers of the whole match and the two letters.
    let a = compile("ab").unwrap();
    assert_eq!(a.get_nb_states(), 9);
    assert_eq!(a.num_vars(), 1);
    assert_eq!(a.get_variables(), &vec!["match".to_string()]);
    let b = compile("^(?P<x>a)b$").unwrap();
    assert_eq!(b.get_nb_states(), 7);
    assert_eq!(b.num_vars(), 2);
    assert_eq!(b.get_variables(), &vec!["match".to_string(), "x".to_string()]);
}
