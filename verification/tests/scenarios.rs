use enum_spanner::enumerate::IndexedDagIterator;
use enum_spanner::indexed_dag::IndexedDag;
use enum_spanner::regex::{compile, compile_matches, is_match};
use enum_spanner::strategy::TrimmingStrategy;

fn variable(dag: &IndexedDag, name: &str) -> usize {
    dag.get_automaton()
        .get_variables()
        .iter()
        .position(|n| n == name)
        .unwrap()
}

/// All the matches, each as the spans of the named variables, sorted.
fn spans(regex: &str, text: &str, names: &[&str], strategy: TrimmingStrategy) -> Vec<Vec<Option<(usize, usize)>>> {
    let automaton = compile(regex).unwrap();
    let mut dag = IndexedDag::new(automaton, text, 1, strategy, false);
    dag.preprocess();
    let vars: Vec<usize> = names.iter().map(|n| variable(&dag, n)).collect();
    let mut it = IndexedDagIterator::init(&dag);
    let mut found = Vec::new();
    while let Some(m) = it.next() {
        found.push(vars.iter().map(|v| m.get_span(*v)).collect::<Vec<_>>());
    }
    found.sort();
    found
}

#[test]
fn group_between_two_letters() {
    for strategy in [
        TrimmingStrategy::NoTrimming,
        TrimmingStrategy::PartialTrimming,
        TrimmingStrategy::FullTrimming,
    ] {
        let found = spans("a(?P<x>b+)c", "abbbc abc", &["match", "x"], strategy);
        assert_eq!(
            found,
            vec![
                vec![Some((0, 5)), Some((1, 4))],
                vec![Some((6, 9)), Some((7, 8))],
            ]
        );
    }
}

#[test]
fn anchored_at_both_ends() {
    let found = spans("^foo$", "foo", &["match"], TrimmingStrategy::FullTrimming);
    assert_eq!(found, vec![vec![Some((0, 3))]]);
}

#[test]
fn two_numbers_around_a_dash() {
    let found = spans(
        "(?P<a>\\d+)-(?P<b>\\d+)",
        "1-2 30-40",
        &["a", "b"],
        TrimmingStrategy::FullTrimming,
    );
    assert!(found.contains(&vec![Some((0, 1)), Some((2, 3))]));
    assert!(found.contains(&vec![Some((4, 6)), Some((7, 9))]));
    assert_eq!(
        found,
        vec![
            vec![Some((0, 1)), Some((2, 3))],
            vec![Some((4, 6)), Some((7, 8))],
            vec![Some((4, 6)), Some((7, 9))],
            vec![Some((5, 6)), Some((7, 8))],
            vec![Some((5, 6)), Some((7, 9))],
        ]
    );
}

#[test]
fn star_of_alternation() {
    let found = spans("(a|b)*", "ab", &["match"], TrimmingStrategy::FullTrimming);
    assert!(found.contains(&vec![Some((0, 2))]));
    assert!(found.contains(&vec![Some((1, 2))]));
    assert_eq!(
        found,
        vec![
            vec![Some((0, 0))],
            vec![Some((0, 1))],
            vec![Some((0, 2))],
            vec![Some((1, 1))],
            vec![Some((1, 2))],
            vec![Some((2, 2))],
        ]
    );
}

#[test]
fn empty_text_without_empty_match() {
    let automaton = compile("a").unwrap();
    let mut dag = IndexedDag::new(automaton, "", 1, TrimmingStrategy::FullTrimming, false);
    dag.preprocess();
    assert!(dag.is_disconnected());
    let mut it = IndexedDagIterator::init(&dag);
    assert!(it.next().is_none());
}

#[test]
fn no_match_at_all() {
    for strategy in [
        TrimmingStrategy::NoTrimming,
        TrimmingStrategy::PartialTrimming,
        TrimmingStrategy::FullTrimming,
    ] {
        let found = spans("x", "y", &["match"], strategy);
        assert!(found.is_empty());
    }
    assert_eq!(is_match("x", "y"), Ok(false));
    assert_eq!(is_match("x", "xy"), Ok(true));
}

#[test]
fn empty_text_with_empty_match() {
    let found = spans("a*", "", &["match"], TrimmingStrategy::FullTrimming);
    assert_eq!(found, vec![vec![Some((0, 0))]]);
    let dag = compile_matches(compile("a*").unwrap(), "");
    assert!(!dag.is_disconnected());
    assert_eq!(dag.num_levels(), Some(1));
}

#[test]
fn phases_one_by_one() {
    let automaton = compile("a(?P<x>b+)c").unwrap();
    let mut whole = IndexedDag::new(automaton, "abbbc abc", 1, TrimmingStrategy::FullTrimming, false);
    let mut jump = whole.build();
    assert_eq!(jump.get_nb_levels(), 10);
    let before: usize = (0..10).map(|l| jump.get_level(l).len()).sum();
    whole.trim(&mut jump);
    let after: usize = (0..10).map(|l| jump.get_level(l).len()).sum();
    assert!(after < before);
    assert_eq!(jump.get_indexed(), 0);
    whole.reindex(&mut jump);
    assert_eq!(jump.get_indexed(), 9);
    whole.install(jump);
    assert_eq!(whole.num_levels(), Some(10));
    assert!(!whole.is_disconnected());
    let x = variable(&whole, "x");
    let mut found: Vec<Option<(usize, usize)>> = Vec::new();
    let mut it = whole.iter();
    while let Some(m) = it.next() {
        found.push(m.get_span(x));
    }
    found.sort();
    assert_eq!(found, vec![Some((1, 4)), Some((7, 8))]);
}

#[test]
fn not_indexed_yet() {
    let automaton = compile("a").unwrap();
    let dag = IndexedDag::new(automaton, "a", 7, TrimmingStrategy::PartialTrimming, true);
    assert_eq!(dag.num_levels(), None);
    assert!(!dag.is_disconnected());
    assert_eq!(dag.get_jump_distance(), 7);
    assert_eq!(dag.get_trimming_strategy(), TrimmingStrategy::PartialTrimming);
    assert!(dag.shows_progress());
    assert!(dag.get_jump().is_none());
}

#[test]
fn positions_are_byte_offsets() {
    let found = spans("é+", "aéé€", &["match"], TrimmingStrategy::FullTrimming);
    assert_eq!(found, vec![vec![Some((1, 3))], vec![Some((1, 5))], vec![Some((3, 5))]]);
    let automaton = compile("x").unwrap();
    let dag = IndexedDag::new(automaton, "aé€😀", 1, TrimmingStrategy::NoTrimming, false);
    let offsets: Vec<usize> = (0..5).map(|l| dag.get_pos(l)).collect();
    assert_eq!(offsets, vec![0, 1, 3, 6, 10]);
}

#[test]
fn jump_distance_changes_nothing() {
    let mut results = Vec::new();
    for distance in [0, 1, usize::MAX] {
        let automaton = compile("(?P<x>a+)b").unwrap();
        let mut dag = IndexedDag::new(automaton, "aab ab", distance, TrimmingStrategy::FullTrimming, false);
        dag.preprocess();
        let mut found = Vec::new();
        let mut it = dag.iter();
        while let Some(m) = it.next() {
            found.push(m.get_markers().clone());
        }
        results.push(found);
    }
    assert_eq!(results[0], results[1]);
    assert_eq!(results[1], results[2]);
    assert_eq!(results[0].len(), 3);
}

#[test]
fn enumeration_is_repeatable() {
    let automaton = compile("(?P<x>a|b)+").unwrap();
    let mut dag = IndexedDag::new(automaton, "abba", 1, TrimmingStrategy::PartialTrimming, false);
    dag.preprocess();
    let mut first = Vec::new();
    let mut it = dag.iter();
    while let Some(m) = it.next() {
        first.push(m.get_markers().clone());
    }
    let mut second = Vec::new();
    let mut it = dag.iter();
    while let Some(m) = it.next() {
        second.push(m.get_markers().clone());
    }
    assert_eq!(first, second);
    let again = {
        let automaton = compile("(?P<x>a|b)+").unwrap();
        let mut dag = IndexedDag::new(automaton, "abba", 1, TrimmingStrategy::PartialTrimming, false);
        dag.preprocess();
        let mut found = Vec::new();
        let mut it = dag.iter();
        while let Some(m) = it.next() {
            found.push(m.get_markers().clone());
        }
        found
    };
    assert_eq!(first, again);
}

#[test]
fn every_match_once_and_none_missing() {
    // All the ways to cut a non-empty piece out of "aaaa", with a
    // non-empty part of it captured at its start.
    let text = "aaaa";
    let mut expected = Vec::new();
    for start in 0..text.len() {
        for end in start + 1..=text.len() {
            for mid in start + 1..=end {
                expected.push(vec![Some((start, end)), Some((start, mid))]);
            }
        }
    }
    expected.sort();
    for strategy in [
        TrimmingStrategy::NoTrimming,
        TrimmingStrategy::PartialTrimming,
        TrimmingStrategy::FullTrimming,
    ] {
        let found = spans("(?P<x>a+)a*", text, &["match", "x"], strategy);
        assert_eq!(found, expected);
    }
}

#[test]
fn matches_are_accepted_by_the_expression() {
    let found = spans("(?P<k>[a-z]+)=(?P<v>\\d+)", "ab=12;c=3", &["match", "k", "v"], TrimmingStrategy::FullTrimming);
    let text = "ab=12;c=3";
    assert!(!found.is_empty());
    for m in &found {
        let (ms, me) = m[0].unwrap();
        let (ks, ke) = m[1].unwrap();
        let (vs, ve) = m[2].unwrap();
        assert_eq!(ms, ks);
        assert_eq!(me, ve);
        assert_eq!(ke + 1, vs);
        assert!(text[ks..ke].chars().all(|c| c.is_ascii_lowercase()));
        assert_eq!(&text[ke..vs], "=");
        assert!(text[vs..ve].chars().all(|c| c.is_ascii_digit()));
        assert!(ks < ke && vs < ve);
    }
    assert_eq!(found.len(), 5);
}

#[test]
fn size_of_the_index() {
    let automaton = compile("^ab$").unwrap();
    let mut dag = IndexedDag::new(automaton, "ab", 0, TrimmingStrategy::FullTrimming, false);
    assert_eq!(dag.get_memory_usage(), None);
    dag.preprocess();
    let jump = dag.get_jump().as_ref().unwrap();
    let mut vertices = 0;
    let mut targets = 0;
    let mut entries = 0;
    for level in 0..jump.get_nb_levels() {
        vertices += jump.get_level(level).len();
        let row = jump.get_jump_targets(level);
        targets += row.len();
        for k in 0..row.len() {
            let m = jump.get_reach(level, k);
            assert_eq!(m.height(), jump.get_level(level).len());
            assert_eq!(m.width(), jump.get_level(row[k]).len());
            entries += m.height() * m.width();
        }
    }
    assert_eq!(jump.get_nb_levels(), 3);
    assert!(vertices >= 3);
    assert!(targets >= 1);
    assert!(entries >= 1);
    assert_eq!(dag.get_memory_usage(), Some((3, vertices, targets, entries)));
}

#[test]
fn fewer_levels_where_the_text_cannot_be_read() {
    let automaton = compile("^ab").unwrap();
    let mut dag = IndexedDag::new(automaton, "axyz", 0, TrimmingStrategy::NoTrimming, false);
    dag.preprocess();
    // Nothing is reached after "ax": the level of two characters is the last.
    assert_eq!(dag.num_levels(), Some(3));
    assert!(dag.is_disconnected());
    assert!(dag.iter().next().is_none());
    let whole = compile("^ab").unwrap();
    let mut read = IndexedDag::new(whole, "abyz", 0, TrimmingStrategy::NoTrimming, false);
    read.preprocess();
    assert_eq!(read.num_levels(), Some(5));
    assert!(!read.is_disconnected());
}

#[test]
fn no_level_count_where_trimming_empties_the_index() {
    // The wildcard in front reads "y", so both levels are built; nothing
    // accepts, and full trimming empties them.
    let automaton = compile("x").unwrap();
    let mut dag = IndexedDag::new(automaton, "y", 0, TrimmingStrategy::FullTrimming, false);
    dag.preprocess();
    assert!(dag.get_jump().is_some());
    assert!(dag.is_disconnected());
    assert_eq!(dag.num_levels(), None);
    assert!(dag.iter().next().is_none());

    let automaton = compile("a").unwrap();
    let mut empty = IndexedDag::new(automaton, "", 0, TrimmingStrategy::FullTrimming, false);
    empty.preprocess();
    assert!(empty.is_disconnected());
    assert_eq!(empty.num_levels(), None);

    // Without trimming every level is kept: the index is whole, though
    // nothing is enumerated.
    let automaton = compile("x").unwrap();
    let mut kept = IndexedDag::new(automaton, "y", 0, TrimmingStrategy::NoTrimming, false);
    kept.preprocess();
    assert!(!kept.is_disconnected());
    assert_eq!(kept.num_levels(), Some(2));
    assert!(kept.iter().next().is_none());

    // The last level is the first that no state reaches: the count is not
    // short, so there is none.
    let automaton = compile("^ab").unwrap();
    let mut last = IndexedDag::new(automaton, "ax", 0, TrimmingStrategy::NoTrimming, false);
    last.preprocess();
    assert!(last.is_disconnected());
    assert_eq!(last.num_levels(), None);
}
