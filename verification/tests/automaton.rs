use bit_set::BitSet;
use enum_spanner::automaton::{Automaton, AutomatonError, CharEdge, MarkerEdge};
use enum_spanner::expected::expected_markers;
use enum_spanner::follow::follow_sp_sm;
use enum_spanner::next_level::{preds_via, NextLevelIterator};

fn set(items: &[usize]) -> BitSet {
    let mut s = BitSet::new();
    for i in items {
        s.insert(*i);
    }
    s
}

fn items(s: &BitSet) -> Vec<usize> {
    s.iter().collect()
}

fn char_edge(source: usize, c: char, target: usize) -> CharEdge {
    CharEdge { source, low: c as u32, high: c as u32, target }
}

fn marker_edge(source: usize, marker: usize, target: usize) -> MarkerEdge {
    MarkerEdge { source, marker, target }
}

/// 0 -open-> 1 -close-> 2 -a-> 3, and 0 -b-> 0.
fn chain() -> Automaton {
    Automaton::new(
        4,
        0,
        vec![3],
        vec![char_edge(2, 'a', 3), char_edge(0, 'b', 0)],
        vec![marker_edge(0, 0, 1), marker_edge(1, 1, 2)],
        vec![String::from("x")],
    )
    .unwrap()
}

#[test]
fn automaton_is_as_given() {
    let a = chain();
    assert_eq!(a.get_nb_states(), 4);
    assert_eq!(a.get_initial(), 0);
    assert_eq!(a.num_vars(), 1);
    assert_eq!(a.get_variables(), &vec![String::from("x")]);
    assert_eq!(items(a.get_finals()), vec![3]);
}

#[test]
fn adjacency_of_a_character() {
    let a = chain();
    assert_eq!(
        a.get_adj_for_char('a'),
        vec![vec![], vec![], vec![3], vec![]]
    );
    assert_eq!(
        a.get_adj_for_char('b'),
        vec![vec![0], vec![], vec![], vec![]]
    );
    assert_eq!(
        a.get_adj_for_char('c'),
        vec![Vec::<usize>::new(), vec![], vec![], vec![]]
    );
}

#[test]
fn character_range_has_both_ends() {
    let a = Automaton::new(
        2,
        0,
        vec![1],
        vec![CharEdge { source: 0, low: 'b' as u32, high: 'd' as u32, target: 1 }],
        vec![],
        vec![],
    )
    .unwrap();
    assert_eq!(a.get_adj_for_char('a'), vec![Vec::<usize>::new(), vec![]]);
    assert_eq!(a.get_adj_for_char('b'), vec![vec![1], vec![]]);
    assert_eq!(a.get_adj_for_char('d'), vec![vec![1], vec![]]);
    assert_eq!(a.get_adj_for_char('e'), vec![Vec::<usize>::new(), vec![]]);
}

#[test]
fn marker_adjacencies() {
    let a = chain();
    assert_eq!(a.get_assignations(), &vec![vec![1], vec![2], vec![], vec![]]);
    assert_eq!(
        a.get_rev_assignations(),
        &vec![vec![], vec![(0, 0)], vec![(1, 1)], vec![]]
    );
    let mut closure = a.get_closure_for_assignations().clone();
    for list in closure.iter_mut() {
        list.sort();
    }
    assert_eq!(closure, vec![vec![1, 2], vec![2], vec![], vec![]]);
}

#[test]
fn reverse_adjacency_passes_markers_first() {
    let a = chain();
    let mut back = a.get_rev_adj_for_char_with_closure('a');
    for list in back.iter_mut() {
        list.sort();
        list.dedup();
    }
    assert_eq!(back, vec![vec![], vec![], vec![], vec![0, 1, 2]]);
    let mut back = a.get_rev_adj_for_char_with_closure('b');
    for list in back.iter_mut() {
        list.sort();
        list.dedup();
    }
    assert_eq!(back, vec![vec![0], vec![], vec![], vec![]]);
}

#[test]
fn state_out_of_range_is_refused() {
    let bad_initial = Automaton::new(2, 2, vec![], vec![], vec![], vec![]);
    assert_eq!(bad_initial.err(), Some(AutomatonError::StateOutOfRange));
    let bad_final = Automaton::new(2, 0, vec![5], vec![], vec![], vec![]);
    assert_eq!(bad_final.err(), Some(AutomatonError::StateOutOfRange));
    let bad_char = Automaton::new(2, 0, vec![], vec![char_edge(0, 'a', 2)], vec![], vec![]);
    assert_eq!(bad_char.err(), Some(AutomatonError::StateOutOfRange));
    let bad_marker = Automaton::new(
        2,
        0,
        vec![],
        vec![],
        vec![marker_edge(3, 0, 1)],
        vec![String::from("x")],
    );
    assert_eq!(bad_marker.err(), Some(AutomatonError::StateOutOfRange));
}

#[test]
fn marker_out_of_range_is_refused() {
    let a = Automaton::new(
        2,
        0,
        vec![],
        vec![],
        vec![marker_edge(0, 2, 1)],
        vec![String::from("x")],
    );
    assert_eq!(a.err(), Some(AutomatonError::MarkerOutOfRange));
}

#[test]
fn repeated_marker_is_refused() {
    let twice = Automaton::new(
        3,
        0,
        vec![2],
        vec![],
        vec![marker_edge(0, 0, 1), marker_edge(1, 0, 2)],
        vec![String::from("x")],
    );
    assert_eq!(twice.err(), Some(AutomatonError::RepeatedMarker));
    let looped = Automaton::new(
        1,
        0,
        vec![0],
        vec![],
        vec![marker_edge(0, 1, 0)],
        vec![String::from("x")],
    );
    assert_eq!(looped.err(), Some(AutomatonError::RepeatedMarker));
    let apart = Automaton::new(
        3,
        0,
        vec![2],
        vec![char_edge(1, 'a', 0)],
        vec![marker_edge(0, 0, 1), marker_edge(0, 0, 2)],
        vec![String::from("x")],
    );
    assert!(apart.is_ok());
}

#[test]
fn expected_markers_are_those_on_the_way() {
    let a = chain();
    assert_eq!(expected_markers(&a, &set(&[2])), vec![1, 0]);
    assert_eq!(expected_markers(&a, &set(&[1])), vec![0]);
    assert_eq!(expected_markers(&a, &set(&[1, 2])), vec![0, 1]);
    assert_eq!(expected_markers(&a, &set(&[0, 3])), Vec::<usize>::new());
    assert_eq!(expected_markers(&a, &set(&[])), Vec::<usize>::new());
}

#[test]
fn expected_markers_come_as_the_search_meets_them() {
    // 0 -1-> 1 -3-> 2: from state 2 the search meets marker 3 first.
    let a = Automaton::new(
        3,
        0,
        vec![2],
        vec![],
        vec![marker_edge(0, 1, 1), marker_edge(1, 3, 2)],
        vec![String::from("x"), String::from("y")],
    )
    .unwrap();
    assert_eq!(expected_markers(&a, &set(&[2])), vec![3, 1]);
    // Two edges into one state are taken in the order in which they were
    // given, and a marker is listed once.
    let b = Automaton::new(
        4,
        0,
        vec![3],
        vec![],
        vec![marker_edge(0, 2, 3), marker_edge(1, 0, 3), marker_edge(2, 2, 1)],
        vec![String::from("x"), String::from("y")],
    )
    .unwrap();
    assert_eq!(expected_markers(&b, &set(&[3])), vec![2, 0]);
    let mut it = NextLevelIterator::explore(&b, expected_markers(&b, &set(&[3])), set(&[3]), set(&[0, 1, 2, 3]));
    let mut lists = Vec::new();
    while let Some((markers, _)) = it.next() {
        lists.push(markers);
    }
    assert!(lists.contains(&vec![2]));
    assert!(lists.contains(&vec![0]));
    assert!(lists.iter().all(|markers| markers != &vec![0, 2]));
}

#[test]
fn follow_counts_the_chosen_and_avoids_the_refused() {
    let a = chain();
    let rev = a.get_rev_assignations();
    let all = set(&[0, 1, 2, 3]);
    let gamma = set(&[2]);
    assert_eq!(items(&follow_sp_sm(rev, &gamma, &set(&[]), &set(&[]), 0, &all)), vec![0, 1, 2]);
    assert_eq!(items(&follow_sp_sm(rev, &gamma, &set(&[]), &set(&[0]), 0, &all)), vec![1, 2]);
    assert_eq!(items(&follow_sp_sm(rev, &gamma, &set(&[]), &set(&[0, 1]), 0, &all)), vec![2]);
    assert_eq!(items(&follow_sp_sm(rev, &gamma, &set(&[1]), &set(&[0]), 1, &all)), vec![1]);
    assert_eq!(items(&follow_sp_sm(rev, &gamma, &set(&[0]), &set(&[1]), 1, &all)), Vec::<usize>::new());
    assert_eq!(items(&follow_sp_sm(rev, &gamma, &set(&[0, 1]), &set(&[]), 2, &all)), vec![0]);
    assert_eq!(items(&follow_sp_sm(rev, &gamma, &set(&[0, 1]), &set(&[]), 1, &all)), vec![0, 1]);
    assert_eq!(items(&follow_sp_sm(rev, &gamma, &set(&[0, 1]), &set(&[]), 2, &set(&[1, 2]))), Vec::<usize>::new());
}

#[test]
fn predecessors_by_one_marker() {
    let a = chain();
    let rev = a.get_rev_assignations();
    let all = set(&[0, 1, 2, 3]);
    assert_eq!(items(&preds_via(rev, &set(&[2]), &all, 1)), vec![1]);
    assert_eq!(items(&preds_via(rev, &set(&[2]), &all, 0)), Vec::<usize>::new());
    assert_eq!(items(&preds_via(rev, &set(&[1, 2]), &all, 0)), vec![0]);
    assert_eq!(items(&preds_via(rev, &set(&[2]), &set(&[0]), 1)), Vec::<usize>::new());
}

fn drain(it: &mut NextLevelIterator) -> Vec<(Vec<usize>, Vec<usize>)> {
    let mut found = Vec::new();
    while let Some((markers, states)) = it.next() {
        found.push((markers, items(&states)));
    }
    found
}

#[test]
fn choices_with_two_markers() {
    let a = chain();
    let mut it = NextLevelIterator::explore(&a, vec![0, 1], set(&[2]), set(&[0, 1, 2, 3]));
    assert_eq!(
        drain(&mut it),
        vec![
            (vec![], vec![2]),
            (vec![1], vec![1]),
            (vec![0, 1], vec![0]),
        ]
    );
    assert!(it.next().is_none());
}

#[test]
fn choices_stay_inside_the_level() {
    let a = chain();
    let mut it = NextLevelIterator::explore(&a, vec![0, 1], set(&[2]), set(&[1, 2]));
    assert_eq!(drain(&mut it), vec![(vec![], vec![2]), (vec![1], vec![1])]);
}

#[test]
fn choices_with_one_marker() {
    let a = chain();
    let mut it = NextLevelIterator::explore(&a, vec![0], set(&[1]), set(&[0, 1, 2, 3]));
    assert_eq!(drain(&mut it), vec![(vec![], vec![1]), (vec![0], vec![0])]);
}

#[test]
fn choices_without_markers() {
    let a = chain();
    let mut it = NextLevelIterator::explore(&a, vec![], set(&[0, 3]), set(&[0, 1, 2, 3]));
    assert_eq!(drain(&mut it), vec![(vec![], vec![0, 3])]);
    let mut none = NextLevelIterator::empty(&a);
    assert!(none.next().is_none());
}
