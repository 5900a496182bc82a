use bit_set::BitSet;
use enum_spanner::jump::Jump;
use enum_spanner::matrix::Matrix;

fn set(items: &[usize]) -> BitSet {
    let mut s = BitSet::new();
    for i in items {
        s.insert(*i);
    }
    s
}

fn items(s: &BitSet) -> Vec<usize> {
    s.iter().collect()
}

/// Three vertices; inside a level an edge leads from 0 to 1; between the
/// levels edges lead from 1 to 2 and from 2 to 0.
fn three_levels() -> (Jump, Vec<Vec<usize>>) {
    let inside = vec![vec![1], vec![], vec![]];
    let between = vec![vec![], vec![2], vec![0]];
    let mut jump = Jump::new(vec![0], inside, 4, 3);
    jump.init_next_level(&between);
    jump.init_next_level(&between);
    jump.init_next_level(&between);
    (jump, between)
}

#[test]
fn first_level_is_saturated() {
    let jump = Jump::new(vec![0], vec![vec![1], vec![], vec![]], 1, 3);
    assert_eq!(jump.get_nb_levels(), 1);
    assert_eq!(jump.get_level(0), &vec![0, 1]);
    assert!(!jump.is_disconnected());
    assert_eq!(items(&jump.finals()), vec![0, 1]);
}

#[test]
fn levels_follow_the_edges() {
    let (jump, _) = three_levels();
    assert_eq!(jump.get_nb_levels(), 4);
    assert_eq!(jump.get_level(0), &vec![0, 1]);
    assert_eq!(jump.get_level(1), &vec![2]);
    assert_eq!(jump.get_level(2), &vec![0, 1]);
    assert_eq!(jump.get_level(3), &vec![2]);
    assert_eq!(items(&jump.finals()), vec![2]);
    assert!(!jump.is_disconnected());
}

#[test]
fn jump_goes_to_the_closest_marked_level() {
    let (jump, _) = three_levels();
    let (level, gamma) = jump.jump(3, &set(&[2]));
    assert_eq!(level, 2);
    assert_eq!(items(&gamma), vec![1]);
    let (level, gamma) = jump.jump(2, &set(&[0]));
    assert_eq!(level, 0);
    assert_eq!(items(&gamma), vec![1]);
    let (level, gamma) = jump.jump(2, &set(&[1]));
    assert_eq!(level, 0);
    assert_eq!(items(&gamma), Vec::<usize>::new());
    let (level, gamma) = jump.jump(2, &set(&[0, 1]));
    assert_eq!(level, 0);
    assert_eq!(items(&gamma), vec![1]);
    let (level, gamma) = jump.jump(1, &set(&[2]));
    assert_eq!(level, 0);
    assert_eq!(items(&gamma), vec![1]);
}

#[test]
fn jump_on_the_first_level_stays() {
    let (jump, _) = three_levels();
    let (level, gamma) = jump.jump(0, &set(&[0, 1]));
    assert_eq!(level, 0);
    assert!(gamma.is_empty());
}

#[test]
fn empty_level_disconnects() {
    let (mut jump, _) = three_levels();
    jump.init_next_level(&vec![vec![], vec![], vec![]]);
    assert!(jump.is_disconnected());
    assert_eq!(jump.get_nb_levels(), 5);
    assert_eq!(jump.get_level(4), &Vec::<usize>::new());
    assert!(jump.finals().is_empty());
}

#[test]
fn trimming_drops_what_leads_nowhere() {
    let (mut jump, between) = three_levels();
    let back = vec![vec![2], vec![], vec![1]];
    jump.trim_level(3, &back);
    assert_eq!(jump.get_level(2), &vec![1]);
    assert_eq!(jump.get_level(3), &vec![2]);
    assert!(!jump.is_disconnected());
    jump.init_reach(1, &between);
    jump.init_reach(2, &between);
    jump.init_reach(3, &between);
    let (level, gamma) = jump.jump(3, &set(&[2]));
    assert_eq!(level, 0);
    assert_eq!(items(&gamma), Vec::<usize>::new());
    jump.trim_level(2, &back);
    assert_eq!(jump.get_level(1), &Vec::<usize>::new());
    assert!(jump.is_disconnected());
}

#[test]
fn trimming_drops_dead_ends() {
    let inside = vec![vec![1], vec![], vec![], vec![]];
    let between = vec![vec![], vec![2, 3], vec![0], vec![]];
    let mut jump = Jump::new(vec![0], inside, 4, 4);
    jump.init_next_level(&between);
    jump.init_next_level(&between);
    jump.init_next_level(&between);
    assert_eq!(jump.get_level(1), &vec![2, 3]);
    assert_eq!(jump.get_level(3), &vec![2, 3]);
    let back = vec![vec![2], vec![], vec![1, 0], vec![1, 0]];
    jump.trim_level(3, &back);
    jump.trim_level(2, &back);
    jump.trim_level(1, &back);
    assert_eq!(jump.get_level(0), &vec![0, 1]);
    assert_eq!(jump.get_level(1), &vec![2]);
    assert_eq!(jump.get_level(2), &vec![0, 1]);
    assert_eq!(jump.get_level(3), &vec![2, 3]);
    assert!(!jump.is_disconnected());
    jump.init_reach(1, &between);
    jump.init_reach(2, &between);
    jump.init_reach(3, &between);
    let (level, gamma) = jump.jump(3, &set(&[2, 3]));
    assert_eq!(level, 2);
    assert_eq!(items(&gamma), vec![1]);
    let (level, gamma) = jump.jump(2, &set(&[0]));
    assert_eq!(level, 0);
    assert_eq!(items(&gamma), vec![1]);
}

#[test]
fn trimming_the_last_level_keeps_what_accepts() {
    let inside = vec![vec![1], vec![], vec![]];
    let mut jump = Jump::new(vec![0, 2], inside.clone(), 1, 3);
    assert_eq!(jump.get_level(0), &vec![0, 2, 1]);
    jump.trim_last_level(&set(&[1]), &inside);
    assert_eq!(jump.get_level(0), &vec![0, 1]);
    jump.trim_last_level(&set(&[2]), &inside);
    assert!(jump.is_disconnected());
}

#[test]
fn filling_the_tables_again_changes_nothing() {
    let (mut jump, between) = three_levels();
    let before = (
        jump.jump(3, &set(&[2])),
        jump.jump(2, &set(&[0, 1])),
        jump.jump(1, &set(&[2])),
    );
    jump.clear_index();
    jump.init_reach(1, &between);
    jump.init_reach(2, &between);
    jump.init_reach(3, &between);
    let after = (
        jump.jump(3, &set(&[2])),
        jump.jump(2, &set(&[0, 1])),
        jump.jump(1, &set(&[2])),
    );
    assert_eq!(before, after);
}

fn entries(m: &Matrix) -> Vec<Vec<u8>> {
    (0..m.height())
        .map(|i| (0..m.width()).map(|j| m.get(i, j) as u8).collect())
        .collect()
}

#[test]
fn jump_levels_are_the_greatest_handed_on() {
    let (jump, between) = three_levels();
    assert_eq!(jump.get_indexed(), 3);
    for q in 0..3 {
        assert_eq!(jump.get_jump_level(0, q), 0);
    }
    assert_eq!(jump.get_jump_level(1, 2), 0);
    assert_eq!(jump.get_jump_level(2, 0), 0);
    assert_eq!(jump.get_jump_level(2, 1), 0);
    assert_eq!(jump.get_jump_level(3, 2), 2);
    for level in 1..4 {
        for q in jump.get_level(level).clone() {
            let mut greatest = 0;
            for p in jump.get_level(level - 1).clone() {
                if between[p].contains(&q) {
                    let handed = if jump.is_nonjump(level - 1, p) {
                        level - 1
                    } else {
                        jump.get_jump_level(level - 1, p)
                    };
                    greatest = greatest.max(handed);
                }
            }
            assert_eq!(jump.get_jump_level(level, q), greatest);
            assert!(jump.get_jump_level(level, q) < level);
        }
    }
}

#[test]
fn jump_targets_are_the_jump_levels_in_order() {
    let (jump, _) = three_levels();
    assert_eq!(jump.get_jump_targets(0), &Vec::<usize>::new());
    assert_eq!(jump.get_jump_targets(1), &vec![0]);
    assert_eq!(jump.get_jump_targets(2), &vec![0]);
    assert_eq!(jump.get_jump_targets(3), &vec![2]);
    for level in 1..4 {
        let mut image: Vec<usize> = jump
            .get_level(level)
            .iter()
            .map(|q| jump.get_jump_level(level, *q))
            .collect();
        image.sort();
        image.dedup();
        assert_eq!(jump.get_jump_targets(level), &image);
    }
}

#[test]
fn reach_matrices_tell_the_climbs() {
    let (jump, _) = three_levels();
    assert_eq!(entries(jump.get_reach(1, 0)), vec![vec![0, 1]]);
    assert_eq!(entries(jump.get_reach(2, 0)), vec![vec![0, 1], vec![0, 0]]);
    assert_eq!(entries(jump.get_reach(3, 0)), vec![vec![0, 1]]);
}

#[test]
fn nonjump_vertices_are_those_entered_inside_the_level() {
    let (jump, _) = three_levels();
    let inside = vec![vec![1], vec![], vec![]];
    for level in 0..4 {
        let vertices = jump.get_level(level).clone();
        for q in 0..3 {
            let entered = vertices.contains(&q) && vertices.iter().any(|p| inside[*p].contains(&q));
            assert_eq!(jump.is_nonjump(level, q), entered);
        }
    }
    assert!(jump.is_nonjump(0, 1));
    assert!(!jump.is_nonjump(0, 0));
    assert!(!jump.is_nonjump(1, 2));
}

#[test]
fn tables_come_back_the_same() {
    let (mut jump, between) = three_levels();
    let before: Vec<(Vec<usize>, Vec<usize>, Vec<Vec<Vec<u8>>>)> = (0..4)
        .map(|l| {
            (
                (0..3).map(|q| jump.get_jump_level(l, q)).collect(),
                jump.get_jump_targets(l).clone(),
                (0..jump.get_jump_targets(l).len())
                    .map(|k| entries(jump.get_reach(l, k)))
                    .collect(),
            )
        })
        .collect();
    jump.clear_index();
    assert_eq!(jump.get_indexed(), 0);
    for level in 1..4 {
        jump.init_reach(level, &between);
    }
    let after: Vec<(Vec<usize>, Vec<usize>, Vec<Vec<Vec<u8>>>)> = (0..4)
        .map(|l| {
            (
                (0..3).map(|q| jump.get_jump_level(l, q)).collect(),
                jump.get_jump_targets(l).clone(),
                (0..jump.get_jump_targets(l).len())
                    .map(|k| entries(jump.get_reach(l, k)))
                    .collect(),
            )
        })
        .collect();
    assert_eq!(before, after);
}

#[test]
fn jump_target_that_the_level_below_does_not_have() {
    // Inside a level an edge leads from 2 to 3; between the levels edges
    // lead 0 -> 1, 1 -> 1 and 1 -> 2. In the third level, 3 has the jump
    // level 0, which none of the vertices of the level below has.
    let inside = vec![vec![], vec![], vec![3], vec![]];
    let first = vec![vec![1], vec![], vec![], vec![]];
    let keep = vec![vec![], vec![1], vec![], vec![]];
    let last = vec![vec![], vec![2], vec![], vec![]];
    let mut jump = Jump::new(vec![0], vec![vec![], vec![], vec![3], vec![]], 5, 4);
    jump.init_next_level(&first);
    jump.init_next_level(&last);
    assert_eq!(jump.get_level(2), &vec![2, 3]);
    assert_eq!(jump.get_jump_targets(1), &vec![0]);
    jump.init_next_level(&vec![vec![], vec![], vec![], vec![1]]);
    assert_eq!(jump.get_level(3), &vec![1]);
    assert_eq!(jump.get_jump_level(3, 1), 2);
    assert_eq!(jump.get_jump_targets(3), &vec![2]);
    jump.init_next_level(&last);
    assert_eq!(jump.get_level(4), &vec![2, 3]);
    assert_eq!(jump.get_jump_level(4, 2), 2);
    assert_eq!(jump.get_jump_level(4, 3), 0);
    assert_eq!(jump.get_jump_targets(4), &vec![0, 2]);
    assert_eq!(entries(jump.get_reach(4, 0)), vec![vec![0], vec![0]]);
    assert_eq!(entries(jump.get_reach(4, 1)), vec![vec![0, 1], vec![0, 0]]);
    let (level, gamma) = jump.jump(4, &set(&[3]));
    assert_eq!(level, 0);
    assert!(gamma.is_empty());
    let _ = (inside, keep);
}

#[test]
fn initial_states_come_first_in_the_order_given() {
    // The edge inside the level leads from 2 to 0: 0 is not found first.
    let inside = vec![vec![], vec![], vec![0]];
    let jump = Jump::new(vec![2, 1, 2], inside, 1, 3);
    assert_eq!(jump.get_level(0), &vec![2, 1, 0]);
    assert_eq!(jump.get_vertex_index(0, 2), Some(0));
    assert_eq!(jump.get_vertex_index(0, 1), Some(1));
    assert_eq!(jump.get_vertex_index(0, 0), Some(2));
    assert_eq!(jump.get_vertex_index(1, 0), None);
}

#[test]
fn new_level_begins_with_the_targets_as_they_are_found() {
    // Level 0 is 1, 0. From 1 edges lead to 2 and 0, from 0 to 3 and 2;
    // inside a level an edge leads from 3 to 1.
    let inside = vec![vec![], vec![], vec![], vec![1]];
    let between = vec![vec![3, 2], vec![2, 0], vec![], vec![]];
    let mut jump = Jump::new(vec![1, 0], inside, 2, 4);
    jump.init_next_level(&between);
    assert_eq!(jump.get_level(0), &vec![1, 0]);
    assert_eq!(jump.get_level(1), &vec![2, 0, 3, 1]);
    for (i, q) in jump.get_level(1).iter().enumerate() {
        assert_eq!(jump.get_vertex_index(1, *q), Some(i));
    }
    assert_eq!(jump.get_jump_level(0, 1), 0);
}
