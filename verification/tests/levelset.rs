use bit_set::BitSet;
use enum_spanner::levelset::LevelSet;

#[test]
fn levels_are_added_in_order() {
    let mut ls = LevelSet::new(4, 10);
    assert_eq!(ls.num_levels(), 0);
    assert_eq!(ls.add_level(), 0);
    assert_eq!(ls.add_level(), 1);
    assert_eq!(ls.num_levels(), 2);
    assert_eq!(ls.num_vertices(), 10);
    assert!(!ls.has_level(0));
    assert!(!ls.has_level(2));
}

#[test]
fn register_keeps_first_seen_order() {
    let mut ls = LevelSet::new(1, 10);
    ls.add_level();
    ls.register(0, 7);
    ls.register(0, 2);
    ls.register(0, 7);
    ls.register(0, 5);
    assert_eq!(ls.get_level(0), &vec![7, 2, 5]);
    assert!(ls.has_level(0));
}

#[test]
fn index_is_the_inverse_of_the_level() {
    let mut ls = LevelSet::new(2, 8);
    ls.add_level();
    ls.add_level();
    for q in [3, 1, 6] {
        ls.register(0, q);
    }
    ls.register(1, 6);
    for level in 0..2 {
        let vertices = ls.get_level(level).clone();
        for (i, q) in vertices.iter().enumerate() {
            assert_eq!(ls.get_vertex_index(level, *q), Some(i));
        }
        for q in 0..8 {
            match ls.get_vertex_index(level, q) {
                Some(i) => {
                    assert_eq!(vertices[i], q);
                    assert_eq!(ls.get_vertex_index(level, vertices[i]), Some(i));
                }
                None => assert!(!vertices.contains(&q)),
            }
        }
    }
    assert_eq!(ls.get_vertex_index(0, 1), Some(1));
    assert_eq!(ls.get_vertex_index(1, 1), None);
    assert_eq!(ls.get_vertex_index(5, 1), None);
    assert_eq!(ls.get_vertex_index(0, 100), None);
}

#[test]
fn retain_closes_the_gaps() {
    let mut ls = LevelSet::new(1, 8);
    ls.add_level();
    for q in [4, 0, 7, 2] {
        ls.register(0, q);
    }
    let mut keep = BitSet::new();
    keep.insert(7);
    keep.insert(4);
    keep.insert(3);
    ls.retain(0, &keep);
    assert_eq!(ls.get_level(0), &vec![4, 7]);
    assert_eq!(ls.get_vertex_index(0, 4), Some(0));
    assert_eq!(ls.get_vertex_index(0, 7), Some(1));
    assert_eq!(ls.get_vertex_index(0, 0), None);
    ls.register(0, 0);
    assert_eq!(ls.get_level(0), &vec![4, 7, 0]);
    ls.retain(0, &BitSet::new());
    assert!(!ls.has_level(0));
}
