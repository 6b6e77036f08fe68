use cycle_permuter::state::CyclePermuter;

fn seeded(n: usize) -> CyclePermuter {
    let mut cp = CyclePermuter::new(n);
    cp.seed();
    cp
}

#[test]
fn new_state_is_empty() {
    let cp = CyclePermuter::new(9);
    assert_eq!(cp.num_nodes(), 9);
    assert!(cp.cycles().is_empty());
    assert!(cp.solutions().is_empty());
    for label in 0..9 {
        assert!(!cp.is_used(label));
    }
    for row in 0..3 {
        for column in 0..9 {
            assert_eq!(cp.table_value(row, column), None);
        }
    }
    for a in 0..9 {
        for b in 0..9 {
            assert!(!cp.edge_used(a, b));
        }
    }
}

#[test]
fn smallest_size_is_accepted() {
    let cp = CyclePermuter::new(1);
    assert_eq!(cp.num_nodes(), 1);
    assert!(cp.cycles().is_empty());
    assert!(!cp.is_used(0));
    assert_eq!(cp.table_value(0, 0), None);
    assert!(!cp.edge_used(0, 0));
}

#[test]
fn seed_marks_both_seeds_and_partners() {
    let cp = seeded(13);
    assert_eq!(cp.cycles(), &vec![vec![1], vec![2]]);
    let used: Vec<usize> = (0..13).filter(|&label| cp.is_used(label)).collect();
    assert_eq!(used, vec![1, 2, 11, 12]);
    assert!(cp.solutions().is_empty());
}

#[test]
fn seed_twice_changes_nothing() {
    let mut cp = seeded(13);
    let once = cp.clone();
    cp.seed();
    assert_eq!(cp, once);
}

#[test]
fn extend_writes_four_entries_per_predecessor() {
    let mut cp = seeded(13);
    assert!(cp.add_node_to_cycle_succ(4, 0));
    assert_eq!(cp.cycles(), &vec![vec![1, 4], vec![2]]);
    let used: Vec<usize> = (0..13).filter(|&label| cp.is_used(label)).collect();
    assert_eq!(used, vec![1, 2, 4, 9, 11, 12]);
    let mut filled = Vec::new();
    for row in 0..4 {
        for column in 0..13 {
            if let Some(value) = cp.table_value(row, column) {
                filled.push((row, column, value));
            }
        }
    }
    assert_eq!(filled, vec![(1, 1, 4), (1, 12, 9), (2, 4, 12), (2, 9, 1)]);
    let mut marked = Vec::new();
    for a in 0..13 {
        for b in 0..13 {
            if cp.edge_used(a, b) {
                marked.push((a, b));
            }
        }
    }
    assert_eq!(marked, vec![(4, 9), (9, 4)]);
}

#[test]
fn extend_onto_longer_sequence_uses_every_predecessor() {
    let mut cp = seeded(13);
    assert!(cp.add_node_to_cycle_succ(4, 0));
    assert!(cp.add_node_to_cycle_succ(3, 0));
    assert_eq!(cp.cycles(), &vec![vec![1, 4, 3], vec![2]]);
    // 1 stands two places before 3, 4 one place before it.
    assert_eq!(cp.table_value(2, 1), Some(3));
    assert_eq!(cp.table_value(1, 3), Some(12));
    assert_eq!(cp.table_value(2, 12), Some(10));
    assert_eq!(cp.table_value(1, 10), Some(1));
    assert_eq!(cp.table_value(1, 4), Some(3));
    assert_eq!(cp.table_value(2, 3), Some(9));
    assert_eq!(cp.table_value(1, 9), Some(10));
    assert_eq!(cp.table_value(2, 10), Some(4));
}

#[test]
fn retract_restores_state_after_extend() {
    let mut cp = seeded(13);
    let before = cp.clone();
    assert!(cp.add_node_to_cycle_succ(4, 0));
    assert_ne!(cp, before);
    cp.remove_node_from_cycle(4, 0);
    assert_eq!(cp, before);
}

#[test]
fn retract_restores_state_at_depth() {
    let mut cp = seeded(21);
    assert!(cp.add_node_to_cycle_succ(4, 0));
    assert!(cp.add_node_to_cycle_succ(5, 0));
    let before = cp.clone();
    assert!(cp.add_node_to_cycle_succ(8, 0));
    cp.remove_node_from_cycle(8, 0);
    assert_eq!(cp, before);
}

#[test]
fn retract_in_reverse_order_returns_to_seeds() {
    let mut cp = seeded(21);
    let start = cp.clone();
    for label in [4, 5, 8, 15] {
        assert!(cp.add_node_to_cycle_succ(label, 0));
    }
    for label in [15, 8, 5, 4] {
        cp.remove_node_from_cycle(label, 0);
    }
    assert_eq!(cp, start);
}

#[test]
fn failed_extend_leaves_state_unchanged() {
    let mut cp = seeded(13);
    assert!(cp.add_node_to_cycle_succ(3, 0));
    let before = cp.clone();
    for label in [4, 5, 6, 7] {
        assert!(!cp.add_node_to_cycle_succ(label, 0));
        assert_eq!(cp, before);
    }
}

#[test]
fn extend_fails_exactly_on_conflicting_labels() {
    let mut cp = seeded(13);
    assert!(cp.add_node_to_cycle_succ(6, 0));
    let mut accepted = Vec::new();
    for label in 3..11 {
        if cp.is_used(label) {
            continue;
        }
        if cp.add_node_to_cycle_succ(label, 0) {
            accepted.push(label);
            cp.remove_node_from_cycle(label, 0);
        }
    }
    // 6 and its partner 7 are in use; every other candidate conflicts.
    assert_eq!(accepted, Vec::<usize>::new());
    let mut cp = seeded(13);
    assert!(cp.add_node_to_cycle_succ(4, 0));
    let mut accepted = Vec::new();
    for label in 3..11 {
        if cp.is_used(label) {
            continue;
        }
        if cp.add_node_to_cycle_succ(label, 0) {
            accepted.push(label);
            cp.remove_node_from_cycle(label, 0);
        }
    }
    assert_eq!(accepted, vec![3, 5, 8, 10]);
}

#[test]
fn edges_are_marked_in_both_directions() {
    let mut cp = seeded(21);
    for label in [4, 5, 8] {
        assert!(cp.add_node_to_cycle_succ(label, 0));
    }
    let mut any = false;
    for a in 0..21 {
        for b in 0..21 {
            assert_eq!(cp.edge_used(a, b), cp.edge_used(b, a));
            any = any || cp.edge_used(a, b);
        }
    }
    assert!(any);
}
