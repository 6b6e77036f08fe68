use cycle_permuter::collect::{
    add_partners, branch_solutions, collect_solutions, first_labels, full_cycles, is_valid_size,
    merge_solutions,
};
use cycle_permuter::search::copy_cycles;
use cycle_permuter::state::CyclePermuter;

type Solution = Vec<Vec<usize>>;

fn sorted(mut solutions: Vec<Solution>) -> Vec<Solution> {
    solutions.sort();
    solutions
}

/// The edges that the full table of a solution claims, derived afresh from
/// its sequences: one entry per pair of adjacent filled columns.
fn claimed_edges(n: usize, solution: &Solution) -> Vec<(usize, usize)> {
    let k = (n - 1) / 4;
    let mut table = vec![vec![None; n]; k + 1];
    for cycle in solution {
        for j in 0..cycle.len() {
            for i in 0..j {
                let (a, b, d) = (cycle[i], cycle[j], j - i);
                for (row, column, value) in
                    [(d, a, b), (k - d, b, n - a), (d, n - a, n - b), (k - d, n - b, a)]
                {
                    assert_eq!(table[row][column], None);
                    table[row][column] = Some(value);
                }
            }
        }
    }
    let mut edges = Vec::new();
    for row in &table {
        for column in 0..n {
            for step in [1, 2] {
                if let (Some(a), Some(b)) = (row[column], row[(column + step) % n]) {
                    edges.push((a.min(b), a.max(b)));
                }
            }
        }
    }
    edges
}

#[test]
fn size_five_has_no_solution() {
    assert_eq!(collect_solutions(5), Vec::<Solution>::new());
}

#[test]
fn size_one_has_no_solution() {
    assert_eq!(collect_solutions(1), Vec::<Solution>::new());
}

#[test]
fn size_nine_solutions_in_order() {
    let expected: Vec<Solution> = vec![
        vec![vec![1, 3], vec![2, 4]],
        vec![vec![1, 3], vec![2, 5]],
        vec![vec![1, 4], vec![2, 3]],
        vec![vec![1, 4], vec![2, 6]],
        vec![vec![1, 5], vec![2, 3]],
        vec![vec![1, 5], vec![2, 6]],
        vec![vec![1, 6], vec![2, 4]],
        vec![vec![1, 6], vec![2, 5]],
    ];
    assert_eq!(collect_solutions(9), expected);
}

#[test]
fn size_thirteen_solutions() {
    let expected: Vec<Solution> = vec![
        vec![vec![1, 4, 3], vec![2, 8, 6]],
        vec![vec![1, 10, 9], vec![2, 7, 5]],
    ];
    assert_eq!(collect_solutions(13), expected);
}

#[test]
fn size_seventeen_has_no_solution() {
    assert_eq!(collect_solutions(17), Vec::<Solution>::new());
}

#[test]
fn size_twenty_one_has_sixteen_solutions() {
    let all = collect_solutions(21);
    assert_eq!(all.len(), 16);
    assert_eq!(all[0], vec![vec![1, 4, 5, 8, 15], vec![2, 11, 12, 18, 7]]);
    assert_eq!(all[1], vec![vec![1, 4, 6, 13, 16], vec![2, 14, 3, 9, 10]]);
    assert_eq!(all[15], vec![vec![1, 17, 16, 13, 6], vec![2, 11, 12, 3, 14]]);
}

#[test]
fn branches_of_size_twenty_one() {
    let counts: Vec<usize> = (3..19).map(|first| branch_solutions(21, first).len()).collect();
    assert_eq!(counts, vec![0, 2, 2, 1, 0, 1, 1, 0, 0, 0, 3, 1, 2, 2, 1, 0]);
    assert_eq!(
        branch_solutions(21, 13),
        vec![
            vec![vec![1, 13, 4, 15, 16], vec![2, 3, 10, 7, 12]],
            vec![vec![1, 13, 5, 14, 12], vec![2, 4, 10, 6, 3]],
            vec![vec![1, 13, 17, 5, 6], vec![2, 9, 7, 11, 3]],
        ]
    );
}

#[test]
fn branch_begins_with_its_first_label() {
    for first in 3..19 {
        for solution in branch_solutions(21, first) {
            assert_eq!(solution[0][0], 1);
            assert_eq!(solution[0][1], first);
            assert_eq!(solution[1][0], 2);
        }
    }
}

#[test]
fn enum_leaves_seeds_and_appends_solutions() {
    let mut cp = CyclePermuter::new(13);
    cp.enum_all_symm_perms(4);
    assert_eq!(cp.cycles(), &vec![vec![1], vec![2]]);
    assert_eq!(cp.solutions(), &vec![vec![vec![1, 4, 3], vec![2, 8, 6]]]);
    let mut seeded = CyclePermuter::new(13);
    seeded.seed();
    let found = cp.solutions().clone();
    assert_eq!(cp, {
        let mut expected = seeded.clone();
        expected.enum_all_symm_perms(4);
        expected
    });
    assert_eq!(found.len(), 1);
    // apart from the solutions, the state is that of the seeds alone
    for label in 0..13 {
        assert_eq!(cp.is_used(label), seeded.is_used(label));
    }
    for a in 0..13 {
        for b in 0..13 {
            assert_eq!(cp.edge_used(a, b), false);
        }
    }
    for row in 0..4 {
        for column in 0..13 {
            assert_eq!(cp.table_value(row, column), None);
        }
    }
}

#[test]
fn enum_on_the_same_state_accumulates() {
    let mut cp = CyclePermuter::new(13);
    cp.enum_all_symm_perms(4);
    cp.enum_all_symm_perms(10);
    cp.enum_all_symm_perms(4);
    assert_eq!(
        cp.into_solutions(),
        vec![
            vec![vec![1, 4, 3], vec![2, 8, 6]],
            vec![vec![1, 10, 9], vec![2, 7, 5]],
            vec![vec![1, 4, 3], vec![2, 8, 6]],
        ]
    );
}

#[test]
fn branch_without_solution_is_empty() {
    assert_eq!(branch_solutions(13, 3), Vec::<Solution>::new());
    assert_eq!(branch_solutions(21, 3), Vec::<Solution>::new());
}

#[test]
fn solutions_fill_both_sequences() {
    for n in [9, 13, 21] {
        let k = (n - 1) / 4;
        for solution in collect_solutions(n) {
            assert_eq!(solution.len(), 2);
            assert_eq!(solution[0].len(), k);
            assert_eq!(solution[1].len(), k);
        }
    }
}

#[test]
fn solutions_use_every_label_once() {
    for n in [9, 13, 21] {
        for solution in collect_solutions(n) {
            let mut labels: Vec<usize> = full_cycles(n, &solution).concat();
            labels.sort();
            assert_eq!(labels, (1..n).collect::<Vec<usize>>());
        }
    }
}

#[test]
fn solutions_claim_no_edge_twice() {
    for n in [9, 13, 21] {
        for solution in collect_solutions(n) {
            let mut edges = claimed_edges(n, &solution);
            let claimed = edges.len();
            assert!(claimed > 0);
            edges.sort();
            edges.dedup();
            assert_eq!(edges.len(), claimed);
        }
    }
}

#[test]
fn rejected_extension_would_claim_an_edge_twice() {
    let mut edges = claimed_edges(13, &vec![vec![1, 3, 4], vec![2]]);
    let claimed = edges.len();
    edges.sort();
    edges.dedup();
    assert!(edges.len() < claimed);
    let mut edges = claimed_edges(13, &vec![vec![1, 4, 3], vec![2]]);
    let claimed = edges.len();
    edges.sort();
    edges.dedup();
    assert_eq!(edges.len(), claimed);
}

#[test]
fn merging_branches_in_any_order_gives_the_same_solutions() {
    let sequential = collect_solutions(21);
    let mut backwards: Vec<Solution> = Vec::new();
    for first in (3..19).rev() {
        merge_solutions(&mut backwards, branch_solutions(21, first));
    }
    assert_eq!(backwards.len(), sequential.len());
    assert_ne!(backwards, sequential);
    assert_eq!(sorted(backwards), sorted(sequential.clone()));
    let mut interleaved: Vec<Solution> = Vec::new();
    for first in (3..19).step_by(2).chain((4..19).step_by(2)) {
        merge_solutions(&mut interleaved, branch_solutions(21, first));
    }
    assert_eq!(sorted(interleaved), sorted(sequential));
}

#[test]
fn running_twice_gives_the_same_solutions() {
    assert_eq!(collect_solutions(21), collect_solutions(21));
    assert_eq!(collect_solutions(13), collect_solutions(13));
}

#[test]
fn merge_appends_in_order() {
    let mut collection: Vec<Solution> = vec![vec![vec![1, 3], vec![2, 4]]];
    merge_solutions(
        &mut collection,
        vec![vec![vec![1, 5], vec![2, 6]], vec![vec![1, 6], vec![2, 4]]],
    );
    assert_eq!(
        collection,
        vec![
            vec![vec![1, 3], vec![2, 4]],
            vec![vec![1, 5], vec![2, 6]],
            vec![vec![1, 6], vec![2, 4]],
        ]
    );
    merge_solutions(&mut collection, Vec::new());
    assert_eq!(collection.len(), 3);
}

#[test]
fn full_cycles_append_partners() {
    let solution = vec![vec![1, 4, 5, 8, 15], vec![2, 11, 12, 18, 7]];
    assert_eq!(
        full_cycles(21, &solution),
        vec![
            vec![1, 4, 5, 8, 15, 20, 17, 16, 13, 6],
            vec![2, 11, 12, 18, 7, 19, 10, 9, 3, 14],
        ]
    );
    assert_eq!(full_cycles(21, &Vec::new()), Vec::<Vec<usize>>::new());
}

#[test]
fn add_partners_of_one_sequence() {
    assert_eq!(add_partners(9, &vec![1, 3]), vec![1, 3, 8, 6]);
    assert_eq!(add_partners(9, &Vec::new()), Vec::<usize>::new());
    assert_eq!(add_partners(5, &vec![5, 0]), vec![5, 0, 0, 5]);
}

#[test]
fn copy_cycles_is_equal_and_independent() {
    let source = vec![vec![1, 4, 3], vec![2], vec![]];
    let mut copy = copy_cycles(&source);
    assert_eq!(copy, source);
    copy[1].push(9);
    assert_eq!(source[1], vec![2]);
}

#[test]
fn valid_sizes_are_one_more_than_a_multiple_of_four() {
    let valid: Vec<usize> = (0..30).filter(|&n| is_valid_size(n)).collect();
    assert_eq!(valid, vec![1, 5, 9, 13, 17, 21, 25, 29]);
    assert!(!is_valid_size(0));
    assert!(!is_valid_size(usize::MAX - 1));
}

#[test]
fn first_labels_leave_out_the_seeds_and_their_partners() {
    assert_eq!(first_labels(21), (3..19).collect::<Vec<usize>>());
    assert_eq!(first_labels(9), vec![3, 4, 5, 6]);
    assert_eq!(first_labels(5), Vec::<usize>::new());
    assert_eq!(first_labels(1), Vec::<usize>::new());
    assert_eq!(first_labels(0), Vec::<usize>::new());
}

#[test]
fn sweep_is_the_branches_in_ascending_order() {
    for n in [9, 13, 21] {
        let mut gathered: Vec<Solution> = Vec::new();
        for first in first_labels(n) {
            merge_solutions(&mut gathered, branch_solutions(n, first));
        }
        assert_eq!(gathered, collect_solutions(n));
    }
}
