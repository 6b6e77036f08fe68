use std::sync::{Arc, RwLock};

use cycle_permuter::collect::{branch_solutions, collect_solutions, merge_solutions};

type Solution = Vec<Vec<usize>>;

/// Runs one task per branch on a pool of `num_threads` workers; each worker
/// merges what it found into the shared collection once, at its end.
fn search_with_threads(num_nodes: usize, num_threads: usize) -> Vec<Solution> {
    let pool = rayon::ThreadPoolBuilder::new().num_threads(num_threads).build().unwrap();
    let lock: Arc<RwLock<Vec<Solution>>> = Arc::new(RwLock::new(Vec::new()));
    let lock_owned = lock.clone();
    pool.scope(move |s| {
        for first_node in 3..num_nodes - 2 {
            let lock_owned = lock_owned.clone();
            s.spawn(move |_| {
                let found = branch_solutions(num_nodes, first_node);
                let mut result = lock_owned.write().unwrap();
                merge_solutions(&mut result, found);
            });
        }
    });
    let result = lock.read().unwrap();
    result.clone()
}

fn sorted(mut solutions: Vec<Solution>) -> Vec<Solution> {
    solutions.sort();
    solutions
}

#[test]
fn one_worker_finds_what_the_sweep_finds() {
    for n in [9, 13, 17, 21] {
        assert_eq!(sorted(search_with_threads(n, 1)), sorted(collect_solutions(n)));
    }
}

#[test]
fn many_workers_find_what_one_finds() {
    for n in [9, 13, 21] {
        let single = sorted(search_with_threads(n, 1));
        for num_threads in [2, 4, 8] {
            assert_eq!(sorted(search_with_threads(n, num_threads)), single);
        }
    }
}

#[test]
fn parallel_runs_repeat() {
    let first = sorted(search_with_threads(21, 4));
    let second = sorted(search_with_threads(21, 4));
    assert_eq!(first.len(), 16);
    assert_eq!(first, second);
}

#[test]
fn size_five_spawns_no_worker() {
    assert_eq!(search_with_threads(5, 4), Vec::<Solution>::new());
}
