use vstd::prelude::*;
use vstd::seq_lib::lemma_multiset_commutative;
use crate::collect::merged;
use crate::derive::lemma_push_ok;
use crate::laws::lemma_branch_sound;
use crate::model::{
    assignment_ok, claims, edge_disjoint, entry, occurs, pair_entry, push_label, quarter, seeds,
    valid_size,
};
use crate::search::{
    branch, branches_from, candidates, destination, extends, filled_in_order, is_solution, room,
    search, searchable,
};

verus! {

/// Every solution that the search finds from a sound assignment is complete
/// and continues that assignment.
pub proof fn lemma_search_sound(n: int, cycles: Seq<Seq<usize>>, i: int)
    requires
        valid_size(n),
        searchable(n, cycles),
        filled_in_order(n, cycles),
        assignment_ok(n, cycles),
        edge_disjoint(n, cycles),
        cycles[0].len() >= 1,
        cycles[1].len() >= 1,
        cycles[0][0] == 1,
        cycles[1][0] == 2,
        0 <= i < search(n, cycles).len(),
    ensures
        is_solution(n, search(n, cycles)[i]),
        extends(cycles, search(n, cycles)[i]),
    decreases room(n, cycles), n,
{
    if cycles[1].len() != quarter(n) {
        lemma_candidates_sound(n, cycles, 3, i);
    }
}

/// Every solution found for the candidates from `node` on is complete and
/// continues the assignment.
pub proof fn lemma_candidates_sound(n: int, cycles: Seq<Seq<usize>>, node: int, i: int)
    requires
        valid_size(n),
        searchable(n, cycles),
        filled_in_order(n, cycles),
        assignment_ok(n, cycles),
        edge_disjoint(n, cycles),
        cycles[0].len() >= 1,
        cycles[1].len() >= 1,
        cycles[0][0] == 1,
        cycles[1][0] == 2,
        cycles[1].len() < quarter(n),
        3 <= node,
        0 <= i < candidates(n, cycles, node).len(),
    ensures
        is_solution(n, candidates(n, cycles, node)[i]),
        extends(cycles, candidates(n, cycles, node)[i]),
    decreases room(n, cycles), n - node,
{
    if node < n - 2 {
        let slot = destination(n, cycles);
        let next = push_label(cycles, slot, node as usize);
        if !occurs(n, cycles, node) && edge_disjoint(n, next) {
            let found = search(n, next);
            if i < found.len() {
                lemma_push_ok(n, cycles, slot, node as usize);
                lemma_search_sound(n, next, i);
                assert(extends(cycles, found[i]));
            } else {
                lemma_candidates_sound(n, cycles, node + 1, i - found.len());
            }
        } else {
            lemma_candidates_sound(n, cycles, node + 1, i);
        }
    }
}

/// The assignment that a branch begins with, the seeds and the first label
/// after the first seed, is sound.
pub proof fn lemma_branch_start_ok(n: int, first: int)
    requires
        valid_size(n),
        3 <= first,
        first + 3 <= n,
    ensures
        assignment_ok(n, seeds()),
        !occurs(n, seeds(), first),
        assignment_ok(n, push_label(seeds(), 0, first as usize)),
        searchable(n, push_label(seeds(), 0, first as usize)),
        filled_in_order(n, push_label(seeds(), 0, first as usize)),
        push_label(seeds(), 0, first as usize)[0] == seq![1usize, first as usize],
        push_label(seeds(), 0, first as usize)[1] == seq![2usize],
{
}

/// Every solution of a branch from `first` on is complete, and its first
/// label after the seed is that of a branch from `first` on.
pub proof fn lemma_branches_sound(n: int, first: int, i: int)
    requires
        valid_size(n),
        3 <= first,
        0 <= i < branches_from(n, first).len(),
    ensures
        is_solution(n, branches_from(n, first)[i]),
        first <= branches_from(n, first)[i][0][1] < n - 2,
    decreases n - first,
{
    if first < n - 2 {
        if i < branch(n, first).len() {
            lemma_branch_sound(n, first, i);
        } else {
            lemma_branches_sound(n, first + 1, i - branch(n, first).len());
        }
    }
}

/// The first label after the seed of a solution, or 0 where it has none.
pub open spec fn first_label(solution: Seq<Seq<usize>>) -> int {
    if solution.len() > 0 && solution[0].len() > 1 {
        solution[0][1] as int
    } else {
        0
    }
}

/// A branch holds no solution that begins with another first label.
pub proof fn lemma_branch_holds_own_solutions(n: int, first: int, solution: Seq<Seq<usize>>)
    requires
        valid_size(n),
        3 <= first,
        first + 3 <= n,
        first_label(solution) != first,
    ensures
        branch(n, first).to_multiset().count(solution) == 0,
{
    branch(n, first).to_multiset_ensures();
    if branch(n, first).contains(solution) {
        let i = choose|i: int| 0 <= i < branch(n, first).len() && branch(n, first)[i] == solution;
        lemma_branch_sound(n, first, i);
    }
}

/// How often a solution stands among the merged solutions of some branches,
/// none named twice: as often as in the branch of its first label, if that
/// branch is among them, and else not at all.
pub proof fn lemma_merged_count(n: int, order: Seq<int>, solution: Seq<Seq<usize>>)
    requires
        valid_size(n),
        order.no_duplicates(),
        forall|t: int| 0 <= t < order.len() ==> 3 <= #[trigger] order[t] && order[t] + 3 <= n,
    ensures
        merged(n, order).to_multiset().count(solution) == if order.contains(
            first_label(solution),
        ) {
            branch(n, first_label(solution)).to_multiset().count(solution)
        } else {
            0
        },
    decreases order.len(),
{
    let f = first_label(solution);
    if order.len() == 0 {
        Seq::<Seq<Seq<usize>>>::empty().to_multiset_ensures();
    } else {
        let init = order.drop_last();
        let last = order.last();
        lemma_merged_count(n, init, solution);
        lemma_multiset_commutative(merged(n, init), branch(n, last));
        if last != f {
            lemma_branch_holds_own_solutions(n, last, solution);
            if order.contains(f) {
                let t = choose|t: int| 0 <= t < order.len() && order[t] == f;
                assert(init[t] == f);
            }
        }
    }
}

/// How often a solution stands among the solutions of the branches from
/// `first` on: as often as in the branch of its first label, if that is one
/// of them, and else not at all.
pub proof fn lemma_branches_count(n: int, first: int, solution: Seq<Seq<usize>>)
    requires
        valid_size(n),
        3 <= first,
    ensures
        branches_from(n, first).to_multiset().count(solution) == if first <= first_label(solution)
            < n - 2 {
            branch(n, first_label(solution)).to_multiset().count(solution)
        } else {
            0
        },
    decreases n - first,
{
    if first >= n - 2 {
        Seq::<Seq<Seq<usize>>>::empty().to_multiset_ensures();
    } else {
        lemma_branches_count(n, first + 1, solution);
        lemma_multiset_commutative(branch(n, first), branches_from(n, first + 1));
        if first_label(solution) != first {
            lemma_branch_holds_own_solutions(n, first, solution);
        }
    }
}

/// An assignment that a sound one continues claims no edge twice either:
/// its table is part of the other's.
pub proof fn lemma_prefix_disjoint(n: int, cycles: Seq<Seq<usize>>, solution: Seq<Seq<usize>>)
    requires
        extends(cycles, solution),
        edge_disjoint(n, solution),
    ensures
        edge_disjoint(n, cycles),
{
    assert forall|c: int, x: int, y: int| #[trigger]
        entry(n, cycles, c, x, y) implies entry(n, solution, c, x, y) by {
        let (s, i, j) = choose|s: int, i: int, j: int| pair_entry(n, cycles, s, i, j, c, x, y);
        assert(pair_entry(n, solution, s, i, j, c, x, y));
    }
    assert forall|c1: int, i1: int, j1: int, c2: int, i2: int, j2: int, a: int, b: int|
        #![trigger claims(n, cycles, c1, i1, j1, a, b), claims(n, cycles, c2, i2, j2, a, b)]
        claims(n, cycles, c1, i1, j1, a, b) && claims(
            n,
            cycles,
            c2,
            i2,
            j2,
            a,
            b,
        ) implies c1 == c2 && ((i1 == i2 && j1 == j2) || (i1 == j2 && j1 == i2)) by {
        assert(claims(n, solution, c1, i1, j1, a, b));
        assert(claims(n, solution, c2, i2, j2, a, b));
    }
}

/// What stands in one of two lists stands in the two put together.
pub proof fn lemma_contains_joined(
    left: Seq<Seq<Seq<usize>>>,
    right: Seq<Seq<Seq<usize>>>,
    solution: Seq<Seq<usize>>,
)
    requires
        left.contains(solution) || right.contains(solution),
    ensures
        (left + right).contains(solution),
{
    if left.contains(solution) {
        let i = choose|i: int| 0 <= i < left.len() && left[i] == solution;
        assert((left + right)[i] == solution);
    } else {
        let i = choose|i: int| 0 <= i < right.len() && right[i] == solution;
        assert((left + right)[left.len() + i] == solution);
    }
}

/// What the search finds after taking candidate `label` stands among what it
/// finds for the candidates from any `node` up to that label.
pub proof fn lemma_candidates_contain(
    n: int,
    cycles: Seq<Seq<usize>>,
    node: int,
    label: int,
    solution: Seq<Seq<usize>>,
)
    requires
        searchable(n, cycles),
        cycles[1].len() < quarter(n),
        3 <= node <= label < n - 2,
        !occurs(n, cycles, label),
        edge_disjoint(n, push_label(cycles, destination(n, cycles), label as usize)),
        search(n, push_label(cycles, destination(n, cycles), label as usize)).contains(solution),
    ensures
        candidates(n, cycles, node).contains(solution),
    decreases label - node,
{
    let rest = candidates(n, cycles, node + 1);
    let next = push_label(cycles, destination(n, cycles), node as usize);
    if node < label {
        lemma_candidates_contain(n, cycles, node + 1, label, solution);
    }
    if !occurs(n, cycles, node) && edge_disjoint(n, next) {
        lemma_contains_joined(search(n, next), rest, solution);
    }
}

/// The search is exhaustive: from an assignment it finds every complete
/// solution that continues the assignment.
pub proof fn lemma_search_complete(n: int, cycles: Seq<Seq<usize>>, solution: Seq<Seq<usize>>)
    requires
        valid_size(n),
        searchable(n, cycles),
        filled_in_order(n, cycles),
        cycles[0].len() >= 1,
        cycles[1].len() >= 1,
        is_solution(n, solution),
        extends(cycles, solution),
    ensures
        search(n, cycles).contains(solution),
    decreases room(n, cycles),
{
    let k = quarter(n);
    if cycles[1].len() == k {
        assert(cycles[0] =~= solution[0]);
        assert(cycles[1] =~= solution[1]);
        assert(search(n, cycles)[0] == solution);
    } else {
        let slot = destination(n, cycles);
        let at = cycles[slot].len() as int;
        let label = solution[slot][at];
        let next = push_label(cycles, slot, label);
        // The next label of the solution is a candidate that the search takes.
        assert(3 <= label < n - 2);
        assert(!occurs(n, cycles, label as int));
        assert(extends(next, solution));
        lemma_prefix_disjoint(n, next, solution);
        lemma_search_complete(n, next, solution);
        lemma_candidates_contain(n, cycles, 3, label as int, solution);
    }
}

/// What one branch finds stands among what the branches from any `first` up
/// to it find.
pub proof fn lemma_branches_contain(n: int, first: int, label: int, solution: Seq<Seq<usize>>)
    requires
        3 <= first <= label < n - 2,
        branch(n, label).contains(solution),
    ensures
        branches_from(n, first).contains(solution),
    decreases label - first,
{
    if first < label {
        lemma_branches_contain(n, first + 1, label, solution);
    }
    lemma_contains_joined(branch(n, first), branches_from(n, first + 1), solution);
}

/// The search finds no solution twice.
pub proof fn lemma_search_no_duplicates(n: int, cycles: Seq<Seq<usize>>)
    requires
        valid_size(n),
        searchable(n, cycles),
        filled_in_order(n, cycles),
        assignment_ok(n, cycles),
        edge_disjoint(n, cycles),
        cycles[0].len() >= 1,
        cycles[1].len() >= 1,
        cycles[0][0] == 1,
        cycles[1][0] == 2,
    ensures
        search(n, cycles).no_duplicates(),
    decreases room(n, cycles), n,
{
    if cycles[1].len() != quarter(n) {
        lemma_candidates_no_duplicates(n, cycles, 3);
    }
}

/// The candidates from `node` on give no solution twice, and each solution
/// that they give continues the assignment with a label from `node` on.
pub proof fn lemma_candidates_no_duplicates(n: int, cycles: Seq<Seq<usize>>, node: int)
    requires
        valid_size(n),
        searchable(n, cycles),
        filled_in_order(n, cycles),
        assignment_ok(n, cycles),
        edge_disjoint(n, cycles),
        cycles[0].len() >= 1,
        cycles[1].len() >= 1,
        cycles[0][0] == 1,
        cycles[1][0] == 2,
        cycles[1].len() < quarter(n),
        3 <= node,
    ensures
        candidates(n, cycles, node).no_duplicates(),
        forall|i: int|
            0 <= i < candidates(n, cycles, node).len() ==> (#[trigger] candidates(
                n,
                cycles,
                node,
            )[i])[destination(n, cycles)][cycles[destination(n, cycles)].len() as int] >= node,
    decreases room(n, cycles), n - node,
{
    if node < n - 2 {
        let all = candidates(n, cycles, node);
        let rest = candidates(n, cycles, node + 1);
        let slot = destination(n, cycles);
        let at = cycles[slot].len() as int;
        let next = push_label(cycles, slot, node as usize);
        lemma_candidates_no_duplicates(n, cycles, node + 1);
        if !occurs(n, cycles, node) && edge_disjoint(n, next) {
            let found = search(n, next);
            lemma_push_ok(n, cycles, slot, node as usize);
            lemma_search_no_duplicates(n, next);
            assert forall|i: int| 0 <= i < found.len() implies (#[trigger] found[i])[slot][at]
                == node by {
                lemma_search_sound(n, next, i);
                assert(next[slot].is_prefix_of(found[i][slot]));
                assert(next[slot][at] == node);
            }
            assert forall|i: int| 0 <= i < all.len() implies (#[trigger] all[i])[slot][at]
                >= node by {
                if i >= found.len() {
                    assert(all[i] == rest[i - found.len()]);
                } else {
                    assert(all[i] == found[i]);
                }
            }
            assert forall|i: int, j: int|
                0 <= i < all.len() && 0 <= j < all.len() && i != j implies all[i] != all[j] by {
                if i < found.len() {
                    assert(all[i] == found[i]);
                } else {
                    assert(all[i] == rest[i - found.len()]);
                }
                if j < found.len() {
                    assert(all[j] == found[j]);
                } else {
                    assert(all[j] == rest[j - found.len()]);
                }
            }
        }
    }
}

/// The branches from `first` on give no solution twice.
pub proof fn lemma_branches_no_duplicates(n: int, first: int)
    requires
        valid_size(n),
        3 <= first,
    ensures
        branches_from(n, first).no_duplicates(),
    decreases n - first,
{
    if first < n - 2 {
        let all = branches_from(n, first);
        let own = branch(n, first);
        lemma_branches_no_duplicates(n, first + 1);
        let start = push_label(seeds(), 0, first as usize);
        if edge_disjoint(n, start) {
            lemma_search_no_duplicates(n, start);
        }
        assert forall|i: int, j: int|
            0 <= i < all.len() && 0 <= j < all.len() && i != j implies all[i] != all[j] by {
            if i < own.len() {
                lemma_branch_sound(n, first, i);
            } else {
                lemma_branches_sound(n, first + 1, i - own.len());
            }
            if j < own.len() {
                lemma_branch_sound(n, first, j);
            } else {
                lemma_branches_sound(n, first + 1, j - own.len());
            }
        }
    }
}

} // verus!
