use vstd::prelude::*;
use crate::model::valid_size;
use crate::laws::{
    lemma_all_solutions_complete, lemma_all_solutions_no_duplicates, lemma_all_solutions_sound,
    lemma_branch_sound,
};
use crate::search::{all_solutions, branch, branches_from, is_solution};
use crate::state::{CyclePermuter, CycleSet, rows, solution_seqs};

verus! {

/// A sequence of labels followed by the inverse partners of its labels, in
/// the same order.
pub open spec fn with_partners(n: int, cycle: Seq<usize>) -> Seq<usize> {
    cycle + Seq::new(cycle.len(), |i: int| (n - cycle[i]) as usize)
}

/// The full cycles of a solution: each sequence with the partners of its
/// labels appended.
pub open spec fn full_cycles_of(n: int, solution: Seq<Seq<usize>>) -> Seq<Seq<usize>> {
    Seq::new(solution.len(), |s: int| with_partners(n, solution[s]))
}

/// The solutions gathered when the branches named in `order` are run and
/// merged one after the other, in that order.
pub open spec fn merged(n: int, order: Seq<int>) -> Seq<Seq<Seq<usize>>>
    decreases order.len(),
{
    if order.len() == 0 {
        Seq::empty()
    } else {
        merged(n, order.drop_last()) + branch(n, order.last())
    }
}

/// `order` names every branch of problem size `n` once: the first labels
/// from 3 up to, and not including, `n - 2`.
pub open spec fn is_schedule(n: int, order: Seq<int>) -> bool {
    &&& order.no_duplicates()
    &&& forall|f: int| order.contains(f) <==> 3 <= f < n - 2
}

/// The first labels in ascending order: `count` of them, from 3 on.
pub open spec fn ascending(count: int) -> Seq<int> {
    Seq::new(count as nat, |t: int| 3 + t)
}

/// Whether `num_nodes` is a problem size: one more than a multiple of four.
pub fn is_valid_size(num_nodes: usize) -> (valid: bool)
    ensures
        valid == valid_size(num_nodes as int),
{
    num_nodes >= 1 && (num_nodes - 1) % 4 == 0
}

/// The first labels of the branches of problem size `num_nodes`, in
/// ascending order: from 3 up to, and not including, `num_nodes - 2`. Each
/// is the work of one worker.
pub fn first_labels(num_nodes: usize) -> (labels: Vec<usize>)
    ensures
        labels@.len() == if num_nodes >= 5 {
            num_nodes - 5
        } else {
            0
        },
        forall|t: int| 0 <= t < labels@.len() ==> labels@[t] == 3 + t,
        is_schedule(num_nodes as int, ascending(labels@.len() as int)),
{
    let mut labels: Vec<usize> = Vec::new();
    if num_nodes >= 5 {
        let mut first_node: usize = 3;
        while first_node < num_nodes - 2
            invariant
                num_nodes >= 5,
                3 <= first_node <= num_nodes - 2,
                labels@.len() == first_node - 3,
                forall|t: int| 0 <= t < labels@.len() ==> labels@[t] == 3 + t,
            decreases num_nodes - first_node,
        {
            labels.push(first_node);
            first_node += 1;
        }
    }
    proof {
        let order = ascending(labels@.len() as int);
        assert forall|f: int| order.contains(f) <==> 3 <= f < num_nodes - 2 by {
            if 3 <= f < num_nodes - 2 {
                assert(order[f - 3] == f);
            }
        }
    }
    labels
}

/// The solutions of one branch of the search for problem size `num_nodes`:
/// the branch that begins with `first_node`. This is the work of one worker.
/// Every solution found is complete and has `first_node` behind its first
/// seed.
pub fn branch_solutions(num_nodes: usize, first_node: usize) -> (found: Vec<CycleSet>)
    requires
        valid_size(num_nodes as int),
        3 <= first_node,
        first_node + 3 <= num_nodes,
    ensures
        solution_seqs(found) == branch(num_nodes as int, first_node as int),
        found@.len() == branch(num_nodes as int, first_node as int).len(),
        forall|i: int|
            0 <= i < found@.len() ==> {
                &&& is_solution(num_nodes as int, #[trigger] solution_seqs(found)[i])
                &&& solution_seqs(found)[i][0][1] == first_node
            },
{
    proof {
        assert forall|i: int|
            0 <= i < branch(num_nodes as int, first_node as int).len() implies {
            &&& is_solution(
                num_nodes as int,
                #[trigger] branch(num_nodes as int, first_node as int)[i],
            )
            &&& branch(num_nodes as int, first_node as int)[i][0][1] == first_node
        } by {
            lemma_branch_sound(num_nodes as int, first_node as int, i);
        }
    }
    let mut cp = CyclePermuter::new(num_nodes);
    cp.enum_all_symm_perms(first_node);
    cp.into_solutions()
}

/// Appends the solutions of one worker to the shared collection.
pub fn merge_solutions(collection: &mut Vec<CycleSet>, found: Vec<CycleSet>)
    ensures
        solution_seqs(*final(collection)) == solution_seqs(*old(collection)) + solution_seqs(found),
{
    let mut found = found;
    collection.append(&mut found);
}

/// All solutions for problem size `num_nodes`: the branches for the first
/// labels from 3 up to, and not including, `num_nodes - 2`, one after the
/// other. Every solution found is complete, none is found twice, and from
/// size 9 on every complete solution is found. A size below 9 has no branch
/// and no solution.
pub fn collect_solutions(num_nodes: usize) -> (all: Vec<CycleSet>)
    requires
        valid_size(num_nodes as int),
    ensures
        solution_seqs(all) == all_solutions(num_nodes as int),
        all@.len() == all_solutions(num_nodes as int).len(),
        forall|i: int|
            0 <= i < all@.len() ==> is_solution(num_nodes as int, #[trigger] solution_seqs(all)[i]),
        solution_seqs(all).no_duplicates(),
        num_nodes >= 9 ==> forall|solution: Seq<Seq<usize>>|
            is_solution(num_nodes as int, solution) ==> #[trigger] solution_seqs(all).contains(
                solution,
            ),
{
    let ghost n = num_nodes as int;
    let mut all: Vec<CycleSet> = Vec::new();
    proof {
        lemma_all_solutions_no_duplicates(n);
        assert forall|i: int| 0 <= i < all_solutions(n).len() implies is_solution(
            n,
            #[trigger] all_solutions(n)[i],
        ) by {
            lemma_all_solutions_sound(n, i);
        }
        if n >= 9 {
            assert forall|solution: Seq<Seq<usize>>| is_solution(n, solution) implies (
            #[trigger] all_solutions(n).contains(solution)) by {
                lemma_all_solutions_complete(n, solution);
            }
        }
    }
    if num_nodes < 6 {
        return all;
    }
    let mut first_node: usize = 3;
    while first_node < num_nodes - 2
        invariant
            n == num_nodes,
            valid_size(n),
            n >= 6,
            3 <= first_node <= n - 2,
            solution_seqs(all) + branches_from(n, first_node as int) == all_solutions(n),
        decreases num_nodes - first_node,
    {
        let found = branch_solutions(num_nodes, first_node);
        merge_solutions(&mut all, found);
        first_node += 1;
    }
    all
}

/// One sequence of labels with the partners of its labels appended.
pub fn add_partners(num_nodes: usize, cycle: &Vec<usize>) -> (full: Vec<usize>)
    requires
        forall|i: int| 0 <= i < cycle@.len() ==> cycle@[i] <= num_nodes,
    ensures
        full@ == with_partners(num_nodes as int, cycle@),
{
    let mut full: Vec<usize> = Vec::new();
    let mut i: usize = 0;
    while i < cycle.len()
        invariant
            0 <= i <= cycle@.len(),
            full@ == cycle@.subrange(0, i as int),
        decreases cycle@.len() - i,
    {
        full.push(cycle[i]);
        i += 1;
    }
    let mut j: usize = 0;
    while j < cycle.len()
        invariant
            0 <= j <= cycle@.len(),
            forall|i: int| 0 <= i < cycle@.len() ==> cycle@[i] <= num_nodes,
            full@.len() == cycle@.len() + j,
            forall|t: int| 0 <= t < cycle@.len() ==> full@[t] == cycle@[t],
            forall|t: int| 0 <= t < j ==> full@[cycle@.len() + t] == num_nodes - cycle@[t],
        decreases cycle@.len() - j,
    {
        full.push(num_nodes - cycle[j]);
        j += 1;
    }
    full
}

/// The full cycles of a solution, as they are written out: each sequence
/// followed by the partners of its labels.
pub fn full_cycles(num_nodes: usize, solution: &CycleSet) -> (full: CycleSet)
    requires
        forall|s: int, i: int|
            0 <= s < solution@.len() && 0 <= i < solution@[s]@.len() ==> #[trigger] solution@[s]@[i]
                <= num_nodes,
    ensures
        rows(full) == full_cycles_of(num_nodes as int, rows(*solution)),
{
    let mut full: CycleSet = Vec::new();
    let mut s: usize = 0;
    while s < solution.len()
        invariant
            0 <= s <= solution@.len(),
            forall|t: int, i: int|
                0 <= t < solution@.len() && 0 <= i < solution@[t]@.len()
                    ==> #[trigger] solution@[t]@[i] <= num_nodes,
            full@.len() == s,
            forall|t: int|
                0 <= t < s ==> (#[trigger] full@[t])@ == with_partners(
                    num_nodes as int,
                    solution@[t]@,
                ),
        decreases solution@.len() - s,
    {
        let cycle = add_partners(num_nodes, &solution[s]);
        full.push(cycle);
        s += 1;
    }
    full
}

} // verus!
