use vstd::prelude::*;
use crate::laws::lemma_state_determined;
use crate::model::{
    assignment_ok, edge_disjoint, entry, occurs, pop_label, push_label, quarter, seeds,
};
use crate::state::{CyclePermuter, rows, SearchState};

verus! {

/// The labels that the two sequences can still take.
pub open spec fn room(n: int, cycles: Seq<Seq<usize>>) -> int {
    2 * quarter(n) - cycles[0].len() - cycles[1].len()
}

/// The assignment has the shape that the search works on: two sequences,
/// neither over its length.
pub open spec fn searchable(n: int, cycles: Seq<Seq<usize>>) -> bool {
    &&& cycles.len() == 2
    &&& cycles[0].len() <= quarter(n)
    &&& cycles[1].len() <= quarter(n)
}

/// The sequence that takes the next label: the first until it is full, then
/// the second.
pub open spec fn destination(n: int, cycles: Seq<Seq<usize>>) -> int {
    if cycles[0].len() < quarter(n) {
        0
    } else {
        1
    }
}

/// The second sequence holds labels beyond its seed only once the first is
/// full.
pub open spec fn filled_in_order(n: int, cycles: Seq<Seq<usize>>) -> bool {
    cycles[1].len() <= 1 || cycles[0].len() == quarter(n)
}

/// A complete solution for problem size `n`: two sequences that begin with
/// the seeds and hold a quarter of the labels each, no label twice or beside
/// its partner, and no edge claimed twice by the table that they imply.
pub open spec fn is_solution(n: int, solution: Seq<Seq<usize>>) -> bool {
    &&& solution.len() == 2
    &&& solution[0].len() == quarter(n)
    &&& solution[1].len() == quarter(n)
    &&& quarter(n) >= 1
    &&& solution[0][0] == 1
    &&& solution[1][0] == 2
    &&& assignment_ok(n, solution)
    &&& edge_disjoint(n, solution)
}

/// Every sequence of `cycles` is the beginning of the sequence of `solution`
/// in its place.
pub open spec fn extends(cycles: Seq<Seq<usize>>, solution: Seq<Seq<usize>>) -> bool {
    &&& solution.len() == cycles.len()
    &&& forall|s: int| 0 <= s < cycles.len() ==> (#[trigger] cycles[s]).is_prefix_of(solution[s])
}

/// The solutions that the search finds from an assignment, in the order in
/// which it finds them: the assignment itself once the second sequence is
/// full, else what it finds for each candidate label in turn.
pub open spec fn search(n: int, cycles: Seq<Seq<usize>>) -> Seq<Seq<Seq<usize>>>
    decreases room(n, cycles), n,
    when searchable(n, cycles)
{
    if cycles[1].len() == quarter(n) {
        seq![cycles]
    } else {
        candidates(n, cycles, 3)
    }
}

/// The solutions found for the candidate labels from `node` up to, and not
/// including, `n - 2`. A candidate is tried if neither it nor its partner is
/// in use; it is taken if the longer assignment claims no edge twice, and
/// the search then goes on from there.
pub open spec fn candidates(n: int, cycles: Seq<Seq<usize>>, node: int) -> Seq<Seq<Seq<usize>>>
    decreases room(n, cycles), n - node,
    when searchable(n, cycles) && cycles[1].len() < quarter(n) && 3 <= node
{
    if node >= n - 2 {
        Seq::empty()
    } else {
        let rest = candidates(n, cycles, node + 1);
        let next = push_label(cycles, destination(n, cycles), node as usize);
        if !occurs(n, cycles, node) && edge_disjoint(n, next) {
            search(n, next) + rest
        } else {
            rest
        }
    }
}

/// The solutions of the branch that begins by appending `first` to the first
/// seed.
pub open spec fn branch(n: int, first: int) -> Seq<Seq<Seq<usize>>> {
    let start = push_label(seeds(), 0, first as usize);
    if edge_disjoint(n, start) {
        search(n, start)
    } else {
        Seq::empty()
    }
}

/// The solutions of the branches from `first` up to, and not including,
/// `n - 2`, one branch after the other.
pub open spec fn branches_from(n: int, first: int) -> Seq<Seq<Seq<usize>>>
    decreases n - first,
{
    if first >= n - 2 {
        Seq::empty()
    } else {
        branch(n, first) + branches_from(n, first + 1)
    }
}

/// All solutions for problem size `n`, branch by branch.
pub open spec fn all_solutions(n: int) -> Seq<Seq<Seq<usize>>> {
    branches_from(n, 3)
}

/// A copy of the sequences.
pub fn copy_cycles(cycles: &Vec<Vec<usize>>) -> (copy: Vec<Vec<usize>>)
    ensures
        rows(copy) == rows(*cycles),
{
    let mut copy: Vec<Vec<usize>> = Vec::new();
    let mut s: usize = 0;
    while s < cycles.len()
        invariant
            0 <= s <= cycles@.len(),
            copy@.len() == s,
            forall|t: int| 0 <= t < s ==> (#[trigger] copy@[t])@ == cycles@[t]@,
        decreases cycles@.len() - s,
    {
        let mut row: Vec<usize> = Vec::new();
        let mut i: usize = 0;
        while i < cycles[s].len()
            invariant
                0 <= s < cycles@.len(),
                0 <= i <= cycles@[s as int]@.len(),
                row@.len() == i,
                forall|j: int| 0 <= j < i ==> row@[j] == cycles@[s as int]@[j],
            decreases cycles@[s as int]@.len() - i,
        {
            row.push(cycles[s][i]);
            i += 1;
        }
        copy.push(row);
        s += 1;
    }
    copy
}

impl CyclePermuter {
    /// Sets up the two seed sequences, `[1]` and `[2]`, and marks both
    /// labels and their partners as used.
    pub fn seed(&mut self)
        requires
            old(self).wf(),
            old(self)@.n >= 5,
            old(self)@.at_rest(),
        ensures
            final(self).wf(),
            final(self)@.n == old(self)@.n,
            final(self)@.cycles == seeds(),
            final(self)@.solutions == old(self)@.solutions,
    {
        let ghost n = self.num_nodes as int;
        let ghost before = self@;
        let mut first: Vec<usize> = Vec::new();
        first.push(1);
        let mut second: Vec<usize> = Vec::new();
        second.push(2);
        let mut both: Vec<Vec<usize>> = Vec::new();
        both.push(first);
        both.push(second);
        self.perm_cycles = both;
        self.set_used(1);
        self.set_used(2);
        proof {
            let cycles = self@.cycles;
            assert forall|c: int, x: int, y: usize|
                0 <= c < self@.table.len() && 0 <= x < n implies (self@.table[c][x] == Some(y))
                == #[trigger] entry(n, cycles, c, x, y as int) by {
                assert((before.table[c][x] == Some(y)) == entry(n, before.cycles, c, x, y as int));
            }
            assert forall|x: int| 0 <= x < n implies #[trigger] self@.used[x] == occurs(
                n,
                cycles,
                x,
            ) by {
                if x == 1 || x == n - 1 {
                    assert(cycles[0][0] == 1);
                } else if x == 2 || x == n - 2 {
                    assert(cycles[1][0] == 2);
                }
            }
        }
    }

    /// Runs the branch of the search that begins by appending `first_node`
    /// to the first seed, and appends what it finds to the solutions. The
    /// state is left with the two seeds alone.
    pub fn enum_all_symm_perms(&mut self, first_node: usize)
        requires
            old(self).wf(),
            old(self)@.at_rest(),
            3 <= first_node,
            first_node + 3 <= old(self)@.n,
        ensures
            final(self).wf(),
            final(self)@.n == old(self)@.n,
            final(self)@.cycles == seeds(),
            final(self)@.solutions == old(self)@.solutions + branch(
                old(self)@.n,
                first_node as int,
            ),
    {
        self.seed();
        let ghost start = push_label(seeds(), 0, first_node);
        if self.add_node_to_cycle_succ(first_node, 0) {
            self.rec_enum_symm_perms();
            self.remove_node_from_cycle(first_node, 0);
            proof {
                assert(pop_label(start, 0) =~= seeds()) by {
                    assert(seeds()[0].push(first_node).drop_last() =~= seeds()[0]);
                }
            }
        }
    }

    /// Runs the search from the present assignment to its end. Every
    /// solution found is appended to the solutions; everything else is left
    /// as it was found.
    pub(crate) fn rec_enum_symm_perms(&mut self)
        requires
            old(self).wf(),
            searchable(old(self)@.n, old(self)@.cycles),
        ensures
            final(self).wf(),
            final(self)@ == (SearchState {
                solutions: old(self)@.solutions + search(old(self)@.n, old(self)@.cycles),
                ..old(self)@
            }),
        decreases room(old(self)@.n, old(self)@.cycles),
    {
        let ghost n = self.num_nodes as int;
        let ghost k = quarter(n);
        let ghost before = self@;
        let ghost cycles = before.cycles;
        if self.perm_cycles[1].len() == (self.num_nodes - 1) / 4 {
            let found = copy_cycles(&self.perm_cycles);
            self.sol_found.push(found);
            proof {
                assert(self@.solutions =~= before.solutions + seq![cycles]);
            }
            return ;
        }
        let upper_bound = self.num_nodes - 2;
        let mut node: usize = 3;
        while node < upper_bound
            invariant
                n == self.num_nodes,
                n >= 5,
                k == quarter(n),
                upper_bound == n - 2,
                3 <= node,
                before == old(self)@,
                cycles == before.cycles,
                searchable(n, cycles),
                cycles[1].len() < k,
                self.wf(),
                self@ == (SearchState { solutions: self@.solutions, ..before }),
                self@.solutions + candidates(n, cycles, node as int) == before.solutions + search(
                    n,
                    cycles,
                ),
            decreases upper_bound - node,
        {
            let ghost here = self@;
            if !self.perm_used[node] {
                let cycle_idx: usize = if self.perm_cycles[0].len() < self.num_ham_cycles {
                    0
                } else {
                    1
                };
                let ghost next = push_label(cycles, cycle_idx as int, node);
                if self.add_node_to_cycle_succ(node, cycle_idx) {
                    self.rec_enum_symm_perms();
                    self.remove_node_from_cycle(node, cycle_idx);
                    proof {
                        assert(pop_label(next, cycle_idx as int) =~= cycles) by {
                            assert(cycles[cycle_idx as int].push(node).drop_last()
                                =~= cycles[cycle_idx as int]);
                        }
                        let target = SearchState {
                            solutions: here.solutions + search(n, next),
                            ..here
                        };
                        lemma_state_determined(self@, target);
                    }
                }
            }
            node += 1;
        }
    }
}

} // verus!
