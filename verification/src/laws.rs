use vstd::prelude::*;
use vstd::set_lib::{lemma_int_range, lemma_subset_equality, set_int_range};
use crate::collect::{full_cycles_of, is_schedule, merged, with_partners};
use crate::derive::lemma_table_disjoint_iff;
use crate::model::{edge_disjoint, entry, pop_label, push_label, quarter, seeds, valid_size};
use crate::search::{all_solutions, branch, is_solution};
use crate::search_proofs::{
    lemma_branch_start_ok, lemma_branches_contain, lemma_branches_count,
    lemma_branches_no_duplicates, lemma_branches_sound, lemma_merged_count, lemma_search_complete,
    lemma_search_sound,
};
use crate::state::SearchState;

verus! {

/// A consistent state is determined by its problem size, its label sequences
/// and its solutions: the bitmap, the table and the edge matrix follow from
/// them.
pub proof fn lemma_state_determined(a: SearchState, b: SearchState)
    requires
        a.wf(),
        b.wf(),
        a.n == b.n,
        a.cycles == b.cycles,
        a.solutions == b.solutions,
    ensures
        a == b,
{
    let n = a.n;
    assert(a.used =~= b.used);
    assert forall|c: int| 0 <= c < a.table.len() implies #[trigger] a.table[c] =~= b.table[c] by {
        assert forall|x: int| 0 <= x < n implies a.table[c][x] == b.table[c][x] by {
            if a.table[c][x].is_some() {
                let y = a.table[c][x].unwrap();
                assert((a.table[c][x] == Some(y)) == entry(n, a.cycles, c, x, y as int));
            } else if b.table[c][x].is_some() {
                let y = b.table[c][x].unwrap();
                assert((a.table[c][x] == Some(y)) == entry(n, a.cycles, c, x, y as int));
            }
        }
    }
    assert(a.table =~= b.table);
    assert forall|p: int| 0 <= p < n implies #[trigger] a.edges[p] =~= b.edges[p] by {}
    assert(a.edges =~= b.edges);
}

/// An extension that went through, followed at once by the retraction of the
/// same label from the same sequence, leaves the state that the extension
/// found: sequences, bitmap, table and edge matrix.
pub proof fn lemma_retract_undoes_extend(
    before: SearchState,
    extended: SearchState,
    after: SearchState,
    label: usize,
    slot: int,
)
    requires
        before.wf(),
        before.can_extend(label, slot),
        extended.wf(),
        extended.n == before.n,
        extended.solutions == before.solutions,
        extended.cycles == push_label(before.cycles, slot, label),
        after.wf(),
        after.n == extended.n,
        after.solutions == extended.solutions,
        after.cycles == pop_label(extended.cycles, slot),
    ensures
        after == before,
{
    assert(before.cycles[slot].push(label).drop_last() =~= before.cycles[slot]);
    assert(after.cycles =~= before.cycles);
    lemma_state_determined(after, before);
}

/// In a consistent state no edge is claimed twice by the table that the
/// label sequences imply.
pub proof fn lemma_consistent_edge_disjoint(state: SearchState)
    requires
        state.wf(),
    ensures
        edge_disjoint(state.n, state.cycles),
{
    lemma_table_disjoint_iff(state.n, state.cycles, state.table);
}

/// Every solution of a branch is complete: both sequences are full, no label
/// stands twice or beside its partner, and the table that the sequences imply
/// claims no edge twice. It begins with the seeds and the branch's first
/// label.
pub proof fn lemma_branch_sound(n: int, first: int, i: int)
    requires
        valid_size(n),
        3 <= first,
        first + 3 <= n,
        0 <= i < branch(n, first).len(),
    ensures
        is_solution(n, branch(n, first)[i]),
        branch(n, first)[i][0][1] == first,
{
    let start = push_label(seeds(), 0, first as usize);
    lemma_branch_start_ok(n, first);
    lemma_search_sound(n, start, i);
}

/// Every accepted solution is complete: both sequences hold a quarter of the
/// labels, no label stands twice or beside its partner, and the table
/// derived afresh from the recorded sequences claims no edge twice.
pub proof fn lemma_all_solutions_sound(n: int, i: int)
    requires
        valid_size(n),
        0 <= i < all_solutions(n).len(),
    ensures
        is_solution(n, all_solutions(n)[i]),
{
    lemma_branches_sound(n, 3, i);
}

/// Label `x` stands somewhere in the cycles.
pub open spec fn stands_in(full: Seq<Seq<usize>>, x: int) -> bool {
    exists|s: int, i: int|
        0 <= s < full.len() && 0 <= i < full[s].len() && #[trigger] full[s][i] == x
}

/// Every label from 1 up to, and not including, `n` stands in the cycles at
/// exactly one place, and nothing else stands there.
pub open spec fn covers_once(n: int, full: Seq<Seq<usize>>) -> bool {
    &&& forall|x: int| 1 <= x < n ==> #[trigger] stands_in(full, x)
    &&& forall|s1: int, i1: int, s2: int, i2: int|
        0 <= s1 < full.len() && 0 <= i1 < full[s1].len() && 0 <= s2 < full.len() && 0 <= i2
            < full[s2].len() && #[trigger] full[s1][i1] == #[trigger] full[s2][i2] ==> s1 == s2
            && i1 == i2
    &&& forall|s: int, i: int|
        0 <= s < full.len() && 0 <= i < full[s].len() ==> 1 <= #[trigger] full[s][i] < n
}

/// The full cycles of a complete solution, each sequence followed by the
/// partners of its labels, use every label from 1 to `n - 1` exactly once.
pub proof fn lemma_solution_covers_once(n: int, solution: Seq<Seq<usize>>)
    requires
        valid_size(n),
        is_solution(n, solution),
    ensures
        covers_once(n, full_cycles_of(n, solution)),
{
    let k = quarter(n);
    let full = full_cycles_of(n, solution);
    assert(full.len() == 2);
    assert(full[0] == with_partners(n, solution[0]));
    assert(full[1] == with_partners(n, solution[1]));
    assert forall|s: int, i: int| 0 <= s < 2 && 0 <= i < 2 * k implies #[trigger] full[s][i]
        == if i < k {
        solution[s][i] as int
    } else {
        n - solution[s][i - k]
    } by {
        if i >= k {
            assert(1 <= solution[s][i - k] < n);
        }
    }
    assert forall|s: int, i: int| 0 <= s < full.len() && 0 <= i < full[s].len() implies 1
        <= #[trigger] full[s][i] < n by {
        if i < k {
            assert(1 <= solution[s][i] < n);
        } else {
            assert(1 <= solution[s][i - k] < n);
        }
    }
    assert forall|s1: int, i1: int, s2: int, i2: int|
        0 <= s1 < full.len() && 0 <= i1 < full[s1].len() && 0 <= s2 < full.len() && 0 <= i2
            < full[s2].len() && #[trigger] full[s1][i1] == #[trigger] full[s2][i2] implies s1 == s2
        && i1 == i2 by {
        let j1 = if i1 < k {
            i1
        } else {
            i1 - k
        };
        let j2 = if i2 < k {
            i2
        } else {
            i2 - k
        };
        assert(solution[s1][j1] + solution[s2][j2] != n);
        assert(solution[s1][j1] == solution[s2][j2] ==> s1 == s2 && j1 == j2);
    }
    let flat = Seq::new(
        (4 * k) as nat,
        |t: int|
            if t < 2 * k {
                full[0][t] as int
            } else {
                full[1][t - 2 * k] as int
            },
    );
    assert(flat.no_duplicates()) by {
        assert forall|t1: int, t2: int|
            0 <= t1 < flat.len() && 0 <= t2 < flat.len() && t1 != t2 implies flat[t1]
            != flat[t2] by {
            let (s1, i1) = if t1 < 2 * k {
                (0int, t1)
            } else {
                (1int, t1 - 2 * k)
            };
            let (s2, i2) = if t2 < 2 * k {
                (0int, t2)
            } else {
                (1int, t2 - 2 * k)
            };
            assert(flat[t1] == full[s1][i1]);
            assert(flat[t2] == full[s2][i2]);
        }
    }
    flat.unique_seq_to_set();
    lemma_int_range(1, n);
    let labels = set_int_range(1, n);
    assert(flat.to_set().subset_of(labels)) by {
        assert forall|x: int| flat.to_set().contains(x) implies labels.contains(x) by {
            let t = choose|t: int| 0 <= t < flat.len() && flat[t] == x;
            if t < 2 * k {
                assert(flat[t] == full[0][t]);
            } else {
                assert(flat[t] == full[1][t - 2 * k]);
            }
        }
    }
    vstd::seq_lib::seq_to_set_is_finite(flat);
    lemma_subset_equality(flat.to_set(), labels);
    assert forall|x: int| 1 <= x < n implies #[trigger] stands_in(full, x) by {
        assert(labels.contains(x));
        assert(flat.to_set().contains(x));
        let t = choose|t: int| 0 <= t < flat.len() && flat[t] == x;
        if t < 2 * k {
            assert(full[0][t] == x);
        } else {
            assert(full[1][t - 2 * k] == x);
        }
    }
}

/// In whatever order the branches are run and merged, each once, the merged
/// solutions are those of the sweep in ascending order, each as often as
/// there: the order of the workers does not change what is found.
pub proof fn lemma_merge_order_irrelevant(n: int, order: Seq<int>)
    requires
        valid_size(n),
        is_schedule(n, order),
    ensures
        merged(n, order).to_multiset() == all_solutions(n).to_multiset(),
{
    assert forall|t: int| 0 <= t < order.len() implies 3 <= #[trigger] order[t] && order[t] + 3
        <= n by {
        assert(order.contains(order[t]));
    }
    assert forall|solution: Seq<Seq<usize>>|
        merged(n, order).to_multiset().count(solution) == all_solutions(n).to_multiset().count(
            solution,
        ) by {
        lemma_merged_count(n, order, solution);
        lemma_branches_count(n, 3, solution);
    }
}

/// From problem size 9 on the sweep is exhaustive: every complete solution
/// stands among the solutions found.
pub proof fn lemma_all_solutions_complete(n: int, solution: Seq<Seq<usize>>)
    requires
        valid_size(n),
        n >= 9,
        is_solution(n, solution),
    ensures
        all_solutions(n).contains(solution),
{
    let first = solution[0][1];
    let start = push_label(seeds(), 0, first);
    lemma_search_complete(n, start, solution);
    lemma_branches_contain(n, 3, first as int, solution);
}

/// No solution stands twice among the solutions found.
pub proof fn lemma_all_solutions_no_duplicates(n: int)
    requires
        valid_size(n),
    ensures
        all_solutions(n).no_duplicates(),
{
    lemma_branches_no_duplicates(n, 3);
}

} // verus!
