use vstd::prelude::*;
use crate::derive::{
    four_slots, lemma_conflict_in_assignment, lemma_extend_round, lemma_occurs_push,
    lemma_pair_toggle, lemma_partial_all, lemma_partial_none, lemma_pop_ok, lemma_push_ok,
    lemma_table_disjoint_iff, partial_entry, slots_filled, table_partial,
};
use crate::model::{
    assignment_ok, edge_disjoint, edges_are, entry, matrix_shape, occurs, pop_label, push_label,
    quarter, table_disjoint, table_shape,
};
use crate::state::{CyclePermuter, SearchState};
use crate::table::{undo_covers, UndoLog};

verus! {

impl SearchState {
    /// Label `label` may be appended to sequence `slot`: the sequence has
    /// room, and neither the label nor its partner is in use.
    pub open spec fn can_extend(self, label: usize, slot: int) -> bool {
        &&& 0 <= slot < self.cycles.len()
        &&& self.cycles[slot].len() < quarter(self.n)
        &&& 1 <= label < self.n
        &&& !self.used[label as int]
    }

    /// Label `label` may be taken away from sequence `slot`: it is the last
    /// label there.
    pub open spec fn can_retract(self, label: usize, slot: int) -> bool {
        &&& 0 <= slot < self.cycles.len()
        &&& self.cycles[slot].len() >= 1
        &&& self.cycles[slot][self.cycles[slot].len() - 1] == label
    }

    /// The bitmap after `label` and its partner were set to `value`.
    pub open spec fn used_with(self, label: usize, value: bool) -> Seq<bool> {
        self.used.update(label as int, value).update(self.n - label, value)
    }
}

impl CyclePermuter {
    /// The inverse partner of label `i`.
    pub(crate) fn inv(&self, i: usize) -> (r: usize)
        requires
            i <= self.num_nodes,
        ensures
            r == self.num_nodes - i,
    {
        self.num_nodes - i
    }

    /// Marks label `i` and its partner as used.
    pub(crate) fn set_used(&mut self, i: usize)
        requires
            1 <= i < old(self).num_nodes,
            old(self).perm_used@.len() == old(self).num_nodes,
        ensures
            final(self).perm_used@ == old(self)@.used_with(i, true),
            final(self).num_nodes == old(self).num_nodes,
            final(self).num_ham_cycles == old(self).num_ham_cycles,
            final(self).perm_cycles == old(self).perm_cycles,
            final(self).ham_cycles == old(self).ham_cycles,
            final(self).used_edges == old(self).used_edges,
            final(self).sol_found == old(self).sol_found,
    {
        self.perm_used[i] = true;
        let partner = self.num_nodes - i;
        self.perm_used[partner] = true;
    }

    /// Marks label `i` and its partner as unused.
    pub(crate) fn set_unused(&mut self, i: usize)
        requires
            1 <= i < old(self).num_nodes,
            old(self).perm_used@.len() == old(self).num_nodes,
        ensures
            final(self).perm_used@ == old(self)@.used_with(i, false),
            final(self).num_nodes == old(self).num_nodes,
            final(self).num_ham_cycles == old(self).num_ham_cycles,
            final(self).perm_cycles == old(self).perm_cycles,
            final(self).ham_cycles == old(self).ham_cycles,
            final(self).used_edges == old(self).used_edges,
            final(self).sol_found == old(self).sol_found,
    {
        self.perm_used[i] = false;
        let partner = self.num_nodes - i;
        self.perm_used[partner] = false;
    }

    /// Writes the four entries that one pair of labels implies, `curr_val`
    /// before `node`, and stops at the first write that meets a marked edge.
    /// Returns whether all four went through, and how many were made.
    pub(crate) fn set_pair(
        &mut self,
        forward: usize,
        backward: usize,
        curr_val: usize,
        node: usize,
        changed_vals: &mut UndoLog,
        Ghost(base_table): Ghost<Seq<Seq<Option<usize>>>>,
        Ghost(base_edges): Ghost<Seq<Seq<bool>>>,
    ) -> (r: (bool, Ghost<int>))
        requires
            old(self).table_consistent(),
            table_shape(
                old(self).num_nodes as int,
                quarter(old(self).num_nodes as int) + 1,
                old(self)@.table,
            ),
            1 <= forward < quarter(old(self).num_nodes as int),
            backward == quarter(old(self).num_nodes as int) - forward,
            1 <= curr_val < old(self).num_nodes,
            1 <= node < old(self).num_nodes,
            curr_val != node,
            curr_val + node != old(self).num_nodes,
            curr_val + curr_val != old(self).num_nodes,
            node + node != old(self).num_nodes,
            ({
                let n = old(self).num_nodes as int;
                let start = old(self)@.table;
                &&& start[forward as int][curr_val as int].is_none()
                &&& start[backward as int][node as int].is_none()
                &&& start[forward as int][n - curr_val].is_none()
                &&& start[backward as int][n - node].is_none()
            }),
            undo_covers(
                old(self).num_nodes as int,
                base_table,
                base_edges,
                old(self)@.table,
                old(self)@.edges,
                *old(changed_vals),
            ),
        ensures
            final(self).same_assignment(old(self)),
            1 <= r.1@ <= 4,
            r.0 ==> r.1@ == 4,
            final(self)@.table == slots_filled(
                old(self)@.table,
                old(self).num_nodes as int,
                curr_val as int,
                node as int,
                forward as int,
                r.1@,
            ),
            r.0 == table_disjoint(final(self).num_nodes as int, final(self)@.table),
            r.0 ==> final(self).table_consistent(),
            undo_covers(
                final(self).num_nodes as int,
                base_table,
                base_edges,
                final(self)@.table,
                final(self)@.edges,
                *final(changed_vals),
            ),
    {
        let inv_val = self.inv(curr_val);
        let inv_node = self.inv(node);
        let ghost done: int = 1;
        let mut ok = self.set_ham_cycle_succ(
            forward,
            curr_val,
            node,
            changed_vals,
            Ghost(base_table),
            Ghost(base_edges),
        );
        if ok {
            ok =
            self.set_ham_cycle_succ(
                backward,
                node,
                inv_val,
                changed_vals,
                Ghost(base_table),
                Ghost(base_edges),
            );
            proof {
                done = 2;
            }
        }
        if ok {
            ok =
            self.set_ham_cycle_succ(
                forward,
                inv_val,
                inv_node,
                changed_vals,
                Ghost(base_table),
                Ghost(base_edges),
            );
            proof {
                done = 3;
            }
        }
        if ok {
            ok =
            self.set_ham_cycle_succ(
                backward,
                inv_node,
                curr_val,
                changed_vals,
                Ghost(base_table),
                Ghost(base_edges),
            );
            proof {
                done = 4;
            }
        }
        (ok, Ghost(done))
    }

    /// Takes a failed extension back: restores the table and the matrix from
    /// the log, clears the label and its partner in the bitmap, and removes
    /// the label from its sequence.
    pub(crate) fn undo_extension(
        &mut self,
        node: usize,
        cycle_idx: usize,
        changed_vals: &UndoLog,
        Ghost(before): Ghost<SearchState>,
    )
        requires
            before.n == old(self).num_nodes,
            before.used.len() == before.n,
            0 <= cycle_idx < before.cycles.len(),
            1 <= node < before.n,
            !before.used[node as int],
            !before.used[before.n - node],
            old(self)@.cycles == push_label(before.cycles, cycle_idx as int, node),
            old(self)@.used == before.used_with(node, true),
            old(self)@.solutions == before.solutions,
            undo_covers(
                before.n,
                before.table,
                before.edges,
                old(self)@.table,
                old(self)@.edges,
                *changed_vals,
            ),
        ensures
            final(self)@ == before,
            final(self).num_ham_cycles == old(self).num_ham_cycles,
    {
        let ghost next = self@.cycles;
        proof {
            assert(self.perm_cycles@.len() == next.len());
        }
        self.reset_ham_cycle_from_changed_vals(
            changed_vals,
            Ghost(before.table),
            Ghost(before.edges),
        );
        self.set_unused(node);
        let ghost held = self.perm_cycles@;
        proof {
            assert forall|s: int| 0 <= s < next.len() implies (#[trigger] held[s])@ == next[s] by {}
        }
        self.perm_cycles[cycle_idx].pop();
        proof {
            assert forall|s: int| 0 <= s < before.cycles.len() implies #[trigger] self@.cycles[s]
                == before.cycles[s] by {}
            assert(self@.cycles =~= before.cycles);
            assert(self@.used =~= before.used);
        }
    }

    /// Tries to append `node` to sequence `cycle_idx`. The attempt succeeds
    /// exactly if the table that the longer assignment implies claims no
    /// edge twice; the state is then the consistent state of that
    /// assignment. Otherwise every write of the attempt is taken back, and
    /// the state is what it was.
    pub fn add_node_to_cycle_succ(&mut self, node: usize, cycle_idx: usize) -> (ok: bool)
        requires
            old(self).wf(),
            old(self)@.can_extend(node, cycle_idx as int),
        ensures
            ok == edge_disjoint(
                old(self)@.n,
                push_label(old(self)@.cycles, cycle_idx as int, node),
            ),
            final(self).wf(),
            final(self)@.n == old(self)@.n,
            final(self)@.solutions == old(self)@.solutions,
            ok ==> final(self)@.cycles == push_label(old(self)@.cycles, cycle_idx as int, node),
            ok ==> final(self)@.used == old(self)@.used_with(node, true),
            !ok ==> final(self)@ == old(self)@,
    {
        let ghost n = self.num_nodes as int;
        let ghost k = quarter(n);
        let ghost slot = cycle_idx as int;
        let ghost before = self@;
        let ghost next = push_label(before.cycles, slot, node);
        proof {
            lemma_table_disjoint_iff(n, before.cycles, before.table);
            lemma_push_ok(n, before.cycles, slot, node);
            lemma_occurs_partner(n, before.cycles, node as int);
        }
        self.perm_cycles[cycle_idx].push(node);
        self.set_used(node);
        let mut changed_values = UndoLog { slots: Vec::new(), edges: Vec::new() };
        let curr_cycl_len = self.perm_cycles[cycle_idx].len();
        let mut it: usize = 0;
        proof {
            reveal(consistent_at_start);
            assert(next[slot].drop_last() =~= before.cycles[slot]);
            assert(pop_label(next, slot) =~= before.cycles);
            assert forall|c: int, x: int, y: usize|
                0 <= c < before.table.len() && 0 <= x < n implies (before.table[c][x] == Some(y))
                == #[trigger] partial_entry(n, next, slot, 0, 0, c, x, y as int) by {
                lemma_partial_none(n, next, slot, 0, c, x, y as int);
            }
        }
        while it < curr_cycl_len - 1
            invariant
                n == self.num_nodes,
                n >= 5,
                n <= usize::MAX,
                (n - 1) % 4 == 0,
                k == quarter(n),
                self.num_ham_cycles == k,
                slot == cycle_idx,
                0 <= slot < next.len(),
                before.cycles.len() == next.len(),
                next[slot] == before.cycles[slot].push(node),
                1 <= node < n,
                before == old(self)@,
                consistent_at_start(before),
                before.n == n,
                before.used.len() == n,
                table_shape(n, k + 1, before.table),
                !before.used[node as int],
                !before.used[n - node],
                next == push_label(before.cycles, slot, node),
                self.sol_found == old(self).sol_found,
                self@.cycles == next,
                curr_cycl_len == next[slot].len(),
                next[slot][curr_cycl_len - 1] == node,
                self.perm_used@ == before.used_with(node, true),
                assignment_ok(n, next),
                0 <= it <= curr_cycl_len - 1,
                self.table_consistent(),
                table_shape(n, k + 1, self@.table),
                table_partial(n, next, slot, 0, it as int, self@.table),
                undo_covers(
                    n,
                    before.table,
                    before.edges,
                    self@.table,
                    self@.edges,
                    changed_values,
                ),
            decreases curr_cycl_len - 1 - it,
        {
            proof {
                lemma_extend_round(n, next, slot, it as int, self@.table);
            }
            let curr_val = self.perm_cycles[cycle_idx][it];
            let forward = curr_cycl_len - 1 - it;
            let backward = self.num_ham_cycles + 1 + it - curr_cycl_len;
            let (ok, Ghost(done)) = self.set_pair(
                forward,
                backward,
                curr_val,
                node,
                &mut changed_values,
                Ghost(before.table),
                Ghost(before.edges),
            );
            if !ok {
                proof {
                    lemma_conflict_in_assignment(n, next, self@.table);
                }
                self.undo_extension(node, cycle_idx, &changed_values, Ghost(before));
                proof {
                    reveal(consistent_at_start);
                }
                return false;
            }
            it += 1;
        }
        proof {
            let table = self@.table;
            assert forall|c: int, x: int, y: usize|
                0 <= c < table.len() && 0 <= x < n implies (table[c][x] == Some(y))
                == #[trigger] entry(n, next, c, x, y as int) by {
                assert((table[c][x] == Some(y)) == partial_entry(
                    n,
                    next,
                    slot,
                    0,
                    it as int,
                    c,
                    x,
                    y as int,
                ));
            }
            lemma_table_disjoint_iff(n, next, table);
            assert forall|x: int| 0 <= x < n implies #[trigger] self@.used[x] == occurs(
                n,
                next,
                x,
            ) by {
                lemma_occurs_push(n, before.cycles, slot, node, x);
            }
        }
        true
    }

    /// Empties the four slots that one pair of labels implies, `curr_val`
    /// before `node`, and unmarks their edges.
    pub(crate) fn reset_pair(
        &mut self,
        forward: usize,
        backward: usize,
        curr_val: usize,
        node: usize,
    )
        requires
            old(self).table_consistent(),
            table_shape(
                old(self).num_nodes as int,
                quarter(old(self).num_nodes as int) + 1,
                old(self)@.table,
            ),
            1 <= forward < quarter(old(self).num_nodes as int),
            backward == quarter(old(self).num_nodes as int) - forward,
            1 <= curr_val < old(self).num_nodes,
            1 <= node < old(self).num_nodes,
        ensures
            final(self).same_assignment(old(self)),
            final(self).table_consistent(),
            final(self)@.table == four_slots(
                old(self)@.table,
                old(self).num_nodes as int,
                curr_val as int,
                node as int,
                forward as int,
                false,
            ),
    {
        let inv_val = self.inv(curr_val);
        let inv_node = self.inv(node);
        self.reset_ham_cycle(forward, curr_val);
        self.reset_ham_cycle(backward, node);
        self.reset_ham_cycle(forward, inv_val);
        self.reset_ham_cycle(backward, inv_node);
    }

    /// Takes `node`, the last label of sequence `cycle_idx`, away again:
    /// the exact inverse of the extension that put it there. The state is
    /// then the consistent state of the shorter assignment.
    pub fn remove_node_from_cycle(&mut self, node: usize, cycle_idx: usize)
        requires
            old(self).wf(),
            old(self)@.can_retract(node, cycle_idx as int),
        ensures
            final(self).wf(),
            final(self)@.n == old(self)@.n,
            final(self)@.solutions == old(self)@.solutions,
            final(self)@.cycles == pop_label(old(self)@.cycles, cycle_idx as int),
            final(self)@.used == old(self)@.used_with(node, false),
    {
        let ghost n = self.num_nodes as int;
        let ghost k = quarter(n);
        let ghost slot = cycle_idx as int;
        let ghost before = self@;
        let ghost cycles = before.cycles;
        let ghost short = pop_label(cycles, slot);
        proof {
            lemma_table_disjoint_iff(n, cycles, before.table);
            lemma_pop_ok(n, cycles, slot);
            assert forall|c: int, x: int, y: usize|
                0 <= c < before.table.len() && 0 <= x < n implies (before.table[c][x] == Some(y))
                == #[trigger] partial_entry(
                n,
                cycles,
                slot,
                0,
                cycles[slot].len() - 1,
                c,
                x,
                y as int,
            ) by {
                lemma_partial_all(n, cycles, slot, c, x, y as int);
            }
        }
        let curr_cycl_len = self.perm_cycles[cycle_idx].len();
        let mut it: usize = 0;
        while it < curr_cycl_len - 1
            invariant
                n == self.num_nodes,
                n <= usize::MAX,
                (n - 1) % 4 == 0,
                k == quarter(n),
                self.num_ham_cycles == k,
                slot == cycle_idx,
                0 <= slot < cycles.len(),
                1 <= node < n,
                before == old(self)@,
                cycles == before.cycles,
                self.perm_cycles == old(self).perm_cycles,
                self.perm_used == old(self).perm_used,
                self.sol_found == old(self).sol_found,
                curr_cycl_len == cycles[slot].len(),
                curr_cycl_len >= 1,
                cycles[slot][curr_cycl_len - 1] == node,
                assignment_ok(n, cycles),
                0 <= it <= curr_cycl_len - 1,
                curr_cycl_len > 1 ==> self.table_consistent(),
                table_shape(n, k + 1, self@.table),
                matrix_shape(n, self@.edges),
                edges_are(n, self@.table, self@.edges),
                table_disjoint(n, self@.table),
                table_partial(n, cycles, slot, it as int, curr_cycl_len - 1, self@.table),
            decreases curr_cycl_len - 1 - it,
        {
            proof {
                lemma_pair_toggle(
                    n,
                    cycles,
                    slot,
                    it as int,
                    curr_cycl_len - 1,
                    it + 1,
                    curr_cycl_len - 1,
                    it as int,
                    self@.table,
                    false,
                );
            }
            let curr_val = self.perm_cycles[cycle_idx][it];
            let forward = curr_cycl_len - 1 - it;
            let backward = self.num_ham_cycles + 1 + it - curr_cycl_len;
            self.reset_pair(forward, backward, curr_val, node);
            it += 1;
        }
        self.perm_cycles[cycle_idx].pop();
        self.set_unused(node);
        proof {
            let table = self@.table;
            assert(self@.cycles =~= short);
            assert forall|c: int, x: int, y: usize|
                0 <= c < table.len() && 0 <= x < n implies (table[c][x] == Some(y))
                == #[trigger] entry(n, short, c, x, y as int) by {
                lemma_partial_none(n, cycles, slot, curr_cycl_len - 1, c, x, y as int);
            }
            assert(push_label(short, slot, node) =~= cycles) by {
                assert(short[slot].push(node) =~= cycles[slot]);
            }
            assert forall|x: int| 0 <= x < n implies #[trigger] self@.used[x] == occurs(
                n,
                short,
                x,
            ) by {
                lemma_occurs_push(n, short, slot, node, x);
                if x == node || x + node == n {
                    lemma_occurs_pop(n, cycles, slot, x);
                }
            }
        }
    }
}

/// Once the last label of a sequence is taken away, neither it nor its
/// partner occurs any more.
pub proof fn lemma_occurs_pop(n: int, cycles: Seq<Seq<usize>>, slot: int, x: int)
    requires
        assignment_ok(n, cycles),
        0 <= slot < cycles.len(),
        cycles[slot].len() >= 1,
        x == cycles[slot][cycles[slot].len() - 1] || x + cycles[slot][cycles[slot].len() - 1] == n,
    ensures
        !occurs(n, pop_label(cycles, slot), x),
{
    let short = pop_label(cycles, slot);
    let last = cycles[slot].len() - 1;
    if occurs(n, short, x) {
        let (s, i) = choose|s: int, i: int|
            0 <= s < short.len() && 0 <= i < short[s].len() && (#[trigger] short[s][i] == x
                || short[s][i] + x == n);
        assert(short[s][i] == cycles[s][i]);
        assert(cycles[s][i] + cycles[slot][last] != n);
        assert(cycles[s][i] == cycles[slot][last] ==> s == slot && i == last);
    }
}

/// Consistency of a state, kept closed while a transaction is under way.
#[verifier::opaque]
pub open spec fn consistent_at_start(state: SearchState) -> bool {
    state.wf()
}

/// A label occurs exactly if its partner does.
pub proof fn lemma_occurs_partner(n: int, cycles: Seq<Seq<usize>>, x: int)
    ensures
        occurs(n, cycles, x) == occurs(n, cycles, n - x),
{
    if occurs(n, cycles, x) {
        let (s, i) = choose|s: int, i: int|
            0 <= s < cycles.len() && 0 <= i < cycles[s].len() && (#[trigger] cycles[s][i] == x
                || cycles[s][i] + x == n);
        assert(cycles[s][i] == n - x || cycles[s][i] + (n - x) == n);
    }
    if occurs(n, cycles, n - x) {
        let (s, i) = choose|s: int, i: int|
            0 <= s < cycles.len() && 0 <= i < cycles[s].len() && (#[trigger] cycles[s][i] == n - x
                || cycles[s][i] + (n - x) == n);
        assert(cycles[s][i] == x || cycles[s][i] + x == n);
    }
}

} // verus!
