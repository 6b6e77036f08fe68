use vstd::prelude::*;
use crate::model::{edges_are, matrix_shape, table_disjoint, table_shape, table_values_bounded};
use crate::state::CyclePermuter;
use crate::table_proofs::{
    lemma_grown_symmetric, lemma_log_step, lemma_mark_step, lemma_reset_complete, lemma_unmark_step,
    lemma_write_complete, lemma_write_conflict,
};

verus! {

/// The column that lies `q` steps round the row from column `x`, in the order
/// in which a write looks at them: two back, one back, one on, two on.
pub open spec fn neighbor_of(n: int, x: int, q: int) -> int {
    if q == 0 {
        if x >= 2 {
            x - 2
        } else {
            x + n - 2
        }
    } else if q == 1 {
        if x >= 1 {
            x - 1
        } else {
            n - 1
        }
    } else if q == 2 {
        if x + 1 < n {
            x + 1
        } else {
            0
        }
    } else {
        if x + 2 < n {
            x + 2
        } else {
            x + 2 - n
        }
    }
}

/// The table after `value` was put in row `c`, column `x`.
pub open spec fn with_slot(
    table: Seq<Seq<Option<usize>>>,
    c: int,
    x: int,
    value: Option<usize>,
) -> Seq<Seq<Option<usize>>> {
    table.update(c, table[c].update(x, value))
}

/// The `q`-th neighbour of column `x` in row `c` holds `nv`, and `(a, b)` is
/// the edge between `nv` and `val`, in one direction or the other.
pub open spec fn neighbor_edge(
    n: int,
    table: Seq<Seq<Option<usize>>>,
    c: int,
    x: int,
    val: usize,
    q: int,
    a: usize,
    b: usize,
) -> bool {
    let cell = table[c][neighbor_of(n, x, q)];
    cell.is_some() && ((a == cell.unwrap() && b == val) || (a == val && b == cell.unwrap()))
}

/// One of the first `upto` neighbours of column `x` gives the edge `(a, b)`.
pub open spec fn neighbor_edge_before(
    n: int,
    table: Seq<Seq<Option<usize>>>,
    c: int,
    x: int,
    val: usize,
    upto: int,
    a: usize,
    b: usize,
) -> bool {
    exists|q: int| 0 <= q < upto && neighbor_edge(n, table, c, x, val, q, a, b)
}

/// What was written since a transaction began, so that it can be taken back.
pub struct UndoLog {
    /// The table slots written, as (row, column).
    pub slots: Vec<(usize, usize)>,
    /// The edges marked, each in the direction in which it was found.
    pub edges: Vec<(usize, usize)>,
}

/// The log names the slot `(c, x)` at or after position `from`.
pub open spec fn slot_logged(slots: Seq<(usize, usize)>, from: int, c: int, x: int) -> bool {
    exists|t: int| from <= t < slots.len() && (#[trigger] slots[t]).0 == c && slots[t].1 == x
}

/// The log names the edge between `a` and `b` at or after position `from`.
pub open spec fn edge_logged(edges: Seq<(usize, usize)>, from: int, a: int, b: int) -> bool {
    exists|t: int|
        from <= t < edges.len() && (((#[trigger] edges[t]).0 == a && edges[t].1 == b) || (
        edges[t].0 == b && edges[t].1 == a))
}

/// Every logged slot was empty, and every logged edge unmarked, when the
/// transaction began.
pub open spec fn log_fresh(
    n: int,
    base_table: Seq<Seq<Option<usize>>>,
    base_edges: Seq<Seq<bool>>,
    log: UndoLog,
) -> bool {
    &&& forall|t: int|
        0 <= t < log.slots@.len() ==> {
            &&& (#[trigger] log.slots@[t]).0 < base_table.len()
            &&& log.slots@[t].1 < n
            &&& base_table[log.slots@[t].0 as int][log.slots@[t].1 as int].is_none()
        }
    &&& forall|t: int|
        0 <= t < log.edges@.len() ==> {
            &&& (#[trigger] log.edges@[t]).0 < n
            &&& log.edges@[t].1 < n
            &&& !base_edges[log.edges@[t].0 as int][log.edges@[t].1 as int]
            &&& !base_edges[log.edges@[t].1 as int][log.edges@[t].0 as int]
        }
}

/// The table and the matrix differ from what they were when the transaction
/// began only where the log, from the given positions on, says so.
pub open spec fn differs_where_logged(
    n: int,
    base_table: Seq<Seq<Option<usize>>>,
    base_edges: Seq<Seq<bool>>,
    table: Seq<Seq<Option<usize>>>,
    edges: Seq<Seq<bool>>,
    log: UndoLog,
    slots_from: int,
    edges_from: int,
) -> bool {
    &&& table_shape(n, base_table.len() as int, base_table)
    &&& table_shape(n, base_table.len() as int, table)
    &&& matrix_shape(n, base_edges)
    &&& matrix_shape(n, edges)
    &&& forall|c: int, x: int|
        0 <= c < table.len() && 0 <= x < n && #[trigger] table[c][x] != base_table[c][x]
            ==> slot_logged(log.slots@, slots_from, c, x)
    &&& forall|a: int, b: int|
        0 <= a < n && 0 <= b < n && #[trigger] edges[a][b] != base_edges[a][b] ==> edge_logged(
            log.edges@,
            edges_from,
            a,
            b,
        )
}

/// The log suffices to restore the table and the matrix of the transaction's
/// beginning.
pub open spec fn undo_covers(
    n: int,
    base_table: Seq<Seq<Option<usize>>>,
    base_edges: Seq<Seq<bool>>,
    table: Seq<Seq<Option<usize>>>,
    edges: Seq<Seq<bool>>,
    log: UndoLog,
) -> bool {
    &&& log_fresh(n, base_table, base_edges, log)
    &&& differs_where_logged(n, base_table, base_edges, table, edges, log, 0, 0)
}

/// The index among the neighbours of column `x` at which column `j` stands.
pub open spec fn neighbor_index(n: int, x: int, j: int) -> int {
    if j == neighbor_of(n, x, 0) {
        0
    } else if j == neighbor_of(n, x, 1) {
        1
    } else if j == neighbor_of(n, x, 2) {
        2
    } else {
        3
    }
}

/// The neighbours of column `x` before the `upto`-th hold pairwise different
/// labels, none of which has an edge with `val` marked in `edges`.
pub open spec fn neighbors_fresh(
    n: int,
    table: Seq<Seq<Option<usize>>>,
    edges: Seq<Seq<bool>>,
    c: int,
    x: int,
    val: usize,
    upto: int,
) -> bool {
    forall|q1: int, q2: int|
        0 <= q1 < upto && 0 <= q2 <= q1 && (#[trigger] table[c][neighbor_of(n, x, q1)]).is_some()
            ==> {
            let nv = table[c][neighbor_of(n, x, q1)].unwrap();
            &&& !edges[nv as int][val as int]
            &&& q2 < q1 ==> #[trigger] table[c][neighbor_of(n, x, q2)] != Some(nv)
        }
}

/// The matrix `after` is `before` with the edges to the first `upto`
/// neighbours of column `x` added.
pub open spec fn edges_grown(
    n: int,
    table: Seq<Seq<Option<usize>>>,
    before: Seq<Seq<bool>>,
    after: Seq<Seq<bool>>,
    c: int,
    x: int,
    val: usize,
    upto: int,
) -> bool {
    forall|a: usize, b: usize|
        0 <= a < n && 0 <= b < n ==> #[trigger] after[a as int][b as int] == (before[a as int][b as int]
            || neighbor_edge_before(n, table, c, x, val, upto, a, b))
}

/// The matrix `after` is `before` without the edges to the first `upto`
/// neighbours of column `x`.
pub open spec fn edges_shrunk(
    n: int,
    table: Seq<Seq<Option<usize>>>,
    before: Seq<Seq<bool>>,
    after: Seq<Seq<bool>>,
    c: int,
    x: int,
    val: usize,
    upto: int,
) -> bool {
    forall|a: usize, b: usize|
        0 <= a < n && 0 <= b < n ==> #[trigger] after[a as int][b as int] == (before[a as int][b as int]
            && !neighbor_edge_before(n, table, c, x, val, upto, a, b))
}

/// The column `q` steps round the row from `x`.
fn neighbor(n: usize, x: usize, q: usize) -> (p: usize)
    requires
        n >= 5,
        x < n,
        q < 4,
    ensures
        p == neighbor_of(n as int, x as int, q as int),
        p < n,
{
    if q == 0 {
        if x >= 2 {
            x - 2
        } else {
            x + (n - 2)
        }
    } else if q == 1 {
        if x >= 1 {
            x - 1
        } else {
            n - 1
        }
    } else if q == 2 {
        if x + 1 < n {
            x + 1
        } else {
            0
        }
    } else {
        if x < n - 2 {
            x + 2
        } else {
            x - (n - 2)
        }
    }
}

impl CyclePermuter {
    /// Everything but the table and the edge matrix is the same in both.
    pub open(crate) spec fn same_assignment(&self, other: &CyclePermuter) -> bool {
        &&& self.num_nodes == other.num_nodes
        &&& self.num_ham_cycles == other.num_ham_cycles
        &&& self.perm_cycles == other.perm_cycles
        &&& self.perm_used == other.perm_used
        &&& self.sol_found == other.sol_found
    }

    /// The table and the matrix have their shapes, and the matrix marks what
    /// the table claims, each edge once.
    pub open(crate) spec fn table_consistent(&self) -> bool {
        &&& self.num_nodes >= 5
        &&& table_shape(self.num_nodes as int, self@.table.len() as int, self@.table)
        &&& table_values_bounded(self.num_nodes as int, self@.table)
        &&& matrix_shape(self.num_nodes as int, self@.edges)
        &&& edges_are(self.num_nodes as int, self@.table, self@.edges)
        &&& table_disjoint(self.num_nodes as int, self@.table)
    }

    /// Puts `val` into the empty slot of row `cycle_idx`, column `node_idx`,
    /// and marks the edge between `val` and the label of each filled
    /// neighbour. It stops at the first such edge that is already marked and
    /// returns `false`; everything it has written by then is in the log.
    pub(crate) fn set_ham_cycle_succ(
        &mut self,
        cycle_idx: usize,
        node_idx: usize,
        val: usize,
        changed_vals: &mut UndoLog,
        Ghost(base_table): Ghost<Seq<Seq<Option<usize>>>>,
        Ghost(base_edges): Ghost<Seq<Seq<bool>>>,
    ) -> (ok: bool)
        requires
            old(self).table_consistent(),
            cycle_idx < old(self)@.table.len(),
            node_idx < old(self).num_nodes,
            val < old(self).num_nodes,
            old(self)@.table[cycle_idx as int][node_idx as int].is_none(),
            undo_covers(
                old(self).num_nodes as int,
                base_table,
                base_edges,
                old(self)@.table,
                old(self)@.edges,
                *old(changed_vals),
            ),
        ensures
            final(self).same_assignment(old(self)),
            final(self)@.table == with_slot(
                old(self)@.table,
                cycle_idx as int,
                node_idx as int,
                Some(val),
            ),
            ok == table_disjoint(final(self).num_nodes as int, final(self)@.table),
            ok ==> final(self).table_consistent(),
            undo_covers(
                final(self).num_nodes as int,
                base_table,
                base_edges,
                final(self)@.table,
                final(self)@.edges,
                *final(changed_vals),
            ),
    {
        let ghost n = self.num_nodes as int;
        let ghost c = cycle_idx as int;
        let ghost x = node_idx as int;
        let ghost table = self@.table;
        let ghost before = self@.edges;
        let ghost grown = with_slot(table, c, x, Some(val));
        self.ham_cycles[cycle_idx][node_idx] = Some(val);
        changed_vals.slots.push((cycle_idx, node_idx));
        proof {
            assert(changed_vals.slots@[old(changed_vals).slots@.len() as int] == (
                cycle_idx,
                node_idx,
            ));
            assert forall|c1: int, x1: int|
                0 <= c1 < grown.len() && 0 <= x1 < n && #[trigger] grown[c1][x1]
                    != base_table[c1][x1] implies slot_logged(changed_vals.slots@, 0, c1, x1) by {
                if !(c1 == c && x1 == x) {
                    let t = choose|t: int|
                        0 <= t < old(changed_vals).slots@.len() && (#[trigger] old(
                            changed_vals,
                        ).slots@[t]).0 == c1 && old(changed_vals).slots@[t].1 == x1;
                    assert(changed_vals.slots@[t] == old(changed_vals).slots@[t]);
                }
            }
        }
        let mut q: usize = 0;
        while q < 4
            invariant
                0 <= q <= 4,
                n == self.num_nodes,
                n >= 5,
                c == cycle_idx,
                x == node_idx,
                0 <= c < table.len(),
                0 <= x < n,
                val < n,
                table[c][x].is_none(),
                table == old(self)@.table,
                grown == with_slot(table, c, x, Some(val)),
                table_shape(n, table.len() as int, table),
                table_values_bounded(n, table),
                matrix_shape(n, before),
                edges_are(n, table, before),
                table_disjoint(n, table),
                self.same_assignment(old(self)),
                self@.table == grown,
                edges_grown(n, table, before, self@.edges, c, x, val, q as int),
                neighbors_fresh(n, table, before, c, x, val, q as int),
                log_fresh(n, base_table, base_edges, *changed_vals),
                differs_where_logged(
                    n,
                    base_table,
                    base_edges,
                    self@.table,
                    self@.edges,
                    *changed_vals,
                    0,
                    0,
                ),
            decreases 4 - q,
        {
            let p = neighbor(self.num_nodes, node_idx, q);
            let ghost current = self@.edges;
            let ghost log_before = *changed_vals;
            proof {
                assert(grown[c][p as int] == table[c][p as int]);
            }
            match self.ham_cycles[cycle_idx][p] {
                Some(nv) => {
                    proof {
                        assert(self.used_edges@[nv as int]@ == self@.edges[nv as int]);
                    }
                    if self.used_edges[nv][val] {
                        proof {
                            lemma_write_conflict(n, table, before, c, x, val, q as int, nv);
                        }
                        return false;
                    }
                    self.used_edges[nv][val] = true;
                    let ghost half = self@.edges;
                    proof {
                        assert forall|a: int| 0 <= a < n implies (#[trigger] half[a])
                            =~= if a == nv {
                            current[a].update(val as int, true)
                        } else {
                            current[a]
                        } by {}
                        lemma_grown_symmetric(n, table, before, current, c, x, val, q as int, nv, val);
                    }
                    self.used_edges[val][nv] = true;
                    changed_vals.edges.push((nv, val));
                    proof {
                        assert forall|a: int| 0 <= a < n implies (#[trigger] self@.edges[a])
                            =~= if a == val {
                            half[a].update(nv as int, true)
                        } else {
                            half[a]
                        } by {}
                        lemma_mark_step(
                            n,
                            table,
                            before,
                            current,
                            self@.edges,
                            c,
                            x,
                            val,
                            q as int,
                            nv,
                        );
                        lemma_log_step(
                            n,
                            base_table,
                            base_edges,
                            grown,
                            current,
                            self@.edges,
                            log_before,
                            *changed_vals,
                            nv,
                            val,
                        );
                    }
                },
                None => {},
            }
            q += 1;
        }
        proof {
            lemma_write_complete(n, table, before, self@.edges, c, x, val);
        }
        true
    }

    /// Takes back everything that the log names: empties the logged slots and
    /// unmarks the logged edges, which restores the table and the matrix of
    /// the transaction's beginning.
    pub(crate) fn reset_ham_cycle_from_changed_vals(
        &mut self,
        changed_vals: &UndoLog,
        Ghost(base_table): Ghost<Seq<Seq<Option<usize>>>>,
        Ghost(base_edges): Ghost<Seq<Seq<bool>>>,
    )
        requires
            undo_covers(
                old(self).num_nodes as int,
                base_table,
                base_edges,
                old(self)@.table,
                old(self)@.edges,
                *changed_vals,
            ),
        ensures
            final(self).same_assignment(old(self)),
            final(self)@.table == base_table,
            final(self)@.edges == base_edges,
    {
        let ghost n = self.num_nodes as int;
        let mut i: usize = 0;
        while i < changed_vals.slots.len()
            invariant
                0 <= i <= changed_vals.slots@.len(),
                n == self.num_nodes,
                self.same_assignment(old(self)),
                log_fresh(n, base_table, base_edges, *changed_vals),
                differs_where_logged(
                    n,
                    base_table,
                    base_edges,
                    self@.table,
                    self@.edges,
                    *changed_vals,
                    i as int,
                    0,
                ),
            decreases changed_vals.slots@.len() - i,
        {
            let slot = changed_vals.slots[i];
            let ghost table = self@.table;
            proof {
                assert(self.ham_cycles@[slot.0 as int]@ == table[slot.0 as int]);
            }
            self.ham_cycles[slot.0][slot.1] = None;
            proof {
                assert(self@.table =~= with_slot(table, slot.0 as int, slot.1 as int, None));
            }
            i += 1;
        }
        let mut j: usize = 0;
        while j < changed_vals.edges.len()
            invariant
                0 <= j <= changed_vals.edges@.len(),
                n == self.num_nodes,
                self.same_assignment(old(self)),
                log_fresh(n, base_table, base_edges, *changed_vals),
                differs_where_logged(
                    n,
                    base_table,
                    base_edges,
                    self@.table,
                    self@.edges,
                    *changed_vals,
                    changed_vals.slots@.len() as int,
                    j as int,
                ),
            decreases changed_vals.edges@.len() - j,
        {
            let edge = changed_vals.edges[j];
            let ghost edges = self@.edges;
            proof {
                assert(self.used_edges@[edge.0 as int]@ == edges[edge.0 as int]);
                assert(self.used_edges@[edge.1 as int]@ == edges[edge.1 as int]);
            }
            self.used_edges[edge.0][edge.1] = false;
            let ghost half = self@.edges;
            proof {
                assert forall|a: int| 0 <= a < n implies (#[trigger] half[a]) =~= if a == edge.0 {
                    edges[a].update(edge.1 as int, false)
                } else {
                    edges[a]
                } by {}
            }
            self.used_edges[edge.1][edge.0] = false;
            proof {
                assert forall|a: int| 0 <= a < n implies (#[trigger] self@.edges[a]) =~= if a
                    == edge.1 {
                    half[a].update(edge.0 as int, false)
                } else {
                    half[a]
                } by {}
            }
            j += 1;
        }
        proof {
            assert forall|c: int| 0 <= c < base_table.len() implies #[trigger] self@.table[c]
                =~= base_table[c] by {}
            assert forall|a: int| 0 <= a < n implies #[trigger] self@.edges[a] =~= base_edges[a] by {}
        }
    }

    /// Empties row `cycle_idx`, column `node_idx`, and unmarks the edge
    /// between the label that stood there and the label of each filled
    /// neighbour. An empty slot is left as it is.
    pub(crate) fn reset_ham_cycle(&mut self, cycle_idx: usize, node_idx: usize)
        requires
            old(self).table_consistent(),
            cycle_idx < old(self)@.table.len(),
            node_idx < old(self).num_nodes,
        ensures
            final(self).same_assignment(old(self)),
            final(self)@.table == with_slot(
                old(self)@.table,
                cycle_idx as int,
                node_idx as int,
                None,
            ),
            final(self).table_consistent(),
    {
        let ghost n = self.num_nodes as int;
        let ghost c = cycle_idx as int;
        let ghost x = node_idx as int;
        let ghost full = self@.table;
        let ghost before = self@.edges;
        let ghost table = with_slot(full, c, x, None);
        let curr_val: usize = match self.ham_cycles[cycle_idx][node_idx] {
            None => {
                proof {
                    assert(full[c].update(x, None) =~= full[c]);
                }
                return ;
            },
            Some(v) => v,
        };
        self.ham_cycles[cycle_idx][node_idx] = None;
        proof {
            assert(table[c].update(x, Some(curr_val)) =~= full[c]);
        }
        let mut q: usize = 0;
        while q < 4
            invariant
                0 <= q <= 4,
                n == self.num_nodes,
                n >= 5,
                c == cycle_idx,
                x == node_idx,
                0 <= c < table.len(),
                0 <= x < n,
                curr_val < n,
                table[c][x].is_none(),
                full == old(self)@.table,
                table == with_slot(full, c, x, None),
                full == with_slot(table, c, x, Some(curr_val)),
                table_shape(n, table.len() as int, table),
                table_values_bounded(n, table),
                matrix_shape(n, before),
                matrix_shape(n, self@.edges),
                self.same_assignment(old(self)),
                self@.table == table,
                edges_shrunk(n, table, before, self@.edges, c, x, curr_val, q as int),
            decreases 4 - q,
        {
            let p = neighbor(self.num_nodes, node_idx, q);
            let ghost current = self@.edges;
            match self.ham_cycles[cycle_idx][p] {
                Some(nv) => {
                    proof {
                        assert(self.used_edges@[nv as int]@ == self@.edges[nv as int]);
                        assert(self.used_edges@[curr_val as int]@ == self@.edges[curr_val as int]);
                    }
                    self.used_edges[nv][curr_val] = false;
                    let ghost half = self@.edges;
                    proof {
                        assert forall|a: int| 0 <= a < n implies (#[trigger] half[a]) =~= if a
                            == nv {
                            current[a].update(curr_val as int, false)
                        } else {
                            current[a]
                        } by {}
                    }
                    self.used_edges[curr_val][nv] = false;
                    proof {
                        assert forall|a: int| 0 <= a < n implies (#[trigger] self@.edges[a])
                            =~= if a == curr_val {
                            half[a].update(nv as int, false)
                        } else {
                            half[a]
                        } by {}
                        lemma_unmark_step(
                            n,
                            table,
                            before,
                            current,
                            self@.edges,
                            c,
                            x,
                            curr_val,
                            q as int,
                            Some(nv),
                        );
                    }
                },
                None => {},
            }
            q += 1;
        }
        proof {
            lemma_reset_complete(n, table, before, self@.edges, c, x, curr_val);
        }
    }
}

} // verus!
