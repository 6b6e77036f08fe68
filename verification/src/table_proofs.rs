use vstd::prelude::*;
use crate::model::{
    adjacent, edge_claimed, edges_are, matrix_shape, table_claims, table_disjoint, table_shape,
    table_values_bounded,
};
use crate::table::{
    differs_where_logged, edge_logged, edges_grown, edges_shrunk, log_fresh, neighbor_edge,
    neighbor_edge_before, neighbor_index, neighbor_of, neighbors_fresh, UndoLog, with_slot,
};

verus! {

/// The four neighbours of a column are distinct columns adjacent to it.
pub proof fn lemma_neighbors(n: int, x: int)
    requires
        n >= 5,
        0 <= x < n,
    ensures
        forall|q: int|
            0 <= q < 4 ==> {
                &&& adjacent(n, x, #[trigger] neighbor_of(n, x, q))
                &&& adjacent(n, neighbor_of(n, x, q), x)
                &&& neighbor_of(n, x, q) != x
                &&& 0 <= neighbor_of(n, x, q) < n
            },
        forall|q1: int, q2: int|
            0 <= q1 < 4 && 0 <= q2 < 4 && q1 != q2 ==> #[trigger] neighbor_of(n, x, q1)
                != #[trigger] neighbor_of(n, x, q2),
{
}

/// Every column adjacent to a column is one of its four neighbours.
pub proof fn lemma_adjacent_is_neighbor(n: int, x: int, j: int)
    requires
        n >= 5,
        0 <= x < n,
        adjacent(n, x, j) || adjacent(n, j, x),
    ensures
        0 <= neighbor_index(n, x, j) < 4,
        neighbor_of(n, x, neighbor_index(n, x, j)) == j,
        adjacent(n, x, j),
        adjacent(n, j, x),
{
}

/// How the claims of a table change when a value is put into an empty slot:
/// the old claims stay, and the new value claims an edge with each filled
/// neighbour, in both directions.
pub proof fn lemma_claims_with_slot(
    n: int,
    table: Seq<Seq<Option<usize>>>,
    c: int,
    x: int,
    val: usize,
    c1: int,
    i: int,
    j: int,
    a: usize,
    b: usize,
)
    requires
        n >= 5,
        table_shape(n, table.len() as int, table),
        0 <= c < table.len(),
        0 <= x < n,
        table[c][x].is_none(),
    ensures
        table_claims(n, with_slot(table, c, x, Some(val)), c1, i, j, a, b) == (table_claims(
            n,
            table,
            c1,
            i,
            j,
            a,
            b,
        ) || (c1 == c && i == x && a == val && adjacent(n, x, j) && table[c][j] == Some(b)) || (c1
            == c && j == x && b == val && adjacent(n, i, x) && table[c][i] == Some(a))),
{
    let after = with_slot(table, c, x, Some(val));
    assert(!adjacent(n, x, x));
    if 0 <= c1 < table.len() && adjacent(n, i, j) {
        if c1 == c {
            assert(after[c1][i] == if i == x {
                Some(val)
            } else {
                table[c][i]
            });
            assert(after[c1][j] == if j == x {
                Some(val)
            } else {
                table[c][j]
            });
        } else {
            assert(after[c1] == table[c1]);
        }
    }
}

/// A write whose value already has a marked edge with a neighbour, or meets
/// the same label at two neighbours, leaves a table that claims an edge twice.
pub proof fn lemma_write_conflict(
    n: int,
    table: Seq<Seq<Option<usize>>>,
    edges: Seq<Seq<bool>>,
    c: int,
    x: int,
    val: usize,
    q: int,
    nv: usize,
)
    requires
        n >= 5,
        table_shape(n, table.len() as int, table),
        table_values_bounded(n, table),
        matrix_shape(n, edges),
        edges_are(n, table, edges),
        0 <= c < table.len(),
        0 <= x < n,
        val < n,
        table[c][x].is_none(),
        0 <= q < 4,
        table[c][neighbor_of(n, x, q)] == Some(nv),
        edges[nv as int][val as int] || exists|q1: int|
            0 <= q1 < q && #[trigger] table[c][neighbor_of(n, x, q1)] == Some(nv),
    ensures
        !table_disjoint(n, with_slot(table, c, x, Some(val))),
{
    let p = neighbor_of(n, x, q);
    lemma_claims_with_slot(n, table, c, x, val, c, p, x, nv, val);
    if edges[nv as int][val as int] {
        let (c1, i1, j1) = choose|c1: int, i1: int, j1: int|
            table_claims(n, table, c1, i1, j1, nv, val);
        lemma_claims_with_slot(n, table, c, x, val, c1, i1, j1, nv, val);
    } else {
        let q1 = choose|q1: int|
            0 <= q1 < q && #[trigger] table[c][neighbor_of(n, x, q1)] == Some(nv);
        let p1 = neighbor_of(n, x, q1);
        lemma_claims_with_slot(n, table, c, x, val, c, p1, x, nv, val);
    }
}

/// A write that found no conflict at any of its four neighbours leaves a
/// table that claims no edge twice, and a matrix that marks its claims.
pub proof fn lemma_write_complete(
    n: int,
    table: Seq<Seq<Option<usize>>>,
    before: Seq<Seq<bool>>,
    after: Seq<Seq<bool>>,
    c: int,
    x: int,
    val: usize,
)
    requires
        n >= 5,
        table_shape(n, table.len() as int, table),
        table_values_bounded(n, table),
        matrix_shape(n, before),
        matrix_shape(n, after),
        edges_are(n, table, before),
        table_disjoint(n, table),
        0 <= c < table.len(),
        0 <= x < n,
        val < n,
        table[c][x].is_none(),
        edges_grown(n, table, before, after, c, x, val, 4),
        neighbors_fresh(n, table, before, c, x, val, 4),
    ensures
        table_disjoint(n, with_slot(table, c, x, Some(val))),
        edges_are(n, with_slot(table, c, x, Some(val)), after),
{
    let grown = with_slot(table, c, x, Some(val));
    assert forall|c1: int, i1: int, j1: int, c2: int, i2: int, j2: int, a: usize, b: usize|
        #![trigger table_claims(n, grown, c1, i1, j1, a, b), table_claims(n, grown, c2, i2, j2, a, b)]
        table_claims(n, grown, c1, i1, j1, a, b) && table_claims(
            n,
            grown,
            c2,
            i2,
            j2,
            a,
            b,
        ) implies c1 == c2 && ((i1 == i2 && j1 == j2) || (i1 == j2 && j1 == i2)) by {
        lemma_claims_with_slot(n, table, c, x, val, c1, i1, j1, a, b);
        lemma_claims_with_slot(n, table, c, x, val, c2, i2, j2, a, b);
        lemma_fresh_edge_unclaimed(n, table, before, c, x, val, a, b);
    }
    assert forall|a: usize, b: usize| 0 <= a < n && 0 <= b < n implies #[trigger] after[a as int][b as int]
        == edge_claimed(n, grown, a, b) by {
        if edge_claimed(n, grown, a, b) {
            let (c1, i1, j1) = choose|c1: int, i1: int, j1: int|
                table_claims(n, grown, c1, i1, j1, a, b);
            if !table_claims(n, table, c1, i1, j1, a, b) {
                if i1 == x {
                    assert(neighbor_edge(n, table, c, x, val, neighbor_index(n, x, j1), a, b));
                } else {
                    assert(neighbor_edge(n, table, c, x, val, neighbor_index(n, x, i1), a, b));
                }
            }
        }
        if before[a as int][b as int] {
            let (c1, i1, j1) = choose|c1: int, i1: int, j1: int|
                table_claims(n, table, c1, i1, j1, a, b);
            lemma_claims_with_slot(n, table, c, x, val, c1, i1, j1, a, b);
        }
        if neighbor_edge_before(n, table, c, x, val, 4, a, b) {
            let q = choose|q: int| 0 <= q < 4 && neighbor_edge(n, table, c, x, val, q, a, b);
            let p = neighbor_of(n, x, q);
            let nv = table[c][p].unwrap();
            if a == nv && b == val {
                lemma_claims_with_slot(n, table, c, x, val, c, p, x, a, b);
            } else {
                lemma_claims_with_slot(n, table, c, x, val, c, x, p, a, b);
            }
        }
    }
}

/// Where the neighbours of column `x` are fresh, the table claims no edge
/// between `val` and a neighbour's label, and no two neighbours hold one
/// label.
pub proof fn lemma_fresh_edge_unclaimed(
    n: int,
    table: Seq<Seq<Option<usize>>>,
    edges: Seq<Seq<bool>>,
    c: int,
    x: int,
    val: usize,
    a: usize,
    b: usize,
)
    requires
        n >= 5,
        table_shape(n, table.len() as int, table),
        table_values_bounded(n, table),
        matrix_shape(n, edges),
        edges_are(n, table, edges),
        0 <= c < table.len(),
        0 <= x < n,
        val < n,
        neighbors_fresh(n, table, edges, c, x, val, 4),
    ensures
        forall|j: int|
            adjacent(n, x, j) && a == val && #[trigger] table[c][j] == Some(b) ==> !edge_claimed(
                n,
                table,
                a,
                b,
            ),
        forall|i: int|
            adjacent(n, i, x) && b == val && #[trigger] table[c][i] == Some(a) ==> !edge_claimed(
                n,
                table,
                a,
                b,
            ),
        forall|j1: int, j2: int|
            (adjacent(n, x, j1) || adjacent(n, j1, x)) && (adjacent(n, x, j2) || adjacent(n, j2, x))
                && (#[trigger] table[c][j1]).is_some() && table[c][j1] == #[trigger] table[c][j2]
                ==> j1 == j2,
{
    assert forall|j: int|
        adjacent(n, x, j) && a == val && #[trigger] table[c][j] == Some(b) implies !edge_claimed(
        n,
        table,
        a,
        b,
    ) by {
        lemma_adjacent_is_neighbor(n, x, j);
        if edge_claimed(n, table, a, b) {
            let (c1, i1, j1) = choose|c1: int, i1: int, j1: int|
                table_claims(n, table, c1, i1, j1, a, b);
            assert(table_claims(n, table, c1, j1, i1, b, a));
        }
    }
    assert forall|i: int|
        adjacent(n, i, x) && b == val && #[trigger] table[c][i] == Some(a) implies !edge_claimed(
        n,
        table,
        a,
        b,
    ) by {
        lemma_adjacent_is_neighbor(n, x, i);
    }
    assert forall|j1: int, j2: int|
        (adjacent(n, x, j1) || adjacent(n, j1, x)) && (adjacent(n, x, j2) || adjacent(n, j2, x))
            && (#[trigger] table[c][j1]).is_some() && table[c][j1] == #[trigger] table[c][j2] implies j1
        == j2 by {
        lemma_adjacent_is_neighbor(n, x, j1);
        lemma_adjacent_is_neighbor(n, x, j2);
        assert(table[c][neighbor_of(n, x, neighbor_index(n, x, j1))].is_some());
        assert(table[c][neighbor_of(n, x, neighbor_index(n, x, j2))].is_some());
    }
}

/// One step of unmarking: whether the `q`-th neighbour was empty, or held a
/// label whose edge with `val` was then unmarked in both directions, the
/// matrix has shrunk by the first `q + 1` neighbours.
pub proof fn lemma_unmark_step(
    n: int,
    table: Seq<Seq<Option<usize>>>,
    before: Seq<Seq<bool>>,
    current: Seq<Seq<bool>>,
    unmarked: Seq<Seq<bool>>,
    c: int,
    x: int,
    val: usize,
    q: int,
    cell: Option<usize>,
)
    requires
        n >= 5,
        0 <= c < table.len(),
        0 <= x < n,
        0 <= q < 4,
        val < n,
        table[c][neighbor_of(n, x, q)] == cell,
        cell.is_some() ==> cell.unwrap() < n,
        matrix_shape(n, before),
        matrix_shape(n, current),
        matrix_shape(n, unmarked),
        edges_shrunk(n, table, before, current, c, x, val, q),
        forall|a: int, b: int|
            0 <= a < n && 0 <= b < n ==> #[trigger] unmarked[a][b] == (current[a][b] && !(
            cell.is_some() && ((a == cell.unwrap() && b == val) || (a == val && b
                == cell.unwrap())))),
    ensures
        edges_shrunk(n, table, before, unmarked, c, x, val, q + 1),
{
    assert forall|a: usize, b: usize| 0 <= a < n && 0 <= b < n implies #[trigger] unmarked[a as int][b as int]
        == (before[a as int][b as int] && !neighbor_edge_before(n, table, c, x, val, q + 1, a, b)) by {
        if cell.is_some() && ((a == cell.unwrap() && b == val) || (a == val && b == cell.unwrap())) {
            assert(neighbor_edge(n, table, c, x, val, q, a, b));
        }
    }
}

/// Emptying a slot and unmarking the edges to all four of its neighbours
/// leaves a table that claims no edge twice, and a matrix that marks its
/// claims.
pub proof fn lemma_reset_complete(
    n: int,
    table: Seq<Seq<Option<usize>>>,
    before: Seq<Seq<bool>>,
    after: Seq<Seq<bool>>,
    c: int,
    x: int,
    val: usize,
)
    requires
        n >= 5,
        table_shape(n, table.len() as int, table),
        matrix_shape(n, before),
        matrix_shape(n, after),
        0 <= c < table.len(),
        0 <= x < n,
        val < n,
        table[c][x].is_none(),
        edges_are(n, with_slot(table, c, x, Some(val)), before),
        table_disjoint(n, with_slot(table, c, x, Some(val))),
        edges_shrunk(n, table, before, after, c, x, val, 4),
    ensures
        table_disjoint(n, table),
        edges_are(n, table, after),
{
    let full = with_slot(table, c, x, Some(val));
    assert forall|c1: int, i1: int, j1: int, c2: int, i2: int, j2: int, a: usize, b: usize|
        #![trigger table_claims(n, table, c1, i1, j1, a, b), table_claims(n, table, c2, i2, j2, a, b)]
        table_claims(n, table, c1, i1, j1, a, b) && table_claims(
            n,
            table,
            c2,
            i2,
            j2,
            a,
            b,
        ) implies c1 == c2 && ((i1 == i2 && j1 == j2) || (i1 == j2 && j1 == i2)) by {
        lemma_claims_with_slot(n, table, c, x, val, c1, i1, j1, a, b);
        lemma_claims_with_slot(n, table, c, x, val, c2, i2, j2, a, b);
    }
    assert forall|a: usize, b: usize| 0 <= a < n && 0 <= b < n implies #[trigger] after[a as int][b as int]
        == edge_claimed(n, table, a, b) by {
        if edge_claimed(n, table, a, b) {
            let (c1, i1, j1) = choose|c1: int, i1: int, j1: int|
                table_claims(n, table, c1, i1, j1, a, b);
            lemma_claims_with_slot(n, table, c, x, val, c1, i1, j1, a, b);
            if neighbor_edge_before(n, table, c, x, val, 4, a, b) {
                let q = choose|q: int| 0 <= q < 4 && neighbor_edge(n, table, c, x, val, q, a, b);
                let p = neighbor_of(n, x, q);
                let nv = table[c][p].unwrap();
                if a == nv && b == val {
                    lemma_claims_with_slot(n, table, c, x, val, c, p, x, a, b);
                } else {
                    lemma_claims_with_slot(n, table, c, x, val, c, x, p, a, b);
                }
            }
        }
        if after[a as int][b as int] {
            let (c1, i1, j1) = choose|c1: int, i1: int, j1: int|
                table_claims(n, full, c1, i1, j1, a, b);
            if !table_claims(n, table, c1, i1, j1, a, b) {
                if i1 == x {
                    assert(neighbor_edge(n, table, c, x, val, neighbor_index(n, x, j1), a, b));
                } else {
                    lemma_adjacent_is_neighbor(n, x, i1);
                    assert(neighbor_edge(n, table, c, x, val, neighbor_index(n, x, i1), a, b));
                }
            }
        }
    }
}

/// A matrix that marks the claims of a table, grown by edges to neighbours,
/// marks every edge in both directions.
pub proof fn lemma_grown_symmetric(
    n: int,
    table: Seq<Seq<Option<usize>>>,
    before: Seq<Seq<bool>>,
    current: Seq<Seq<bool>>,
    c: int,
    x: int,
    val: usize,
    q: int,
    a: usize,
    b: usize,
)
    requires
        a < n,
        b < n,
        edges_are(n, table, before),
        edges_grown(n, table, before, current, c, x, val, q),
    ensures
        current[a as int][b as int] == current[b as int][a as int],
{
    if edge_claimed(n, table, a, b) {
        let (c1, i1, j1) = choose|c1: int, i1: int, j1: int|
            table_claims(n, table, c1, i1, j1, a, b);
        assert(table_claims(n, table, c1, j1, i1, b, a));
    }
    if edge_claimed(n, table, b, a) {
        let (c1, i1, j1) = choose|c1: int, i1: int, j1: int|
            table_claims(n, table, c1, i1, j1, b, a);
        assert(table_claims(n, table, c1, j1, i1, a, b));
    }
    if neighbor_edge_before(n, table, c, x, val, q, a, b) {
        let q1 = choose|q1: int| 0 <= q1 < q && neighbor_edge(n, table, c, x, val, q1, a, b);
        assert(neighbor_edge(n, table, c, x, val, q1, b, a));
    }
    if neighbor_edge_before(n, table, c, x, val, q, b, a) {
        let q1 = choose|q1: int| 0 <= q1 < q && neighbor_edge(n, table, c, x, val, q1, b, a);
        assert(neighbor_edge(n, table, c, x, val, q1, a, b));
    }
}

/// One step of marking: after the edge between `val` and the label `nv` of the
/// `q`-th neighbour was found unmarked and then marked in both directions, the
/// matrix has grown by the first `q + 1` neighbours, all of them fresh.
pub proof fn lemma_mark_step(
    n: int,
    table: Seq<Seq<Option<usize>>>,
    before: Seq<Seq<bool>>,
    current: Seq<Seq<bool>>,
    marked: Seq<Seq<bool>>,
    c: int,
    x: int,
    val: usize,
    q: int,
    nv: usize,
)
    requires
        n >= 5,
        0 <= c < table.len(),
        0 <= x < n,
        0 <= q < 4,
        val < n,
        nv < n,
        table[c][neighbor_of(n, x, q)] == Some(nv),
        matrix_shape(n, before),
        matrix_shape(n, current),
        matrix_shape(n, marked),
        edges_grown(n, table, before, current, c, x, val, q),
        neighbors_fresh(n, table, before, c, x, val, q),
        !current[nv as int][val as int],
        forall|a: int, b: int|
            0 <= a < n && 0 <= b < n ==> #[trigger] marked[a][b] == (current[a][b] || (a == nv && b
                == val) || (a == val && b == nv)),
    ensures
        edges_grown(n, table, before, marked, c, x, val, q + 1),
        neighbors_fresh(n, table, before, c, x, val, q + 1),
{
    assert forall|a: usize, b: usize| 0 <= a < n && 0 <= b < n implies #[trigger] marked[a as int][b as int]
        == (before[a as int][b as int] || neighbor_edge_before(n, table, c, x, val, q + 1, a, b)) by {
        if (a == nv && b == val) || (a == val && b == nv) {
            assert(neighbor_edge(n, table, c, x, val, q, a, b));
        }
    }
    assert forall|q1: int, q2: int|
        0 <= q1 < q + 1 && 0 <= q2 <= q1 && (#[trigger] table[c][neighbor_of(n, x, q1)]).is_some() implies {
        let w = table[c][neighbor_of(n, x, q1)].unwrap();
        &&& !before[w as int][val as int]
        &&& q2 < q1 ==> #[trigger] table[c][neighbor_of(n, x, q2)] != Some(w)
    } by {
        if q1 == q {
            if q2 < q1 && table[c][neighbor_of(n, x, q2)] == Some(nv) {
                assert(neighbor_edge(n, table, c, x, val, q2, nv, val));
            }
        }
    }
}

/// One step of logging: an edge that was unmarked in both directions, once
/// marked and appended to the log, keeps the log sufficient.
pub proof fn lemma_log_step(
    n: int,
    base_table: Seq<Seq<Option<usize>>>,
    base_edges: Seq<Seq<bool>>,
    table: Seq<Seq<Option<usize>>>,
    current: Seq<Seq<bool>>,
    marked: Seq<Seq<bool>>,
    log_before: UndoLog,
    log_after: UndoLog,
    a0: usize,
    b0: usize,
)
    requires
        a0 < n,
        b0 < n,
        log_fresh(n, base_table, base_edges, log_before),
        differs_where_logged(n, base_table, base_edges, table, current, log_before, 0, 0),
        matrix_shape(n, marked),
        !current[a0 as int][b0 as int],
        !current[b0 as int][a0 as int],
        forall|a: int, b: int|
            0 <= a < n && 0 <= b < n ==> #[trigger] marked[a][b] == (current[a][b] || (a == a0 && b
                == b0) || (a == b0 && b == a0)),
        log_after.slots@ == log_before.slots@,
        log_after.edges@ == log_before.edges@.push((a0, b0)),
    ensures
        log_fresh(n, base_table, base_edges, log_after),
        differs_where_logged(n, base_table, base_edges, table, marked, log_after, 0, 0),
{
    let last = log_before.edges@.len() as int;
    assert(log_after.edges@[last] == (a0, b0));
    assert forall|a: int, b: int|
        0 <= a < n && 0 <= b < n && #[trigger] marked[a][b] != base_edges[a][b] implies edge_logged(
        log_after.edges@,
        0,
        a,
        b,
    ) by {
        if !((a == a0 && b == b0) || (a == b0 && b == a0)) {
            let u = choose|u: int|
                0 <= u < log_before.edges@.len() && (((#[trigger] log_before.edges@[u]).0 == a
                    && log_before.edges@[u].1 == b) || (log_before.edges@[u].0 == b
                    && log_before.edges@[u].1 == a));
            assert(log_after.edges@[u] == log_before.edges@[u]);
        }
    }
}

} // verus!
