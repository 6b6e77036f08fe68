use vstd::prelude::*;

verus! {

/// The number of labels that each of the two label sequences holds in a
/// complete assignment: a quarter of the labels below `n`.
pub open spec fn quarter(n: int) -> int {
    (n - 1) / 4
}

/// A problem size is one more than a multiple of four, and a machine word
/// holds it.
pub open spec fn valid_size(n: int) -> bool {
    1 <= n <= usize::MAX && (n - 1) % 4 == 0
}

/// The four table entries `(row c, column x, value y)` that one ordered pair of
/// labels of a sequence implies: `a` stands `d` places before `b`. The pair
/// writes `b` as the successor of `a` in row `d`, the inverse of `a` as the
/// successor of `b` in row `k - d`, and the mirror image of both under
/// inversion.
pub open spec fn pair_writes(n: int, a: int, b: int, d: int, c: int, x: int, y: int) -> bool {
    let k = quarter(n);
    ||| (c == d && x == a && y == b)
    ||| (c == k - d && x == b && y == n - a)
    ||| (c == d && x == n - a && y == n - b)
    ||| (c == k - d && x == n - b && y == a)
}

/// The labels at positions `i < j` of sequence `s` imply the entry `(c, x, y)`.
pub open spec fn pair_entry(
    n: int,
    cycles: Seq<Seq<usize>>,
    s: int,
    i: int,
    j: int,
    c: int,
    x: int,
    y: int,
) -> bool {
    &&& 0 <= s < cycles.len()
    &&& 0 <= i < j < cycles[s].len()
    &&& pair_writes(n, cycles[s][i] as int, cycles[s][j] as int, j - i, c, x, y)
}

/// The derived table of an assignment holds `y` in row `c`, column `x`.
pub open spec fn entry(n: int, cycles: Seq<Seq<usize>>, c: int, x: int, y: int) -> bool {
    exists|s: int, i: int, j: int| pair_entry(n, cycles, s, i, j, c, x, y)
}

/// Columns `i` and `j` of a row lie one or two places apart, counted round
/// the row of length `n`.
pub open spec fn adjacent(n: int, i: int, j: int) -> bool {
    &&& 0 <= i < n
    &&& 0 <= j < n
    &&& {
        let d = j - i;
        d == 1 || d == 2 || d == -1 || d == -2 || d == n - 1 || d == n - 2 || d == 1 - n || d == 2
            - n
    }
}

/// Row `c` of the derived table claims the edge from `a` to `b`: they are the
/// values of the adjacent columns `i` and `j`.
pub open spec fn claims(
    n: int,
    cycles: Seq<Seq<usize>>,
    c: int,
    i: int,
    j: int,
    a: int,
    b: int,
) -> bool {
    &&& adjacent(n, i, j)
    &&& entry(n, cycles, c, i, a)
    &&& entry(n, cycles, c, j, b)
}

/// No edge is claimed twice: two claims of one pair of labels are one
/// adjacency, read in the same or in the opposite direction.
pub open spec fn edge_disjoint(n: int, cycles: Seq<Seq<usize>>) -> bool {
    forall|c1: int, i1: int, j1: int, c2: int, i2: int, j2: int, a: int, b: int|
        #![trigger claims(n, cycles, c1, i1, j1, a, b), claims(n, cycles, c2, i2, j2, a, b)]
        claims(n, cycles, c1, i1, j1, a, b) && claims(n, cycles, c2, i2, j2, a, b) ==> c1 == c2
            && ((i1 == i2 && j1 == j2) || (i1 == j2 && j1 == i2))
}

/// Label `x` or its inverse partner stands in one of the sequences.
pub open spec fn occurs(n: int, cycles: Seq<Seq<usize>>, x: int) -> bool {
    exists|s: int, i: int|
        0 <= s < cycles.len() && 0 <= i < cycles[s].len() && (#[trigger] cycles[s][i] == x
            || cycles[s][i] + x == n)
}

/// No label stands twice in the sequences, and none beside its inverse partner.
pub open spec fn labels_distinct(n: int, cycles: Seq<Seq<usize>>) -> bool {
    forall|s1: int, i1: int, s2: int, i2: int|
        0 <= s1 < cycles.len() && 0 <= i1 < cycles[s1].len() && 0 <= s2 < cycles.len() && 0 <= i2
            < cycles[s2].len() ==> {
            &&& (#[trigger] cycles[s1][i1] == #[trigger] cycles[s2][i2] ==> s1 == s2 && i1 == i2)
            &&& cycles[s1][i1] + cycles[s2][i2] != n
        }
}

/// Every label lies strictly between 0 and `n`.
pub open spec fn labels_in_range(n: int, cycles: Seq<Seq<usize>>) -> bool {
    forall|s: int, i: int|
        0 <= s < cycles.len() && 0 <= i < cycles[s].len() ==> 1 <= #[trigger] cycles[s][i] < n
}

/// No sequence holds more than a quarter of the labels.
pub open spec fn lengths_bounded(n: int, cycles: Seq<Seq<usize>>) -> bool {
    forall|s: int| 0 <= s < cycles.len() ==> (#[trigger] cycles[s]).len() <= quarter(n)
}

/// A partial assignment that the search may hold: labels in range, none used
/// twice or together with its partner, and no sequence over its length.
pub open spec fn assignment_ok(n: int, cycles: Seq<Seq<usize>>) -> bool {
    &&& labels_in_range(n, cycles)
    &&& labels_distinct(n, cycles)
    &&& lengths_bounded(n, cycles)
}

/// The assignment after `label` was appended to sequence `slot`.
pub open spec fn push_label(cycles: Seq<Seq<usize>>, slot: int, label: usize) -> Seq<Seq<usize>> {
    cycles.update(slot, cycles[slot].push(label))
}

/// The assignment after the last label of sequence `slot` was taken away.
pub open spec fn pop_label(cycles: Seq<Seq<usize>>, slot: int) -> Seq<Seq<usize>> {
    cycles.update(slot, cycles[slot].drop_last())
}

/// The two sequences that every search starts from.
pub open spec fn seeds() -> Seq<Seq<usize>> {
    seq![seq![1usize], seq![2usize]]
}

/// Row `c` of a table holds `a` and `b` in the adjacent columns `i` and `j`.
pub open spec fn table_claims(
    n: int,
    table: Seq<Seq<Option<usize>>>,
    c: int,
    i: int,
    j: int,
    a: usize,
    b: usize,
) -> bool {
    &&& 0 <= c < table.len()
    &&& adjacent(n, i, j)
    &&& table[c][i] == Some(a)
    &&& table[c][j] == Some(b)
}

/// Some row of the table claims the edge from `a` to `b`.
pub open spec fn edge_claimed(n: int, table: Seq<Seq<Option<usize>>>, a: usize, b: usize) -> bool {
    exists|c: int, i: int, j: int| table_claims(n, table, c, i, j, a, b)
}

/// No two adjacencies of the table claim the same pair of labels: two claims
/// of one pair are one adjacency, read in the same or in the opposite
/// direction.
pub open spec fn table_disjoint(n: int, table: Seq<Seq<Option<usize>>>) -> bool {
    forall|c1: int, i1: int, j1: int, c2: int, i2: int, j2: int, a: usize, b: usize|
        #![trigger table_claims(n, table, c1, i1, j1, a, b), table_claims(n, table, c2, i2, j2, a, b)]
        table_claims(n, table, c1, i1, j1, a, b) && table_claims(n, table, c2, i2, j2, a, b) ==> c1
            == c2 && ((i1 == i2 && j1 == j2) || (i1 == j2 && j1 == i2))
}

/// Every value in the table is a label below `n`.
pub open spec fn table_values_bounded(n: int, table: Seq<Seq<Option<usize>>>) -> bool {
    forall|c: int, x: int|
        0 <= c < table.len() && 0 <= x < n && (#[trigger] table[c][x]).is_some() ==> table[c][x].unwrap()
            < n
}

/// The table has `rows` rows of `n` columns.
pub open spec fn table_shape(n: int, rows: int, table: Seq<Seq<Option<usize>>>) -> bool {
    &&& table.len() == rows
    &&& forall|c: int| 0 <= c < rows ==> (#[trigger] table[c]).len() == n
}

/// The matrix has `n` rows of `n` columns.
pub open spec fn matrix_shape(n: int, edges: Seq<Seq<bool>>) -> bool {
    &&& edges.len() == n
    &&& forall|a: int| 0 <= a < n ==> (#[trigger] edges[a]).len() == n
}

/// The table holds exactly the entries that the assignment implies.
pub open spec fn table_is(n: int, cycles: Seq<Seq<usize>>, table: Seq<Seq<Option<usize>>>) -> bool {
    forall|c: int, x: int, y: usize|
        0 <= c < table.len() && 0 <= x < n ==> (table[c][x] == Some(y)) == #[trigger] entry(
            n,
            cycles,
            c,
            x,
            y as int,
        )
}

/// The matrix marks exactly the edges that the table claims.
pub open spec fn edges_are(n: int, table: Seq<Seq<Option<usize>>>, edges: Seq<Seq<bool>>) -> bool {
    forall|a: usize, b: usize|
        0 <= a < n && 0 <= b < n ==> #[trigger] edges[a as int][b as int] == edge_claimed(
            n,
            table,
            a,
            b,
        )
}

/// The bitmap marks exactly the labels that occur, themselves or by their
/// partner.
pub open spec fn used_is(n: int, cycles: Seq<Seq<usize>>, used: Seq<bool>) -> bool {
    &&& used.len() == n
    &&& forall|x: int| 0 <= x < n ==> #[trigger] used[x] == occurs(n, cycles, x)
}

} // verus!
