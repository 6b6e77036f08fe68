use vstd::prelude::*;
use crate::model::{
    assignment_ok, claims, edge_disjoint, entry, occurs, pair_entry, pop_label, push_label, quarter,
    table_claims, table_disjoint, table_is, table_shape, table_values_bounded,
};
use crate::table::with_slot;

verus! {

/// In a sound assignment a table slot is implied by at most one pair of
/// positions, and with one value.
pub proof fn lemma_entry_unique(
    n: int,
    cycles: Seq<Seq<usize>>,
    s1: int,
    i1: int,
    j1: int,
    s2: int,
    i2: int,
    j2: int,
    c: int,
    x: int,
    y1: int,
    y2: int,
)
    requires
        assignment_ok(n, cycles),
        pair_entry(n, cycles, s1, i1, j1, c, x, y1),
        pair_entry(n, cycles, s2, i2, j2, c, x, y2),
    ensures
        s1 == s2,
        i1 == i2,
        j1 == j2,
        y1 == y2,
{
    let a1 = cycles[s1][i1];
    let b1 = cycles[s1][j1];
    let a2 = cycles[s2][i2];
    let b2 = cycles[s2][j2];
    assert(cycles[s1].len() <= quarter(n));
    assert(cycles[s2].len() <= quarter(n));
    assert(a1 + a2 != n && a1 + b2 != n && b1 + a2 != n && b1 + b2 != n);
    assert(a1 == a2 ==> s1 == s2 && i1 == i2);
    assert(a1 == b2 ==> s1 == s2 && i1 == j2);
    assert(b1 == a2 ==> s1 == s2 && j1 == i2);
    assert(b1 == b2 ==> s1 == s2 && j1 == j2);
}

/// The entries of a sound assignment lie inside the table and hold labels.
pub proof fn lemma_entry_bounds(n: int, cycles: Seq<Seq<usize>>, c: int, x: int, y: int)
    requires
        assignment_ok(n, cycles),
        entry(n, cycles, c, x, y),
    ensures
        1 <= c < quarter(n),
        1 <= x < n,
        1 <= y < n,
{
    let (s, i, j) = choose|s: int, i: int, j: int| pair_entry(n, cycles, s, i, j, c, x, y);
    assert(cycles[s].len() <= quarter(n));
    assert(1 <= cycles[s][i] < n);
    assert(1 <= cycles[s][j] < n);
}

/// Whether the pair of positions `i < j` of sequence `s` counts towards a
/// table under construction: a pair that ends at the last label of sequence
/// `slot` counts only if it begins in `lo..hi`.
pub open spec fn counted(
    cycles: Seq<Seq<usize>>,
    slot: int,
    lo: int,
    hi: int,
    s: int,
    i: int,
    j: int,
) -> bool {
    s == slot && j == cycles[slot].len() - 1 ==> lo <= i < hi
}

/// A pair that counts implies the entry `(c, x, y)`.
pub open spec fn partial_entry(
    n: int,
    cycles: Seq<Seq<usize>>,
    slot: int,
    lo: int,
    hi: int,
    c: int,
    x: int,
    y: int,
) -> bool {
    exists|s: int, i: int, j: int|
        #![trigger pair_entry(n, cycles, s, i, j, c, x, y)]
        pair_entry(n, cycles, s, i, j, c, x, y) && counted(cycles, slot, lo, hi, s, i, j)
}

/// The table holds exactly the entries of the pairs that count.
pub open spec fn table_partial(
    n: int,
    cycles: Seq<Seq<usize>>,
    slot: int,
    lo: int,
    hi: int,
    table: Seq<Seq<Option<usize>>>,
) -> bool {
    forall|c: int, x: int, y: usize|
        0 <= c < table.len() && 0 <= x < n ==> (table[c][x] == Some(y)) == #[trigger] partial_entry(
            n,
            cycles,
            slot,
            lo,
            hi,
            c,
            x,
            y as int,
        )
}

/// The table after the four slots of one pair were filled, or emptied: `a`
/// stands `d` places before `b`.
pub open spec fn four_slots(
    table: Seq<Seq<Option<usize>>>,
    n: int,
    a: int,
    b: int,
    d: int,
    fill: bool,
) -> Seq<Seq<Option<usize>>> {
    let k = quarter(n);
    let t1 = with_slot(
        table,
        d,
        a,
        if fill {
            Some(b as usize)
        } else {
            None
        },
    );
    let t2 = with_slot(
        t1,
        k - d,
        b,
        if fill {
            Some((n - a) as usize)
        } else {
            None
        },
    );
    let t3 = with_slot(
        t2,
        d,
        n - a,
        if fill {
            Some((n - b) as usize)
        } else {
            None
        },
    );
    with_slot(
        t3,
        k - d,
        n - b,
        if fill {
            Some(a as usize)
        } else {
            None
        },
    )
}

/// With every pair counted, the table under construction is the table of the
/// assignment.
pub proof fn lemma_partial_all(n: int, cycles: Seq<Seq<usize>>, slot: int, c: int, x: int, y: int)
    requires
        0 <= slot < cycles.len(),
        cycles[slot].len() >= 1,
    ensures
        entry(n, cycles, c, x, y) == partial_entry(
            n,
            cycles,
            slot,
            0,
            cycles[slot].len() - 1,
            c,
            x,
            y,
        ),
{
    let hi = cycles[slot].len() - 1;
    if entry(n, cycles, c, x, y) {
        let (s, i, j) = choose|s: int, i: int, j: int| pair_entry(n, cycles, s, i, j, c, x, y);
        assert(pair_entry(n, cycles, s, i, j, c, x, y) && counted(cycles, slot, 0, hi, s, i, j));
    }
    if partial_entry(n, cycles, slot, 0, hi, c, x, y) {
        let (s, i, j) = choose|s: int, i: int, j: int|
            #![trigger pair_entry(n, cycles, s, i, j, c, x, y)]
            pair_entry(n, cycles, s, i, j, c, x, y) && counted(cycles, slot, 0, hi, s, i, j);
        assert(pair_entry(n, cycles, s, i, j, c, x, y));
    }
}

/// With no pair of the last label counted, the table under construction is the
/// table of the assignment without that label.
pub proof fn lemma_partial_none(
    n: int,
    cycles: Seq<Seq<usize>>,
    slot: int,
    lo: int,
    c: int,
    x: int,
    y: int,
)
    requires
        0 <= slot < cycles.len(),
        cycles[slot].len() >= 1,
    ensures
        entry(n, pop_label(cycles, slot), c, x, y) == partial_entry(
            n,
            cycles,
            slot,
            lo,
            lo,
            c,
            x,
            y,
        ),
{
    let short = pop_label(cycles, slot);
    if entry(n, short, c, x, y) {
        let (s, i, j) = choose|s: int, i: int, j: int| pair_entry(n, short, s, i, j, c, x, y);
        assert(pair_entry(n, cycles, s, i, j, c, x, y) && counted(cycles, slot, lo, lo, s, i, j));
    }
    if partial_entry(n, cycles, slot, lo, lo, c, x, y) {
        let (s, i, j) = choose|s: int, i: int, j: int|
            #![trigger pair_entry(n, cycles, s, i, j, c, x, y)]
            pair_entry(n, cycles, s, i, j, c, x, y) && counted(cycles, slot, lo, lo, s, i, j);
        assert(pair_entry(n, short, s, i, j, c, x, y));
    }
}

/// Filling the four slots of a pair that now counts, or emptying those of one
/// that no longer does, keeps the table in step with the pairs that count.
pub proof fn lemma_pair_toggle(
    n: int,
    cycles: Seq<Seq<usize>>,
    slot: int,
    lo: int,
    hi: int,
    lo2: int,
    hi2: int,
    it: int,
    before: Seq<Seq<Option<usize>>>,
    fill: bool,
)
    requires
        n <= usize::MAX,
        assignment_ok(n, cycles),
        0 <= slot < cycles.len(),
        0 <= it < cycles[slot].len() - 1,
        table_shape(n, quarter(n) + 1, before),
        table_partial(n, cycles, slot, lo, hi, before),
        (fill && lo <= hi && it == hi && lo2 == lo && hi2 == hi + 1) || (!fill && it == lo && lo2
            == lo + 1 && hi2 == hi),
    ensures
        table_shape(
            n,
            quarter(n) + 1,
            four_slots(
                before,
                n,
                cycles[slot][it] as int,
                cycles[slot][cycles[slot].len() - 1] as int,
                cycles[slot].len() - 1 - it,
                fill,
            ),
        ),
        table_partial(
            n,
            cycles,
            slot,
            lo2,
            hi2,
            four_slots(
                before,
                n,
                cycles[slot][it] as int,
                cycles[slot][cycles[slot].len() - 1] as int,
                cycles[slot].len() - 1 - it,
                fill,
            ),
        ),
{
    let last = cycles[slot].len() - 1;
    let k = quarter(n);
    let a = cycles[slot][it] as int;
    let b = cycles[slot][last] as int;
    let d = last - it;
    let after = four_slots(before, n, a, b, d, fill);
    assert forall|c: int, x: int, y: usize| 0 <= c < after.len() && 0 <= x < n implies (after[c][x]
        == Some(y)) == #[trigger] partial_entry(n, cycles, slot, lo2, hi2, c, x, y as int) by {
        let in_pair = (c == d && x == a) || (c == k - d && x == b) || (c == d && x == n - a) || (c
            == k - d && x == n - b);
        if in_pair {
            let val: int = if c == d && x == a {
                b
            } else if c == k - d && x == b {
                n - a
            } else if c == d && x == n - a {
                n - b
            } else {
                a
            };
            assert(pair_entry(n, cycles, slot, it, last, c, x, val));
            if partial_entry(n, cycles, slot, lo2, hi2, c, x, y as int) {
                let (s, i, j) = choose|s: int, i: int, j: int|
                    #![trigger pair_entry(n, cycles, s, i, j, c, x, y as int)]
                    pair_entry(n, cycles, s, i, j, c, x, y as int) && counted(
                        cycles,
                        slot,
                        lo2,
                        hi2,
                        s,
                        i,
                        j,
                    );
                lemma_entry_unique(n, cycles, s, i, j, slot, it, last, c, x, y as int, val);
            }
        } else if partial_entry(n, cycles, slot, lo, hi, c, x, y as int) {
            let (s, i, j) = choose|s: int, i: int, j: int|
                #![trigger pair_entry(n, cycles, s, i, j, c, x, y as int)]
                pair_entry(n, cycles, s, i, j, c, x, y as int) && counted(
                    cycles,
                    slot,
                    lo,
                    hi,
                    s,
                    i,
                    j,
                );
            assert(!(s == slot && i == it && j == last));
        }
    }
}

/// The table after the first `w` of the four slots of a pair were filled.
pub open spec fn slots_filled(
    table: Seq<Seq<Option<usize>>>,
    n: int,
    a: int,
    b: int,
    d: int,
    w: int,
) -> Seq<Seq<Option<usize>>> {
    let k = quarter(n);
    let t1 = with_slot(table, d, a, Some(b as usize));
    let t2 = with_slot(t1, k - d, b, Some((n - a) as usize));
    let t3 = with_slot(t2, d, n - a, Some((n - b) as usize));
    let t4 = with_slot(t3, k - d, n - b, Some(a as usize));
    if w <= 0 {
        table
    } else if w == 1 {
        t1
    } else if w == 2 {
        t2
    } else if w == 3 {
        t3
    } else {
        t4
    }
}

/// Every value of the table is an entry of the assignment.
pub open spec fn table_within(
    n: int,
    cycles: Seq<Seq<usize>>,
    table: Seq<Seq<Option<usize>>>,
) -> bool {
    forall|c: int, x: int|
        0 <= c < table.len() && 0 <= x < n && (#[trigger] table[c][x]).is_some() ==> entry(
            n,
            cycles,
            c,
            x,
            table[c][x].unwrap() as int,
        )
}

/// What one round of an extension finds and leaves: the pair of the label at
/// `it` with the last label of sequence `slot` has four empty slots inside
/// the table; filling them one by one meets an empty slot each time, stays
/// within the entries of the assignment, and ends with the pair counted.
pub proof fn lemma_extend_round(
    n: int,
    cycles: Seq<Seq<usize>>,
    slot: int,
    it: int,
    table: Seq<Seq<Option<usize>>>,
)
    requires
        n <= usize::MAX,
        assignment_ok(n, cycles),
        0 <= slot < cycles.len(),
        0 <= it < cycles[slot].len() - 1,
        table_shape(n, quarter(n) + 1, table),
        table_partial(n, cycles, slot, 0, it, table),
    ensures
        ({
            let last = cycles[slot].len() - 1;
            let k = quarter(n);
            let a = cycles[slot][it] as int;
            let b = cycles[slot][last] as int;
            let d = last - it;
            &&& 1 <= d < k
            &&& 1 <= a < n
            &&& 1 <= b < n
            &&& slots_filled(table, n, a, b, d, 0)[d][a].is_none()
            &&& slots_filled(table, n, a, b, d, 1)[k - d][b].is_none()
            &&& slots_filled(table, n, a, b, d, 2)[d][n - a].is_none()
            &&& slots_filled(table, n, a, b, d, 3)[k - d][n - b].is_none()
            &&& table_partial(n, cycles, slot, 0, it + 1, slots_filled(table, n, a, b, d, 4))
            &&& table_shape(n, k + 1, slots_filled(table, n, a, b, d, 4))
            &&& forall|w: int|
                0 <= w <= 4 ==> table_within(n, cycles, #[trigger] slots_filled(table, n, a, b, d, w))
        }),
{
    let last = cycles[slot].len() - 1;
    let k = quarter(n);
    let a = cycles[slot][it] as int;
    let b = cycles[slot][last] as int;
    let d = last - it;
    lemma_pair_toggle(n, cycles, slot, 0, it, 0, it + 1, it, table, true);
    assert forall|c: int, x: int|
        0 <= c < table.len() && 0 <= x < n && ((c == d && x == a) || (c == k - d && x == b) || (c
            == d && x == n - a) || (c == k - d && x == n - b)) implies (#[trigger] table[c][x]).is_none() by {
        if table[c][x].is_some() {
            let y = table[c][x].unwrap();
            assert(partial_entry(n, cycles, slot, 0, it, c, x, y as int));
            let (s, i, j) = choose|s: int, i: int, j: int|
                #![trigger pair_entry(n, cycles, s, i, j, c, x, y as int)]
                pair_entry(n, cycles, s, i, j, c, x, y as int) && counted(
                    cycles,
                    slot,
                    0,
                    it,
                    s,
                    i,
                    j,
                );
            let val: int = if c == d && x == a {
                b
            } else if c == k - d && x == b {
                n - a
            } else if c == d && x == n - a {
                n - b
            } else {
                a
            };
            lemma_entry_unique(n, cycles, s, i, j, slot, it, last, c, x, y as int, val);
        }
    }
    assert forall|w: int| 0 <= w <= 4 implies table_within(
        n,
        cycles,
        #[trigger] slots_filled(table, n, a, b, d, w),
    ) by {
        let sub = slots_filled(table, n, a, b, d, w);
        assert forall|c: int, x: int|
            0 <= c < sub.len() && 0 <= x < n && (#[trigger] sub[c][x]).is_some() implies entry(
            n,
            cycles,
            c,
            x,
            sub[c][x].unwrap() as int,
        ) by {
            let y = sub[c][x].unwrap();
            assert(partial_entry(n, cycles, slot, 0, it + 1, c, x, y as int));
        }
    }
}

/// A table within the entries of a sound assignment that claims an edge twice
/// shows that the assignment does.
pub proof fn lemma_conflict_in_assignment(
    n: int,
    cycles: Seq<Seq<usize>>,
    table: Seq<Seq<Option<usize>>>,
)
    requires
        table_within(n, cycles, table),
        table_shape(n, table.len() as int, table),
        !table_disjoint(n, table),
    ensures
        !edge_disjoint(n, cycles),
{
    if edge_disjoint(n, cycles) {
        assert forall|c1: int, i1: int, j1: int, c2: int, i2: int, j2: int, a: usize, b: usize|
            #![trigger table_claims(n, table, c1, i1, j1, a, b), table_claims(n, table, c2, i2, j2, a, b)]
            table_claims(n, table, c1, i1, j1, a, b) && table_claims(
                n,
                table,
                c2,
                i2,
                j2,
                a,
                b,
            ) implies c1 == c2 && ((i1 == i2 && j1 == j2) || (i1 == j2 && j1 == i2)) by {
            assert(claims(n, cycles, c1, i1, j1, a as int, b as int));
            assert(claims(n, cycles, c2, i2, j2, a as int, b as int));
        }
    }
}

/// The table of a sound assignment claims an edge twice only if the
/// assignment does.
pub proof fn lemma_table_disjoint_iff(
    n: int,
    cycles: Seq<Seq<usize>>,
    table: Seq<Seq<Option<usize>>>,
)
    requires
        n <= usize::MAX,
        assignment_ok(n, cycles),
        table_shape(n, quarter(n) + 1, table),
        table_is(n, cycles, table),
    ensures
        table_disjoint(n, table) == edge_disjoint(n, cycles),
        table_within(n, cycles, table),
        table_values_bounded(n, table),
{
    assert forall|c: int, x: int|
        0 <= c < table.len() && 0 <= x < n && (#[trigger] table[c][x]).is_some() implies entry(
        n,
        cycles,
        c,
        x,
        table[c][x].unwrap() as int,
    ) && table[c][x].unwrap() < n by {
        let y = table[c][x].unwrap();
        assert(entry(n, cycles, c, x, y as int));
        lemma_entry_bounds(n, cycles, c, x, y as int);
    }
    if !table_disjoint(n, table) {
        lemma_conflict_in_assignment(n, cycles, table);
    }
    if table_disjoint(n, table) {
        assert forall|c1: int, i1: int, j1: int, c2: int, i2: int, j2: int, a: int, b: int|
            #![trigger claims(n, cycles, c1, i1, j1, a, b), claims(n, cycles, c2, i2, j2, a, b)]
            claims(n, cycles, c1, i1, j1, a, b) && claims(
                n,
                cycles,
                c2,
                i2,
                j2,
                a,
                b,
            ) implies c1 == c2 && ((i1 == i2 && j1 == j2) || (i1 == j2 && j1 == i2)) by {
            let au = a as usize;
            let bu = b as usize;
            assert(table_claims(n, table, c1, i1, j1, au, bu));
            assert(table_claims(n, table, c2, i2, j2, au, bu));
        }
    }
}

/// What appending a label does to the set of labels that occur.
pub proof fn lemma_occurs_push(n: int, cycles: Seq<Seq<usize>>, slot: int, label: usize, x: int)
    requires
        0 <= slot < cycles.len(),
    ensures
        occurs(n, push_label(cycles, slot, label), x) == (occurs(n, cycles, x) || x == label || x
            + label == n),
{
    let next = push_label(cycles, slot, label);
    let last = cycles[slot].len() as int;
    if occurs(n, cycles, x) {
        let (s, i) = choose|s: int, i: int|
            0 <= s < cycles.len() && 0 <= i < cycles[s].len() && (#[trigger] cycles[s][i] == x
                || cycles[s][i] + x == n);
        assert(next[s][i] == cycles[s][i]);
    }
    if x == label || x + label == n {
        assert(next[slot][last] == label);
    }
}

/// Appending an unused label to a sequence with room keeps the assignment
/// sound.
pub proof fn lemma_push_ok(n: int, cycles: Seq<Seq<usize>>, slot: int, label: usize)
    requires
        (n - 1) % 4 == 0,
        assignment_ok(n, cycles),
        0 <= slot < cycles.len(),
        cycles[slot].len() < quarter(n),
        1 <= label < n,
        !occurs(n, cycles, label as int),
    ensures
        assignment_ok(n, push_label(cycles, slot, label)),
{
    let next = push_label(cycles, slot, label);
    let last = cycles[slot].len() as int;
    assert forall|s: int, i: int| 0 <= s < next.len() && 0 <= i < next[s].len() implies 1
        <= #[trigger] next[s][i] < n by {
        if !(s == slot && i == last) {
            assert(next[s][i] == cycles[s][i]);
        }
    }
    assert forall|s1: int, i1: int, s2: int, i2: int|
        0 <= s1 < next.len() && 0 <= i1 < next[s1].len() && 0 <= s2 < next.len() && 0 <= i2
            < next[s2].len() implies {
        &&& (#[trigger] next[s1][i1] == #[trigger] next[s2][i2] ==> s1 == s2 && i1 == i2)
        &&& next[s1][i1] + next[s2][i2] != n
    } by {
        let new1 = s1 == slot && i1 == last;
        let new2 = s2 == slot && i2 == last;
        if !new1 {
            assert(next[s1][i1] == cycles[s1][i1]);
        }
        if !new2 {
            assert(next[s2][i2] == cycles[s2][i2]);
        }
    }
    assert forall|s: int| 0 <= s < next.len() implies (#[trigger] next[s]).len() <= quarter(n) by {
        if s != slot {
            assert(next[s] == cycles[s]);
        }
    }
}

/// Taking the last label away keeps the assignment sound.
pub proof fn lemma_pop_ok(n: int, cycles: Seq<Seq<usize>>, slot: int)
    requires
        assignment_ok(n, cycles),
        0 <= slot < cycles.len(),
        cycles[slot].len() >= 1,
    ensures
        assignment_ok(n, pop_label(cycles, slot)),
{
    let short = pop_label(cycles, slot);
    assert forall|s: int, i: int| 0 <= s < short.len() && 0 <= i < short[s].len() implies 1
        <= #[trigger] short[s][i] < n by {
        assert(short[s][i] == cycles[s][i]);
    }
    assert forall|s1: int, i1: int, s2: int, i2: int|
        0 <= s1 < short.len() && 0 <= i1 < short[s1].len() && 0 <= s2 < short.len() && 0 <= i2
            < short[s2].len() implies {
        &&& (#[trigger] short[s1][i1] == #[trigger] short[s2][i2] ==> s1 == s2 && i1 == i2)
        &&& short[s1][i1] + short[s2][i2] != n
    } by {
        assert(short[s1][i1] == cycles[s1][i1]);
        assert(short[s2][i2] == cycles[s2][i2]);
    }
    assert forall|s: int| 0 <= s < short.len() implies (#[trigger] short[s]).len() <= quarter(n) by {
        assert(cycles[s].len() <= quarter(n));
    }
}

} // verus!
