use vstd::prelude::*;
use crate::model::{
    assignment_ok, edge_claimed, edges_are, entry, matrix_shape, occurs, quarter, seeds,
    table_disjoint, table_is, table_shape, used_is, valid_size,
};

verus! {

/// One sequence of labels.
pub type Cycle = Vec<usize>;

/// The sequences of one assignment; a solution is one.
pub type CycleSet = Vec<Cycle>;

/// The state of a search as plain mathematical values.
pub struct SearchState {
    /// The problem size.
    pub n: int,
    /// The label sequences under construction.
    pub cycles: Seq<Seq<usize>>,
    /// For each label, whether it or its partner stands in a sequence.
    pub used: Seq<bool>,
    /// The derived table: per row and column a successor label, or nothing.
    pub table: Seq<Seq<Option<usize>>>,
    /// The used-edge matrix.
    pub edges: Seq<Seq<bool>>,
    /// The accepted solutions, in the order in which they were found.
    pub solutions: Seq<Seq<Seq<usize>>>,
}

impl SearchState {
    /// The search is not under way: there are no sequences yet, or the two
    /// seeds alone.
    pub open spec fn at_rest(self) -> bool {
        self.cycles.len() == 0 || self.cycles == seeds()
    }

    /// The state is consistent: every derived structure is what the label
    /// sequences imply, and no edge is claimed twice.
    pub open spec fn wf(self) -> bool {
        &&& valid_size(self.n)
        &&& assignment_ok(self.n, self.cycles)
        &&& used_is(self.n, self.cycles, self.used)
        &&& table_shape(self.n, quarter(self.n) + 1, self.table)
        &&& table_is(self.n, self.cycles, self.table)
        &&& matrix_shape(self.n, self.edges)
        &&& edges_are(self.n, self.table, self.edges)
        &&& table_disjoint(self.n, self.table)
    }
}

/// The rows of a vector of vectors.
pub open spec fn rows<T>(v: Vec<Vec<T>>) -> Seq<Seq<T>> {
    Seq::new(v@.len(), |i: int| v@[i]@)
}

/// The solutions held in a vector, as sequences.
pub open spec fn solution_seqs(v: Vec<CycleSet>) -> Seq<Seq<Seq<usize>>> {
    Seq::new(v@.len(), |i: int| rows(v@[i]))
}

/// The state of one search: the label sequences under construction and what
/// is derived from them, with the solutions found so far.
#[derive(Clone, Debug, PartialEq, Eq)]
pub struct CyclePermuter {
    pub(crate) num_nodes: usize,
    pub(crate) perm_cycles: Vec<Vec<usize>>,
    pub(crate) perm_used: Vec<bool>,
    pub(crate) ham_cycles: Vec<Vec<Option<usize>>>,
    pub(crate) used_edges: Vec<Vec<bool>>,
    pub(crate) num_ham_cycles: usize,
    pub(crate) sol_found: Vec<CycleSet>,
}

impl View for CyclePermuter {
    type V = SearchState;

    open(crate) spec fn view(&self) -> SearchState {
        SearchState {
            n: self.num_nodes as int,
            cycles: rows(self.perm_cycles),
            used: self.perm_used@,
            table: rows(self.ham_cycles),
            edges: rows(self.used_edges),
            solutions: solution_seqs(self.sol_found),
        }
    }
}

/// A vector of `n` copies of `value`.
fn filled<T: Copy>(n: usize, value: T) -> (row: Vec<T>)
    ensures
        row@.len() == n,
        forall|i: int| 0 <= i < n ==> row@[i] == value,
{
    let mut row: Vec<T> = Vec::new();
    let mut i: usize = 0;
    while i < n
        invariant
            i <= n,
            row@.len() == i,
            forall|j: int| 0 <= j < i ==> row@[j] == value,
        decreases n - i,
    {
        row.push(value);
        i += 1;
    }
    row
}

/// A grid of `height` rows, each of `n` copies of `value`.
fn filled_grid<T: Copy>(height: usize, n: usize, value: T) -> (grid: Vec<Vec<T>>)
    ensures
        grid@.len() == height,
        forall|r: int| 0 <= r < height ==> (#[trigger] grid@[r])@.len() == n,
        forall|r: int, i: int| 0 <= r < height && 0 <= i < n ==> (#[trigger] grid@[r]@[i]) == value,
{
    let mut grid: Vec<Vec<T>> = Vec::new();
    let mut r: usize = 0;
    while r < height
        invariant
            r <= height,
            grid@.len() == r,
            forall|q: int| 0 <= q < r ==> (#[trigger] grid@[q])@.len() == n,
            forall|q: int, i: int| 0 <= q < r && 0 <= i < n ==> (#[trigger] grid@[q]@[i]) == value,
        decreases height - r,
    {
        grid.push(filled(n, value));
        r += 1;
    }
    grid
}

impl CyclePermuter {
    /// The state is consistent, and the cached number of labels per sequence
    /// is a quarter of the labels.
    pub open(crate) spec fn wf(&self) -> bool {
        &&& self@.wf()
        &&& self.num_ham_cycles == quarter(self.num_nodes as int)
    }

    /// A fresh search state for problem size `num_nodes`: no sequences, no
    /// label used, an empty table and an empty edge matrix.
    pub fn new(num_nodes: usize) -> (cp: CyclePermuter)
        requires
            valid_size(num_nodes as int),
        ensures
            cp.wf(),
            cp@.n == num_nodes,
            cp@.cycles == Seq::<Seq<usize>>::empty(),
            cp@.solutions == Seq::<Seq<Seq<usize>>>::empty(),
    {
        let k: usize = (num_nodes - 1) / 4;
        let cp = CyclePermuter {
            num_nodes,
            perm_cycles: Vec::new(),
            perm_used: filled(num_nodes, false),
            ham_cycles: filled_grid(k + 1, num_nodes, None),
            used_edges: filled_grid(num_nodes, num_nodes, false),
            num_ham_cycles: k,
            sol_found: Vec::new(),
        };
        cp
    }

    /// The problem size.
    pub fn num_nodes(&self) -> (n: usize)
        ensures
            n == self@.n,
    {
        self.num_nodes
    }

    /// The label sequences under construction.
    pub fn cycles(&self) -> (cycles: &Vec<Vec<usize>>)
        ensures
            rows(*cycles) == self@.cycles,
    {
        &self.perm_cycles
    }

    /// The solutions found so far, in the order in which they were found.
    pub fn solutions(&self) -> (found: &Vec<CycleSet>)
        ensures
            solution_seqs(*found) == self@.solutions,
    {
        &self.sol_found
    }

    /// Gives the solutions up, and the state with them.
    pub fn into_solutions(self) -> (found: Vec<CycleSet>)
        ensures
            solution_seqs(found) == self@.solutions,
    {
        self.sol_found
    }

    /// Whether `label` or its partner stands in a sequence.
    pub fn is_used(&self, label: usize) -> (used: bool)
        requires
            self.wf(),
            label < self@.n,
        ensures
            used == self@.used[label as int],
            used == occurs(self@.n, self@.cycles, label as int),
    {
        self.perm_used[label]
    }

    /// What the derived table holds in row `row`, column `column`.
    pub fn table_value(&self, row: usize, column: usize) -> (value: Option<usize>)
        requires
            self.wf(),
            row <= quarter(self@.n),
            column < self@.n,
        ensures
            value == self@.table[row as int][column as int],
            forall|y: usize|
                value == Some(y) <==> entry(
                    self@.n,
                    self@.cycles,
                    row as int,
                    column as int,
                    y as int,
                ),
    {
        proof {
            assert forall|y: usize|
                self@.table[row as int][column as int] == Some(y) <==> entry(
                    self@.n,
                    self@.cycles,
                    row as int,
                    column as int,
                    y as int,
                ) by {}
        }
        self.ham_cycles[row][column]
    }

    /// Whether the edge between the labels `a` and `b` is marked as used.
    pub fn edge_used(&self, a: usize, b: usize) -> (used: bool)
        requires
            self.wf(),
            a < self@.n,
            b < self@.n,
        ensures
            used == self@.edges[a as int][b as int],
            used == edge_claimed(self@.n, self@.table, a, b),
    {
        proof {
            assert(self.used_edges@[a as int]@ == self@.edges[a as int]);
        }
        self.used_edges[a][b]
    }
}

} // verus!
