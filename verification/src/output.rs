use vstd::prelude::*;
use vstd::string::StringExecFns;
use crate::collect::{full_cycles, full_cycles_of};
use crate::state::{CycleSet, rows};

verus! {

/// The character of a decimal digit.
pub open spec fn digit_char(d: nat) -> char {
    if d == 0 {
        '0'
    } else if d == 1 {
        '1'
    } else if d == 2 {
        '2'
    } else if d == 3 {
        '3'
    } else if d == 4 {
        '4'
    } else if d == 5 {
        '5'
    } else if d == 6 {
        '6'
    } else if d == 7 {
        '7'
    } else if d == 8 {
        '8'
    } else {
        '9'
    }
}

/// A number in decimal, without leading zeros.
pub open spec fn decimal(v: nat) -> Seq<char>
    decreases v,
{
    if v < 10 {
        seq![digit_char(v)]
    } else {
        decimal(v / 10) + seq![digit_char(v % 10)]
    }
}

/// The first `upto` labels of a cycle in decimal, with one space between
/// neighbours.
pub open spec fn labels_text(cycle: Seq<usize>, upto: int) -> Seq<char>
    decreases upto,
{
    if upto <= 0 {
        Seq::empty()
    } else if upto == 1 {
        decimal(cycle[0] as nat)
    } else {
        labels_text(cycle, upto - 1) + seq![' '] + decimal(cycle[upto - 1] as nat)
    }
}

/// One cycle as it is written: its labels in parentheses, and a space behind.
pub open spec fn cycle_text(cycle: Seq<usize>) -> Seq<char> {
    seq!['('] + labels_text(cycle, cycle.len() as int) + seq![')', ' ']
}

/// The first `upto` cycles as they are written, one behind the other.
pub open spec fn cycles_text(cycles: Seq<Seq<usize>>, upto: int) -> Seq<char>
    decreases upto,
{
    if upto <= 0 {
        Seq::empty()
    } else {
        cycles_text(cycles, upto - 1) + cycle_text(cycles[upto - 1])
    }
}

/// The line of a solution: its cycles as they are written, and a line feed.
pub open spec fn line_text(cycles: Seq<Seq<usize>>) -> Seq<char> {
    cycles_text(cycles, cycles.len() as int) + seq!['\n']
}

/// Appends one decimal digit.
fn push_digit(out: &mut String, d: usize)
    requires
        d < 10,
    ensures
        final(out)@ == old(out)@ + seq![digit_char(d as nat)],
{
    proof {
        reveal_strlit("0");
        reveal_strlit("1");
        reveal_strlit("2");
        reveal_strlit("3");
        reveal_strlit("4");
        reveal_strlit("5");
        reveal_strlit("6");
        reveal_strlit("7");
        reveal_strlit("8");
        reveal_strlit("9");
    }
    if d == 0 {
        out.append("0");
    } else if d == 1 {
        out.append("1");
    } else if d == 2 {
        out.append("2");
    } else if d == 3 {
        out.append("3");
    } else if d == 4 {
        out.append("4");
    } else if d == 5 {
        out.append("5");
    } else if d == 6 {
        out.append("6");
    } else if d == 7 {
        out.append("7");
    } else if d == 8 {
        out.append("8");
    } else {
        out.append("9");
    }
}

/// Appends a number in decimal.
pub fn push_decimal(out: &mut String, v: usize)
    ensures
        final(out)@ == old(out)@ + decimal(v as nat),
    decreases v,
{
    if v >= 10 {
        push_decimal(out, v / 10);
    }
    push_digit(out, v % 10);
}

/// Appends one cycle as it is written.
pub fn push_cycle(out: &mut String, cycle: &Vec<usize>)
    ensures
        final(out)@ == old(out)@ + cycle_text(cycle@),
{
    proof {
        reveal_strlit("(");
        reveal_strlit(") ");
    }
    out.append("(");
    let mut i: usize = 0;
    while i < cycle.len()
        invariant
            0 <= i <= cycle@.len(),
            out@ == old(out)@ + seq!['('] + labels_text(cycle@, i as int),
        decreases cycle@.len() - i,
    {
        proof {
            reveal_strlit(" ");
        }
        if i > 0 {
            out.append(" ");
        }
        push_decimal(out, cycle[i]);
        i += 1;
    }
    out.append(") ");
}

/// The line that is written for a solution of problem size `num_nodes`: each
/// of its sequences as a full cycle, the labels followed by their partners.
pub fn solution_line(num_nodes: usize, solution: &CycleSet) -> (line: String)
    requires
        forall|s: int, i: int|
            0 <= s < solution@.len() && 0 <= i < solution@[s]@.len() ==> #[trigger] solution@[s]@[i]
                <= num_nodes,
    ensures
        line@ == line_text(full_cycles_of(num_nodes as int, rows(*solution))),
{
    let full = full_cycles(num_nodes, solution);
    let ghost cycles = rows(full);
    let mut line = String::new();
    let mut s: usize = 0;
    while s < full.len()
        invariant
            0 <= s <= full@.len(),
            cycles == rows(full),
            line@ == cycles_text(cycles, s as int),
        decreases full@.len() - s,
    {
        push_cycle(&mut line, &full[s]);
        s += 1;
    }
    proof {
        reveal_strlit("\n");
    }
    line.append("\n");
    line
}

} // verus!
