use cycle_permuter::collect::collect_solutions;
use cycle_permuter::output::{push_cycle, push_decimal, solution_line};

fn decimal(v: usize) -> String {
    let mut out = String::new();
    push_decimal(&mut out, v);
    out
}

#[test]
fn decimal_of_single_digits() {
    for (v, text) in ["0", "1", "2", "3", "4", "5", "6", "7", "8", "9"].iter().enumerate() {
        assert_eq!(decimal(v), *text);
    }
}

#[test]
fn decimal_of_longer_numbers() {
    assert_eq!(decimal(10), "10");
    assert_eq!(decimal(19), "19");
    assert_eq!(decimal(100), "100");
    assert_eq!(decimal(1234567890), "1234567890");
    assert_eq!(decimal(usize::MAX), format!("{}", usize::MAX));
}

#[test]
fn decimal_appends_to_what_is_there() {
    let mut out = String::from("n=");
    push_decimal(&mut out, 21);
    assert_eq!(out, "n=21");
}

#[test]
fn cycle_in_parentheses() {
    let mut out = String::new();
    push_cycle(&mut out, &vec![1, 5, 9, 20, 16, 12]);
    assert_eq!(out, "(1 5 9 20 16 12) ");
    push_cycle(&mut out, &vec![7]);
    assert_eq!(out, "(1 5 9 20 16 12) (7) ");
    push_cycle(&mut out, &Vec::new());
    assert_eq!(out, "(1 5 9 20 16 12) (7) () ");
}

#[test]
fn line_of_a_solution() {
    let solution = vec![vec![1, 4, 5, 8, 15], vec![2, 11, 12, 18, 7]];
    assert_eq!(
        solution_line(21, &solution),
        "(1 4 5 8 15 20 17 16 13 6) (2 11 12 18 7 19 10 9 3 14) \n"
    );
}

#[test]
fn line_of_an_empty_solution() {
    assert_eq!(solution_line(21, &Vec::new()), "\n");
}

#[test]
fn lines_of_size_thirteen() {
    let lines: Vec<String> =
        collect_solutions(13).iter().map(|solution| solution_line(13, solution)).collect();
    assert_eq!(
        lines,
        vec!["(1 4 3 12 9 10) (2 8 6 11 5 7) \n", "(1 10 9 12 3 4) (2 7 5 11 6 8) \n"]
    );
}
