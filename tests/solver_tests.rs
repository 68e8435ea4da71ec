use std::collections::HashSet;

use nonogram::schema::Cell;
use nonogram::schema::Cell::Crossed as X;
use nonogram::schema::Cell::Empty as N;
use nonogram::schema::Cell::Full as O;
use nonogram::schema::Error;
use nonogram::solver::comply;
use nonogram::solver::intersect;
use nonogram::solver::numbers;
use nonogram::solver::numbers_to_vec;
use nonogram::solver::solve_vec;

fn number_set(labels: &[usize], length: usize) -> HashSet<Vec<usize>> {
    numbers(labels, length).into_iter().collect()
}

#[test]
fn test_1() {
    let r = number_set(&[1, 2], 5);

    assert_eq!(r.len(), 3);
    assert!(r.contains(&vec![0, 1, 1]));
    assert!(r.contains(&vec![0, 2, 0]));
    assert!(r.contains(&vec![1, 1, 0]));
}

#[test]
fn test_2() {
    let r = number_set(&[1, 2], 7);

    assert_eq!(r.len(), 10);

    assert!(r.contains(&vec![0, 1, 3]));
    assert!(r.contains(&vec![0, 2, 2]));
    assert!(r.contains(&vec![0, 3, 1]));
    assert!(r.contains(&vec![0, 4, 0]));
    assert!(r.contains(&vec![1, 1, 2]));
    assert!(r.contains(&vec![1, 2, 1]));
    assert!(r.contains(&vec![1, 3, 0]));
    assert!(r.contains(&vec![2, 1, 1]));
    assert!(r.contains(&vec![2, 2, 0]));
    assert!(r.contains(&vec![3, 1, 0]));
}

#[test]
fn test_3() {
    let r = number_set(&[1], 7);

    assert_eq!(r.len(), 7);

    for i in 0..=6 {
        assert!(r.contains(&vec![i, 6 - i]));
    }
}

#[test]
fn test_4() {
    let r = number_set(&[1, 1, 1], 7);

    assert_eq!(r.len(), 10);

    assert!(r.contains(&vec![0, 1, 1, 2]));
    assert!(r.contains(&vec![0, 2, 1, 1]));
    assert!(r.contains(&vec![0, 1, 2, 1]));
    assert!(r.contains(&vec![0, 3, 1, 0]));
    assert!(r.contains(&vec![0, 1, 3, 0]));
    assert!(r.contains(&vec![0, 2, 2, 0]));
    assert!(r.contains(&vec![1, 1, 1, 1]));
    assert!(r.contains(&vec![1, 2, 1, 0]));
    assert!(r.contains(&vec![1, 1, 2, 0]));
    assert!(r.contains(&vec![2, 1, 1, 0]));
}

#[test]
fn numbers_without_labels_is_one_gap() {
    let r = numbers(&[], 4);
    assert_eq!(r, vec![vec![4]]);
}

#[test]
fn numbers_sum_and_interior_gaps() {
    let labels = [2, 1, 3];
    for g in numbers(&labels, 12) {
        assert_eq!(g.len(), 4);
        assert_eq!(g.iter().sum::<usize>() + 6, 12);
        assert!(g[1] >= 1 && g[2] >= 1);
    }
}

#[test]
fn numbers_no_duplicates_and_tight_fit() {
    let r = numbers(&[3, 3], 7);
    assert_eq!(r, vec![vec![0, 1, 0]]);
}

#[test]
fn intersect_case_1() {
    let mut buf = vec![N, N, X, O, O, X, N, O, X, N];
    intersect(&mut buf, &[N, X, N, O, X, X, O, X, O, N]);
    assert_eq!(buf, vec![N, N, N, O, N, X, N, N, N, N]);
}

#[test]
fn intersect_case_2() {
    let mut buf = vec![N, N, X, O, O, X, N, O, X, N];
    intersect(&mut buf, &[N, N, N, O, O, X, N, X, O, N]);
    assert_eq!(buf, vec![N, N, N, O, O, X, N, N, N, N]);
}

#[test]
fn comply_ignores_unknown_cells() {
    assert!(comply(&[O, N, X], &[O, X, N]));
    assert!(!comply(&[O, N, X], &[X, N, X]));
    assert!(comply(&[N, N], &[O, X]));
}

#[test]
fn numbers_to_vec_case_1() {
    let res = numbers_to_vec(&[1, 2, 3], &[2, 4]).unwrap();
    assert_eq!(res, vec![X, O, O, X, X, O, O, O, O, X, X, X]);
}

#[test]
fn numbers_to_vec_case_2() {
    let res = numbers_to_vec(&[0, 2, 3], &[2, 4]).unwrap();
    assert_eq!(res, vec![O, O, X, X, O, O, O, O, X, X, X]);
}

#[test]
fn numbers_to_vec_case_3() {
    let res = numbers_to_vec(&[1, 2], &[2]).unwrap();
    assert_eq!(res, vec![X, O, O, X, X]);
}

#[test]
fn numbers_to_vec_case_empty() {
    let res = numbers_to_vec(&[0, 0], &[3]).unwrap();
    assert_eq!(res, vec![O, O, O]);
}

#[test]
fn numbers_to_vec_invalid_arity() {
    assert_eq!(numbers_to_vec(&[1], &[2, 4]), Err(Error::InvalidArity));
    assert_eq!(numbers_to_vec(&[1, 2, 3, 4], &[2, 4]), Err(Error::InvalidArity));
    assert_eq!(numbers_to_vec(&[], &[2, 4]), Err(Error::InvalidArity));
    assert_eq!(numbers_to_vec(&[1, 2], &[]), Err(Error::InvalidArity));
}

#[test]
fn numbers_to_vec_runs_match_labels() {
    let labels = [2, 1, 3];
    let line = numbers_to_vec(&[1, 2, 1, 0], &labels).unwrap();
    assert_eq!(line.len(), 4 + 6);
    let mut runs = Vec::new();
    let mut n = 0;
    for c in line.iter().chain(std::iter::once(&X)) {
        if *c == O {
            n += 1;
        } else if n > 0 {
            runs.push(n);
            n = 0;
        }
    }
    assert_eq!(runs, labels.to_vec());
}

#[test]
pub fn test_get_row_1() {
    let starting_row = vec![N; 15];
    let labels = [7, 7];
    let res = solve_vec(&labels, &starting_row).unwrap();

    let mut exp = vec![O; 15];
    exp[7] = X;
    assert_eq!(res, exp);
}

#[test]
pub fn test_get_row_2() {
    let starting_row = vec![N; 15];
    let labels = [8];
    let res = solve_vec(&labels, &starting_row).unwrap();

    let mut exp = vec![N; 15];
    exp[7] = O;
    assert_eq!(res, exp);
}

#[test]
fn solve_vec_uses_known_cells() {
    let res = solve_vec(&[2], &[N, O, N, N, N]).unwrap();
    assert_eq!(res, vec![N, O, N, X, X]);
}

#[test]
fn solve_vec_solved_line_is_unchanged() {
    let line = vec![O, O, X, O, X, X, O, O, O];
    let res = solve_vec(&[2, 1, 3], &line).unwrap();
    assert_eq!(res, line);
}

#[test]
fn solve_vec_keeps_determined_cells() {
    let line = vec![N, X, N, N, O, N, N];
    let res = solve_vec(&[1, 2], &line).unwrap();
    for (a, b) in line.iter().zip(res.iter()) {
        if *a != N {
            assert_eq!(a, b);
        }
    }
    assert_eq!(res.len(), line.len());
}

#[test]
fn solve_vec_contradiction_is_infeasible() {
    assert_eq!(solve_vec(&[1], &[X, X, X]), Err(Error::Infeasible));
    assert_eq!(solve_vec(&[1], &[O, X, O]), Err(Error::Infeasible));
}

#[test]
fn solve_vec_empty_labels_cross_everything() {
    let res = solve_vec(&[], &[N, N, N]).unwrap();
    assert_eq!(res, vec![X, X, X]);
}

#[test]
fn cell_symbols() {
    let s: String = [N, O, X].iter().map(Cell::symbol).collect();
    assert_eq!(s, " OX");
}
