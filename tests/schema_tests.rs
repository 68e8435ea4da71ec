use nonogram::schema::Cell::Crossed as X;
use nonogram::schema::Cell::Empty as N;
use nonogram::schema::Cell::Full as O;
use nonogram::schema::Error;
use nonogram::schema::NonogramSchema;
use nonogram::solver::solve;

fn labels_of(line: &[bool]) -> Vec<usize> {
    let mut out = Vec::new();
    let mut n = 0;
    for &b in line.iter().chain(std::iter::once(&false)) {
        if b {
            n += 1;
        } else if n > 0 {
            out.push(n);
            n = 0;
        }
    }
    out
}

fn schema_for(picture: &[Vec<bool>]) -> NonogramSchema {
    let rows = picture.len();
    let cols = picture[0].len();
    let row_labels: Vec<Vec<usize>> = picture.iter().map(|r| labels_of(r)).collect();
    let col_labels: Vec<Vec<usize>> = (0..cols)
        .map(|j| labels_of(&picture.iter().map(|r| r[j]).collect::<Vec<_>>()))
        .collect();
    NonogramSchema::new(rows, cols, row_labels, col_labels).unwrap()
}

#[test]
fn new_checks_label_counts() {
    let r = NonogramSchema::new(2, 2, vec![vec![1]], vec![vec![1], vec![1]]);
    assert!(matches!(r, Err(Error::InvalidLabel(_))));
    let r = NonogramSchema::new(2, 2, vec![vec![1], vec![1]], vec![vec![1]]);
    assert!(matches!(r, Err(Error::InvalidLabel(_))));
}

#[test]
fn new_checks_label_lengths() {
    let r = NonogramSchema::new(2, 3, vec![vec![1, 2], vec![1]], vec![vec![1], vec![1], vec![1]]);
    assert!(matches!(r, Err(Error::InvalidLabel(_))));
    let r = NonogramSchema::new(2, 3, vec![vec![1, 1], vec![3]], vec![vec![2], vec![1], vec![2]]);
    assert!(r.is_ok());
}

#[test]
fn new_grid_is_unknown() {
    let s = NonogramSchema::new(2, 3, vec![vec![1], vec![]], vec![vec![], vec![1], vec![]]).unwrap();
    assert_eq!(s.rows(), 2);
    assert_eq!(s.cols(), 3);
    assert_eq!(s.row_at(1), vec![N, N, N]);
    assert_eq!(s.col_at(2), vec![N, N]);
    assert_eq!(s.row_label_at(0), &[1]);
    assert_eq!(s.col_label_at(1), &[1]);
}

#[test]
fn rows_and_columns_are_written() {
    let mut s = NonogramSchema::new(2, 3, vec![vec![1], vec![2]], vec![vec![], vec![2], vec![1]]).unwrap();
    s.set_row_at(0, &[X, O, X]);
    s.set_col_at(2, &[X, O]);
    assert_eq!(s.row_at(0), vec![X, O, X]);
    assert_eq!(s.row_at(1), vec![N, N, O]);
    assert_eq!(s.col_at(1), vec![O, N]);
    assert!(s.solved_row(0));
    assert!(!s.solved_row(1));
    s.set_row_at(1, &[X, O]);
    assert!(s.solved_row(1));
    assert!(s.solved_col(1));
    assert!(s.solved_col(2));
    assert!(s.solved_col(0));
}

#[test]
fn solve_small_picture() {
    let picture = vec![
        vec![true, true, false],
        vec![false, true, true],
        vec![true, false, true],
    ];
    let mut s = schema_for(&picture);
    assert_eq!(solve(&mut s), Ok(()));
    for i in 0..3 {
        let row: Vec<bool> = s.row_at(i).iter().map(|c| *c == O).collect();
        assert_eq!(row, picture[i]);
    }
}

#[test]
fn solve_fifteen_by_fifteen() {
    let picture: Vec<Vec<bool>> = (0..15)
        .map(|i| (0..15).map(|j| i % 7 == 0 || j % 7 == 0).collect())
        .collect();
    let mut s = schema_for(&picture);
    assert_eq!(s.row_label_at(1), &[1, 1, 1]);
    assert_eq!(s.col_label_at(7), &[15]);
    assert_eq!(solve(&mut s), Ok(()));
    for i in 0..15 {
        let row: Vec<bool> = s.row_at(i).iter().map(|c| *c == O).collect();
        assert_eq!(row, picture[i]);
        assert!(s.solved_row(i));
        assert!(s.solved_col(i));
        assert!(s.row_at(i).iter().all(|c| *c != N));
    }
}

#[test]
fn solve_triangle() {
    let picture: Vec<Vec<bool>> = (0..6).map(|i| (0..6).map(|j| j <= i).collect()).collect();
    let mut s = schema_for(&picture);
    assert_eq!(solve(&mut s), Ok(()));
    for i in 0..6 {
        let row: Vec<bool> = s.row_at(i).iter().map(|c| *c == O).collect();
        assert_eq!(row, picture[i]);
    }
}

#[test]
fn solve_ambiguous_is_unsolvable() {
    let mut s = NonogramSchema::new(2, 2, vec![vec![1], vec![1]], vec![vec![1], vec![1]]).unwrap();
    assert_eq!(solve(&mut s), Err(Error::Unsolvable));
}

#[test]
fn solve_contradiction_is_infeasible() {
    let mut s = NonogramSchema::new(2, 2, vec![vec![2], vec![]], vec![vec![], vec![]]).unwrap();
    assert_eq!(solve(&mut s), Err(Error::Infeasible));
}
