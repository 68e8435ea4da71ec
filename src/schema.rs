//! The grid a puzzle is solved on: cells in an `Array2D`, and the labels of
//! every row and column.
use array2d::Array2D;
use itertools::Itertools;
use vstd::prelude::*;

use crate::model::column;
use crate::model::full_sizes;
use crate::model::groups;
use crate::model::label_ints;
use crate::model::min_length;
use crate::model::satisfies;
use crate::model::seq_sum;

verus! {

/// The state of one grid position.
#[derive(Clone, Copy, PartialEq, Eq, Debug, Structural)]
pub enum Cell {
    /// Not determined yet.
    Empty,
    /// Filled.
    Full,
    /// Confirmed empty.
    Crossed,
}

/// Failures of the library.
#[derive(Debug, PartialEq, Eq)]
pub enum Error {
    /// A label list does not match the grid it was given for.
    InvalidLabel(String),
    /// A gap distribution whose length is not one more than the label count.
    InvalidArity,
    /// A line has no placement consistent with its determined cells.
    Infeasible,
    /// Propagation came to rest before every line met its labels.
    Unsolvable,
}

impl Cell {
    /// The character that stands for the cell in a printed grid.
    pub fn symbol(&self) -> (r: char)
        ensures
            r == (match *self {
                Cell::Empty => ' ',
                Cell::Full => 'O',
                Cell::Crossed => 'X',
            }),
    {
        match self {
            Cell::Empty => ' ',
            Cell::Full => 'O',
            Cell::Crossed => 'X',
        }
    }
}

/// Whether `c` is `Full`.
pub fn is_full(c: &Cell) -> (r: bool)
    ensures
        r == (*c == Cell::Full),
{
    *c == Cell::Full
}

#[verifier::external_type_specification]
#[verifier::external_body]
#[verifier::reject_recursive_types(T)]
pub struct ExArray2D<T>(Array2D<T>);

/// The rows of a grid of cells, top to bottom.
pub uninterp spec fn grid_rows(a: Array2D<Cell>) -> Seq<Seq<Cell>>;

/// The number of columns that a grid of cells was made with.
pub uninterp spec fn grid_width(a: Array2D<Cell>) -> nat;

/// Relies on array2d::Array2D::filled_with: `rows` rows of `cols` copies of
/// `c` (it multiplies the two counts, which must not overflow).
#[verifier::external_body]
fn grid_filled(c: Cell, rows: usize, cols: usize) -> (r: Array2D<Cell>)
    requires
        rows * cols <= usize::MAX,
    ensures
        grid_rows(r) == Seq::new(rows as nat, |_i: int| Seq::new(cols as nat, |_j: int| c)),
        grid_width(r) == cols,
{
    Array2D::filled_with(c, rows, cols)
}

/// Relies on array2d::Array2D::num_rows.
#[verifier::external_body]
fn grid_num_rows(a: &Array2D<Cell>) -> (r: usize)
    ensures
        r == grid_rows(*a).len(),
{
    a.num_rows()
}

/// Relies on array2d::Array2D::num_columns.
#[verifier::external_body]
fn grid_num_columns(a: &Array2D<Cell>) -> (r: usize)
    ensures
        r == grid_width(*a),
{
    a.num_columns()
}

/// Relies on array2d::Array2D::get: the cell in bounds, `None` outside.
#[verifier::external_body]
fn grid_get(a: &Array2D<Cell>, row: usize, col: usize) -> (r: Option<Cell>)
    ensures
        row < grid_rows(*a).len() && col < grid_width(*a) ==> r == Some(grid_rows(*a)[row as int][col as int]),
        !(row < grid_rows(*a).len() && col < grid_width(*a)) ==> r is None,
{
    a.get(row, col).copied()
}

/// Relies on array2d::Array2D::set: in bounds it replaces the one cell and
/// succeeds; outside it changes nothing and fails.
#[verifier::external_body]
fn grid_set(a: &mut Array2D<Cell>, row: usize, col: usize, v: Cell) -> (r: bool)
    ensures
        r == (row < grid_rows(*old(a)).len() && col < grid_width(*old(a))),
        grid_width(*final(a)) == grid_width(*old(a)),
        r ==> grid_rows(*final(a)) == grid_rows(*old(a)).update(
            row as int,
            grid_rows(*old(a))[row as int].update(col as int, v),
        ),
        !r ==> grid_rows(*final(a)) == grid_rows(*old(a)),
{
    a.set(row, col, v).is_ok()
}

/// Relies on itertools::Itertools::group_by: the maximal blocks of
/// neighbouring cells with the same fullness, in order, each with its size.
#[verifier::external_body]
fn full_groups(line: &[Cell]) -> (r: Vec<(bool, usize)>)
    ensures
        r@.len() == groups(line@).len(),
        forall|k: int|
            0 <= k < r@.len() ==> (#[trigger] r@[k]).0 == groups(line@)[k].0 && r@[k].1 as int
                == groups(line@)[k].1,
{
    let grouped = line.iter().group_by(|c| is_full(c));
    let r = grouped.into_iter().map(|(k, g)| (k, g.count())).collect();
    r
}

/// Each label list as a sequence.
pub open spec fn label_view(ls: Seq<Vec<usize>>) -> Seq<Seq<usize>> {
    ls.map_values(|v: Vec<usize>| v@)
}

/// Relies on std's `format!`: the text of a label count mismatch.
#[verifier::external_body]
fn label_count_message(expected: usize, found: usize) -> String {
    format!("expected {}, found {}", expected, found)
}

/// Relies on std's `format!`: the text of a label list that is too long.
#[verifier::external_body]
fn label_length_message(max: usize, index: usize) -> String {
    format!("Label sum exceeds maximum allowed {} at index {}", max, index)
}

/// Whether `labels`, with one cell between runs, fit in `cols` cells.
pub fn labels_fit(labels: &[usize], cols: usize) -> (r: bool)
    ensures
        r == (min_length(labels@) <= cols),
{
    let mut used: usize = 0;
    let mut k: usize = 0;
    while k < labels.len()
        invariant
            k <= labels@.len(),
            used <= cols,
            k > 0 ==> used == seq_sum(labels@.take(k as int)) + k - 1,
        decreases labels@.len() - k,
    {
        proof {
            crate::model::lemma_sum_take_step(labels@, k as int);
            crate::model::lemma_sum_take_le(labels@, k as int + 1);
        }
        if k == 0 {
            if labels[0] > cols {
                return false;
            }
            used = labels[0];
            assert(labels@.take(0) =~= Seq::<usize>::empty());
        } else {
            if used >= cols || labels[k] > cols - used - 1 {
                return false;
            }
            used = used + 1 + labels[k];
        }
        k = k + 1;
    }
    assert(labels@.take(labels@.len() as int) =~= labels@);
    true
}

/// Checks that there are `rows` label lists and that each fits in `cols` cells.
fn _validate(rows: usize, rows_labels: &Vec<Vec<usize>>, cols: usize) -> (r: Result<(), Error>)
    ensures
        r is Ok <==> (rows_labels@.len() == rows && forall|i: int|
            0 <= i < rows ==> min_length(#[trigger] rows_labels@[i]@) <= cols),
        r is Err ==> r->Err_0 is InvalidLabel,
{
    if rows_labels.len() != rows {
        return Err(Error::InvalidLabel(label_count_message(rows, rows_labels.len())));
    }
    let mut i: usize = 0;
    while i < rows_labels.len()
        invariant
            i <= rows_labels@.len(),
            forall|k: int| 0 <= k < i ==> min_length(#[trigger] rows_labels@[k]@) <= cols,
        decreases rows_labels@.len() - i,
    {
        if !labels_fit(rows_labels[i].as_slice(), cols) {
            return Err(Error::InvalidLabel(label_length_message(cols, i)));
        }
        i = i + 1;
    }
    Ok(())
}

/// A puzzle grid: its cells and the labels of every row and column.
pub struct NonogramSchema {
    data: Array2D<Cell>,
    row_lbl: Vec<Vec<usize>>,
    col_lbl: Vec<Vec<usize>>,
}

impl NonogramSchema {
    /// The rows of cells, top to bottom.
    pub closed spec fn cells(&self) -> Seq<Seq<Cell>> {
        grid_rows(self.data)
    }

    /// The number of columns.
    pub closed spec fn width(&self) -> nat {
        grid_width(self.data)
    }

    /// The labels of each row.
    pub closed spec fn row_labels(&self) -> Seq<Seq<usize>> {
        label_view(self.row_lbl@)
    }

    /// The labels of each column.
    pub closed spec fn col_labels(&self) -> Seq<Seq<usize>> {
        label_view(self.col_lbl@)
    }

    /// The number of rows.
    pub open spec fn height(&self) -> nat {
        self.cells().len()
    }

    /// Every row is `width` cells long, there is one label list per row and
    /// per column, and each fits in its line.
    pub open spec fn wf(&self) -> bool {
        &&& forall|i: int| 0 <= i < self.height() ==> (#[trigger] self.cells()[i]).len() == self.width()
        &&& self.row_labels().len() == self.height()
        &&& self.col_labels().len() == self.width()
        &&& forall|i: int|
            0 <= i < self.height() ==> min_length(#[trigger] self.row_labels()[i]) <= self.width()
        &&& forall|j: int|
            0 <= j < self.width() ==> min_length(#[trigger] self.col_labels()[j]) <= self.height()
    }

    /// A `rows` by `cols` grid of `Empty` cells with the given labels. Fails
    /// with `InvalidLabel` unless there is one label list per row and per
    /// column and each fits in its line.
    pub fn new(rows: usize, cols: usize, row_labels: Vec<Vec<usize>>, col_labels: Vec<Vec<usize>>) -> (r: Result<Self, Error>)
        requires
            rows * cols <= usize::MAX,
        ensures
            r is Ok <==> (row_labels@.len() == rows && col_labels@.len() == cols && (forall|i: int|
                0 <= i < rows ==> min_length(#[trigger] row_labels@[i]@) <= cols) && (forall|j: int|
                0 <= j < cols ==> min_length(#[trigger] col_labels@[j]@) <= rows)),
            r is Ok ==> r->Ok_0.wf(),
            r is Ok ==> r->Ok_0.cells() == Seq::new(rows as nat, |_i: int| Seq::new(cols as nat, |_j: int| Cell::Empty)),
            r is Ok ==> r->Ok_0.width() == cols,
            r is Ok ==> r->Ok_0.row_labels() == label_view(row_labels@),
            r is Ok ==> r->Ok_0.col_labels() == label_view(col_labels@),
            r is Err ==> r->Err_0 is InvalidLabel,
    {
        _validate(rows, &row_labels, cols)?;
        _validate(cols, &col_labels, rows)?;

        let schema = NonogramSchema {
            data: grid_filled(Cell::Empty, rows, cols),
            row_lbl: row_labels,
            col_lbl: col_labels,
        };
        Ok(schema)
    }

    /// The number of rows.
    pub fn rows(&self) -> (r: usize)
        ensures
            r == self.height(),
    {
        grid_num_rows(&self.data)
    }

    /// The number of columns.
    pub fn cols(&self) -> (r: usize)
        ensures
            r == self.width(),
    {
        grid_num_columns(&self.data)
    }

    /// The cells of row `i`.
    pub fn row_at(&self, i: usize) -> (r: Vec<Cell>)
        requires
            self.wf(),
            i < self.height(),
        ensures
            r@ == self.cells()[i as int],
    {
        let n = grid_num_columns(&self.data);
        let mut v: Vec<Cell> = Vec::new();
        let mut j: usize = 0;
        while j < n
            invariant
                self.wf(),
                i < self.height(),
                n == self.width(),
                j <= n,
                v@ == self.cells()[i as int].take(j as int),
            decreases n - j,
        {
            if let Some(c) = grid_get(&self.data, i, j) {
                v.push(c);
            }
            j = j + 1;
            assert(v@ =~= self.cells()[i as int].take(j as int));
        }
        assert(self.cells()[i as int].take(n as int) =~= self.cells()[i as int]);
        v
    }

    /// Writes `row` over the first cells of row `i`.
    pub fn set_row_at(&mut self, i: usize, row: &[Cell])
        requires
            old(self).wf(),
            i < old(self).height(),
            row@.len() <= old(self).width(),
        ensures
            final(self).wf(),
            final(self).width() == old(self).width(),
            final(self).row_labels() == old(self).row_labels(),
            final(self).col_labels() == old(self).col_labels(),
            final(self).cells() == old(self).cells().update(
                i as int,
                row@ + old(self).cells()[i as int].skip(row@.len() as int),
            ),
    {
        let mut j: usize = 0;
        assert(row@.take(0) + old(self).cells()[i as int].skip(0) =~= old(self).cells()[i as int]);
        assert(old(self).cells().update(i as int, old(self).cells()[i as int]) =~= old(self).cells());
        while j < row.len()
            invariant
                old(self).wf(),
                i < old(self).height(),
                self.wf(),
                i < self.height(),
                j <= row@.len(),
                row@.len() <= self.width(),
                self.width() == old(self).width(),
                self.row_labels() == old(self).row_labels(),
                self.col_labels() == old(self).col_labels(),
                self.cells() == old(self).cells().update(
                    i as int,
                    row@.take(j as int) + old(self).cells()[i as int].skip(j as int),
                ),
            decreases row@.len() - j,
        {
            let ghost prev = self.cells();
            self.set_cell(i, j, row[j]);
            j = j + 1;
            assert(prev[i as int] == row@.take(j - 1) + old(self).cells()[i as int].skip(j - 1));
            assert(row@.take(j as int) + old(self).cells()[i as int].skip(j as int) =~= (row@.take(
                j - 1,
            ) + old(self).cells()[i as int].skip(j - 1)).update(j - 1, row@[j - 1]));
        }
        assert(row@.take(j as int) =~= row@);
    }

    /// The cells of column `j`.
    pub fn col_at(&self, j: usize) -> (r: Vec<Cell>)
        requires
            self.wf(),
            j < self.width(),
        ensures
            r@ == column(self.cells(), j as int),
    {
        let n = grid_num_rows(&self.data);
        let mut v: Vec<Cell> = Vec::new();
        let mut i: usize = 0;
        while i < n
            invariant
                self.wf(),
                j < self.width(),
                n == self.height(),
                i <= n,
                v@ == column(self.cells(), j as int).take(i as int),
            decreases n - i,
        {
            if let Some(c) = grid_get(&self.data, i, j) {
                v.push(c);
            }
            i = i + 1;
            assert(v@ =~= column(self.cells(), j as int).take(i as int));
        }
        assert(column(self.cells(), j as int).take(n as int) =~= column(self.cells(), j as int));
        v
    }

    /// Writes `col` over the first cells of column `j`.
    pub fn set_col_at(&mut self, j: usize, col: &[Cell])
        requires
            old(self).wf(),
            j < old(self).width(),
            col@.len() <= old(self).height(),
        ensures
            final(self).wf(),
            final(self).width() == old(self).width(),
            final(self).row_labels() == old(self).row_labels(),
            final(self).col_labels() == old(self).col_labels(),
            final(self).cells() == Seq::new(
                old(self).height(),
                |r: int|
                    if r < col@.len() {
                        old(self).cells()[r].update(j as int, col@[r])
                    } else {
                        old(self).cells()[r]
                    },
            ),
    {
        let mut i: usize = 0;
        while i < col.len()
            invariant
                self.wf(),
                j < self.width(),
                i <= col@.len(),
                col@.len() <= self.height(),
                self.width() == old(self).width(),
                self.row_labels() == old(self).row_labels(),
                self.col_labels() == old(self).col_labels(),
                self.cells() == Seq::new(
                    old(self).height(),
                    |r: int|
                        if r < i {
                            old(self).cells()[r].update(j as int, col@[r])
                        } else {
                            old(self).cells()[r]
                        },
                ),
            decreases col@.len() - i,
        {
            self.set_cell(i, j, col[i]);
            i = i + 1;
            assert(self.cells() =~= Seq::new(
                old(self).height(),
                |r: int|
                    if r < i {
                        old(self).cells()[r].update(j as int, col@[r])
                    } else {
                        old(self).cells()[r]
                    },
            ));
        }
    }

    /// Writes `v` into row `i`, column `j`.
    pub fn set_cell(&mut self, i: usize, j: usize, v: Cell)
        requires
            old(self).wf(),
            i < old(self).height(),
            j < old(self).width(),
        ensures
            final(self).wf(),
            final(self).width() == old(self).width(),
            final(self).row_labels() == old(self).row_labels(),
            final(self).col_labels() == old(self).col_labels(),
            final(self).cells() == old(self).cells().update(
                i as int,
                old(self).cells()[i as int].update(j as int, v),
            ),
    {
        grid_set(&mut self.data, i, j, v);
        assert forall|r: int| 0 <= r < self.height() implies (#[trigger] self.cells()[r]).len() == self.width() by {
            if r != i {
                assert(self.cells()[r] == old(self).cells()[r]);
            }
        }
    }

    /// The labels of row `i`.
    pub fn row_label_at(&self, i: usize) -> (r: &[usize])
        requires
            i < self.row_labels().len(),
        ensures
            r@ == self.row_labels()[i as int],
    {
        self.row_lbl[i].as_slice()
    }

    /// The labels of column `j`.
    pub fn col_label_at(&self, j: usize) -> (r: &[usize])
        requires
            j < self.col_labels().len(),
        ensures
            r@ == self.col_labels()[j as int],
    {
        self.col_lbl[j].as_slice()
    }

    /// Whether the runs of full cells in row `i` are its labels.
    pub fn solved_row(&self, i: usize) -> (r: bool)
        requires
            self.wf(),
            i < self.height(),
        ensures
            r == satisfies(self.cells()[i as int], self.row_labels()[i as int]),
    {
        let row = self.row_at(i);
        self.is_solved(&row, self.row_lbl[i].as_slice())
    }

    /// Whether the runs of full cells in column `j` are its labels.
    pub fn solved_col(&self, j: usize) -> (r: bool)
        requires
            self.wf(),
            j < self.width(),
        ensures
            r == satisfies(column(self.cells(), j as int), self.col_labels()[j as int]),
    {
        let col = self.col_at(j);
        self.is_solved(&col, self.col_lbl[j].as_slice())
    }

    /// Whether the runs of full cells in `data` are exactly `labels`.
    fn is_solved(&self, data: &[Cell], labels: &[usize]) -> (r: bool)
        ensures
            r == satisfies(data@, labels@),
    {
        let gs = full_groups(data);
        let ghost spec_gs = groups(data@);
        let mut values: Vec<usize> = Vec::new();
        let mut k: usize = 0;
        assert(spec_gs.skip(0) =~= spec_gs);
        while k < gs.len()
            invariant
                spec_gs == groups(data@),
                gs@.len() == spec_gs.len(),
                forall|m: int|
                    0 <= m < gs@.len() ==> (#[trigger] gs@[m]).0 == spec_gs[m].0 && gs@[m].1 as int
                        == spec_gs[m].1,
                k <= gs@.len(),
                values@.map_values(|x: usize| x as int) + full_sizes(spec_gs.skip(k as int)) == full_sizes(spec_gs),
            decreases gs@.len() - k,
        {
            let ghost before = values@;
            assert(spec_gs.skip(k as int).drop_first() =~= spec_gs.skip(k as int + 1));
            let (full, n) = gs[k];
            if full {
                values.push(n);
            }
            k = k + 1;
            assert(values@.map_values(|x: usize| x as int) + full_sizes(spec_gs.skip(k as int)) =~= before.map_values(|x: usize| x as int) + full_sizes(spec_gs.skip(k - 1)));
        }
        assert(full_sizes(spec_gs.skip(k as int)) =~= Seq::<int>::empty());
        assert(values@.map_values(|x: usize| x as int) =~= full_sizes(spec_gs));
        if values.len() != labels.len() {
            assert(label_ints(labels@).len() != full_sizes(spec_gs).len());
            return false;
        }
        let mut i: usize = 0;
        while i < labels.len()
            invariant
                values@.len() == labels@.len(),
                values@.map_values(|x: usize| x as int) == full_sizes(groups(data@)),
                i <= labels@.len(),
                forall|m: int| 0 <= m < i ==> values@[m] == labels@[m],
            decreases labels@.len() - i,
        {
            if values[i] != labels[i] {
                assert(full_sizes(groups(data@))[i as int] != label_ints(labels@)[i as int]);
                return false;
            }
            i = i + 1;
        }
        assert(full_sizes(groups(data@)) =~= label_ints(labels@));
        true
    }
}

} // verus!
