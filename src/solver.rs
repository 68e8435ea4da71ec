//! Line deduction: enumerating placements, materializing them, and reducing
//! a partially known line to what every consistent placement agrees on.
use vstd::prelude::*;

use crate::model::agree;
use crate::model::compatible;
use crate::model::fits;
use crate::model::forced;
use crate::model::lemma_materialize_determined;
use crate::model::lemma_materialize_len;
use crate::model::reduced_cell;
use crate::model::satisfiable;
use crate::model::materialize;
use crate::model::repeat;
use crate::model::is_gap_distribution;
use crate::model::lemma_sum_nonneg;
use crate::model::lemma_sum_take_le;
use crate::model::lemma_sum_take_step;
use crate::model::min_length;
use crate::model::seq_sum;
use std::collections::VecDeque;

use crate::model::all_satisfied;
use crate::model::column;
use crate::model::consistent;
use crate::model::determined;
use crate::model::fixed_point;
use crate::model::lemma_reduce_idempotent;
use crate::model::lemma_stable_satisfied_determined;
use crate::model::no_empty;
use crate::model::reduced_line;
use crate::model::stable;
use crate::model::is_solution;
use crate::model::lemma_reduce_sound;
use crate::model::satisfies;
use crate::model::grid_empty;
use crate::model::lemma_count_empty_update;
use crate::model::lemma_grid_empty_update;
use crate::model::refines;
use crate::model::some_infeasible;
use crate::schema::Cell;
use crate::schema::NonogramSchema;
use crate::schema::Error;

verus! {

/// Every admissible gap distribution for `labels` on a line of `length`
/// cells, in no particular order: the blocked cells before, between and after
/// the runs.
pub fn numbers(labels: &[usize], length: usize) -> (r: Vec<Vec<usize>>)
    requires
        min_length(labels@) <= length,
    ensures
        forall|j: int| 0 <= j < r@.len() ==> is_gap_distribution(#[trigger] r@[j]@, labels@, length as int),
        forall|g: Seq<usize>|
            #[trigger] is_gap_distribution(g, labels@, length as int) ==> exists|j: int|
                0 <= j < r@.len() && #[trigger] r@[j]@ == g,
        forall|a: int, b: int| 0 <= a < b < r@.len() ==> #[trigger] r@[a]@ != #[trigger] r@[b]@,
{
    let mut total: usize = 0;
    let mut k: usize = 0;
    while k < labels.len()
        invariant
            k <= labels@.len(),
            total == seq_sum(labels@.take(k as int)),
            min_length(labels@) <= length,
        decreases labels@.len() - k,
    {
        proof {
            lemma_sum_take_step(labels@, k as int);
            lemma_sum_take_le(labels@, k as int + 1);
        }
        total = total + labels[k];
        k = k + 1;
    }
    assert(labels@.take(labels@.len() as int) =~= labels@);
    let sum = length - total;

    let mut buf: Vec<Vec<usize>> = Vec::new();
    let mut cur: Vec<usize> = vec![0; labels.len()];
    cur.push(0);
    let ghost cur0 = cur@;
    _rec(&mut cur, 0, 0, sum, &mut buf);
    proof {
        let n = labels@.len() + 1;
        assert forall|g: Seq<usize>| g.len() == n implies #[trigger] suffix_ok(g, n as int, 0, sum as int)
            == is_gap_distribution(g, labels@, length as int) by {
            assert(g.skip(0) =~= g);
            if suffix_ok(g, n as int, 0, sum as int) {
                assert forall|k: int| 0 < k < n - 1 implies #[trigger] g[k] >= 1 by {
                    assert(g[k] >= gap_floor(k, n as int));
                }
            }
            if is_gap_distribution(g, labels@, length as int) {
                assert forall|j: int| 0 <= j < n implies #[trigger] g[j] >= gap_floor(j, n as int) by {
                    if 0 < j < n - 1 {
                        assert(g[j] >= 1);
                    }
                }
            }
        }
        assert forall|j: int| 0 <= j < buf@.len() implies is_gap_distribution(#[trigger] buf@[j]@, labels@, length as int) by {
            assert(cur0.len() == n);
            assert(suffix_ok(buf@[j]@, n as int, 0, sum as int));
        }
        assert forall|g: Seq<usize>| #[trigger] is_gap_distribution(g, labels@, length as int) implies exists|j: int|
            0 <= j < buf@.len() && #[trigger] buf@[j]@ == g by {
            assert(suffix_ok(g, n as int, 0, sum as int));
            assert(cur0.len() == n);
            assert(suffix_ok(g, cur0.len() as int, 0 as int, sum - 0));
            assert(g.take(0) =~= cur0.take(0));
        }
    }
    buf
}

/// The least value that entry `j` of a gap distribution of `n` entries may
/// take: zero at both ends, one between runs.
spec fn gap_floor(j: int, n: int) -> int {
    if j == 0 || j == n - 1 {
        0
    } else {
        1
    }
}

/// `v` has `n` entries, and those from `index` on are at least their floor
/// and add up to `rest`.
spec fn suffix_ok(v: Seq<usize>, n: int, index: int, rest: int) -> bool {
    &&& v.len() == n
    &&& forall|j: int| index <= j < n ==> #[trigger] v[j] >= gap_floor(j, n)
    &&& seq_sum(v.skip(index)) == rest
}

/// The sum from `index` on is the entry at `index` plus the sum after it.
proof fn lemma_skip_step(v: Seq<usize>, index: int)
    requires
        0 <= index < v.len(),
    ensures
        seq_sum(v.skip(index)) == v[index] + seq_sum(v.skip(index + 1)),
{
    assert(v.skip(index).drop_first() =~= v.skip(index + 1));
    assert(v.skip(index)[0] == v[index]);
}

/// Appends to `buf`, once each, every sequence as long as `cur` that starts
/// with the first `index` entries of `cur`, whose later entries are at least
/// their floor, and whose later entries add up to `sum - cur_sum`. Only the
/// entries of `cur` from `index` on are overwritten.
fn _rec(cur: &mut Vec<usize>, index: usize, cur_sum: usize, sum: usize, buf: &mut Vec<Vec<usize>>)
    requires
        old(cur)@.len() >= 1,
        index <= old(cur)@.len(),
    ensures
        final(cur)@.len() == old(cur)@.len(),
        final(cur)@.take(index as int) == old(cur)@.take(index as int),
        final(buf)@.len() >= old(buf)@.len(),
        forall|j: int| 0 <= j < old(buf)@.len() ==> #[trigger] final(buf)@[j] == old(buf)@[j],
        forall|j: int|
            old(buf)@.len() <= j < final(buf)@.len() ==> suffix_ok(
                #[trigger] final(buf)@[j]@,
                old(cur)@.len() as int,
                index as int,
                sum - cur_sum,
            ) && final(buf)@[j]@.take(index as int) == old(cur)@.take(index as int),
        forall|a: int, b: int|
            old(buf)@.len() <= a < b < final(buf)@.len() ==> #[trigger] final(buf)@[a]@
                != #[trigger] final(buf)@[b]@,
        forall|v: Seq<usize>|
            #[trigger] suffix_ok(v, old(cur)@.len() as int, index as int, sum - cur_sum) && v.take(index as int)
                == old(cur)@.take(index as int) ==> exists|j: int|
                old(buf)@.len() <= j < final(buf)@.len() && #[trigger] final(buf)@[j]@ == v,
    decreases old(cur)@.len() - index,
{
    if cur_sum > sum {
        proof {
            assert forall|v: Seq<usize>|
                #[trigger] suffix_ok(v, cur@.len() as int, index as int, sum - cur_sum) implies false by {
                lemma_sum_nonneg(v.skip(index as int));
            }
        }
        return;
    }
    let last = cur.len() - 1;
    if index > last {
        if cur_sum == sum {
            let mut copy: Vec<usize> = Vec::new();
            let mut k: usize = 0;
            while k < cur.len()
                invariant
                    k <= cur@.len(),
                    copy@ == cur@.take(k as int),
                decreases cur@.len() - k,
            {
                copy.push(cur[k]);
                k = k + 1;
                assert(copy@ =~= cur@.take(k as int));
            }
            assert(cur@.take(cur@.len() as int) =~= cur@);
            assert(cur@.take(index as int) =~= cur@);
            assert(cur@.skip(index as int) =~= Seq::<usize>::empty());
            buf.push(copy);
            proof {
                let n = buf@.len() - 1;
                assert(buf@[n]@ == cur@);
                assert forall|v: Seq<usize>|
                    #[trigger] suffix_ok(v, cur@.len() as int, index as int, sum - cur_sum) && v.take(index as int)
                        == cur@.take(index as int) implies exists|j: int|
                    old(buf)@.len() <= j < buf@.len() && #[trigger] buf@[j]@ == v by {
                    assert(v.take(index as int) =~= v);
                    assert(buf@[n]@ == v);
                }
            }
        } else {
            proof {
                assert forall|v: Seq<usize>|
                    #[trigger] suffix_ok(v, cur@.len() as int, index as int, sum - cur_sum) implies false by {
                    assert(v.skip(index as int) =~= Seq::<usize>::empty());
                }
            }
        }
        return;
    }
    let inf: usize = if index == 0 || index == last {
        0
    } else {
        1
    };
    let sup = sum - cur_sum;

    let ghost cur0 = cur@;
    let ghost buf0 = buf@;
    let ghost n = cur0.len() as int;
    let ghost mut bound: int = inf as int;
    let mut i: usize = inf;
    let mut more = inf <= sup;
    assert(cur0.len() <= usize::MAX);
    while more
        invariant
            index <= last,
            last + 1 == cur0.len(),
            n == cur0.len(),
            old(cur)@ == cur0,
            cur0.len() <= usize::MAX,
            cur@.len() == cur0.len(),
            cur@.take(index as int) == cur0.take(index as int),
            cur_sum <= sum,
            sup == sum - cur_sum,
            inf == gap_floor(index as int, n),
            inf <= bound,
            more ==> i == bound && i <= sup,
            !more ==> bound > sup,
            buf@.len() >= buf0.len(),
            forall|j: int| 0 <= j < buf0.len() ==> #[trigger] buf@[j] == buf0[j],
            forall|j: int|
                buf0.len() <= j < buf@.len() ==> suffix_ok(#[trigger] buf@[j]@, n, index as int, sup as int)
                    && buf@[j]@.take(index as int) == cur0.take(index as int) && buf@[j]@[index as int] < bound,
            forall|a: int, b: int|
                buf0.len() <= a < b < buf@.len() ==> #[trigger] buf@[a]@ != #[trigger] buf@[b]@,
            forall|v: Seq<usize>|
                #[trigger] suffix_ok(v, n, index as int, sup as int) && v.take(index as int)
                    == cur0.take(index as int) && v[index as int] < bound ==> exists|j: int|
                    buf0.len() <= j < buf@.len() && #[trigger] buf@[j]@ == v,
        decreases sup - i + (if more { 1int } else { 0int }),
    {
        cur.set(index, i);
        let ghost before = buf@;
        let ghost pre = cur@;
        proof {
            assert(cur@.take(index as int) =~= cur0.take(index as int));
        }
        _rec(cur, index + 1, cur_sum + i, sum, buf);
        proof {
            assert(pre.take(index as int + 1) =~= pre.take(index as int).push(i));
            assert forall|v: Seq<usize>|
                #[trigger] suffix_ok(v, n, index as int, sup as int) && v.take(index as int)
                    == cur0.take(index as int) && v[index as int] < i + 1 implies exists|j: int|
                buf0.len() <= j < buf@.len() && #[trigger] buf@[j]@ == v by {
                if v[index as int] < i {
                    let j0 = choose|j: int| buf0.len() <= j < before.len() && #[trigger] before[j]@ == v;
                    assert(buf@[j0] == before[j0]);
                } else {
                    lemma_skip_step(v, index as int);
                    assert(v.take(index as int + 1) =~= v.take(index as int).push(v[index as int]));
                    assert(suffix_ok(v, n, index + 1, sum - (cur_sum + i)));
                }
            }
            assert(cur@.take(index as int) =~= cur@.take(index as int + 1).take(index as int));
            assert(pre.take(index as int) =~= pre.take(index as int + 1).take(index as int));
            assert forall|j: int|
                before.len() <= j < buf@.len() implies suffix_ok(#[trigger] buf@[j]@, n, index as int, sup as int)
                    && buf@[j]@.take(index as int) == cur0.take(index as int) && buf@[j]@[index as int] == i by {
                let v = buf@[j]@;
                assert(v.take(index as int + 1) == pre.take(index as int + 1));
                assert(v.take(index as int) =~= v.take(index as int + 1).take(index as int));
                assert(v[index as int] == v.take(index as int + 1)[index as int]);
                assert(pre[index as int] == pre.take(index as int + 1)[index as int]);
                lemma_skip_step(v, index as int);
            }
            assert forall|j: int|
                buf0.len() <= j < before.len() implies suffix_ok(#[trigger] buf@[j]@, n, index as int, sup as int)
                    && buf@[j]@.take(index as int) == cur0.take(index as int) && buf@[j]@[index as int] < i by {
                assert(buf@[j] == before[j]);
            }
            assert forall|a: int, b: int|
                buf0.len() <= a < b < buf@.len() implies #[trigger] buf@[a]@ != #[trigger] buf@[b]@ by {
                if b < before.len() {
                    assert(buf@[a] == before[a]);
                    assert(buf@[b] == before[b]);
                } else if a < before.len() {
                    assert(buf@[a]@[index as int] < i);
                    assert(buf@[b]@[index as int] == i);
                }
            }
            bound = i + 1;
        }
        if i < sup {
            i = i + 1;
        } else {
            more = false;
        }
    }
    proof {
        assert forall|v: Seq<usize>|
            #[trigger] suffix_ok(v, n, index as int, sup as int) && v.take(index as int)
                == cur0.take(index as int) implies v[index as int] < bound by {
            lemma_skip_step(v, index as int);
            lemma_sum_nonneg(v.skip(index as int + 1));
            assert(v[index as int] >= gap_floor(index as int, n));
        }
    }
}

/// Sets to `Empty` each cell of `row1` that differs from the cell of `row2`
/// at the same position (positions past the end of `row2` are kept).
pub fn intersect(row1: &mut Vec<Cell>, row2: &[Cell])
    ensures
        final(row1)@.len() == old(row1)@.len(),
        forall|i: int|
            0 <= i < old(row1)@.len() ==> #[trigger] final(row1)@[i] == if i < row2@.len()
                && old(row1)@[i] != row2@[i] {
                Cell::Empty
            } else {
                old(row1)@[i]
            },
{
    let n = if row1.len() < row2.len() {
        row1.len()
    } else {
        row2.len()
    };
    let mut i: usize = 0;
    while i < n
        invariant
            n <= old(row1)@.len(),
            n <= row2@.len(),
            n == old(row1)@.len() || n == row2@.len(),
            i <= n,
            row1@.len() == old(row1)@.len(),
            forall|k: int|
                0 <= k < old(row1)@.len() ==> #[trigger] row1@[k] == if k < i && old(row1)@[k]
                    != row2@[k] {
                    Cell::Empty
                } else {
                    old(row1)@[k]
                },
        decreases n - i,
    {
        if row1[i] != row2[i] {
            row1.set(i, Cell::Empty);
        }
        i = i + 1;
    }
}

/// Whether the two lines agree wherever both are determined (positions past
/// the shorter line are not compared).
pub fn comply(row1: &[Cell], row2: &[Cell]) -> (r: bool)
    ensures
        r == agree(row1@, row2@),
{
    let n = if row1.len() < row2.len() {
        row1.len()
    } else {
        row2.len()
    };
    let mut i: usize = 0;
    while i < n
        invariant
            n <= row1@.len(),
            n <= row2@.len(),
            n == row1@.len() || n == row2@.len(),
            i <= n,
            forall|k: int|
                0 <= k < i && row1@[k] != Cell::Empty && row2@[k] != Cell::Empty ==> #[trigger] row1@[k]
                    == row2@[k],
        decreases n - i,
    {
        if row1[i] != Cell::Empty && row2[i] != Cell::Empty && row1[i] != row2[i] {
            return false;
        }
        i = i + 1;
    }
    true
}

/// Appends `n` copies of `c` to `v`.
fn push_repeat(v: &mut Vec<Cell>, c: Cell, n: usize)
    ensures
        final(v)@ == old(v)@ + repeat(c, n as int),
{
    let mut j: usize = 0;
    while j < n
        invariant
            j <= n,
            v@ == old(v)@ + repeat(c, j as int),
        decreases n - j,
    {
        v.push(c);
        j = j + 1;
        assert(v@ =~= old(v)@ + repeat(c, j as int));
    }
}

/// The line for the gap distribution `crossed_nums` and the runs
/// `full_nums`: `crossed_nums[0]` crossed cells, `full_nums[0]` full cells,
/// and so on, ending with the last entry of `crossed_nums`. Fails with
/// `InvalidArity` unless there is exactly one more gap than runs.
pub fn numbers_to_vec(crossed_nums: &[usize], full_nums: &[usize]) -> (r: Result<Vec<Cell>, Error>)
    ensures
        crossed_nums@.len() == full_nums@.len() + 1 <==> r is Ok,
        r is Ok ==> r->Ok_0@ == materialize(crossed_nums@, full_nums@),
        r is Err ==> r->Err_0 == Error::InvalidArity,
{
    if crossed_nums.len() == 0 || crossed_nums.len() - 1 != full_nums.len() {
        return Err(Error::InvalidArity);
    }
    let ghost voids = crossed_nums@;
    let ghost labels = full_nums@;
    let mut res: Vec<Cell> = Vec::new();
    let mut k: usize = 0;
    assert(voids.skip(0) =~= voids);
    assert(labels.skip(0) =~= labels);
    assert(res@ + materialize(voids, labels) =~= materialize(voids, labels));
    while k < full_nums.len()
        invariant
            voids == crossed_nums@,
            labels == full_nums@,
            voids.len() == labels.len() + 1,
            k <= labels.len(),
            res@ + materialize(voids.skip(k as int), labels.skip(k as int)) == materialize(voids, labels),
        decreases labels.len() - k,
    {
        let ghost before = res@;
        assert(voids.skip(k as int).drop_first() =~= voids.skip(k as int + 1));
        assert(labels.skip(k as int).drop_first() =~= labels.skip(k as int + 1));
        push_repeat(&mut res, Cell::Crossed, crossed_nums[k]);
        push_repeat(&mut res, Cell::Full, full_nums[k]);
        k = k + 1;
        assert(res@ + materialize(voids.skip(k as int), labels.skip(k as int)) =~= before
            + materialize(voids.skip(k as int - 1), labels.skip(k as int - 1)));
    }
    let last = crossed_nums[full_nums.len()];
    push_repeat(&mut res, Cell::Crossed, last);
    assert(labels.skip(k as int).len() == 0);
    assert(res@ =~= materialize(voids, labels));
    Ok(res)
}

/// The line that candidate `j` of `cs` makes of `labels`.
spec fn cand(cs: Seq<Vec<usize>>, labels: Seq<usize>, j: int) -> Seq<Cell> {
    materialize(cs[j]@, labels)
}

/// Every candidate among the first `k` of `cs` that is compatible with
/// `line` holds `v` at position `i`.
spec fn all_agree(
    cs: Seq<Vec<usize>>,
    labels: Seq<usize>,
    line: Seq<Cell>,
    k: int,
    i: int,
    v: Cell,
) -> bool {
    forall|j: int|
        0 <= j < k && #[trigger] compatible(cand(cs, labels, j), line) ==> cand(cs, labels, j)[i]
            == v
}

/// Line reduction: the cells of `starting_vec` that are still `Empty` take
/// the value shared by every placement of `labels` consistent with the
/// determined cells, where there is one. Fails with `Infeasible` when no
/// placement is consistent.
pub fn solve_vec(labels: &[usize], starting_vec: &[Cell]) -> (r: Result<Vec<Cell>, Error>)
    requires
        min_length(labels@) <= starting_vec@.len(),
    ensures
        r is Ok <==> satisfiable(labels@, starting_vec@),
        r is Ok ==> r->Ok_0@.len() == starting_vec@.len(),
        r is Ok ==> forall|i: int|
            0 <= i < starting_vec@.len() ==> #[trigger] r->Ok_0@[i] == reduced_cell(
                labels@,
                starting_vec@,
                i,
            ),
        r is Ok ==> forall|i: int|
            0 <= i < starting_vec@.len() && #[trigger] starting_vec@[i] != Cell::Empty ==> r->Ok_0@[i]
                == starting_vec@[i],
        r is Err ==> r->Err_0 == Error::Infeasible,
{
    let length = starting_vec.len();
    let cs = numbers(labels, length);
    let ghost line = starting_vec@;
    let ghost lbl = labels@;
    let ghost mut wit: int = 0;
    let mut cur: Option<Vec<Cell>> = None;
    let mut k: usize = 0;
    while k < cs.len()
        invariant
            line == starting_vec@,
            lbl == labels@,
            length == line.len(),
            k <= cs@.len(),
            forall|j: int| 0 <= j < cs@.len() ==> is_gap_distribution(#[trigger] cs@[j]@, lbl, length as int),
            cur is None <==> forall|j: int| 0 <= j < k ==> !#[trigger] compatible(cand(cs@, lbl, j), line),
            cur is Some ==> 0 <= wit < k && compatible(cand(cs@, lbl, wit), line),
            cur is Some ==> cur->Some_0@.len() == length,
            cur is Some ==> forall|i: int|
                0 <= i < length && #[trigger] cur->Some_0@[i] != Cell::Empty ==> all_agree(
                    cs@,
                    lbl,
                    line,
                    k as int,
                    i,
                    cur->Some_0@[i],
                ),
            cur is Some ==> forall|i: int|
                0 <= i < length && #[trigger] cur->Some_0@[i] == Cell::Empty ==> !all_agree(
                    cs@,
                    lbl,
                    line,
                    k as int,
                    i,
                    Cell::Full,
                ) && !all_agree(cs@, lbl, line, k as int, i, Cell::Crossed),
        decreases cs@.len() - k,
    {
        let ghost g = cs@[k as int]@;
        proof {
            lemma_materialize_len(g, lbl);
            lemma_materialize_determined(g, lbl);
        }
        let m = match numbers_to_vec(&cs[k], labels) {
            Ok(m) => m,
            Err(e) => {
                return Err(e);
            },
        };
        assert(m@ == cand(cs@, lbl, k as int));
        if comply(&m, starting_vec) {
            assert(compatible(m@, line));
            match cur {
                None => {
                    proof {
                        wit = k as int;
                        assert forall|i: int|
                            0 <= i < length && #[trigger] m@[i] != Cell::Empty implies all_agree(
                                cs@,
                                lbl,
                                line,
                                k + 1,
                                i,
                                m@[i],
                            ) by {
                            assert forall|j: int|
                                0 <= j < k + 1 && #[trigger] compatible(cand(cs@, lbl, j), line)
                                    implies cand(cs@, lbl, j)[i] == m@[i] by {
                                if j < k {
                                    assert(!compatible(cand(cs@, lbl, j), line));
                                }
                            }
                        }
                    }
                    cur = Some(m);
                },
                Some(mut c) => {
                    let ghost c0 = c@;
                    intersect(&mut c, &m);
                    proof {
                        assert forall|i: int|
                            0 <= i < length && #[trigger] c@[i] != Cell::Empty implies all_agree(
                                cs@,
                                lbl,
                                line,
                                k + 1,
                                i,
                                c@[i],
                            ) by {
                            assert(all_agree(cs@, lbl, line, k as int, i, c0[i]));
                            assert forall|j: int|
                                0 <= j < k + 1 && #[trigger] compatible(cand(cs@, lbl, j), line)
                                    implies cand(cs@, lbl, j)[i] == c@[i] by {}
                        }
                        assert forall|i: int|
                            0 <= i < length && #[trigger] c@[i] == Cell::Empty implies !all_agree(
                                cs@,
                                lbl,
                                line,
                                k + 1,
                                i,
                                Cell::Full,
                            ) && !all_agree(cs@, lbl, line, k + 1, i, Cell::Crossed) by {
                            if c0[i] == Cell::Empty {
                                assert(!all_agree(cs@, lbl, line, k as int, i, Cell::Full));
                                assert(!all_agree(cs@, lbl, line, k as int, i, Cell::Crossed));
                                let j1 = choose|j: int|
                                    0 <= j < k && #[trigger] compatible(cand(cs@, lbl, j), line)
                                        && cand(cs@, lbl, j)[i] != Cell::Full;
                                let j2 = choose|j: int|
                                    0 <= j < k && #[trigger] compatible(cand(cs@, lbl, j), line)
                                        && cand(cs@, lbl, j)[i] != Cell::Crossed;
                                assert(!all_agree(cs@, lbl, line, k + 1, i, Cell::Full)) by {
                                    assert(compatible(cand(cs@, lbl, j1), line));
                                }
                                assert(!all_agree(cs@, lbl, line, k + 1, i, Cell::Crossed)) by {
                                    assert(compatible(cand(cs@, lbl, j2), line));
                                }
                            } else {
                                assert(all_agree(cs@, lbl, line, k as int, i, c0[i]));
                                assert(compatible(cand(cs@, lbl, wit), line));
                                assert(cand(cs@, lbl, wit)[i] == c0[i]);
                                assert(compatible(cand(cs@, lbl, k as int), line));
                                assert(m@[i] != c0[i]);
                            }
                        }
                    }
                    cur = Some(c);
                },
            }
        } else {
            assert(!compatible(cand(cs@, lbl, k as int), line));
        }
        k = k + 1;
    }
    let c = match cur {
        None => {
            proof {
                assert forall|g: Seq<usize>| !#[trigger] fits(g, lbl, line) by {
                    if fits(g, lbl, line) {
                        let j = choose|j: int| 0 <= j < cs@.len() && #[trigger] cs@[j]@ == g;
                        assert(!compatible(cand(cs@, lbl, j), line));
                    }
                }
            }
            return Err(Error::Infeasible);
        },
        Some(c) => c,
    };
    proof {
        assert(fits(cs@[wit]@, lbl, line));
        assert forall|i: int, v: Cell|
            0 <= i < length implies #[trigger] forced(lbl, line, i, v) == all_agree(
                cs@,
                lbl,
                line,
                cs@.len() as int,
                i,
                v,
            ) by {
            if forced(lbl, line, i, v) {
                assert forall|j: int|
                    0 <= j < cs@.len() && #[trigger] compatible(cand(cs@, lbl, j), line) implies cand(
                        cs@,
                        lbl,
                        j,
                    )[i] == v by {
                    assert(fits(cs@[j]@, lbl, line));
                }
            }
            if all_agree(cs@, lbl, line, cs@.len() as int, i, v) {
                assert forall|g: Seq<usize>| #[trigger]
                    fits(g, lbl, line) implies materialize(g, lbl)[i] == v by {
                    let j = choose|j: int| 0 <= j < cs@.len() && #[trigger] cs@[j]@ == g;
                    assert(compatible(cand(cs@, lbl, j), line));
                }
            }
        }
    }
    let mut res: Vec<Cell> = Vec::new();
    let mut i: usize = 0;
    while i < length
        invariant
            line == starting_vec@,
            lbl == labels@,
            length == line.len(),
            c@.len() == length,
            i <= length,
            res@.len() == i,
            forall|p: int|
                0 <= p < length && #[trigger] c@[p] != Cell::Empty ==> all_agree(
                    cs@,
                    lbl,
                    line,
                    cs@.len() as int,
                    p,
                    c@[p],
                ),
            forall|p: int|
                0 <= p < length && #[trigger] c@[p] == Cell::Empty ==> !all_agree(
                    cs@,
                    lbl,
                    line,
                    cs@.len() as int,
                    p,
                    Cell::Full,
                ) && !all_agree(cs@, lbl, line, cs@.len() as int, p, Cell::Crossed),
            0 <= wit < cs@.len(),
            compatible(cand(cs@, lbl, wit), line),
            forall|p: int, v: Cell|
                0 <= p < length ==> #[trigger] forced(lbl, line, p, v) == all_agree(
                    cs@,
                    lbl,
                    line,
                    cs@.len() as int,
                    p,
                    v,
                ),
            forall|p: int| 0 <= p < i ==> #[trigger] res@[p] == reduced_cell(lbl, line, p),
        decreases length - i,
    {
        let x = if starting_vec[i] == Cell::Empty {
            c[i]
        } else {
            starting_vec[i]
        };
        proof {
            let p = i as int;
            if line[p] == Cell::Empty {
                assert(forced(lbl, line, p, Cell::Full) == all_agree(cs@, lbl, line, cs@.len() as int, p, Cell::Full));
                assert(forced(lbl, line, p, Cell::Crossed) == all_agree(cs@, lbl, line, cs@.len() as int, p, Cell::Crossed));
                if c@[p] == Cell::Crossed {
                    assert(cand(cs@, lbl, wit)[p] == Cell::Crossed);
                    assert(!all_agree(cs@, lbl, line, cs@.len() as int, p, Cell::Full));
                }
            }
        }
        res.push(x);
        i = i + 1;
    }
    Ok(res)
}

/// A line waiting to be re-examined: a row or a column, by index.
#[derive(Clone, Copy, Debug)]
enum SolverEnum {
    Row(usize),
    Col(usize),
}

/// The entry names a line of a grid with `h` rows and `w` columns.
spec fn entry_ok(e: SolverEnum, h: nat, w: nat) -> bool {
    match e {
        SolverEnum::Row(i) => i < h,
        SolverEnum::Col(j) => j < w,
    }
}

/// Every entry of the queue names a line of the grid.
spec fn queue_ok(q: Seq<SolverEnum>, h: nat, w: nat) -> bool {
    forall|k: int| 0 <= k < q.len() ==> entry_ok(#[trigger] q[k], h, w)
}

/// Row `i` after its first `p` cells were replaced by those of `new`.
spec fn merged(old_line: Seq<Cell>, new: Seq<Cell>, p: int) -> Seq<Cell> {
    Seq::new(old_line.len(), |q: int| if q < p { new[q] } else { old_line[q] })
}

/// The grid after the first `p` cells of column `j` were replaced by those of `new`.
spec fn merged_col(cells: Seq<Seq<Cell>>, j: int, new: Seq<Cell>, p: int) -> Seq<Seq<Cell>> {
    Seq::new(cells.len(), |r: int| if r < p { cells[r].update(j, new[r]) } else { cells[r] })
}

/// Whether the entry names a row.
spec fn entry_is_row(e: SolverEnum) -> bool {
    match e {
        SolverEnum::Row(_) => true,
        SolverEnum::Col(_) => false,
    }
}

/// The index of the line the entry names.
spec fn entry_index(e: SolverEnum) -> int {
    match e {
        SolverEnum::Row(i) => i as int,
        SolverEnum::Col(j) => j as int,
    }
}

/// The cells of the line the entry names.
spec fn line_of(cells: Seq<Seq<Cell>>, e: SolverEnum) -> Seq<Cell> {
    if entry_is_row(e) {
        cells[entry_index(e)]
    } else {
        column(cells, entry_index(e))
    }
}

/// The labels of the line the entry names.
spec fn labels_of(rl: Seq<Seq<usize>>, cl: Seq<Seq<usize>>, e: SolverEnum) -> Seq<usize> {
    if entry_is_row(e) {
        rl[entry_index(e)]
    } else {
        cl[entry_index(e)]
    }
}

/// The solved flag of the line the entry names.
spec fn flag_of(rs: Seq<bool>, cs: Seq<bool>, e: SolverEnum) -> bool {
    if entry_is_row(e) {
        rs[entry_index(e)]
    } else {
        cs[entry_index(e)]
    }
}

/// The grid with the line of `e` replaced by `new`.
spec fn written(cells: Seq<Seq<Cell>>, e: SolverEnum, new: Seq<Cell>) -> Seq<Seq<Cell>> {
    if entry_is_row(e) {
        cells.update(entry_index(e), new)
    } else {
        Seq::new(cells.len(), |r: int| cells[r].update(entry_index(e), new[r]))
    }
}

/// The line crossing a row (when `is_row`) or a column at index `p`.
spec fn perp(is_row: bool, p: int) -> SolverEnum {
    if is_row {
        SolverEnum::Col(p as usize)
    } else {
        SolverEnum::Row(p as usize)
    }
}

/// The crossing lines of the indices below `n` where `a` and `b` differ, in
/// increasing order.
spec fn crossings(a: Seq<Cell>, b: Seq<Cell>, is_row: bool, n: int) -> Seq<SolverEnum>
    decreases n,
{
    if n <= 0 {
        Seq::empty()
    } else {
        crossings(a, b, is_row, n - 1) + if a[n - 1] != b[n - 1] {
            seq![perp(is_row, n - 1)]
        } else {
            Seq::empty()
        }
    }
}

/// The entry occurs in the queue.
spec fn queued(q: Seq<SolverEnum>, e: SolverEnum) -> bool {
    exists|k: int| 0 <= k < q.len() && #[trigger] q[k] == e
}

proof fn lemma_crossings_contain(a: Seq<Cell>, b: Seq<Cell>, is_row: bool, n: int, p: int)
    requires
        0 <= p < n,
        a[p] != b[p],
    ensures
        queued(crossings(a, b, is_row, n), perp(is_row, p)),
    decreases n,
{
    let c = crossings(a, b, is_row, n);
    if p == n - 1 {
        assert(c[c.len() - 1] == perp(is_row, p));
    } else {
        lemma_crossings_contain(a, b, is_row, n - 1, p);
        let c1 = crossings(a, b, is_row, n - 1);
        let k = choose|k: int| 0 <= k < c1.len() && #[trigger] c1[k] == perp(is_row, p);
        assert(c[k] == perp(is_row, p));
    }
}

/// Writing the reduced line of `e0` leaves every other line as it was,
/// unless a cell of it changed: that cell was `Empty`, and its line is queued.
proof fn lemma_other_line(cells: Seq<Seq<Cell>>, h: nat, w: nat, e0: SolverEnum, new: Seq<Cell>, e: SolverEnum)
    requires
        cells.len() == h,
        forall|r: int| 0 <= r < h ==> (#[trigger] cells[r]).len() == w,
        entry_ok(e0, h, w),
        entry_ok(e, h, w),
        e != e0,
        new.len() == line_of(cells, e0).len(),
        line_of(cells, e0).len() == if entry_is_row(e0) { w } else { h },
        forall|p: int| 0 <= p < new.len() && #[trigger] new[p] != line_of(cells, e0)[p] ==> line_of(cells, e0)[p] == Cell::Empty,
    ensures
        line_of(written(cells, e0, new), e) == line_of(cells, e) || (queued(
            crossings(line_of(cells, e0), new, entry_is_row(e0), new.len() as int),
            e,
        ) && !determined(line_of(cells, e))),
{
    let l0 = line_of(cells, e0);
    let c2 = written(cells, e0, new);
    let i0 = entry_index(e0);
    let i = entry_index(e);
    if entry_is_row(e0) {
        if entry_is_row(e) {
            assert(c2[i] == cells[i]);
        } else {
            if new[i] == l0[i] {
                assert(line_of(c2, e) =~= line_of(cells, e));
            } else {
                lemma_crossings_contain(l0, new, true, new.len() as int, i);
                assert(perp(true, i) == e);
                assert(line_of(cells, e)[i0] == Cell::Empty);
            }
        }
    } else {
        if !entry_is_row(e) {
            assert(line_of(c2, e) =~= line_of(cells, e));
        } else {
            if new[i] == l0[i] {
                assert(c2[i] =~= cells[i]);
            } else {
                lemma_crossings_contain(l0, new, false, new.len() as int, i);
                assert(perp(false, i) == e);
                assert(line_of(cells, e)[i0] == Cell::Empty);
            }
        }
    }
}

/// The line of a solution that crosses `cells` where entry `(i, is_row)`
/// lies meets that line's labels, is fully determined, and agrees with the
/// line of `cells`.
proof fn line_of_solution(
    sol: Seq<Seq<Cell>>,
    cells: Seq<Seq<Cell>>,
    w: nat,
    rl: Seq<Seq<usize>>,
    cl: Seq<Seq<usize>>,
    i: int,
    is_row: bool,
)
    requires
        is_solution(sol, w, rl, cl),
        consistent(sol, cells),
        cells.len() <= usize::MAX,
        w <= usize::MAX,
        forall|r: int| 0 <= r < cells.len() ==> (#[trigger] cells[r]).len() == w,
        is_row ==> 0 <= i < cells.len(),
        !is_row ==> 0 <= i < w,
    ensures
        ({
            let sl = if is_row { sol[i] } else { column(sol, i) };
            let line = if is_row { cells[i] } else { column(cells, i) };
            let lbl = if is_row { rl[i] } else { cl[i] };
            &&& sl.len() <= usize::MAX
            &&& forall|q: int| 0 <= q < sl.len() ==> #[trigger] sl[q] != Cell::Empty
            &&& satisfies(sl, lbl)
            &&& compatible(sl, line)
        }),
{
    let sl = if is_row { sol[i] } else { column(sol, i) };
    let line = if is_row { cells[i] } else { column(cells, i) };
    if is_row {
        assert(sol[i].len() == w);
        assert forall|q: int| 0 <= q < sl.len() implies #[trigger] sl[q] != Cell::Empty by {
            assert(sol[i][q] != Cell::Empty);
        }
        assert forall|q: int|
            0 <= q < sl.len() && q < line.len() && sl[q] != Cell::Empty && line[q] != Cell::Empty
                implies #[trigger] sl[q] == line[q] by {
            assert(cells[i][q] != Cell::Empty);
        }
    } else {
        assert forall|q: int| 0 <= q < sl.len() implies #[trigger] sl[q] != Cell::Empty by {
            assert(sol[q][i] != Cell::Empty);
        }
        assert forall|q: int|
            0 <= q < sl.len() && q < line.len() && sl[q] != Cell::Empty && line[q] != Cell::Empty
                implies #[trigger] sl[q] == line[q] by {
            assert(cells[q][i] != Cell::Empty);
        }
    }
}

/// The reduced line of the entry's line in `schema`.
spec fn reduced_of(schema: NonogramSchema, e: SolverEnum) -> Seq<Cell> {
    reduced_line(labels_of(schema.row_labels(), schema.col_labels(), e), line_of(schema.cells(), e))
}

/// The solved flag that the entry's line earns once reduced: its runs meet
/// its labels.
spec fn solved_flag(schema: NonogramSchema, e: SolverEnum) -> bool {
    satisfies(reduced_of(schema, e), labels_of(schema.row_labels(), schema.col_labels(), e))
}

/// Re-examines the line of `entry`, unless it is already marked solved:
/// reduces it, writes back the cells that changed, queues the crossing line
/// of each, and marks the line solved once its runs meet its labels. Fails
/// with `Infeasible`, changing nothing, when the line has no consistent
/// placement.
fn _solve(
    schema: &mut NonogramSchema,
    entry: SolverEnum,
    modified: &mut VecDeque<SolverEnum>,
    rows_solved: &mut Vec<bool>,
    cols_solved: &mut Vec<bool>,
) -> (r: Result<(), Error>)
    requires
        old(schema).wf(),
        entry_ok(entry, old(schema).height(), old(schema).width()),
        queue_ok(old(modified)@, old(schema).height(), old(schema).width()),
        old(rows_solved)@.len() == old(schema).height(),
        old(cols_solved)@.len() == old(schema).width(),
    ensures
        final(schema).wf(),
        final(schema).width() == old(schema).width(),
        final(schema).row_labels() == old(schema).row_labels(),
        final(schema).col_labels() == old(schema).col_labels(),
        refines(old(schema).cells(), final(schema).cells()),
        queue_ok(final(modified)@, final(schema).height(), final(schema).width()),
        final(rows_solved)@.len() == old(rows_solved)@.len(),
        final(cols_solved)@.len() == old(cols_solved)@.len(),
        grid_empty(final(schema).cells()) + final(modified)@.len() <= grid_empty(old(schema).cells())
            + old(modified)@.len(),
        forall|sol: Seq<Seq<Cell>>|
            #[trigger] is_solution(sol, old(schema).width(), old(schema).row_labels(), old(schema).col_labels())
                && consistent(sol, old(schema).cells()) ==> consistent(sol, final(schema).cells()),
        r is Err ==> forall|sol: Seq<Seq<Cell>>|
            #[trigger] is_solution(sol, old(schema).width(), old(schema).row_labels(), old(schema).col_labels())
                ==> !consistent(sol, old(schema).cells()),
        flag_of(old(rows_solved)@, old(cols_solved)@, entry) ==> r is Ok && final(schema).cells()
            == old(schema).cells() && final(modified)@ == old(modified)@ && final(rows_solved)@ == old(
            rows_solved,
        )@ && final(cols_solved)@ == old(cols_solved)@,
        !flag_of(old(rows_solved)@, old(cols_solved)@, entry) ==> (r is Ok <==> satisfiable(
            labels_of(old(schema).row_labels(), old(schema).col_labels(), entry),
            line_of(old(schema).cells(), entry),
        )),
        !flag_of(old(rows_solved)@, old(cols_solved)@, entry) && r is Ok ==> final(schema).cells()
            == written(old(schema).cells(), entry, reduced_of(*old(schema), entry)),
        !flag_of(old(rows_solved)@, old(cols_solved)@, entry) && r is Ok ==> final(modified)@ == old(
            modified,
        )@ + crossings(
            line_of(old(schema).cells(), entry),
            reduced_of(*old(schema), entry),
            entry_is_row(entry),
            line_of(old(schema).cells(), entry).len() as int,
        ),
        !flag_of(old(rows_solved)@, old(cols_solved)@, entry) && r is Ok ==> final(rows_solved)@ == if entry_is_row(entry) {
            old(rows_solved)@.update(entry_index(entry), solved_flag(*old(schema), entry))
        } else {
            old(rows_solved)@
        },
        !flag_of(old(rows_solved)@, old(cols_solved)@, entry) && r is Ok ==> final(cols_solved)@ == if entry_is_row(entry) {
            old(cols_solved)@
        } else {
            old(cols_solved)@.update(entry_index(entry), solved_flag(*old(schema), entry))
        },
        r is Err ==> final(modified)@ == old(modified)@ && final(rows_solved)@ == old(rows_solved)@
            && final(cols_solved)@ == old(cols_solved)@,
        r is Err ==> r->Err_0 == Error::Infeasible && final(schema).cells() == old(schema).cells()
            && some_infeasible(
            old(schema).cells(),
            old(schema).width(),
            old(schema).row_labels(),
            old(schema).col_labels(),
        ),
{
    let ghost cells0 = schema.cells();
    let ghost h = schema.height();
    let ghost w = schema.width();
    let n_cols = schema.cols();
    let n_rows = schema.rows();
    assert(w == n_cols && h == n_rows);
    let (i, is_row) = match entry {
        SolverEnum::Row(i) => (i, true),
        SolverEnum::Col(j) => (j, false),
    };
    if (is_row && rows_solved[i]) || (!is_row && cols_solved[i]) {
        assert(refines(cells0, schema.cells()));
        return Ok(());
    }
    let line = if is_row {
        schema.row_at(i)
    } else {
        schema.col_at(i)
    };
    let solved = {
        let labels = if is_row {
            schema.row_label_at(i)
        } else {
            schema.col_label_at(i)
        };
        match solve_vec(labels, &line) {
            Ok(v) => v,
            Err(e) => {
                assert(refines(cells0, schema.cells()));
                proof {
                    assert forall|sol: Seq<Seq<Cell>>|
                        #[trigger] is_solution(sol, w, schema.row_labels(), schema.col_labels())
                            implies !consistent(sol, cells0) by {
                        if consistent(sol, cells0) {
                            let sl = if is_row { sol[i as int] } else { column(sol, i as int) };
                            line_of_solution(sol, cells0, w, schema.row_labels(), schema.col_labels(), i as int, is_row);
                            lemma_reduce_sound(labels@, line@, sl);
                        }
                    }
                }
                return Err(e);
            },
        }
    };
    let ghost lbl = if is_row {
        schema.row_labels()[i as int]
    } else {
        schema.col_labels()[i as int]
    };
    assert forall|p: int| 0 <= p < line@.len() && #[trigger] solved@[p] != line@[p] implies line@[p]
        == Cell::Empty && solved@[p] != Cell::Empty by {
        assert(solved@[p] == reduced_cell(lbl, line@, p));
    }
    let ghost q0 = modified@;
    let mut p: usize = 0;
    assert(refines(cells0, cells0));
    if is_row {
        assert(merged(line@, solved@, 0) =~= cells0[i as int]);
        assert(cells0.update(i as int, cells0[i as int]) =~= cells0);
    } else {
        assert(merged_col(cells0, i as int, solved@, 0) =~= cells0);
    }
    while p < line.len()
        invariant
            schema.wf(),
            schema.height() == h,
            schema.width() == w,
            schema.row_labels() == old(schema).row_labels(),
            schema.col_labels() == old(schema).col_labels(),
            cells0 == old(schema).cells(),
            h == cells0.len(),
            old(schema).wf(),
            is_row ==> i < h && line@ == cells0[i as int] && line@.len() == w,
            !is_row ==> i < w && line@ == column(cells0, i as int) && line@.len() == h,
            solved@.len() == line@.len(),
            forall|q: int| 0 <= q < line@.len() && #[trigger] solved@[q] != line@[q] ==> line@[q]
                == Cell::Empty && solved@[q] != Cell::Empty,
            p <= line@.len(),
            is_row ==> schema.cells() == cells0.update(i as int, merged(line@, solved@, p as int)),
            !is_row ==> schema.cells() == merged_col(cells0, i as int, solved@, p as int),
            refines(cells0, schema.cells()),
            queue_ok(modified@, h, w),
            grid_empty(schema.cells()) + modified@.len() == grid_empty(cells0) + q0.len(),
            modified@ == q0 + crossings(line@, solved@, is_row, p as int),
            q0 == old(modified)@,
        decreases line@.len() - p,
    {
        if line[p] != solved[p] {
            let ghost prev = schema.cells();
            let ghost pq = modified@;
            if is_row {
                modified.push_back(SolverEnum::Col(p));
                proof {
                    assert(prev[i as int][p as int] == Cell::Empty);
                    lemma_count_empty_update(prev[i as int], p as int, solved@[p as int]);
                    lemma_grid_empty_update(prev, i as int, prev[i as int].update(p as int, solved@[p as int]));
                }
                schema.set_cell(i, p, solved[p]);
                assert(merged(line@, solved@, p + 1) =~= prev[i as int].update(p as int, solved@[p as int]));
                assert(schema.cells() =~= cells0.update(i as int, merged(line@, solved@, p + 1)));
            } else {
                modified.push_back(SolverEnum::Row(p));
                proof {
                    assert(prev[p as int][i as int] == Cell::Empty);
                    lemma_count_empty_update(prev[p as int], i as int, solved@[p as int]);
                    lemma_grid_empty_update(prev, p as int, prev[p as int].update(i as int, solved@[p as int]));
                }
                schema.set_cell(p, i, solved[p]);
                assert(schema.cells() =~= merged_col(cells0, i as int, solved@, p + 1));
            }
            proof {
                assert forall|k: int| 0 <= k < modified@.len() implies entry_ok(#[trigger] modified@[k], h, w) by {
                    if k < modified@.len() - 1 {
                        assert(modified@[k] == pq[k]);
                    }
                }
                assert(modified@ =~= q0 + crossings(line@, solved@, is_row, p + 1));
            }
        } else {
            if is_row {
                assert(merged(line@, solved@, p + 1) =~= merged(line@, solved@, p as int));
                assert(modified@ =~= q0 + crossings(line@, solved@, is_row, p + 1));
            } else {
                assert(modified@ =~= q0 + crossings(line@, solved@, is_row, p + 1));
                assert forall|r: int| 0 <= r < h implies #[trigger] merged_col(cells0, i as int, solved@, p + 1)[r] =~= merged_col(cells0, i as int, solved@, p as int)[r] by {
                    if r == p {
                        assert(cells0[r].update(i as int, solved@[r]) =~= cells0[r]);
                    }
                }
                assert(merged_col(cells0, i as int, solved@, p + 1) =~= merged_col(cells0, i as int, solved@, p as int));
            }
        }
        p = p + 1;
    }
    proof {
        let rl = old(schema).row_labels();
        let cl = old(schema).col_labels();
        assert forall|sol: Seq<Seq<Cell>>|
            #[trigger] is_solution(sol, w, rl, cl) && consistent(sol, cells0) implies consistent(
            sol,
            schema.cells(),
        ) by {
            let sl = if is_row { sol[i as int] } else { column(sol, i as int) };
            line_of_solution(sol, cells0, w, rl, cl, i as int, is_row);
            lemma_reduce_sound(lbl, line@, sl);
            let fc = schema.cells();
            assert forall|a: int, b: int|
                0 <= a < fc.len() && 0 <= b < fc[a].len() && #[trigger] fc[a][b] != Cell::Empty
                    implies sol[a][b] == fc[a][b] by {
                if is_row {
                    if a == i {
                        assert(fc[a][b] == solved@[b]);
                        assert(solved@[b] == reduced_cell(lbl, line@, b));
                    } else {
                        assert(fc[a][b] == cells0[a][b]);
                    }
                } else {
                    if b == i {
                        assert(fc[a][b] == solved@[a]);
                        assert(solved@[a] == reduced_cell(lbl, line@, a));
                        assert(sl[a] == sol[a][b]);
                    } else {
                        assert(fc[a][b] == cells0[a][b]);
                    }
                }
            }
        }
    }
    proof {
        assert(solved@ =~= reduced_line(lbl, line@));
        assert(line@ == line_of(cells0, entry));
        if is_row {
            assert(merged(line@, solved@, line@.len() as int) =~= solved@);
            assert(schema.cells() =~= written(cells0, entry, solved@));
        } else {
            assert(schema.cells() =~= written(cells0, entry, solved@));
            assert(column(schema.cells(), i as int) =~= solved@);
        }
    }
    let done = if is_row {
        schema.solved_row(i)
    } else {
        schema.solved_col(i)
    };
    if done {
        if is_row {
            rows_solved.set(i, true);
        } else {
            cols_solved.set(i, true);
        }
    }
    proof {
        if is_row {
            assert(rows_solved@ =~= old(rows_solved)@.update(i as int, done));
        } else {
            assert(cols_solved@ =~= old(cols_solved)@.update(i as int, done));
        }
    }
    Ok(())
}

/// Worklist propagation over every row and column until nothing is left to
/// re-examine. Every determined cell keeps its value, and every cell it
/// determines agrees with each complete solution that agreed with the grid it
/// started from. Fails with `Infeasible` as soon as a line has no consistent
/// placement (the grid then has no solution). Otherwise the grid it leaves is
/// a fixed point of line reduction: it succeeds when every row and column
/// meets its labels with no `Empty` cell left, and fails with `Unsolvable`
/// when it does not.
pub fn solve(schema: &mut NonogramSchema) -> (r: Result<(), Error>)
    requires
        old(schema).wf(),
    ensures
        final(schema).wf(),
        final(schema).width() == old(schema).width(),
        final(schema).row_labels() == old(schema).row_labels(),
        final(schema).col_labels() == old(schema).col_labels(),
        refines(old(schema).cells(), final(schema).cells()),
        forall|sol: Seq<Seq<Cell>>|
            #[trigger] is_solution(sol, old(schema).width(), old(schema).row_labels(), old(schema).col_labels())
                && consistent(sol, old(schema).cells()) ==> consistent(sol, final(schema).cells()),
        r is Err && r->Err_0 == Error::Infeasible ==> forall|sol: Seq<Seq<Cell>>|
            #[trigger] is_solution(sol, old(schema).width(), old(schema).row_labels(), old(schema).col_labels())
                ==> !consistent(sol, old(schema).cells()),
        r is Err ==> r->Err_0 == Error::Infeasible || r->Err_0 == Error::Unsolvable,
        (r is Err && r->Err_0 == Error::Infeasible) <==> some_infeasible(
            final(schema).cells(),
            final(schema).width(),
            final(schema).row_labels(),
            final(schema).col_labels(),
        ),
        !(r is Err && r->Err_0 == Error::Infeasible) ==> fixed_point(
            final(schema).cells(),
            final(schema).width(),
            final(schema).row_labels(),
            final(schema).col_labels(),
        ),
        r is Ok <==> !(r is Err && r->Err_0 == Error::Infeasible) && all_satisfied(
            final(schema).cells(),
            final(schema).width(),
            final(schema).row_labels(),
            final(schema).col_labels(),
        ) && no_empty(final(schema).cells()),
{
    let rows = schema.rows();
    let cols = schema.cols();
    let ghost rl = schema.row_labels();
    let ghost cl = schema.col_labels();
    let mut rows_solved: Vec<bool> = vec![false; rows];
    let mut cols_solved: Vec<bool> = vec![false; cols];

    let mut modified: VecDeque<SolverEnum> = VecDeque::new();

    let mut i: usize = 0;
    while i < rows
        invariant
            i <= rows,
            queue_ok(modified@, rows as nat, cols as nat),
            forall|e: SolverEnum| #[trigger] entry_ok(e, i as nat, 0) ==> queued(modified@, e),
        decreases rows - i,
    {
        let ghost q = modified@;
        modified.push_back(SolverEnum::Row(i));
        i = i + 1;
        proof {
            assert forall|e: SolverEnum| #[trigger] entry_ok(e, i as nat, 0) implies queued(modified@, e) by {
                if e == SolverEnum::Row((i - 1) as usize) {
                    assert(modified@[q.len() as int] == e);
                } else {
                    assert(entry_ok(e, (i - 1) as nat, 0));
                    let k = choose|k: int| 0 <= k < q.len() && #[trigger] q[k] == e;
                    assert(modified@[k] == e);
                }
            }
            assert forall|k: int| 0 <= k < modified@.len() implies entry_ok(#[trigger] modified@[k], rows as nat, cols as nat) by {
                if k < q.len() {
                    assert(modified@[k] == q[k]);
                }
            }
        }
    }
    let mut j: usize = 0;
    while j < cols
        invariant
            i == rows,
            j <= cols,
            queue_ok(modified@, rows as nat, cols as nat),
            forall|e: SolverEnum| #[trigger] entry_ok(e, rows as nat, j as nat) ==> queued(modified@, e),
        decreases cols - j,
    {
        let ghost q = modified@;
        modified.push_back(SolverEnum::Col(j));
        j = j + 1;
        proof {
            assert forall|e: SolverEnum| #[trigger] entry_ok(e, rows as nat, j as nat) implies queued(modified@, e) by {
                if e == SolverEnum::Col((j - 1) as usize) {
                    assert(modified@[q.len() as int] == e);
                } else {
                    assert(entry_ok(e, rows as nat, (j - 1) as nat));
                    let k = choose|k: int| 0 <= k < q.len() && #[trigger] q[k] == e;
                    assert(modified@[k] == e);
                }
            }
            assert forall|k: int| 0 <= k < modified@.len() implies entry_ok(#[trigger] modified@[k], rows as nat, cols as nat) by {
                if k < q.len() {
                    assert(modified@[k] == q[k]);
                }
            }
        }
    }
    let ghost cells0 = schema.cells();
    assert(refines(cells0, cells0));

    while modified.len() > 0
        invariant
            schema.wf(),
            schema.height() == rows,
            schema.width() == cols,
            schema.row_labels() == rl,
            schema.col_labels() == cl,
            rl == old(schema).row_labels(),
            cl == old(schema).col_labels(),
            cells0 == old(schema).cells(),
            old(schema).width() == cols,
            refines(cells0, schema.cells()),
            forall|sol: Seq<Seq<Cell>>|
                #[trigger] is_solution(sol, old(schema).width(), old(schema).row_labels(), old(schema).col_labels())
                    && consistent(sol, cells0) ==> consistent(sol, schema.cells()),
            queue_ok(modified@, rows as nat, cols as nat),
            rows_solved@.len() == rows,
            cols_solved@.len() == cols,
            forall|e: SolverEnum|
                #[trigger] entry_ok(e, rows as nat, cols as nat) ==> queued(modified@, e) || stable(
                    labels_of(rl, cl, e),
                    line_of(schema.cells(), e),
                ),
            forall|e: SolverEnum|
                #[trigger] entry_ok(e, rows as nat, cols as nat) && flag_of(rows_solved@, cols_solved@, e)
                    ==> determined(line_of(schema.cells(), e)) && stable(labels_of(rl, cl, e), line_of(schema.cells(), e)),
        decreases grid_empty(schema.cells()) + modified@.len(),
    {
        let ghost before = schema.cells();
        let ghost q = modified@;
        let ghost rs0 = rows_solved@;
        let ghost cs0 = cols_solved@;
        let entry = modified.pop_front().unwrap();
        let ghost q1 = modified@;
        assert(entry_ok(q[0], rows as nat, cols as nat));
        assert forall|k: int| 0 <= k < modified@.len() implies entry_ok(#[trigger] modified@[k], rows as nat, cols as nat) by {
            assert(modified@[k] == q[k + 1]);
        }
        let res = _solve(schema, entry, &mut modified, &mut rows_solved, &mut cols_solved);
        proof {
            assert forall|a: int, b: int|
                0 <= a < cells0.len() && 0 <= b < cells0[a].len() && #[trigger] cells0[a][b] != Cell::Empty
                    implies schema.cells()[a][b] == cells0[a][b] by {
                assert(before[a][b] == cells0[a][b]);
            }
        }
        if let Err(e) = res {
            proof {
                crate::model::lemma_infeasible_unsatisfied(
                    schema.cells(),
                    schema.width(),
                    schema.row_labels(),
                    schema.col_labels(),
                );
            }
            return Err(e);
        }
        proof {
            let c2 = schema.cells();
            let l0 = line_of(before, entry);
            let lb0 = labels_of(rl, cl, entry);
            let red = reduced_line(lb0, l0);
            let flagged = flag_of(rs0, cs0, entry);
            assert(l0.len() == if entry_is_row(entry) { cols as nat } else { rows as nat });
            if !flagged {
                lemma_reduce_idempotent(lb0, l0);
                assert(line_of(c2, entry) =~= red);
            }
            assert forall|e: SolverEnum| #[trigger] entry_ok(e, rows as nat, cols as nat) implies queued(
                modified@,
                e,
            ) || stable(labels_of(rl, cl, e), line_of(c2, e)) by {
                if e != entry {
                    if queued(q, e) {
                        let k = choose|k: int| 0 <= k < q.len() && #[trigger] q[k] == e;
                        assert(k != 0);
                        assert(q1[k - 1] == e);
                        assert(modified@[k - 1] == e);
                    } else if !flagged {
                        lemma_other_line(before, rows as nat, cols as nat, entry, red, e);
                        if line_of(c2, e) != line_of(before, e) {
                            let cr = crossings(l0, red, entry_is_row(entry), red.len() as int);
                            let k = choose|k: int| 0 <= k < cr.len() && #[trigger] cr[k] == e;
                            assert(modified@[q1.len() + k] == e);
                        }
                    }
                }
            }
            assert forall|e: SolverEnum|
                #[trigger] entry_ok(e, rows as nat, cols as nat) && flag_of(rows_solved@, cols_solved@, e)
                    implies determined(line_of(c2, e)) && stable(labels_of(rl, cl, e), line_of(c2, e)) by {
                if !flagged && e != entry {
                    assert(flag_of(rs0, cs0, e));
                    lemma_other_line(before, rows as nat, cols as nat, entry, red, e);
                } else if !flagged {
                    lemma_stable_satisfied_determined(lb0, red);
                }
            }
        }
    }
    proof {
        let c = schema.cells();
        assert forall|i: int| 0 <= i < c.len() implies stable(rl[i], #[trigger] c[i]) by {
            let e = SolverEnum::Row(i as usize);
            assert(entry_ok(e, rows as nat, cols as nat));
            assert(line_of(c, e) == c[i]);
        }
        assert forall|j: int| 0 <= j < cols implies stable(cl[j], #[trigger] column(c, j)) by {
            let e = SolverEnum::Col(j as usize);
            assert(entry_ok(e, rows as nat, cols as nat));
            assert(line_of(c, e) == column(c, j));
        }
        assert(fixed_point(c, cols as nat, rl, cl));
    }

    let mut i: usize = 0;
    while i < rows
        invariant
            schema.wf(),
            schema.height() == rows,
            schema.width() == cols,
            old(schema).width() == cols,
            schema.row_labels() == old(schema).row_labels(),
            schema.col_labels() == old(schema).col_labels(),
            refines(old(schema).cells(), schema.cells()),
            forall|sol: Seq<Seq<Cell>>|
                #[trigger] is_solution(sol, old(schema).width(), old(schema).row_labels(), old(schema).col_labels())
                    && consistent(sol, old(schema).cells()) ==> consistent(sol, schema.cells()),
            fixed_point(schema.cells(), schema.width(), schema.row_labels(), schema.col_labels()),
            i <= rows,
            forall|k: int| 0 <= k < i ==> satisfies(#[trigger] schema.cells()[k], schema.row_labels()[k])
                && determined(schema.cells()[k]),
        decreases rows - i,
    {
        if !schema.solved_row(i) {
            return Err(Error::Unsolvable);
        }
        proof {
            lemma_stable_satisfied_determined(schema.row_labels()[i as int], schema.cells()[i as int]);
        }
        i = i + 1;
    }
    let mut j: usize = 0;
    while j < cols
        invariant
            schema.wf(),
            schema.height() == rows,
            schema.width() == cols,
            old(schema).width() == cols,
            schema.row_labels() == old(schema).row_labels(),
            schema.col_labels() == old(schema).col_labels(),
            refines(old(schema).cells(), schema.cells()),
            forall|sol: Seq<Seq<Cell>>|
                #[trigger] is_solution(sol, old(schema).width(), old(schema).row_labels(), old(schema).col_labels())
                    && consistent(sol, old(schema).cells()) ==> consistent(sol, schema.cells()),
            fixed_point(schema.cells(), schema.width(), schema.row_labels(), schema.col_labels()),
            j <= cols,
            forall|k: int| 0 <= k < rows ==> satisfies(#[trigger] schema.cells()[k], schema.row_labels()[k])
                && determined(schema.cells()[k]),
            forall|k: int| 0 <= k < j ==> satisfies(#[trigger] column(schema.cells(), k), schema.col_labels()[k]),
        decreases cols - j,
    {
        if !schema.solved_col(j) {
            return Err(Error::Unsolvable);
        }
        j = j + 1;
    }
    Ok(())
}

} // verus!
