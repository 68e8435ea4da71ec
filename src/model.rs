//! Mathematical model of lines, placements and runs, with the lemmas that
//! connect them.
use vstd::prelude::*;

use crate::schema::Cell;

verus! {

/// Sum of a sequence of sizes.
pub open spec fn seq_sum(s: Seq<usize>) -> int
    decreases s.len(),
{
    if s.len() == 0 {
        0
    } else {
        s[0] + seq_sum(s.drop_first())
    }
}

/// Shortest line that holds every run of `labels` with one cell between runs.
pub open spec fn min_length(labels: Seq<usize>) -> int {
    seq_sum(labels) + labels.len() - 1
}

/// `g` has `m` entries adding up to `total`, and every entry but the first
/// and the last is at least one.
pub open spec fn gaps_ok(g: Seq<usize>, m: int, total: int) -> bool {
    &&& g.len() == m
    &&& forall|k: int| 0 < k < m - 1 ==> #[trigger] g[k] >= 1
    &&& seq_sum(g) == total
}

/// `g` is an admissible gap distribution for `labels` on a line of `length`
/// cells: the blocked cells before, between and after the runs.
pub open spec fn is_gap_distribution(g: Seq<usize>, labels: Seq<usize>, length: int) -> bool {
    gaps_ok(g, labels.len() + 1 as int, length - seq_sum(labels))
}

/// `n` copies of `c`.
pub open spec fn repeat(c: Cell, n: int) -> Seq<Cell> {
    Seq::new(n as nat, |_i: int| c)
}

/// The line made of `voids[0]` blocked cells, `labels[0]` filled cells,
/// `voids[1]` blocked cells, and so on, ending with the last entry of `voids`.
pub open spec fn materialize(voids: Seq<usize>, labels: Seq<usize>) -> Seq<Cell>
    decreases labels.len(),
{
    if voids.len() == 0 {
        Seq::empty()
    } else if labels.len() == 0 {
        repeat(Cell::Crossed, voids[0] as int)
    } else {
        repeat(Cell::Crossed, voids[0] as int) + repeat(Cell::Full, labels[0] as int)
            + materialize(voids.drop_first(), labels.drop_first())
    }
}

/// Wherever both lines are determined, they hold the same value
/// (positions past the shorter line are not compared).
pub open spec fn agree(a: Seq<Cell>, b: Seq<Cell>) -> bool {
    forall|i: int|
        0 <= i < a.len() && i < b.len() && a[i] != Cell::Empty && b[i] != Cell::Empty
            ==> #[trigger] a[i] == b[i]
}

/// Two lines of one length that agree on every determined position.
pub open spec fn compatible(a: Seq<Cell>, b: Seq<Cell>) -> bool {
    a.len() == b.len() && agree(a, b)
}

/// `g` places `labels` on a line as long as `line`, consistently with the
/// determined cells of `line`.
pub open spec fn fits(g: Seq<usize>, labels: Seq<usize>, line: Seq<Cell>) -> bool {
    is_gap_distribution(g, labels, line.len() as int) && compatible(materialize(g, labels), line)
}

/// Some placement of `labels` is consistent with `line`.
pub open spec fn satisfiable(labels: Seq<usize>, line: Seq<Cell>) -> bool {
    exists|g: Seq<usize>| #[trigger] fits(g, labels, line)
}

/// Every placement consistent with `line` puts `c` at position `i`.
pub open spec fn forced(labels: Seq<usize>, line: Seq<Cell>, i: int, c: Cell) -> bool {
    forall|g: Seq<usize>| #[trigger] fits(g, labels, line) ==> materialize(g, labels)[i] == c
}

/// What line reduction leaves at position `i`: a determined cell stays, an
/// undetermined one takes the value common to every consistent placement,
/// if there is one.
pub open spec fn reduced_cell(labels: Seq<usize>, line: Seq<Cell>, i: int) -> Cell {
    if line[i] != Cell::Empty {
        line[i]
    } else if forced(labels, line, i, Cell::Full) {
        Cell::Full
    } else if forced(labels, line, i, Cell::Crossed) {
        Cell::Crossed
    } else {
        Cell::Empty
    }
}

/// Maximal blocks of neighbouring cells that agree on being `Full`, each as
/// (whether it is full, its size), from left to right.
pub open spec fn groups(s: Seq<Cell>) -> Seq<(bool, int)>
    decreases s.len(),
{
    if s.len() == 0 {
        Seq::empty()
    } else {
        let k = s[0] == Cell::Full;
        let rest = groups(s.drop_first());
        if rest.len() > 0 && rest[0].0 == k {
            seq![(k, rest[0].1 + 1)] + rest.drop_first()
        } else {
            seq![(k, 1int)] + rest
        }
    }
}

/// The sizes of the full blocks among `gs`, in order.
pub open spec fn full_sizes(gs: Seq<(bool, int)>) -> Seq<int>
    decreases gs.len(),
{
    if gs.len() == 0 {
        Seq::empty()
    } else if gs[0].0 {
        seq![gs[0].1] + full_sizes(gs.drop_first())
    } else {
        full_sizes(gs.drop_first())
    }
}

/// The lengths of the runs of `Full` cells in `s`, from left to right.
pub open spec fn runs(s: Seq<Cell>) -> Seq<int> {
    full_sizes(groups(s))
}

/// `labels` as a sequence of integers.
pub open spec fn label_ints(labels: Seq<usize>) -> Seq<int> {
    labels.map_values(|x: usize| x as int)
}

/// The runs of `Full` cells in `line` are exactly `labels`.
pub open spec fn satisfies(line: Seq<Cell>, labels: Seq<usize>) -> bool {
    runs(line) == label_ints(labels)
}

/// Every label is at least one.
pub open spec fn positive(labels: Seq<usize>) -> bool {
    forall|k: int| 0 <= k < labels.len() ==> #[trigger] labels[k] >= 1
}

/// The sum of two sequences put together is the sum of their sums.
pub proof fn lemma_sum_concat(a: Seq<usize>, b: Seq<usize>)
    ensures
        seq_sum(a + b) == seq_sum(a) + seq_sum(b),
    decreases a.len(),
{
    if a.len() == 0 {
        assert(a + b =~= b);
    } else {
        assert((a + b).drop_first() =~= a.drop_first() + b);
        lemma_sum_concat(a.drop_first(), b);
    }
}

/// A sum of sizes is never negative.
pub proof fn lemma_sum_nonneg(s: Seq<usize>)
    ensures
        seq_sum(s) >= 0,
    decreases s.len(),
{
    if s.len() > 0 {
        lemma_sum_nonneg(s.drop_first());
    }
}

/// The sum of the first `k + 1` entries is the sum of the first `k` plus entry `k`.
pub proof fn lemma_sum_take_step(s: Seq<usize>, k: int)
    requires
        0 <= k < s.len(),
    ensures
        seq_sum(s.take(k + 1)) == seq_sum(s.take(k)) + s[k],
{
    assert(s.take(k + 1) =~= s.take(k) + seq![s[k]]);
    lemma_sum_concat(s.take(k), seq![s[k]]);
    assert(seq![s[k]].drop_first() =~= Seq::<usize>::empty());
    assert(seq_sum(seq![s[k]].drop_first()) == 0);
}

/// A prefix sums to no more than the whole.
pub proof fn lemma_sum_take_le(s: Seq<usize>, k: int)
    requires
        0 <= k <= s.len(),
    ensures
        seq_sum(s.take(k)) <= seq_sum(s),
{
    assert(s =~= s.take(k) + s.skip(k));
    lemma_sum_concat(s.take(k), s.skip(k));
    lemma_sum_nonneg(s.skip(k));
}

/// A materialized line is as long as its gaps and runs together.
pub proof fn lemma_materialize_len(voids: Seq<usize>, labels: Seq<usize>)
    requires
        voids.len() == labels.len() + 1,
    ensures
        materialize(voids, labels).len() == seq_sum(voids) + seq_sum(labels),
    decreases labels.len(),
{
    if labels.len() > 0 {
        lemma_materialize_len(voids.drop_first(), labels.drop_first());
    } else {
        assert(seq_sum(voids.drop_first()) == 0);
        assert(seq_sum(labels) == 0);
    }
}

/// A materialized line holds no undetermined cell.
pub proof fn lemma_materialize_determined(voids: Seq<usize>, labels: Seq<usize>)
    ensures
        forall|i: int|
            0 <= i < materialize(voids, labels).len() ==> #[trigger] materialize(voids, labels)[i]
                != Cell::Empty,
    decreases labels.len(),
{
    if voids.len() > 0 && labels.len() > 0 {
        lemma_materialize_determined(voids.drop_first(), labels.drop_first());
    }
}

/// Column `j` of a grid given by its rows.
pub open spec fn column(rows: Seq<Seq<Cell>>, j: int) -> Seq<Cell> {
    Seq::new(rows.len(), |i: int| rows[i][j])
}

/// Number of `Empty` cells in a line.
pub open spec fn count_empty(s: Seq<Cell>) -> nat
    decreases s.len(),
{
    if s.len() == 0 {
        0
    } else {
        (if s[0] == Cell::Empty { 1nat } else { 0nat }) + count_empty(s.drop_first())
    }
}

/// Number of `Empty` cells in a grid given by its rows.
pub open spec fn grid_empty(rows: Seq<Seq<Cell>>) -> nat
    decreases rows.len(),
{
    if rows.len() == 0 {
        0
    } else {
        count_empty(rows[0]) + grid_empty(rows.drop_first())
    }
}

/// Every determined cell of `before` holds the same value in `after`.
pub open spec fn refines(before: Seq<Seq<Cell>>, after: Seq<Seq<Cell>>) -> bool {
    &&& before.len() == after.len()
    &&& forall|i: int| 0 <= i < before.len() ==> (#[trigger] before[i]).len() == after[i].len()
    &&& forall|i: int, j: int|
        0 <= i < before.len() && 0 <= j < before[i].len() && #[trigger] before[i][j] != Cell::Empty
            ==> after[i][j] == before[i][j]
}

/// Determining one undetermined cell of a line leaves one fewer.
pub proof fn lemma_count_empty_update(s: Seq<Cell>, j: int, v: Cell)
    requires
        0 <= j < s.len(),
        s[j] == Cell::Empty,
        v != Cell::Empty,
    ensures
        count_empty(s.update(j, v)) + 1 == count_empty(s),
    decreases s.len(),
{
    if j > 0 {
        assert(s.update(j, v).drop_first() =~= s.drop_first().update(j - 1, v));
        lemma_count_empty_update(s.drop_first(), j - 1, v);
    } else {
        assert(s.update(j, v).drop_first() =~= s.drop_first());
    }
}

/// Replacing one row changes the grid's count by the change in that row.
pub proof fn lemma_grid_empty_update(rows: Seq<Seq<Cell>>, i: int, row: Seq<Cell>)
    requires
        0 <= i < rows.len(),
    ensures
        grid_empty(rows.update(i, row)) + count_empty(rows[i]) == grid_empty(rows) + count_empty(row),
    decreases rows.len(),
{
    if i > 0 {
        assert(rows.update(i, row).drop_first() =~= rows.drop_first().update(i - 1, row));
        lemma_grid_empty_update(rows.drop_first(), i - 1, row);
    } else {
        assert(rows.update(i, row).drop_first() =~= rows.drop_first());
    }
}

/// Every row and every column of the grid meets its labels.
pub open spec fn all_satisfied(cells: Seq<Seq<Cell>>, width: nat, row_labels: Seq<Seq<usize>>, col_labels: Seq<Seq<usize>>) -> bool {
    &&& forall|i: int| 0 <= i < cells.len() ==> satisfies(#[trigger] cells[i], row_labels[i])
    &&& forall|j: int| 0 <= j < width ==> satisfies(#[trigger] column(cells, j), col_labels[j])
}

/// Some row or column of the grid has no placement consistent with its
/// determined cells.
pub open spec fn some_infeasible(cells: Seq<Seq<Cell>>, width: nat, row_labels: Seq<Seq<usize>>, col_labels: Seq<Seq<usize>>) -> bool {
    ||| exists|i: int| 0 <= i < cells.len() && !satisfiable(row_labels[i], #[trigger] cells[i])
    ||| exists|j: int| 0 <= j < width && !satisfiable(col_labels[j], #[trigger] column(cells, j))
}

/// A block of `n` full cells ahead of a line that does not start full is one
/// group of its own.
pub proof fn lemma_groups_full_prefix(n: int, s: Seq<Cell>)
    requires
        n >= 1,
        s.len() == 0 || s[0] != Cell::Full,
    ensures
        groups(repeat(Cell::Full, n) + s) == seq![(true, n)] + groups(s),
    decreases n,
{
    let t = repeat(Cell::Full, n) + s;
    assert(t[0] == Cell::Full);
    if n == 1 {
        assert(t.drop_first() =~= s);
        if s.len() > 0 {
            assert(groups(s)[0].0 == (s[0] == Cell::Full));
        }
    } else {
        assert(t.drop_first() =~= repeat(Cell::Full, n - 1) + s);
        lemma_groups_full_prefix(n - 1, s);
        let rest = groups(t.drop_first());
        assert(rest.drop_first() =~= groups(s));
    }
}

/// A block of `n` crossed cells ahead of a line that is empty or starts full
/// is one group of its own.
pub proof fn lemma_groups_crossed_prefix(n: int, s: Seq<Cell>)
    requires
        n >= 1,
        s.len() == 0 || s[0] == Cell::Full,
    ensures
        groups(repeat(Cell::Crossed, n) + s) == seq![(false, n)] + groups(s),
    decreases n,
{
    let t = repeat(Cell::Crossed, n) + s;
    assert(t[0] == Cell::Crossed);
    if n == 1 {
        assert(t.drop_first() =~= s);
        if s.len() > 0 {
            assert(groups(s)[0].0 == (s[0] == Cell::Full));
        }
    } else {
        assert(t.drop_first() =~= repeat(Cell::Crossed, n - 1) + s);
        lemma_groups_crossed_prefix(n - 1, s);
        let rest = groups(t.drop_first());
        assert(rest.drop_first() =~= groups(s));
    }
}

/// A materialized line starts crossed when its first gap is not empty.
pub proof fn lemma_materialize_first(voids: Seq<usize>, labels: Seq<usize>)
    requires
        voids.len() >= 1,
        voids[0] >= 1,
    ensures
        materialize(voids, labels).len() > 0,
        materialize(voids, labels)[0] == Cell::Crossed,
{
    if labels.len() > 0 {
        let a = repeat(Cell::Crossed, voids[0] as int);
        let b = repeat(Cell::Full, labels[0] as int);
        let m = materialize(voids.drop_first(), labels.drop_first());
        assert((a + b + m)[0] == a[0]);
    }
}

/// Materializing a gap distribution yields a line as long as its gaps and runs
/// together, whose runs of full cells are exactly the labels.
pub proof fn lemma_materialize_round_trip(voids: Seq<usize>, labels: Seq<usize>)
    requires
        voids.len() == labels.len() + 1,
        forall|k: int| 0 < k < labels.len() ==> #[trigger] voids[k] >= 1,
        positive(labels),
    ensures
        materialize(voids, labels).len() == seq_sum(voids) + seq_sum(labels),
        satisfies(materialize(voids, labels), labels),
    decreases labels.len(),
{
    lemma_materialize_len(voids, labels);
    let x = repeat(Cell::Crossed, voids[0] as int);
    if labels.len() == 0 {
        assert(label_ints(labels) =~= Seq::<int>::empty());
        if voids[0] > 0 {
            assert(x + Seq::<Cell>::empty() =~= x);
            lemma_groups_crossed_prefix(voids[0] as int, Seq::<Cell>::empty());
            assert(groups(x) =~= seq![(false, voids[0] as int)]);
            assert(seq![(false, voids[0] as int)].drop_first() =~= Seq::<(bool, int)>::empty());
            assert(full_sizes(Seq::<(bool, int)>::empty()) =~= Seq::<int>::empty());
            assert(runs(x) =~= Seq::<int>::empty());
        } else {
            assert(x =~= Seq::<Cell>::empty());
        }
    } else {
        let v2 = voids.drop_first();
        let l2 = labels.drop_first();
        assert forall|k: int| 0 < k < l2.len() implies #[trigger] v2[k] >= 1 by {
            assert(v2[k] == voids[k + 1]);
        }
        assert(labels[0] >= 1);
        lemma_materialize_round_trip(v2, l2);
        let o = repeat(Cell::Full, labels[0] as int);
        let m = materialize(v2, l2);
        if l2.len() > 0 {
            assert(v2[0] == voids[1]);
            lemma_materialize_first(v2, l2);
        } else if v2[0] > 0 {
            lemma_materialize_first(v2, l2);
        } else {
            assert(m =~= Seq::<Cell>::empty());
        }
        lemma_groups_full_prefix(labels[0] as int, m);
        let om = o + m;
        let gs = seq![(true, labels[0] as int)] + groups(m);
        assert(gs.drop_first() =~= groups(m));
        assert(full_sizes(groups(om)) =~= seq![labels[0] as int] + full_sizes(groups(m)));
        if voids[0] > 0 {
            lemma_groups_crossed_prefix(voids[0] as int, om);
            let gs2 = seq![(false, voids[0] as int)] + groups(om);
            assert(gs2.drop_first() =~= groups(om));
            assert(materialize(voids, labels) =~= x + om);
            assert(full_sizes(gs2) == full_sizes(groups(om)));
            assert(runs(materialize(voids, labels)) == full_sizes(groups(om)));
        } else {
            assert(materialize(voids, labels) =~= om);
        }
        assert(label_ints(labels) =~= seq![labels[0] as int] + label_ints(l2));
        assert(runs(m) == label_ints(l2));
        assert(runs(materialize(voids, labels)) == full_sizes(groups(om)));
    }
}

/// Number of cells equal to `c` at the start of `s`.
pub open spec fn lead_count(s: Seq<Cell>, c: Cell) -> nat
    decreases s.len(),
{
    if s.len() > 0 && s[0] == c {
        1 + lead_count(s.drop_first(), c)
    } else {
        0
    }
}

/// A line is its leading block of `c` cells followed by a rest that does not
/// start with `c`.
pub proof fn lemma_lead_split(s: Seq<Cell>, c: Cell)
    ensures
        lead_count(s, c) <= s.len(),
        s == repeat(c, lead_count(s, c) as int) + s.skip(lead_count(s, c) as int),
        lead_count(s, c) < s.len() ==> s[lead_count(s, c) as int] != c,
    decreases s.len(),
{
    let n = lead_count(s, c) as int;
    if s.len() > 0 && s[0] == c {
        let d = s.drop_first();
        lemma_lead_split(d, c);
        assert(s.skip(n) =~= d.skip(n - 1));
        assert forall|i: int| 0 <= i < s.len() implies #[trigger] s[i] == (repeat(c, n) + s.skip(n))[i] by {
            if i > 0 {
                assert(s[i] == d[i - 1]);
                assert(d[i - 1] == (repeat(c, n - 1) + d.skip(n - 1))[i - 1]);
            }
        }
        assert(s =~= repeat(c, n) + s.skip(n));
    } else {
        assert(s =~= repeat(c, 0) + s.skip(0));
    }
}

/// A fully determined line whose runs are `labels` is the materialization of
/// some gap distribution.
pub proof fn lemma_decompose(s: Seq<Cell>, labels: Seq<usize>) -> (g: Seq<usize>)
    requires
        s.len() <= usize::MAX,
        forall|i: int| 0 <= i < s.len() ==> #[trigger] s[i] != Cell::Empty,
        runs(s) == label_ints(labels),
    ensures
        is_gap_distribution(g, labels, s.len() as int),
        materialize(g, labels) == s,
        s.len() > 0 && s[0] == Cell::Crossed ==> g[0] >= 1,
    decreases s.len(),
{
    lemma_lead_split(s, Cell::Crossed);
    let a = lead_count(s, Cell::Crossed) as int;
    let t = s.skip(a);
    let x = repeat(Cell::Crossed, a);
    if t.len() == 0 {
        assert(s =~= x);
        if a > 0 {
            assert(x + t =~= x);
            lemma_groups_crossed_prefix(a, t);
            assert(groups(s) =~= seq![(false, a)]);
            assert(seq![(false, a)].drop_first() =~= Seq::<(bool, int)>::empty());
            assert(full_sizes(Seq::<(bool, int)>::empty()) =~= Seq::<int>::empty());
        }
        assert(label_ints(labels).len() == 0);
        let g = seq![a as usize];
        assert(g.drop_first() =~= Seq::<usize>::empty());
        assert(seq_sum(g.drop_first()) == 0);
        assert(g[0] == a);
        assert(seq_sum(g) == a);
        assert(seq_sum(labels) == 0);
        g
    } else {
        assert(t[0] == s[a]);
        lemma_lead_split(t, Cell::Full);
        let b = lead_count(t, Cell::Full) as int;
        let rest = t.skip(b);
        let o = repeat(Cell::Full, b);
        assert(b >= 1);
        if rest.len() > 0 {
            assert(rest[0] == t[b]);
            assert(t[b] == s[a + b]);
        }
        lemma_groups_full_prefix(b, rest);
        let gt = seq![(true, b)] + groups(rest);
        assert(gt.drop_first() =~= groups(rest));
        assert(full_sizes(groups(t)) =~= seq![b] + runs(rest));
        if a > 0 {
            lemma_groups_crossed_prefix(a, t);
            let gs = seq![(false, a)] + groups(t);
            assert(gs.drop_first() =~= groups(t));
            assert(runs(s) == full_sizes(groups(t)));
        } else {
            assert(s =~= t);
        }
        assert(runs(s) =~= seq![b] + runs(rest));
        assert(runs(s)[0] == b);
        assert(label_ints(labels).len() >= 1);
        assert(label_ints(labels)[0] == labels[0] as int);
        assert(labels[0] as int == b);
        let l2 = labels.drop_first();
        assert(label_ints(l2) =~= label_ints(labels).drop_first());
        assert(runs(rest) =~= runs(s).drop_first());
        assert forall|i: int| 0 <= i < rest.len() implies #[trigger] rest[i] != Cell::Empty by {
            assert(rest[i] == s[a + b + i]);
        }
        let g2 = lemma_decompose(rest, l2);
        let g = seq![a as usize] + g2;
        assert(g.drop_first() =~= g2);
        assert(g[0] == a as usize);
        if l2.len() > 0 {
            assert(runs(rest).len() > 0);
            assert(rest.len() > 0);
            assert(g2[0] >= 1);
        }
        assert forall|k: int| 0 < k < labels.len() implies #[trigger] g[k] >= 1 by {
            assert(g[k] == g2[k - 1]);
        }
        assert(seq_sum(g) == a + seq_sum(g2));
        assert(seq_sum(labels) == b + seq_sum(l2));
        assert(s =~= x + o + rest);
        assert(materialize(g, labels) =~= x + o + materialize(g2, l2));
        g
    }
}

/// Reducing a fully determined line that meets its labels gives the line back:
/// it has a consistent placement, and every cell stays as it is.
pub proof fn lemma_reduce_solved_line(labels: Seq<usize>, line: Seq<Cell>)
    requires
        line.len() <= usize::MAX,
        forall|i: int| 0 <= i < line.len() ==> #[trigger] line[i] != Cell::Empty,
        satisfies(line, labels),
    ensures
        satisfiable(labels, line),
        forall|i: int| 0 <= i < line.len() ==> #[trigger] reduced_cell(labels, line, i) == line[i],
{
    let g = lemma_decompose(line, labels);
    assert(fits(g, labels, line));
}

/// Blocks depend only on which cells are full.
pub proof fn lemma_groups_fullness(s1: Seq<Cell>, s2: Seq<Cell>)
    requires
        s1.len() == s2.len(),
        forall|i: int| 0 <= i < s1.len() ==> (#[trigger] s1[i] == Cell::Full) == (s2[i] == Cell::Full),
    ensures
        groups(s1) == groups(s2),
    decreases s1.len(),
{
    if s1.len() > 0 {
        assert forall|i: int| 0 <= i < s1.len() - 1 implies (#[trigger] s1.drop_first()[i] == Cell::Full) == (
        s2.drop_first()[i] == Cell::Full) by {
            assert(s1.drop_first()[i] == s1[i + 1]);
            assert(s2.drop_first()[i] == s2[i + 1]);
        }
        lemma_groups_fullness(s1.drop_first(), s2.drop_first());
        assert(s1[0] == Cell::Full <==> s2[0] == Cell::Full);
    }
}

/// A line whose runs of full cells are its labels has a consistent placement:
/// the one that crosses every cell that is not full.
pub proof fn lemma_satisfied_satisfiable(labels: Seq<usize>, line: Seq<Cell>)
    requires
        line.len() <= usize::MAX,
        satisfies(line, labels),
    ensures
        satisfiable(labels, line),
{
    let s = Seq::new(line.len(), |i: int| if line[i] == Cell::Full { Cell::Full } else { Cell::Crossed });
    lemma_groups_fullness(s, line);
    let g = lemma_decompose(s, labels);
    assert(fits(g, labels, line));
}

/// A grid with a line that has no consistent placement has a line that does
/// not meet its labels.
pub proof fn lemma_infeasible_unsatisfied(
    cells: Seq<Seq<Cell>>,
    width: nat,
    row_labels: Seq<Seq<usize>>,
    col_labels: Seq<Seq<usize>>,
)
    requires
        cells.len() <= usize::MAX,
        width <= usize::MAX,
        forall|i: int| 0 <= i < cells.len() ==> (#[trigger] cells[i]).len() == width,
        some_infeasible(cells, width, row_labels, col_labels),
    ensures
        !all_satisfied(cells, width, row_labels, col_labels),
{
    if exists|i: int| 0 <= i < cells.len() && !satisfiable(row_labels[i], #[trigger] cells[i]) {
        let i = choose|i: int| 0 <= i < cells.len() && !satisfiable(row_labels[i], #[trigger] cells[i]);
        if satisfies(cells[i], row_labels[i]) {
            lemma_satisfied_satisfiable(row_labels[i], cells[i]);
        }
    } else {
        let j = choose|j: int| 0 <= j < width && !satisfiable(col_labels[j], #[trigger] column(cells, j));
        if satisfies(column(cells, j), col_labels[j]) {
            lemma_satisfied_satisfiable(col_labels[j], column(cells, j));
        }
    }
}

/// Line reduction never contradicts a solution: for every fully determined
/// line `sol` that meets the labels and agrees with `line`, the line has a
/// consistent placement and each reduced cell is either undetermined or the
/// cell of `sol`.
pub proof fn lemma_reduce_sound(labels: Seq<usize>, line: Seq<Cell>, sol: Seq<Cell>)
    requires
        sol.len() <= usize::MAX,
        forall|i: int| 0 <= i < sol.len() ==> #[trigger] sol[i] != Cell::Empty,
        satisfies(sol, labels),
        compatible(sol, line),
    ensures
        satisfiable(labels, line),
        forall|i: int|
            0 <= i < line.len() ==> #[trigger] reduced_cell(labels, line, i) == Cell::Empty
                || reduced_cell(labels, line, i) == sol[i],
{
    let g = lemma_decompose(sol, labels);
    assert(fits(g, labels, line));
}

/// `sol` is a complete solution of the puzzle: a fully determined grid of
/// `width` columns whose every row and column meets its labels.
pub open spec fn is_solution(
    sol: Seq<Seq<Cell>>,
    width: nat,
    row_labels: Seq<Seq<usize>>,
    col_labels: Seq<Seq<usize>>,
) -> bool {
    &&& forall|i: int| 0 <= i < sol.len() ==> (#[trigger] sol[i]).len() == width
    &&& forall|i: int, j: int| 0 <= i < sol.len() && 0 <= j < width ==> #[trigger] sol[i][j] != Cell::Empty
    &&& all_satisfied(sol, width, row_labels, col_labels)
}

/// Every determined cell of `cells` holds the value that `sol` has there.
pub open spec fn consistent(sol: Seq<Seq<Cell>>, cells: Seq<Seq<Cell>>) -> bool {
    &&& sol.len() == cells.len()
    &&& forall|i: int, j: int|
        0 <= i < cells.len() && 0 <= j < cells[i].len() && #[trigger] cells[i][j] != Cell::Empty
            ==> sol[i][j] == cells[i][j]
}

/// The line that reduction makes of `line`.
pub open spec fn reduced_line(labels: Seq<usize>, line: Seq<Cell>) -> Seq<Cell> {
    Seq::new(line.len(), |p: int| reduced_cell(labels, line, p))
}

/// No cell of the line is `Empty`.
pub open spec fn determined(line: Seq<Cell>) -> bool {
    forall|p: int| 0 <= p < line.len() ==> #[trigger] line[p] != Cell::Empty
}

/// The line has a consistent placement and reduction leaves it as it is.
pub open spec fn stable(labels: Seq<usize>, line: Seq<Cell>) -> bool {
    satisfiable(labels, line) && reduced_line(labels, line) == line
}

/// Every row and every column of the grid is stable under reduction.
pub open spec fn fixed_point(
    cells: Seq<Seq<Cell>>,
    width: nat,
    row_labels: Seq<Seq<usize>>,
    col_labels: Seq<Seq<usize>>,
) -> bool {
    &&& forall|i: int| 0 <= i < cells.len() ==> stable(row_labels[i], #[trigger] cells[i])
    &&& forall|j: int| 0 <= j < width ==> stable(col_labels[j], #[trigger] column(cells, j))
}

/// No cell of the grid is `Empty`.
pub open spec fn no_empty(cells: Seq<Seq<Cell>>) -> bool {
    forall|i: int| 0 <= i < cells.len() ==> determined(#[trigger] cells[i])
}

/// Reducing a reduced line changes nothing: the placements consistent with
/// the reduced line are those consistent with the original.
pub proof fn lemma_reduce_idempotent(labels: Seq<usize>, line: Seq<Cell>)
    requires
        satisfiable(labels, line),
    ensures
        stable(labels, reduced_line(labels, line)),
{
    let r = reduced_line(labels, line);
    assert forall|g: Seq<usize>| #[trigger] fits(g, labels, r) == fits(g, labels, line) by {
        let m = materialize(g, labels);
        if fits(g, labels, line) {
            assert forall|p: int|
                0 <= p < m.len() && p < r.len() && m[p] != Cell::Empty && r[p] != Cell::Empty
                    implies #[trigger] m[p] == r[p] by {
                assert(r[p] == reduced_cell(labels, line, p));
            }
        }
        if fits(g, labels, r) {
            assert forall|p: int|
                0 <= p < m.len() && p < line.len() && m[p] != Cell::Empty && line[p] != Cell::Empty
                    implies #[trigger] m[p] == line[p] by {
                assert(r[p] == reduced_cell(labels, line, p));
            }
        }
    }
    let g0 = choose|g: Seq<usize>| fits(g, labels, line);
    assert(fits(g0, labels, r));
    assert forall|p: int| 0 <= p < r.len() implies #[trigger] reduced_cell(labels, r, p) == r[p] by {
        assert(r[p] == reduced_cell(labels, line, p));
        if r[p] == Cell::Empty {
            if forced(labels, r, p, Cell::Full) {
                assert forall|g: Seq<usize>| #[trigger] fits(g, labels, line) implies materialize(g, labels)[p]
                    == Cell::Full by {
                    assert(fits(g, labels, r));
                }
            }
            if forced(labels, r, p, Cell::Crossed) {
                assert forall|g: Seq<usize>| #[trigger] fits(g, labels, line) implies materialize(g, labels)[p]
                    == Cell::Crossed by {
                    assert(fits(g, labels, r));
                }
            }
        }
    }
    assert(reduced_line(labels, r) =~= r);
}

/// Number of `Full` cells in a line.
pub open spec fn count_full(s: Seq<Cell>) -> int
    decreases s.len(),
{
    if s.len() == 0 {
        0
    } else {
        (if s[0] == Cell::Full { 1int } else { 0int }) + count_full(s.drop_first())
    }
}

/// Total size of the full blocks among `gs`.
pub open spec fn full_total(gs: Seq<(bool, int)>) -> int
    decreases gs.len(),
{
    if gs.len() == 0 {
        0
    } else {
        (if gs[0].0 { gs[0].1 } else { 0int }) + full_total(gs.drop_first())
    }
}

/// Sum of a sequence of integers.
pub open spec fn int_sum(s: Seq<int>) -> int
    decreases s.len(),
{
    if s.len() == 0 {
        0
    } else {
        s[0] + int_sum(s.drop_first())
    }
}

/// The full blocks hold every full cell, and every block has at least one cell.
pub proof fn lemma_groups_count(s: Seq<Cell>)
    ensures
        full_total(groups(s)) == count_full(s),
        forall|k: int| 0 <= k < groups(s).len() ==> (#[trigger] groups(s)[k]).1 >= 1,
    decreases s.len(),
{
    if s.len() > 0 {
        lemma_groups_count(s.drop_first());
        let k = s[0] == Cell::Full;
        let rest = groups(s.drop_first());
        if rest.len() > 0 && rest[0].0 == k {
            let gs = seq![(k, rest[0].1 + 1)] + rest.drop_first();
            assert(gs.drop_first() =~= rest.drop_first());
            assert forall|m: int| 0 <= m < gs.len() implies (#[trigger] gs[m]).1 >= 1 by {
                if m > 0 {
                    assert(gs[m] == rest[m]);
                }
            }
        } else {
            let gs = seq![(k, 1int)] + rest;
            assert(gs.drop_first() =~= rest);
            assert forall|m: int| 0 <= m < gs.len() implies (#[trigger] gs[m]).1 >= 1 by {
                if m > 0 {
                    assert(gs[m] == rest[m - 1]);
                }
            }
        }
    }
}

/// The full sizes add up to the full total.
pub proof fn lemma_full_sizes_sum(gs: Seq<(bool, int)>)
    ensures
        int_sum(full_sizes(gs)) == full_total(gs),
        (forall|k: int| 0 <= k < gs.len() ==> (#[trigger] gs[k]).1 >= 1) ==> forall|k: int|
            0 <= k < full_sizes(gs).len() ==> #[trigger] full_sizes(gs)[k] >= 1,
    decreases gs.len(),
{
    if gs.len() > 0 {
        lemma_full_sizes_sum(gs.drop_first());
        if gs[0].0 {
            let f = seq![gs[0].1] + full_sizes(gs.drop_first());
            assert(f.drop_first() =~= full_sizes(gs.drop_first()));
            if forall|k: int| 0 <= k < gs.len() ==> (#[trigger] gs[k]).1 >= 1 {
                assert forall|k: int| 0 <= k < gs.drop_first().len() implies (#[trigger] gs.drop_first()[k]).1 >= 1 by {
                    assert(gs.drop_first()[k] == gs[k + 1]);
                }
                assert forall|k: int| 0 <= k < f.len() implies #[trigger] f[k] >= 1 by {
                    if k > 0 {
                        assert(f[k] == full_sizes(gs.drop_first())[k - 1]);
                    }
                }
            }
        } else {
            if forall|k: int| 0 <= k < gs.len() ==> (#[trigger] gs[k]).1 >= 1 {
                assert forall|k: int| 0 <= k < gs.drop_first().len() implies (#[trigger] gs.drop_first()[k]).1 >= 1 by {
                    assert(gs.drop_first()[k] == gs[k + 1]);
                }
            }
        }
    }
}

/// A line with every full cell of `b` and one more has more full cells.
pub proof fn lemma_count_full_more(a: Seq<Cell>, b: Seq<Cell>, p: int)
    requires
        a.len() == b.len(),
        forall|q: int| 0 <= q < b.len() && #[trigger] b[q] == Cell::Full ==> a[q] == Cell::Full,
        0 <= p < a.len(),
        a[p] == Cell::Full,
        b[p] != Cell::Full,
    ensures
        count_full(a) > count_full(b),
    decreases a.len(),
{
    lemma_count_full_mono(a.drop_first(), b.drop_first());
    if p > 0 {
        lemma_count_full_more(a.drop_first(), b.drop_first(), p - 1);
    }
}

/// A line with every full cell of `b` has at least as many full cells.
pub proof fn lemma_count_full_mono(a: Seq<Cell>, b: Seq<Cell>)
    requires
        a.len() == b.len(),
        forall|q: int| 0 <= q < b.len() && #[trigger] b[q] == Cell::Full ==> a[q] == Cell::Full,
    ensures
        count_full(a) >= count_full(b),
    decreases a.len(),
{
    if a.len() > 0 {
        assert forall|q: int| 0 <= q < b.drop_first().len() && #[trigger] b.drop_first()[q] == Cell::Full
            implies a.drop_first()[q] == Cell::Full by {
            assert(b.drop_first()[q] == b[q + 1]);
        }
        lemma_count_full_mono(a.drop_first(), b.drop_first());
    }
}

/// A line that meets its labels and that reduction leaves as it is has no
/// `Empty` cell: every placement fills exactly its full cells, so each other
/// cell is forced to be crossed.
pub proof fn lemma_stable_satisfied_determined(labels: Seq<usize>, line: Seq<Cell>)
    requires
        stable(labels, line),
        satisfies(line, labels),
    ensures
        determined(line),
{
    lemma_groups_count(line);
    lemma_full_sizes_sum(groups(line));
    assert forall|k: int| 0 <= k < labels.len() implies #[trigger] labels[k] >= 1 by {
        assert(label_ints(labels)[k] == labels[k] as int);
        assert(runs(line)[k] >= 1);
    }
    assert forall|p: int| 0 <= p < line.len() implies #[trigger] line[p] != Cell::Empty by {
        if line[p] == Cell::Empty {
            assert forall|g: Seq<usize>| #[trigger] fits(g, labels, line) implies materialize(g, labels)[p]
                == Cell::Crossed by {
                let m = materialize(g, labels);
                lemma_materialize_determined(g, labels);
                assert forall|k: int| 0 < k < labels.len() implies #[trigger] g[k] >= 1 by {}
                lemma_materialize_round_trip(g, labels);
                lemma_groups_count(m);
                lemma_full_sizes_sum(groups(m));
                assert forall|q: int| 0 <= q < line.len() && #[trigger] line[q] == Cell::Full implies m[q]
                    == Cell::Full by {}
                if m[p] == Cell::Full {
                    lemma_count_full_more(m, line, p);
                }
            }
            assert(reduced_line(labels, line)[p] == reduced_cell(labels, line, p));
            let g0 = choose|g: Seq<usize>| fits(g, labels, line);
            lemma_materialize_determined(g0, labels);
        }
    }
}

} // verus!
