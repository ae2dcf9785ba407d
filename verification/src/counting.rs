//! Counting cells of a board grid: how many are mines, opened, flagged or
//! closed, together with the lemmas that track those counts through updates.

use vstd::prelude::*;

use crate::game::{FieldState, FieldStatus, FieldType};

verus! {

/// Which property of a cell a count is about.
#[derive(Clone, Copy)]
pub enum CountKind {
    Mines,
    Opened,
    Flagged,
    Closed,
}

/// Whether one cell falls under the given count.
pub open spec fn cell_matches(c: FieldStatus, k: CountKind) -> bool {
    match k {
        CountKind::Mines => c.ft is Mine,
        CountKind::Opened => c.fs is Open,
        CountKind::Flagged => c.fs is Flag,
        CountKind::Closed => c.fs is Closed,
    }
}

/// How many cells of one row fall under the given count.
pub open spec fn count_row(row: Seq<FieldStatus>, k: CountKind) -> int
    decreases row.len(),
{
    if row.len() == 0 {
        0
    } else {
        count_row(row.drop_last(), k) + if cell_matches(row.last(), k) {
            1int
        } else {
            0int
        }
    }
}

/// How many cells of a grid of rows fall under the given count.
pub open spec fn count_grid(g: Seq<Seq<FieldStatus>>, k: CountKind) -> int
    decreases g.len(),
{
    if g.len() == 0 {
        0
    } else {
        count_grid(g.drop_last(), k) + count_row(g.last(), k)
    }
}

/// The number of cells of a grid of rows.
pub open spec fn total_cells(g: Seq<Seq<FieldStatus>>) -> int
    decreases g.len(),
{
    if g.len() == 0 {
        0
    } else {
        total_cells(g.drop_last()) + g.last().len()
    }
}

/// Whether one cell falls under the given count, decided at run time.
pub fn matches_kind(c: FieldStatus, k: CountKind) -> (b: bool)
    ensures
        b == cell_matches(c, k),
{
    match k {
        CountKind::Mines => matches!(c.ft, FieldType::Mine),
        CountKind::Opened => matches!(c.fs, FieldState::Open),
        CountKind::Flagged => matches!(c.fs, FieldState::Flag),
        CountKind::Closed => matches!(c.fs, FieldState::Closed),
    }
}

/// On a grid whose rows all have length `w`, the first `y` rows hold `y * w`
/// cells.
pub proof fn lemma_total_cells_uniform(g: Seq<Seq<FieldStatus>>, w: int, y: int)
    requires
        forall|j: int| 0 <= j < g.len() ==> (#[trigger] g[j]).len() == w,
        0 <= y <= g.len(),
    ensures
        total_cells(g.take(y)) == y * w,
    decreases y,
{
    if y == 0 {
        assert(g.take(0) =~= Seq::<Seq<FieldStatus>>::empty());
    } else {
        lemma_total_cells_uniform(g, w, y - 1);
        assert(g.take(y).drop_last() =~= g.take(y - 1));
        assert(g.take(y).last() == g[y - 1]);
        assert(y * w == (y - 1) * w + w) by (nonlinear_arith);
    }
}

/// A row's count lies between 0 and the row's length.
pub proof fn lemma_count_row_bounds(row: Seq<FieldStatus>, k: CountKind)
    ensures
        0 <= count_row(row, k) <= row.len(),
    decreases row.len(),
{
    if row.len() > 0 {
        lemma_count_row_bounds(row.drop_last(), k);
    }
}

/// A grid's count lies between 0 and the number of its cells.
pub proof fn lemma_count_grid_bounds(g: Seq<Seq<FieldStatus>>, k: CountKind)
    ensures
        0 <= count_grid(g, k) <= total_cells(g),
    decreases g.len(),
{
    if g.len() > 0 {
        lemma_count_grid_bounds(g.drop_last(), k);
        lemma_count_row_bounds(g.last(), k);
    }
}

/// Counting the first `i` cells of a row, one more cell extends the count by
/// that cell's contribution.
pub proof fn lemma_count_row_take_step(row: Seq<FieldStatus>, k: CountKind, i: int)
    requires
        0 <= i < row.len(),
    ensures
        count_row(row.take(i + 1), k) == count_row(row.take(i), k) + if cell_matches(
            row[i],
            k,
        ) {
            1int
        } else {
            0int
        },
{
    assert(row.take(i + 1).drop_last() =~= row.take(i));
    assert(row.take(i + 1).last() == row[i]);
}

/// Counting the first `j` rows of a grid, one more row extends the count by
/// that row's count.
pub proof fn lemma_count_grid_take_step(g: Seq<Seq<FieldStatus>>, k: CountKind, j: int)
    requires
        0 <= j < g.len(),
    ensures
        count_grid(g.take(j + 1), k) == count_grid(g.take(j), k) + count_row(g[j], k),
{
    assert(g.take(j + 1).drop_last() =~= g.take(j));
    assert(g.take(j + 1).last() == g[j]);
}

/// The whole row is its own `take`.
pub proof fn lemma_count_row_take_all(row: Seq<FieldStatus>, k: CountKind)
    ensures
        count_row(row.take(row.len() as int), k) == count_row(row, k),
{
    assert(row.take(row.len() as int) =~= row);
}

/// A row one of whose cells falls under a count has a positive count.
pub proof fn lemma_count_row_pos(row: Seq<FieldStatus>, i: int, k: CountKind)
    requires
        0 <= i < row.len(),
        cell_matches(row[i], k),
    ensures
        count_row(row, k) >= 1,
    decreases row.len(),
{
    if i == row.len() - 1 {
        lemma_count_row_bounds(row.drop_last(), k);
    } else {
        lemma_count_row_pos(row.drop_last(), i, k);
    }
}

/// A grid one of whose cells falls under a count has a positive count.
pub proof fn lemma_count_grid_pos(g: Seq<Seq<FieldStatus>>, x: int, y: int, k: CountKind)
    requires
        0 <= y < g.len(),
        0 <= x < g[y].len(),
        cell_matches(g[y][x], k),
    ensures
        count_grid(g, k) >= 1,
    decreases g.len(),
{
    if y == g.len() - 1 {
        lemma_count_row_pos(g.last(), x, k);
        lemma_count_grid_bounds(g.drop_last(), k);
    } else {
        lemma_count_grid_pos(g.drop_last(), x, y, k);
        lemma_count_row_bounds(g.last(), k);
    }
}

/// Replacing one cell of a row changes the row's count by the difference of
/// the two cells' contributions.
pub proof fn lemma_count_row_update(row: Seq<FieldStatus>, i: int, v: FieldStatus, k: CountKind)
    requires
        0 <= i < row.len(),
    ensures
        count_row(row.update(i, v), k) == count_row(row, k) - (if cell_matches(row[i], k) {
            1int
        } else {
            0int
        }) + (if cell_matches(v, k) {
            1int
        } else {
            0int
        }),
    decreases row.len(),
{
    let r2 = row.update(i, v);
    if i == row.len() - 1 {
        assert(r2.drop_last() =~= row.drop_last());
        assert(r2.last() == v);
    } else {
        assert(r2.drop_last() =~= row.drop_last().update(i, v));
        assert(r2.last() == row.last());
        lemma_count_row_update(row.drop_last(), i, v, k);
    }
}

/// Replacing one row of a grid changes the grid's count by the difference of
/// the two rows' counts.
pub proof fn lemma_count_grid_update_row(
    g: Seq<Seq<FieldStatus>>,
    j: int,
    row: Seq<FieldStatus>,
    k: CountKind,
)
    requires
        0 <= j < g.len(),
    ensures
        count_grid(g.update(j, row), k) == count_grid(g, k) - count_row(g[j], k) + count_row(
            row,
            k,
        ),
    decreases g.len(),
{
    let g2 = g.update(j, row);
    if j == g.len() - 1 {
        assert(g2.drop_last() =~= g.drop_last());
        assert(g2.last() == row);
    } else {
        assert(g2.drop_last() =~= g.drop_last().update(j, row));
        assert(g2.last() == g.last());
        lemma_count_grid_update_row(g.drop_last(), j, row, k);
    }
}

/// Two rows whose cells fall under a count in the same places have the same
/// count.
pub proof fn lemma_count_row_congruent(r1: Seq<FieldStatus>, r2: Seq<FieldStatus>, k: CountKind)
    requires
        r1.len() == r2.len(),
        forall|i: int|
            0 <= i < r1.len() ==> cell_matches(#[trigger] r1[i], k) == cell_matches(r2[i], k),
    ensures
        count_row(r1, k) == count_row(r2, k),
    decreases r1.len(),
{
    if r1.len() > 0 {
        assert(cell_matches(r1[r1.len() - 1], k) == cell_matches(r2[r2.len() - 1], k));
        lemma_count_row_congruent(r1.drop_last(), r2.drop_last(), k);
    }
}

/// Two grids whose cells fall under a count in the same places have the same
/// count.
pub proof fn lemma_count_grid_congruent(
    g1: Seq<Seq<FieldStatus>>,
    g2: Seq<Seq<FieldStatus>>,
    k: CountKind,
)
    requires
        g1.len() == g2.len(),
        forall|j: int| 0 <= j < g1.len() ==> (#[trigger] g1[j]).len() == g2[j].len(),
        forall|j: int, i: int|
            0 <= j < g1.len() && 0 <= i < g1[j].len() ==> cell_matches(#[trigger] g1[j][i], k)
                == cell_matches(g2[j][i], k),
    ensures
        count_grid(g1, k) == count_grid(g2, k),
    decreases g1.len(),
{
    if g1.len() > 0 {
        lemma_count_row_congruent(g1.last(), g2.last(), k);
        lemma_count_grid_congruent(g1.drop_last(), g2.drop_last(), k);
    }
}

/// A row none of whose cells falls under a count has count zero.
pub proof fn lemma_count_row_zero(row: Seq<FieldStatus>, k: CountKind)
    requires
        forall|i: int| 0 <= i < row.len() ==> !cell_matches(#[trigger] row[i], k),
    ensures
        count_row(row, k) == 0,
    decreases row.len(),
{
    if row.len() > 0 {
        lemma_count_row_zero(row.drop_last(), k);
    }
}

/// A grid none of whose cells falls under a count has count zero.
pub proof fn lemma_count_grid_zero(g: Seq<Seq<FieldStatus>>, k: CountKind)
    requires
        forall|j: int, i: int|
            0 <= j < g.len() && 0 <= i < g[j].len() ==> !cell_matches(#[trigger] g[j][i], k),
    ensures
        count_grid(g, k) == 0,
    decreases g.len(),
{
    if g.len() > 0 {
        lemma_count_row_zero(g.last(), k);
        lemma_count_grid_zero(g.drop_last(), k);
    }
}

/// Every cell of a row is exactly one of opened, flagged or closed, so those
/// three counts add up to the row's length.
pub proof fn lemma_count_row_states_partition(row: Seq<FieldStatus>)
    ensures
        count_row(row, CountKind::Opened) + count_row(row, CountKind::Flagged) + count_row(
            row,
            CountKind::Closed,
        ) == row.len(),
    decreases row.len(),
{
    if row.len() > 0 {
        lemma_count_row_states_partition(row.drop_last());
    }
}

/// Every cell of a grid is exactly one of opened, flagged or closed, so those
/// three counts add up to the number of cells.
pub proof fn lemma_count_grid_states_partition(g: Seq<Seq<FieldStatus>>)
    ensures
        count_grid(g, CountKind::Opened) + count_grid(g, CountKind::Flagged) + count_grid(
            g,
            CountKind::Closed,
        ) == total_cells(g),
    decreases g.len(),
{
    if g.len() > 0 {
        lemma_count_row_states_partition(g.last());
        lemma_count_grid_states_partition(g.drop_last());
    }
}

/// If every cell of one count also falls under a second count, and one cell
/// falls under the second only, the first count of a row is strictly smaller.
pub proof fn lemma_count_row_strict(row: Seq<FieldStatus>, i: int, a: CountKind, b: CountKind)
    requires
        0 <= i < row.len(),
        forall|n: int|
            0 <= n < row.len() && cell_matches(#[trigger] row[n], a) ==> cell_matches(row[n], b),
        cell_matches(row[i], b),
        !cell_matches(row[i], a),
    ensures
        count_row(row, a) < count_row(row, b),
    decreases row.len(),
{
    lemma_count_row_le(row, a, b);
    if i == row.len() - 1 {
        lemma_count_row_le(row.drop_last(), a, b);
    } else {
        assert(forall|n: int|
            0 <= n < row.drop_last().len() && cell_matches(#[trigger] row.drop_last()[n], a)
                ==> cell_matches(row.drop_last()[n], b));
        lemma_count_row_strict(row.drop_last(), i, a, b);
    }
}

/// If every cell of one count also falls under a second count, a row's first
/// count is at most its second.
pub proof fn lemma_count_row_le(row: Seq<FieldStatus>, a: CountKind, b: CountKind)
    requires
        forall|n: int|
            0 <= n < row.len() && cell_matches(#[trigger] row[n], a) ==> cell_matches(row[n], b),
    ensures
        count_row(row, a) <= count_row(row, b),
    decreases row.len(),
{
    if row.len() > 0 {
        assert(forall|n: int|
            0 <= n < row.drop_last().len() && cell_matches(#[trigger] row.drop_last()[n], a)
                ==> cell_matches(row.drop_last()[n], b));
        lemma_count_row_le(row.drop_last(), a, b);
    }
}

/// If every cell of one count also falls under a second count, a grid's first
/// count is at most its second.
pub proof fn lemma_count_grid_le(g: Seq<Seq<FieldStatus>>, a: CountKind, b: CountKind)
    requires
        forall|j: int, i: int|
            0 <= j < g.len() && 0 <= i < g[j].len() && cell_matches(#[trigger] g[j][i], a)
                ==> cell_matches(g[j][i], b),
    ensures
        count_grid(g, a) <= count_grid(g, b),
    decreases g.len(),
{
    if g.len() > 0 {
        assert(forall|n: int|
            0 <= n < g.last().len() && cell_matches(#[trigger] g.last()[n], a) ==> cell_matches(
                g.last()[n],
                b,
            ));
        lemma_count_row_le(g.last(), a, b);
        assert(forall|j: int, i: int|
            0 <= j < g.drop_last().len() && 0 <= i < g.drop_last()[j].len() && cell_matches(
                #[trigger] g.drop_last()[j][i],
                a,
            ) ==> cell_matches(g.drop_last()[j][i], b));
        lemma_count_grid_le(g.drop_last(), a, b);
    }
}

/// If every cell of one count also falls under a second count, and one cell
/// falls under the second only, the first count of a grid is strictly smaller.
pub proof fn lemma_count_grid_strict(
    g: Seq<Seq<FieldStatus>>,
    x: int,
    y: int,
    a: CountKind,
    b: CountKind,
)
    requires
        0 <= y < g.len(),
        0 <= x < g[y].len(),
        forall|j: int, i: int|
            0 <= j < g.len() && 0 <= i < g[j].len() && cell_matches(#[trigger] g[j][i], a)
                ==> cell_matches(g[j][i], b),
        cell_matches(g[y][x], b),
        !cell_matches(g[y][x], a),
    ensures
        count_grid(g, a) < count_grid(g, b),
    decreases g.len(),
{
    assert(forall|n: int|
        0 <= n < g.last().len() && cell_matches(#[trigger] g.last()[n], a) ==> cell_matches(
            g.last()[n],
            b,
        ));
    assert(forall|j: int, i: int|
        0 <= j < g.drop_last().len() && 0 <= i < g.drop_last()[j].len() && cell_matches(
            #[trigger] g.drop_last()[j][i],
            a,
        ) ==> cell_matches(g.drop_last()[j][i], b));
    if y == g.len() - 1 {
        lemma_count_row_strict(g.last(), x, a, b);
        lemma_count_grid_le(g.drop_last(), a, b);
    } else {
        lemma_count_row_le(g.last(), a, b);
        lemma_count_grid_strict(g.drop_last(), x, y, a, b);
    }
}

} // verus!
