//! The board engine: a grid of cells, each with a disclosure state and an
//! immutable content, and the commands that open cells, toggle flags and
//! decide wins and losses.

use vstd::prelude::*;

use crate::counting::{
    cell_matches, count_grid, count_row, lemma_count_grid_bounds, lemma_count_grid_congruent,
    lemma_count_grid_pos, lemma_count_grid_states_partition, lemma_count_grid_take_step,
    lemma_count_grid_update_row, lemma_count_grid_zero, lemma_count_row_bounds,
    lemma_count_row_take_step, lemma_count_row_take_all, lemma_count_row_update,
    lemma_count_row_zero, lemma_total_cells_uniform, matches_kind, total_cells, CountKind,
};
use crate::random::random_fields;

verus! {

/// A board coordinate: column, then row.
pub type Pos = (usize, usize);

/// Width, height and mine count of a board, in that order.
pub type BoardSize = [usize; 3];

/// A coordinate together with the cell standing there.
pub type FieldInfo = (Pos, FieldStatus);

/// The disclosure state of one cell.
#[derive(Clone, Copy, Debug, PartialEq, Eq, Structural)]
pub enum FieldState {
    Open,
    Closed,
    Flag,
}

/// The content of one cell: empty with the count of adjacent mines, or a mine.
#[derive(Clone, Copy, Debug, PartialEq, Eq, Structural)]
pub enum FieldType {
    Empty(u8),
    Mine,
}

/// One cell: its disclosure state and its content.
#[derive(Clone, Copy, Debug, PartialEq, Eq, Structural)]
pub struct FieldStatus {
    pub fs: FieldState,
    pub ft: FieldType,
}

/// The reason a requested board was refused.
#[derive(Clone, Copy, Debug, PartialEq, Eq, Structural)]
pub enum NewGameError {
    /// The width or the height was zero.
    ZeroDimension,
    /// The board would hold more cells than this machine can index.
    TooLarge,
    /// The mine count was not below the number of cells.
    TooManyMines,
    /// A given mine position lay outside the board.
    MineOutOfBounds,
    /// A mine position was given twice.
    DuplicateMine,
}

impl From<(FieldState, FieldType)> for FieldStatus {
    /// Builds a cell from a disclosure state and a content.
    fn from(parts: (FieldState, FieldType)) -> (r: Self) {
        FieldStatus { fs: parts.0, ft: parts.1 }
    }
}

impl vstd::std_specs::convert::FromSpecImpl<(FieldState, FieldType)> for FieldStatus {
    open spec fn obeys_from_spec() -> bool {
        true
    }

    open spec fn from_spec(parts: (FieldState, FieldType)) -> Self {
        FieldStatus { fs: parts.0, ft: parts.1 }
    }
}

/// The mathematical value of a board: the rows of cells.
pub type Grid = Seq<Seq<FieldStatus>>;

/// The rows of a concrete board as a grid.
pub open spec fn rows_view(rows: Seq<Vec<FieldStatus>>) -> Grid {
    rows.map_values(|r: Vec<FieldStatus>| r@)
}

/// The grid of a concrete board indexes the same cells as its rows.
pub(crate) proof fn lemma_rows_view(rows: Seq<Vec<FieldStatus>>)
    ensures
        rows_view(rows).len() == rows.len(),
        forall|j: int| 0 <= j < rows.len() ==> (#[trigger] rows[j])@ == rows_view(rows)[j],
{
    assert forall|j: int| 0 <= j < rows.len() implies (#[trigger] rows[j])@ == rows_view(
        rows,
    )[j] by {
        assert(rows_view(rows)[j] == rows[j]@);
    }
}

/// A grid is well formed when it has at least one row, at least one column,
/// and all rows of one length.
pub open spec fn grid_wf(g: Grid) -> bool {
    &&& g.len() >= 1
    &&& g[0].len() >= 1
    &&& forall|j: int| 0 <= j < g.len() ==> (#[trigger] g[j]).len() == g[0].len()
}

/// The number of columns of a grid.
pub open spec fn grid_width(g: Grid) -> int {
    g[0].len() as int
}

/// The number of rows of a grid.
pub open spec fn grid_height(g: Grid) -> int {
    g.len() as int
}

/// The number of cells of a well-formed grid.
pub open spec fn grid_area(g: Grid) -> int {
    grid_width(g) * grid_height(g)
}

/// Whether a coordinate lies on the grid.
pub open spec fn pos_in_bounds(g: Grid, x: int, y: int) -> bool {
    0 <= x < grid_width(g) && 0 <= y < grid_height(g)
}

/// The cell at a coordinate.
pub open spec fn cell(g: Grid, x: int, y: int) -> FieldStatus {
    g[y][x]
}

/// Whether the cell at a coordinate is a mine.
pub open spec fn is_mine_at(g: Grid, x: int, y: int) -> bool {
    cell(g, x, y).ft is Mine
}

/// Whether the cell at a coordinate is open.
pub open spec fn is_open_at(g: Grid, x: int, y: int) -> bool {
    cell(g, x, y).fs is Open
}

/// Whether the cell at a coordinate is flagged.
pub open spec fn is_flagged_at(g: Grid, x: int, y: int) -> bool {
    cell(g, x, y).fs is Flag
}

/// One if the coordinate lies on the grid and holds a mine, else zero.
pub open spec fn mine_ind(g: Grid, x: int, y: int) -> int {
    if pos_in_bounds(g, x, y) && is_mine_at(g, x, y) {
        1
    } else {
        0
    }
}

/// One if the coordinate lies on the grid and is flagged, else zero.
pub open spec fn flag_ind(g: Grid, x: int, y: int) -> int {
    if pos_in_bounds(g, x, y) && is_flagged_at(g, x, y) {
        1
    } else {
        0
    }
}

/// The number of mines among the up-to-8 neighbors of a coordinate.
pub open spec fn adjacent_mines(g: Grid, x: int, y: int) -> int {
    mine_ind(g, x - 1, y - 1) + mine_ind(g, x, y - 1) + mine_ind(g, x + 1, y - 1) + mine_ind(
        g,
        x - 1,
        y,
    ) + mine_ind(g, x + 1, y) + mine_ind(g, x - 1, y + 1) + mine_ind(g, x, y + 1) + mine_ind(
        g,
        x + 1,
        y + 1,
    )
}

/// The number of flags among the up-to-8 neighbors of a coordinate.
pub open spec fn adjacent_flags(g: Grid, x: int, y: int) -> int {
    flag_ind(g, x - 1, y - 1) + flag_ind(g, x, y - 1) + flag_ind(g, x + 1, y - 1) + flag_ind(
        g,
        x - 1,
        y,
    ) + flag_ind(g, x + 1, y) + flag_ind(g, x - 1, y + 1) + flag_ind(g, x, y + 1) + flag_ind(
        g,
        x + 1,
        y + 1,
    )
}

/// Whether `(i, j)` is one of the up-to-8 neighbors of `(x, y)`.
pub open spec fn is_neighbor(x: int, y: int, i: int, j: int) -> bool {
    &&& x - 1 <= i <= x + 1
    &&& y - 1 <= j <= y + 1
    &&& !(i == x && j == y)
}

/// Every empty cell records exactly the number of mines among its neighbors.
pub open spec fn adjacency_correct(g: Grid) -> bool {
    forall|x: int, y: int|
        pos_in_bounds(g, x, y) ==> ((#[trigger] cell(g, x, y)).ft matches FieldType::Empty(n)
            ==> n as int == adjacent_mines(g, x, y))
}

/// The grid with the state of one cell replaced and its content kept.
pub open spec fn with_state(g: Grid, x: int, y: int, s: FieldState) -> Grid {
    g.update(y, g[y].update(x, FieldStatus { fs: s, ft: cell(g, x, y).ft }))
}

/// The grid after toggling the flag of one cell: a flagged cell goes back to
/// closed, any other cell becomes flagged.
pub open spec fn toggled(g: Grid, x: int, y: int) -> Grid {
    with_state(
        g,
        x,
        y,
        if is_flagged_at(g, x, y) {
            FieldState::Closed
        } else {
            FieldState::Flag
        },
    )
}

/// Two grids have the same dimensions and the same content everywhere; only
/// disclosure states may differ.
pub open spec fn same_layout(g1: Grid, g2: Grid) -> bool {
    &&& g1.len() == g2.len()
    &&& forall|j: int| 0 <= j < g1.len() ==> (#[trigger] g1[j]).len() == g2[j].len()
    &&& forall|x: int, y: int|
        pos_in_bounds(g1, x, y) ==> (#[trigger] cell(g1, x, y)).ft == cell(g2, x, y).ft
}

/// Every cell either keeps its state or is open in the second grid: cells are
/// only ever disclosed, never hidden again.
pub open spec fn states_monotone(g1: Grid, g2: Grid) -> bool {
    forall|x: int, y: int|
        pos_in_bounds(g1, x, y) ==> ((#[trigger] cell(g2, x, y)).fs == cell(g1, x, y).fs || cell(
            g2,
            x,
            y,
        ).fs is Open)
}

/// Whether a chord at `(x, y)` reaches a mine: some neighbor that is neither
/// flagged nor open holds one.
pub open spec fn chord_hits(g: Grid, x: int, y: int) -> bool {
    exists|i: int, j: int|
        pos_in_bounds(g, i, j) && is_neighbor(x, y, i, j) && !is_flagged_at(g, i, j)
            && !is_open_at(g, i, j) && (#[trigger] is_mine_at(g, i, j))
}

/// A board has been completed when every mine carries a flag, exactly as many
/// flags stand as mines, and every remaining cell is open.
pub open spec fn win_cells(g: Grid) -> bool {
    &&& forall|x: int, y: int|
        pos_in_bounds(g, x, y) && (#[trigger] cell(g, x, y)).ft is Mine ==> cell(g, x, y).fs is Flag
    &&& count_grid(g, CountKind::Flagged) == count_grid(g, CountKind::Mines)
    &&& count_grid(g, CountKind::Opened) + count_grid(g, CountKind::Flagged) == total_cells(g)
}

/// A game session: the board and the outcome.  The outcome is `None` while
/// the game is in progress, `Some(true)` once it is lost and `Some(false)`
/// once it is won.
#[derive(Clone, Debug)]
pub struct Game {
    fields: Vec<Vec<FieldStatus>>,
    finished: Option<bool>,
}

impl Game {
    /// The board as a grid of cells.
    pub closed spec fn grid(self) -> Grid {
        rows_view(self.fields@)
    }

    /// The outcome: `None` in progress, `Some(true)` lost, `Some(false)` won.
    pub closed spec fn status(self) -> Option<bool> {
        self.finished
    }

    /// A session is well formed when its grid is, its cells' adjacency
    /// counts are correct, its mines leave at least one cell free, and its
    /// area is indexable on this machine.
    pub open spec fn wf(self) -> bool {
        &&& grid_wf(self.grid())
        &&& adjacency_correct(self.grid())
        &&& count_grid(self.grid(), CountKind::Mines) < grid_area(self.grid())
        &&& grid_area(self.grid()) <= usize::MAX
    }

    /// The number of columns of the board.
    pub fn width(&self) -> (r: usize)
        requires
            grid_wf(self.grid()),
        ensures
            r as int == grid_width(self.grid()),
    {
        proof {
            lemma_rows_view(self.fields@);
        }
        self.fields[0].len()
    }

    /// The number of rows of the board.
    pub fn height(&self) -> (r: usize)
        requires
            grid_wf(self.grid()),
        ensures
            r as int == grid_height(self.grid()),
    {
        proof {
            lemma_rows_view(self.fields@);
        }
        self.fields.len()
    }

    /// Whether the cell at the coordinate is open.
    pub fn is_open(&self, pos: Pos) -> (r: bool)
        requires
            grid_wf(self.grid()),
            pos_in_bounds(self.grid(), pos.0 as int, pos.1 as int),
        ensures
            r == is_open_at(self.grid(), pos.0 as int, pos.1 as int),
    {
        proof {
            lemma_rows_view(self.fields@);
        }
        matches!(self.fields[pos.1][pos.0].fs, FieldState::Open)
    }

    /// Whether the cell at the coordinate is flagged.
    pub fn is_flagged(&self, pos: Pos) -> (r: bool)
        requires
            grid_wf(self.grid()),
            pos_in_bounds(self.grid(), pos.0 as int, pos.1 as int),
        ensures
            r == is_flagged_at(self.grid(), pos.0 as int, pos.1 as int),
    {
        proof {
            lemma_rows_view(self.fields@);
        }
        matches!(self.fields[pos.1][pos.0].fs, FieldState::Flag)
    }

    /// Whether the cell at the coordinate is a mine.
    fn is_mine(&self, pos: Pos) -> (r: bool)
        requires
            grid_wf(self.grid()),
            pos_in_bounds(self.grid(), pos.0 as int, pos.1 as int),
        ensures
            r == is_mine_at(self.grid(), pos.0 as int, pos.1 as int),
    {
        proof {
            lemma_rows_view(self.fields@);
        }
        matches!(self.fields[pos.1][pos.0].ft, FieldType::Mine)
    }

    /// Replaces the disclosure state of one cell, leaving its content alone.
    fn set_state(&mut self, x: usize, y: usize, s: FieldState)
        requires
            grid_wf(old(self).grid()),
            pos_in_bounds(old(self).grid(), x as int, y as int),
        ensures
            final(self).grid() == with_state(old(self).grid(), x as int, y as int, s),
            final(self).status() == old(self).status(),
    {
        proof {
            lemma_rows_view(self.fields@);
        }
        let ft = self.fields[y][x].ft;
        self.fields[y][x] = FieldStatus { fs: s, ft };
        proof {
            let go = old(self).grid();
            let gn = self.grid();
            let gw = with_state(go, x as int, y as int, s);
            assert forall|j: int| 0 <= j < gn.len() implies gn[j] == gw[j] by {
                if j == y as int {
                    assert(gn[j] =~= gw[j]);
                }
            }
            assert(gn =~~= gw);
        }
    }

    /// The number of mines among the up-to-8 neighbors of the coordinate.
    pub fn neighboring_mines(&self, pos: Pos) -> (r: u8)
        requires
            grid_wf(self.grid()),
            pos_in_bounds(self.grid(), pos.0 as int, pos.1 as int),
        ensures
            r as int == adjacent_mines(self.grid(), pos.0 as int, pos.1 as int),
            r <= 8,
    {
        count_adjacent_mines(&self.fields, pos.0, pos.1)
    }

    /// The number of flags among the up-to-8 neighbors of the coordinate.
    #[verifier::rlimit(60)]
    fn neighboring_flags(&self, pos: Pos) -> (r: u8)
        requires
            grid_wf(self.grid()),
            pos_in_bounds(self.grid(), pos.0 as int, pos.1 as int),
        ensures
            r as int == adjacent_flags(self.grid(), pos.0 as int, pos.1 as int),
            r <= 8,
    {
        proof {
            lemma_rows_view(self.fields@);
        }
        let x = pos.0;
        let y = pos.1;
        let w = self.fields[0].len();
        let h = self.fields.len();
        let mut n: u8 = 0;
        if y > 0 {
            if x > 0 && matches!(self.fields[y - 1][x - 1].fs, FieldState::Flag) {
                n = n + 1;
            }
            if matches!(self.fields[y - 1][x].fs, FieldState::Flag) {
                n = n + 1;
            }
            if x + 1 < w && matches!(self.fields[y - 1][x + 1].fs, FieldState::Flag) {
                n = n + 1;
            }
        }
        if x > 0 && matches!(self.fields[y][x - 1].fs, FieldState::Flag) {
            n = n + 1;
        }
        if x + 1 < w && matches!(self.fields[y][x + 1].fs, FieldState::Flag) {
            n = n + 1;
        }
        if y + 1 < h {
            if x > 0 && matches!(self.fields[y + 1][x - 1].fs, FieldState::Flag) {
                n = n + 1;
            }
            if matches!(self.fields[y + 1][x].fs, FieldState::Flag) {
                n = n + 1;
            }
            if x + 1 < w && matches!(self.fields[y + 1][x + 1].fs, FieldState::Flag) {
                n = n + 1;
            }
        }
        n
    }

    /// The up-to-8 neighbors of the coordinate that lie on the board.
    fn iter_neighbors(&self, pos: Pos) -> (r: Vec<Pos>)
        requires
            grid_wf(self.grid()),
            pos_in_bounds(self.grid(), pos.0 as int, pos.1 as int),
        ensures
            forall|k: int|
                0 <= k < r@.len() ==> pos_in_bounds(
                    self.grid(),
                    (#[trigger] r@[k]).0 as int,
                    r@[k].1 as int,
                ) && is_neighbor(pos.0 as int, pos.1 as int, r@[k].0 as int, r@[k].1 as int),
            forall|i: int, j: int|
                pos_in_bounds(self.grid(), i, j) && is_neighbor(pos.0 as int, pos.1 as int, i, j)
                    ==> r@.contains((i as usize, j as usize)),
            r@.no_duplicates(),
            r@.len() <= 8,
    {
        proof {
            lemma_rows_view(self.fields@);
        }
        let x = pos.0;
        let y = pos.1;
        let w = self.fields[0].len();
        let h = self.fields.len();
        let mut r: Vec<Pos> = Vec::new();
        if y > 0 {
            if x > 0 {
                r.push((x - 1, y - 1));
            }
            r.push((x, y - 1));
            if x + 1 < w {
                r.push((x + 1, y - 1));
            }
        }
        if x > 0 {
            r.push((x - 1, y));
        }
        if x + 1 < w {
            r.push((x + 1, y));
        }
        if y + 1 < h {
            if x > 0 {
                r.push((x - 1, y + 1));
            }
            r.push((x, y + 1));
            if x + 1 < w {
                r.push((x + 1, y + 1));
            }
        }
        proof {
            let s = r@;
            let wi = w as int;
            let hi = h as int;
            let ghost xi = x as int;
            let ghost yi = y as int;
            let c1: int = if yi > 0 && xi > 0 {
                1int
            } else {
                0int
            };
            let c2: int = if yi > 0 {
                1int
            } else {
                0int
            };
            let c3: int = if yi > 0 && xi + 1 < wi {
                1int
            } else {
                0int
            };
            let c4: int = if xi > 0 {
                1int
            } else {
                0int
            };
            let c5: int = if xi + 1 < wi {
                1int
            } else {
                0int
            };
            let c6: int = if yi + 1 < hi && xi > 0 {
                1int
            } else {
                0int
            };
            let c7: int = if yi + 1 < hi {
                1int
            } else {
                0int
            };
            assert forall|i: int, j: int|
                pos_in_bounds(self.grid(), i, j) && is_neighbor(
                    xi,
                    yi,
                    i,
                    j,
                ) implies r@.contains((i as usize, j as usize)) by {
                let p = (i as usize, j as usize);
                if j == yi - 1 {
                    if i == xi - 1 {
                        assert(s[0] == p);
                    } else if i == xi {
                        assert(s[c1] == p);
                    } else {
                        assert(s[c1 + c2] == p);
                    }
                } else if j == yi {
                    if i == xi - 1 {
                        assert(s[c1 + c2 + c3] == p);
                    } else {
                        assert(s[c1 + c2 + c3 + c4] == p);
                    }
                } else {
                    if i == xi - 1 {
                        assert(s[c1 + c2 + c3 + c4 + c5] == p);
                    } else if i == xi {
                        assert(s[c1 + c2 + c3 + c4 + c5 + c6] == p);
                    } else {
                        assert(s[c1 + c2 + c3 + c4 + c5 + c6 + c7] == p);
                    }
                }
            }
            assert forall|a: int, b: int|
                0 <= a < r@.len() && 0 <= b < r@.len() && a != b implies r@[a] != r@[b] by {}
        }
        r
    }
}

/// The number of mines among the up-to-8 neighbors of a coordinate, counted
/// over the raw rows of a board being built.
fn count_adjacent_mines(rows: &Vec<Vec<FieldStatus>>, x: usize, y: usize) -> (r: u8)
    requires
        grid_wf(rows_view(rows@)),
        pos_in_bounds(rows_view(rows@), x as int, y as int),
    ensures
        r as int == adjacent_mines(rows_view(rows@), x as int, y as int),
        r <= 8,
{
    proof {
        lemma_rows_view(rows@);
    }
    let w = rows[0].len();
    let h = rows.len();
    let mut n: u8 = 0;
    if y > 0 {
        if x > 0 && matches!(rows[y - 1][x - 1].ft, FieldType::Mine) {
            n = n + 1;
        }
        if matches!(rows[y - 1][x].ft, FieldType::Mine) {
            n = n + 1;
        }
        if x + 1 < w && matches!(rows[y - 1][x + 1].ft, FieldType::Mine) {
            n = n + 1;
        }
    }
    if x > 0 && matches!(rows[y][x - 1].ft, FieldType::Mine) {
        n = n + 1;
    }
    if x + 1 < w && matches!(rows[y][x + 1].ft, FieldType::Mine) {
        n = n + 1;
    }
    if y + 1 < h {
        if x > 0 && matches!(rows[y + 1][x - 1].ft, FieldType::Mine) {
            n = n + 1;
        }
        if matches!(rows[y + 1][x].ft, FieldType::Mine) {
            n = n + 1;
        }
        if x + 1 < w && matches!(rows[y + 1][x + 1].ft, FieldType::Mine) {
            n = n + 1;
        }
    }
    n
}

/// Every cell of the grid is closed.
pub open spec fn all_closed(g: Grid) -> bool {
    forall|x: int, y: int| pos_in_bounds(g, x, y) ==> (#[trigger] cell(g, x, y)).fs is Closed
}

/// The render code of one cell, as the host's presentation layer reads it:
/// closed empty cells are 0 to 8, a closed mine 9, flagged cells 10 to 19,
/// open cells 20 to 29.
pub open spec fn code_of(c: FieldStatus) -> int {
    match (c.fs, c.ft) {
        (FieldState::Closed, FieldType::Empty(n)) => n as int,
        (FieldState::Closed, FieldType::Mine) => 9,
        (FieldState::Flag, FieldType::Empty(n)) => 10 + n as int,
        (FieldState::Flag, FieldType::Mine) => 19,
        (FieldState::Open, FieldType::Empty(n)) => 20 + n as int,
        (FieldState::Open, FieldType::Mine) => 29,
    }
}

/// Why a requested board with these dimensions and mine count is refused, if
/// it is: a zero dimension, an area beyond this machine's indexing, or too
/// many mines, tested in that order.
pub open spec fn board_spec_error(width: int, height: int, mine_count: int) -> Option<
    NewGameError,
> {
    if width < 1 || height < 1 {
        Some(NewGameError::ZeroDimension)
    } else if width * height > usize::MAX {
        Some(NewGameError::TooLarge)
    } else if mine_count >= width * height {
        Some(NewGameError::TooManyMines)
    } else {
        None
    }
}

/// Why a requested board with these dimensions and mine positions is
/// refused, if it is.
pub open spec fn mines_spec_error(width: int, height: int, mines: Seq<(usize, usize)>) -> Option<
    NewGameError,
> {
    if width < 1 || height < 1 {
        Some(NewGameError::ZeroDimension)
    } else if width * height > usize::MAX {
        Some(NewGameError::TooLarge)
    } else if exists|k: int|
        0 <= k < mines.len() && !((#[trigger] mines[k]).0 < width && mines[k].1 < height) {
        Some(NewGameError::MineOutOfBounds)
    } else if !mines.no_duplicates() {
        Some(NewGameError::DuplicateMine)
    } else if mines.len() >= width * height {
        Some(NewGameError::TooManyMines)
    } else {
        None
    }
}

/// Replacing one cell of a grid changes a count by the difference of the two
/// cells' contributions.
pub(crate) proof fn lemma_count_cell_update(g: Grid, x: int, y: int, v: FieldStatus, k: CountKind)
    requires
        0 <= y < g.len(),
        0 <= x < g[y].len(),
    ensures
        count_grid(g.update(y, g[y].update(x, v)), k) == count_grid(g, k) - (if cell_matches(
            g[y][x],
            k,
        ) {
            1int
        } else {
            0int
        }) + (if cell_matches(v, k) {
            1int
        } else {
            0int
        }),
{
    lemma_count_row_update(g[y], x, v, k);
    lemma_count_grid_update_row(g, y, g[y].update(x, v), k);
}

/// Two grids of the same shape with mines in the same places give every
/// coordinate the same adjacent-mine count.
pub(crate) proof fn lemma_adjacent_mines_congruent(g1: Grid, g2: Grid)
    requires
        g1.len() == g2.len(),
        forall|j: int| 0 <= j < g1.len() ==> (#[trigger] g1[j]).len() == g2[j].len(),
        forall|x: int, y: int|
            pos_in_bounds(g1, x, y) ==> ((#[trigger] cell(g1, x, y)).ft is Mine <==> cell(
                g2,
                x,
                y,
            ).ft is Mine),
    ensures
        forall|x: int, y: int|
            #![trigger adjacent_mines(g1, x, y)]
            #![trigger adjacent_mines(g2, x, y)]
            adjacent_mines(g2, x, y) == adjacent_mines(g1, x, y),
{
    assert forall|x: int, y: int|
        #![trigger adjacent_mines(g1, x, y)]
        #![trigger adjacent_mines(g2, x, y)]
        adjacent_mines(g2, x, y) == adjacent_mines(g1, x, y) by {
        assert forall|a: int, b: int| #[trigger] mine_ind(g2, a, b) == mine_ind(g1, a, b) by {
            if 0 <= b < g1.len() {
                assert(g1[b].len() == g2[b].len());
            }
            if pos_in_bounds(g1, a, b) {
                assert(cell(g1, a, b).ft is Mine <==> cell(g2, a, b).ft is Mine);
            }
        }
    }
}

/// What replacing the state of one cell leaves alone: the shape, every other
/// cell, every content, every adjacency count, and the mine count.
pub(crate) proof fn lemma_with_state_facts(g: Grid, x: int, y: int, s: FieldState)
    requires
        grid_wf(g),
        pos_in_bounds(g, x, y),
    ensures
        grid_wf(with_state(g, x, y, s)),
        with_state(g, x, y, s).len() == g.len(),
        forall|j: int|
            0 <= j < g.len() ==> (#[trigger] with_state(g, x, y, s)[j]).len() == g[j].len(),
        forall|a: int, b: int|
            pos_in_bounds(g, a, b) && !(a == x && b == y) ==> #[trigger] cell(
                with_state(g, x, y, s),
                a,
                b,
            ) == cell(g, a, b),
        cell(with_state(g, x, y, s), x, y) == (FieldStatus { fs: s, ft: cell(g, x, y).ft }),
        forall|a: int, b: int|
            pos_in_bounds(g, a, b) ==> (#[trigger] cell(with_state(g, x, y, s), a, b)).ft == cell(
                g,
                a,
                b,
            ).ft,
        forall|a: int, b: int|
            #[trigger] adjacent_mines(with_state(g, x, y, s), a, b) == adjacent_mines(g, a, b),
        adjacency_correct(g) ==> adjacency_correct(with_state(g, x, y, s)),
        count_grid(with_state(g, x, y, s), CountKind::Mines) == count_grid(g, CountKind::Mines),
        same_layout(g, with_state(g, x, y, s)),
{
    let g2 = with_state(g, x, y, s);
    assert(g2.len() == g.len());
    assert forall|j: int| 0 <= j < g.len() implies (#[trigger] g2[j]).len() == g[j].len() by {
        if j == y {
            assert(g2[j] == g[y].update(x, FieldStatus { fs: s, ft: cell(g, x, y).ft }));
        }
    }
    assert forall|a: int, b: int|
        pos_in_bounds(g, a, b) ==> ((#[trigger] cell(g, a, b)).ft is Mine <==> cell(
            g2,
            a,
            b,
        ).ft is Mine) by {}
    lemma_adjacent_mines_congruent(g, g2);
    lemma_count_cell_update(g, x, y, FieldStatus { fs: s, ft: cell(g, x, y).ft }, CountKind::Mines);
    assert(count_grid(g2, CountKind::Mines) == count_grid(g, CountKind::Mines));
    assert forall|a: int, b: int|
        pos_in_bounds(g2, a, b) implies ((#[trigger] cell(g2, a, b)).ft
        matches FieldType::Empty(n) ==> adjacency_correct(g) ==> n as int == adjacent_mines(
        g2,
        a,
        b,
    )) by {
        if cell(g2, a, b).ft == cell(g, a, b).ft {
        }
    }
}

/// A board of the given dimensions, every cell closed and empty.
fn empty_rows(width: usize, height: usize) -> (rows: Vec<Vec<FieldStatus>>)
    requires
        1 <= width,
        1 <= height,
    ensures
        rows@.len() == height,
        forall|j: int| 0 <= j < rows@.len() ==> (#[trigger] rows@[j])@.len() == width,
        forall|j: int, i: int|
            #![trigger rows@[j]@[i]]
            0 <= j < rows@.len() && 0 <= i < width ==> rows@[j]@[i] == (FieldStatus {
                fs: FieldState::Closed,
                ft: FieldType::Empty(0),
            }),
{
    let blank = FieldStatus { fs: FieldState::Closed, ft: FieldType::Empty(0) };
    let mut rows: Vec<Vec<FieldStatus>> = Vec::new();
    let mut y: usize = 0;
    while y < height
        invariant
            y <= height,
            rows@.len() == y,
            blank == (FieldStatus { fs: FieldState::Closed, ft: FieldType::Empty(0) }),
            forall|j: int| 0 <= j < rows@.len() ==> (#[trigger] rows@[j])@.len() == width,
            forall|j: int, i: int|
                #![trigger rows@[j]@[i]]
                0 <= j < rows@.len() && 0 <= i < width ==> rows@[j]@[i] == blank,
        decreases height - y,
    {
        let mut row: Vec<FieldStatus> = Vec::new();
        let mut x: usize = 0;
        while x < width
            invariant
                x <= width,
                row@.len() == x,
                blank == (FieldStatus { fs: FieldState::Closed, ft: FieldType::Empty(0) }),
                forall|i: int| 0 <= i < row@.len() ==> #[trigger] row@[i] == blank,
            decreases width - x,
        {
            row.push(blank);
            x = x + 1;
        }
        rows.push(row);
        y = y + 1;
    }
    rows
}

/// Sets a mine at each of the given distinct positions of an all-closed,
/// all-empty board.
fn place_mines(rows: &mut Vec<Vec<FieldStatus>>, mines: &Vec<Pos>)
    requires
        old(rows)@.len() >= 1,
        (#[trigger] old(rows)@[0])@.len() >= 1,
        forall|j: int|
            0 <= j < old(rows)@.len() ==> (#[trigger] old(rows)@[j])@.len() == old(rows)@[0]@.len(),
        forall|j: int, i: int|
            #![trigger old(rows)@[j]@[i]]
            0 <= j < old(rows)@.len() && 0 <= i < old(rows)@[0]@.len() ==> old(rows)@[j]@[i]
                == (FieldStatus { fs: FieldState::Closed, ft: FieldType::Empty(0) }),
        mines@.no_duplicates(),
        forall|k: int|
            0 <= k < mines@.len() ==> (#[trigger] mines@[k]).0 < old(rows)@[0]@.len()
                && mines@[k].1 < old(rows)@.len(),
    ensures
        final(rows)@.len() == old(rows)@.len(),
        forall|j: int|
            0 <= j < final(rows)@.len() ==> (#[trigger] final(rows)@[j])@.len()
                == old(rows)@[0]@.len(),
        forall|j: int, i: int|
            #![trigger final(rows)@[j]@[i]]
            0 <= j < final(rows)@.len() && 0 <= i < old(rows)@[0]@.len()
                ==> final(rows)@[j]@[i].fs is Closed,
        forall|j: int, i: int|
            #![trigger final(rows)@[j]@[i]]
            0 <= j < final(rows)@.len() && 0 <= i < old(rows)@[0]@.len()
                ==> (final(rows)@[j]@[i].ft is Mine <==> mines@.contains(
                (i as usize, j as usize),
            )),
        count_grid(rows_view(final(rows)@), CountKind::Mines) == mines@.len(),
{
    let ghost w = old(rows)@[0]@.len() as int;
    let ghost h = old(rows)@.len() as int;
    let w_exec = rows[0].len();
    let h_exec = rows.len();
    proof {
        lemma_rows_view(rows@);
        lemma_count_grid_zero(rows_view(rows@), CountKind::Mines);
        assert(mines@.take(0) =~= Seq::<Pos>::empty());
    }
    let mut k: usize = 0;
    while k < mines.len()
        invariant
            k <= mines@.len(),
            mines@.no_duplicates(),
            rows@.len() == h,
            1 <= w,
            1 <= h,
            w == w_exec as int,
            h == h_exec as int,
            forall|k2: int|
                0 <= k2 < mines@.len() ==> (#[trigger] mines@[k2]).0 < w && mines@[k2].1 < h,
            forall|j: int| 0 <= j < rows@.len() ==> (#[trigger] rows@[j])@.len() == w,
            forall|j: int, i: int|
                #![trigger rows@[j]@[i]]
                0 <= j < h && 0 <= i < w ==> rows@[j]@[i].fs is Closed,
            forall|j: int, i: int|
                #![trigger rows@[j]@[i]]
                0 <= j < h && 0 <= i < w ==> (rows@[j]@[i].ft is Mine <==> mines@.take(
                    k as int,
                ).contains((i as usize, j as usize))),
            count_grid(rows_view(rows@), CountKind::Mines) == k,
        decreases mines@.len() - k,
    {
        let p = mines[k];
        let mx = p.0;
        let my = p.1;
        let ghost r0 = rows@;
        let ghost g0 = rows_view(r0);
        proof {
            lemma_rows_view(r0);
        }
        rows[my][mx] = FieldStatus { fs: FieldState::Closed, ft: FieldType::Mine };
        proof {
            lemma_rows_view(rows@);
            let v = FieldStatus { fs: FieldState::Closed, ft: FieldType::Mine };
            let g1 = rows_view(rows@);
            let gu = g0.update(my as int, g0[my as int].update(mx as int, v));
            assert forall|j: int| 0 <= j < g1.len() implies g1[j] == gu[j] by {
                if j == my as int {
                    assert(g1[j] =~= gu[j]);
                }
            }
            assert(g1 =~~= gu);
            assert(!mines@.take(k as int).contains(mines@[k as int])) by {
                if mines@.take(k as int).contains(mines@[k as int]) {
                    let j = choose|j: int|
                        0 <= j < k && mines@.take(k as int)[j] == mines@[k as int];
                    assert(mines@[j] == mines@[k as int]);
                }
            }
            assert(!cell_matches(g0[my as int][mx as int], CountKind::Mines));
            lemma_count_cell_update(g0, mx as int, my as int, v, CountKind::Mines);
            assert(mines@.take(k as int + 1) =~= mines@.take(k as int).push(mines@[k as int]));
            assert forall|j: int, i: int|
                #![trigger rows@[j]@[i]]
                0 <= j < h && 0 <= i < w implies (rows@[j]@[i].ft is Mine <==> mines@.take(
                k as int + 1,
            ).contains((i as usize, j as usize))) by {
                let q = (i as usize, j as usize);
                let t1 = mines@.take(k as int + 1);
                let t0 = mines@.take(k as int);
                assert(rows@[j]@[i] == g1[j][i]);
                if q == mines@[k as int] {
                    assert(t1[k as int] == q);
                    assert(t1.contains(q));
                    assert(0 <= i <= usize::MAX && 0 <= j <= usize::MAX);
                    assert(i as usize == mx && j as usize == my);
                    assert(i == mx as int && j == my as int);
                    assert(g1[j][i] == gu[j][i]);
                    assert(gu[j][i] == v);
                } else {
                    assert(g1[j][i] == g0[j][i]);
                    if t1.contains(q) {
                        let n = choose|n: int| 0 <= n < t1.len() && t1[n] == q;
                        assert(t0[n] == q);
                        assert(t0.contains(q));
                    }
                    if t0.contains(q) {
                        let n = choose|n: int| 0 <= n < t0.len() && t0[n] == q;
                        assert(t1[n] == q);
                    }
                }
            }
        }
        k = k + 1;
    }
    proof {
        assert(mines@.take(mines@.len() as int) =~= mines@);
    }
}

/// A copy of the board in which every empty cell records the number of mines
/// among its neighbors; mines and disclosure states are kept.
fn fill_adjacency(rows: &Vec<Vec<FieldStatus>>) -> (out: Vec<Vec<FieldStatus>>)
    requires
        grid_wf(rows_view(rows@)),
    ensures
        out@.len() == rows@.len(),
        forall|j: int| 0 <= j < out@.len() ==> (#[trigger] out@[j])@.len() == rows@[j]@.len(),
        forall|j: int, i: int|
            #![trigger out@[j]@[i]]
            0 <= j < out@.len() && 0 <= i < out@[j]@.len() ==> out@[j]@[i] == (if rows@[j]@[i].ft is Mine {
                rows@[j]@[i]
            } else {
                FieldStatus {
                    fs: rows@[j]@[i].fs,
                    ft: FieldType::Empty(adjacent_mines(rows_view(rows@), i, j) as u8),
                }
            }),
{
    proof {
        lemma_rows_view(rows@);
    }
    let w = rows[0].len();
    let h = rows.len();
    let mut out: Vec<Vec<FieldStatus>> = Vec::new();
    let mut y: usize = 0;
    while y < h
        invariant
            grid_wf(rows_view(rows@)),
            w as int == grid_width(rows_view(rows@)),
            h as int == grid_height(rows_view(rows@)),
            y <= h,
            out@.len() == y,
            forall|j: int| 0 <= j < out@.len() ==> (#[trigger] out@[j])@.len() == w,
            forall|j: int, i: int|
                #![trigger out@[j]@[i]]
                0 <= j < out@.len() && 0 <= i < w ==> out@[j]@[i] == (if rows@[j]@[i].ft is Mine {
                    rows@[j]@[i]
                } else {
                    FieldStatus {
                        fs: rows@[j]@[i].fs,
                        ft: FieldType::Empty(adjacent_mines(rows_view(rows@), i, j) as u8),
                    }
                }),
        decreases h - y,
    {
        let mut row: Vec<FieldStatus> = Vec::new();
        let mut x: usize = 0;
        while x < w
            invariant
                grid_wf(rows_view(rows@)),
                w as int == grid_width(rows_view(rows@)),
                h as int == grid_height(rows_view(rows@)),
                y < h,
                x <= w,
                row@.len() == x,
                forall|i: int|
                    0 <= i < row@.len() ==> #[trigger] row@[i] == (if rows@[y as int]@[i].ft is Mine {
                        rows@[y as int]@[i]
                    } else {
                        FieldStatus {
                            fs: rows@[y as int]@[i].fs,
                            ft: FieldType::Empty(
                                adjacent_mines(rows_view(rows@), i, y as int) as u8,
                            ),
                        }
                    }),
            decreases w - x,
        {
            proof {
                lemma_rows_view(rows@);
            }
            let c = rows[y][x];
            if matches!(c.ft, FieldType::Mine) {
                row.push(c);
            } else {
                let n = count_adjacent_mines(rows, x, y);
                row.push(FieldStatus { fs: c.fs, ft: FieldType::Empty(n) });
            }
            x = x + 1;
        }
        out.push(row);
        y = y + 1;
    }
    out
}

/// A fresh all-closed board of the given dimensions with mines at exactly the
/// given distinct positions and every adjacency count computed.
fn build_board(width: usize, height: usize, mines: &Vec<Pos>) -> (rows: Vec<Vec<FieldStatus>>)
    requires
        1 <= width,
        1 <= height,
        width as int * height as int <= usize::MAX,
        mines@.no_duplicates(),
        forall|k: int|
            0 <= k < mines@.len() ==> (#[trigger] mines@[k]).0 < width && mines@[k].1 < height,
    ensures
        grid_wf(rows_view(rows@)),
        grid_width(rows_view(rows@)) == width,
        grid_height(rows_view(rows@)) == height,
        adjacency_correct(rows_view(rows@)),
        all_closed(rows_view(rows@)),
        count_grid(rows_view(rows@), CountKind::Mines) == mines@.len(),
        forall|i: int, j: int|
            pos_in_bounds(rows_view(rows@), i, j) ==> (is_mine_at(rows_view(rows@), i, j)
                <==> mines@.contains((i as usize, j as usize))),
{
    let mut base = empty_rows(width, height);
    place_mines(&mut base, mines);
    let rows = fill_adjacency(&base);
    proof {
        lemma_rows_view(base@);
        lemma_rows_view(rows@);
        let gm = rows_view(base@);
        let g = rows_view(rows@);
        assert(grid_wf(gm));
        assert forall|j: int| 0 <= j < g.len() implies (#[trigger] g[j]).len() == gm[j].len() by {}
        assert(grid_wf(g));
        assert forall|a: int, b: int|
            pos_in_bounds(gm, a, b) implies ((#[trigger] cell(gm, a, b)).ft is Mine <==> cell(
            g,
            a,
            b,
        ).ft is Mine) by {
            assert(g[b][a] == rows@[b]@[a]);
            assert(gm[b][a] == base@[b]@[a]);
        }
        lemma_adjacent_mines_congruent(gm, g);
        assert forall|x: int, y: int|
            pos_in_bounds(g, x, y) implies ((#[trigger] cell(g, x, y)).ft
            matches FieldType::Empty(n) ==> n as int == adjacent_mines(g, x, y)) by {
            if !(cell(gm, x, y).ft is Mine) {
                assert(0 <= adjacent_mines(gm, x, y) <= 8);
                assert(cell(g, x, y).ft == FieldType::Empty(adjacent_mines(gm, x, y) as u8));
            }
        }
        assert(adjacency_correct(g));
        assert forall|x: int, y: int| pos_in_bounds(g, x, y) implies (#[trigger] cell(
            g,
            x,
            y,
        )).fs is Closed by {
            assert(cell(gm, x, y).fs is Closed);
        }
        lemma_count_grid_congruent(gm, g, CountKind::Mines);
        assert forall|i: int, j: int| pos_in_bounds(g, i, j) implies (is_mine_at(g, i, j)
            <==> mines@.contains((i as usize, j as usize))) by {
            assert(cell(gm, i, j).ft is Mine <==> mines@.contains((i as usize, j as usize)));
        }
    }
    rows
}

impl Game {
    /// How many cells of the board fall under the given count.
    fn count_cells(&self, k: CountKind) -> (r: usize)
        requires
            self.wf(),
        ensures
            r as int == count_grid(self.grid(), k),
            (r as int) <= grid_area(self.grid()),
    {
        proof {
            lemma_rows_view(self.fields@);
        }
        let ghost g = self.grid();
        let w = self.fields[0].len();
        let h = self.fields.len();
        let mut n: usize = 0;
        let mut y: usize = 0;
        proof {
            assert(g.take(0) =~= Seq::<Seq<FieldStatus>>::empty());
            lemma_total_cells_uniform(g, w as int, h as int);
            assert(g.take(h as int) =~= g);
        }
        while y < h
            invariant
                self.wf(),
                g == self.grid(),
                w as int == grid_width(g),
                h as int == grid_height(g),
                y <= h,
                n as int == count_grid(g.take(y as int), k),
                n as int <= y as int * w as int,
                y as int * w as int <= w as int * h as int,
                w as int * h as int <= usize::MAX,
            decreases h - y,
        {
            proof {
                lemma_rows_view(self.fields@);
                lemma_total_cells_uniform(g, w as int, y as int);
                lemma_count_grid_bounds(g.take(y as int), k);
                assert((y as int + 1) * w as int <= w as int * h as int) by (nonlinear_arith)
                    requires
                        y as int + 1 <= h as int,
                        w as int >= 0,
                ;
                assert((y as int + 1) * w as int == y as int * w as int + w as int) by (
                nonlinear_arith);
                assert(g.take(y as int + 1).drop_last() =~= g.take(y as int));
                assert(count_row(g[y as int].take(0), k) == 0);
            }
            let mut x: usize = 0;
            while x < w
                invariant
                    self.wf(),
                    g == self.grid(),
                    w as int == grid_width(g),
                    h as int == grid_height(g),
                    y < h,
                    x <= w,
                    n as int == count_grid(g.take(y as int), k) + count_row(
                        g[y as int].take(x as int),
                        k,
                    ),
                    n as int <= y as int * w as int + x as int,
                    (y as int + 1) * w as int <= w as int * h as int,
                    y as int * w as int + w as int == (y as int + 1) * w as int,
                    w as int * h as int <= usize::MAX,
                decreases w - x,
            {
                proof {
                    lemma_rows_view(self.fields@);
                    lemma_count_row_take_step(g[y as int], k, x as int);
                }
                if matches_kind(self.fields[y][x], k) {
                    n = n + 1;
                }
                x = x + 1;
            }
            proof {
                lemma_count_row_take_all(g[y as int], k);
                lemma_count_grid_take_step(g, k, y as int);
            }
            y = y + 1;
        }
        proof {
            assert(g.take(h as int) =~= g);
            lemma_total_cells_uniform(g, w as int, h as int);
            assert(grid_area(g) == w as int * h as int) by (nonlinear_arith)
                requires
                    grid_area(g) == grid_width(g) * grid_height(g),
                    w as int == grid_width(g),
                    h as int == grid_height(g),
            ;
        }
        n
    }

    /// The number of mines on the board, derived by counting mine cells.
    pub fn mine_count(&self) -> (r: usize)
        requires
            self.wf(),
        ensures
            r as int == count_grid(self.grid(), CountKind::Mines),
            (r as int) < grid_area(self.grid()),
    {
        self.count_cells(CountKind::Mines)
    }

    /// The number of open cells.
    pub fn fields_opened(&self) -> (r: usize)
        requires
            self.wf(),
        ensures
            r as int == count_grid(self.grid(), CountKind::Opened),
    {
        self.count_cells(CountKind::Opened)
    }

    /// The number of flagged cells.
    fn fields_flagged(&self) -> (r: usize)
        requires
            self.wf(),
        ensures
            r as int == count_grid(self.grid(), CountKind::Flagged),
    {
        self.count_cells(CountKind::Flagged)
    }

    /// How many flags are still to be placed: the mine count less the number
    /// of flagged cells.  When more flags stand than mines, the difference
    /// saturates at zero rather than going negative.
    pub fn flags_remaining(&self) -> (r: usize)
        requires
            self.wf(),
        ensures
            r as int == (if count_grid(self.grid(), CountKind::Flagged) <= count_grid(
                self.grid(),
                CountKind::Mines,
            ) {
                count_grid(self.grid(), CountKind::Mines) - count_grid(
                    self.grid(),
                    CountKind::Flagged,
                )
            } else {
                0int
            }),
    {
        let m = self.mine_count();
        let f = self.fields_flagged();
        if f <= m {
            m - f
        } else {
            0
        }
    }

    /// Marks the game lost.
    pub fn lost(&mut self)
        ensures
            final(self).grid() == old(self).grid(),
            final(self).status() == Some(true),
    {
        self.finished = Some(true);
    }

    /// The outcome so far: `None` while the game runs, `Some(true)` after a
    /// loss, `Some(false)` after a win.
    pub fn is_finished(&self) -> (r: Option<bool>)
        ensures
            r == self.status(),
    {
        self.finished
    }
}


/// Whether any position occurs twice in the list.
fn has_duplicate(v: &Vec<Pos>) -> (r: bool)
    ensures
        r == !v@.no_duplicates(),
{
    let mut a: usize = 0;
    while a < v.len()
        invariant
            a <= v@.len(),
            forall|i: int, j: int|
                #![trigger v@[i], v@[j]]
                0 <= i < a && i < j < v@.len() ==> v@[i] != v@[j],
        decreases v@.len() - a,
    {
        let mut b: usize = a + 1;
        while b < v.len()
            invariant
                a < v@.len(),
                a < b,
                forall|i: int, j: int|
                    #![trigger v@[i], v@[j]]
                    0 <= i < a && i < j < v@.len() ==> v@[i] != v@[j],
                forall|j: int| a < j < b ==> v@[a as int] != #[trigger] v@[j],
            decreases v@.len() - b,
        {
            if v[a].0 == v[b].0 && v[a].1 == v[b].1 {
                proof {
                    assert(v@[a as int] == v@[b as int]);
                }
                return true;
            }
            b = b + 1;
        }
        a = a + 1;
    }
    proof {
        assert forall|i: int, j: int|
            0 <= i < v@.len() && 0 <= j < v@.len() && i != j implies v@[i] != v@[j] by {
            if i < j {
                assert(v@[i] != v@[j]);
            } else {
                assert(v@[j] != v@[i]);
            }
        }
    }
    false
}

/// The render code of one cell, as `code_of` states it.
fn field_code(c: FieldStatus) -> (r: u8)
    requires
        c.ft matches FieldType::Empty(n) ==> n <= 8,
    ensures
        r as int == code_of(c),
{
    match (c.fs, c.ft) {
        (FieldState::Closed, FieldType::Empty(n)) => n,
        (FieldState::Closed, FieldType::Mine) => 9,
        (FieldState::Flag, FieldType::Empty(n)) => 10 + n,
        (FieldState::Flag, FieldType::Mine) => 19,
        (FieldState::Open, FieldType::Empty(n)) => 20 + n,
        (FieldState::Open, FieldType::Mine) => 29,
    }
}

impl Game {
    /// Builds a fresh session: an all-closed `width` by `height` board with
    /// `mine_count` mines placed at random distinct positions and every
    /// adjacency count computed.  Dimensions of zero, a board too large to
    /// index, or a mine count not below the cell count are refused.
    pub fn new(size: BoardSize) -> (r: Result<Game, NewGameError>)
        ensures
            match r {
                Ok(g) => {
                    &&& board_spec_error(
                        size@[0] as int,
                        size@[1] as int,
                        size@[2] as int,
                    ) is None
                    &&& g.wf()
                    &&& grid_width(g.grid()) == size@[0]
                    &&& grid_height(g.grid()) == size@[1]
                    &&& count_grid(g.grid(), CountKind::Mines) == size@[2]
                    &&& all_closed(g.grid())
                    &&& g.status() is None
                },
                Err(e) => Some(e) == board_spec_error(
                    size@[0] as int,
                    size@[1] as int,
                    size@[2] as int,
                ),
            },
    {
        let width = size[0];
        let height = size[1];
        let mine_count = size[2];
        if width == 0 || height == 0 {
            return Err(NewGameError::ZeroDimension);
        }
        match width.checked_mul(height) {
            None => Err(NewGameError::TooLarge),
            Some(area) => {
                if mine_count >= area {
                    Err(NewGameError::TooManyMines)
                } else {
                    let mines = random_fields(width, height, mine_count);
                    let fields = build_board(width, height, &mines);
                    let g = Game { fields, finished: None };
                    proof {
                        assert(g.grid() == rows_view(g.fields@));
                        assert(grid_area(g.grid()) == width as int * height as int);
                    }
                    Ok(g)
                }
            },
        }
    }

    /// Builds a fresh session with mines at exactly the given positions:
    /// an all-closed board whose adjacency counts are computed from that
    /// layout.  Besides the checks of `new`, a position off the board or
    /// given twice is refused.
    pub fn from_mines(width: usize, height: usize, mines: Vec<Pos>) -> (r: Result<
        Game,
        NewGameError,
    >)
        ensures
            match r {
                Ok(g) => {
                    &&& mines_spec_error(width as int, height as int, mines@) is None
                    &&& g.wf()
                    &&& grid_width(g.grid()) == width
                    &&& grid_height(g.grid()) == height
                    &&& count_grid(g.grid(), CountKind::Mines) == mines@.len()
                    &&& all_closed(g.grid())
                    &&& g.status() is None
                    &&& forall|i: int, j: int|
                        pos_in_bounds(g.grid(), i, j) ==> (is_mine_at(g.grid(), i, j)
                            <==> mines@.contains((i as usize, j as usize)))
                },
                Err(e) => Some(e) == mines_spec_error(width as int, height as int, mines@),
            },
    {
        if width == 0 || height == 0 {
            return Err(NewGameError::ZeroDimension);
        }
        match width.checked_mul(height) {
            None => Err(NewGameError::TooLarge),
            Some(area) => {
                let mut k: usize = 0;
                while k < mines.len()
                    invariant
                        k <= mines@.len(),
                        width >= 1,
                        height >= 1,
                        width as int * height as int <= usize::MAX,
                        forall|k2: int|
                            0 <= k2 < k ==> (#[trigger] mines@[k2]).0 < width && mines@[k2].1
                                < height,
                    decreases mines@.len() - k,
                {
                    let p = mines[k];
                    if p.0 >= width || p.1 >= height {
                        proof {
                            assert(exists|k2: int|
                                0 <= k2 < mines@.len() && !((#[trigger] mines@[k2]).0 < width
                                    && mines@[k2].1 < height)) by {
                                assert(!((mines@[k as int]).0 < width && mines@[k as int].1
                                    < height));
                            }
                        }
                        return Err(NewGameError::MineOutOfBounds);
                    }
                    k = k + 1;
                }
                if has_duplicate(&mines) {
                    return Err(NewGameError::DuplicateMine);
                }
                if mines.len() >= area {
                    return Err(NewGameError::TooManyMines);
                }
                let fields = build_board(width, height, &mines);
                let g = Game { fields, finished: None };
                proof {
                    assert(g.grid() == rows_view(g.fields@));
                    assert(grid_area(g.grid()) == width as int * height as int);
                }
                Ok(g)
            },
        }
    }

    /// Clears the board back to all-closed cells, keeping the dimensions and
    /// the current mine count, draws fresh mine positions, recomputes every
    /// adjacency count, and puts the game back in progress.
    pub fn board_reset(&mut self)
        requires
            old(self).wf(),
        ensures
            final(self).wf(),
            grid_width(final(self).grid()) == grid_width(old(self).grid()),
            grid_height(final(self).grid()) == grid_height(old(self).grid()),
            count_grid(final(self).grid(), CountKind::Mines) == count_grid(
                old(self).grid(),
                CountKind::Mines,
            ),
            all_closed(final(self).grid()),
            final(self).status() is None,
    {
        let w = self.width();
        let h = self.height();
        let m = self.mine_count();
        proof {
            assert(w as int * h as int == grid_area(self.grid()));
        }
        let mines = random_fields(w, h, m);
        let fields = build_board(w, h, &mines);
        self.fields = fields;
        self.finished = None;
        proof {
            assert(self.grid() == rows_view(self.fields@));
            assert(grid_area(self.grid()) == w as int * h as int);
        }
    }

    /// Opens every not-yet-open cell, flags included, laying the whole board
    /// bare after a loss.
    pub fn show_loss(&mut self)
        requires
            old(self).wf(),
        ensures
            final(self).wf(),
            same_layout(old(self).grid(), final(self).grid()),
            states_monotone(old(self).grid(), final(self).grid()),
            forall|x: int, y: int|
                pos_in_bounds(final(self).grid(), x, y) ==> (#[trigger] cell(
                    final(self).grid(),
                    x,
                    y,
                )).fs is Open,
            final(self).status() == old(self).status(),
    {
        let w = self.width();
        let h = self.height();
        let mut y: usize = 0;
        while y < h
            invariant
                self.wf(),
                w as int == grid_width(self.grid()),
                h as int == grid_height(self.grid()),
                y <= h,
                same_layout(old(self).grid(), self.grid()),
                states_monotone(old(self).grid(), self.grid()),
                self.status() == old(self).status(),
                forall|i: int, j: int|
                    0 <= j < y && 0 <= i < w ==> (#[trigger] cell(self.grid(), i, j)).fs is Open,
            decreases h - y,
        {
            let mut x: usize = 0;
            while x < w
                invariant
                    self.wf(),
                    w as int == grid_width(self.grid()),
                    h as int == grid_height(self.grid()),
                    y < h,
                    x <= w,
                    same_layout(old(self).grid(), self.grid()),
                    states_monotone(old(self).grid(), self.grid()),
                    self.status() == old(self).status(),
                    forall|i: int, j: int|
                        0 <= j < y && 0 <= i < w ==> (#[trigger] cell(
                            self.grid(),
                            i,
                            j,
                        )).fs is Open,
                    forall|i: int| 0 <= i < x ==> (#[trigger] cell(
                        self.grid(),
                        i,
                        y as int,
                    )).fs is Open,
                decreases w - x,
            {
                let ghost gp = self.grid();
                self.set_state(x, y, FieldState::Open);
                proof {
                    lemma_with_state_facts(gp, x as int, y as int, FieldState::Open);
                }
                x = x + 1;
            }
            y = y + 1;
        }
    }

    /// Whether the board stands completed as `win_cells` states it.
    fn win_state(&self) -> (r: bool)
        requires
            self.wf(),
        ensures
            r == win_cells(self.grid()),
    {
        let w = self.width();
        let h = self.height();
        let af = self.all_mines_flagged();
        let flags = self.count_cells(CountKind::Flagged);
        let mines_n = self.count_cells(CountKind::Mines);
        let opened = self.count_cells(CountKind::Opened);
        proof {
            let g = self.grid();
            lemma_count_grid_states_partition(g);
            lemma_count_grid_bounds(g, CountKind::Closed);
            lemma_count_grid_bounds(g, CountKind::Opened);
            lemma_count_grid_bounds(g, CountKind::Flagged);
            lemma_total_cells_uniform(g, grid_width(g), g.len() as int);
            assert(g.take(g.len() as int) =~= g);
            assert(grid_height(g) * grid_width(g) == grid_width(g) * grid_height(g)) by (
            nonlinear_arith);
        }
        let total = w * h;
        let sum = opened + flags;
        af && flags == mines_n && sum == total
    }

    /// Whether every mine on the board carries a flag.
    fn all_mines_flagged(&self) -> (r: bool)
        requires
            self.wf(),
        ensures
            r == (forall|x: int, y: int|
                pos_in_bounds(self.grid(), x, y) && (#[trigger] cell(
                    self.grid(),
                    x,
                    y,
                )).ft is Mine ==> cell(self.grid(), x, y).fs is Flag),
    {
        proof {
            lemma_rows_view(self.fields@);
        }
        let w = self.fields[0].len();
        let h = self.fields.len();
        let mut y: usize = 0;
        while y < h
            invariant
                self.wf(),
                w as int == grid_width(self.grid()),
                h as int == grid_height(self.grid()),
                y <= h,
                forall|i: int, j: int|
                    0 <= j < y && 0 <= i < w && (#[trigger] cell(
                        self.grid(),
                        i,
                        j,
                    )).ft is Mine ==> cell(self.grid(), i, j).fs is Flag,
            decreases h - y,
        {
            let mut x: usize = 0;
            while x < w
                invariant
                    self.wf(),
                    w as int == grid_width(self.grid()),
                    h as int == grid_height(self.grid()),
                    y < h,
                    x <= w,
                    forall|i: int, j: int|
                        0 <= j < y && 0 <= i < w && (#[trigger] cell(
                            self.grid(),
                            i,
                            j,
                        )).ft is Mine ==> cell(self.grid(), i, j).fs is Flag,
                    forall|i: int|
                        0 <= i < x && (#[trigger] cell(self.grid(), i, y as int)).ft is Mine
                            ==> cell(self.grid(), i, y as int).fs is Flag,
                decreases w - x,
            {
                proof {
                    lemma_rows_view(self.fields@);
                }
                let c = self.fields[y][x];
                if matches!(c.ft, FieldType::Mine) && !matches!(c.fs, FieldState::Flag) {
                    proof {
                        assert(cell(self.grid(), x as int, y as int).ft is Mine);
                        assert(!(cell(self.grid(), x as int, y as int).fs is Flag));
                    }
                    return false;
                }
                x = x + 1;
            }
            y = y + 1;
        }
        true
    }

    /// Recomputes the win condition and, unless the game is already lost,
    /// marks a completed board as won.  Idempotent; a lost game stays lost.
    pub fn win_check(&mut self)
        requires
            old(self).wf(),
        ensures
            final(self).wf(),
            final(self).grid() == old(self).grid(),
            final(self).status() == (if win_cells(old(self).grid()) && old(self).status()
                != Some(true) {
                Some(false)
            } else {
                old(self).status()
            }),
            (forall|i: int, j: int|
                pos_in_bounds(old(self).grid(), i, j) && (#[trigger] cell(
                    old(self).grid(),
                    i,
                    j,
                )).ft is Mine ==> cell(old(self).grid(), i, j).fs is Flag) && (forall|
                i: int,
                j: int,
            |
                pos_in_bounds(old(self).grid(), i, j) && !((#[trigger] cell(
                    old(self).grid(),
                    i,
                    j,
                )).ft is Mine) ==> cell(old(self).grid(), i, j).fs is Open) && old(self).status()
                != Some(true) ==> final(self).status() == Some(false),
            (exists|i: int, j: int|
                pos_in_bounds(old(self).grid(), i, j) && is_flagged_at(old(self).grid(), i, j)
                    && !(#[trigger] is_mine_at(old(self).grid(), i, j)))
                ==> final(self).status() == old(self).status(),
    {
        let won = self.win_state();
        if won && !matches!(self.finished, Some(true)) {
            self.finished = Some(false);
        }
        proof {
            let g = old(self).grid();
            if (forall|i: int, j: int|
                pos_in_bounds(g, i, j) && (#[trigger] cell(g, i, j)).ft is Mine ==> cell(
                    g,
                    i,
                    j,
                ).fs is Flag) && (forall|i: int, j: int|
                pos_in_bounds(g, i, j) && !((#[trigger] cell(g, i, j)).ft is Mine) ==> cell(
                    g,
                    i,
                    j,
                ).fs is Open) {
                crate::props::lemma_completion_wins(g);
            }
            if exists|i: int, j: int|
                pos_in_bounds(g, i, j) && is_flagged_at(g, i, j) && !(#[trigger] is_mine_at(
                    g,
                    i,
                    j,
                )) {
                let (i, j) = choose|i: int, j: int|
                    pos_in_bounds(g, i, j) && is_flagged_at(g, i, j) && !(#[trigger] is_mine_at(
                        g,
                        i,
                        j,
                    ));
                crate::props::lemma_wrong_flag_blocks_win(g, i, j);
            }
        }
    }

    /// Toggles the flag of one cell: a flagged cell goes back to closed, a
    /// closed or open cell becomes flagged.  The raw primitive knowingly
    /// permits flagging an open cell, though that has no effect on play;
    /// guarding against it is left to the host.
    pub fn toggle_flag(&mut self, pos: Pos)
        requires
            old(self).wf(),
            pos_in_bounds(old(self).grid(), pos.0 as int, pos.1 as int),
        ensures
            final(self).wf(),
            final(self).grid() == toggled(old(self).grid(), pos.0 as int, pos.1 as int),
            final(self).status() == old(self).status(),
            same_layout(old(self).grid(), final(self).grid()),
            count_grid(final(self).grid(), CountKind::Flagged) == count_grid(
                old(self).grid(),
                CountKind::Flagged,
            ) + (if is_flagged_at(old(self).grid(), pos.0 as int, pos.1 as int) {
                -1int
            } else {
                1int
            }),
    {
        let f = self.is_flagged(pos);
        let s = if f {
            FieldState::Closed
        } else {
            FieldState::Flag
        };
        self.set_state(pos.0, pos.1, s);
        proof {
            let g0 = old(self).grid();
            let xi = pos.0 as int;
            let yi = pos.1 as int;
            lemma_with_state_facts(g0, xi, yi, s);
            lemma_count_cell_update(
                g0,
                xi,
                yi,
                FieldStatus { fs: s, ft: cell(g0, xi, yi).ft },
                CountKind::Flagged,
            );
        }
    }

    /// The whole board, row by row: each coordinate with its cell, for the
    /// host to render.
    pub fn board_state(&self) -> (r: Vec<FieldInfo>)
        requires
            self.wf(),
        ensures
            r@.len() == grid_area(self.grid()),
            forall|i: int, j: int|
                pos_in_bounds(self.grid(), i, j) ==> #[trigger] r@[j * grid_width(self.grid())
                    + i] == (((i as usize, j as usize), cell(self.grid(), i, j))),
    {
        proof {
            lemma_rows_view(self.fields@);
        }
        let ghost g = self.grid();
        let w = self.fields[0].len();
        let h = self.fields.len();
        let mut r: Vec<FieldInfo> = Vec::new();
        let mut y: usize = 0;
        while y < h
            invariant
                self.wf(),
                g == self.grid(),
                w as int == grid_width(g),
                h as int == grid_height(g),
                y <= h,
                r@.len() == y as int * w as int,
                y as int * w as int <= w as int * h as int,
                w as int * h as int <= usize::MAX,
                forall|i: int, j: int|
                    0 <= j < y && 0 <= i < w ==> #[trigger] r@[j * w as int + i] == ((
                        (i as usize, j as usize),
                        cell(g, i, j),
                    )),
            decreases h - y,
        {
            proof {
                assert((y as int + 1) * w as int <= w as int * h as int) by (nonlinear_arith)
                    requires
                        y as int + 1 <= h as int,
                        w as int >= 0,
                ;
                assert((y as int + 1) * w as int == y as int * w as int + w as int) by (
                nonlinear_arith);
            }
            let mut x: usize = 0;
            while x < w
                invariant
                    self.wf(),
                    g == self.grid(),
                    w as int == grid_width(g),
                    h as int == grid_height(g),
                    y < h,
                    x <= w,
                    r@.len() == y as int * w as int + x as int,
                    (y as int + 1) * w as int == y as int * w as int + w as int,
                    (y as int + 1) * w as int <= w as int * h as int,
                    w as int * h as int <= usize::MAX,
                    forall|i: int, j: int|
                        0 <= j < y && 0 <= i < w ==> #[trigger] r@[j * w as int + i] == ((
                            (i as usize, j as usize),
                            cell(g, i, j),
                        )),
                    forall|i: int|
                        0 <= i < x ==> #[trigger] r@[y as int * w as int + i] == ((
                            (i as usize, y as usize),
                            cell(g, i, y as int),
                        )),
                decreases w - x,
            {
                proof {
                    lemma_rows_view(self.fields@);
                }
                let c = self.fields[y][x];
                r.push(((x, y), c));
                proof {
                    assert forall|i2: int, j2: int|
                        0 <= j2 < y && 0 <= i2 < w implies #[trigger] r@[j2 * w as int + i2]
                        == (((i2 as usize, j2 as usize), cell(g, i2, j2))) by {
                        assert(j2 * w as int + i2 < y as int * w as int) by (nonlinear_arith)
                            requires
                                0 <= j2,
                                j2 + 1 <= y as int,
                                0 <= i2 < w as int,
                        ;
                    }
                }
                x = x + 1;
            }
            y = y + 1;
        }
        proof {
            assert(h as int * w as int == w as int * h as int) by (nonlinear_arith);
            assert(grid_area(g) == w as int * h as int) by (nonlinear_arith)
                requires
                    grid_area(g) == grid_width(g) * grid_height(g),
                    w as int == grid_width(g),
                    h as int == grid_height(g),
            ;
        }
        r
    }

    /// The whole board as render codes, row by row, each cell encoded as
    /// `code_of` states it.
    pub fn board_codes(&self) -> (r: Vec<Vec<u8>>)
        requires
            self.wf(),
        ensures
            r@.len() == grid_height(self.grid()),
            forall|j: int| 0 <= j < r@.len() ==> (#[trigger] r@[j])@.len() == grid_width(
                self.grid(),
            ),
            forall|i: int, j: int|
                #![trigger r@[j]@[i]]
                pos_in_bounds(self.grid(), i, j) ==> r@[j]@[i] as int == code_of(
                    cell(self.grid(), i, j),
                ),
    {
        proof {
            lemma_rows_view(self.fields@);
        }
        let ghost g = self.grid();
        let w = self.fields[0].len();
        let h = self.fields.len();
        let mut r: Vec<Vec<u8>> = Vec::new();
        let mut y: usize = 0;
        while y < h
            invariant
                self.wf(),
                g == self.grid(),
                w as int == grid_width(g),
                h as int == grid_height(g),
                y <= h,
                r@.len() == y,
                forall|j: int| 0 <= j < r@.len() ==> (#[trigger] r@[j])@.len() == w,
                forall|i: int, j: int|
                    #![trigger r@[j]@[i]]
                    0 <= j < y && 0 <= i < w ==> r@[j]@[i] as int == code_of(cell(g, i, j)),
            decreases h - y,
        {
            let mut row: Vec<u8> = Vec::new();
            let mut x: usize = 0;
            while x < w
                invariant
                    self.wf(),
                    g == self.grid(),
                    w as int == grid_width(g),
                    h as int == grid_height(g),
                    y < h,
                    x <= w,
                    row@.len() == x,
                    forall|i: int|
                        0 <= i < x ==> #[trigger] row@[i] as int == code_of(cell(g, i, y as int)),
                decreases w - x,
            {
                proof {
                    lemma_rows_view(self.fields@);
                }
                let c = self.fields[y][x];
                proof {
                    assert(cell(g, x as int, y as int) == c);
                    assert(c.ft matches FieldType::Empty(n) ==> n as int == adjacent_mines(
                        g,
                        x as int,
                        y as int,
                    ));
                    assert(0 <= adjacent_mines(g, x as int, y as int) <= 8);
                }
                row.push(field_code(c));
                x = x + 1;
            }
            r.push(row);
            y = y + 1;
        }
        r
    }
}


/// Grids of one layout have the same dimensions and the same mine count.
pub(crate) proof fn lemma_same_layout_counts(g1: Grid, g2: Grid)
    requires
        grid_wf(g1),
        same_layout(g1, g2),
    ensures
        count_grid(g1, CountKind::Mines) == count_grid(g2, CountKind::Mines),
        grid_width(g2) == grid_width(g1),
        grid_height(g2) == grid_height(g1),
{
    assert(g2[0].len() == g1[0].len());
    assert forall|j: int, i: int|
        0 <= j < g1.len() && 0 <= i < g1[j].len() implies cell_matches(
        #[trigger] g1[j][i],
        CountKind::Mines,
    ) == cell_matches(g2[j][i], CountKind::Mines) by {
        assert(pos_in_bounds(g1, i, j));
        assert(cell(g1, i, j).ft == cell(g2, i, j).ft);
    }
    lemma_count_grid_congruent(g1, g2, CountKind::Mines);
}

/// A board whose area is indexable has indexable width and height.
pub(crate) proof fn lemma_dims_bounded(g: Grid)
    requires
        grid_wf(g),
        grid_area(g) <= usize::MAX,
    ensures
        grid_width(g) <= usize::MAX,
        grid_height(g) <= usize::MAX,
{
    assert(grid_width(g) <= grid_width(g) * grid_height(g)) by (nonlinear_arith)
        requires
            grid_height(g) >= 1,
            grid_width(g) >= 0,
    ;
    assert(grid_height(g) <= grid_width(g) * grid_height(g)) by (nonlinear_arith)
        requires
            grid_width(g) >= 1,
            grid_height(g) >= 0,
    ;
}

/// One disclosure step keeps the layout and only ever opens cells further.
pub(crate) proof fn lemma_step_open(g0: Grid, g1: Grid, x: int, y: int, s: FieldState)
    requires
        grid_wf(g1),
        pos_in_bounds(g1, x, y),
        same_layout(g0, g1),
        states_monotone(g0, g1),
        s is Open,
    ensures
        same_layout(g0, with_state(g1, x, y, s)),
        states_monotone(g0, with_state(g1, x, y, s)),
{
    lemma_with_state_facts(g1, x, y, s);
    let g2 = with_state(g1, x, y, s);
    assert forall|a: int, b: int|
        pos_in_bounds(g0, a, b) implies (#[trigger] cell(g0, a, b)).ft == cell(g2, a, b).ft by {
        assert(cell(g1, a, b).ft == cell(g2, a, b).ft);
    }
    assert forall|a: int, b: int|
        pos_in_bounds(g0, a, b) implies ((#[trigger] cell(g2, a, b)).fs == cell(g0, a, b).fs
        || cell(g2, a, b).fs is Open) by {
        if !(a == x && b == y) {
            assert(cell(g2, a, b) == cell(g1, a, b));
        }
    }
}

impl Game {
    /// Opens every position on the work list, and from each cell found to
    /// have no adjacent mines goes on to its neighbors, until the list is
    /// exhausted or a mine is opened, which stops the work at once.  Cells
    /// already open are passed over, so each cell is visited at most once.
    #[verifier::rlimit(100)]
    fn reveal_from(&mut self, stack: Vec<Pos>) -> (hit: bool)
        requires
            old(self).wf(),
            forall|k: int|
                0 <= k < stack@.len() ==> pos_in_bounds(
                    old(self).grid(),
                    (#[trigger] stack@[k]).0 as int,
                    stack@[k].1 as int,
                ),
        ensures
            final(self).wf(),
            same_layout(old(self).grid(), final(self).grid()),
            states_monotone(old(self).grid(), final(self).grid()),
            final(self).status() == old(self).status(),
            stack@.len() == 0 ==> *final(self) == *old(self) && !hit,
            !hit ==> forall|k: int|
                0 <= k < stack@.len() ==> is_open_at(
                    final(self).grid(),
                    (#[trigger] stack@[k]).0 as int,
                    stack@[k].1 as int,
                ),
            (forall|k: int|
                0 <= k < stack@.len() ==> !is_mine_at(
                    old(self).grid(),
                    (#[trigger] stack@[k]).0 as int,
                    stack@[k].1 as int,
                )) ==> !hit,
            hit ==> exists|i: int, j: int|
                pos_in_bounds(old(self).grid(), i, j) && is_mine_at(old(self).grid(), i, j)
                    && is_open_at(final(self).grid(), i, j) && !is_open_at(old(self).grid(), i, j)
                    && stack@.contains((i as usize, j as usize)),
            !hit ==> forall|i: int, j: int|
                pos_in_bounds(old(self).grid(), i, j) && (#[trigger] cell(
                    final(self).grid(),
                    i,
                    j,
                )).fs is Open && is_mine_at(old(self).grid(), i, j) ==> is_open_at(
                    old(self).grid(),
                    i,
                    j,
                ),
    {
        let ghost area = grid_area(old(self).grid());
        proof {
            let g = self.grid();
            lemma_count_grid_bounds(g, CountKind::Opened);
            lemma_total_cells_uniform(g, grid_width(g), g.len() as int);
            assert(g.take(g.len() as int) =~= g);
            assert(grid_height(g) * grid_width(g) == grid_width(g) * grid_height(g)) by (
            nonlinear_arith);
        }
        let mut work = stack;
        while work.len() > 0
            invariant
                self.wf(),
                same_layout(old(self).grid(), self.grid()),
                states_monotone(old(self).grid(), self.grid()),
                self.status() == old(self).status(),
                area == grid_area(old(self).grid()),
                area == grid_area(self.grid()),
                forall|k: int|
                    0 <= k < stack@.len() ==> pos_in_bounds(
                        old(self).grid(),
                        (#[trigger] stack@[k]).0 as int,
                        stack@[k].1 as int,
                    ),
                count_grid(self.grid(), CountKind::Opened) <= area,
                stack@.len() == 0 ==> work@.len() == 0 && *self == *old(self),
                forall|k: int|
                    0 <= k < work@.len() ==> pos_in_bounds(
                        self.grid(),
                        (#[trigger] work@[k]).0 as int,
                        work@[k].1 as int,
                    ),
                forall|k: int|
                    0 <= k < stack@.len() ==> work@.contains(#[trigger] stack@[k]) || is_open_at(
                        self.grid(),
                        stack@[k].0 as int,
                        stack@[k].1 as int,
                    ),
                forall|k: int|
                    0 <= k < work@.len() ==> stack@.contains(#[trigger] work@[k]) || !is_mine_at(
                        self.grid(),
                        work@[k].0 as int,
                        work@[k].1 as int,
                    ),
                forall|i: int, j: int|
                    pos_in_bounds(old(self).grid(), i, j) && (#[trigger] cell(
                        self.grid(),
                        i,
                        j,
                    )).fs is Open && is_mine_at(old(self).grid(), i, j) ==> is_open_at(
                        old(self).grid(),
                        i,
                        j,
                    ),
            decreases area - count_grid(self.grid(), CountKind::Opened), work@.len(),
        {
            proof {
                let g = self.grid();
                lemma_count_grid_bounds(g, CountKind::Opened);
                lemma_total_cells_uniform(g, grid_width(g), g.len() as int);
                assert(g.take(g.len() as int) =~= g);
                assert(grid_height(g) * grid_width(g) == grid_width(g) * grid_height(g)) by (
                nonlinear_arith);
            }
            let ghost work0 = work@;
            let popped = work.pop();
            let p = popped.unwrap();
            proof {
                assert(p == work0[work0.len() - 1]);
                assert(work0.contains(p));
            }
            if !self.is_open(p) {
                let ghost gp = self.grid();
                self.set_state(p.0, p.1, FieldState::Open);
                proof {
                    lemma_with_state_facts(gp, p.0 as int, p.1 as int, FieldState::Open);
                    lemma_step_open(
                        old(self).grid(),
                        gp,
                        p.0 as int,
                        p.1 as int,
                        FieldState::Open,
                    );
                    lemma_count_cell_update(
                        gp,
                        p.0 as int,
                        p.1 as int,
                        FieldStatus { fs: FieldState::Open, ft: cell(gp, p.0 as int, p.1 as int).ft },
                        CountKind::Opened,
                    );
                    let g = self.grid();
                    lemma_count_grid_bounds(g, CountKind::Opened);
                    lemma_total_cells_uniform(g, grid_width(g), g.len() as int);
                    assert(g.take(g.len() as int) =~= g);
                    assert(grid_height(g) * grid_width(g) == grid_width(g) * grid_height(g)) by (
                    nonlinear_arith);
                    assert(count_grid(g, CountKind::Opened) == count_grid(gp, CountKind::Opened)
                        + 1);
                }
                if self.is_mine(p) {
                    proof {
                        assert(is_mine_at(old(self).grid(), p.0 as int, p.1 as int));
                        assert(!is_open_at(old(self).grid(), p.0 as int, p.1 as int));
                        assert(is_open_at(self.grid(), p.0 as int, p.1 as int));
                        assert(is_mine_at(gp, p.0 as int, p.1 as int));
                        assert(stack@.contains(p));
                        if forall|k: int|
                            0 <= k < stack@.len() ==> !is_mine_at(
                                old(self).grid(),
                                (#[trigger] stack@[k]).0 as int,
                                stack@[k].1 as int,
                            ) {
                            assert(stack@.contains(p));
                            let k = choose|k: int| 0 <= k < stack@.len() && stack@[k] == p;
                            assert(!is_mine_at(old(self).grid(), stack@[k].0 as int, stack@[k].1 as int));
                        }
                    }
                    return true;
                }
                if self.neighboring_mines(p) == 0 {
                    let mut ns = self.iter_neighbors(p);
                    let ghost nsv = ns@;
                    proof {
                        assert forall|k: int| 0 <= k < nsv.len() implies !is_mine_at(
                            self.grid(),
                            (#[trigger] nsv[k]).0 as int,
                            nsv[k].1 as int,
                        ) by {
                            let g = self.grid();
                            let i = nsv[k].0 as int;
                            let j = nsv[k].1 as int;
                            let x = p.0 as int;
                            let y = p.1 as int;
                            assert(adjacent_mines(g, x, y) == 0);
                            if is_mine_at(g, i, j) {
                                assert(mine_ind(g, i, j) == 1);
                                assert(is_neighbor(x, y, i, j));
                                assert(i == x - 1 || i == x || i == x + 1);
                                assert(j == y - 1 || j == y || j == y + 1);
                            }
                        }
                    }
                    let ghost workp = work@;
                    work.append(&mut ns);
                    proof {
                        assert forall|k: int| 0 <= k < work@.len() implies (stack@.contains(
                            #[trigger] work@[k],
                        ) || !is_mine_at(self.grid(), work@[k].0 as int, work@[k].1 as int)) by {
                            if k < workp.len() {
                                assert(work@[k] == workp[k]);
                            } else {
                                assert(work@[k] == nsv[k - workp.len()]);
                            }
                        }
                        assert forall|k: int| 0 <= k < stack@.len() implies (work@.contains(
                            #[trigger] stack@[k],
                        ) || is_open_at(self.grid(), stack@[k].0 as int, stack@[k].1 as int)) by {
                            if !is_open_at(self.grid(), stack@[k].0 as int, stack@[k].1 as int) {
                                assert(is_open_at(self.grid(), p.0 as int, p.1 as int));
                                assert(!(stack@[k].0 == p.0 && stack@[k].1 == p.1));
                                assert(gp[0].len() == old(self).grid()[0].len());
                                assert(gp.len() == old(self).grid().len());
                                assert(pos_in_bounds(gp, stack@[k].0 as int, stack@[k].1 as int));
                                assert(cell(self.grid(), stack@[k].0 as int, stack@[k].1 as int)
                                    == cell(gp, stack@[k].0 as int, stack@[k].1 as int));
                                assert(!is_open_at(gp, stack@[k].0 as int, stack@[k].1 as int));
                                if workp.contains(stack@[k]) {
                                    let t = choose|t: int|
                                        0 <= t < workp.len() && workp[t] == stack@[k];
                                    assert(work@[t] == stack@[k]);
                                } else {
                                    assert(work0.contains(stack@[k]));
                                    let t = choose|t: int|
                                        0 <= t < work0.len() && work0[t] == stack@[k];
                                    assert(t < work0.len() - 1 || stack@[k] == p);
                                    assert(workp[t] == stack@[k] || stack@[k] == p);
                                }
                            }
                        }
                    }
                } else {
                    proof {
                        assert forall|k: int| 0 <= k < stack@.len() implies (work@.contains(
                            #[trigger] stack@[k],
                        ) || is_open_at(self.grid(), stack@[k].0 as int, stack@[k].1 as int)) by {
                            if !is_open_at(self.grid(), stack@[k].0 as int, stack@[k].1 as int) {
                                assert(is_open_at(self.grid(), p.0 as int, p.1 as int));
                                assert(!(stack@[k].0 == p.0 && stack@[k].1 == p.1));
                                assert(gp[0].len() == old(self).grid()[0].len());
                                assert(gp.len() == old(self).grid().len());
                                assert(pos_in_bounds(gp, stack@[k].0 as int, stack@[k].1 as int));
                                assert(cell(self.grid(), stack@[k].0 as int, stack@[k].1 as int)
                                    == cell(gp, stack@[k].0 as int, stack@[k].1 as int));
                                assert(!is_open_at(gp, stack@[k].0 as int, stack@[k].1 as int));
                                assert(work0.contains(stack@[k]));
                                let t = choose|t: int|
                                    0 <= t < work0.len() && work0[t] == stack@[k];
                                assert(t < work0.len() - 1 || stack@[k] == p);
                                assert(work@[t] == stack@[k] || stack@[k] == p);
                            }
                        }
                    }
                }
            } else {
                proof {
                    assert forall|k: int| 0 <= k < stack@.len() implies (work@.contains(
                        #[trigger] stack@[k],
                    ) || is_open_at(self.grid(), stack@[k].0 as int, stack@[k].1 as int)) by {
                        if !is_open_at(self.grid(), stack@[k].0 as int, stack@[k].1 as int) {
                            assert(work0.contains(stack@[k]));
                            let t = choose|t: int| 0 <= t < work0.len() && work0[t] == stack@[k];
                            assert(t < work0.len() - 1 || stack@[k] == p);
                            assert(work@[t] == stack@[k] || stack@[k] == p);
                        }
                    }
                }
            }
        }
        false
    }
}


impl Game {
    /// Opens a cell.  On a closed or flagged cell the cell is opened; a mine
    /// reports a hit, a cell with no adjacent mines flood-fills its whole
    /// zero-adjacency region and the cells bordering it.  On an already-open
    /// cell this is a chord: when exactly as many neighboring flags stand as
    /// the cell counts mines, every unflagged closed neighbor is opened in
    /// turn, flood-filling as above; a mine among them reports a hit at once
    /// and what was already opened stays open.
    #[verifier::rlimit(100)]
    pub fn open(&mut self, pos: Pos) -> (hit: bool)
        requires
            old(self).wf(),
            pos_in_bounds(old(self).grid(), pos.0 as int, pos.1 as int),
        ensures
            final(self).wf(),
            same_layout(old(self).grid(), final(self).grid()),
            states_monotone(old(self).grid(), final(self).grid()),
            final(self).status() == old(self).status(),
            !is_open_at(old(self).grid(), pos.0 as int, pos.1 as int) ==> is_open_at(
                final(self).grid(),
                pos.0 as int,
                pos.1 as int,
            ),
            !is_open_at(old(self).grid(), pos.0 as int, pos.1 as int) ==> (hit <==> is_mine_at(
                old(self).grid(),
                pos.0 as int,
                pos.1 as int,
            )),
            !is_open_at(old(self).grid(), pos.0 as int, pos.1 as int) && (is_mine_at(
                old(self).grid(),
                pos.0 as int,
                pos.1 as int,
            ) || adjacent_mines(old(self).grid(), pos.0 as int, pos.1 as int) != 0)
                ==> final(self).grid() == with_state(
                old(self).grid(),
                pos.0 as int,
                pos.1 as int,
                FieldState::Open,
            ),
            !is_open_at(old(self).grid(), pos.0 as int, pos.1 as int) && !is_mine_at(
                old(self).grid(),
                pos.0 as int,
                pos.1 as int,
            ) && adjacent_mines(old(self).grid(), pos.0 as int, pos.1 as int) == 0 ==> (forall|
                i: int,
                j: int,
            |
                pos_in_bounds(old(self).grid(), i, j) && is_neighbor(
                    pos.0 as int,
                    pos.1 as int,
                    i,
                    j,
                ) ==> (#[trigger] cell(final(self).grid(), i, j)).fs is Open),
            is_open_at(old(self).grid(), pos.0 as int, pos.1 as int) && adjacent_flags(
                old(self).grid(),
                pos.0 as int,
                pos.1 as int,
            ) != adjacent_mines(old(self).grid(), pos.0 as int, pos.1 as int) ==> *final(self)
                == *old(self) && !hit,
            is_open_at(old(self).grid(), pos.0 as int, pos.1 as int) && (forall|i: int, j: int|
                pos_in_bounds(old(self).grid(), i, j) && is_neighbor(
                    pos.0 as int,
                    pos.1 as int,
                    i,
                    j,
                ) ==> (#[trigger] cell(old(self).grid(), i, j)).fs is Open) ==> *final(self)
                == *old(self) && !hit,
            is_open_at(old(self).grid(), pos.0 as int, pos.1 as int) && adjacent_flags(
                old(self).grid(),
                pos.0 as int,
                pos.1 as int,
            ) == adjacent_mines(old(self).grid(), pos.0 as int, pos.1 as int) && !hit ==> (forall|
                i: int,
                j: int,
            |
                pos_in_bounds(old(self).grid(), i, j) && is_neighbor(
                    pos.0 as int,
                    pos.1 as int,
                    i,
                    j,
                ) && !is_flagged_at(old(self).grid(), i, j) ==> (#[trigger] cell(
                    final(self).grid(),
                    i,
                    j,
                )).fs is Open),
            hit ==> exists|i: int, j: int|
                pos_in_bounds(old(self).grid(), i, j) && is_mine_at(old(self).grid(), i, j)
                    && is_open_at(final(self).grid(), i, j) && !is_open_at(
                    old(self).grid(),
                    i,
                    j,
                ),
            is_open_at(old(self).grid(), pos.0 as int, pos.1 as int) && adjacent_flags(
                old(self).grid(),
                pos.0 as int,
                pos.1 as int,
            ) == adjacent_mines(old(self).grid(), pos.0 as int, pos.1 as int) ==> (hit
                <==> chord_hits(old(self).grid(), pos.0 as int, pos.1 as int)),
            !hit ==> forall|i: int, j: int|
                pos_in_bounds(old(self).grid(), i, j) && (#[trigger] cell(
                    final(self).grid(),
                    i,
                    j,
                )).fs is Open && is_mine_at(old(self).grid(), i, j) ==> is_open_at(
                    old(self).grid(),
                    i,
                    j,
                ),
    {
        if self.is_open(pos) {
            let mc = self.neighboring_mines(pos);
            let fc = self.neighboring_flags(pos);
            if mc != fc {
                return false;
            }
            let ns = self.iter_neighbors(pos);
            let mut seed: Vec<Pos> = Vec::new();
            let mut k: usize = 0;
            while k < ns.len()
                invariant
                    *self == *old(self),
                    self.wf(),
                    pos_in_bounds(self.grid(), pos.0 as int, pos.1 as int),
                    k <= ns@.len(),
                    forall|t: int|
                        0 <= t < ns@.len() ==> pos_in_bounds(
                            self.grid(),
                            (#[trigger] ns@[t]).0 as int,
                            ns@[t].1 as int,
                        ) && is_neighbor(
                            pos.0 as int,
                            pos.1 as int,
                            ns@[t].0 as int,
                            ns@[t].1 as int,
                        ),
                    forall|t: int|
                        0 <= t < seed@.len() ==> pos_in_bounds(
                            self.grid(),
                            (#[trigger] seed@[t]).0 as int,
                            seed@[t].1 as int,
                        ) && is_neighbor(
                            pos.0 as int,
                            pos.1 as int,
                            seed@[t].0 as int,
                            seed@[t].1 as int,
                        ) && !is_flagged_at(self.grid(), seed@[t].0 as int, seed@[t].1 as int)
                            && !is_open_at(self.grid(), seed@[t].0 as int, seed@[t].1 as int),
                    forall|t: int|
                        0 <= t < k && !is_flagged_at(
                            self.grid(),
                            (#[trigger] ns@[t]).0 as int,
                            ns@[t].1 as int,
                        ) && !is_open_at(self.grid(), ns@[t].0 as int, ns@[t].1 as int)
                            ==> seed@.contains(ns@[t]),
                decreases ns@.len() - k,
            {
                let q = ns[k];
                if !self.is_flagged(q) && !self.is_open(q) {
                    let ghost s0 = seed@;
                    seed.push(q);
                    proof {
                        assert(seed@[s0.len() as int] == q);
                        assert forall|t: int|
                            0 <= t < k + 1 && !is_flagged_at(
                                self.grid(),
                                (#[trigger] ns@[t]).0 as int,
                                ns@[t].1 as int,
                            ) && !is_open_at(self.grid(), ns@[t].0 as int, ns@[t].1 as int) implies seed@.contains(
                            ns@[t],
                        ) by {
                            if t < k {
                                assert(s0.contains(ns@[t]));
                                let w = choose|w: int| 0 <= w < s0.len() && s0[w] == ns@[t];
                                assert(seed@[w] == ns@[t]);
                            } else {
                                assert(seed@[s0.len() as int] == ns@[t]);
                            }
                        }
                    }
                }
                k = k + 1;
            }
            proof {
                assert((forall|i: int, j: int|
                    pos_in_bounds(old(self).grid(), i, j) && is_neighbor(
                        pos.0 as int,
                        pos.1 as int,
                        i,
                        j,
                    ) ==> (#[trigger] cell(old(self).grid(), i, j)).fs is Open) ==> seed@.len()
                    == 0) by {
                    if (forall|i: int, j: int|
                        pos_in_bounds(old(self).grid(), i, j) && is_neighbor(
                            pos.0 as int,
                            pos.1 as int,
                            i,
                            j,
                        ) ==> (#[trigger] cell(old(self).grid(), i, j)).fs is Open) {
                        if seed@.len() > 0 {
                            let q = seed@[0];
                            assert(cell(old(self).grid(), q.0 as int, q.1 as int).fs is Open);
                        }
                    }
                }
            }
            let hit = self.reveal_from(seed);
            proof {
                let go = old(self).grid();
                let xi = pos.0 as int;
                let yi = pos.1 as int;
                lemma_dims_bounded(go);
                if hit {
                    let (i, j) = choose|i: int, j: int|
                        pos_in_bounds(go, i, j) && is_mine_at(go, i, j) && is_open_at(
                            final(self).grid(),
                            i,
                            j,
                        ) && !is_open_at(go, i, j) && seed@.contains((i as usize, j as usize));
                    let q = (i as usize, j as usize);
                    let u = choose|u: int| 0 <= u < seed@.len() && seed@[u] == q;
                    assert(0 <= i <= usize::MAX && 0 <= j <= usize::MAX);
                    assert(seed@[u].0 as int == i && seed@[u].1 as int == j);
                    assert(is_neighbor(xi, yi, i, j));
                    assert(!is_flagged_at(go, i, j));
                    assert(chord_hits(go, xi, yi));
                } else {
                    if chord_hits(go, xi, yi) {
                        let (i, j) = choose|i: int, j: int|
                            pos_in_bounds(go, i, j) && is_neighbor(xi, yi, i, j)
                                && !is_flagged_at(go, i, j) && !is_open_at(go, i, j) && (
                            #[trigger] is_mine_at(go, i, j));
                        let q = (i as usize, j as usize);
                        assert(0 <= i <= usize::MAX && 0 <= j <= usize::MAX);
                        assert(q.0 as int == i && q.1 as int == j);
                        assert(ns@.contains(q));
                        let t = choose|t: int| 0 <= t < ns@.len() && ns@[t] == q;
                        assert(ns@[t].0 as int == i && ns@[t].1 as int == j);
                        assert(seed@.contains(q));
                        let u = choose|u: int| 0 <= u < seed@.len() && seed@[u] == q;
                        assert(seed@[u].0 as int == i && seed@[u].1 as int == j);
                        assert(is_open_at(final(self).grid(), i, j));
                        assert((#[trigger] cell(final(self).grid(), i, j)).fs is Open);
                        assert(is_open_at(go, i, j));
                        assert(false);
                    }
                }
                if !hit {
                    assert forall|i: int, j: int|
                        pos_in_bounds(old(self).grid(), i, j) && is_neighbor(
                            pos.0 as int,
                            pos.1 as int,
                            i,
                            j,
                        ) && !is_flagged_at(old(self).grid(), i, j) implies (#[trigger] cell(
                        final(self).grid(),
                        i,
                        j,
                    )).fs is Open by {
                        let q = (i as usize, j as usize);
                        lemma_dims_bounded(old(self).grid());
                        assert(0 <= i <= usize::MAX && 0 <= j <= usize::MAX);
                        assert(q.0 as int == i && q.1 as int == j);
                        assert(ns@.contains(q));
                        let t = choose|t: int| 0 <= t < ns@.len() && ns@[t] == q;
                        assert(ns@[t].0 as int == i && ns@[t].1 as int == j);
                        if is_open_at(old(self).grid(), i, j) {
                            assert(cell(self.grid(), i, j).fs is Open);
                        } else {
                            assert(seed@.contains(q));
                            let u = choose|u: int| 0 <= u < seed@.len() && seed@[u] == q;
                            assert(is_open_at(self.grid(), seed@[u].0 as int, seed@[u].1 as int));
                        }
                    }
                }
            }
            hit
        } else {
            let ghost g0 = self.grid();
            self.set_state(pos.0, pos.1, FieldState::Open);
            proof {
                lemma_with_state_facts(g0, pos.0 as int, pos.1 as int, FieldState::Open);
            }
            if self.is_mine(pos) {
                proof {
                    assert(is_open_at(self.grid(), pos.0 as int, pos.1 as int));
                }
                return true;
            }
            let mc = self.neighboring_mines(pos);
            if mc == 0 {
                let ns = self.iter_neighbors(pos);
                let ghost nsv = ns@;
                let ghost g1 = self.grid();
                proof {
                    assert forall|t: int| 0 <= t < nsv.len() implies !is_mine_at(
                        g1,
                        (#[trigger] nsv[t]).0 as int,
                        nsv[t].1 as int,
                    ) by {
                        let i = nsv[t].0 as int;
                        let j = nsv[t].1 as int;
                        let x = pos.0 as int;
                        let y = pos.1 as int;
                        assert(adjacent_mines(g1, x, y) == 0);
                        if is_mine_at(g1, i, j) {
                            assert(mine_ind(g1, i, j) == 1);
                            assert(is_neighbor(x, y, i, j));
                            assert(i == x - 1 || i == x || i == x + 1);
                            assert(j == y - 1 || j == y || j == y + 1);
                        }
                    }
                }
                let hit2 = self.reveal_from(ns);
                proof {
                    assert(!hit2);
                    assert forall|i: int, j: int|
                        pos_in_bounds(old(self).grid(), i, j) && is_neighbor(
                            pos.0 as int,
                            pos.1 as int,
                            i,
                            j,
                        ) implies (#[trigger] cell(final(self).grid(), i, j)).fs is Open by {
                        let q = (i as usize, j as usize);
                        lemma_dims_bounded(old(self).grid());
                        assert(0 <= i <= usize::MAX && 0 <= j <= usize::MAX);
                        assert(q.0 as int == i && q.1 as int == j);
                        assert(g1.len() == g0.len());
                        assert(g1[0].len() == g0[0].len());
                        assert(pos_in_bounds(g1, i, j));
                        assert(nsv.contains(q));
                        let t = choose|t: int| 0 <= t < nsv.len() && nsv[t] == q;
                        assert(nsv[t].0 as int == i && nsv[t].1 as int == j);
                        assert(is_open_at(self.grid(), nsv[t].0 as int, nsv[t].1 as int));
                    }
                    assert forall|a: int, b: int|
                        pos_in_bounds(old(self).grid(), a, b) implies ((#[trigger] cell(
                        final(self).grid(),
                        a,
                        b,
                    )).fs == cell(old(self).grid(), a, b).fs || cell(
                        final(self).grid(),
                        a,
                        b,
                    ).fs is Open) by {
                        assert(cell(self.grid(), a, b).fs == cell(g1, a, b).fs || cell(
                            self.grid(),
                            a,
                            b,
                        ).fs is Open);
                        if !(a == pos.0 as int && b == pos.1 as int) {
                            assert(cell(g1, a, b) == cell(g0, a, b));
                        }
                    }
                    assert forall|a: int, b: int|
                        pos_in_bounds(old(self).grid(), a, b) && (#[trigger] cell(
                        final(self).grid(),
                        a,
                        b,
                    )).fs is Open && is_mine_at(old(self).grid(), a, b) implies is_open_at(
                        old(self).grid(),
                        a,
                        b,
                    ) by {
                        assert(!(a == pos.0 as int && b == pos.1 as int));
                        assert(cell(g1, a, b) == cell(g0, a, b));
                        assert(is_mine_at(g1, a, b));
                        assert((#[trigger] cell(self.grid(), a, b)).fs is Open);
                        assert(is_open_at(g1, a, b));
                    }
                }
                hit2
            } else {
                proof {
                    assert forall|a: int, b: int|
                        pos_in_bounds(old(self).grid(), a, b) && (#[trigger] cell(
                        final(self).grid(),
                        a,
                        b,
                    )).fs is Open && is_mine_at(old(self).grid(), a, b) implies is_open_at(
                        old(self).grid(),
                        a,
                        b,
                    ) by {
                        assert(!(a == pos.0 as int && b == pos.1 as int));
                        assert(cell(self.grid(), a, b) == cell(g0, a, b));
                    }
                }
                false
            }
        }
    }

    /// Opens a cell as the host's entry point does: with first-click
    /// protection, loss handling and win detection.  When the raw open hits
    /// a mine as the board's very first revealed cell, the board is silently
    /// regenerated with that cell left free of mines -- the limit of
    /// resetting and retrying the same coordinate until it is safe -- and
    /// the cell is opened on the fresh board.  A mine hit on any later cell
    /// marks the game lost and lays the board bare; a safe open rechecks the
    /// win condition.
    pub fn open_protected(&mut self, x: usize, y: usize)
        requires
            old(self).wf(),
            pos_in_bounds(old(self).grid(), x as int, y as int),
        ensures
            final(self).wf(),
            grid_width(final(self).grid()) == grid_width(old(self).grid()),
            grid_height(final(self).grid()) == grid_height(old(self).grid()),
            count_grid(final(self).grid(), CountKind::Mines) == count_grid(
                old(self).grid(),
                CountKind::Mines,
            ),
            is_open_at(final(self).grid(), x as int, y as int),
            count_grid(old(self).grid(), CountKind::Opened) == 0 && old(self).status() is None
                ==> final(self).status() != Some(true) && !is_mine_at(
                final(self).grid(),
                x as int,
                y as int,
            ),
            all_closed(old(self).grid()) && old(self).status() is None ==> final(self).status()
                != Some(true),
            count_grid(old(self).grid(), CountKind::Opened) != 0 && !is_open_at(
                old(self).grid(),
                x as int,
                y as int,
            ) && is_mine_at(old(self).grid(), x as int, y as int) ==> final(self).status()
                == Some(true) && (forall|i: int, j: int|
                pos_in_bounds(final(self).grid(), i, j) ==> (#[trigger] cell(
                    final(self).grid(),
                    i,
                    j,
                )).fs is Open),
            !is_open_at(old(self).grid(), x as int, y as int) && !is_mine_at(
                old(self).grid(),
                x as int,
                y as int,
            ) ==> final(self).status() == (if win_cells(final(self).grid()) && old(self).status()
                != Some(true) {
                Some(false)
            } else {
                old(self).status()
            }),
    {
        let ghost g0 = old(self).grid();
        let ghost xi = x as int;
        let ghost yi = y as int;
        let hit = self.open((x, y));
        proof {
            lemma_same_layout_counts(g0, self.grid());
            lemma_count_grid_bounds(g0, CountKind::Opened);
            if all_closed(g0) {
                assert forall|j: int, i: int|
                    0 <= j < g0.len() && 0 <= i < g0[j].len() implies !cell_matches(
                    #[trigger] g0[j][i],
                    CountKind::Opened,
                ) by {
                    assert(pos_in_bounds(g0, i, j));
                    assert(cell(g0, i, j).fs is Closed);
                }
                lemma_count_grid_zero(g0, CountKind::Opened);
            }
            if count_grid(g0, CountKind::Opened) == 0 {
                assert(!is_open_at(g0, xi, yi)) by {
                    if is_open_at(g0, xi, yi) {
                        lemma_count_grid_pos(g0, xi, yi, CountKind::Opened);
                    }
                }
            }
            if hit && !is_open_at(g0, xi, yi) {
                lemma_count_cell_update(
                    g0,
                    xi,
                    yi,
                    FieldStatus { fs: FieldState::Open, ft: cell(g0, xi, yi).ft },
                    CountKind::Opened,
                );
                assert(count_grid(self.grid(), CountKind::Opened) == count_grid(
                    g0,
                    CountKind::Opened,
                ) + 1);
            }
        }
        if hit {
            if self.fields_opened() == 1 {
                self.reset_with_safe_cell(x, y);
                let ghost gb = self.grid();
                let again = self.open((x, y));
                proof {
                    assert(!is_open_at(gb, xi, yi));
                    assert(!again);
                    lemma_same_layout_counts(gb, self.grid());
                    assert(is_open_at(self.grid(), xi, yi));
                    assert(cell(self.grid(), xi, yi).ft == cell(gb, xi, yi).ft);
                    assert(!is_mine_at(self.grid(), xi, yi));
                }
            } else {
                let ghost ga = self.grid();
                self.lost();
                self.show_loss();
                proof {
                    lemma_same_layout_counts(ga, self.grid());
                    assert(is_open_at(self.grid(), xi, yi));
                }
            }
        } else {
            let ghost gm = self.grid();
            self.win_check();
            proof {
                assert(self.grid() == gm);
                assert(is_open_at(gm, xi, yi)) by {
                    if !is_open_at(g0, xi, yi) {
                    } else {
                        assert(cell(gm, xi, yi).fs == cell(g0, xi, yi).fs || cell(
                            gm,
                            xi,
                            yi,
                        ).fs is Open);
                    }
                }
                if !is_open_at(g0, xi, yi) {
                    assert(!is_mine_at(g0, xi, yi));
                    assert(cell(gm, xi, yi).ft == cell(g0, xi, yi).ft);
                    assert(!is_mine_at(self.grid(), xi, yi));
                }
            }
        }
    }

    /// Clears the board like `board_reset`, but draws the fresh mine
    /// positions from the cells other than the given one, so that the given
    /// cell is free of mines on the new board.
    fn reset_with_safe_cell(&mut self, x: usize, y: usize)
        requires
            old(self).wf(),
            pos_in_bounds(old(self).grid(), x as int, y as int),
        ensures
            final(self).wf(),
            grid_width(final(self).grid()) == grid_width(old(self).grid()),
            grid_height(final(self).grid()) == grid_height(old(self).grid()),
            count_grid(final(self).grid(), CountKind::Mines) == count_grid(
                old(self).grid(),
                CountKind::Mines,
            ),
            all_closed(final(self).grid()),
            final(self).status() is None,
            !is_mine_at(final(self).grid(), x as int, y as int),
    {
        let w = self.width();
        let h = self.height();
        let m = self.mine_count();
        proof {
            assert(w as int * h as int == grid_area(self.grid()));
            assert((y as int * w as int + x as int) < w as int * h as int) by (nonlinear_arith)
                requires
                    0 <= x as int,
                    (x as int) < w as int,
                    0 <= y as int,
                    (y as int) < h as int,
            ;
        }
        let cells0 = crate::random::all_cells(w, h);
        let ghost c0 = cells0@;
        let idx = y * w + x;
        proof {
            assert(c0[idx as int].1 as int * w as int + c0[idx as int].0 as int == idx as int);
            assert(c0[idx as int].0 as int == x as int && c0[idx as int].1 as int == y as int)
                by (nonlinear_arith)
                requires
                    c0[idx as int].1 as int * w as int + c0[idx as int].0 as int == y as int
                        * w as int + x as int,
                    0 <= c0[idx as int].0 as int,
                    (c0[idx as int].0 as int) < w as int,
                    0 <= x as int,
                    (x as int) < w as int,
                    0 <= c0[idx as int].1 as int,
                    0 <= y as int,
            ;
            assert(c0[idx as int] == (x, y));
        }
        let mut cells = cells0;
        let _removed = cells.swap_remove(idx);
        let ghost cells1 = cells@;
        proof {
            assert forall|a: int|
                0 <= a < cells1.len() implies ((#[trigger] cells1[a]).0 < w && cells1[a].1 < h
                && cells1[a] != (x, y)) by {
                assert(cells1[a] == c0[a] || cells1[a] == c0.last());
                if a == idx as int {
                    assert(cells1[a] == c0[c0.len() - 1]);
                    assert(c0[c0.len() - 1] != c0[idx as int]);
                } else {
                    assert(cells1[a] == c0[a]);
                    assert(c0[a] != c0[idx as int]);
                }
            }
            assert forall|a: int, b: int|
                0 <= a < cells1.len() && 0 <= b < cells1.len() && a != b implies cells1[a]
                != cells1[b] by {
                assert(cells1[a] == c0[a] || cells1[a] == c0.last());
                assert(cells1[b] == c0[b] || cells1[b] == c0.last());
            }
        }
        let mines = crate::random::draw_positions(cells, m);
        proof {
            assert forall|t: int| 0 <= t < mines@.len() implies ((#[trigger] mines@[t]).0 < w
                && mines@[t].1 < h && mines@[t] != (x, y)) by {
                assert(cells1.contains(mines@[t]));
                let u = choose|u: int| 0 <= u < cells1.len() && cells1[u] == mines@[t];
                assert(cells1[u].0 < w && cells1[u].1 < h && cells1[u] != (x, y));
            }
            assert(!mines@.contains((x, y))) by {
                if mines@.contains((x, y)) {
                    let t = choose|t: int| 0 <= t < mines@.len() && mines@[t] == (x, y);
                }
            }
        }
        let fields = build_board(w, h, &mines);
        self.fields = fields;
        self.finished = None;
        proof {
            assert(self.grid() == rows_view(self.fields@));
            assert(grid_area(self.grid()) == w as int * h as int);
            assert(!mines@.contains((x, y)));
            assert(!is_mine_at(self.grid(), x as int, y as int));
        }
    }
}

} // verus!
