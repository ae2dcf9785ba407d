//! Laws of the board engine that relate several commands: the flag round
//! trip and the win condition.

use vstd::prelude::*;

use crate::counting::{
    cell_matches, count_grid, lemma_count_grid_le, lemma_count_grid_states_partition,
    lemma_count_grid_strict, lemma_count_grid_zero, CountKind,
};
use crate::game::{
    cell, grid_wf, is_flagged_at, is_mine_at, is_open_at, lemma_with_state_facts, pos_in_bounds,
    toggled, win_cells, FieldState, Grid,
};

verus! {

/// Toggling the flag of a closed or flagged cell twice returns the board to
/// exactly its former value: the cell's state is restored and no other cell
/// is touched.  An open cell is left out: flagging it and toggling again
/// leaves it closed, not open.
pub proof fn lemma_toggle_roundtrip(g: Grid, x: int, y: int)
    requires
        grid_wf(g),
        pos_in_bounds(g, x, y),
        !is_open_at(g, x, y),
    ensures
        toggled(toggled(g, x, y), x, y) == g,
{
    let s1 = if is_flagged_at(g, x, y) {
        FieldState::Closed
    } else {
        FieldState::Flag
    };
    lemma_with_state_facts(g, x, y, s1);
    let g1 = toggled(g, x, y);
    let s2 = if is_flagged_at(g1, x, y) {
        FieldState::Closed
    } else {
        FieldState::Flag
    };
    lemma_with_state_facts(g1, x, y, s2);
    let g2 = toggled(g1, x, y);
    assert(cell(g2, x, y) == cell(g, x, y));
    assert forall|j: int| 0 <= j < g2.len() implies g2[j] == g[j] by {
        if j == y {
            assert forall|i: int| 0 <= i < g2[j].len() implies g2[j][i] == g[j][i] by {
                if i != x {
                    assert(cell(g2, i, y) == cell(g1, i, y));
                    assert(cell(g1, i, y) == cell(g, i, y));
                }
            }
            assert(g2[j] =~= g[j]);
        } else {
            assert(g2[j] =~= g[j]);
        }
    }
    assert(g2 =~~= g);
}

/// Completing a board wins it: when every mine carries a flag and every
/// other cell has been opened, the win condition holds.
pub proof fn lemma_completion_wins(g: Grid)
    requires
        grid_wf(g),
        forall|x: int, y: int|
            pos_in_bounds(g, x, y) && (#[trigger] cell(g, x, y)).ft is Mine ==> cell(
                g,
                x,
                y,
            ).fs is Flag,
        forall|x: int, y: int|
            pos_in_bounds(g, x, y) && !((#[trigger] cell(g, x, y)).ft is Mine) ==> cell(
                g,
                x,
                y,
            ).fs is Open,
    ensures
        win_cells(g),
{
    assert forall|j: int, i: int|
        0 <= j < g.len() && 0 <= i < g[j].len() && cell_matches(
        #[trigger] g[j][i],
        CountKind::Mines,
    ) implies cell_matches(g[j][i], CountKind::Flagged) by {
        assert(pos_in_bounds(g, i, j));
        assert(cell(g, i, j).fs is Flag);
    }
    assert forall|j: int, i: int|
        0 <= j < g.len() && 0 <= i < g[j].len() && cell_matches(
        #[trigger] g[j][i],
        CountKind::Flagged,
    ) implies cell_matches(g[j][i], CountKind::Mines) by {
        assert(pos_in_bounds(g, i, j));
        if !(cell(g, i, j).ft is Mine) {
            assert(cell(g, i, j).fs is Open);
        }
    }
    lemma_count_grid_le(g, CountKind::Mines, CountKind::Flagged);
    lemma_count_grid_le(g, CountKind::Flagged, CountKind::Mines);
    assert forall|j: int, i: int|
        0 <= j < g.len() && 0 <= i < g[j].len() implies !cell_matches(
        #[trigger] g[j][i],
        CountKind::Closed,
    ) by {
        assert(pos_in_bounds(g, i, j));
        if cell(g, i, j).ft is Mine {
            assert(cell(g, i, j).fs is Flag);
        } else {
            assert(cell(g, i, j).fs is Open);
        }
    }
    lemma_count_grid_zero(g, CountKind::Closed);
    lemma_count_grid_states_partition(g);
}

/// A flag on a safe cell forfeits the win: however the rest of the board is
/// handled, a board with a flagged non-mine cell never meets the win
/// condition.
pub proof fn lemma_wrong_flag_blocks_win(g: Grid, x: int, y: int)
    requires
        grid_wf(g),
        pos_in_bounds(g, x, y),
        is_flagged_at(g, x, y),
        !is_mine_at(g, x, y),
    ensures
        !win_cells(g),
{
    if win_cells(g) {
        assert forall|j: int, i: int|
            0 <= j < g.len() && 0 <= i < g[j].len() && cell_matches(
            #[trigger] g[j][i],
            CountKind::Mines,
        ) implies cell_matches(g[j][i], CountKind::Flagged) by {
            assert(pos_in_bounds(g, i, j));
            assert(cell(g, i, j).fs is Flag);
        }
        assert(cell_matches(g[y][x], CountKind::Flagged));
        assert(!cell_matches(g[y][x], CountKind::Mines));
        lemma_count_grid_strict(g, x, y, CountKind::Mines, CountKind::Flagged);
    }
}

} // verus!
