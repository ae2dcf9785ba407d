use minesweeper::game::{FieldState, FieldStatus, FieldType, Game, NewGameError};
use minesweeper::random::random_fields;

fn snapshot(g: &Game) -> Vec<((usize, usize), FieldStatus)> {
    g.board_state()
}

fn neighbor_mine_scan(board: &[((usize, usize), FieldStatus)], w: usize, h: usize, x: usize, y: usize) -> u8 {
    let mut n: u8 = 0;
    for (pos, cell) in board {
        let (cx, cy) = *pos;
        if (cx, cy) == (x, y) {
            continue;
        }
        let dx = if cx > x { cx - x } else { x - cx };
        let dy = if cy > y { cy - y } else { y - cy };
        if dx <= 1 && dy <= 1 && cx < w && cy < h && matches!(cell.ft, FieldType::Mine) {
            n += 1;
        }
    }
    n
}

#[test]
fn construction_places_requested_mines() {
    let g = Game::new([9, 9, 10]).unwrap();
    assert_eq!(g.width(), 9);
    assert_eq!(g.height(), 9);
    assert_eq!(g.mine_count(), 10);
    assert_eq!(g.fields_opened(), 0);
    assert_eq!(g.is_finished(), None);
    let board = snapshot(&g);
    assert_eq!(board.len(), 81);
    let mines = board.iter().filter(|(_, c)| matches!(c.ft, FieldType::Mine)).count();
    assert_eq!(mines, 10);
}

#[test]
fn construction_adjacency_matches_brute_force() {
    let g = Game::new([8, 5, 7]).unwrap();
    let board = snapshot(&g);
    for ((x, y), cell) in &board {
        match cell.ft {
            FieldType::Mine => {}
            FieldType::Empty(n) => {
                assert_eq!(n, neighbor_mine_scan(&board, 8, 5, *x, *y));
                assert_eq!(n, g.neighboring_mines((*x, *y)));
            }
        }
        assert!(matches!(cell.fs, FieldState::Closed));
    }
}

#[test]
fn construction_rejects_bad_parameters() {
    assert_eq!(Game::new([0, 5, 0]).unwrap_err(), NewGameError::ZeroDimension);
    assert_eq!(Game::new([5, 0, 0]).unwrap_err(), NewGameError::ZeroDimension);
    assert_eq!(Game::new([3, 3, 9]).unwrap_err(), NewGameError::TooManyMines);
    assert_eq!(Game::new([3, 3, 100]).unwrap_err(), NewGameError::TooManyMines);
    assert_eq!(Game::new([usize::MAX, usize::MAX, 1]).unwrap_err(), NewGameError::TooLarge);
    assert!(Game::new([3, 3, 0]).is_ok());
    assert!(Game::new([3, 3, 8]).is_ok());
}

#[test]
fn from_mines_rejects_bad_positions() {
    assert_eq!(
        Game::from_mines(3, 3, vec![(3, 0)]).unwrap_err(),
        NewGameError::MineOutOfBounds
    );
    assert_eq!(
        Game::from_mines(3, 3, vec![(0, 0), (0, 0)]).unwrap_err(),
        NewGameError::DuplicateMine
    );
    assert_eq!(
        Game::from_mines(2, 2, vec![(0, 0), (1, 0), (0, 1), (1, 1)]).unwrap_err(),
        NewGameError::TooManyMines
    );
}

#[test]
fn random_fields_distinct_and_in_bounds() {
    let fields = random_fields(5, 4, 20);
    assert_eq!(fields.len(), 20);
    for &(x, y) in &fields {
        assert!(x < 5 && y < 4);
    }
    for i in 0..fields.len() {
        for j in 0..fields.len() {
            if i != j {
                assert_ne!(fields[i], fields[j]);
            }
        }
    }
    let few = random_fields(10, 10, 3);
    assert_eq!(few.len(), 3);
}

#[test]
fn scenario_three_by_three_flood_fill() {
    let mut g = Game::from_mines(3, 3, vec![(2, 2)]).unwrap();
    let expected = [
        ((0, 0), 0u8),
        ((1, 0), 0),
        ((2, 0), 0),
        ((0, 1), 0),
        ((1, 1), 1),
        ((2, 1), 1),
        ((0, 2), 0),
        ((1, 2), 1),
    ];
    for ((x, y), n) in expected {
        assert_eq!(g.neighboring_mines((x, y)), n);
    }
    let hit = g.open((0, 0));
    assert!(!hit);
    assert_eq!(g.fields_opened(), 8);
    for ((x, y), cell) in snapshot(&g) {
        if (x, y) == (2, 2) {
            assert!(matches!(cell.fs, FieldState::Closed));
            assert!(matches!(cell.ft, FieldType::Mine));
        } else {
            assert!(matches!(cell.fs, FieldState::Open));
        }
    }
    g.toggle_flag((2, 2));
    g.win_check();
    assert_eq!(g.is_finished(), Some(false));
}

#[test]
fn flood_fill_idempotent_chord() {
    let mut g = Game::from_mines(3, 3, vec![(2, 2)]).unwrap();
    assert!(!g.open((0, 0)));
    let before = snapshot(&g);
    let opened = g.fields_opened();
    let hit = g.open((0, 0));
    assert!(!hit);
    assert_eq!(snapshot(&g), before);
    assert_eq!(g.fields_opened(), opened);
}

#[test]
fn first_click_is_never_a_loss() {
    for x in 0..4 {
        for y in 0..4 {
            let mut g = Game::new([4, 4, 8]).unwrap();
            g.open_protected(x, y);
            assert_ne!(g.is_finished(), Some(true));
            assert!(g.is_open((x, y)));
        }
    }
}

#[test]
fn first_click_on_known_mine_regenerates_board() {
    let mut g = Game::from_mines(2, 2, vec![(0, 0)]).unwrap();
    g.open_protected(0, 0);
    assert_ne!(g.is_finished(), Some(true));
    assert!(g.is_open((0, 0)));
    assert_eq!(g.mine_count(), 1);
}

#[test]
fn second_click_on_mine_loses_and_shows_board() {
    let mut g = Game::from_mines(2, 2, vec![(1, 1)]).unwrap();
    g.open_protected(0, 0);
    assert_eq!(g.is_finished(), None);
    g.open_protected(1, 1);
    assert_eq!(g.is_finished(), Some(true));
    for (_, cell) in snapshot(&g) {
        assert!(matches!(cell.fs, FieldState::Open));
    }
}

#[test]
fn win_by_completion() {
    let mut g = Game::from_mines(3, 3, vec![(0, 0), (2, 2)]).unwrap();
    for x in 0..3 {
        for y in 0..3 {
            if (x, y) != (0, 0) && (x, y) != (2, 2) {
                g.open((x, y));
            }
        }
    }
    g.toggle_flag((0, 0));
    g.toggle_flag((2, 2));
    assert_eq!(g.is_finished(), None);
    g.win_check();
    assert_eq!(g.is_finished(), Some(false));
}

#[test]
fn wrong_flag_prevents_win() {
    let mut g = Game::from_mines(3, 3, vec![(1, 0), (1, 2)]).unwrap();
    g.toggle_flag((1, 0));
    g.toggle_flag((1, 1));
    for x in 0..3 {
        for y in 0..3 {
            if (x, y) != (1, 0) && (x, y) != (1, 1) && (x, y) != (1, 2) {
                g.open((x, y));
            }
        }
    }
    assert_eq!(g.fields_opened(), 6);
    g.win_check();
    assert_eq!(g.is_finished(), None);
}

#[test]
fn toggle_flag_round_trip() {
    let mut g = Game::from_mines(3, 3, vec![(2, 2)]).unwrap();
    let before = snapshot(&g);
    g.toggle_flag((1, 1));
    assert!(g.is_flagged((1, 1)));
    assert!(!g.is_open((1, 1)));
    g.toggle_flag((1, 1));
    assert!(!g.is_flagged((1, 1)));
    assert_eq!(snapshot(&g), before);
}

#[test]
fn flags_remaining_saturates_at_zero() {
    let mut g = Game::from_mines(3, 3, vec![(2, 2)]).unwrap();
    assert_eq!(g.flags_remaining(), 1);
    g.toggle_flag((0, 0));
    assert_eq!(g.flags_remaining(), 0);
    g.toggle_flag((1, 0));
    assert_eq!(g.flags_remaining(), 0);
    g.toggle_flag((0, 0));
    g.toggle_flag((1, 0));
    assert_eq!(g.flags_remaining(), 1);
}

#[test]
fn board_reset_keeps_dimensions_and_mines() {
    let mut g = Game::from_mines(3, 3, vec![(2, 2)]).unwrap();
    g.open((0, 0));
    assert_eq!(g.fields_opened(), 8);
    g.board_reset();
    assert_eq!(g.width(), 3);
    assert_eq!(g.height(), 3);
    assert_eq!(g.mine_count(), 1);
    assert_eq!(g.fields_opened(), 0);
    assert_eq!(g.is_finished(), None);
}

#[test]
fn render_codes_cover_states_and_contents() {
    let mut g = Game::from_mines(2, 1, vec![(1, 0)]).unwrap();
    assert_eq!(g.board_codes(), vec![vec![1u8, 9u8]]);
    g.open((0, 0));
    assert_eq!(g.board_codes(), vec![vec![21u8, 9u8]]);
    g.toggle_flag((1, 0));
    assert_eq!(g.board_codes(), vec![vec![21u8, 19u8]]);
    let mut g2 = Game::from_mines(2, 1, vec![(0, 0)]).unwrap();
    g2.toggle_flag((1, 0));
    assert_eq!(g2.board_codes(), vec![vec![9u8, 11u8]]);
    g2.toggle_flag((1, 0));
    g2.lost();
    g2.show_loss();
    assert_eq!(g2.board_codes(), vec![vec![29u8, 21u8]]);
    assert_eq!(g2.is_finished(), Some(true));
}

#[test]
fn chord_opens_unflagged_neighbors() {
    let mut g = Game::from_mines(3, 3, vec![(0, 0), (2, 0)]).unwrap();
    g.open((1, 1));
    assert_eq!(g.fields_opened(), 1);
    g.toggle_flag((0, 0));
    g.toggle_flag((2, 0));
    let hit = g.open((1, 1));
    assert!(!hit);
    for x in 0..3 {
        for y in 0..3 {
            if (x, y) == (0, 0) || (x, y) == (2, 0) {
                assert!(g.is_flagged((x, y)));
            } else {
                assert!(g.is_open((x, y)), "cell ({}, {}) should be open", x, y);
            }
        }
    }
}

#[test]
fn chord_with_wrong_flag_hits_mine_and_keeps_opened_cells() {
    let mut g = Game::from_mines(3, 3, vec![(0, 0), (2, 0)]).unwrap();
    g.open((1, 1));
    g.toggle_flag((0, 0));
    g.toggle_flag((1, 0));
    let hit = g.open((1, 1));
    assert!(hit);
    assert!(g.is_open((1, 1)));
    assert!(g.is_flagged((1, 0)));
}

#[test]
fn chord_with_mismatched_flags_does_nothing() {
    let mut g = Game::from_mines(3, 3, vec![(0, 0), (2, 0)]).unwrap();
    g.open((1, 1));
    g.toggle_flag((0, 0));
    let before = snapshot(&g);
    let hit = g.open((1, 1));
    assert!(!hit);
    assert_eq!(snapshot(&g), before);
}

#[test]
fn opening_flagged_cell_opens_it_through_flood() {
    let mut g = Game::from_mines(3, 3, vec![(2, 2)]).unwrap();
    g.toggle_flag((1, 0));
    let hit = g.open((0, 0));
    assert!(!hit);
    assert!(g.is_open((1, 0)));
    assert!(!g.is_flagged((1, 0)));
}

#[test]
fn zero_mine_board_opens_fully_on_one_click() {
    let mut g = Game::new([4, 3, 0]).unwrap();
    g.open_protected(1, 1);
    assert_eq!(g.fields_opened(), 12);
    assert_ne!(g.is_finished(), Some(true));
}
