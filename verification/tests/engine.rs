use minesweeper::CellState;
use minesweeper::CellStatus;
use minesweeper::GenerateError;
use minesweeper::Mines;
use minesweeper::Status;

fn hidden_cell(surrounds: usize, bomb: bool) -> CellState {
    CellState {
        surrounds,
        bomb,
        status: CellStatus::HIDDEN,
    }
}

/// A 3x3 board with a single bomb in the corner (3, 3) and neighbor counts
/// filled in by hand.
fn corner_bomb_board() -> Mines {
    Mines {
        width: 3,
        height: 3,
        state: vec![
            hidden_cell(0, false),
            hidden_cell(0, false),
            hidden_cell(0, false),
            hidden_cell(0, false),
            hidden_cell(1, false),
            hidden_cell(1, false),
            hidden_cell(0, false),
            hidden_cell(1, false),
            hidden_cell(0, true),
        ],
        generated: true,
    }
}

/// Recount the bombs around `(x, y)` the slow way, straight off the grid.
fn recount_surrounds(m: &Mines, x: usize, y: usize) -> usize {
    let mut n = 0;
    for dy in 0..3usize {
        for dx in 0..3usize {
            if dx == 1 && dy == 1 {
                continue;
            }
            let nx = x + dx;
            let ny = y + dy;
            if nx >= 1 && ny >= 1 {
                if let Some(c) = m.at(nx - 1, ny - 1) {
                    if c.bomb {
                        n += 1;
                    }
                }
            }
        }
    }
    n
}

fn snapshot(m: &Mines) -> Vec<(usize, bool, bool)> {
    let mut cells = Vec::new();
    for y in 1..=m.height {
        for x in 1..=m.width {
            let c = m.at(x, y).unwrap();
            cells.push((c.surrounds, c.bomb, c.revealed()));
        }
    }
    cells
}

#[test]
fn winning_case() {
    let mut mines = Mines {
        width: 2,
        height: 2,
        state: vec![CellState {
            bomb: false,
            status: CellStatus::HIDDEN,
            surrounds: 0,
        }],
        generated: false,
    };
    mines.uncover(1, 1);
    assert_eq!(mines.status(), Status::Win, "a simple winning case")
}

#[test]
fn fresh_grid_is_unfinished() {
    let m = Mines::new(3, 4);
    assert_eq!(m.status(), Status::Unfinished);
    for y in 1..=4 {
        for x in 1..=3 {
            let c = m.at(x, y).unwrap();
            assert!(!c.bomb);
            assert!(!c.revealed());
            assert_eq!(c.surrounds, 0);
        }
    }
}

#[test]
fn default_grid_is_ten_by_ten() {
    let m = Mines::default();
    assert_eq!(m.status(), Status::Unfinished);
    assert!(m.at(10, 10).is_some());
    assert!(m.at(11, 10).is_none());
    assert!(m.at(10, 11).is_none());
}

#[test]
fn default_cell_is_hidden_and_safe() {
    let c = CellState::default();
    assert_eq!(c.surrounds, 0);
    assert!(!c.bomb);
    assert!(!c.revealed());
}

#[test]
fn generate_places_exact_bombs() {
    let mut m = Mines::new(10, 10);
    assert_eq!(m.generate(10, (5, 5)), Ok(()));
    let mut bombs = 0;
    for y in 1..=10 {
        for x in 1..=10 {
            let c = m.at(x, y).unwrap();
            if c.bomb {
                bombs += 1;
                assert_ne!(x, 5, "a bomb landed in the excluded column");
                assert_ne!(y, 5, "a bomb landed in the excluded row");
            }
            assert_eq!(c.surrounds, recount_surrounds(&m, x, y));
            assert!(!c.revealed());
        }
    }
    assert_eq!(bombs, 10);
}

#[test]
fn generate_rejects_too_many_bombs() {
    let mut m = Mines::new(10, 10);
    assert_eq!(m.generate(100, (5, 5)), Err(GenerateError::TooManyBombs));
    assert_eq!(m.status(), Status::Unfinished);
    assert!(!m.at(1, 1).unwrap().bomb);
}

#[test]
fn generate_bound_is_exact() {
    let mut m = Mines::new(10, 10);
    assert_eq!(m.generate(82, (5, 5)), Err(GenerateError::TooManyBombs));
    assert_eq!(m.generate(81, (5, 5)), Ok(()));
    let mut bombs = 0;
    for y in 1..=10 {
        for x in 1..=10 {
            if m.at(x, y).unwrap().bomb {
                bombs += 1;
            }
        }
    }
    assert_eq!(bombs, 81);
}

#[test]
fn generate_twice_is_rejected() {
    let mut m = Mines::new(4, 4);
    assert_eq!(m.generate(3, (2, 2)), Ok(()));
    let before = snapshot(&m);
    assert_eq!(m.generate(3, (2, 2)), Err(GenerateError::AlreadyGenerated));
    assert_eq!(snapshot(&m), before);
}

#[test]
fn reveal_is_idempotent() {
    let mut m = Mines::new(5, 5);
    assert_eq!(m.generate(4, (1, 1)), Ok(()));
    m.uncover(1, 1);
    let once = snapshot(&m);
    let status_once = m.status();
    m.uncover(1, 1);
    assert_eq!(snapshot(&m), once);
    assert_eq!(m.status(), status_once);
}

#[test]
fn flood_fill_reveals_region_and_border() {
    let mut m = corner_bomb_board();
    m.uncover(1, 1);
    for y in 1..=3 {
        for x in 1..=3 {
            let c = m.at(x, y).unwrap();
            if x == 3 && y == 3 {
                assert!(!c.revealed(), "the bomb must stay covered");
            } else {
                assert!(c.revealed(), "cell ({}, {}) should be swept open", x, y);
            }
        }
    }
    assert_eq!(m.status(), Status::Win);
}

#[test]
fn flood_fill_stops_at_numbered_border() {
    let mut m = Mines {
        width: 5,
        height: 1,
        state: vec![
            hidden_cell(0, false),
            hidden_cell(1, false),
            hidden_cell(0, true),
            hidden_cell(1, false),
            hidden_cell(0, false),
        ],
        generated: true,
    };
    m.uncover(1, 1);
    assert!(m.at(1, 1).unwrap().revealed());
    assert!(m.at(2, 1).unwrap().revealed());
    assert!(!m.at(3, 1).unwrap().revealed());
    assert!(!m.at(4, 1).unwrap().revealed());
    assert!(!m.at(5, 1).unwrap().revealed());
    assert_eq!(m.status(), Status::Unfinished);
}

#[test]
fn revealing_a_bomb_loses() {
    let mut m = corner_bomb_board();
    m.uncover(3, 3);
    assert_eq!(m.status(), Status::GameOver);
    m.uncover(1, 1);
    assert!(
        !m.at(1, 1).unwrap().revealed(),
        "reveals after the game ended must be ignored"
    );
    assert_eq!(m.status(), Status::GameOver);
}

#[test]
fn game_over_outranks_win() {
    let m = Mines {
        width: 2,
        height: 1,
        state: vec![
            CellState {
                surrounds: 1,
                bomb: true,
                status: CellStatus::REVEAL,
            },
            CellState {
                surrounds: 1,
                bomb: false,
                status: CellStatus::REVEAL,
            },
        ],
        generated: true,
    };
    assert_eq!(m.status(), Status::GameOver);
}

#[test]
fn scenario_two_by_two_all_swept() {
    let mut m = Mines::new(2, 2);
    assert_eq!(m.generate(0, (1, 1)), Ok(()));
    m.uncover(1, 1);
    for y in 1..=2 {
        for x in 1..=2 {
            assert!(m.at(x, y).unwrap().revealed());
        }
    }
    assert_eq!(m.status(), Status::Win);
}

#[test]
fn scenario_first_click_is_safe() {
    let mut m = Mines::new(10, 10);
    assert_eq!(m.generate(1, (5, 5)), Ok(()));
    m.uncover(5, 5);
    assert_ne!(m.status(), Status::GameOver);

    let mut m2 = Mines::new(10, 10);
    assert_eq!(m2.generate(1, (5, 5)), Ok(()));
    let mut bomb_pos = (0, 0);
    for y in 1..=10 {
        for x in 1..=10 {
            if m2.at(x, y).unwrap().bomb {
                bomb_pos = (x, y);
            }
        }
    }
    assert_ne!(bomb_pos, (0, 0));
    m2.uncover(bomb_pos.0, bomb_pos.1);
    assert_eq!(m2.status(), Status::GameOver);
}

#[test]
fn scenario_out_of_range_lookups_are_absent() {
    let m = Mines::new(10, 10);
    assert!(m.at(0, 1).is_none());
    assert!(m.at(11, 1).is_none());
}

#[test]
fn out_of_range_reveals_are_ignored() {
    let mut m = Mines::new(2, 2);
    m.uncover(0, 0);
    m.uncover(3, 1);
    m.uncover(1, 3);
    for y in 1..=2 {
        for x in 1..=2 {
            assert!(!m.at(x, y).unwrap().revealed());
        }
    }
    assert_eq!(m.status(), Status::Unfinished);
}

#[test]
fn flagged_cells_reveal_like_hidden_ones() {
    let mut m = Mines {
        width: 1,
        height: 1,
        state: vec![CellState {
            surrounds: 0,
            bomb: false,
            status: CellStatus::FLAG,
        }],
        generated: true,
    };
    assert!(!m.at(1, 1).unwrap().revealed());
    m.uncover(1, 1);
    assert!(m.at(1, 1).unwrap().revealed());
    assert_eq!(m.status(), Status::Win);
}
