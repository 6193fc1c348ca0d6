use minesweep::error::Error;
use minesweep::grid::adjacent;
use minesweep::sweep::Board;

fn mine_count(board: &Board) -> usize {
    let mut count = 0;
    for r in 0..board.rows {
        for c in 0..board.columns {
            if board.tile(r, c).unwrap().mine {
                count += 1;
            }
        }
    }
    count
}

fn brute_force_won(board: &Board) -> bool {
    for r in 0..board.rows {
        for c in 0..board.columns {
            let t = board.tile(r, c).unwrap();
            if t.mine && !t.flagged {
                return false;
            }
            if !t.mine && !t.exposed {
                return false;
            }
        }
    }
    true
}

#[test]
fn adjacency_counts_match_resolver() {
    for &(rows, columns, mines) in &[
        (1, 1, 0),
        (1, 1, 1),
        (2, 3, 2),
        (4, 4, 16),
        (5, 5, 7),
        (9, 9, 10),
        (16, 16, 40),
        (50, 50, 0),
        (50, 50, 500),
        (50, 50, 2500),
    ] {
        let board = Board::new(rows, columns, mines).unwrap();
        for r in 0..rows {
            for c in 0..columns {
                let expected: u8 = adjacent((r, c), rows, columns)
                    .into_iter()
                    .map(|idx| {
                        let (r2, c2) = (idx / columns, idx % columns);
                        u8::from(board.tile(r2, c2).unwrap().mine)
                    })
                    .sum();
                let got = board.tile(r, c).unwrap().adjacent_mines;
                assert!(got <= 8);
                assert_eq!(got, expected, "tile ({r}, {c}) of {rows}x{columns}");
            }
        }
    }
}

#[test]
fn sampling_places_exactly_the_requested_mines() {
    for _ in 0..50 {
        let board = Board::new(6, 7, 11).unwrap();
        assert_eq!(mine_count(&board), 11);
    }
    for mines in [0, 1, 12] {
        let board = Board::new(3, 4, mines).unwrap();
        assert_eq!(mine_count(&board), mines);
    }
}

#[test]
fn sampling_reaches_every_position() {
    // Over many boards with one mine on four tiles, each position should
    // come up at least once: a smoke test against positional bias.
    let mut seen = [false; 4];
    for _ in 0..400 {
        let board = Board::new(2, 2, 1).unwrap();
        for r in 0..2 {
            for c in 0..2 {
                if board.tile(r, c).unwrap().mine {
                    seen[r * 2 + c] = true;
                }
            }
        }
    }
    assert_eq!(seen, [true; 4]);
}

#[test]
fn invalid_configurations_are_rejected() {
    assert_eq!(Board::new(0, 5, 0).unwrap_err(), Error::InvalidConfig);
    assert_eq!(Board::new(5, 0, 0).unwrap_err(), Error::InvalidConfig);
    assert_eq!(Board::new(3, 3, 10).unwrap_err(), Error::InvalidConfig);
    assert_eq!(Board::new(usize::MAX, 2, 0).unwrap_err(), Error::InvalidConfig);
    assert!(Board::new(3, 3, 9).is_ok());
}

#[test]
fn with_mines_rejects_bad_placements() {
    // Out of range.
    assert_eq!(
        Board::with_mines(2, 2, &vec![4]).unwrap_err(),
        Error::InvalidConfig
    );
    // Duplicate.
    assert_eq!(
        Board::with_mines(2, 2, &vec![1, 1]).unwrap_err(),
        Error::InvalidConfig
    );
    assert!(Board::with_mines(2, 2, &vec![0, 1, 2, 3]).is_ok());
}

#[test]
fn out_of_bounds_coordinates_fail_with_get_tile() {
    let mut board = Board::new(3, 3, 1).unwrap();
    assert_eq!(board.tile(3, 0).unwrap_err(), Error::GetTile((3, 0)));
    assert_eq!(board.tile(0, 3).unwrap_err(), Error::GetTile((0, 3)));
    assert_eq!(board.expose((9, 9)).unwrap_err(), Error::GetTile((9, 9)));
    assert_eq!(board.flag(0, 7).unwrap_err(), Error::GetTile((0, 7)));
}

#[test]
fn exposing_a_mine_exposes_only_that_tile() {
    let mut board = Board::with_mines(3, 3, &vec![4]).unwrap();
    let hit = board.expose((1, 1)).unwrap();
    assert!(hit);
    for r in 0..3 {
        for c in 0..3 {
            let t = board.tile(r, c).unwrap();
            assert_eq!(t.exposed, (r, c) == (1, 1));
        }
    }
    assert!(!board.has_won());
}

#[test]
fn flood_fill_exposes_zero_region_and_border() {
    // One mine in the corner of a 5x5 board: every tile not touching the
    // corner has no adjacent mines, so exposing a far tile reveals the whole
    // board except the mine, its three bordering tiles exposed as the
    // numbered rim, and any flagged tile stays hidden.
    let mut board = Board::with_mines(5, 5, &vec![0]).unwrap();
    // Flag one zero tile: the flood fill must skip it.
    let state = board.flag(4, 0).unwrap();
    assert!(state);
    let hit = board.expose((4, 4)).unwrap();
    assert!(!hit);
    for r in 0..5 {
        for c in 0..5 {
            let t = board.tile(r, c).unwrap();
            if (r, c) == (0, 0) {
                assert!(!t.exposed, "the mine must stay hidden");
            } else if (r, c) == (4, 0) {
                assert!(!t.exposed, "a flagged tile is never auto-exposed");
                assert!(t.flagged);
            } else {
                assert!(t.exposed, "tile ({r}, {c}) should be exposed");
            }
        }
    }
}

#[test]
fn exposing_a_numbered_tile_does_not_spread() {
    let mut board = Board::with_mines(3, 3, &vec![4]).unwrap();
    let hit = board.expose((0, 0)).unwrap();
    assert!(!hit);
    for r in 0..3 {
        for c in 0..3 {
            let t = board.tile(r, c).unwrap();
            assert_eq!(t.exposed, (r, c) == (0, 0));
        }
    }
}

#[test]
fn center_mine_scenario() {
    // A 3x3 board with the mine in the center: every other tile shows a
    // count of one, so each must be exposed by its own move; flagging the
    // center then wins.
    let mut board = Board::with_mines(3, 3, &vec![4]).unwrap();
    for r in 0..3 {
        for c in 0..3 {
            assert_eq!(board.tile(r, c).unwrap().adjacent_mines, u8::from((r, c) != (1, 1)));
        }
    }
    for r in 0..3 {
        for c in 0..3 {
            if (r, c) != (1, 1) {
                assert!(!board.expose((r, c)).unwrap());
            }
        }
    }
    assert!(!board.tile(1, 1).unwrap().exposed);
    assert!(!board.has_won());
    let state = board.flag(1, 1).unwrap();
    assert!(state);
    assert!(board.has_won());
    assert!(brute_force_won(&board));
}

#[test]
fn single_tile_mine_scenario() {
    let mut board = Board::with_mines(1, 1, &vec![0]).unwrap();
    assert!(board.expose((0, 0)).unwrap());
    assert!(board.tile(0, 0).unwrap().exposed);
    assert!(!board.has_won());
    // The mine is exposed now, so flagging it is rejected and the game
    // stays lost.
    let state = board.flag(0, 0).unwrap();
    assert!(!state);
    assert!(!board.has_won());
}

#[test]
fn single_tile_flag_wins() {
    // On a fresh one-tile board, flagging the lone mine wins outright:
    // there is no safe tile left to expose.
    let mut board = Board::with_mines(1, 1, &vec![0]).unwrap();
    assert!(!board.has_won());
    let state = board.flag(0, 0).unwrap();
    assert!(state);
    assert!(board.has_won());
}

#[test]
fn flag_budget_is_enforced() {
    let mut board = Board::with_mines(3, 3, &vec![0, 1]).unwrap();
    assert_eq!(board.available_flags(), 2);
    assert!(board.flag(2, 2).unwrap());
    assert!(board.flag(2, 1).unwrap());
    assert_eq!(board.available_flags(), 0);
    // The budget is exhausted: flagging a third tile is a no-op that
    // truthfully reports the unchanged state.
    assert!(!board.flag(2, 0).unwrap());
    assert!(!board.tile(2, 0).unwrap().flagged);
    assert_eq!(board.available_flags(), 0);
    // Unflagging is always accepted, even at the limit.
    assert!(!board.flag(2, 2).unwrap());
    assert!(!board.tile(2, 2).unwrap().flagged);
    assert_eq!(board.available_flags(), 1);
}

#[test]
fn flagging_an_exposed_tile_is_rejected() {
    let mut board = Board::with_mines(3, 3, &vec![4]).unwrap();
    assert!(!board.expose((0, 0)).unwrap());
    assert!(!board.flag(0, 0).unwrap());
    assert!(!board.tile(0, 0).unwrap().flagged);
    assert_eq!(board.available_flags(), 1);
}

#[test]
fn flag_then_unflag_restores_the_tile() {
    let mut board = Board::with_mines(3, 3, &vec![4]).unwrap();
    let before_flags = board.available_flags();
    assert!(!board.tile(0, 1).unwrap().flagged);
    assert!(board.flag(0, 1).unwrap());
    assert!(board.tile(0, 1).unwrap().flagged);
    assert!(!board.flag(0, 1).unwrap());
    assert!(!board.tile(0, 1).unwrap().flagged);
    assert_eq!(board.available_flags(), before_flags);
}

#[test]
fn win_check_matches_full_scan() {
    let mut board = Board::with_mines(2, 3, &vec![1, 5]).unwrap();
    assert_eq!(board.has_won(), brute_force_won(&board));
    board.expose((0, 0)).unwrap();
    assert_eq!(board.has_won(), brute_force_won(&board));
    board.flag(0, 1).unwrap();
    assert_eq!(board.has_won(), brute_force_won(&board));
    board.expose((1, 0)).unwrap();
    board.expose((0, 2)).unwrap();
    board.expose((1, 1)).unwrap();
    assert_eq!(board.has_won(), brute_force_won(&board));
    board.flag(1, 2).unwrap();
    assert!(board.has_won());
    assert!(brute_force_won(&board));
}

#[test]
fn a_wrong_flag_never_wins() {
    let mut board = Board::with_mines(2, 2, &vec![0]).unwrap();
    // Flag a safe tile instead of the mine and expose the rest.
    assert!(board.flag(1, 1).unwrap());
    board.expose((0, 1)).unwrap();
    board.expose((1, 0)).unwrap();
    assert!(!board.has_won());
    assert!(!brute_force_won(&board));
}

#[test]
fn expose_all_reveals_everything_but_flagged_safe_tiles() {
    let mut board = Board::with_mines(3, 3, &vec![0, 4]).unwrap();
    assert!(board.flag(0, 0).unwrap());
    assert!(board.flag(2, 2).unwrap());
    board.expose_all().unwrap();
    for r in 0..3 {
        for c in 0..3 {
            let t = board.tile(r, c).unwrap();
            if (r, c) == (2, 2) {
                // A flagged safe tile stays hidden behind its flag.
                assert!(!t.exposed);
            } else {
                // Every other tile is revealed, the flagged mine included.
                assert!(t.exposed, "tile ({r}, {c})");
            }
        }
    }
}

#[test]
fn available_flags_across_a_random_sequence() {
    let rows = 4;
    let columns = 4;
    let mine_total = 5;
    let mut board = Board::with_mines(4, 4, &vec![0, 3, 7, 9, 15]).unwrap();
    assert_eq!(board.available_flags(), mine_total);
    // A fixed linear congruential sequence stands in for user input.
    let mut state: u64 = 12345;
    let mut flagged = 0usize;
    for _ in 0..200 {
        state = state.wrapping_mul(6364136223846793005).wrapping_add(1442695040888963407);
        let idx = (state >> 33) as usize % (rows * columns);
        let (r, c) = (idx / columns, idx % columns);
        let before = board.tile(r, c).unwrap().flagged;
        let after = board.flag(r, c).unwrap();
        if before {
            assert!(!after);
            flagged -= 1;
        } else if flagged < mine_total {
            assert!(after);
            flagged += 1;
        } else {
            assert!(!after);
        }
        assert_eq!(board.available_flags(), mine_total - flagged);
    }
}
