use minesweep::grid::{adjacent, coord_from_index, index_from_coord, Increment};

#[test]
fn index_and_coord_are_inverses() {
    let columns = 7;
    for row in 0..5 {
        for col in 0..columns {
            let idx = index_from_coord((row, col), columns);
            assert_eq!(idx, row * columns + col);
            assert_eq!(coord_from_index(idx, columns), (row, col));
        }
    }
}

#[test]
fn coord_of_index_is_row_major() {
    assert_eq!(coord_from_index(0, 3), (0, 0));
    assert_eq!(coord_from_index(2, 3), (0, 2));
    assert_eq!(coord_from_index(3, 3), (1, 0));
    assert_eq!(coord_from_index(11, 3), (3, 2));
}

#[test]
fn increment_offsets() {
    assert_eq!(Increment::One.offset(4), 5);
    assert_eq!(Increment::NegOne.offset(4), 3);
    assert_eq!(Increment::NegOne.offset(0), 0);
    assert_eq!(Increment::Zero.offset(4), 4);
}

#[test]
fn adjacent_center_of_3x3() {
    let mut n = adjacent((1, 1), 3, 3);
    n.sort();
    assert_eq!(n, vec![0, 1, 2, 3, 5, 6, 7, 8]);
}

#[test]
fn adjacent_corner_of_3x3() {
    let mut n = adjacent((0, 0), 3, 3);
    n.sort();
    assert_eq!(n, vec![1, 3, 4]);
}

#[test]
fn adjacent_edge_of_3x3() {
    let mut n = adjacent((0, 1), 3, 3);
    n.sort();
    assert_eq!(n, vec![0, 2, 3, 4, 5]);
}

#[test]
fn adjacent_single_tile_board() {
    let n = adjacent((0, 0), 1, 1);
    assert!(n.is_empty());
}

#[test]
fn adjacent_single_row() {
    let mut n = adjacent((0, 2), 1, 5);
    n.sort();
    assert_eq!(n, vec![1, 3]);
}

#[test]
fn adjacent_matches_brute_force() {
    let rows = 6;
    let columns = 4;
    for row in 0..rows {
        for col in 0..columns {
            let mut got = adjacent((row, col), rows, columns);
            got.sort();
            let mut want = Vec::new();
            for r2 in 0..rows {
                for c2 in 0..columns {
                    let dr = (r2 as i64 - row as i64).abs();
                    let dc = (c2 as i64 - col as i64).abs();
                    if (dr, dc) != (0, 0) && dr <= 1 && dc <= 1 {
                        want.push(r2 * columns + c2);
                    }
                }
            }
            assert_eq!(got, want);
        }
    }
}
