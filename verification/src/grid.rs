//! Coordinate mapping and the adjacency resolver.
//!
//! A board position is a `(row, column)` pair; tiles are stored in row-major
//! order, so the linear index of a position is `row * columns + column`. The
//! adjacency resolver computes the Moore neighborhood of a position: the up
//! to eight surrounding positions, clipped to the grid bounds.

use vstd::prelude::*;
use vstd::arithmetic::div_mod::{
    lemma_div_pos_is_pos, lemma_fundamental_div_mod, lemma_fundamental_div_mod_converse,
    lemma_mod_bound,
};
use vstd::arithmetic::mul::lemma_mul_is_commutative;
use vstd::seq_lib::group_seq_properties;
use vstd::set_lib::lemma_len_subset;

verus! {

/// Row-major linear index of the position `(row, column)`.
pub open spec fn spec_index_of(row: int, column: int, columns: int) -> int {
    row * columns + column
}

/// Row of a linear index.
pub open spec fn spec_row_of(index: int, columns: int) -> int {
    index / columns
}

/// Column of a linear index.
pub open spec fn spec_column_of(index: int, columns: int) -> int {
    index % columns
}

/// The index-to-coordinate mappings are exact inverses for every in-range
/// coordinate.
pub proof fn lemma_coord_index_inverse(row: int, column: int, columns: int)
    requires
        0 <= row,
        0 <= column < columns,
    ensures
        spec_row_of(spec_index_of(row, column, columns), columns) == row,
        spec_column_of(spec_index_of(row, column, columns), columns) == column,
{
    lemma_fundamental_div_mod_converse(row * columns + column, columns, row, column);
}

/// Every nonnegative index is the index of its own coordinate pair.
pub proof fn lemma_index_coord_inverse(index: int, columns: int)
    requires
        0 <= index,
        1 <= columns,
    ensures
        spec_index_of(spec_row_of(index, columns), spec_column_of(index, columns), columns)
            == index,
        0 <= spec_row_of(index, columns),
        0 <= spec_column_of(index, columns) < columns,
{
    lemma_fundamental_div_mod(index, columns);
    lemma_div_pos_is_pos(index, columns);
    lemma_mod_bound(index, columns);
    lemma_mul_is_commutative(columns, index / columns);
}

/// Two distinct positions at Chebyshev distance at most one: the Moore
/// neighborhood relation on coordinates.
pub open spec fn coords_adjacent(r1: int, c1: int, r2: int, c2: int) -> bool {
    &&& !(r1 == r2 && c1 == c2)
    &&& -1 <= r1 - r2 <= 1
    &&& -1 <= c1 - c2 <= 1
}

/// Adjacency of two linear indices on a `rows` by `columns` grid.
pub open spec fn is_adjacent(rows: int, columns: int, i: int, j: int) -> bool {
    &&& 0 <= i < rows * columns
    &&& 0 <= j < rows * columns
    &&& coords_adjacent(
        spec_row_of(i, columns),
        spec_column_of(i, columns),
        spec_row_of(j, columns),
        spec_column_of(j, columns),
    )
}

/// The set of linear indices adjacent to `i`.
pub open spec fn adjacent_set(rows: int, columns: int, i: int) -> Set<int> {
    Set::new(|j: int| is_adjacent(rows, columns, i, j))
}

/// A duplicate-free sequence of neighbors of one tile has at most eight
/// entries: a neighbor is determined by its row and column offset, and there
/// are only eight offsets.
pub proof fn lemma_at_most_eight_neighbors(rows: int, columns: int, i: int, s: Seq<usize>)
    requires
        1 <= columns,
        s.no_duplicates(),
        forall|k: int|
            0 <= k < s.len() ==> is_adjacent(rows, columns, i, #[trigger] s[k] as int),
    ensures
        s.len() <= 8,
{
    let r = spec_row_of(i, columns);
    let c = spec_column_of(i, columns);
    let t = s.map_values(|u: usize| u as int);
    assert(t.no_duplicates()) by {
        assert forall|k1: int, k2: int|
            0 <= k1 < t.len() && 0 <= k2 < t.len() && k1 != k2 implies t[k1] != t[k2] by {
            assert(s[k1] != s[k2]);
        }
    }
    t.unique_seq_to_set();
    let cand: Set<int> = set![
        spec_index_of(r - 1, c - 1, columns),
        spec_index_of(r - 1, c, columns),
        spec_index_of(r - 1, c + 1, columns),
        spec_index_of(r, c - 1, columns),
        spec_index_of(r, c + 1, columns),
        spec_index_of(r + 1, c - 1, columns),
        spec_index_of(r + 1, c, columns),
        spec_index_of(r + 1, c + 1, columns),
    ];
    assert forall|x: int| t.to_set().contains(x) implies cand.contains(x) by {
        let k = choose|k: int| 0 <= k < t.len() && t[k] == x;
        assert(is_adjacent(rows, columns, i, x));
        lemma_fundamental_div_mod(x, columns);
        let rx = spec_row_of(x, columns);
        let cx = spec_column_of(x, columns);
        assert(x == spec_index_of(rx, cx, columns));
    }
    lemma_len_subset(t.to_set(), cand);
    assert(t.len() == s.len());
}

/// A one-step move of a coordinate along one axis, the unit of neighborhood
/// enumeration: down one, up one (stopping at zero), or in place.
#[derive(Debug, Clone, Copy, PartialEq, Eq)]
pub enum Increment {
    One,
    NegOne,
    Zero,
}

impl Increment {
    /// Applies the offset to `value`. Moving up from zero stays at zero, so
    /// an out-of-grid result on that side never appears; the caller rejects
    /// the unmoved value instead because it collides with the origin.
    pub fn offset(&self, value: usize) -> (r: usize)
        requires
            *self is One ==> value < usize::MAX,
        ensures
            *self is One ==> r == value + 1,
            *self is NegOne ==> r == if value > 0 { value - 1 } else { 0 },
            *self is Zero ==> r == value,
    {
        match *self {
            Self::One => value + 1,
            Self::NegOne => if value > 0 { value - 1 } else { 0 },
            Self::Zero => value,
        }
    }
}

/// Linear index of a coordinate, without bounds checking: the caller
/// guarantees that the coordinate lies in a grid with `columns` columns and
/// that the index fits the machine word.
pub fn index_from_coord(coordinate: (usize, usize), columns: usize) -> (index: usize)
    requires
        coordinate.0 * columns + coordinate.1 <= usize::MAX,
    ensures
        index == spec_index_of(coordinate.0 as int, coordinate.1 as int, columns as int),
{
    coordinate.0 * columns + coordinate.1
}

/// Coordinate of a linear index in a grid with `columns` columns.
pub fn coord_from_index(index: usize, columns: usize) -> (coordinate: (usize, usize))
    requires
        columns > 0,
    ensures
        coordinate.0 == spec_row_of(index as int, columns as int),
        coordinate.1 == spec_column_of(index as int, columns as int),
{
    (index / columns, index % columns)
}

/// The neighbor indices of `coordinate` on a `rows` by `columns` grid, in
/// increasing order: exactly the in-bounds Moore neighborhood, so at most
/// eight entries.
pub fn adjacent(coordinate: (usize, usize), rows: usize, columns: usize) -> (neighbors: Vec<
    usize,
>)
    requires
        coordinate.0 < rows,
        coordinate.1 < columns,
        rows * columns <= usize::MAX,
    ensures
        neighbors@.no_duplicates(),
        neighbors@.len() <= 8,
        forall|k1: int, k2: int|
            0 <= k1 < k2 < neighbors@.len() ==> neighbors@[k1] < neighbors@[k2],
        forall|k: int|
            0 <= k < neighbors@.len() ==> is_adjacent(
                rows as int,
                columns as int,
                spec_index_of(coordinate.0 as int, coordinate.1 as int, columns as int),
                #[trigger] neighbors@[k] as int,
            ),
        forall|j: int|
            is_adjacent(
                rows as int,
                columns as int,
                spec_index_of(coordinate.0 as int, coordinate.1 as int, columns as int),
                j,
            ) ==> neighbors@.contains(j as usize),
{
    broadcast use group_seq_properties;

    let (row, column) = coordinate;
    let ghost idx = spec_index_of(row as int, column as int, columns as int);
    proof {
        lemma_coord_index_inverse(row as int, column as int, columns as int);
        let r = row as int;
        let c = column as int;
        let rs = rows as int;
        let cs = columns as int;
        assert(r * cs + c < rs * cs) by (nonlinear_arith)
            requires
                r < rs,
                c < cs,
                0 <= r,
                0 <= c,
        ;
    }
    let n = rows * columns;
    let mut neighbors: Vec<usize> = Vec::new();
    let mut j: usize = 0;
    while j < n
        invariant
            n == rows as int * columns as int,
            coordinate.0 < rows,
            coordinate.1 < columns,
            j <= n,
            idx == spec_index_of(coordinate.0 as int, coordinate.1 as int, columns as int),
            0 <= idx < n,
            spec_row_of(idx, columns as int) == coordinate.0 as int,
            spec_column_of(idx, columns as int) == coordinate.1 as int,
            row == coordinate.0,
            column == coordinate.1,
            forall|k1: int, k2: int|
                0 <= k1 < k2 < neighbors@.len() ==> neighbors@[k1] < neighbors@[k2],
            forall|k: int|
                0 <= k < neighbors@.len() ==> is_adjacent(
                    rows as int,
                    columns as int,
                    idx,
                    #[trigger] neighbors@[k] as int,
                ) && neighbors@[k] < j,
            forall|j2: int|
                0 <= j2 < j && is_adjacent(rows as int, columns as int, idx, j2)
                    ==> neighbors@.contains(j2 as usize),
        decreases n - j,
    {
        let ghost pre = neighbors@;
        let rj = j / columns;
        let cj = j % columns;
        let dr_ok = if rj >= row {
            rj - row <= 1
        } else {
            row - rj <= 1
        };
        let dc_ok = if cj >= column {
            cj - column <= 1
        } else {
            column - cj <= 1
        };
        let adj = dr_ok && dc_ok && !(rj == row && cj == column);
        proof {
            lemma_index_coord_inverse(j as int, columns as int);
            assert(adj == is_adjacent(rows as int, columns as int, idx, j as int));
        }
        if adj {
            neighbors.push(j);
        }
        proof {
            let post = neighbors@;
            assert forall|j2: int|
                0 <= j2 < j + 1 && is_adjacent(rows as int, columns as int, idx, j2)
                implies post.contains(j2 as usize) by {
                if j2 == j as int {
                    assert(post[post.len() - 1] == j);
                } else {
                    assert(pre.contains(j2 as usize));
                    let k = choose|k: int| 0 <= k < pre.len() && pre[k] == j2 as usize;
                    assert(post[k] == j2 as usize);
                }
            }
        }
        j += 1;
    }
    proof {
        assert(neighbors@.no_duplicates()) by {
            assert forall|k1: int, k2: int|
                0 <= k1 < neighbors@.len() && 0 <= k2 < neighbors@.len() && k1 != k2
                implies neighbors@[k1] != neighbors@[k2] by {
                if k1 < k2 {
                    assert(neighbors@[k1] < neighbors@[k2]);
                } else {
                    assert(neighbors@[k2] < neighbors@[k1]);
                }
            }
        }
        lemma_at_most_eight_neighbors(rows as int, columns as int, idx, neighbors@);
    }
    neighbors
}

} // verus!
