//! The board engine: construction, exposure, flagging, and the win check.
//!
//! A board owns a row-major vector of tiles. Construction samples the mine
//! positions, then precomputes every tile's neighbor set and adjacent-mine
//! count once; after that the only mutation goes through `expose` and
//! `flag`, which maintain the counters that make the win check constant
//! time.

use vstd::prelude::*;
use vstd::set_lib::{lemma_int_range, lemma_len_subset, set_int_range};
use crate::bits::{
    bits_of, bitset_contains, bitset_elements, bitset_insert, bitset_len, bitset_new,
};
use crate::error::Error;
use crate::grid::{
    adjacent, adjacent_set, coord_from_index, is_adjacent, lemma_coord_index_inverse,
    lemma_index_coord_inverse, spec_index_of,
};
use crate::model::{
    all_mines_flagged, all_safe_exposed, board_wf, correct_flag_set, exposed_safe_set,
    flagged_set, lemma_closed_set_covers_reachable, lemma_counter_bounds,
    lemma_reaches_self, lemma_reaches_step, lemma_static_preserved, lemma_win_condition,
    mine_neighbor_set, mines_set, reaches, spec_flag_model, tile_static_eq, BoardModel,
    TileModel,
};
use crate::rng::{fresh_rng, sample_indices};

verus! {

/// A position on the board, as `(row, column)`.
pub type Coordinate = (usize, usize);

/// One cell of the grid, with its precomputed neighbor index set.
#[derive(Debug)]
pub struct Tile {
    pub(crate) adjacent_tiles: bit_set::BitSet,
    pub mine: bool,
    pub exposed: bool,
    pub flagged: bool,
    pub adjacent_mines: u8,
}

impl View for Tile {
    type V = TileModel;

    closed spec fn view(&self) -> TileModel {
        TileModel {
            mine: self.mine,
            exposed: self.exposed,
            flagged: self.flagged,
            adjacent_mines: self.adjacent_mines as int,
            neighbors: bits_of(self.adjacent_tiles),
        }
    }
}

/// The board: all tiles, the mine total, and the running counters.
#[derive(Debug)]
pub struct Board {
    tiles: Vec<Tile>,
    /// Number of rows on the board.
    pub rows: usize,
    /// Number of columns on the board.
    pub columns: usize,
    mines: usize,
    flagged_cells: usize,
    correctly_flagged_mines: usize,
    seen: bit_set::BitSet,
}

impl View for Board {
    type V = BoardModel;

    closed spec fn view(&self) -> BoardModel {
        BoardModel {
            rows: self.rows as int,
            columns: self.columns as int,
            mine_total: self.mines as int,
            flagged_cells: self.flagged_cells as int,
            correctly_flagged: self.correctly_flagged_mines as int,
            tiles: self.tiles@.map_values(|t: Tile| t@),
        }
    }
}

/// The set of values of a sequence of indices.
pub open spec fn int_set_of(s: Seq<usize>) -> Set<int> {
    s.map_values(|u: usize| u as int).to_set()
}

proof fn lemma_int_set_of_contains(s: Seq<usize>, v: int)
    ensures
        int_set_of(s).contains(v) <==> exists|k: int| 0 <= k < s.len() && s[k] as int == v,
{
    let t = s.map_values(|u: usize| u as int);
    if int_set_of(s).contains(v) {
        assert(t.contains(v));
        let k = choose|k: int| 0 <= k < t.len() && t[k] == v;
        assert(s[k] as int == v);
    }
    if exists|k: int| 0 <= k < s.len() && s[k] as int == v {
        let k = choose|k: int| 0 <= k < s.len() && s[k] as int == v;
        assert(t[k] == v);
        assert(t.contains(v));
    }
}

/// Acceptable grid dimensions: at least one row and column, and a tile
/// count that fits the machine word.
pub open spec fn valid_dimensions(rows: usize, columns: usize) -> bool {
    &&& 1 <= rows
    &&& 1 <= columns
    &&& rows * columns <= usize::MAX
}

/// An acceptable explicit mine placement: distinct in-range indices.
pub open spec fn valid_mine_list(rows: usize, columns: usize, mines: Seq<usize>) -> bool {
    &&& mines.no_duplicates()
    &&& forall|k: int| 0 <= k < mines.len() ==> (#[trigger] mines[k]) < rows * columns
}

/// The tile a freshly constructed board holds at index `i`, given the
/// sampled mine set `s`.
spec fn initial_tile_model(rows: int, columns: int, s: Set<int>, i: int) -> TileModel {
    TileModel {
        mine: s.contains(i),
        exposed: false,
        flagged: false,
        adjacent_mines: sample_neighbor_set(rows, columns, s, i).len() as int,
        neighbors: adjacent_set(rows, columns, i),
    }
}

/// The neighbors of `i` that lie in the sampled mine set `s`.
spec fn sample_neighbor_set(rows: int, columns: int, s: Set<int>, i: int) -> Set<int> {
    Set::new(|j: int| is_adjacent(rows, columns, i, j) && s.contains(j))
}

impl Board {
    /// The board's internal invariant: its model is well formed and the
    /// exposed-tile set mirrors the exposed safe tiles exactly.
    pub closed spec fn inv(self) -> bool {
        &&& board_wf(self@)
        &&& bits_of(self.seen) == exposed_safe_set(self@)
        &&& bits_of(self.seen).finite()
    }

    /// Builds a board with an explicit mine placement: the engine used by
    /// random construction, and the deterministic way to set up a known
    /// board. Rejects impossible dimensions and any duplicate or
    /// out-of-range mine index.
    pub fn with_mines(rows: usize, columns: usize, mine_indices: &Vec<usize>) -> (r: Result<
        Board,
        Error,
    >)
        ensures
            match r {
                Ok(b) => {
                    &&& b.inv()
                    &&& board_wf(b@)
                    &&& valid_dimensions(rows, columns)
                    &&& valid_mine_list(rows, columns, mine_indices@)
                    &&& b@.rows == rows
                    &&& b@.columns == columns
                    &&& b@.mine_total == mine_indices@.len()
                    &&& b@.flagged_cells == 0
                    &&& b@.correctly_flagged == 0
                    &&& b@.tiles.len() == rows * columns
                    &&& forall|i: int|
                        0 <= i < b@.tiles.len() ==> !(#[trigger] b@.tiles[i]).exposed
                            && !b@.tiles[i].flagged
                    &&& forall|i: int|
                        0 <= i < b@.tiles.len() ==> ((#[trigger] b@.tiles[i]).mine
                            <==> mine_indices@.contains(i as usize))
                },
                Err(e) => {
                    &&& e == Error::InvalidConfig
                    &&& !(valid_dimensions(rows, columns) && valid_mine_list(
                        rows,
                        columns,
                        mine_indices@,
                    ))
                },
            },
    {
        if rows == 0 || columns == 0 {
            return Err(Error::InvalidConfig);
        }
        let n = match rows.checked_mul(columns) {
            Some(n) => n,
            None => {
                return Err(Error::InvalidConfig);
            },
        };

        // Collect the mine indices into a bit set, rejecting duplicates and
        // out-of-range entries.
        let mut samples = bitset_new();
        let mut k: usize = 0;
        while k < mine_indices.len()
            invariant
                k <= mine_indices@.len(),
                n == rows * columns,
                bits_of(samples) == int_set_of(mine_indices@.take(k as int)),
                bits_of(samples).finite(),
                mine_indices@.take(k as int).no_duplicates(),
                forall|t: int| 0 <= t < k ==> (#[trigger] mine_indices@[t]) < n,
            decreases mine_indices@.len() - k,
        {
            let v = mine_indices[k];
            if v >= n {
                return Err(Error::InvalidConfig);
            }
            let was_new = bitset_insert(&mut samples, v);
            proof {
                lemma_int_set_of_contains(mine_indices@.take(k as int), v as int);
            }
            if !was_new {
                proof {
                    let t = choose|t: int|
                        0 <= t < k && mine_indices@.take(k as int)[t] as int == v as int;
                    assert(mine_indices@[t] == mine_indices@[k as int]);
                }
                return Err(Error::InvalidConfig);
            }
            proof {
                let pre = mine_indices@.take(k as int);
                let post = mine_indices@.take(k as int + 1);
                assert(post.drop_last() =~= pre);
                assert(post[post.len() - 1] == mine_indices@[k as int]);
                assert forall|x: int| int_set_of(post).contains(x) implies int_set_of(
                    pre,
                ).insert(v as int).contains(x) by {
                    lemma_int_set_of_contains(post, x);
                    let t = choose|t: int| 0 <= t < post.len() && post[t] as int == x;
                    if t < k {
                        lemma_int_set_of_contains(pre, x);
                    }
                }
                assert forall|x: int| int_set_of(pre).insert(v as int).contains(x)
                    implies int_set_of(post).contains(x) by {
                    lemma_int_set_of_contains(post, x);
                    if x == v as int {
                        assert(post[post.len() - 1] as int == x);
                    } else {
                        lemma_int_set_of_contains(pre, x);
                        let t = choose|t: int| 0 <= t < pre.len() && pre[t] as int == x;
                        assert(post[t] as int == x);
                    }
                }
                assert(int_set_of(post) =~= int_set_of(pre).insert(v as int));
                assert forall|t1: int, t2: int| 0 <= t1 < t2 < post.len() implies post[t1]
                    != post[t2] by {
                    if t2 < k {
                        assert(pre[t1] == post[t1] && pre[t2] == post[t2]);
                    } else {
                        assert(post[t2] == mine_indices@[k as int]);
                        assert(pre[t1] == post[t1]);
                        lemma_int_set_of_contains(pre, post[t1] as int);
                    }
                }
                assert(post.no_duplicates());
            }
            k += 1;
        }
        proof {
            assert(mine_indices@.take(mine_indices@.len() as int) =~= mine_indices@);
        }
        let ghost sample_set = bits_of(samples);

        // Build every tile: ask the adjacency resolver for its neighbors,
        // count the sampled mines among them, and cache both.
        let mut tiles: Vec<Tile> = Vec::new();
        let mut i: usize = 0;
        while i < n
            invariant
                i <= n,
                n == rows * columns,
                n <= usize::MAX,
                1 <= rows,
                1 <= columns,
                bits_of(samples) == sample_set,
                bits_of(samples).finite(),
                forall|x: int| sample_set.contains(x) ==> 0 <= x < n,
                tiles@.len() == i,
                forall|i2: int|
                    0 <= i2 < i ==> (#[trigger] tiles@[i2])@ == initial_tile_model(
                        rows as int,
                        columns as int,
                        sample_set,
                        i2,
                    ),
                forall|i2: int| 0 <= i2 < i ==> (#[trigger] tiles@[i2])@.adjacent_mines <= 8,
            decreases n - i,
        {
            proof {
                lemma_index_coord_inverse(i as int, columns as int);
                vstd::arithmetic::mul::lemma_mul_is_commutative(rows as int, columns as int);
                vstd::arithmetic::div_mod::lemma_multiply_divide_lt(
                    i as int,
                    columns as int,
                    rows as int,
                );
            }
            let coordinate = coord_from_index(i, columns);
            let nbrs = adjacent(coordinate, rows, columns);
            proof {
                lemma_coord_index_inverse(coordinate.0 as int, coordinate.1 as int, columns as int);
                assert(spec_index_of(coordinate.0 as int, coordinate.1 as int, columns as int)
                    == i as int);
            }

            // Count the sampled mines among the neighbors.
            let mut count: usize = 0;
            let ghost mut partial: Set<int> = Set::empty();
            let mut t: usize = 0;
            while t < nbrs.len()
                invariant
                    t <= nbrs@.len(),
                    nbrs@.len() <= 8,
                    count <= t,
                    bits_of(samples) == sample_set,
                    count == partial.len(),
                    partial.finite(),
                    forall|j: int| partial.contains(j) ==> exists|t2: int|
                        0 <= t2 < t && nbrs@[t2] as int == j,
                    forall|t2: int|
                        0 <= t2 < t && sample_set.contains(nbrs@[t2] as int) ==> partial.contains(
                            #[trigger] nbrs@[t2] as int,
                        ),
                    forall|j: int| partial.contains(j) ==> sample_set.contains(j),
                    nbrs@.no_duplicates(),
                decreases nbrs@.len() - t,
            {
                if bitset_contains(&samples, nbrs[t]) {
                    proof {
                        if partial.contains(nbrs@[t as int] as int) {
                            let t2 = choose|t2: int|
                                0 <= t2 < t && nbrs@[t2] as int == nbrs@[t as int] as int;
                            assert(nbrs@[t2] == nbrs@[t as int]);
                            assert(false);
                        }
                        partial = partial.insert(nbrs@[t as int] as int);
                    }
                    count += 1;
                }
                t += 1;
            }
            proof {
                assert(partial =~= sample_neighbor_set(
                    rows as int,
                    columns as int,
                    sample_set,
                    i as int,
                )) by {
                    assert forall|j: int| partial.contains(j) implies sample_neighbor_set(
                        rows as int,
                        columns as int,
                        sample_set,
                        i as int,
                    ).contains(j) by {
                        let t2 = choose|t2: int| 0 <= t2 < nbrs@.len() && nbrs@[t2] as int == j;
                        assert(is_adjacent(rows as int, columns as int, i as int, nbrs@[t2] as int));
                    }
                    assert forall|j: int| sample_neighbor_set(
                        rows as int,
                        columns as int,
                        sample_set,
                        i as int,
                    ).contains(j) implies partial.contains(j) by {
                        assert(is_adjacent(rows as int, columns as int, i as int, j));
                        assert(nbrs@.contains(j as usize));
                        let t2 = choose|t2: int| 0 <= t2 < nbrs@.len() && nbrs@[t2] == j as usize;
                        assert(sample_set.contains(nbrs@[t2] as int));
                    }
                }
                assert(count <= 8);
            }

            // Cache the neighbor set as a bit set.
            let mut adjacent_tiles = bitset_new();
            let mut t2: usize = 0;
            while t2 < nbrs.len()
                invariant
                    t2 <= nbrs@.len(),
                    forall|j: int| bits_of(adjacent_tiles).contains(j) ==> exists|t3: int|
                        0 <= t3 < t2 && nbrs@[t3] as int == j,
                    forall|t3: int|
                        0 <= t3 < t2 ==> bits_of(adjacent_tiles).contains(
                            #[trigger] nbrs@[t3] as int,
                        ),
                decreases nbrs@.len() - t2,
            {
                let _ = bitset_insert(&mut adjacent_tiles, nbrs[t2]);
                t2 += 1;
            }
            proof {
                assert(bits_of(adjacent_tiles) =~= adjacent_set(
                    rows as int,
                    columns as int,
                    i as int,
                )) by {
                    assert forall|j: int| bits_of(adjacent_tiles).contains(j)
                        implies adjacent_set(rows as int, columns as int, i as int).contains(
                        j,
                    ) by {
                        let t3 = choose|t3: int| 0 <= t3 < nbrs@.len() && nbrs@[t3] as int == j;
                        assert(is_adjacent(rows as int, columns as int, i as int, nbrs@[t3] as int));
                    }
                    assert forall|j: int| adjacent_set(rows as int, columns as int, i as int)
                        .contains(j) implies bits_of(adjacent_tiles).contains(j) by {
                        assert(is_adjacent(rows as int, columns as int, i as int, j));
                        assert(nbrs@.contains(j as usize));
                        let t3 = choose|t3: int| 0 <= t3 < nbrs@.len() && nbrs@[t3] == j as usize;
                        assert(nbrs@[t3] as int == j);
                    }
                }
            }

            let mine = bitset_contains(&samples, i);
            let tile = Tile {
                adjacent_tiles,
                mine,
                exposed: false,
                flagged: false,
                adjacent_mines: count as u8,
            };
            proof {
                assert(tile@ == initial_tile_model(
                    rows as int,
                    columns as int,
                    sample_set,
                    i as int,
                ));
            }
            tiles.push(tile);
            i += 1;
        }

        let board = Board {
            tiles,
            rows,
            columns,
            mines: mine_indices.len(),
            flagged_cells: 0,
            correctly_flagged_mines: 0,
            seen: bitset_new(),
        };
        proof {
            let m = board@;
            assert(m.tiles.len() == n);
            assert forall|i2: int| 0 <= i2 < n implies (#[trigger] m.tiles[i2])
                == initial_tile_model(rows as int, columns as int, sample_set, i2) by {
                assert(m.tiles[i2] == tiles@[i2]@);
            }

            // The sampled set is exactly the mine set of the model.
            assert(mines_set(m) =~= sample_set);
            let mapped = mine_indices@.map_values(|u: usize| u as int);
            assert(mapped.no_duplicates()) by {
                assert forall|t1: int, t2: int|
                    0 <= t1 < mapped.len() && 0 <= t2 < mapped.len() && t1 != t2
                    implies mapped[t1] != mapped[t2] by {
                    assert(mine_indices@[t1] != mine_indices@[t2]);
                }
            }
            mapped.unique_seq_to_set();
            assert(m.mine_total == mines_set(m).len());
            lemma_int_range(0, n as int);
            lemma_len_subset(mines_set(m), set_int_range(0, n as int));
            assert(m.mine_total <= m.tiles.len());

            assert(flagged_set(m) =~= Set::<int>::empty());
            assert(correct_flag_set(m) =~= Set::<int>::empty());
            assert(exposed_safe_set(m) =~= Set::<int>::empty());

            assert forall|i2: int| 0 <= i2 < m.tiles.len() implies (#[trigger] m.tiles[i2]).adjacent_mines
                == mine_neighbor_set(m, i2).len() by {
                assert(mine_neighbor_set(m, i2) =~= sample_neighbor_set(
                    rows as int,
                    columns as int,
                    sample_set,
                    i2,
                ));
            }
            assert(board_wf(m));
            assert(board.inv());
            assert forall|i2: int| 0 <= i2 < m.tiles.len() implies ((#[trigger] m.tiles[i2]).mine
                <==> mine_indices@.contains(i2 as usize)) by {
                lemma_int_set_of_contains(mine_indices@, i2);
                if sample_set.contains(i2) {
                    let t = choose|t: int|
                        0 <= t < mine_indices@.len() && mine_indices@[t] as int == i2;
                    assert(mine_indices@[t] == i2 as usize);
                }
                if mine_indices@.contains(i2 as usize) {
                    let t = choose|t: int|
                        0 <= t < mine_indices@.len() && mine_indices@[t] == i2 as usize;
                    assert(mine_indices@[t] as int == i2);
                }
            }
        }
        Ok(board)
    }

    /// Builds a board with `mines` mines drawn uniformly at random without
    /// replacement: exactly `mines` distinct tiles become mines. Rejects a
    /// mine count larger than the tile count, and impossible dimensions.
    pub fn new(rows: usize, columns: usize, mines: usize) -> (r: Result<Board, Error>)
        ensures
            match r {
                Ok(b) => {
                    &&& b.inv()
                    &&& board_wf(b@)
                    &&& b@.rows == rows
                    &&& b@.columns == columns
                    &&& b@.mine_total == mines
                    &&& b@.flagged_cells == 0
                    &&& b@.correctly_flagged == 0
                    &&& b@.tiles.len() == rows * columns
                    &&& mines_set(b@).len() == mines
                    &&& forall|i: int|
                        0 <= i < b@.tiles.len() ==> !(#[trigger] b@.tiles[i]).exposed
                            && !b@.tiles[i].flagged
                },
                Err(e) => {
                    &&& e == Error::InvalidConfig
                    &&& !(valid_dimensions(rows, columns) && mines <= rows * columns)
                },
            },
    {
        if rows == 0 || columns == 0 {
            return Err(Error::InvalidConfig);
        }
        let n = match rows.checked_mul(columns) {
            Some(n) => n,
            None => {
                return Err(Error::InvalidConfig);
            },
        };
        if mines > n {
            return Err(Error::InvalidConfig);
        }
        let mut rng = fresh_rng();
        let indices = sample_indices(&mut rng, n, mines);
        match Board::with_mines(rows, columns, &indices) {
            Ok(b) => Ok(b),
            Err(e) => {
                proof {
                    assert(valid_mine_list(rows, columns, indices@));
                    assert(false);
                }
                Err(e)
            },
        }
    }

    /// A shared view of the tile at `(i, j)`, for rendering.
    pub fn tile(&self, i: usize, j: usize) -> (r: Result<&Tile, Error>)
        requires
            self.inv(),
        ensures
            match r {
                Ok(t) => {
                    &&& i < self@.rows
                    &&& j < self@.columns
                    &&& t@ == self@.tiles[spec_index_of(i as int, j as int, self@.columns)]
                },
                Err(e) => {
                    &&& e == Error::GetTile((i, j))
                    &&& !(i < self@.rows && j < self@.columns)
                },
            },
    {
        if !(i < self.rows && j < self.columns) {
            return Err(Error::GetTile((i, j)));
        }
        proof {
            self.lemma_index_in_range(i as int, j as int);
        }
        let idx = i * self.columns + j;
        Ok(&self.tiles[idx])
    }

    /// How many flags remain in the budget: the mine total minus the
    /// currently flagged count. Never negative.
    pub fn available_flags(&self) -> (r: usize)
        requires
            self.inv(),
        ensures
            r == self@.mine_total - self@.flagged_cells,
    {
        self.mines - self.flagged_cells
    }

    /// Whether the game is won, in constant time from the cached counters:
    /// true exactly when every non-mine tile is exposed and every mine tile
    /// is flagged.
    pub fn has_won(&self) -> (r: bool)
        requires
            self.inv(),
        ensures
            r == (all_safe_exposed(self@) && all_mines_flagged(self@)),
    {
        proof {
            lemma_counter_bounds(self@);
            lemma_win_condition(self@);
        }
        let exposed = bitset_len(&self.seen);
        let total = self.rows * self.columns;
        exposed + self.correctly_flagged_mines == total
    }

    /// In-range coordinates give an in-range linear index.
    proof fn lemma_index_in_range(self, i: int, j: int)
        requires
            board_wf(self@),
            0 <= i < self@.rows,
            0 <= j < self@.columns,
        ensures
            0 <= spec_index_of(i, j, self@.columns) < self@.tiles.len(),
            i * self@.columns + j < self@.tiles.len(),
    {
        let rs = self@.rows;
        let cs = self@.columns;
        assert(i * cs + j < rs * cs) by (nonlinear_arith)
            requires
                0 <= i < rs,
                0 <= j < cs,
        ;
        assert(0 <= i * cs) by (nonlinear_arith)
            requires
                0 <= i,
                0 <= cs,
        ;
    }

    /// Toggles the flag on the tile at `(i, j)`, subject to the flag
    /// budget: unflagging is always accepted; flagging is accepted only
    /// while fewer than `mine_total` flags are placed and the tile is not
    /// exposed, and is otherwise a no-op. Returns the tile's flag state
    /// after the call, so a caller can tell an accepted toggle from a
    /// rejected one.
    pub fn flag(&mut self, i: usize, j: usize) -> (r: Result<bool, Error>)
        requires
            old(self).inv(),
        ensures
            final(self).inv(),
            board_wf(final(self)@),
            match r {
                Err(e) => {
                    &&& e == Error::GetTile((i, j))
                    &&& !(i < old(self)@.rows && j < old(self)@.columns)
                    &&& final(self)@ == old(self)@
                },
                Ok(state) => {
                    let idx = spec_index_of(i as int, j as int, old(self)@.columns);
                    &&& i < old(self)@.rows
                    &&& j < old(self)@.columns
                    &&& final(self)@ == spec_flag_model(old(self)@, idx)
                    &&& state == final(self)@.tiles[idx].flagged
                },
            },
    {
        if !(i < self.rows && j < self.columns) {
            return Err(Error::GetTile((i, j)));
        }
        let ghost m0 = self@;
        proof {
            self.lemma_index_in_range(i as int, j as int);
            lemma_counter_bounds(m0);
        }
        let idx = i * self.columns + j;
        let was_flagged = self.tiles[idx].flagged;
        let is_mine = self.tiles[idx].mine;
        let is_exposed = self.tiles[idx].exposed;
        if was_flagged {
            self.tiles[idx].flagged = false;
            proof {
                assert(flagged_set(m0).contains(idx as int));
            }
            self.flagged_cells = self.flagged_cells - 1;
            if is_mine {
                proof {
                    assert(correct_flag_set(m0).contains(idx as int));
                }
                self.correctly_flagged_mines = self.correctly_flagged_mines - 1;
            }
            proof {
                assert(self@.tiles =~= m0.tiles.update(
                    idx as int,
                    TileModel { flagged: false, ..m0.tiles[idx as int] },
                ));
                self.lemma_flag_step(m0, idx as int);
                assert(self@ =~= spec_flag_model(m0, idx as int));
            }
            Ok(false)
        } else if self.flagged_cells < self.mines && !is_exposed {
            self.tiles[idx].flagged = true;
            self.flagged_cells = self.flagged_cells + 1;
            if is_mine {
                self.correctly_flagged_mines = self.correctly_flagged_mines + 1;
            }
            proof {
                assert(self@.tiles =~= m0.tiles.update(
                    idx as int,
                    TileModel { flagged: true, ..m0.tiles[idx as int] },
                ));
                self.lemma_flag_step(m0, idx as int);
                assert(self@ =~= spec_flag_model(m0, idx as int));
            }
            Ok(true)
        } else {
            proof {
                assert(self@ =~= spec_flag_model(m0, idx as int));
            }
            Ok(was_flagged)
        }
    }

    /// Exposes the tile at `coordinate`. Exposing a mine exposes that tile
    /// alone and reports the hit: the losing move. Exposing any other tile
    /// starts the flood fill: every tile in the zero-spread region of the
    /// target (the target itself, and everything reachable from it through
    /// tiles with no adjacent mines, plus their immediate border) becomes
    /// exposed, except that a flagged tile is never auto-exposed. Nothing
    /// else changes: flags, counters and every tile outside the region stay
    /// as they were.
    pub fn expose(&mut self, coordinate: Coordinate) -> (r: Result<bool, Error>)
        requires
            old(self).inv(),
        ensures
            final(self).inv(),
            board_wf(final(self)@),
            match r {
                Err(e) => {
                    &&& e == Error::GetTile(coordinate)
                    &&& !(coordinate.0 < old(self)@.rows && coordinate.1 < old(self)@.columns)
                    &&& final(self)@ == old(self)@
                },
                Ok(hit) => {
                    let m0 = old(self)@;
                    let start = spec_index_of(
                        coordinate.0 as int,
                        coordinate.1 as int,
                        m0.columns,
                    );
                    &&& coordinate.0 < m0.rows
                    &&& coordinate.1 < m0.columns
                    &&& hit == m0.tiles[start].mine
                    &&& final(self)@.rows == m0.rows
                    &&& final(self)@.columns == m0.columns
                    &&& final(self)@.mine_total == m0.mine_total
                    &&& final(self)@.flagged_cells == m0.flagged_cells
                    &&& final(self)@.correctly_flagged == m0.correctly_flagged
                    &&& final(self)@.tiles.len() == m0.tiles.len()
                    &&& forall|k: int|
                        0 <= k < m0.tiles.len() ==> tile_static_eq(
                            #[trigger] m0.tiles[k],
                            final(self)@.tiles[k],
                        ) && final(self)@.tiles[k].flagged == m0.tiles[k].flagged
                    &&& if hit {
                        forall|k: int|
                            0 <= k < m0.tiles.len() ==> (#[trigger] final(self)@.tiles[k]).exposed
                                == (m0.tiles[k].exposed || k == start)
                    } else {
                        forall|k: int|
                            0 <= k < m0.tiles.len() ==> (#[trigger] final(self)@.tiles[k]).exposed
                                == (m0.tiles[k].exposed || (reaches(m0, start, k)
                                    && !m0.tiles[k].flagged && !m0.tiles[k].mine))
                    }
                },
            },
    {
        let (row, col) = coordinate;
        if !(row < self.rows && col < self.columns) {
            return Err(Error::GetTile(coordinate));
        }
        let ghost m0 = self@;
        proof {
            self.lemma_index_in_range(row as int, col as int);
        }
        let start = row * self.columns + col;
        let ghost sidx = start as int;

        if self.tiles[start].mine {
            self.tiles[start].exposed = true;
            proof {
                let m2 = self@;
                assert(m2.tiles =~= m0.tiles.update(
                    sidx,
                    TileModel { exposed: true, ..m0.tiles[sidx] },
                ));
                assert forall|k: int| 0 <= k < m0.tiles.len() implies tile_static_eq(
                    #[trigger] m0.tiles[k],
                    m2.tiles[k],
                ) && m2.tiles[k].flagged == m0.tiles[k].flagged by {}
                lemma_static_preserved(m0, m2);
                assert(flagged_set(m2) =~= flagged_set(m0));
                assert(correct_flag_set(m2) =~= correct_flag_set(m0));
                assert(exposed_safe_set(m2) =~= exposed_safe_set(m0));
                assert(board_wf(m2));
            }
            return Ok(true);
        }

        let n = self.tiles.len();
        let mut visited = bitset_new();
        let mut queue: std::collections::VecDeque<usize> = std::collections::VecDeque::new();
        queue.push_back(start);
        proof {
            lemma_reaches_self(m0, sidx);
            lemma_int_range(0, n as int);
            assert(queue@[0] == start);
        }
        while queue.len() > 0
            invariant
                board_wf(m0),
                n == m0.tiles.len(),
                0 <= sidx < n,
                start == sidx,
                !m0.tiles[sidx].mine,
                self@.rows == m0.rows,
                self@.columns == m0.columns,
                self@.mine_total == m0.mine_total,
                self@.flagged_cells == m0.flagged_cells,
                self@.correctly_flagged == m0.correctly_flagged,
                self@.tiles.len() == n,
                forall|k: int|
                    0 <= k < n ==> tile_static_eq(#[trigger] m0.tiles[k], self@.tiles[k])
                        && self@.tiles[k].flagged == m0.tiles[k].flagged,
                bits_of(visited).finite(),
                bits_of(visited).len() <= n,
                forall|x: int| bits_of(visited).contains(x) ==> 0 <= x < n,
                forall|x: int| bits_of(visited).contains(x) ==> reaches(m0, sidx, x),
                forall|t: int|
                    0 <= t < queue@.len() ==> (#[trigger] queue@[t]) < n && reaches(
                        m0,
                        sidx,
                        queue@[t] as int,
                    ),
                bits_of(visited).contains(sidx) || queue@.contains(start),
                forall|i: int, j: int|
                    #![trigger bits_of(visited).contains(i), is_adjacent(m0.rows, m0.columns, i, j)]
                    bits_of(visited).contains(i) && m0.tiles[i].adjacent_mines == 0
                        && is_adjacent(m0.rows, m0.columns, i, j) ==> bits_of(visited).contains(j)
                        || queue@.contains(j as usize),
                forall|k: int|
                    0 <= k < n ==> (#[trigger] self@.tiles[k]).exposed == (m0.tiles[k].exposed || (
                    bits_of(visited).contains(k) && !m0.tiles[k].flagged && !m0.tiles[k].mine)),
                bits_of(self.seen) == exposed_safe_set(self@),
                bits_of(self.seen).finite(),
            decreases n - bits_of(visited).len(), queue@.len(),
        {
            let ghost q_pre = queue@;
            let cur = queue.pop_front().unwrap();
            let ghost q_mid = queue@;
            let ghost v_pre = bits_of(visited);
            let newly = bitset_insert(&mut visited, cur);
            let ghost vset = bits_of(visited);
            proof {
                lemma_int_range(0, n as int);
                if newly {
                    assert(vset =~= v_pre.insert(cur as int));
                    assert forall|x: int| vset.contains(x) implies 0 <= x < n by {
                        if x != cur as int {
                            assert(v_pre.contains(x));
                        }
                    }
                    assert(vset.subset_of(set_int_range(0, n as int)));
                    lemma_len_subset(vset, set_int_range(0, n as int));
                } else {
                    assert(vset =~= v_pre);
                }
                if !vset.contains(sidx) {
                    assert(q_pre.contains(start));
                    let t2 = choose|t2: int| 0 <= t2 < q_pre.len() && q_pre[t2] == start;
                    if t2 == 0 {
                        assert(cur == start);
                        assert(vset.contains(cur as int));
                        assert(false);
                    } else {
                        assert(queue@[t2 - 1] == start);
                    }
                }
            }
            if newly {
                let is_mine = self.tiles[cur].mine;
                let is_flagged = self.tiles[cur].flagged;
                if !is_mine && !is_flagged {
                    let ghost m_pre = self@;
                    self.tiles[cur].exposed = true;
                    let _ = bitset_insert(&mut self.seen, cur);
                    proof {
                        assert(self@.tiles =~= m_pre.tiles.update(
                            cur as int,
                            TileModel { exposed: true, ..m_pre.tiles[cur as int] },
                        ));
                        assert(exposed_safe_set(self@) =~= exposed_safe_set(m_pre).insert(
                            cur as int,
                        ));
                        assert forall|k: int| 0 <= k < n implies tile_static_eq(
                            #[trigger] m0.tiles[k],
                            self@.tiles[k],
                        ) && self@.tiles[k].flagged == m0.tiles[k].flagged by {
                            assert(tile_static_eq(m0.tiles[k], m_pre.tiles[k]));
                        }
                    }
                }
                if self.tiles[cur].adjacent_mines == 0 {
                    let tref = &self.tiles[cur];
                    let nbrs = bitset_elements(&tref.adjacent_tiles);
                    proof {
                        assert(bits_of(tref.adjacent_tiles) == self@.tiles[cur as int].neighbors);
                        assert(self@.tiles[cur as int].neighbors == adjacent_set(
                            m0.rows,
                            m0.columns,
                            cur as int,
                        ));
                        assert forall|j: int|
                            is_adjacent(m0.rows, m0.columns, cur as int, j)
                            implies nbrs@.contains(j as usize) by {
                            assert(adjacent_set(m0.rows, m0.columns, cur as int).contains(j));
                            assert(bits_of(tref.adjacent_tiles).contains(j));
                        }
                        assert forall|k: int|
                            0 <= k < nbrs@.len() implies adjacent_set(
                            m0.rows,
                            m0.columns,
                            cur as int,
                        ).contains(#[trigger] nbrs@[k] as int) by {
                            assert(bits_of(tref.adjacent_tiles).contains(nbrs@[k] as int));
                        }
                        assert forall|i: int, j: int|
                            #![trigger vset.contains(i), is_adjacent(m0.rows, m0.columns, i, j)]
                            vset.contains(i) && i != cur as int && m0.tiles[i].adjacent_mines == 0
                                && is_adjacent(m0.rows, m0.columns, i, j)
                            implies vset.contains(j) || queue@.contains(j as usize) by {
                            assert(0 <= j < n);
                            assert(v_pre.contains(i));
                            if !v_pre.contains(j) {
                                assert(q_pre.contains(j as usize));
                                let t2 = choose|t2: int|
                                    0 <= t2 < q_pre.len() && q_pre[t2] == j as usize;
                                if t2 == 0 {
                                    assert(j as usize == cur);
                                    assert(j == cur as int);
                                } else {
                                    assert(queue@[t2 - 1] == j as usize);
                                }
                            }
                        }
                    }
                    let mut t: usize = 0;
                    while t < nbrs.len()
                        invariant
                            board_wf(m0),
                            n == m0.tiles.len(),
                            0 <= sidx < n,
                            start == sidx,
                            !m0.tiles[sidx].mine,
                            self@.rows == m0.rows,
                            self@.columns == m0.columns,
                            self@.mine_total == m0.mine_total,
                            self@.flagged_cells == m0.flagged_cells,
                            self@.correctly_flagged == m0.correctly_flagged,
                            self@.tiles.len() == n,
                            forall|k: int|
                                0 <= k < n ==> tile_static_eq(
                                    #[trigger] m0.tiles[k],
                                    self@.tiles[k],
                                ) && self@.tiles[k].flagged == m0.tiles[k].flagged,
                            bits_of(visited) == vset,
                            vset.finite(),
                            vset.len() <= n,
                            vset.contains(cur as int),
                            forall|x: int| vset.contains(x) ==> 0 <= x < n,
                            forall|x: int| vset.contains(x) ==> reaches(m0, sidx, x),
                            t <= nbrs@.len(),
                            cur < n,
                            m0.tiles[cur as int].adjacent_mines == 0,
                            reaches(m0, sidx, cur as int),
                            forall|k: int|
                                0 <= k < nbrs@.len() ==> adjacent_set(
                                    m0.rows,
                                    m0.columns,
                                    cur as int,
                                ).contains(#[trigger] nbrs@[k] as int),
                            forall|j: int|
                                is_adjacent(m0.rows, m0.columns, cur as int, j)
                                    ==> nbrs@.contains(j as usize),
                            queue@.len() >= q_mid.len(),
                            forall|t2: int|
                                0 <= t2 < q_mid.len() ==> (#[trigger] queue@[t2]) == q_mid[t2],
                            forall|t2: int|
                                0 <= t2 < queue@.len() ==> (#[trigger] queue@[t2]) < n && reaches(
                                    m0,
                                    sidx,
                                    queue@[t2] as int,
                                ),
                            vset.contains(sidx) || queue@.contains(start),
                            forall|i: int, j: int|
                                #![trigger vset.contains(i), is_adjacent(m0.rows, m0.columns, i, j)]
                                vset.contains(i) && i != cur as int && m0.tiles[i].adjacent_mines == 0 && is_adjacent(m0.rows, m0.columns, i, j)
                                    ==> vset.contains(j) || queue@.contains(j as usize),
                            forall|j: int|
                                is_adjacent(m0.rows, m0.columns, cur as int, j) ==> vset.contains(
                                    j,
                                ) || queue@.contains(j as usize) || exists|t3: int|
                                    t <= t3 < nbrs@.len() && nbrs@[t3] as int == j,
                            forall|k: int|
                                0 <= k < n ==> (#[trigger] self@.tiles[k]).exposed == (m0.tiles[k].exposed || (vset.contains(k) && !m0.tiles[k].flagged
                                    && !m0.tiles[k].mine)),
                            bits_of(self.seen) == exposed_safe_set(self@),
                            bits_of(self.seen).finite(),
                        decreases nbrs@.len() - t,
                    {
                        let nb = nbrs[t];
                        proof {
                            assert(adjacent_set(m0.rows, m0.columns, cur as int).contains(
                                nb as int,
                            ));
                            assert(is_adjacent(m0.rows, m0.columns, cur as int, nb as int));
                            assert(nb < n) by {
                                assert(m0.rows * m0.columns == n);
                            }
                            lemma_reaches_step(m0, sidx, cur as int, nb as int);
                        }
                        let ghost q_before = queue@;
                        queue.push_back(nb);
                        proof {
                            assert forall|j: int|
                                is_adjacent(m0.rows, m0.columns, cur as int, j)
                                    implies vset.contains(j) || queue@.contains(j as usize)
                                    || exists|t3: int|
                                    t + 1 <= t3 < nbrs@.len() && nbrs@[t3] as int == j by {
                                if !vset.contains(j) && !q_before.contains(j as usize) {
                                    let t3 = choose|t3: int|
                                        t <= t3 < nbrs@.len() && nbrs@[t3] as int == j;
                                    if t3 == t {
                                        assert(queue@[queue@.len() - 1] == j as usize);
                                    }
                                } else if q_before.contains(j as usize) {
                                    let t2 = choose|t2: int|
                                        0 <= t2 < q_before.len() && q_before[t2] == j as usize;
                                    assert(queue@[t2] == j as usize);
                                }
                            }
                            if vset.contains(sidx) || q_before.contains(start) {
                                if q_before.contains(start) {
                                    let t2 = choose|t2: int|
                                        0 <= t2 < q_before.len() && q_before[t2] == start;
                                    assert(queue@[t2] == start);
                                }
                            }
                            assert forall|i: int, j: int|
                                vset.contains(i) && i != cur as int && m0.tiles[i].adjacent_mines == 0 && is_adjacent(m0.rows, m0.columns, i, j)
                                    implies vset.contains(j) || queue@.contains(j as usize) by {
                                if !vset.contains(j) {
                                    assert(q_before.contains(j as usize));
                                    let t2 = choose|t2: int|
                                        0 <= t2 < q_before.len() && q_before[t2] == j as usize;
                                    assert(queue@[t2] == j as usize);
                                }
                            }
                        }
                        t += 1;
                    }
                    proof {
                        self.lemma_expose_closure_zero(
                            m0,
                            vset,
                            q_pre,
                            q_mid,
                            queue@,
                            v_pre,
                            cur as int,
                            n as int,
                        );
                    }
                } else {
                    proof {
                        self.lemma_expose_closure_plain(
                            m0,
                            vset,
                            q_pre,
                            q_mid,
                            queue@,
                            v_pre,
                            cur as int,
                            n as int,
                            true,
                        );
                    }
                }
            } else {
                proof {
                    self.lemma_expose_closure_plain(
                        m0,
                        vset,
                        q_pre,
                        q_mid,
                        queue@,
                        v_pre,
                        cur as int,
                        n as int,
                        false,
                    );
                }
            }
        }
        proof {
            let m2 = self@;
            let vset = bits_of(visited);
            assert forall|k: int| 0 <= k < n implies tile_static_eq(
                #[trigger] m0.tiles[k],
                m2.tiles[k],
            ) by {}
            lemma_static_preserved(m0, m2);
            assert(flagged_set(m2) =~= flagged_set(m0));
            assert(correct_flag_set(m2) =~= correct_flag_set(m0));
            assert(board_wf(m2));
            assert(vset.contains(sidx));
            assert forall|k: int| 0 <= k < n implies (#[trigger] m2.tiles[k]).exposed == (m0.tiles[k].exposed || (reaches(m0, sidx, k) && !m0.tiles[k].flagged && !m0.tiles[k].mine)) by {
                if reaches(m0, sidx, k) && !m0.tiles[k].flagged && !m0.tiles[k].mine {
                    lemma_closed_set_covers_reachable(m0, vset, sidx, k);
                }
            }
        }
        Ok(false)
    }

    /// Exposes every tile on the board, used once at the end of a game to
    /// reveal the full grid: afterwards every tile is exposed except the
    /// flagged non-mine tiles, which stay hidden behind their flags. Every
    /// coordinate it visits is in bounds, so it never fails.
    pub fn expose_all(&mut self) -> (r: Result<(), Error>)
        requires
            old(self).inv(),
        ensures
            final(self).inv(),
            board_wf(final(self)@),
            r is Ok,
            final(self)@.rows == old(self)@.rows,
            final(self)@.columns == old(self)@.columns,
            final(self)@.mine_total == old(self)@.mine_total,
            final(self)@.flagged_cells == old(self)@.flagged_cells,
            final(self)@.correctly_flagged == old(self)@.correctly_flagged,
            final(self)@.tiles.len() == old(self)@.tiles.len(),
            forall|k: int|
                0 <= k < old(self)@.tiles.len() ==> tile_static_eq(
                    #[trigger] old(self)@.tiles[k],
                    final(self)@.tiles[k],
                ) && final(self)@.tiles[k].flagged == old(self)@.tiles[k].flagged,
            forall|k: int|
                0 <= k < old(self)@.tiles.len() ==> (#[trigger] final(self)@.tiles[k]).exposed
                    == (old(self)@.tiles[k].exposed || old(self)@.tiles[k].mine || !old(
                    self,
                )@.tiles[k].flagged),
    {
        let ghost m0 = self@;
        let n = self.tiles.len();
        let columns = self.columns;
        let mut i: usize = 0;
        while i < n
            invariant
                self.inv(),
                board_wf(m0),
                i <= n,
                n == m0.tiles.len(),
                columns == m0.columns,
                n == m0.rows * m0.columns,
                self@.rows == m0.rows,
                self@.columns == m0.columns,
                self@.mine_total == m0.mine_total,
                self@.flagged_cells == m0.flagged_cells,
                self@.correctly_flagged == m0.correctly_flagged,
                self@.tiles.len() == n,
                forall|k: int|
                    0 <= k < n ==> tile_static_eq(#[trigger] m0.tiles[k], self@.tiles[k])
                        && self@.tiles[k].flagged == m0.tiles[k].flagged,
                forall|k: int|
                    0 <= k < n ==> (m0.tiles[k].exposed ==> (#[trigger] self@.tiles[k]).exposed),
                forall|k: int|
                    0 <= k < i ==> ((m0.tiles[k].mine || !m0.tiles[k].flagged) ==> (
                    #[trigger] self@.tiles[k]).exposed),
                forall|k: int|
                    0 <= k < n ==> ((#[trigger] self@.tiles[k]).exposed ==> (m0.tiles[k].exposed
                        || m0.tiles[k].mine || !m0.tiles[k].flagged)),
            decreases n - i,
        {
            proof {
                lemma_index_coord_inverse(i as int, columns as int);
                vstd::arithmetic::mul::lemma_mul_is_commutative(m0.rows, m0.columns);
                vstd::arithmetic::div_mod::lemma_multiply_divide_lt(
                    i as int,
                    columns as int,
                    m0.rows,
                );
            }
            let coordinate = coord_from_index(i, columns);
            let ghost m_pre = self@;
            let res = self.expose(coordinate);
            match res {
                Ok(hit) => {
                    proof {
                        if !m_pre.tiles[i as int].mine {
                            lemma_reaches_self(m_pre, i as int);
                        }
                        assert forall|k: int| 0 <= k < n implies tile_static_eq(
                            #[trigger] m0.tiles[k],
                            self@.tiles[k],
                        ) && self@.tiles[k].flagged == m0.tiles[k].flagged by {
                            assert(tile_static_eq(m0.tiles[k], m_pre.tiles[k]));
                            assert(tile_static_eq(m_pre.tiles[k], self@.tiles[k]));
                        }
                    }
                },
                Err(e) => {
                    proof {
                        assert(false);
                    }
                    return Err(e);
                },
            }
            i += 1;
        }
        Ok(())
    }

    /// Re-establishes the worklist closure invariant after a popped tile
    /// with no adjacent mines had all its neighbors enqueued.
    proof fn lemma_expose_closure_zero(
        self,
        m0: BoardModel,
        vset: Set<int>,
        q_pre: Seq<usize>,
        q_mid: Seq<usize>,
        q_post: Seq<usize>,
        v_pre: Set<int>,
        cur: int,
        n: int,
    )
        requires
            q_pre.len() >= 1,
            q_pre[0] == cur as usize,
            0 <= cur < n,
            n == m0.tiles.len(),
            n == m0.rows * m0.columns,
            n <= usize::MAX,
            q_mid == q_pre.subrange(1, q_pre.len() as int),
            vset == v_pre.insert(cur),
            q_post.len() >= q_mid.len(),
            forall|t2: int| 0 <= t2 < q_mid.len() ==> (#[trigger] q_post[t2]) == q_mid[t2],
            forall|i: int, j: int|
                #![trigger v_pre.contains(i), is_adjacent(m0.rows, m0.columns, i, j)]
                v_pre.contains(i) && m0.tiles[i].adjacent_mines == 0 && is_adjacent(
                    m0.rows,
                    m0.columns,
                    i,
                    j,
                ) ==> v_pre.contains(j) || q_pre.contains(j as usize),
            forall|j: int|
                is_adjacent(m0.rows, m0.columns, cur, j) ==> vset.contains(j) || q_post.contains(
                    j as usize,
                ),
        ensures
            forall|i: int, j: int|
                #![trigger vset.contains(i), is_adjacent(m0.rows, m0.columns, i, j)]
                vset.contains(i) && m0.tiles[i].adjacent_mines == 0 && is_adjacent(
                    m0.rows,
                    m0.columns,
                    i,
                    j,
                ) ==> vset.contains(j) || q_post.contains(j as usize),
    {
        assert forall|i: int, j: int|
            vset.contains(i) && m0.tiles[i].adjacent_mines == 0 && is_adjacent(
                m0.rows,
                m0.columns,
                i,
                j,
            ) implies vset.contains(j) || q_post.contains(j as usize) by {
            assert(0 <= j < n);
            if i != cur {
                assert(v_pre.contains(i));
                if !v_pre.contains(j) {
                    assert(q_pre.contains(j as usize));
                    let t2 = choose|t2: int| 0 <= t2 < q_pre.len() && q_pre[t2] == j as usize;
                    if t2 == 0 {
                        assert(j as usize == cur as usize);
                        assert(j == cur);
                    } else {
                        assert(q_mid[t2 - 1] == j as usize);
                        assert(q_post[t2 - 1] == j as usize);
                    }
                }
            }
        }
    }

    /// Re-establishes the worklist closure invariant after a pop that
    /// enqueued nothing: either the tile was seen before, or it has
    /// adjacent mines and does not spread.
    proof fn lemma_expose_closure_plain(
        self,
        m0: BoardModel,
        vset: Set<int>,
        q_pre: Seq<usize>,
        q_mid: Seq<usize>,
        q_post: Seq<usize>,
        v_pre: Set<int>,
        cur: int,
        n: int,
        newly: bool,
    )
        requires
            q_pre.len() >= 1,
            q_pre[0] == cur as usize,
            0 <= cur < n,
            n == m0.tiles.len(),
            n == m0.rows * m0.columns,
            n <= usize::MAX,
            q_mid == q_pre.subrange(1, q_pre.len() as int),
            q_post == q_mid,
            newly ==> vset == v_pre.insert(cur) && m0.tiles[cur].adjacent_mines != 0,
            !newly ==> vset == v_pre && v_pre.contains(cur),
            forall|i: int, j: int|
                #![trigger v_pre.contains(i), is_adjacent(m0.rows, m0.columns, i, j)]
                v_pre.contains(i) && m0.tiles[i].adjacent_mines == 0 && is_adjacent(
                    m0.rows,
                    m0.columns,
                    i,
                    j,
                ) ==> v_pre.contains(j) || q_pre.contains(j as usize),
        ensures
            forall|i: int, j: int|
                #![trigger vset.contains(i), is_adjacent(m0.rows, m0.columns, i, j)]
                vset.contains(i) && m0.tiles[i].adjacent_mines == 0 && is_adjacent(
                    m0.rows,
                    m0.columns,
                    i,
                    j,
                ) ==> vset.contains(j) || q_post.contains(j as usize),
    {
        assert forall|i: int, j: int|
            vset.contains(i) && m0.tiles[i].adjacent_mines == 0 && is_adjacent(
                m0.rows,
                m0.columns,
                i,
                j,
            ) implies vset.contains(j) || q_post.contains(j as usize) by {
            assert(0 <= j < n);
            assert(v_pre.contains(i));
            if !v_pre.contains(j) {
                assert(q_pre.contains(j as usize));
                let t2 = choose|t2: int| 0 <= t2 < q_pre.len() && q_pre[t2] == j as usize;
                if t2 == 0 {
                    assert(j as usize == cur as usize);
                    assert(j == cur);
                    assert(vset.contains(j));
                } else {
                    assert(q_post[t2 - 1] == j as usize);
                }
            }
        }
    }

    /// Re-establishes the invariant after one flag toggle: the flag sets
    /// gain or lose exactly the toggled index, and nothing else moves.
    proof fn lemma_flag_step(self, m0: BoardModel, idx: int)
        requires
            board_wf(m0),
            0 <= idx < m0.tiles.len(),
            bits_of(self.seen) == exposed_safe_set(m0),
            bits_of(self.seen).finite(),
            self@.rows == m0.rows,
            self@.columns == m0.columns,
            self@.mine_total == m0.mine_total,
            self@.tiles.len() == m0.tiles.len(),
            self@.tiles == m0.tiles.update(
                idx,
                TileModel { flagged: !m0.tiles[idx].flagged, ..m0.tiles[idx] },
            ),
            self@.flagged_cells == m0.flagged_cells + (if m0.tiles[idx].flagged {
                -1int
            } else {
                1int
            }),
            self@.correctly_flagged == m0.correctly_flagged + (if m0.tiles[idx].mine {
                if m0.tiles[idx].flagged {
                    -1int
                } else {
                    1int
                }
            } else {
                0int
            }),
            !m0.tiles[idx].flagged ==> m0.flagged_cells < m0.mine_total,
        ensures
            self.inv(),
    {
        let m2 = self@;
        lemma_counter_bounds(m0);
        assert forall|i: int| 0 <= i < m0.tiles.len() implies tile_static_eq(
            #[trigger] m0.tiles[i],
            m2.tiles[i],
        ) by {}
        lemma_static_preserved(m0, m2);
        if m0.tiles[idx].flagged {
            assert(flagged_set(m2) =~= flagged_set(m0).remove(idx));
            assert(flagged_set(m0).contains(idx));
            if m0.tiles[idx].mine {
                assert(correct_flag_set(m2) =~= correct_flag_set(m0).remove(idx));
                assert(correct_flag_set(m0).contains(idx));
            } else {
                assert(correct_flag_set(m2) =~= correct_flag_set(m0));
            }
        } else {
            assert(flagged_set(m2) =~= flagged_set(m0).insert(idx));
            assert(!flagged_set(m0).contains(idx));
            if m0.tiles[idx].mine {
                assert(correct_flag_set(m2) =~= correct_flag_set(m0).insert(idx));
                assert(!correct_flag_set(m0).contains(idx));
            } else {
                assert(correct_flag_set(m2) =~= correct_flag_set(m0));
            }
        }
        assert(exposed_safe_set(m2) =~= exposed_safe_set(m0));
        assert(board_wf(m2));
    }
}

} // verus!
