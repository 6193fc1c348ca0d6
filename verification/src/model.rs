//! The mathematical model of a board.
//!
//! Every contract of the engine speaks about a `BoardModel`: the abstract
//! value of a board, with each tile reduced to its observable fields and its
//! neighbor index set. `board_wf` is the well-formedness invariant that the
//! constructor establishes and every operation preserves; `reaches` is the
//! zero-spread reachability relation that specifies the flood fill.

use vstd::prelude::*;
use vstd::set_lib::{lemma_len_subset, lemma_int_range, set_int_range};
use crate::grid::{adjacent_set, is_adjacent};

verus! {

/// Abstract value of one tile.
#[verifier::ext_equal]
pub struct TileModel {
    pub mine: bool,
    pub exposed: bool,
    pub flagged: bool,
    pub adjacent_mines: int,
    pub neighbors: Set<int>,
}

/// Abstract value of a board.
#[verifier::ext_equal]
pub struct BoardModel {
    pub rows: int,
    pub columns: int,
    pub mine_total: int,
    pub flagged_cells: int,
    pub correctly_flagged: int,
    pub tiles: Seq<TileModel>,
}

/// The indices of the mine tiles.
pub open spec fn mines_set(m: BoardModel) -> Set<int> {
    Set::new(|i: int| 0 <= i < m.tiles.len() && m.tiles[i].mine)
}

/// The indices of the flagged tiles.
pub open spec fn flagged_set(m: BoardModel) -> Set<int> {
    Set::new(|i: int| 0 <= i < m.tiles.len() && m.tiles[i].flagged)
}

/// The indices of the flagged tiles that are mines.
pub open spec fn correct_flag_set(m: BoardModel) -> Set<int> {
    Set::new(|i: int| 0 <= i < m.tiles.len() && m.tiles[i].flagged && m.tiles[i].mine)
}

/// The indices of the exposed tiles that are not mines. The win check counts
/// exactly these: a mine exposed by the losing move never counts toward a
/// win.
pub open spec fn exposed_safe_set(m: BoardModel) -> Set<int> {
    Set::new(|i: int| 0 <= i < m.tiles.len() && m.tiles[i].exposed && !m.tiles[i].mine)
}

/// The neighbors of tile `i` that are mines.
pub open spec fn mine_neighbor_set(m: BoardModel, i: int) -> Set<int> {
    Set::new(|j: int| is_adjacent(m.rows, m.columns, i, j) && 0 <= j < m.tiles.len()
        && m.tiles[j].mine)
}

/// Well-formedness of a board model: the shape is consistent, every cached
/// per-tile fact (neighbor set, adjacent-mine count) agrees with the grid,
/// and every counter agrees with the set it summarizes.
pub open spec fn board_wf(m: BoardModel) -> bool {
    &&& 1 <= m.rows
    &&& 1 <= m.columns
    &&& m.rows * m.columns == m.tiles.len()
    &&& m.tiles.len() <= usize::MAX
    &&& m.mine_total == mines_set(m).len()
    &&& m.mine_total <= m.tiles.len()
    &&& m.flagged_cells == flagged_set(m).len()
    &&& m.flagged_cells <= m.mine_total
    &&& m.correctly_flagged == correct_flag_set(m).len()
    &&& forall|i: int|
        0 <= i < m.tiles.len() ==> (#[trigger] m.tiles[i]).neighbors == adjacent_set(
            m.rows,
            m.columns,
            i,
        )
    &&& forall|i: int|
        0 <= i < m.tiles.len() ==> (#[trigger] m.tiles[i]).adjacent_mines == mine_neighbor_set(
            m,
            i,
        ).len()
    &&& forall|i: int|
        0 <= i < m.tiles.len() ==> 0 <= (#[trigger] m.tiles[i]).adjacent_mines <= 8
}

/// Every non-mine tile is exposed.
pub open spec fn all_safe_exposed(m: BoardModel) -> bool {
    forall|i: int| 0 <= i < m.tiles.len() && !(#[trigger] m.tiles[i]).mine ==> m.tiles[i].exposed
}

/// Every mine tile is flagged.
pub open spec fn all_mines_flagged(m: BoardModel) -> bool {
    forall|i: int| 0 <= i < m.tiles.len() && (#[trigger] m.tiles[i]).mine ==> m.tiles[i].flagged
}

/// The fields of a tile that no operation after construction ever changes.
pub open spec fn tile_static_eq(a: TileModel, b: TileModel) -> bool {
    &&& a.mine == b.mine
    &&& a.adjacent_mines == b.adjacent_mines
    &&& a.neighbors == b.neighbors
}

/// The flag transition: what one `flag` call does to the model of the tile
/// at linear index `idx`. A flagged tile is always unflagged; an unflagged
/// tile is flagged only while the flag budget has room and the tile is not
/// exposed; otherwise nothing changes.
pub open spec fn spec_flag_model(m: BoardModel, idx: int) -> BoardModel {
    let t = m.tiles[idx];
    if t.flagged {
        BoardModel {
            tiles: m.tiles.update(idx, TileModel { flagged: false, ..t }),
            flagged_cells: m.flagged_cells - 1,
            correctly_flagged: m.correctly_flagged - if t.mine {
                1int
            } else {
                0int
            },
            ..m
        }
    } else if m.flagged_cells < m.mine_total && !t.exposed {
        BoardModel {
            tiles: m.tiles.update(idx, TileModel { flagged: true, ..t }),
            flagged_cells: m.flagged_cells + 1,
            correctly_flagged: m.correctly_flagged + if t.mine {
                1int
            } else {
                0int
            },
            ..m
        }
    } else {
        m
    }
}

/// Everything in well-formedness that depends only on the fields no
/// operation changes after construction is preserved by any update that
/// keeps those fields: the mine set, the neighbor sets, and the cached
/// adjacent-mine counts.
pub proof fn lemma_static_preserved(m: BoardModel, m2: BoardModel)
    requires
        board_wf(m),
        m2.rows == m.rows,
        m2.columns == m.columns,
        m2.mine_total == m.mine_total,
        m2.tiles.len() == m.tiles.len(),
        forall|i: int|
            0 <= i < m.tiles.len() ==> tile_static_eq(#[trigger] m.tiles[i], m2.tiles[i]),
    ensures
        mines_set(m2) == mines_set(m),
        m2.mine_total == mines_set(m2).len(),
        m2.mine_total <= m2.tiles.len(),
        forall|i: int|
            0 <= i < m2.tiles.len() ==> (#[trigger] m2.tiles[i]).neighbors == adjacent_set(
                m2.rows,
                m2.columns,
                i,
            ),
        forall|i: int|
            0 <= i < m2.tiles.len() ==> (#[trigger] m2.tiles[i]).adjacent_mines
                == mine_neighbor_set(m2, i).len(),
        forall|i: int|
            0 <= i < m2.tiles.len() ==> 0 <= (#[trigger] m2.tiles[i]).adjacent_mines <= 8,
{
    assert forall|i: int|
        0 <= i < m2.tiles.len() implies mines_set(m2).contains(i) == mines_set(m).contains(
        i,
    ) by {
        assert(tile_static_eq(m.tiles[i], m2.tiles[i]));
    }
    assert(mines_set(m2) =~= mines_set(m));
    assert forall|i: int| 0 <= i < m2.tiles.len() implies (#[trigger] m2.tiles[i]).neighbors
        == adjacent_set(m2.rows, m2.columns, i) by {
        assert(tile_static_eq(m.tiles[i], m2.tiles[i]));
    }
    assert forall|i: int| 0 <= i < m2.tiles.len() implies (#[trigger] m2.tiles[i]).adjacent_mines
        == mine_neighbor_set(m2, i).len() && 0 <= m2.tiles[i].adjacent_mines <= 8 by {
        assert(tile_static_eq(m.tiles[i], m2.tiles[i]));
        assert forall|j: int|
            mine_neighbor_set(m2, i).contains(j) == mine_neighbor_set(m, i).contains(j) by {
            if 0 <= j < m.tiles.len() {
                assert(tile_static_eq(m.tiles[j], m2.tiles[j]));
            }
        }
        assert(mine_neighbor_set(m2, i) =~= mine_neighbor_set(m, i));
    }
}

/// Adjacency correctness: in a well-formed board, every tile's cached
/// neighbor set is exactly the grid's Moore neighborhood of its position,
/// and its cached adjacent-mine count equals the number of mines among
/// those neighbors, which is never more than eight.
pub proof fn lemma_adjacency_correct(m: BoardModel, i: int)
    requires
        board_wf(m),
        0 <= i < m.tiles.len(),
    ensures
        m.tiles[i].neighbors == adjacent_set(m.rows, m.columns, i),
        m.tiles[i].adjacent_mines == mine_neighbor_set(m, i).len(),
        0 <= m.tiles[i].adjacent_mines <= 8,
{
}

/// Flag pairing: flagging and then unflagging an unexposed, unflagged tile
/// while the budget has room returns the board model to exactly its
/// original value, the flag counters included.
pub proof fn lemma_flag_unflag_round_trip(m: BoardModel, idx: int)
    requires
        0 <= idx < m.tiles.len(),
        !m.tiles[idx].flagged,
        !m.tiles[idx].exposed,
        m.flagged_cells < m.mine_total,
    ensures
        spec_flag_model(spec_flag_model(m, idx), idx) == m,
{
    let m1 = spec_flag_model(m, idx);
    assert(m1.tiles[idx].flagged);
    assert(spec_flag_model(m1, idx).tiles =~= m.tiles);
    assert(spec_flag_model(m1, idx) =~= m);
}

/// Flag budget: once `mine_total` flags are placed, flagging another tile
/// changes nothing, and neither does flagging an exposed tile; unflagging
/// is always accepted and frees one flag.
pub proof fn lemma_flag_budget(m: BoardModel, idx: int)
    requires
        0 <= idx < m.tiles.len(),
    ensures
        !m.tiles[idx].flagged && m.flagged_cells >= m.mine_total ==> spec_flag_model(m, idx)
            == m,
        !m.tiles[idx].flagged && m.tiles[idx].exposed ==> spec_flag_model(m, idx) == m,
        m.tiles[idx].flagged ==> spec_flag_model(m, idx).flagged_cells == m.flagged_cells - 1
            && !spec_flag_model(m, idx).tiles[idx].flagged,
{
}

/// A path along which the flood fill spreads: a chain of adjacent tiles in
/// which every tile but possibly the last has no adjacent mines.
pub open spec fn is_zero_path(m: BoardModel, p: Seq<int>, from: int, to: int) -> bool {
    &&& p.len() >= 1
    &&& p[0] == from
    &&& p[p.len() - 1] == to
    &&& forall|k: int| 0 <= k < p.len() ==> 0 <= #[trigger] p[k] < m.tiles.len()
    &&& forall|k: int|
        0 <= k < p.len() - 1 ==> m.tiles[#[trigger] p[k]].adjacent_mines == 0 && is_adjacent(
            m.rows,
            m.columns,
            p[k],
            p[k + 1],
        )
}

/// Tile `to` lies in the zero-spread region of tile `from`: the flood fill
/// started at `from` will visit `to`.
pub open spec fn reaches(m: BoardModel, from: int, to: int) -> bool {
    exists|p: Seq<int>| is_zero_path(m, p, from, to)
}

/// Every tile reaches itself.
pub proof fn lemma_reaches_self(m: BoardModel, i: int)
    requires
        0 <= i < m.tiles.len(),
    ensures
        reaches(m, i, i),
{
    let p: Seq<int> = seq![i];
    assert(is_zero_path(m, p, i, i));
}

/// Reachability extends across one adjacency step out of a zero tile.
pub proof fn lemma_reaches_step(m: BoardModel, from: int, mid: int, to: int)
    requires
        reaches(m, from, mid),
        m.tiles[mid].adjacent_mines == 0,
        is_adjacent(m.rows, m.columns, mid, to),
        0 <= to < m.tiles.len(),
    ensures
        reaches(m, from, to),
{
    let p = choose|p: Seq<int>| is_zero_path(m, p, from, mid);
    let q = p.push(to);
    assert(q[q.len() - 1] == to);
    assert forall|k: int| 0 <= k < q.len() - 1 implies m.tiles[#[trigger] q[k]].adjacent_mines
        == 0 && is_adjacent(m.rows, m.columns, q[k], q[k + 1]) by {
        if k < p.len() - 1 {
            assert(q[k] == p[k]);
            assert(q[k + 1] == p[k + 1]);
        } else {
            assert(q[k] == p[p.len() - 1]);
        }
    }
    assert(is_zero_path(m, q, from, to));
}

proof fn lemma_path_stays_in_closed_set(m: BoardModel, s: Set<int>, p: Seq<int>, from: int, to: int)
    requires
        is_zero_path(m, p, from, to),
        s.contains(from),
        forall|i: int, j: int|
            #![trigger s.contains(i), is_adjacent(m.rows, m.columns, i, j)]
            s.contains(i) && 0 <= i < m.tiles.len() && m.tiles[i].adjacent_mines == 0
                && is_adjacent(m.rows, m.columns, i, j) ==> s.contains(j),
    ensures
        s.contains(to),
    decreases p.len(),
{
    if p.len() == 1 {
        assert(to == from);
    } else {
        let q = p.drop_last();
        let mid = p[p.len() - 2];
        assert(q[q.len() - 1] == mid);
        assert forall|k: int| 0 <= k < q.len() - 1 implies m.tiles[#[trigger] q[k]].adjacent_mines
            == 0 && is_adjacent(m.rows, m.columns, q[k], q[k + 1]) by {
            assert(q[k] == p[k]);
            assert(q[k + 1] == p[k + 1]);
        }
        assert(is_zero_path(m, q, from, mid));
        lemma_path_stays_in_closed_set(m, s, q, from, mid);
        assert(m.tiles[mid].adjacent_mines == 0 && is_adjacent(m.rows, m.columns, mid, to));
    }
}

/// A set that contains `from` and is closed under adjacency steps out of
/// zero tiles contains everything `from` reaches. This is the completeness
/// half of the flood-fill proof: when the worklist runs dry, the visited set
/// is closed, so it covers the whole zero-spread region.
pub proof fn lemma_closed_set_covers_reachable(m: BoardModel, s: Set<int>, from: int, to: int)
    requires
        reaches(m, from, to),
        s.contains(from),
        forall|i: int, j: int|
            #![trigger s.contains(i), is_adjacent(m.rows, m.columns, i, j)]
            s.contains(i) && 0 <= i < m.tiles.len() && m.tiles[i].adjacent_mines == 0
                && is_adjacent(m.rows, m.columns, i, j) ==> s.contains(j),
    ensures
        s.contains(to),
{
    let p = choose|p: Seq<int>| is_zero_path(m, p, from, to);
    lemma_path_stays_in_closed_set(m, s, p, from, to);
}

/// The union of two disjoint finite sets has the sum of their lengths.
pub proof fn lemma_disjoint_union_len<A>(a: Set<A>, b: Set<A>)
    requires
        a.finite(),
        b.finite(),
        a.disjoint(b),
    ensures
        a.union(b).len() == a.len() + b.len(),
        a.union(b).finite(),
    decreases b.len(),
{
    if b.is_empty() {
        assert(a.union(b) =~= a);
    } else {
        let x = b.choose();
        assert(a.disjoint(b.remove(x)));
        lemma_disjoint_union_len(a, b.remove(x));
        assert(a.union(b) =~= a.union(b.remove(x)).insert(x));
        assert(!a.union(b.remove(x)).contains(x));
    }
}

/// A subset of a finite set with the same length is the whole set.
pub proof fn lemma_full_subset<A>(a: Set<A>, b: Set<A>)
    requires
        b.finite(),
        a.subset_of(b),
        a.len() == b.len(),
    ensures
        a =~= b,
{
    assert forall|x: A| b.contains(x) implies a.contains(x) by {
        if !a.contains(x) {
            assert(a.subset_of(b.remove(x)));
            lemma_len_subset(a, b.remove(x));
        }
    }
}

/// The sets summarized by the counters are all finite, and bounded the way
/// the data-model invariants demand: no more flags than mines are correct,
/// no more correct flags than the mine total, and exposed safe tiles plus
/// correctly flagged mines never exceed the tile count.
pub proof fn lemma_counter_bounds(m: BoardModel)
    requires
        board_wf(m),
    ensures
        mines_set(m).finite(),
        flagged_set(m).finite(),
        correct_flag_set(m).finite(),
        exposed_safe_set(m).finite(),
        correct_flag_set(m).len() <= flagged_set(m).len(),
        correct_flag_set(m).len() <= mines_set(m).len(),
        exposed_safe_set(m).len() + correct_flag_set(m).len() <= m.tiles.len(),
{
    let n = m.tiles.len() as int;
    let range = set_int_range(0, n);
    lemma_int_range(0, n);
    lemma_len_subset(mines_set(m), range);
    lemma_len_subset(flagged_set(m), range);
    lemma_len_subset(correct_flag_set(m), flagged_set(m));
    lemma_len_subset(correct_flag_set(m), mines_set(m));
    let safe = range.difference(mines_set(m));
    lemma_len_subset(exposed_safe_set(m), safe);
    lemma_disjoint_union_len(safe, mines_set(m));
    assert(safe.union(mines_set(m)) =~= range);
}

/// The win check is exact: the exposed count plus the correctly flagged
/// count reaches the tile count exactly when every non-mine tile is exposed
/// and every mine tile is flagged.
pub proof fn lemma_win_condition(m: BoardModel)
    requires
        board_wf(m),
    ensures
        (exposed_safe_set(m).len() + correct_flag_set(m).len() == m.tiles.len()) <==> (
        all_safe_exposed(m) && all_mines_flagged(m)),
{
    let n = m.tiles.len() as int;
    let range = set_int_range(0, n);
    lemma_int_range(0, n);
    lemma_len_subset(mines_set(m), range);
    let safe = range.difference(mines_set(m));
    lemma_disjoint_union_len(safe, mines_set(m));
    assert(safe.union(mines_set(m)) =~= range);
    lemma_len_subset(exposed_safe_set(m), safe);
    lemma_len_subset(correct_flag_set(m), mines_set(m));
    if exposed_safe_set(m).len() + correct_flag_set(m).len() == n {
        lemma_full_subset(exposed_safe_set(m), safe);
        lemma_full_subset(correct_flag_set(m), mines_set(m));
        assert forall|i: int| 0 <= i < n && !(#[trigger] m.tiles[i]).mine
            implies m.tiles[i].exposed by {
            assert(safe.contains(i));
            assert(exposed_safe_set(m).contains(i));
        }
        assert forall|i: int| 0 <= i < n && (#[trigger] m.tiles[i]).mine
            implies m.tiles[i].flagged by {
            assert(mines_set(m).contains(i));
            assert(correct_flag_set(m).contains(i));
        }
    }
    if all_safe_exposed(m) && all_mines_flagged(m) {
        assert(exposed_safe_set(m) =~= safe);
        assert(correct_flag_set(m) =~= mines_set(m));
    }
}

} // verus!
