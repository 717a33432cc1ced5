//! The mathematical model of a minefield: what a consistent board is, how
//! the mines around a tile are counted, how a marker moves on, and when a
//! game is won.

use vstd::prelude::*;
use vstd::set_lib::{lemma_int_range, lemma_len_subset, set_int_range};
use crate::grid::{lemma_neighbours, neighbours, touches};
use crate::tile::{Flag, Tile, TileContent};

verus! {

/// The number of mines on a grid of `rows` by `cols` tiles of which
/// `mines_percent` in a hundred hold a mine, rounded down.
pub open spec fn mine_count(rows: nat, cols: nat, mines_percent: nat) -> nat {
    rows * cols * mines_percent / 100
}

/// How many of the tiles `among` hold a mine.
pub open spec fn mines_among(tiles: Seq<Tile>, among: Seq<int>) -> nat
    decreases among.len(),
{
    if among.len() == 0 {
        0
    } else {
        mines_among(tiles, among.drop_last()) + if tiles[among.last()].is_mine() {
            1nat
        } else {
            0nat
        }
    }
}

/// How many of the tiles `among` the player has marked as a mine.
pub open spec fn mine_flags_among(tiles: Seq<Tile>, among: Seq<int>) -> nat
    decreases among.len(),
{
    if among.len() == 0 {
        0
    } else {
        mine_flags_among(tiles, among.drop_last()) + if tiles[among.last()].is_mine_flagged() {
            1nat
        } else {
            0nat
        }
    }
}

/// True when the number `i` occurs in `indices`.
pub open spec fn listed(indices: Seq<usize>, i: int) -> bool {
    exists|k: int| 0 <= k < indices.len() && #[trigger] indices[k] == i
}

/// The indices of the tiles that are still hidden.
pub open spec fn hidden_set(tiles: Seq<Tile>) -> Set<int> {
    Set::new(|i: int| 0 <= i < tiles.len() && tiles[i].hidden)
}

/// The indices of the tiles that the player has marked as a mine.
pub open spec fn mine_flag_set(tiles: Seq<Tile>) -> Set<int> {
    Set::new(|i: int| 0 <= i < tiles.len() && tiles[i].is_mine_flagged())
}

/// A minefield as a mathematical value. Tiles are addressed by their linear
/// index, `col * rows + row`.
#[verifier::ext_equal]
pub struct Board {
    /// The number of rows of the grid.
    pub rows: nat,
    /// The number of columns of the grid.
    pub cols: nat,
    /// How many tiles in a hundred hold a mine.
    pub mines_percent: nat,
    /// The tiles, by linear index.
    pub tiles: Seq<Tile>,
    /// The linear indices of the tiles that hold a mine.
    pub mine_locations: Seq<usize>,
    /// How many tiles the player has marked as a mine.
    pub flagged_mine_count: nat,
}

impl Board {
    /// The tiles around tile `i`.
    pub open spec fn neighbours(self, i: int) -> Seq<int> {
        neighbours(self.rows, self.cols, i)
    }

    /// The number of mines around tile `i`.
    pub open spec fn danger(self, i: int) -> nat {
        mines_among(self.tiles, self.neighbours(i))
    }

    /// True when `i` is the index of a tile of this board.
    pub open spec fn has(self, i: int) -> bool {
        0 <= i < self.tiles.len()
    }

    /// True when `i` is listed among the mines.
    pub open spec fn lists_mine(self, i: int) -> bool {
        listed(self.mine_locations, i)
    }

    /// The tiles that touch tile `i` and are listed among the mines.
    pub open spec fn mined_around(self, i: int) -> Set<int> {
        Set::new(
            |j: int|
                self.has(j) && touches(
                    i % (self.rows as int),
                    i / (self.rows as int),
                    j % (self.rows as int),
                    j / (self.rows as int),
                ) && self.lists_mine(j),
        )
    }

    /// The mines are as many as the percentage asks for, they lie on distinct
    /// tiles of the grid, and a tile holds a mine exactly when it is listed.
    pub open spec fn mines_placed(self) -> bool {
        &&& self.mine_locations.len() == mine_count(self.rows, self.cols, self.mines_percent)
        &&& forall|k: int| 0 <= k < self.mine_locations.len() ==> #[trigger] self.mine_locations[k] < self.tiles.len()
        &&& forall|j: int, k: int|
            0 <= j < k < self.mine_locations.len() ==> #[trigger] self.mine_locations[j] != #[trigger] self.mine_locations[k]
        &&& forall|i: int| self.has(i) ==> (#[trigger] self.tiles[i].is_mine() <==> self.lists_mine(i))
    }

    /// Every safe tile shows the exact number of mines around it.
    pub open spec fn dangers_counted(self) -> bool {
        forall|i: int|
            self.has(i) && !(#[trigger] self.tiles[i]).is_mine() ==> self.tiles[i].content
                == TileContent::Danger(self.danger(i) as i32)
    }

    /// The counter of mine markers agrees with the grid and does not exceed
    /// the number of mines.
    pub open spec fn flags_counted(self) -> bool {
        &&& self.flagged_mine_count == mine_flag_set(self.tiles).len()
        &&& self.flagged_mine_count <= self.mine_locations.len()
    }

    /// True of a consistent board: the grid has its tiles, the mines are
    /// placed, every safe tile counts the mines around it, and the counter of
    /// mine markers agrees with the grid.
    pub open spec fn wf(self) -> bool {
        &&& self.rows >= 1
        &&& self.cols >= 1
        &&& self.mines_percent <= 100
        &&& self.tiles.len() == self.rows * self.cols
        &&& self.mines_placed()
        &&& self.dangers_counted()
        &&& self.flags_counted()
    }

    /// True of a board on which nothing has been uncovered or marked.
    pub open spec fn untouched(self) -> bool {
        &&& self.flagged_mine_count == 0
        &&& forall|i: int| self.has(i) ==> (#[trigger] self.tiles[i]).hidden && self.tiles[i].flag.is_none()
    }

    /// This board with tile `i` replaced.
    pub open spec fn with_tile(self, i: int, tile: Tile) -> Board {
        Board { tiles: self.tiles.update(i, tile), ..self }
    }

    /// This board with the counter of mine markers set to `count`.
    pub open spec fn with_count(self, count: nat) -> Board {
        Board { flagged_mine_count: count, ..self }
    }

    /// This board after the player has asked for the next marker on tile
    /// `i`. A visible tile takes no marker. On a hidden tile the marker goes
    /// from none to mine to question and back to none; it goes from none
    /// straight to question while as many tiles are marked as a mine as
    /// there are mines.
    pub open spec fn flag_cycled(self, i: int) -> Board {
        let tile = self.tiles[i];
        if !tile.hidden {
            self
        } else {
            match tile.flag {
                Some(Flag::Mine) => self.with_tile(i, Tile { flag: Some(Flag::Question), ..tile }).with_count(
                    (self.flagged_mine_count - 1) as nat,
                ),
                Some(Flag::Question) => self.with_tile(i, Tile { flag: None, ..tile }),
                None => if self.flagged_mine_count < self.mine_locations.len() {
                    self.with_tile(i, Tile { flag: Some(Flag::Mine), ..tile }).with_count(
                        self.flagged_mine_count + 1,
                    )
                } else {
                    self.with_tile(i, Tile { flag: Some(Flag::Question), ..tile })
                },
            }
        }
    }

    /// This board with every tile's face turned up.
    pub open spec fn revealed(self) -> Board {
        Board { tiles: Seq::new(self.tiles.len(), |i: int| Tile { hidden: false, ..self.tiles[i] }), ..self }
    }

    /// True when every mine carries the mine marker and every safe tile is
    /// uncovered.
    pub open spec fn won(self) -> bool {
        &&& forall|k: int|
            0 <= k < self.mine_locations.len() ==> self.tiles[(#[trigger] self.mine_locations[k]) as int].is_mine_flagged()
        &&& forall|i: int| self.has(i) && !self.lists_mine(i) ==> !(#[trigger] self.tiles[i]).hidden
    }

    /// True when `other` is a board on the same grid with the same mines
    /// under the same tiles: only what is hidden or marked may differ.
    pub open spec fn same_ground(self, other: Board) -> bool {
        &&& other.rows == self.rows
        &&& other.cols == self.cols
        &&& other.mines_percent == self.mines_percent
        &&& other.mine_locations == self.mine_locations
        &&& other.tiles.len() == self.tiles.len()
        &&& forall|i: int| self.has(i) ==> (#[trigger] other.tiles[i]).content == self.tiles[i].content
    }
}

/// A number occurs among the first `k + 1` of `indices` when it occurs among
/// the first `k` or is the one after them.
pub(crate) proof fn lemma_listed_next(indices: Seq<usize>, k: int, i: int)
    requires
        0 <= k < indices.len(),
    ensures
        listed(indices.take(k + 1), i) <==> listed(indices.take(k), i) || indices[k] == i,
{
    let so_far = indices.take(k);
    let next = indices.take(k + 1);
    if listed(so_far, i) {
        let j = choose|j: int| 0 <= j < so_far.len() && so_far[j] == i;
        assert(next[j] == i);
    }
    if indices[k] == i {
        assert(next[k] == i);
    }
    if listed(next, i) && indices[k] != i {
        let j = choose|j: int| 0 <= j < next.len() && next[j] == i;
        assert(so_far[j] == i);
    }
}

/// There are no more mines than tiles.
pub(crate) proof fn lemma_mine_count_bound(rows: nat, cols: nat, mines_percent: nat)
    requires
        mines_percent <= 100,
    ensures
        mine_count(rows, cols, mines_percent) <= rows * cols,
{
    let total = rows * cols;
    assert(total * mines_percent / 100 <= total) by (nonlinear_arith)
        requires
            mines_percent <= 100,
    ;
}

/// A sequence of tiles none of which carries a marker counts no mine
/// markers.
pub(crate) proof fn lemma_no_flags(tiles: Seq<Tile>)
    requires
        forall|i: int| 0 <= i < tiles.len() ==> (#[trigger] tiles[i]).flag.is_none(),
    ensures
        mine_flag_set(tiles).len() == 0,
{
    assert(mine_flag_set(tiles) == Set::<int>::empty());
}

/// The sets of hidden tiles and of tiles marked as a mine are finite.
pub(crate) proof fn lemma_tile_sets_finite(tiles: Seq<Tile>)
    ensures
        hidden_set(tiles).finite(),
        hidden_set(tiles).len() <= tiles.len(),
        mine_flag_set(tiles).finite(),
        mine_flag_set(tiles).len() <= tiles.len(),
{
    lemma_int_range(0, tiles.len() as int);
    lemma_len_subset(hidden_set(tiles), set_int_range(0, tiles.len() as int));
    lemma_len_subset(mine_flag_set(tiles), set_int_range(0, tiles.len() as int));
}

/// What a new marker on one tile does to the number of tiles that are
/// marked as a mine.
pub(crate) proof fn lemma_mine_flag_set_update(tiles: Seq<Tile>, i: int, tile: Tile)
    requires
        0 <= i < tiles.len(),
    ensures
        mine_flag_set(tiles.update(i, tile)).len() == mine_flag_set(tiles).len() - (if tiles[i].is_mine_flagged() {
            1int
        } else {
            0int
        }) + (if tile.is_mine_flagged() {
            1int
        } else {
            0int
        }),
{
    let before = mine_flag_set(tiles);
    let after = mine_flag_set(tiles.update(i, tile));
    lemma_tile_sets_finite(tiles);
    lemma_tile_sets_finite(tiles.update(i, tile));
    if tile.is_mine_flagged() {
        assert(after == before.insert(i));
    } else {
        assert(after == before.remove(i));
    }
}

/// The number of mines among some tiles depends only on which of those
/// tiles hold a mine.
pub(crate) proof fn lemma_mines_among_same(t1: Seq<Tile>, t2: Seq<Tile>, among: Seq<int>)
    requires
        t1.len() == t2.len(),
        forall|i: int| 0 <= i < t1.len() ==> (#[trigger] t1[i]).is_mine() == t2[i].is_mine(),
        forall|k: int| 0 <= k < among.len() ==> 0 <= #[trigger] among[k] < t1.len(),
    ensures
        mines_among(t1, among) == mines_among(t2, among),
    decreases among.len(),
{
    if among.len() > 0 {
        lemma_mines_among_same(t1, t2, among.drop_last());
    }
}

/// There are no more mines among some tiles than there are tiles, and where
/// no mine is counted none of them holds one.
pub proof fn lemma_mines_among_bound(tiles: Seq<Tile>, among: Seq<int>)
    ensures
        mines_among(tiles, among) <= among.len(),
        mines_among(tiles, among) == 0 ==> forall|k: int|
            0 <= k < among.len() ==> !tiles[#[trigger] among[k]].is_mine(),
    decreases among.len(),
{
    if among.len() > 0 {
        lemma_mines_among_bound(tiles, among.drop_last());
        if mines_among(tiles, among) == 0 {
            assert forall|k: int| 0 <= k < among.len() implies !tiles[#[trigger] among[k]].is_mine() by {
                if k < among.len() - 1 {
                    assert(among.drop_last()[k] == among[k]);
                }
            }
        }
    }
}

/// Where none of some tiles holds a mine, no mine is counted among them.
pub(crate) proof fn lemma_mines_among_none(tiles: Seq<Tile>, among: Seq<int>)
    requires
        forall|k: int| 0 <= k < among.len() ==> !tiles[#[trigger] among[k]].is_mine(),
    ensures
        mines_among(tiles, among) == 0,
    decreases among.len(),
{
    if among.len() > 0 {
        assert forall|k: int| 0 <= k < among.drop_last().len() implies !tiles[#[trigger] among.drop_last()[k]].is_mine() by {
            assert(among.drop_last()[k] == among[k]);
        }
        lemma_mines_among_none(tiles, among.drop_last());
    }
}

/// On a consistent board no mine lies around a tile that counts
/// none, and no safe tile counts more than eight.
pub proof fn lemma_danger(b: Board, i: int)
    requires
        b.wf(),
        b.has(i),
    ensures
        b.danger(i) <= 8,
        b.tiles[i].content matches TileContent::Danger(level) ==> level == b.danger(i),
        b.tiles[i].is_clear() ==> forall|k: int|
            0 <= k < b.neighbours(i).len() ==> !b.tiles[#[trigger] b.neighbours(i)[k]].is_mine(),
{
    lemma_neighbours(b.rows, b.cols, i);
    lemma_mines_among_bound(b.tiles, b.neighbours(i));
    assert(!b.tiles[i].is_mine() ==> b.tiles[i].content == TileContent::Danger(b.danger(i) as i32));
}

/// The mines among tiles that are listed once each are as many as the set
/// of the listed tiles that hold a mine has members.
pub(crate) proof fn lemma_mines_among_set(tiles: Seq<Tile>, among: Seq<int>)
    requires
        among.no_duplicates(),
    ensures
        Set::new(|j: int| among.contains(j) && tiles[j].is_mine()).finite(),
        mines_among(tiles, among) == Set::new(|j: int| among.contains(j) && tiles[j].is_mine()).len(),
    decreases among.len(),
{
    let all = Set::new(|j: int| among.contains(j) && tiles[j].is_mine());
    if among.len() == 0 {
        assert(all == Set::<int>::empty());
    } else {
        let front = among.drop_last();
        let last = among.last();
        let most = Set::new(|j: int| front.contains(j) && tiles[j].is_mine());
        lemma_mines_among_set(tiles, front);
        assert forall|j: int| among.contains(j) <==> front.contains(j) || j == last by {
            if among.contains(j) {
                let k = choose|k: int| 0 <= k < among.len() && among[k] == j;
                if k < front.len() {
                    assert(front[k] == j);
                }
            }
            if front.contains(j) {
                let k = choose|k: int| 0 <= k < front.len() && front[k] == j;
                assert(among[k] == j);
            }
            assert(among[among.len() - 1] == last);
        }
        assert(!front.contains(last)) by {
            if front.contains(last) {
                let k = choose|k: int| 0 <= k < front.len() && front[k] == last;
                assert(among[k] == among[among.len() - 1]);
            }
        }
        if tiles[last].is_mine() {
            assert(all == most.insert(last));
        } else {
            assert(all == most);
        }
    }
}

/// On a consistent board, a safe tile shows how many of the tiles
/// that touch it are listed among the mines.
pub proof fn lemma_danger_counts_mines_around(b: Board, i: int)
    requires
        b.wf(),
        b.has(i),
        !b.tiles[i].is_mine(),
    ensures
        b.mined_around(i).finite(),
        b.mined_around(i).len() <= 8,
        b.tiles[i].content == TileContent::Danger(b.mined_around(i).len() as i32),
{
    let around = b.neighbours(i);
    lemma_neighbours(b.rows, b.cols, i);
    lemma_mines_among_set(b.tiles, around);
    lemma_mines_among_bound(b.tiles, around);
    assert(b.mined_around(i) == Set::new(|j: int| around.contains(j) && b.tiles[j].is_mine()));
}

/// On a consistent board, the mines are the share of the tiles
/// that the percentage asks for, rounded down, and they lie under distinct
/// tiles of the grid.
pub proof fn lemma_mines_placed(b: Board)
    requires
        b.wf(),
    ensures
        b.mine_locations.len() == (b.rows * b.cols * b.mines_percent) / 100,
        b.mine_locations.len() <= b.rows * b.cols,
        b.mine_locations.no_duplicates(),
        forall|k: int| 0 <= k < b.mine_locations.len() ==> 0 <= #[trigger] b.mine_locations[k] < b.rows * b.cols,
{
    lemma_mine_count_bound(b.rows, b.cols, b.mines_percent);
}

/// The marker on a hidden tile is back where it was after three steps, and
/// so is the board: from none to mine, to question, to none. Where as many
/// tiles are marked as a mine as there are mines, it is back after two:
/// from none to question, to none.
pub proof fn lemma_flag_cycle(b: Board, i: int)
    requires
        b.wf(),
        b.has(i),
        b.tiles[i].hidden,
        b.tiles[i].flag.is_none(),
    ensures
        b.flagged_mine_count < b.mine_locations.len() ==> {
            &&& b.flag_cycled(i).tiles[i].flag == Some(Flag::Mine)
            &&& b.flag_cycled(i).flag_cycled(i).tiles[i].flag == Some(Flag::Question)
            &&& b.flag_cycled(i).flag_cycled(i).flag_cycled(i) == b
        },
        b.flagged_mine_count >= b.mine_locations.len() ==> {
            &&& b.flag_cycled(i).tiles[i].flag == Some(Flag::Question)
            &&& b.flag_cycled(i).flag_cycled(i) == b
        },
{
    if b.flagged_mine_count < b.mine_locations.len() {
        assert(b.flag_cycled(i).flag_cycled(i).flag_cycled(i).tiles == b.tiles);
    } else {
        assert(b.flag_cycled(i).flag_cycled(i).tiles == b.tiles);
    }
}

/// A consistent board stays one when the marker on a tile moves
/// one step on.
pub proof fn lemma_flag_cycled_wf(b: Board, i: int)
    requires
        b.wf(),
        b.has(i),
    ensures
        b.flag_cycled(i).wf(),
{
    let after = b.flag_cycled(i);
    lemma_tile_sets_finite(b.tiles);
    lemma_mine_flag_set_update(b.tiles, i, after.tiles[i]);
    if b.tiles[i].is_mine_flagged() {
        assert(mine_flag_set(b.tiles).contains(i));
    }
    lemma_wf_same_ground(b, after);
}

/// A consistent board stays one when tiles are uncovered, hidden
/// or marked, as long as the counter of mine markers follows.
pub(crate) proof fn lemma_wf_same_ground(before: Board, after: Board)
    requires
        before.wf(),
        before.same_ground(after),
        after.flags_counted(),
    ensures
        after.wf(),
{
    assert forall|i: int| after.has(i) implies (#[trigger] after.tiles[i].is_mine() <==> after.lists_mine(i)) by {
        assert(before.tiles[i].is_mine() <==> before.lists_mine(i));
    }
    assert forall|i: int| after.has(i) && !(#[trigger] after.tiles[i]).is_mine() implies after.tiles[i].content
        == TileContent::Danger(after.danger(i) as i32) by {
        lemma_neighbours(before.rows, before.cols, i);
        lemma_mines_among_same(before.tiles, after.tiles, before.neighbours(i));
        assert(!before.tiles[i].is_mine());
    }
}

} // verus!
