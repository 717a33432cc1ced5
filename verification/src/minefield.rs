//! The minefield that a game is played on.

use vstd::prelude::*;
use crate::board::{hidden_set, listed, mine_count, mine_flag_set, mine_flags_among, mines_among, Board};
use crate::board::{lemma_danger, lemma_listed_next, lemma_mine_count_bound, lemma_mine_flag_set_update};
use crate::board::{lemma_mines_among_same, lemma_no_flags, lemma_tile_sets_finite, lemma_wf_same_ground};
use crate::flood::{lemma_covers_count, lemma_flood_done, lemma_flood_start, lemma_flood_step};
use crate::flood::{lemma_flag_cycled_settled, lemma_flooded_alone, lemma_uncovered_settled};
use crate::flood::lemma_untouched_settled;
use crate::grid::{lemma_index_join, lemma_index_split, lemma_neighbours, neighbours, scan};
use crate::sample::{choose_indices, distinct_below};
use crate::tile::{Face, Flag, Tile, TileContent};

verus! {

/// A rectangular grid of tiles, some of which hide a mine.
pub struct Minefield {
    tiles: Vec<Vec<Tile>>,
    rows: usize,
    cols: usize,
    mines_percent: u8,
    mine_locations: Vec<usize>,
    mine_flag_counter: usize,
}

impl View for Minefield {
    type V = Board;

    closed spec fn view(&self) -> Board {
        Board {
            rows: self.rows as nat,
            cols: self.cols as nat,
            mines_percent: self.mines_percent as nat,
            tiles: Seq::new(
                (self.rows * self.cols) as nat,
                |i: int| self.tiles@[i % (self.rows as int)]@[i / (self.rows as int)],
            ),
            mine_locations: self.mine_locations@,
            flagged_mine_count: self.mine_flag_counter as nat,
        }
    }
}

impl Minefield {
    /// The grid is stored as `rows` vectors of `cols` tiles each.
    pub closed spec fn inv(&self) -> bool {
        &&& self.rows >= 1
        &&& self.cols >= 1
        &&& self.rows * self.cols <= usize::MAX
        &&& self.mines_percent <= 100
        &&& self.tiles@.len() == self.rows
        &&& forall|r: int| 0 <= r < self.rows ==> (#[trigger] self.tiles@[r])@.len() == self.cols
    }

    /// The grid is stored as it should be and the board is consistent.
    pub open spec fn wf(&self) -> bool {
        self.inv() && self@.wf()
    }

    /// The pairs of row and column `found` are the cells with the linear
    /// indices `indices`, one for one.
    spec fn locates(&self, found: Seq<(usize, usize)>, indices: Seq<int>) -> bool {
        &&& found.len() == indices.len()
        &&& forall|m: int|
            0 <= m < found.len() ==> {
                &&& (#[trigger] found[m]).0 < self.rows
                &&& found[m].1 < self.cols
                &&& found[m].1 * self.rows + found[m].0 == indices[m]
            }
    }

    /// The row and the column of tile `tile_number`.
    fn tile_to_indices(&self, tile_number: usize) -> (indices: (usize, usize))
        requires
            self.inv(),
            tile_number < self.rows * self.cols,
        ensures
            indices.0 == tile_number % self.rows,
            indices.1 == tile_number / self.rows,
            indices.0 < self.rows,
            indices.1 < self.cols,
            indices.1 * self.rows + indices.0 == tile_number,
    {
        proof {
            lemma_index_split(self.rows as nat, self.cols as nat, tile_number as int);
        }
        let row = tile_number % self.rows;
        let col = tile_number / self.rows;
        (row, col)
    }

    /// The linear index of the tile at (`row`, `col`).
    fn indices_to_tile(&self, row: usize, col: usize) -> (tile_number: usize)
        requires
            self.inv(),
            row < self.rows,
            col < self.cols,
        ensures
            tile_number == col * self.rows + row,
            tile_number < self.rows * self.cols,
            tile_number % self.rows == row,
            tile_number / self.rows == col,
    {
        proof {
            lemma_index_join(self.rows as nat, self.cols as nat, row as int, col as int);
            assert(col * self.rows >= 0) by (nonlinear_arith)
                requires
                    col >= 0,
                    self.rows >= 0,
            ;
        }
        col * self.rows + row
    }

    /// The rows and columns of the up to eight tiles around tile
    /// `tile_number`, row offset by row offset.
    fn get_neighbours(&self, tile_number: usize) -> (found: Vec<(usize, usize)>)
        requires
            self.inv(),
            tile_number < self.rows * self.cols,
        ensures
            self.locates(found@, neighbours(self.rows as nat, self.cols as nat, tile_number as int)),
    {
        let (row, col) = self.tile_to_indices(tile_number);
        let mut found: Vec<(usize, usize)> = Vec::new();
        let ghost rows = self.rows as nat;
        let ghost cols = self.cols as nat;

        let mut j: i128 = -1;
        while j <= 1
            invariant
                self.inv(),
                rows == self.rows,
                cols == self.cols,
                row < self.rows,
                col < self.cols,
                -1 <= j <= 2,
                self.locates(found@, scan(rows, cols, row as int, col as int, (3 * (j + 1)) as nat)),
            decreases 2 - j,
        {
            let mut k: i128 = -1;
            while k <= 1
                invariant
                    self.inv(),
                    rows == self.rows,
                    cols == self.cols,
                    row < self.rows,
                    col < self.cols,
                    -1 <= j <= 1,
                    -1 <= k <= 2,
                    self.locates(
                        found@,
                        scan(rows, cols, row as int, col as int, (3 * (j + 1) + (k + 1)) as nat),
                    ),
                decreases 2 - k,
            {
                let ghost before = scan(rows, cols, row as int, col as int, (3 * (j + 1) + (k + 1)) as nat);
                let ghost after = scan(rows, cols, row as int, col as int, (3 * (j + 1) + (k + 1) + 1) as nat);
                // check boundaries
                let x = row as i128 + j;
                let y = col as i128 + k;
                // do not include current tile
                if !(j == 0 && k == 0) && 0 <= x && x < self.rows as i128 && 0 <= y && y < self.cols as i128 {
                    found.push((x as usize, y as usize));
                    assert(after == before + seq![y * rows + x]);
                } else {
                    assert(after == before);
                }
                k += 1;
            }
            j += 1;
        }
        found
    }

    /// Lays out a grid of `rows` by `cols` tiles and starts a game on it, with
    /// mines drawn at random under `mines_percent` in a hundred of the tiles.
    pub fn new(rows: usize, cols: usize, mines_percent: u8) -> (minefield: Minefield)
        requires
            rows >= 1,
            cols >= 1,
            rows * cols <= usize::MAX,
            mines_percent <= 100,
        ensures
            minefield.wf(),
            minefield@.rows == rows,
            minefield@.cols == cols,
            minefield@.mines_percent == mines_percent,
            minefield@.untouched(),
            minefield@.settled(),
    {
        let mut tiles: Vec<Vec<Tile>> = Vec::new();
        while tiles.len() < rows
            invariant
                tiles@.len() <= rows,
                forall|r: int| 0 <= r < tiles@.len() ==> (#[trigger] tiles@[r])@.len() == cols,
            decreases rows - tiles@.len(),
        {
            let mut row: Vec<Tile> = Vec::new();
            while row.len() < cols
                invariant
                    row@.len() <= cols,
                decreases cols - row@.len(),
            {
                row.push(Tile::new());
            }
            tiles.push(row);
        }

        let mut minefield = Minefield {
            tiles,
            rows,
            cols,
            mines_percent,
            mine_locations: Vec::new(),
            mine_flag_counter: 0,
        };

        minefield.reset();

        minefield
    }

    /// Turns every tile's face up.
    pub fn reveal_all(&mut self)
        requires
            old(self).inv(),
        ensures
            final(self).inv(),
            final(self)@ == old(self)@.revealed(),
            final(self)@.settled(),
            old(self).wf() ==> final(self).wf(),
    {
        let total = self.rows * self.cols;
        let mut i: usize = 0;
        while i < total
            invariant
                self.inv(),
                total == self.rows * self.cols,
                i <= total,
                old(self)@.same_ground(self@),
                self@.flagged_mine_count == old(self)@.flagged_mine_count,
                forall|t: int| 0 <= t < i ==> (#[trigger] self@.tiles[t]) == (Tile { hidden: false, ..old(self)@.tiles[t] }),
                forall|t: int| i <= t < total ==> (#[trigger] self@.tiles[t]) == old(self)@.tiles[t],
            decreases total - i,
        {
            let (row, col) = self.tile_to_indices(i);
            let mut tile = self.tiles[row][col];
            assert(tile == self@.tiles[i as int]);
            tile.uncover();
            let ghost before = self@;
            self.put(row, col, tile);
            assert(self@ == before.with_tile(i as int, tile));
            assert(self@.tiles[i as int] == tile);
            i += 1;
        }
        proof {
            assert(self@.tiles == old(self)@.revealed().tiles);
            assert forall|t: int, u: int|
                self@.has(t) && #[trigger] self@.neighbours(t).contains(u) implies !self@.tiles[u].hidden by {
                lemma_neighbours(self.rows as nat, self.cols as nat, t);
                assert(self@.has(u));
            }
            if old(self).wf() {
                assert(mine_flag_set(self@.tiles) == mine_flag_set(old(self)@.tiles));
                lemma_wf_same_ground(old(self)@, self@);
            }
        }
    }

    /// The number of mines that the grid is to hold.
    fn mine_total(&self) -> (n: usize)
        requires
            self.inv(),
        ensures
            n == mine_count(self.rows as nat, self.cols as nat, self.mines_percent as nat),
            n <= self.rows * self.cols,
    {
        let total = self.rows * self.cols;
        proof {
            lemma_mine_count_bound(self.rows as nat, self.cols as nat, self.mines_percent as nat);
            assert(total * self.mines_percent <= usize::MAX * 100) by (nonlinear_arith)
                requires
                    total <= usize::MAX,
                    self.mines_percent <= 100,
            ;
        }
        let scaled: u128 = total as u128 * self.mines_percent as u128;
        (scaled / 100) as usize
    }

    /// Starts a new game on the same grid: every tile is hidden again and
    /// loses its marker, and the mines are drawn afresh.
    pub fn reset(&mut self)
        requires
            old(self).inv(),
        ensures
            final(self).wf(),
            final(self)@.rows == old(self)@.rows,
            final(self)@.cols == old(self)@.cols,
            final(self)@.mines_percent == old(self)@.mines_percent,
            final(self)@.untouched(),
            final(self)@.settled(),
    {
        let total_tiles = self.rows * self.cols;

        // place mines
        let n = self.mine_total();
        let mine_locations = choose_indices(total_tiles, n);
        self.reset_with(mine_locations);
    }

    /// Starts a new game on the same grid with the mines under the tiles
    /// `mine_locations`: every tile is hidden again and loses its marker, the
    /// listed tiles hold a mine, and each other tile counts the mines around
    /// it.
    pub fn reset_with(&mut self, mine_locations: Vec<usize>)
        requires
            old(self).inv(),
            mine_locations@.len() == mine_count(old(self)@.rows, old(self)@.cols, old(self)@.mines_percent),
            distinct_below(mine_locations@, old(self)@.rows * old(self)@.cols),
        ensures
            final(self).wf(),
            final(self)@.rows == old(self)@.rows,
            final(self)@.cols == old(self)@.cols,
            final(self)@.mines_percent == old(self)@.mines_percent,
            final(self)@.mine_locations == mine_locations@,
            final(self)@.untouched(),
            final(self)@.settled(),
    {
        let total_tiles = self.rows * self.cols;
        self.mine_flag_counter = 0;
        self.mine_locations = mine_locations;
        let ghost mines = self.mine_locations@;

        // reset all tiles
        let mut i: usize = 0;
        while i < total_tiles
            invariant
                self.inv(),
                total_tiles == self.rows * self.cols,
                i <= total_tiles,
                self.rows == old(self).rows,
                self.cols == old(self).cols,
                self.mines_percent == old(self).mines_percent,
                self.mine_locations@ == mines,
                self.mine_flag_counter == 0,
                forall|t: int| 0 <= t < i ==> (#[trigger] self@.tiles[t]) == Tile::blank(),
            decreases total_tiles - i,
        {
            self.reset_tile(i);
            i += 1;
        }

        // place mines
        let mut k: usize = 0;
        while k < self.mine_locations.len()
            invariant
                self.inv(),
                total_tiles == self.rows * self.cols,
                self.rows == old(self).rows,
                self.cols == old(self).cols,
                self.mines_percent == old(self).mines_percent,
                self.mine_locations@ == mines,
                distinct_below(mines, total_tiles as nat),
                self.mine_flag_counter == 0,
                k <= mines.len(),
                forall|t: int|
                    0 <= t < total_tiles ==> (#[trigger] self@.tiles[t]) == (if listed(mines.take(k as int), t) {
                        Tile { content: TileContent::Mine, ..Tile::blank() }
                    } else {
                        Tile::blank()
                    }),
            decreases mines.len() - k,
        {
            let at = self.mine_locations[k];
            let (row, col) = self.tile_to_indices(at);
            let mut tile = self.tiles[row][col];
            tile.set_as_mine();
            let ghost before = self@;
            self.put(row, col, tile);
            proof {
                assert(tile == (Tile { content: TileContent::Mine, ..before.tiles[at as int] }));
                assert(self@.tiles == before.tiles.update(at as int, tile));
                assert forall|t: int| 0 <= t < total_tiles implies (#[trigger] self@.tiles[t]) == (if listed(
                    mines.take(k + 1),
                    t,
                ) {
                    Tile { content: TileContent::Mine, ..Tile::blank() }
                } else {
                    Tile::blank()
                }) by {
                    lemma_listed_next(mines, k as int, t);
                    assert(self@.tiles[t] == if t == at {
                        tile
                    } else {
                        before.tiles[t]
                    });
                }
            }
            k += 1;
        }
        let ghost placed = self@;
        proof {
            assert(mines.take(k as int) == mines);
        }

        // compute danger indicators of tiles
        let mut i: usize = 0;
        while i < total_tiles
            invariant
                self.inv(),
                total_tiles == self.rows * self.cols,
                i <= total_tiles,
                self.rows == old(self).rows,
                self.cols == old(self).cols,
                self.mines_percent == old(self).mines_percent,
                self.mine_locations@ == mines,
                self.mine_flag_counter == 0,
                placed.tiles.len() == total_tiles,
                placed.rows == self.rows,
                placed.cols == self.cols,
                forall|t: int|
                    0 <= t < total_tiles ==> {
                        &&& (#[trigger] self@.tiles[t]).hidden
                        &&& self@.tiles[t].flag.is_none()
                        &&& self@.tiles[t].is_mine() == placed.tiles[t].is_mine()
                    },
                forall|t: int|
                    0 <= t < i && !(#[trigger] self@.tiles[t]).is_mine() ==> self@.tiles[t].content
                        == TileContent::Danger(placed.danger(t) as i32),
            decreases total_tiles - i,
        {
            let (row, col) = self.tile_to_indices(i);

            // skip if tile is a mine
            if self.tiles[row][col].content != TileContent::Mine {
                let danger_level = self.count_mines_around(i);
                proof {
                    lemma_neighbours(self.rows as nat, self.cols as nat, i as int);
                    lemma_mines_among_same(self@.tiles, placed.tiles, self@.neighbours(i as int));
                }
                let mut tile = self.tiles[row][col];
                assert(tile == self@.tiles[i as int]);
                assert(!tile.is_mine());
                tile.set_danger_level(danger_level);
                let ghost before = self@;
                self.put(row, col, tile);
                assert forall|t: int| 0 <= t < total_tiles implies (#[trigger] self@.tiles[t]) == before.tiles.update(
                    i as int,
                    tile,
                )[t] by {}
                assert(self@.tiles[i as int] == tile);
                assert(tile.hidden);
                assert(!placed.tiles[i as int].is_mine());
            }
            i += 1;
        }
        proof {
            let done = self@;
            lemma_untouched_settled(done);
            lemma_no_flags(done.tiles);
            assert forall|t: int| done.has(t) && !(#[trigger] done.tiles[t]).is_mine() implies done.tiles[t].content
                == TileContent::Danger(done.danger(t) as i32) by {
                lemma_neighbours(done.rows, done.cols, t);
                lemma_mines_among_same(done.tiles, placed.tiles, done.neighbours(t));
            }
        }
    }

    /// Counts the mines under the tiles around tile `tile_number`.
    fn count_mines_around(&self, tile_number: usize) -> (danger_level: i32)
        requires
            self.inv(),
            self@.has(tile_number as int),
        ensures
            danger_level == self@.danger(tile_number as int),
            0 <= danger_level <= 8,
    {
        let found = self.get_neighbours(tile_number);
        let ghost around = self@.neighbours(tile_number as int);
        proof {
            lemma_neighbours(self.rows as nat, self.cols as nat, tile_number as int);
        }
        let mut danger_level: i32 = 0;
        let mut k: usize = 0;
        while k < found.len()
            invariant
                self.inv(),
                self.locates(found@, around),
                around.len() <= 8,
                k <= found@.len(),
                danger_level == mines_among(self@.tiles, around.take(k as int)),
                0 <= danger_level <= k,
            decreases found@.len() - k,
        {
            let (x, y) = found[k];
            proof {
                lemma_index_join(self.rows as nat, self.cols as nat, x as int, y as int);
                assert(around.take(k + 1).drop_last() == around.take(k as int));
            }
            if self.tiles[x][y].content == TileContent::Mine {
                danger_level += 1;
            }
            k += 1;
        }
        proof {
            assert(around.take(k as int) == around);
        }
        danger_level
    }

    /// Uncovers tile `tile_number`, or chords around it where it is visible
    /// already. Uncovering a mine turns every tile up; uncovering a tile
    /// with no mine around it floods the hidden region around it. A chord
    /// on a visible tile uncovers its hidden neighbours without a marker
    /// where as many neighbours carry the mine marker as the tile counts
    /// mines. The tile itself loses its marker.
    pub fn uncover_tile(&mut self, tile_number: usize)
        requires
            old(self).wf(),
            old(self)@.has(tile_number as int),
        ensures
            final(self).wf(),
            final(self)@ == old(self)@.uncovered(tile_number as int),
            old(self)@.same_ground(final(self)@),
            old(self)@.covers(final(self)@),
            old(self)@.settled() ==> final(self)@.settled(),
        decreases
            hidden_set(old(self)@.tiles).len(),
            (if old(self)@.tiles[tile_number as int].hidden {
                1nat
            } else {
                3nat
            }),
    {
        let (row, col) = self.tile_to_indices(tile_number);
        let was_hidden = self.tile_is_hidden(tile_number);
        let ghost before = self@;

        if was_hidden {
            let mut tile = self.tiles[row][col];
            tile.uncover();
            self.put(row, col, tile);
            proof {
                lemma_flood_start(before, tile_number as int);
                lemma_mine_flag_set_update(before.tiles, tile_number as int, tile);
                lemma_wf_same_ground(before, self@);
            }
        }

        match self.get_tile_content(tile_number) {
            TileContent::Mine => {
                if was_hidden {
                    self.reveal_all();
                    assert(self@.tiles == before.revealed().tiles);
                }
            },
            TileContent::Danger(level) => {
                if level == 0 {
                    if was_hidden {
                        self.discover(tile_number, Ghost(before));
                    }
                } else if !was_hidden {
                    self.auto_search_around(tile_number, level);
                }
            },
        }
        let ghost handled = self@;

        self.reset_tile_flag(tile_number);
        proof {
            let i = tile_number as int;
            if before.settled() {
                lemma_uncovered_settled(before, i);
            }
            if was_hidden {
                match before.tiles[i].content {
                    TileContent::Mine => {
                        assert(handled == before.revealed());
                    },
                    TileContent::Danger(level) => {
                        if level != 0 {
                            assert(handled.unflagged(i).tiles == before.shown(i).tiles);
                        }
                    },
                }
            }
        }
    }

    /// Takes the marker off tile `tile_number`, and counts one mine marker
    /// less where it was one.
    fn reset_tile_flag(&mut self, tile_number: usize)
        requires
            old(self).wf(),
            old(self)@.has(tile_number as int),
        ensures
            final(self).wf(),
            final(self)@ == old(self)@.unflagged(tile_number as int),
            old(self)@.same_ground(final(self)@),
            old(self)@.covers(final(self)@),
    {
        let (row, col) = self.tile_to_indices(tile_number);
        proof {
            lemma_tile_sets_finite(self@.tiles);
        }
        if let Some(Flag::Mine) = self.get_tile_flag(tile_number) {
            assert(mine_flag_set(self@.tiles).contains(tile_number as int));
            self.mine_flag_counter -= 1;
        }
        let mut tile = self.tiles[row][col];
        tile.set_flag(None);
        self.put(row, col, tile);
        proof {
            lemma_mine_flag_set_update(old(self)@.tiles, tile_number as int, tile);
            lemma_wf_same_ground(old(self)@, self@);
        }
    }

    /// Uncovers the hidden tiles around the tile `tile_number`, which has
    /// just been turned up on the board `before` and has no mine around it.
    fn discover(&mut self, tile_number: usize, Ghost(before): Ghost<Board>)
        requires
            old(self).wf(),
            before.wf(),
            before.covered(tile_number as int),
            before.tiles[tile_number as int].is_clear(),
            old(self)@ == before.turned_up(tile_number as int),
        ensures
            final(self).wf(),
            final(self)@.unflagged(tile_number as int) == before.flooded(tile_number as int),
            old(self)@.same_ground(final(self)@),
            old(self)@.covers(final(self)@),
        decreases hidden_set(old(self)@.tiles).len(), 2nat,
    {
        let found = self.get_neighbours(tile_number);
        let ghost from = tile_number as int;
        let ghost around = before.neighbours(from);
        proof {
            lemma_neighbours(before.rows, before.cols, from);
            lemma_danger(before, from);
            lemma_flood_start(before, from);
        }
        let mut k: usize = 0;
        while k < found.len()
            invariant
                self.wf(),
                before.wf(),
                before.covered(from),
                before.tiles[from].is_clear(),
                around == before.neighbours(from),
                self.locates(found@, around),
                forall|m: int| 0 <= m < around.len() ==> before.has(#[trigger] around[m]) && !before.tiles[around[m]].is_mine(),
                k <= found@.len(),
                before.flooding(self@, from),
                old(self)@.same_ground(self@),
                old(self)@.covers(self@),
                forall|m: int| 0 <= m < k ==> !self@.tiles[#[trigger] around[m]].hidden,
            decreases found@.len() - k,
        {
            let (x, y) = found[k];
            let neighbour_index = self.indices_to_tile(x, y);
            let ghost now = self@;
            let ghost next = neighbour_index as int;
            assert(next == around[k as int]);

            // skip if already revealed
            if self.tile_is_hidden(neighbour_index) {
                proof {
                    lemma_covers_count(old(self)@, now);
                    assert(around.contains(next));
                    assert(now.tiles[next].content == before.tiles[next].content);
                    if !now.tiles[next].is_clear() {
                        lemma_flooded_alone(now, next);
                    }
                    lemma_flood_step(before, now, from, next);
                }
                self.uncover_tile(neighbour_index);
                assert(self@ == now.flooded(next));
            }
            k += 1;
        }
        proof {
            lemma_flood_done(before, self@, from);
        }
    }

    /// Chords around the visible tile `tile_number`, which counts
    /// `danger_level` mines around it.
    fn auto_search_around(&mut self, tile_number: usize, danger_level: i32)
        requires
            old(self).wf(),
            old(self)@.has(tile_number as int),
            !old(self)@.tiles[tile_number as int].hidden,
        ensures
            final(self).wf(),
            final(self)@ == old(self)@.chorded(tile_number as int, danger_level as int),
            old(self)@.same_ground(final(self)@),
            old(self)@.covers(final(self)@),
        decreases hidden_set(old(self)@.tiles).len(), 2nat,
    {
        let found = self.get_neighbours(tile_number);
        let ghost around = self@.neighbours(tile_number as int);
        proof {
            lemma_neighbours(self.rows as nat, self.cols as nat, tile_number as int);
        }
        let mut local_mine_flag_count: i32 = 0;
        let mut k: usize = 0;
        while k < found.len()
            invariant
                self.inv(),
                self.locates(found@, around),
                around.len() <= 8,
                k <= found@.len(),
                local_mine_flag_count == mine_flags_among(self@.tiles, around.take(k as int)),
                0 <= local_mine_flag_count <= k,
            decreases found@.len() - k,
        {
            let (x, y) = found[k];
            proof {
                lemma_index_join(self.rows as nat, self.cols as nat, x as int, y as int);
                assert(around.take(k + 1).drop_last() == around.take(k as int));
            }
            if let Some(Flag::Mine) = self.tiles[x][y].flag {
                local_mine_flag_count += 1;
            }
            k += 1;
        }
        proof {
            assert(around.take(k as int) == around);
        }

        // only an exact match will make it auto search
        if danger_level != local_mine_flag_count {
            return ;
        }
        // uncover neighbours

        let mut k: usize = 0;
        while k < found.len()
            invariant
                self.wf(),
                around == old(self)@.neighbours(tile_number as int),
                self.locates(found@, around),
                k <= found@.len(),
                self@ == old(self)@.chord_over(around.take(k as int)),
                old(self)@.same_ground(self@),
                old(self)@.covers(self@),
            decreases found@.len() - k,
        {
            let (x, y) = found[k];
            let neighbour_index = self.indices_to_tile(x, y);
            proof {
                assert(around.take(k + 1).drop_last() == around.take(k as int));
                lemma_covers_count(old(self)@, self@);
            }
            if self.tile_is_hidden(neighbour_index) {
                if self.get_tile_flag(neighbour_index).is_none() {
                    self.uncover_tile(neighbour_index);
                }
            }
            k += 1;
        }
        proof {
            assert(around.take(k as int) == around);
        }
    }

    /// Turns the face of tile `tile_number` down again.
    pub fn hide_tile(&mut self, tile_number: usize)
        requires
            old(self).inv(),
            old(self)@.has(tile_number as int),
        ensures
            final(self).inv(),
            final(self)@ == old(self)@.with_tile(
                tile_number as int,
                Tile { hidden: true, ..old(self)@.tiles[tile_number as int] },
            ),
            old(self).wf() ==> final(self).wf(),
    {
        let (row, col) = self.tile_to_indices(tile_number);
        let mut tile = self.tiles[row][col];
        tile.cover();
        self.put(row, col, tile);
        proof {
            if old(self).wf() {
                lemma_mine_flag_set_update(old(self)@.tiles, tile_number as int, tile);
                lemma_wf_same_ground(old(self)@, self@);
            }
        }
    }

    /// Brings tile `tile_number` back to the state a game starts with:
    /// hidden, safe with no mine counted around it, and without a marker.
    /// The list of mines and the counter of mine markers stay as they are.
    pub fn reset_tile(&mut self, tile_number: usize)
        requires
            old(self).inv(),
            old(self)@.has(tile_number as int),
        ensures
            final(self).inv(),
            final(self)@ == old(self)@.with_tile(tile_number as int, Tile::blank()),
    {
        let (row, col) = self.tile_to_indices(tile_number);
        let mut tile = self.tiles[row][col];
        tile.reset();
        self.put(row, col, tile);
    }

    /// Tells whether the game is won: every mine carries the mine marker
    /// and every other tile is uncovered.
    pub fn check_win(&self) -> (won: bool)
        requires
            self.wf(),
        ensures
            won == self@.won(),
    {
        let mut k: usize = 0;
        while k < self.mine_locations.len()
            invariant
                self.wf(),
                k <= self.mine_locations@.len(),
                forall|j: int|
                    0 <= j < k ==> self@.tiles[(#[trigger] self.mine_locations@[j]) as int].is_mine_flagged(),
            decreases self.mine_locations@.len() - k,
        {
            match self.get_tile_flag(self.mine_locations[k]) {
                Some(Flag::Mine) => {},  // good, need all the others
                _ => {
                    // only mine flags count; no flag on a mine: no win
                    return false;
                },
            }
            k += 1;
        }

        // all mines are flagged as mines, need the rest of the board to be not hidden
        let total_tiles = self.rows * self.cols;
        let mut i: usize = 0;
        while i < total_tiles
            invariant
                self.wf(),
                total_tiles == self.rows * self.cols,
                i <= total_tiles,
                forall|t: int| 0 <= t < i && !self@.lists_mine(t) ==> !(#[trigger] self@.tiles[t]).hidden,
            decreases total_tiles - i,
        {
            // skip mines
            if !self.is_mine_location(i) && self.tile_is_hidden(i) {
                return false;
            }
            i += 1;
        }

        true
    }

    /// Tells whether tile `tile_number` is listed among the mines.
    fn is_mine_location(&self, tile_number: usize) -> (listed: bool)
        ensures
            listed == self@.lists_mine(tile_number as int),
    {
        let mut k: usize = 0;
        while k < self.mine_locations.len()
            invariant
                k <= self.mine_locations@.len(),
                forall|j: int| 0 <= j < k ==> self.mine_locations@[j] != tile_number,
            decreases self.mine_locations@.len() - k,
        {
            if self.mine_locations[k] == tile_number {
                assert(self@.mine_locations[k as int] == tile_number);
                return true;
            }
            k += 1;
        }
        false
    }

    /// The number of rows of the grid.
    pub fn rows(&self) -> (rows: usize)
        ensures
            rows == self@.rows,
    {
        self.rows
    }

    /// The number of columns of the grid.
    pub fn cols(&self) -> (cols: usize)
        ensures
            cols == self@.cols,
    {
        self.cols
    }

    /// The tiles that hold a mine, by linear index.
    pub fn mine_locations(&self) -> (mines: &Vec<usize>)
        ensures
            mines@ == self@.mine_locations,
    {
        &self.mine_locations
    }

    /// The number of tiles that carry the mine marker.
    pub fn flagged_mine_count(&self) -> (count: usize)
        ensures
            count == self@.flagged_mine_count,
    {
        self.mine_flag_counter
    }

    /// Tells what tile `tile_number` shows to the player.
    pub fn tile_face(&self, tile_number: usize) -> (face: Face)
        requires
            self.inv(),
            self@.has(tile_number as int),
        ensures
            face == self@.tiles[tile_number as int].face(),
    {
        if self.tile_is_hidden(tile_number) {
            match self.get_tile_flag(tile_number) {
                Some(Flag::Mine) => Face::FlagMine,
                Some(Flag::Question) => Face::FlagQuestion,
                None => Face::Blank,
            }
        } else {
            match self.get_tile_content(tile_number) {
                TileContent::Danger(level) => Face::Danger(level),
                TileContent::Mine => Face::Mine,
            }
        }
    }

    /// Tells whether tile `tile_number` is still hidden.
    pub fn tile_is_hidden(&self, tile_number: usize) -> (hidden: bool)
        requires
            self.inv(),
            self@.has(tile_number as int),
        ensures
            hidden == self@.tiles[tile_number as int].hidden,
    {
        let (row, col) = self.tile_to_indices(tile_number);
        self.tiles[row][col].hidden
    }

    /// Returns what lies under tile `tile_number`.
    pub fn get_tile_content(&self, tile_number: usize) -> (content: TileContent)
        requires
            self.inv(),
            self@.has(tile_number as int),
        ensures
            content == self@.tiles[tile_number as int].content,
    {
        let (row, col) = self.tile_to_indices(tile_number);
        self.tiles[row][col].content
    }

    /// Returns the marker on tile `tile_number`, if there is one.
    pub fn get_tile_flag(&self, tile_number: usize) -> (flag: Option<Flag>)
        requires
            self.inv(),
            self@.has(tile_number as int),
        ensures
            flag == self@.tiles[tile_number as int].flag,
    {
        let (row, col) = self.tile_to_indices(tile_number);
        self.tiles[row][col].flag
    }

    /// Moves the marker on tile `tile_number` one step on: from none to
    /// mine, from mine to question, from question to none. A visible tile
    /// is left alone. While as many tiles are marked as a mine as there are
    /// mines, a tile without a marker gets the question mark at once.
    pub fn flag_tile(&mut self, tile_number: usize)
        requires
            old(self).wf(),
            old(self)@.has(tile_number as int),
        ensures
            final(self).wf(),
            final(self)@ == old(self)@.flag_cycled(tile_number as int),
            old(self)@.settled() ==> final(self)@.settled(),
    {
        proof {
            if self@.settled() {
                lemma_flag_cycled_settled(self@, tile_number as int);
            }
        }
        // cannot flag revealed tiles
        if !self.tile_is_hidden(tile_number) {
            return ;
        }
        let can_flag_mines = self.mine_flag_counter < self.mine_locations.len();
        let (row, col) = self.tile_to_indices(tile_number);
        proof {
            lemma_tile_sets_finite(self@.tiles);
        }

        let new_flag: Option<Flag>;
        match self.get_tile_flag(tile_number) {
            Some(Flag::Mine) => {
                new_flag = Some(Flag::Question);
                assert(mine_flag_set(self@.tiles).contains(tile_number as int));
                self.mine_flag_counter -= 1;
            },
            Some(Flag::Question) => {
                new_flag = None;
            },
            None => {
                // currently no flag
                if can_flag_mines {
                    new_flag = Some(Flag::Mine);
                    self.mine_flag_counter += 1;
                } else {
                    new_flag = Some(Flag::Question);
                }
            },
        }
        let mut tile = self.tiles[row][col];
        tile.set_flag(new_flag);
        self.put(row, col, tile);
        proof {
            lemma_mine_flag_set_update(old(self)@.tiles, tile_number as int, tile);
            lemma_wf_same_ground(old(self)@, self@);
        }
    }

    /// Puts `tile` in the place of the tile at (`row`, `col`).
    fn put(&mut self, row: usize, col: usize, tile: Tile)
        requires
            old(self).inv(),
            row < old(self).rows,
            col < old(self).cols,
        ensures
            final(self).inv(),
            final(self)@ == old(self)@.with_tile(col * old(self).rows + row, tile),
    {
        self.tiles[row][col] = tile;
        proof {
            let rows = self.rows as nat;
            let cols = self.cols as nat;
            lemma_index_join(rows, cols, row as int, col as int);
            assert forall|i: int| 0 <= i < rows * cols implies (#[trigger] final(self)@.tiles[i])
                == old(self)@.with_tile(col * rows + row, tile).tiles[i] by {
                lemma_index_split(rows, cols, i);
            }
        }
    }
}

/// Asking twice whether the game is won, with nothing done to the minefield
/// in between, gives the same answer twice.
pub proof fn lemma_check_win_repeats(minefield: Minefield, first: bool, second: bool)
    requires
        minefield.wf(),
        call_ensures(Minefield::check_win, (&minefield,), first),
        call_ensures(Minefield::check_win, (&minefield,), second),
    ensures
        first == second,
{
}

} // verus!
