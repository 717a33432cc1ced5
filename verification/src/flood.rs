//! Uncovering tiles on the model: the flood that an empty tile sets off,
//! the chord around a numbered tile, and why the engine's walk over the
//! grid uncovers exactly what the flood reaches.

use vstd::prelude::*;
use vstd::set_lib::lemma_len_subset;
use crate::board::{hidden_set, lemma_danger, lemma_mines_among_none, lemma_tile_sets_finite};
use crate::board::{lemma_wf_same_ground, mine_flag_set};
use crate::board::{mine_flags_among, Board};
use crate::grid::{lemma_index_join, lemma_index_split};
use crate::grid::{lemma_neighbours, neighbours};
use crate::tile::{Tile, TileContent};

verus! {

impl Board {
    /// True when `t` is a tile of this board that is still hidden.
    pub open spec fn covered(self, t: int) -> bool {
        self.has(t) && self.tiles[t].hidden
    }

    /// True when a flood can run along `path`: every tile on it is hidden,
    /// and each tile but the last has no mine around it and has the next
    /// tile of the path among its neighbours.
    pub open spec fn flood_path(self, path: Seq<int>) -> bool
        decreases path.len(),
    {
        if path.len() == 0 {
            false
        } else if path.len() == 1 {
            self.covered(path[0])
        } else {
            let before = path.drop_last();
            &&& self.flood_path(before)
            &&& self.tiles[before.last()].is_clear()
            &&& self.neighbours(before.last()).contains(path.last())
            &&& self.covered(path.last())
        }
    }

    /// True when a flood that starts on tile `from` gets to tile `to`.
    pub open spec fn flood_reaches(self, from: int, to: int) -> bool {
        exists|path: Seq<int>| #[trigger] self.flood_path(path) && path[0] == from && path.last() == to
    }

    /// This board with the counter of mine markers read off the grid.
    pub open spec fn recounted(self) -> Board {
        Board { flagged_mine_count: mine_flag_set(self.tiles).len(), ..self }
    }

    /// This board with the marker taken off tile `i`.
    pub open spec fn unflagged(self, i: int) -> Board {
        self.with_tile(i, Tile { flag: None, ..self.tiles[i] }).recounted()
    }

    /// This board with tile `i` uncovered and its marker taken off.
    pub open spec fn shown(self, i: int) -> Board {
        self.with_tile(i, self.tiles[i].shown()).recounted()
    }

    /// This board after a flood from tile `from`: every tile that the
    /// flood reaches is uncovered and loses its marker.
    pub open spec fn flooded(self, from: int) -> Board {
        Board {
            tiles: Seq::new(
                self.tiles.len(),
                |t: int|
                    if self.flood_reaches(from, t) {
                        self.tiles[t].shown()
                    } else {
                        self.tiles[t]
                    },
            ),
            ..self
        }.recounted()
    }

    /// This board after the hidden tile `i` has been uncovered. A mine
    /// ends the game: every tile is turned up. A tile with no mine around
    /// it sets off a flood. Any other tile is uncovered alone. The tile
    /// loses its marker in each case.
    pub open spec fn opened(self, i: int) -> Board {
        match self.tiles[i].content {
            TileContent::Mine => self.revealed().unflagged(i),
            TileContent::Danger(level) => if level == 0 {
                self.flooded(i)
            } else {
                self.shown(i)
            },
        }
    }

    /// This board after each of the tiles `around`, in turn, has been
    /// uncovered if it was hidden and carried no marker when its turn came.
    pub open spec fn chord_over(self, around: Seq<int>) -> Board
        decreases around.len(),
    {
        if around.len() == 0 {
            self
        } else {
            let so_far = self.chord_over(around.drop_last());
            let next = around.last();
            if so_far.tiles[next].hidden && so_far.tiles[next].flag.is_none() {
                so_far.opened(next)
            } else {
                so_far
            }
        }
    }

    /// This board after a chord on the visible tile `i` that counts
    /// `level` mines around it. Where exactly `level` of the neighbours
    /// carry the mine marker, the neighbours that are hidden and carry no
    /// marker are uncovered one after the other. Otherwise nothing is
    /// uncovered.
    pub open spec fn chorded(self, i: int, level: int) -> Board {
        if mine_flags_among(self.tiles, self.neighbours(i)) == level {
            self.chord_over(self.neighbours(i))
        } else {
            self
        }
    }

    /// This board after the player has asked to uncover tile `i`. A hidden
    /// tile is uncovered. A visible tile that counts at least one mine
    /// around it is chorded. The tile loses its marker in each case.
    pub open spec fn uncovered(self, i: int) -> Board {
        if self.tiles[i].hidden {
            self.opened(i)
        } else {
            match self.tiles[i].content {
                TileContent::Mine => self.unflagged(i),
                TileContent::Danger(level) => if level > 0 {
                    self.chorded(i, level as int).unflagged(i)
                } else {
                    self.unflagged(i)
                },
            }
        }
    }

    /// This board with the face of tile `i` turned up, marker and counter
    /// left as they are.
    pub open spec fn turned_up(self, i: int) -> Board {
        self.with_tile(i, Tile { hidden: false, ..self.tiles[i] })
    }

    /// True of the boards `now` that the engine passes through while it
    /// floods this board from tile `from`: `from` is turned up, every other
    /// tile is as it was or has been reached by the flood and uncovered, and
    /// around each uncovered tile with no mine around it nothing is left
    /// hidden.
    pub open spec fn flooding(self, now: Board, from: int) -> bool {
        &&& self.same_ground(now)
        &&& now.tiles[from] == (Tile { hidden: false, ..self.tiles[from] })
        &&& forall|t: int|
            self.has(t) && t != from ==> (#[trigger] now.tiles[t]) == self.tiles[t] || (self.flood_reaches(
                from,
                t,
            ) && now.tiles[t] == self.tiles[t].shown())
        &&& forall|t: int, u: int|
            self.has(t) && t != from && self.tiles[t].hidden && !now.tiles[t].hidden
                && self.tiles[t].is_clear() && #[trigger] self.neighbours(t).contains(u)
                ==> !now.tiles[u].hidden
    }

    /// True of the boards that play brings about: nothing is hidden around
    /// an uncovered tile that counts no mine, and nothing is hidden once a
    /// mine has been uncovered.
    pub open spec fn settled(self) -> bool {
        &&& forall|t: int, u: int|
            self.has(t) && !self.tiles[t].hidden && self.tiles[t].is_clear() && #[trigger] self.neighbours(
                t,
            ).contains(u) ==> !self.tiles[u].hidden
        &&& forall|m: int, t: int|
            self.has(m) && (#[trigger] self.tiles[m]).is_mine() && !self.tiles[m].hidden && self.has(t)
                ==> !(#[trigger] self.tiles[t]).hidden
    }

    /// True when no tile is hidden on `other` that is visible on this board.
    pub open spec fn covers(self, other: Board) -> bool {
        forall|t: int| self.has(t) && (#[trigger] other.tiles[t]).hidden ==> self.tiles[t].hidden
    }
}

/// A flood path starts and ends on a hidden tile of the board.
pub(crate) proof fn lemma_path_ends(b: Board, path: Seq<int>)
    requires
        b.flood_path(path),
    ensures
        path.len() >= 1,
        b.covered(path[0]),
        b.covered(path.last()),
    decreases path.len(),
{
    if path.len() > 1 {
        lemma_path_ends(b, path.drop_last());
    }
}

/// A flood path on one board is a flood path on every board with the same
/// ground on which the tiles of the path are hidden as well.
pub(crate) proof fn lemma_path_transfer(s: Board, b: Board, path: Seq<int>)
    requires
        s.flood_path(path),
        s.same_ground(b),
        forall|t: int| s.covered(t) ==> #[trigger] b.covered(t),
    ensures
        b.flood_path(path),
    decreases path.len(),
{
    if path.len() > 1 {
        lemma_path_transfer(s, b, path.drop_last());
        lemma_path_ends(s, path.drop_last());
    }
}

/// A flood path grows by one tile at its end.
pub(crate) proof fn lemma_path_extend(b: Board, path: Seq<int>, next: int)
    requires
        b.flood_path(path),
        b.tiles[path.last()].is_clear(),
        b.neighbours(path.last()).contains(next),
        b.covered(next),
    ensures
        b.flood_path(path.push(next)),
        path.push(next)[0] == path[0],
        path.push(next).last() == next,
{
    lemma_path_ends(b, path);
    assert(path.push(next).drop_last() == path);
}

/// A flood path grows by one tile at its start.
pub(crate) proof fn lemma_path_prepend(b: Board, first: int, path: Seq<int>)
    requires
        b.flood_path(path),
        b.covered(first),
        b.tiles[first].is_clear(),
        b.neighbours(first).contains(path[0]),
    ensures
        b.flood_path(seq![first] + path),
        (seq![first] + path)[0] == first,
        (seq![first] + path).last() == path.last(),
    decreases path.len(),
{
    let longer = seq![first] + path;
    lemma_path_ends(b, path);
    if path.len() == 1 {
        assert(longer.drop_last() == seq![first]);
        assert(b.flood_path(seq![first]));
    } else {
        lemma_path_prepend(b, first, path.drop_last());
        assert(longer.drop_last() == seq![first] + path.drop_last());
    }
}

/// A flood that starts on a tile with a mine around it goes no further.
pub(crate) proof fn lemma_path_stops(b: Board, path: Seq<int>)
    requires
        b.flood_path(path),
        !b.tiles[path[0]].is_clear(),
    ensures
        path.len() == 1,
    decreases path.len(),
{
    if path.len() > 1 {
        lemma_path_stops(b, path.drop_last());
    }
}

/// A flood reaches the hidden tile that it starts on.
pub proof fn lemma_flood_reaches_start(b: Board, from: int)
    requires
        b.covered(from),
    ensures
        b.flood_reaches(from, from),
{
    assert(b.flood_path(seq![from]));
}

/// A flood from a hidden tile with a mine around it uncovers that tile
/// alone.
pub proof fn lemma_flooded_alone(b: Board, from: int)
    requires
        b.covered(from),
        !b.tiles[from].is_clear(),
    ensures
        b.flooded(from) == b.shown(from),
{
    lemma_flood_reaches_start(b, from);
    assert forall|t: int| 0 <= t < b.tiles.len() implies (#[trigger] b.flooded(from).tiles[t]) == b.shown(from).tiles[t] by {
        if b.flood_reaches(from, t) {
            let path = choose|path: Seq<int>| #[trigger] b.flood_path(path) && path[0] == from && path.last() == t;
            lemma_path_stops(b, path);
        }
    }
    assert(b.flooded(from).tiles == b.shown(from).tiles);
}

/// The walk of a flood starts with the tile that it starts on turned up.
pub(crate) proof fn lemma_flood_start(b: Board, from: int)
    requires
        b.covered(from),
    ensures
        b.flooding(b.turned_up(from), from),
        hidden_set(b.turned_up(from).tiles).len() < hidden_set(b.tiles).len(),
{
    let now = b.turned_up(from);
    lemma_tile_sets_finite(b.tiles);
    assert(hidden_set(now.tiles) == hidden_set(b.tiles).remove(from));
}

/// One step of the walk of a flood: a flood from a hidden neighbour of the
/// tile that the walk started on.
pub(crate) proof fn lemma_flood_step(b: Board, now: Board, from: int, next: int)
    requires
        b.tiles.len() == b.rows * b.cols,
        b.covered(from),
        b.tiles[from].is_clear(),
        b.flooding(now, from),
        b.neighbours(from).contains(next),
        now.covered(next),
    ensures
        b.flooding(now.flooded(next), from),
        !now.flooded(next).tiles[next].hidden,
        now.covers(now.flooded(next)),
{
    let after = now.flooded(next);
    lemma_flood_reaches_start(now, next);
    assert forall|t: int| now.covered(t) implies #[trigger] b.covered(t) by {
        assert(now.tiles[t] == b.tiles[t]);
    }
    assert forall|t: int| b.has(t) && t != from implies (#[trigger] after.tiles[t]) == b.tiles[t] || (b.flood_reaches(
        from,
        t,
    ) && after.tiles[t] == b.tiles[t].shown()) by {
        if now.flood_reaches(next, t) {
            let path = choose|path: Seq<int>| #[trigger] now.flood_path(path) && path[0] == next && path.last() == t;
            lemma_path_ends(now, path);
            lemma_path_transfer(now, b, path);
            lemma_path_prepend(b, from, path);
            assert(b.flood_path(seq![from] + path));
            assert(now.tiles[t] == b.tiles[t]);
        } else {
            assert(after.tiles[t] == now.tiles[t]);
        }
    }
    assert(after.tiles[from] == now.tiles[from]) by {
        if now.flood_reaches(next, from) {
            let path = choose|path: Seq<int>| #[trigger] now.flood_path(path) && path[0] == next && path.last() == from;
            lemma_path_ends(now, path);
        }
    }
    assert forall|t: int, u: int|
        b.has(t) && t != from && b.tiles[t].hidden && !after.tiles[t].hidden && b.tiles[t].is_clear()
            && #[trigger] b.neighbours(t).contains(u) implies !after.tiles[u].hidden by {
        lemma_neighbours(b.rows, b.cols, t);
        assert(b.has(u));
        if !now.tiles[t].hidden {
            assert(!now.tiles[u].hidden);
        } else {
            assert(now.flood_reaches(next, t));
            if now.tiles[u].hidden {
                let path = choose|path: Seq<int>| #[trigger] now.flood_path(path) && path[0] == next && path.last() == t;
                assert(now.tiles[t] == b.tiles[t]);
                lemma_path_extend(now, path, u);
                assert(now.flood_path(path.push(u)));
                assert(now.flood_reaches(next, u));
            }
        }
    }
}

/// The tile at the end of a flood path from `from` is uncovered once the
/// walk has seen to every neighbour of `from`.
pub(crate) proof fn lemma_flood_covers_path(b: Board, now: Board, from: int, path: Seq<int>)
    requires
        b.tiles.len() == b.rows * b.cols,
        b.flooding(now, from),
        forall|k: int| 0 <= k < b.neighbours(from).len() ==> !now.tiles[#[trigger] b.neighbours(from)[k]].hidden,
        b.flood_path(path),
        path[0] == from,
    ensures
        !now.tiles[path.last()].hidden,
    decreases path.len(),
{
    if path.len() > 1 {
        let before = path.drop_last();
        let t = before.last();
        let u = path.last();
        lemma_path_ends(b, before);
        lemma_flood_covers_path(b, now, from, before);
        if t == from {
            let k = choose|k: int| 0 <= k < b.neighbours(from).len() && b.neighbours(from)[k] == u;
            assert(!now.tiles[b.neighbours(from)[k]].hidden);
        } else {
            assert(b.neighbours(t).contains(u));
        }
    }
}

/// The end of the walk of a flood: once every neighbour of the tile that
/// the walk started on is uncovered, the board is the flooded board, but
/// for the marker on that tile.
pub(crate) proof fn lemma_flood_done(b: Board, now: Board, from: int)
    requires
        b.tiles.len() == b.rows * b.cols,
        b.covered(from),
        b.flooding(now, from),
        forall|k: int| 0 <= k < b.neighbours(from).len() ==> !now.tiles[#[trigger] b.neighbours(from)[k]].hidden,
    ensures
        now.unflagged(from) == b.flooded(from),
{
    let done = now.unflagged(from);
    let goal = b.flooded(from);
    lemma_flood_reaches_start(b, from);
    assert forall|t: int| 0 <= t < b.tiles.len() implies (#[trigger] done.tiles[t]) == goal.tiles[t] by {
        if t != from {
            if b.flood_reaches(from, t) {
                let path = choose|path: Seq<int>| #[trigger] b.flood_path(path) && path[0] == from && path.last() == t;
                lemma_flood_covers_path(b, now, from, path);
                lemma_path_ends(b, path);
            }
        }
    }
    assert(done.tiles == goal.tiles);
}

/// Where no tile is hidden that was visible, no more tiles are hidden
/// than were.
pub(crate) proof fn lemma_covers_count(before: Board, after: Board)
    requires
        before.tiles.len() == after.tiles.len(),
        before.covers(after),
    ensures
        hidden_set(after.tiles).len() <= hidden_set(before.tiles).len(),
{
    lemma_tile_sets_finite(before.tiles);
    assert(hidden_set(after.tiles).subset_of(hidden_set(before.tiles))) by {
        assert forall|t: int| hidden_set(after.tiles).contains(t) implies hidden_set(before.tiles).contains(t) by {
            assert(after.tiles[t].hidden);
        }
    }
    lemma_len_subset(hidden_set(after.tiles), hidden_set(before.tiles));
}

/// On a board without mines every tile counts no mine around it.
pub proof fn lemma_mine_free_is_clear(b: Board, t: int)
    requires
        b.wf(),
        b.mine_locations.len() == 0,
        b.has(t),
    ensures
        b.tiles[t].is_clear(),
{
    lemma_neighbours(b.rows, b.cols, t);
    let around = b.neighbours(t);
    assert forall|k: int| 0 <= k < around.len() implies !b.tiles[#[trigger] around[k]].is_mine() by {
        assert(!b.lists_mine(around[k]));
    }
    lemma_mines_among_none(b.tiles, around);
    assert(!b.lists_mine(t));
}

/// The tile one row up from tile `t`, or, in the first row, the tile one
/// column to the left.
pub open spec fn step_back(rows: nat, t: int) -> int {
    if t % (rows as int) > 0 {
        t - 1
    } else {
        t - rows
    }
}

/// Every tile but the first has a tile before it that it touches.
pub proof fn lemma_step_back(rows: nat, cols: nat, t: int)
    requires
        0 < t < rows * cols,
    ensures
        0 <= step_back(rows, t) < t,
        neighbours(rows, cols, step_back(rows, t)).contains(t),
        neighbours(rows, cols, t).contains(step_back(rows, t)),
{
    let d = rows as int;
    lemma_index_split(rows, cols, t);
    let row = t % d;
    let col = t / d;
    if row > 0 {
        lemma_index_join(rows, cols, row - 1, col);
    } else {
        assert(col >= 1) by (nonlinear_arith)
            requires
                col * d + row == t,
                row == 0,
                t > 0,
                col >= 0,
        ;
        lemma_index_join(rows, cols, row, col - 1);
        assert((col - 1) * d + row == t - d) by (nonlinear_arith)
            requires
                col * d + row == t,
        ;
    }
    lemma_neighbours(rows, cols, step_back(rows, t));
    lemma_neighbours(rows, cols, t);
}

/// On a board without mines on which every tile is hidden, a flood that has
/// got to a tile gets to the first tile: it goes on to the tile one row up,
/// or, in the first row, to the tile one column to the left.
pub(crate) proof fn lemma_flood_reaches_first(b: Board, from: int, t: int)
    requires
        b.wf(),
        b.mine_locations.len() == 0,
        forall|u: int| b.has(u) ==> (#[trigger] b.tiles[u]).hidden,
        b.has(t),
        b.flood_reaches(from, t),
    ensures
        b.flood_reaches(from, 0),
    decreases t,
{
    if t > 0 {
        let prev = step_back(b.rows, t);
        lemma_step_back(b.rows, b.cols, t);
        lemma_mine_free_is_clear(b, t);
        let path = choose|path: Seq<int>| #[trigger] b.flood_path(path) && path[0] == from && path.last() == t;
        lemma_path_extend(b, path, prev);
        assert(b.flood_path(path.push(prev)));
        lemma_flood_reaches_first(b, from, prev);
    }
}

/// On a board without mines on which every tile is hidden, a flood from any
/// tile reaches every tile.
pub proof fn lemma_flood_reaches_all(b: Board, from: int, t: int)
    requires
        b.wf(),
        b.mine_locations.len() == 0,
        forall|u: int| b.has(u) ==> (#[trigger] b.tiles[u]).hidden,
        b.has(from),
        b.has(t),
    ensures
        b.flood_reaches(from, t),
    decreases t,
{
    if t == 0 {
        lemma_flood_reaches_start(b, from);
        lemma_flood_reaches_first(b, from, from);
    } else {
        let prev = step_back(b.rows, t);
        lemma_step_back(b.rows, b.cols, t);
        lemma_flood_reaches_all(b, from, prev);
        lemma_mine_free_is_clear(b, prev);
        let path = choose|path: Seq<int>| #[trigger] b.flood_path(path) && path[0] == from && path.last() == prev;
        lemma_path_extend(b, path, t);
        assert(b.flood_path(path.push(t)));
    }
}

/// On a board without mines that play has brought about, the first tile is
/// uncovered exactly when any other tile is.
pub proof fn lemma_mine_free_all_or_none(b: Board, t: int)
    requires
        b.wf(),
        b.settled(),
        b.mine_locations.len() == 0,
        b.has(t),
    ensures
        b.has(0),
        b.tiles[t].hidden == b.tiles[0].hidden,
    decreases t,
{
    if t > 0 {
        let prev = step_back(b.rows, t);
        lemma_step_back(b.rows, b.cols, t);
        lemma_mine_free_all_or_none(b, prev);
        lemma_mine_free_is_clear(b, prev);
        lemma_mine_free_is_clear(b, t);
        assert(b.neighbours(prev).contains(t));
        assert(b.neighbours(t).contains(prev));
    }
}

/// On a board without mines, uncovering a tile leaves no tile hidden,
/// whichever tile it is.
pub proof fn lemma_mine_free_board_opens(b: Board, i: int)
    requires
        b.wf(),
        b.settled(),
        b.mine_locations.len() == 0,
        b.has(i),
    ensures
        forall|t: int| b.has(t) ==> !(#[trigger] b.uncovered(i).tiles[t]).hidden,
{
    lemma_mine_free_is_clear(b, i);
    assert forall|u: int| b.has(u) implies (#[trigger] b.tiles[u]).hidden == b.tiles[0].hidden by {
        lemma_mine_free_all_or_none(b, u);
    }
    assert forall|t: int| b.has(t) implies !(#[trigger] b.uncovered(i).tiles[t]).hidden by {
        if b.tiles[i].hidden {
            lemma_flood_reaches_all(b, i, t);
        }
    }
}

/// Uncovering a hidden mine turns every tile up.
pub proof fn lemma_mine_ends_game(b: Board, i: int)
    requires
        b.covered(i),
        b.tiles[i].is_mine(),
    ensures
        forall|t: int| b.has(t) ==> !(#[trigger] b.uncovered(i).tiles[t]).hidden,
{
}

/// A board on the ground of a consistent board, with no tile marked that
/// was not, is a consistent board once its markers are counted.
pub(crate) proof fn lemma_recounted_wf(before: Board, after: Board)
    requires
        before.wf(),
        before.same_ground(after),
        forall|t: int| before.has(t) && (#[trigger] after.tiles[t]).is_mine_flagged() ==> before.tiles[t].is_mine_flagged(),
    ensures
        after.recounted().wf(),
{
    lemma_tile_sets_finite(before.tiles);
    assert(mine_flag_set(after.tiles).subset_of(mine_flag_set(before.tiles))) by {
        assert forall|t: int| mine_flag_set(after.tiles).contains(t) implies mine_flag_set(before.tiles).contains(t) by {
            assert(after.tiles[t].is_mine_flagged());
        }
    }
    lemma_len_subset(mine_flag_set(after.tiles), mine_flag_set(before.tiles));
    lemma_wf_same_ground(before, after.recounted());
}

/// A flood from a safe tile gets to no mine.
pub proof fn lemma_flood_is_safe(b: Board, from: int, to: int)
    requires
        b.wf(),
        b.flood_reaches(from, to),
        !b.tiles[from].is_mine(),
    ensures
        !b.tiles[to].is_mine(),
{
    let path = choose|path: Seq<int>| #[trigger] b.flood_path(path) && path[0] == from && path.last() == to;
    if path.len() > 1 {
        let before = path.drop_last();
        lemma_path_ends(b, before);
        lemma_danger(b, before.last());
        let around = b.neighbours(before.last());
        let k = choose|k: int| 0 <= k < around.len() && around[k] == to;
        assert(!b.tiles[around[k]].is_mine());
    }
}

/// A consistent board stays one when a hidden tile is uncovered,
/// and no mine is turned up where the tile is safe.
pub proof fn lemma_opened(b: Board, i: int)
    requires
        b.wf(),
        b.covered(i),
    ensures
        b.opened(i).wf(),
        b.same_ground(b.opened(i)),
        b.covers(b.opened(i)),
        !b.tiles[i].is_mine() ==> forall|t: int|
            b.has(t) && b.tiles[t].is_mine() ==> (#[trigger] b.opened(i).tiles[t]) == b.tiles[t],
{
    let after = b.opened(i);
    match b.tiles[i].content {
        TileContent::Mine => {
            let turned = b.revealed();
            lemma_recounted_wf(b, turned.with_tile(i, Tile { flag: None, ..turned.tiles[i] }));
        },
        TileContent::Danger(level) => {
            if level != 0 {
                lemma_flooded_alone(b, i);
            }
            let flooded = Board {
                tiles: Seq::new(
                    b.tiles.len(),
                    |t: int|
                        if b.flood_reaches(i, t) {
                            b.tiles[t].shown()
                        } else {
                            b.tiles[t]
                        },
                ),
                ..b
            };
            lemma_recounted_wf(b, flooded);
            assert forall|t: int| b.has(t) && b.tiles[t].is_mine() implies (#[trigger] after.tiles[t]) == b.tiles[t] by {
                if b.flood_reaches(i, t) {
                    lemma_flood_is_safe(b, i, t);
                }
            }
        },
    }
}

/// A consistent board stays one through the uncovering of a chord,
/// and no mine is turned up where every mine among the tiles of the chord
/// carries the mine marker.
pub proof fn lemma_chord_over(b: Board, around: Seq<int>)
    requires
        b.wf(),
        forall|k: int| 0 <= k < around.len() ==> b.has(#[trigger] around[k]),
    ensures
        b.chord_over(around).wf(),
        b.same_ground(b.chord_over(around)),
        b.covers(b.chord_over(around)),
        (forall|k: int| 0 <= k < around.len() && b.tiles[#[trigger] around[k]].is_mine() ==> b.tiles[around[k]].is_mine_flagged())
            ==> forall|t: int|
            b.has(t) && b.tiles[t].is_mine() ==> (#[trigger] b.chord_over(around).tiles[t]) == b.tiles[t],
    decreases around.len(),
{
    if around.len() > 0 {
        let front = around.drop_last();
        let next = around.last();
        let so_far = b.chord_over(front);
        assert forall|k: int| 0 <= k < front.len() implies b.has(#[trigger] front[k]) by {
            assert(front[k] == around[k]);
        }
        lemma_chord_over(b, front);
        assert(b.has(next));
        if so_far.tiles[next].hidden && so_far.tiles[next].flag.is_none() {
            lemma_opened(so_far, next);
        }
        let after = b.chord_over(around);
        if forall|k: int| 0 <= k < around.len() && b.tiles[#[trigger] around[k]].is_mine() ==> b.tiles[around[k]].is_mine_flagged() {
            assert forall|k: int| 0 <= k < front.len() && b.tiles[#[trigger] front[k]].is_mine() implies b.tiles[front[k]].is_mine_flagged() by {
                assert(front[k] == around[k]);
            }
            assert forall|t: int| b.has(t) && b.tiles[t].is_mine() implies (#[trigger] after.tiles[t]) == b.tiles[t] by {
                assert(so_far.tiles[t] == b.tiles[t]);
                if so_far.tiles[next].hidden && so_far.tiles[next].flag.is_none() {
                    if b.tiles[next].is_mine() {
                        assert(so_far.tiles[next] == b.tiles[next]);
                        assert(b.tiles[around[around.len() - 1]].is_mine_flagged());
                    }
                    assert(so_far.tiles[t].is_mine());
                }
            }
        }
    }
}

/// A consistent board stays one when the player uncovers a tile or
/// chords around it: the mines, the counts and the counter of markers are
/// as they should be afterwards.
pub proof fn lemma_uncovered_wf(b: Board, i: int)
    requires
        b.wf(),
        b.has(i),
    ensures
        b.uncovered(i).wf(),
        b.same_ground(b.uncovered(i)),
        b.covers(b.uncovered(i)),
{
    if b.tiles[i].hidden {
        lemma_opened(b, i);
    } else {
        let handled = match b.tiles[i].content {
            TileContent::Mine => b,
            TileContent::Danger(level) => if level > 0 {
                b.chorded(i, level as int)
            } else {
                b
            },
        };
        lemma_neighbours(b.rows, b.cols, i);
        lemma_chord_over(b, b.neighbours(i));
        lemma_recounted_wf(handled, handled.with_tile(i, Tile { flag: None, ..handled.tiles[i] }));
    }
}

/// A chord uncovers no mine where every mine around the tile carries the
/// mine marker.
pub proof fn lemma_chord_is_safe(b: Board, i: int)
    requires
        b.wf(),
        b.has(i),
        !b.tiles[i].hidden,
        forall|k: int|
            0 <= k < b.neighbours(i).len() && b.tiles[#[trigger] b.neighbours(i)[k]].is_mine()
                ==> b.tiles[b.neighbours(i)[k]].is_mine_flagged(),
    ensures
        forall|t: int| b.has(t) && b.tiles[t].is_mine() ==> (#[trigger] b.uncovered(i).tiles[t]).hidden == b.tiles[t].hidden,
{
    lemma_neighbours(b.rows, b.cols, i);
    lemma_chord_over(b, b.neighbours(i));
}

/// A chord changes nothing on the board where the mine markers around the
/// tile are not as many as the mines that the tile counts.
pub proof fn lemma_chord_needs_exact_count(b: Board, i: int)
    requires
        b.wf(),
        b.has(i),
        !b.tiles[i].hidden,
        b.tiles[i].flag.is_none(),
        b.tiles[i].content matches TileContent::Danger(level) && mine_flags_among(b.tiles, b.neighbours(i)) != level,
    ensures
        b.uncovered(i) == b,
{
    assert(b.uncovered(i).tiles == b.tiles);
}

/// A board on which nothing has been uncovered is one that play brings
/// about.
pub proof fn lemma_untouched_settled(b: Board)
    requires
        b.tiles.len() == b.rows * b.cols,
        b.untouched(),
    ensures
        b.settled(),
{
    assert forall|t: int, u: int|
        b.has(t) && !b.tiles[t].hidden && b.tiles[t].is_clear() && #[trigger] b.neighbours(t).contains(u) implies !b.tiles[u].hidden by {
        assert(b.tiles[t].hidden);
    }
}

/// A board that play brings about stays one when the marker on a tile moves
/// one step on.
pub proof fn lemma_flag_cycled_settled(b: Board, i: int)
    requires
        b.wf(),
        b.has(i),
        b.settled(),
    ensures
        b.flag_cycled(i).settled(),
{
    let after = b.flag_cycled(i);
    assert forall|t: int| b.has(t) implies (#[trigger] after.tiles[t]).hidden == b.tiles[t].hidden && after.tiles[t].content
        == b.tiles[t].content by {}
    lemma_settled_same_faces(b, after);
}

/// Whether a board is one that play brings about depends only on the grid,
/// on what lies under the tiles and on which of them are hidden.
pub(crate) proof fn lemma_settled_same_faces(before: Board, after: Board)
    requires
        before.settled(),
        after.rows == before.rows,
        after.cols == before.cols,
        after.tiles.len() == before.tiles.len(),
        forall|t: int|
            before.has(t) ==> (#[trigger] after.tiles[t]).hidden == before.tiles[t].hidden && after.tiles[t].content
                == before.tiles[t].content,
        before.tiles.len() == before.rows * before.cols,
    ensures
        after.settled(),
{
    assert forall|t: int, u: int|
        after.has(t) && !after.tiles[t].hidden && after.tiles[t].is_clear() && #[trigger] after.neighbours(t).contains(
            u,
        ) implies !after.tiles[u].hidden by {
        lemma_neighbours(before.rows, before.cols, t);
        assert(before.neighbours(t).contains(u));
        assert(!before.tiles[t].hidden);
        assert(!before.tiles[u].hidden);
    }
    assert forall|m: int, t: int|
        after.has(m) && (#[trigger] after.tiles[m]).is_mine() && !after.tiles[m].hidden && after.has(t) implies !(
        #[trigger] after.tiles[t]).hidden by {
        assert(before.tiles[m].is_mine() && !before.tiles[m].hidden);
        assert(!before.tiles[t].hidden);
    }
}

/// A board that play brings about stays one when a hidden tile is
/// uncovered.
pub proof fn lemma_opened_settled(b: Board, i: int)
    requires
        b.wf(),
        b.settled(),
        b.covered(i),
    ensures
        b.opened(i).settled(),
{
    let after = b.opened(i);
    lemma_opened(b, i);
    match b.tiles[i].content {
        TileContent::Mine => {
            assert forall|t: int| b.has(t) implies !(#[trigger] after.tiles[t]).hidden by {}
            assert forall|t: int, u: int|
                after.has(t) && !after.tiles[t].hidden && after.tiles[t].is_clear() && #[trigger] after.neighbours(
                    t,
                ).contains(u) implies !after.tiles[u].hidden by {
                lemma_neighbours(b.rows, b.cols, t);
                assert(b.neighbours(t).contains(u));
                assert(b.has(u));
            }
        },
        TileContent::Danger(level) => {
            if level != 0 {
                lemma_flooded_alone(b, i);
            }
            assert(after == b.flooded(i));
            assert forall|t: int, u: int|
                after.has(t) && !after.tiles[t].hidden && after.tiles[t].is_clear() && #[trigger] after.neighbours(
                    t,
                ).contains(u) implies !after.tiles[u].hidden by {
                lemma_neighbours(b.rows, b.cols, t);
                assert(b.neighbours(t).contains(u));
                assert(b.has(u));
                if !b.tiles[t].hidden {
                    assert(!b.tiles[u].hidden);
                } else if b.tiles[u].hidden {
                    assert(b.flood_reaches(i, t));
                    let path = choose|path: Seq<int>| #[trigger] b.flood_path(path) && path[0] == i && path.last() == t;
                    lemma_path_extend(b, path, u);
                    assert(b.flood_path(path.push(u)));
                    assert(b.flood_reaches(i, u));
                }
            }
            assert forall|m: int, t: int|
                after.has(m) && (#[trigger] after.tiles[m]).is_mine() && !after.tiles[m].hidden && after.has(t) implies !(
                #[trigger] after.tiles[t]).hidden by {
                assert(after.tiles[m] == b.tiles[m]);
                assert(!b.tiles[t].hidden);
            }
        },
    }
}

/// A board that play brings about stays one through the uncovering of a
/// chord.
pub proof fn lemma_chord_over_settled(b: Board, around: Seq<int>)
    requires
        b.wf(),
        b.settled(),
        forall|k: int| 0 <= k < around.len() ==> b.has(#[trigger] around[k]),
    ensures
        b.chord_over(around).settled(),
    decreases around.len(),
{
    if around.len() > 0 {
        let front = around.drop_last();
        let next = around.last();
        let so_far = b.chord_over(front);
        assert forall|k: int| 0 <= k < front.len() implies b.has(#[trigger] front[k]) by {
            assert(front[k] == around[k]);
        }
        lemma_chord_over(b, front);
        lemma_chord_over_settled(b, front);
        assert(b.has(next));
        if so_far.tiles[next].hidden && so_far.tiles[next].flag.is_none() {
            lemma_opened_settled(so_far, next);
        }
    }
}

/// A board that play brings about stays one when the player uncovers a tile
/// or chords around it.
pub proof fn lemma_uncovered_settled(b: Board, i: int)
    requires
        b.wf(),
        b.settled(),
        b.has(i),
    ensures
        b.uncovered(i).settled(),
{
    if b.tiles[i].hidden {
        lemma_opened_settled(b, i);
    } else {
        let handled = match b.tiles[i].content {
            TileContent::Mine => b,
            TileContent::Danger(level) => if level > 0 {
                b.chorded(i, level as int)
            } else {
                b
            },
        };
        lemma_neighbours(b.rows, b.cols, i);
        lemma_chord_over(b, b.neighbours(i));
        lemma_chord_over_settled(b, b.neighbours(i));
        let after = b.uncovered(i);
        assert forall|t: int| handled.has(t) implies (#[trigger] after.tiles[t]).hidden == handled.tiles[t].hidden
            && after.tiles[t].content == handled.tiles[t].content by {}
        lemma_settled_same_faces(handled, after);
    }
}

} // verus!
