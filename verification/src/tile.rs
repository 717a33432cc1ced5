//! One cell of the grid: whether the player has uncovered it, what lies
//! under it, and the marker the player may have put on it.

use vstd::prelude::*;

verus! {

/// A marker that the player puts on a tile that is still hidden.
#[derive(Clone, Copy, Debug, PartialEq, Eq, Structural)]
pub enum Flag {
    /// The player believes the tile holds a mine.
    Mine,
    /// The player is unsure about the tile.
    Question,
}

/// What lies under a tile.
#[derive(Clone, Copy, Debug, PartialEq, Eq, Structural)]
pub enum TileContent {
    /// The tile holds a mine.
    Mine,
    /// The tile is safe; the number counts the mines among its neighbours.
    Danger(i32),
}

/// One cell of the grid.
#[derive(Clone, Copy, Debug, PartialEq, Eq, Structural)]
pub struct Tile {
    /// True until the tile is uncovered.
    pub hidden: bool,
    /// The mine, or the count of mines around a safe tile.
    pub content: TileContent,
    /// The player's marker, if there is one.
    pub flag: Option<Flag>,
}

/// What a tile shows to the player.
#[derive(Clone, Copy, Debug, PartialEq, Eq, Structural)]
pub enum Face {
    /// A hidden tile without a marker.
    Blank,
    /// A hidden tile that the player has marked as a mine.
    FlagMine,
    /// A hidden tile that the player has put a question mark on.
    FlagQuestion,
    /// An uncovered mine.
    Mine,
    /// An uncovered safe tile, with the number of mines around it.
    Danger(i32),
}

impl Tile {
    /// What the tile shows: its marker, or nothing, while it is hidden, and
    /// what lies under it once it is uncovered.
    pub open spec fn face(self) -> Face {
        if self.hidden {
            match self.flag {
                Some(Flag::Mine) => Face::FlagMine,
                Some(Flag::Question) => Face::FlagQuestion,
                None => Face::Blank,
            }
        } else {
            match self.content {
                TileContent::Danger(level) => Face::Danger(level),
                TileContent::Mine => Face::Mine,
            }
        }
    }

    /// A tile as every game starts with it: hidden, safe, without a marker.
    pub open spec fn blank() -> Tile {
        Tile { hidden: true, content: TileContent::Danger(0), flag: None }
    }

    /// This tile with its face turned up and its marker taken off.
    pub open spec fn shown(self) -> Tile {
        Tile { hidden: false, content: self.content, flag: None }
    }

    /// True when the tile holds a mine.
    pub open spec fn is_mine(self) -> bool {
        self.content == TileContent::Mine
    }

    /// True when the tile is safe and no neighbour holds a mine.
    pub open spec fn is_clear(self) -> bool {
        self.content == TileContent::Danger(0)
    }

    /// True when the player has marked the tile as a mine.
    pub open spec fn is_mine_flagged(self) -> bool {
        self.flag == Some(Flag::Mine)
    }

    /// Creates the tile that every game starts with.
    pub fn new() -> (tile: Tile)
        ensures
            tile == Tile::blank(),
    {
        Tile { hidden: true, content: TileContent::Danger(0), flag: None }
    }

    /// Turns the tile's face up.
    pub fn uncover(&mut self)
        ensures
            *final(self) == (Tile { hidden: false, ..*old(self) }),
    {
        self.hidden = false;
    }

    /// Turns the tile's face down again.
    pub fn cover(&mut self)
        ensures
            *final(self) == (Tile { hidden: true, ..*old(self) }),
    {
        self.hidden = true;
    }

    /// Replaces the player's marker.
    pub fn set_flag(&mut self, flag: Option<Flag>)
        ensures
            *final(self) == (Tile { flag: flag, ..*old(self) }),
    {
        self.flag = flag;
    }

    /// Takes the marker off the tile.
    fn reset_flag(&mut self)
        ensures
            *final(self) == (Tile { flag: None, ..*old(self) }),
    {
        self.flag = None;
    }

    /// Puts a mine under the tile.
    pub fn set_as_mine(&mut self)
        ensures
            *final(self) == (Tile { content: TileContent::Mine, ..*old(self) }),
    {
        self.content = TileContent::Mine;
    }

    /// Makes the tile safe, with `danger_level` mines counted around it.
    pub fn set_danger_level(&mut self, danger_level: i32)
        requires
            0 <= danger_level <= 8,
        ensures
            *final(self) == (Tile { content: TileContent::Danger(danger_level), ..*old(self) }),
    {
        self.content = TileContent::Danger(danger_level);
    }

    /// Brings the tile back to the state a game starts with.
    pub fn reset(&mut self)
        ensures
            *final(self) == Tile::blank(),
    {
        self.cover();
        self.set_danger_level(0);
        self.reset_flag();
    }
}

} // verus!
