//! A game in play: the minefield, where its tiles stand on the screen, and
//! what each thing that the player does makes of them.

use vstd::prelude::*;
use crate::board::Board;
use crate::layout::{Layout, LayoutView};
use crate::minefield::Minefield;
use crate::tile::TileContent;

verus! {

/// A button of the mouse.
#[derive(Clone, Copy, Debug, PartialEq, Eq, Structural)]
pub enum Button {
    /// The left button: it uncovers.
    Left,
    /// The right button: it marks.
    Right,
    /// Any other button.
    Other,
}

/// What the player has done.
#[derive(Clone, Copy, Debug, PartialEq, Eq, Structural)]
pub enum Input {
    /// The player has closed the window or pressed the escape key.
    Quit,
    /// The player has pressed a button of the mouse at the point (`x`, `y`)
    /// of the screen.
    Press { x: i32, y: i32, button: Button },
    /// The player has asked for a new game.
    Restart,
    /// Anything else.
    Other,
}

/// What is to be done once the game has taken in what the player did.
#[derive(Clone, Copy, Debug, PartialEq, Eq, Structural)]
pub enum Action {
    /// The game is over: leave.
    Stop,
    /// Go on; there is nothing to tell.
    Continue,
    /// Go on, and tell that the player has asked to uncover the mine at
    /// (`row`, `col`).
    TellMine { row: usize, col: usize },
    /// Go on, and tell that `flagged` tiles carry the mine marker, of
    /// `mines` mines.
    TellFlags { flagged: usize, mines: usize },
}

/// A game in play.
pub struct Game {
    minefield: Minefield,
    layout: Layout,
    game_won: bool,
}

/// A game as a mathematical value.
pub struct GameView {
    /// The board.
    pub board: Board,
    /// Where the tiles stand on the screen.
    pub layout: LayoutView,
    /// True once the game has been found won.
    pub won: bool,
}

impl GameView {
    /// The board after the player has pressed `button` at the point
    /// (`x`, `y`). On a tile, the left button uncovers and the right button
    /// marks. Anywhere else, and with any other button, the board stays as
    /// it is.
    pub open spec fn pressed(self, x: int, y: int, button: Button) -> Board {
        match self.layout.tile_at(x, y) {
            Some(i) => match button {
                Button::Left => self.board.uncovered(i),
                Button::Right => self.board.flag_cycled(i),
                Button::Other => self.board,
            },
            None => self.board,
        }
    }

    /// What is to be done once the player has pressed `button` at the point
    /// (`x`, `y`): the left button on a mine tells of the mine, and the
    /// right button on a hidden tile tells how many tiles carry the mine
    /// marker afterwards.
    pub open spec fn told(self, x: int, y: int, button: Button) -> Action {
        match self.layout.tile_at(x, y) {
            Some(i) => match button {
                Button::Left => if self.board.tiles[i].is_mine() {
                    Action::TellMine {
                        row: (i % (self.board.rows as int)) as usize,
                        col: (i / (self.board.rows as int)) as usize,
                    }
                } else {
                    Action::Continue
                },
                Button::Right => if self.board.tiles[i].hidden {
                    Action::TellFlags {
                        flagged: self.board.flag_cycled(i).flagged_mine_count as usize,
                        mines: self.board.mine_locations.len() as usize,
                    }
                } else {
                    Action::Continue
                },
                Button::Other => Action::Continue,
            },
            None => Action::Continue,
        }
    }
}

impl View for Game {
    type V = GameView;

    closed spec fn view(&self) -> GameView {
        GameView { board: self.minefield@, layout: self.layout@, won: self.game_won }
    }
}

impl Game {
    /// The minefield and the layout are as they should be, and they are of
    /// one grid.
    pub closed spec fn wf(&self) -> bool {
        &&& self.minefield.wf()
        &&& self.layout@.wf()
        &&& self.layout@.rows == self.minefield@.rows
        &&& self.layout@.cols == self.minefield@.cols
    }

    /// Starts to play on `minefield`, with its tiles on the screen as `layout`
    /// has them.
    pub fn new(minefield: Minefield, layout: Layout) -> (game: Game)
        requires
            minefield.wf(),
            layout@.wf(),
            layout@.rows == minefield@.rows,
            layout@.cols == minefield@.cols,
        ensures
            game.wf(),
            game@ == (GameView { board: minefield@, layout: layout@, won: false }),
    {
        Game { minefield, layout, game_won: false }
    }

    /// The minefield that the game is played on.
    pub fn minefield(&self) -> (minefield: &Minefield)
        requires
            self.wf(),
        ensures
            minefield.wf(),
            minefield@ == self@.board,
    {
        &self.minefield
    }

    /// Where the tiles stand on the screen.
    pub fn layout(&self) -> (layout: &Layout)
        requires
            self.wf(),
        ensures
            layout@.wf(),
            layout@ == self@.layout,
    {
        &self.layout
    }

    /// Tells whether the game has been found won.
    pub fn game_won(&self) -> (won: bool)
        ensures
            won == self@.won,
    {
        self.game_won
    }

    /// Takes in what the player has done and tells what is to be done. A
    /// press of a mouse button on a tile uncovers or marks the tile. A new
    /// game hides and clears every tile, draws the mines afresh and is not
    /// won. To quit stops the game and changes nothing.
    pub fn handle(&mut self, input: Input) -> (action: Action)
        requires
            old(self).wf(),
        ensures
            final(self).wf(),
            final(self)@.layout == old(self)@.layout,
            old(self)@.board.settled() ==> final(self)@.board.settled(),
            match input {
                Input::Quit => action == Action::Stop && final(self)@ == old(self)@,
                Input::Press { x, y, button } => {
                    &&& action == old(self)@.told(x as int, y as int, button)
                    &&& final(self)@.won == old(self)@.won
                    &&& final(self)@.board == old(self)@.pressed(x as int, y as int, button)
                },
                Input::Restart => {
                    &&& action == Action::Continue
                    &&& !final(self)@.won
                    &&& final(self)@.board.untouched()
                    &&& final(self)@.board.settled()
                    &&& final(self)@.board.rows == old(self)@.board.rows
                    &&& final(self)@.board.cols == old(self)@.board.cols
                    &&& final(self)@.board.mines_percent == old(self)@.board.mines_percent
                },
                Input::Other => action == Action::Continue && final(self)@ == old(self)@,
            },
    {
        match input {
            Input::Quit => Action::Stop,
            Input::Press { x, y, button } => {
                if let Some(clicked_tile) = self.layout.get_tile_index(x, y) {
                    match button {
                        Button::Left => {
                            let mine = self.minefield.get_tile_content(clicked_tile) == TileContent::Mine;
                            self.minefield.uncover_tile(clicked_tile);
                            if mine {
                                let rows = self.minefield.rows();
                                Action::TellMine { row: clicked_tile % rows, col: clicked_tile / rows }
                            } else {
                                Action::Continue
                            }
                        },
                        Button::Right => {
                            let hidden = self.minefield.tile_is_hidden(clicked_tile);
                            self.minefield.flag_tile(clicked_tile);
                            if hidden {
                                Action::TellFlags {
                                    flagged: self.minefield.flagged_mine_count(),
                                    mines: self.minefield.mine_locations().len(),
                                }
                            } else {
                                Action::Continue
                            }
                        },
                        Button::Other => Action::Continue,
                    }
                } else {
                    Action::Continue
                }
            },
            Input::Restart => {
                self.game_won = false;
                self.minefield.reset();
                Action::Continue
            },
            Input::Other => Action::Continue,
        }
    }

    /// Looks at the board once a frame has been shown: tells whether the
    /// game is won, and remembers it when it is.
    pub fn end_frame(&mut self) -> (won: bool)
        requires
            old(self).wf(),
        ensures
            final(self).wf(),
            won == old(self)@.board.won(),
            final(self)@ == (GameView { won: old(self)@.won || won, ..old(self)@ }),
    {
        let won = self.minefield.check_win();
        if won {
            self.game_won = true;
        }
        won
    }
}

} // verus!
