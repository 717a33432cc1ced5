//! Where the tiles stand on the screen: one rectangle for each tile, laid
//! out column by column, and the tile under a point of the screen.

use vstd::prelude::*;
use crate::grid::lemma_index_split;

verus! {

/// The largest position and the largest side that the rectangles of the
/// screen keep as they are given: two to the thirtieth, less one. A layout
/// stays within it, so that each rectangle is drawn and found where it was
/// laid out.
pub const MAX_COORD: usize = 1_073_741_823;

/// A rectangle on the screen, by its top left corner and its sides.
#[derive(Clone, Copy, Debug, PartialEq, Eq, Structural)]
pub struct TileRect {
    /// The left edge.
    pub x: i32,
    /// The top edge.
    pub y: i32,
    /// The width.
    pub width: u32,
    /// The height.
    pub height: u32,
}

impl TileRect {
    /// True when the point (`x`, `y`) lies in the rectangle. The points on
    /// the right and bottom edges do not.
    pub open spec fn contains(self, x: int, y: int) -> bool {
        &&& self.x <= x < self.x + self.width
        &&& self.y <= y < self.y + self.height
    }

    /// Tells whether the point (`x`, `y`) lies in the rectangle.
    pub fn contains_point(&self, x: i32, y: i32) -> (inside: bool)
        ensures
            inside == self.contains(x as int, y as int),
    {
        let inside_x = x >= self.x && (x as i64) < self.x as i64 + self.width as i64;
        inside_x && (y >= self.y && (y as i64) < self.y as i64 + self.height as i64)
    }
}

/// True when a grid of `rows` by `cols` tiles of the size `tile_size`,
/// `tile_gap` apart and with its corner at `origin`, can be laid out: there
/// is a tile, a tile has an inside, and no rectangle goes beyond the largest
/// position.
pub open spec fn fits(rows: nat, cols: nat, tile_size: (nat, nat), tile_gap: nat, origin: (nat, nat)) -> bool {
    &&& rows >= 1
    &&& cols >= 1
    &&& rows * cols <= usize::MAX
    &&& tile_size.0 >= 1
    &&& tile_size.1 >= 1
    &&& origin.0 + cols * (tile_size.0 + tile_gap) <= MAX_COORD
    &&& origin.1 + rows * (tile_size.1 + tile_gap) <= MAX_COORD
}

/// The place of each tile of a grid on the screen.
#[derive(Clone, Copy, Debug)]
pub struct Layout {
    rows: usize,
    cols: usize,
    tile_width: usize,
    tile_height: usize,
    tile_gap: usize,
    origin_x: usize,
    origin_y: usize,
}

/// A layout as a mathematical value.
pub struct LayoutView {
    /// The number of rows of the grid.
    pub rows: nat,
    /// The number of columns of the grid.
    pub cols: nat,
    /// The width and the height of a tile.
    pub tile_size: (nat, nat),
    /// The space between two tiles.
    pub tile_gap: nat,
    /// The top left corner of the first tile.
    pub origin: (nat, nat),
}

impl LayoutView {
    /// The rectangle of tile `i`: tiles fill the grid column by column, and
    /// each column and each row starts a tile and a gap after the one before.
    pub open spec fn rect(self, i: int) -> TileRect {
        TileRect {
            x: (self.origin.0 + (i / (self.rows as int)) * (self.tile_size.0 + self.tile_gap)) as i32,
            y: (self.origin.1 + (i % (self.rows as int)) * (self.tile_size.1 + self.tile_gap)) as i32,
            width: self.tile_size.0 as u32,
            height: self.tile_size.1 as u32,
        }
    }

    /// True when the layout can be: see `fits`.
    pub open spec fn wf(self) -> bool {
        fits(self.rows, self.cols, self.tile_size, self.tile_gap, self.origin)
    }

    /// The first of the tiles below `n` whose rectangle holds the point
    /// (`x`, `y`), if there is one.
    pub open spec fn tile_below(self, x: int, y: int, n: nat) -> Option<int>
        decreases n,
    {
        if n == 0 {
            None
        } else {
            match self.tile_below(x, y, (n - 1) as nat) {
                Some(i) => Some(i),
                None => if self.rect(n - 1).contains(x, y) {
                    Some(n - 1)
                } else {
                    None
                },
            }
        }
    }

    /// The first tile whose rectangle holds the point (`x`, `y`), if there
    /// is one.
    pub open spec fn tile_at(self, x: int, y: int) -> Option<int> {
        self.tile_below(x, y, self.rows * self.cols)
    }
}

impl View for Layout {
    type V = LayoutView;

    closed spec fn view(&self) -> LayoutView {
        LayoutView {
            rows: self.rows as nat,
            cols: self.cols as nat,
            tile_size: (self.tile_width as nat, self.tile_height as nat),
            tile_gap: self.tile_gap as nat,
            origin: (self.origin_x as nat, self.origin_y as nat),
        }
    }
}

/// In a layout that can be, a tile with its gap is no larger than the
/// largest position, and neither is the run of a row or of a column.
pub(crate) proof fn lemma_steps_bound(l: LayoutView)
    requires
        l.wf(),
    ensures
        l.tile_size.0 + l.tile_gap <= l.cols * (l.tile_size.0 + l.tile_gap) <= MAX_COORD,
        l.tile_size.1 + l.tile_gap <= l.rows * (l.tile_size.1 + l.tile_gap) <= MAX_COORD,
{
    let step_x = (l.tile_size.0 + l.tile_gap) as int;
    let step_y = (l.tile_size.1 + l.tile_gap) as int;
    assert(step_x <= l.cols * step_x) by (nonlinear_arith)
        requires
            l.cols >= 1,
            step_x >= 0,
    ;
    assert(step_y <= l.rows * step_y) by (nonlinear_arith)
        requires
            l.rows >= 1,
            step_y >= 0,
    ;
}

/// The rectangles of a layout that can be stay within the largest position,
/// and their sides are those of a tile.
pub(crate) proof fn lemma_rect_bounds(l: LayoutView, i: int)
    requires
        l.wf(),
        0 <= i < l.rows * l.cols,
    ensures
        l.rect(i).x == l.origin.0 + (i / (l.rows as int)) * (l.tile_size.0 + l.tile_gap),
        l.rect(i).y == l.origin.1 + (i % (l.rows as int)) * (l.tile_size.1 + l.tile_gap),
        l.rect(i).width == l.tile_size.0,
        l.rect(i).height == l.tile_size.1,
        0 <= l.rect(i).x,
        0 <= l.rect(i).y,
        l.rect(i).x + l.rect(i).width <= MAX_COORD,
        l.rect(i).y + l.rect(i).height <= MAX_COORD,
{
    lemma_index_split(l.rows, l.cols, i);
    let col = i / (l.rows as int);
    let row = i % (l.rows as int);
    let step_x = (l.tile_size.0 + l.tile_gap) as int;
    let step_y = (l.tile_size.1 + l.tile_gap) as int;
    assert(0 <= col * step_x && col * step_x + step_x <= l.cols * step_x) by (nonlinear_arith)
        requires
            0 <= col < l.cols,
            0 <= step_x,
    ;
    assert(0 <= row * step_y && row * step_y + step_y <= l.rows * step_y) by (nonlinear_arith)
        requires
            0 <= row < l.rows,
            0 <= step_y,
    ;
}

/// The tile found under a point is a tile whose rectangle holds the point,
/// and no tile before it does; where none is found, no rectangle holds
/// the point.
pub proof fn lemma_tile_below(l: LayoutView, x: int, y: int, n: nat)
    ensures
        match l.tile_below(x, y, n) {
            Some(i) => {
                &&& 0 <= i < n
                &&& l.rect(i).contains(x, y)
                &&& forall|j: int| 0 <= j < i ==> !#[trigger] l.rect(j).contains(x, y)
            },
            None => forall|j: int| 0 <= j < n ==> !#[trigger] l.rect(j).contains(x, y),
        },
    decreases n,
{
    if n > 0 {
        lemma_tile_below(l, x, y, (n - 1) as nat);
    }
}

/// A tile found under a point among the first tiles is the tile found
/// among more of them.
pub(crate) proof fn lemma_tile_below_stays(l: LayoutView, x: int, y: int, n: nat, m: nat)
    requires
        n <= m,
        l.tile_below(x, y, n).is_some(),
    ensures
        l.tile_below(x, y, m) == l.tile_below(x, y, n),
    decreases m,
{
    if n < m {
        lemma_tile_below_stays(l, x, y, n, (m - 1) as nat);
    }
}

impl Layout {
    /// Lays out a grid of `rows` by `cols` tiles of the size `tile_size`,
    /// `tile_gap` apart, the first tile with its corner at `origin`. There is
    /// no such layout where it does not fit.
    pub fn new(rows: usize, cols: usize, tile_size: (usize, usize), tile_gap: usize, origin: (usize, usize)) -> (layout:
        Option<Layout>)
        ensures
            layout.is_some() <==> fits(
                rows as nat,
                cols as nat,
                (tile_size.0 as nat, tile_size.1 as nat),
                tile_gap as nat,
                (origin.0 as nat, origin.1 as nat),
            ),
            layout matches Some(l) ==> l@ == (LayoutView {
                rows: rows as nat,
                cols: cols as nat,
                tile_size: (tile_size.0 as nat, tile_size.1 as nat),
                tile_gap: tile_gap as nat,
                origin: (origin.0 as nat, origin.1 as nat),
            }),
    {
        if rows < 1 || cols < 1 || tile_size.0 < 1 || tile_size.1 < 1 {
            return None;
        }
        if rows > MAX_COORD || cols > MAX_COORD || tile_size.0 > MAX_COORD || tile_size.1 > MAX_COORD || tile_gap
            > MAX_COORD || origin.0 > MAX_COORD || origin.1 > MAX_COORD {
            proof {
                assert(cols * (tile_size.0 + tile_gap) >= cols && cols * (tile_size.0 + tile_gap) >= tile_size.0
                    + tile_gap) by (nonlinear_arith)
                    requires
                        cols >= 1,
                        tile_size.0 >= 1,
                        tile_gap >= 0,
                ;
                assert(rows * (tile_size.1 + tile_gap) >= rows && rows * (tile_size.1 + tile_gap) >= tile_size.1
                    + tile_gap) by (nonlinear_arith)
                    requires
                        rows >= 1,
                        tile_size.1 >= 1,
                        tile_gap >= 0,
                ;
            }
            return None;
        }
        proof {
            assert(cols * (tile_size.0 + tile_gap) <= MAX_COORD * (2 * MAX_COORD)) by (nonlinear_arith)
                requires
                    cols <= MAX_COORD,
                    tile_size.0 + tile_gap <= 2 * MAX_COORD,
            ;
            assert(rows * (tile_size.1 + tile_gap) <= MAX_COORD * (2 * MAX_COORD)) by (nonlinear_arith)
                requires
                    rows <= MAX_COORD,
                    tile_size.1 + tile_gap <= 2 * MAX_COORD,
            ;
            assert(rows * cols <= MAX_COORD * MAX_COORD) by (nonlinear_arith)
                requires
                    rows <= MAX_COORD,
                    cols <= MAX_COORD,
            ;
        }
        let tiles: u64 = rows as u64 * cols as u64;
        let right: u64 = origin.0 as u64 + cols as u64 * (tile_size.0 as u64 + tile_gap as u64);
        let bottom: u64 = origin.1 as u64 + rows as u64 * (tile_size.1 as u64 + tile_gap as u64);
        if tiles > usize::MAX as u64 || right > MAX_COORD as u64 || bottom > MAX_COORD as u64 {
            return None;
        }
        Some(
            Layout {
                rows,
                cols,
                tile_width: tile_size.0,
                tile_height: tile_size.1,
                tile_gap,
                origin_x: origin.0,
                origin_y: origin.1,
            },
        )
    }

    /// The rectangle of tile `tile_number`.
    pub fn tile_rect(&self, tile_number: usize) -> (rect: TileRect)
        requires
            self@.wf(),
            tile_number < self@.rows * self@.cols,
        ensures
            rect == self@.rect(tile_number as int),
    {
        proof {
            lemma_steps_bound(self@);
            lemma_rect_bounds(self@, tile_number as int);
            lemma_index_split(self.rows as nat, self.cols as nat, tile_number as int);
        }
        let col = tile_number / self.rows;
        let row = tile_number % self.rows;
        TileRect {
            x: (self.origin_x + col * (self.tile_width + self.tile_gap)) as i32,
            y: (self.origin_y + row * (self.tile_height + self.tile_gap)) as i32,
            width: self.tile_width as u32,
            height: self.tile_height as u32,
        }
    }

    /// The width and the height of a window that holds the grid with as much
    /// room to its right and below it as `origin` leaves to its left and
    /// above it.
    pub fn window_size(&self) -> (size: (u32, u32))
        requires
            self@.wf(),
        ensures
            size.0 == self@.cols * (self@.tile_size.0 + self@.tile_gap) + 2 * self@.origin.0,
            size.1 == self@.rows * (self@.tile_size.1 + self@.tile_gap) + 2 * self@.origin.1,
    {
        proof {
            lemma_steps_bound(self@);
            assert((self.tile_width + self.tile_gap) * self.cols == self.cols * (self.tile_width + self.tile_gap))
                by (nonlinear_arith);
            assert((self.tile_height + self.tile_gap) * self.rows == self.rows * (self.tile_height
                + self.tile_gap)) by (nonlinear_arith);
        }
        let win_width = ((self.tile_width + self.tile_gap) * self.cols) + 2 * self.origin_x;
        let win_height = ((self.tile_height + self.tile_gap) * self.rows) + 2 * self.origin_y;
        (win_width as u32, win_height as u32)
    }

    /// Finds the tile under the point (`x`, `y`) of the screen: the first
    /// tile whose rectangle holds the point.
    pub fn get_tile_index(&self, x: i32, y: i32) -> (found: Option<usize>)
        requires
            self@.wf(),
        ensures
            found matches Some(i) ==> i < self@.rows * self@.cols && self@.tile_at(x as int, y as int) == Some(
                i as int,
            ),
            found.is_none() ==> self@.tile_at(x as int, y as int).is_none(),
    {
        let total = self.rows * self.cols;
        let mut i: usize = 0;
        while i < total
            invariant
                self@.wf(),
                total == self@.rows * self@.cols,
                i <= total,
                self@.tile_below(x as int, y as int, i as nat).is_none(),
            decreases total - i,
        {
            if self.tile_rect(i).contains_point(x, y) {
                proof {
                    assert(self@.tile_below(x as int, y as int, (i + 1) as nat) == Some(i as int));
                    lemma_tile_below_stays(self@, x as int, y as int, (i + 1) as nat, total as nat);
                }
                return Some(i);
            }
            i += 1;
        }
        None
    }

    /// Lays out a grid like `new`, with its corner five gaps to the right of
    /// and below the corner of the screen.
    pub fn framed(rows: usize, cols: usize, tile_size: (usize, usize), tile_gap: usize) -> (layout: Option<Layout>)
        ensures
            layout.is_some() <==> fits(
                rows as nat,
                cols as nat,
                (tile_size.0 as nat, tile_size.1 as nat),
                tile_gap as nat,
                ((5 * tile_gap) as nat, (5 * tile_gap) as nat),
            ),
            layout matches Some(l) ==> l@ == (LayoutView {
                rows: rows as nat,
                cols: cols as nat,
                tile_size: (tile_size.0 as nat, tile_size.1 as nat),
                tile_gap: tile_gap as nat,
                origin: ((5 * tile_gap) as nat, (5 * tile_gap) as nat),
            }),
    {
        if tile_gap > MAX_COORD / 5 {
            return None;
        }
        Layout::new(rows, cols, tile_size, tile_gap, (5 * tile_gap, 5 * tile_gap))
    }

    /// The number of rows of the grid.
    pub fn rows(&self) -> (rows: usize)
        ensures
            rows == self@.rows,
    {
        self.rows
    }

    /// The number of columns of the grid.
    pub fn cols(&self) -> (cols: usize)
        ensures
            cols == self@.cols,
    {
        self.cols
    }
}

} // verus!
