//! The maze drawn as ASCII text: walls as `+---+` and `|`, the start, end
//! and path cells as `S`, `E` and `X`.

use crate::maze::{Cell, Maze};
use vstd::prelude::*;

verus! {

pub const PLUS: u8 = 43;
pub const DASH: u8 = 45;
pub const SPACE: u8 = 32;
pub const BAR: u8 = 124;
pub const NEWLINE: u8 = 10;
pub const LETTER_S: u8 = 83;
pub const LETTER_E: u8 = 69;
pub const LETTER_X: u8 = 88;

/// One corner and the wall segment east of it: dashes when the wall stands.
pub open spec fn segment(closed: bool) -> Seq<u8> {
    if closed {
        seq![PLUS, DASH, DASH, DASH]
    } else {
        seq![PLUS, SPACE, SPACE, SPACE]
    }
}

/// A vertical wall, or a gap.
pub open spec fn post(closed: bool) -> Seq<u8> {
    if closed {
        seq![BAR]
    } else {
        seq![SPACE]
    }
}

/// What a cell shows: start, end and path cells take a letter.
pub open spec fn glyph(c: Cell) -> Seq<u8> {
    if c.start {
        seq![SPACE, LETTER_S, SPACE]
    } else if c.end {
        seq![SPACE, LETTER_E, SPACE]
    } else if c.path {
        seq![SPACE, LETTER_X, SPACE]
    } else {
        seq![SPACE, SPACE, SPACE]
    }
}

impl Maze {
    /// The segments of wall `d` of the first `n` cells of row `y`.
    pub open spec fn wall_line(&self, y: int, d: int, n: int) -> Seq<u8>
        decreases n,
    {
        if n <= 0 {
            Seq::empty()
        } else {
            self.wall_line(y, d, n - 1) + segment(self.wall(n - 1, y, d))
        }
    }

    /// The left walls and contents of the first `n` cells of row `y`.
    pub open spec fn cell_line(&self, y: int, n: int) -> Seq<u8>
        decreases n,
    {
        if n <= 0 {
            Seq::empty()
        } else {
            self.cell_line(y, n - 1) + post(self.wall(n - 1, y, 3)) + glyph(self.cell(n - 1, y))
        }
    }

    /// Row `y`: its top walls, then its cells closed by the rightmost wall.
    pub open spec fn row_text(&self, y: int) -> Seq<u8> {
        self.wall_line(y, 0, self.width as int) + seq![PLUS, NEWLINE] + self.cell_line(y, self.width as int)
            + post(self.wall(self.width - 1, y, 1)) + seq![NEWLINE]
    }

    /// The first `n` rows.
    pub open spec fn rows_text(&self, n: int) -> Seq<u8>
        decreases n,
    {
        if n <= 0 {
            Seq::empty()
        } else {
            self.rows_text(n - 1) + self.row_text(n - 1)
        }
    }

    /// The whole drawing: every row, then the bottom walls of the last row.
    pub open spec fn text(&self) -> Seq<u8> {
        self.rows_text(self.height as int) + self.wall_line(self.height - 1, 2, self.width as int) + seq![
            PLUS,
            NEWLINE,
        ]
    }

    fn push_wall_line(&self, out: &mut Vec<u8>, y: usize, d: usize)
        requires
            self.shaped(),
            y < self.height,
            d < 4,
        ensures
            final(out)@ == old(out)@ + self.wall_line(y as int, d as int, self.width as int),
    {
        let mut x: usize = 0;
        while x < self.width
            invariant
                self.shaped(),
                y < self.height,
                d < 4,
                x <= self.width,
                out@ == old(out)@ + self.wall_line(y as int, d as int, x as int),
            decreases self.width - x,
        {
            let ghost before = out@;
            out.push(PLUS);
            if self.grid[x][y].walls[d] {
                out.push(DASH);
                out.push(DASH);
                out.push(DASH);
            } else {
                out.push(SPACE);
                out.push(SPACE);
                out.push(SPACE);
            }
            proof {
                assert(out@ =~= before + segment(self.wall(x as int, y as int, d as int)));
                assert(out@ =~= old(out)@ + self.wall_line(y as int, d as int, x + 1));
            }
            x = x + 1;
        }
    }

    fn push_cell_line(&self, out: &mut Vec<u8>, y: usize)
        requires
            self.shaped(),
            y < self.height,
        ensures
            final(out)@ == old(out)@ + self.cell_line(y as int, self.width as int),
    {
        let mut x: usize = 0;
        while x < self.width
            invariant
                self.shaped(),
                y < self.height,
                x <= self.width,
                out@ == old(out)@ + self.cell_line(y as int, x as int),
            decreases self.width - x,
        {
            let ghost before = out@;
            if self.grid[x][y].walls[3] {
                out.push(BAR);
            } else {
                out.push(SPACE);
            }
            let c = &self.grid[x][y];
            let mark: u8 = if c.start {
                LETTER_S
            } else if c.end {
                LETTER_E
            } else if c.path {
                LETTER_X
            } else {
                SPACE
            };
            out.push(SPACE);
            out.push(mark);
            out.push(SPACE);
            proof {
                assert(out@ =~= before + post(self.wall(x as int, y as int, 3)) + glyph(self.cell(x as int, y as int)));
                assert(out@ =~= old(out)@ + self.cell_line(y as int, x + 1));
            }
            x = x + 1;
        }
    }

    /// Draw the maze as ASCII text, row by row, as `text` describes.
    pub fn render(&self) -> (r: Vec<u8>)
        requires
            self.shaped(),
        ensures
            r@ == self.text(),
    {
        let mut out: Vec<u8> = Vec::new();
        let mut y: usize = 0;
        while y < self.height
            invariant
                self.shaped(),
                y <= self.height,
                out@ == self.rows_text(y as int),
            decreases self.height - y,
        {
            let ghost before = out@;
            self.push_wall_line(&mut out, y, 0);
            out.push(PLUS);
            out.push(NEWLINE);
            self.push_cell_line(&mut out, y);
            if self.grid[self.width - 1][y].walls[1] {
                out.push(BAR);
            } else {
                out.push(SPACE);
            }
            out.push(NEWLINE);
            proof {
                assert(out@ =~= before + self.row_text(y as int));
            }
            y = y + 1;
        }
        self.push_wall_line(&mut out, self.height - 1, 2);
        out.push(PLUS);
        out.push(NEWLINE);
        proof {
            assert(out@ =~= self.text());
        }
        out
    }
}

} // verus!
