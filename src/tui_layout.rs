//! Screen layout of the terminal front end: the button labels and the
//! rectangles that the frame is split into, as `(x, y, width, height)`.

use vstd::prelude::*;

verus! {

/// The labels of the control buttons, left to right.
pub fn get_buttons() -> (r: [&'static str; 5])
    ensures
        r[0]@ == "1: Generate Maze"@,
        r[1]@ == "2: Stack Traversal"@,
        r[2]@ == "3: Queue Traversal"@,
        r[3]@ == "4: Slow Mode"@,
        r[4]@ == "5: Exit"@,
{
    ["1: Generate Maze", "2: Stack Traversal", "3: Queue Traversal", "4: Slow Mode", "5: Exit"]
}

/// Where the parts of the screen go.
pub struct ScreenAreas {
    /// The strip of buttons along the bottom.
    pub buttons: (u16, u16, u16, u16),
    /// The maze, inside the outer border and above the buttons.
    pub maze: (u16, u16, u16, u16),
    /// The three-line message across the middle.
    pub message: (u16, u16, u16, u16),
}

/// `a - b`, or 0 when `b` exceeds `a`.
pub open spec fn minus(a: int, b: int) -> int {
    if a >= b {
        a - b
    } else {
        0
    }
}

/// Split the frame `(x, y, width, height)`: the buttons take the bottom
/// eighth of the height across the full width; the maze takes the frame
/// inset by one on every side, less the buttons' height; the message takes
/// three lines from one above the middle.
pub fn layout_areas(x: u16, y: u16, width: u16, height: u16) -> (r: ScreenAreas)
    requires
        x < u16::MAX,
        y < u16::MAX,
        1 <= y + height / 2 <= u16::MAX,
    ensures
        r.buttons == (x, minus(height as int, height as int / 8) as u16, width, height / 8),
        r.maze == (
            (x + 1) as u16,
            (y + 1) as u16,
            minus(width as int, 2) as u16,
            minus(minus(height as int, 2), height as int / 8) as u16,
        ),
        r.message == (x, (y + height / 2 - 1) as u16, width, 3u16),
{
    let button_height = height / 8;
    let button_y = height.saturating_sub(button_height);
    let content_width = width.saturating_sub(2);
    let content_height = height.saturating_sub(2);
    ScreenAreas {
        buttons: (x, button_y, width, button_height),
        maze: (x + 1, y + 1, content_width, content_height.saturating_sub(button_height)),
        message: (x, y + height / 2 - 1, width, 3),
    }
}

} // verus!
