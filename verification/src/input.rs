use vstd::prelude::*;

verus! {

use crate::{CELL_SIZE, COLOR_COUNT};

/// Width of one palette button, in pixels.
pub const BUTTON_WIDTH: i32 = 60;
/// Height of one palette button, in pixels.
pub const BUTTON_HEIGHT: i32 = 60;
/// Horizontal margin between the panel edge and a button column.
pub const MARGIN_X: i32 = 25;
/// Width of the info panel on the right of the grid.
pub const INFO_WIDTH: i32 = BUTTON_WIDTH * 2 + MARGIN_X * 3;
/// Total window width: 14 grid columns of CELL_SIZE pixels plus the panel.
pub const SCREEN_WIDTH: i32 = CELL_SIZE * 14 + INFO_WIDTH;
/// Total window height: 14 grid rows of CELL_SIZE pixels.
pub const SCREEN_HEIGHT: i32 = CELL_SIZE * 14;
/// Left edge of the info panel.
pub const INFO_X: i32 = SCREEN_WIDTH - INFO_WIDTH;

/// Left edge of palette button i; buttons sit in two columns.
pub open spec fn button_x(i: int) -> int {
    INFO_X + MARGIN_X + (i % 2) * (BUTTON_WIDTH + MARGIN_X)
}

/// Top edge of palette button i; button rows are 80 pixels apart.
pub open spec fn button_y(i: int) -> int {
    300 + (i / 2) * 80
}

/// The point (x, y) lies on palette button i.
pub open spec fn on_button(x: int, y: int, i: int) -> bool {
    &&& button_x(i) <= x < button_x(i) + BUTTON_WIDTH
    &&& button_y(i) <= y < button_y(i) + BUTTON_HEIGHT
}

/// The first palette button at or after index i that contains (x, y), or -1.
pub open spec fn selected_color_from(x: int, y: int, i: int) -> int
    decreases COLOR_COUNT - i,
{
    if i < 0 || i >= COLOR_COUNT {
        -1
    } else if on_button(x, y, i) {
        i
    } else {
        selected_color_from(x, y, i + 1)
    }
}

/// The palette button containing (x, y), or -1 when the point is on none.
pub open spec fn selected_color_spec(x: int, y: int) -> int {
    selected_color_from(x, y, 0)
}

/// Map a pointer position to the palette color under it, or -1.
pub fn get_selected_color(x: i32, y: i32) -> (r: i32)
    ensures
        r == selected_color_spec(x as int, y as int),
        -1 <= r < COLOR_COUNT,
{
    let mut i: i32 = 0;
    while i < COLOR_COUNT
        invariant
            0 <= i <= COLOR_COUNT,
            selected_color_spec(x as int, y as int) == selected_color_from(
                x as int,
                y as int,
                i as int,
            ),
        decreases COLOR_COUNT - i,
    {
        let bx = INFO_X + MARGIN_X + (i % 2) * (BUTTON_WIDTH + MARGIN_X);
        let by = 300 + (i / 2) * 80;
        if bx <= x && x < bx + BUTTON_WIDTH && by <= y && y < by + BUTTON_HEIGHT {
            proof {
                assert(bx == button_x(i as int));
                assert(by == button_y(i as int));
                assert(on_button(x as int, y as int, i as int));
            }
            return i;
        }
        proof {
            assert(bx == button_x(i as int));
            assert(by == button_y(i as int));
            assert(!on_button(x as int, y as int, i as int));
        }
        i = i + 1;
    }
    -1
}

} // verus!
