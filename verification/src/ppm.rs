//! Encoding a window of the grid as a binary PPM image.
//!
//! The image has one pixel per cell, row by row from the lowest `y`, and in
//! each row from the lowest `x`. Its header is the magic number, a line with
//! the width and the height in decimal, and a line with the largest colour
//! value, 255. Three bytes of red, green and blue follow for each pixel.

use crate::digits::{decimal, DIGIT_ZERO};
use crate::field::{cell_state, get_cell_state, grid_of, FieldCellState, FieldSparseMatrix, Grid};
use vstd::arithmetic::div_mod::lemma_fundamental_div_mod_converse;
use vstd::prelude::*;

verus! {

/// The largest value of a colour channel, as the header states it.
pub const MAX_COLOR_VALUE: u8 = 255;

/// The magic number of a binary PPM image, the ASCII text `P6`.
pub const PPM_MAGIC: [u8; 2] = [0x50, 0x36];

/// ASCII space.
pub const SPACE: u8 = 0x20;

/// ASCII line feed.
pub const LINE_FEED: u8 = 0x0A;

/// The colour of a clear cell: yellow.
pub const COLOR_CLEAR: [u8; 3] = [0xFF, 0xFF, 0x00];

/// The colour of an obstacle: blue.
pub const COLOR_OBSTACLE: [u8; 3] = [0x00, 0x00, 0xFF];

/// The colour of a marked cell: green.
pub const COLOR_AVAIL: [u8; 3] = [0x00, 0xFF, 0x00];

/// The colour of a cell in a given state, as red, green and blue.
pub open spec fn color_of(state: FieldCellState) -> Seq<u8> {
    match state {
        FieldCellState::Clear => COLOR_CLEAR@,
        FieldCellState::Obstacle => COLOR_OBSTACLE@,
        FieldCellState::Avail => COLOR_AVAIL@,
    }
}

/// The header of an image of the given size: the magic number, the width and
/// the height with a space between them, and the largest colour value, each of
/// the three on a line of its own.
pub open spec fn ppm_header(width: nat, height: nat) -> Seq<u8> {
    PPM_MAGIC@ + seq![LINE_FEED] + decimal(width) + seq![SPACE] + decimal(height) + seq![LINE_FEED]
        + decimal(MAX_COLOR_VALUE as nat) + seq![LINE_FEED]
}

/// The pixels of the first `width` cells of row `y` from column `x0` on.
pub open spec fn pixel_row(g: Grid, x0: usize, y: usize, width: nat) -> Seq<u8> {
    Seq::new(3 * width, |i: int| color_of(cell_state(g, (x0 + i / 3) as usize, y))[i % 3])
}

/// The pixels of the window of the given size whose lowest corner is
/// `(x0, y0)`: pixel `k` is the cell in column `k % width` and row
/// `k / width` of the window.
pub open spec fn ppm_pixels(g: Grid, x0: usize, y0: usize, width: nat, height: nat) -> Seq<u8> {
    Seq::new(
        3 * width * height,
        |i: int|
            color_of(
                cell_state(
                    g,
                    (x0 + (i / 3) % (width as int)) as usize,
                    (y0 + (i / 3) / (width as int)) as usize,
                ),
            )[i % 3],
    )
}

/// The image of the cells from `(x0, y0)` to `(x1, y1)`, both included.
pub open spec fn ppm_image(g: Grid, x0: usize, y0: usize, x1: usize, y1: usize) -> Seq<u8> {
    let width = (x1 - x0 + 1) as nat;
    let height = (y1 - y0 + 1) as nat;
    ppm_header(width, height) + ppm_pixels(g, x0, y0, width, height)
}

/// A row of `width + 1` pixels is a row of `width` pixels and one more.
proof fn lemma_pixel_row_next(g: Grid, x0: usize, y: usize, width: nat)
    requires
        x0 + width <= usize::MAX,
    ensures
        pixel_row(g, x0, y, width + 1) == pixel_row(g, x0, y, width) + color_of(
            cell_state(g, (x0 + width) as usize, y),
        ),
{
    assert(pixel_row(g, x0, y, width + 1) =~= pixel_row(g, x0, y, width) + color_of(
        cell_state(g, (x0 + width) as usize, y),
    ));
}

/// A window of `height + 1` rows is a window of `height` rows and one more
/// row.
proof fn lemma_pixels_next_row(g: Grid, x0: usize, y0: usize, width: nat, height: nat)
    requires
        width > 0,
        y0 + height <= usize::MAX,
    ensures
        ppm_pixels(g, x0, y0, width, height + 1) == ppm_pixels(g, x0, y0, width, height)
            + pixel_row(g, x0, (y0 + height) as usize, width),
{
    let short = ppm_pixels(g, x0, y0, width, height);
    let long = ppm_pixels(g, x0, y0, width, height + 1);
    let row = pixel_row(g, x0, (y0 + height) as usize, width);
    let w = width as int;
    let h = height as int;
    assert(3 * w * (h + 1) == 3 * w * h + 3 * w) by (nonlinear_arith);
    assert forall|i: int| 0 <= i < long.len() implies long[i] == (short + row)[i] by {
        if i >= short.len() {
            let j = i - 3 * w * h;
            assert(i == (h * w + j / 3) * 3 + j % 3) by (nonlinear_arith)
                requires
                    i == j + 3 * w * h,
                    j == 3 * (j / 3) + j % 3,
            ;
            lemma_fundamental_div_mod_converse(i, 3, h * w + j / 3, j % 3);
            lemma_fundamental_div_mod_converse(i / 3, w, h, j / 3);
        }
    }
}

/// The colour of a cell in state `x`.
pub fn map_state_to_color(x: FieldCellState) -> (color: [u8; 3])
    ensures
        color@ == color_of(x),
{
    match x {
        FieldCellState::Clear => COLOR_CLEAR,
        FieldCellState::Obstacle => COLOR_OBSTACLE,
        FieldCellState::Avail => COLOR_AVAIL,
    }
}

/// Appends `n` in decimal.
fn push_decimal(bytes: &mut Vec<u8>, n: u128)
    ensures
        final(bytes)@ == old(bytes)@ + decimal(n as nat),
    decreases n,
{
    if n >= 10 {
        push_decimal(bytes, n / 10);
    }
    bytes.push(DIGIT_ZERO + (n % 10) as u8);
}

/// Appends the pixel of the cell `(x, y)`.
fn push_pixel(bytes: &mut Vec<u8>, field: &FieldSparseMatrix, x: usize, y: usize)
    ensures
        final(bytes)@ == old(bytes)@ + color_of(cell_state(grid_of(field), x, y)),
{
    let color = map_state_to_color(get_cell_state(field, x, y));
    bytes.push(color[0]);
    bytes.push(color[1]);
    bytes.push(color[2]);
}

/// Appends the pixels of the cells `(x_start, y)` to `(x_end, y)`.
fn push_pixel_row(
    bytes: &mut Vec<u8>,
    field: &FieldSparseMatrix,
    y: usize,
    x_start: usize,
    x_end: usize,
)
    requires
        x_start <= x_end,
    ensures
        final(bytes)@ == old(bytes)@ + pixel_row(
            grid_of(field),
            x_start,
            y,
            (x_end - x_start + 1) as nat,
        ),
{
    let ghost g = grid_of(field);
    let mut x = x_start;
    while x < x_end
        invariant
            g == grid_of(field),
            x_start <= x <= x_end,
            bytes@ == old(bytes)@ + pixel_row(g, x_start, y, (x - x_start) as nat),
        decreases x_end - x,
    {
        push_pixel(bytes, field, x, y);
        proof {
            lemma_pixel_row_next(g, x_start, y, (x - x_start) as nat);
        }
        x = x + 1;
    }
    push_pixel(bytes, field, x_end, y);
    proof {
        lemma_pixel_row_next(g, x_start, y, (x_end - x_start) as nat);
    }
}

/// Encodes the window from `(x_start, y_start)` to `(x_end, y_end)`, both
/// included, as a binary PPM image.
pub fn encode_ppm(
    field: &FieldSparseMatrix,
    x_start: usize,
    y_start: usize,
    x_end: usize,
    y_end: usize,
) -> (bytes: Vec<u8>)
    requires
        x_start <= x_end,
        y_start <= y_end,
    ensures
        bytes@ == ppm_image(grid_of(field), x_start, y_start, x_end, y_end),
{
    let ghost g = grid_of(field);
    let width: u128 = (x_end - x_start) as u128 + 1;
    let height: u128 = (y_end - y_start) as u128 + 1;
    let ghost header = ppm_header(width as nat, height as nat);

    let mut bytes: Vec<u8> = Vec::new();
    bytes.push(PPM_MAGIC[0]);
    bytes.push(PPM_MAGIC[1]);
    bytes.push(LINE_FEED);
    push_decimal(&mut bytes, width);
    bytes.push(SPACE);
    push_decimal(&mut bytes, height);
    bytes.push(LINE_FEED);
    push_decimal(&mut bytes, MAX_COLOR_VALUE as u128);
    bytes.push(LINE_FEED);
    proof {
        assert(bytes@ =~= header + ppm_pixels(g, x_start, y_start, width as nat, 0));
    }

    let mut y = y_start;
    while y < y_end
        invariant
            g == grid_of(field),
            x_start <= x_end,
            y_start <= y <= y_end,
            width == x_end - x_start + 1,
            bytes@ == header + ppm_pixels(g, x_start, y_start, width as nat, (y - y_start) as nat),
        decreases y_end - y,
    {
        push_pixel_row(&mut bytes, field, y, x_start, x_end);
        proof {
            lemma_pixels_next_row(g, x_start, y_start, width as nat, (y - y_start) as nat);
        }
        y = y + 1;
    }
    push_pixel_row(&mut bytes, field, y_end, x_start, x_end);
    proof {
        lemma_pixels_next_row(g, x_start, y_start, width as nat, (y_end - y_start) as nat);
    }
    bytes
}

} // verus!
