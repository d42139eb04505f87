//! Level sizes and the pixel layout of the grid.

use crate::hash::{hash_u32, hashed};
use crate::ivec::{on_board, Cell, IVec2};
use crate::path::gap;
use vstd::prelude::*;

verus! {

/// Side of the square window, in pixels.
pub const WINDOW_SIZE: i32 = 640;

/// Horizontal pixel budget for the grid.
pub const GRID_AVAILABLE_X: i32 = 480;

/// Vertical pixel budget for the grid.
pub const GRID_AVAILABLE_Y: i32 = 480;

/// Fewest columns or rows of a level.
pub const MIN_GRID_DIM: i32 = 10;

/// Most columns or rows of a level.
pub const MAX_GRID_DIM: i32 = 40;

/// The dimension that `n` selects between the smallest and the largest.
pub open spec fn dimension(n: int) -> int {
    MIN_GRID_DIM + n % (MAX_GRID_DIM - MIN_GRID_DIM + 1)
}

/// The number of columns of a level.
pub open spec fn level_cols(level: u32) -> int {
    dimension(hashed(level) as int)
}

/// The number of rows of a level.
pub open spec fn level_rows(level: u32) -> int {
    dimension(hashed(level) as int / 256)
}

/// The `(cols, rows)` grid dimensions for a given level index. Deterministic
/// but pseudo-random: derived from a hash of the level number.
pub fn level_grid_size(level: u32) -> (size: (i32, i32))
    ensures
        size.0 == level_cols(level),
        size.1 == level_rows(level),
        MIN_GRID_DIM <= size.0 <= MAX_GRID_DIM,
        MIN_GRID_DIM <= size.1 <= MAX_GRID_DIM,
        size.0 == 10 + hashed(level) % 31,
        size.1 == 10 + (hashed(level) >> 8u32) % 31,
{
    let h: u32 = hash_u32(level);
    let range: u32 = (MAX_GRID_DIM - MIN_GRID_DIM + 1) as u32;
    let cols: i32 = MIN_GRID_DIM + (h % range) as i32;
    assert(h >> 8 == h / 256) by (bit_vector);
    let rows: i32 = MIN_GRID_DIM + ((h >> 8) % range) as i32;
    (cols, rows)
}

/// The columns of a level are ten and the remainder by thirty-one of the hash of
/// its number; its rows are so of that hash without its lowest eight bits. Two
/// levels whose hashes agree there have as many rows.
pub proof fn level_sizes_come_from_the_hash(level: u32, other: u32)
    ensures
        level_cols(level) == 10 + hashed(level) % 31,
        level_rows(level) == 10 + (hashed(level) >> 8u32) % 31,
        hashed(level) >> 8u32 == hashed(other) >> 8u32 ==> level_rows(level) == level_rows(other),
        hashed(level) % 31 == hashed(other) % 31 ==> level_cols(level) == level_cols(other),
        10 <= level_cols(level) <= 40,
        10 <= level_rows(level) <= 40,
{
    let (h, k) = (hashed(level), hashed(other));
    assert(h >> 8u32 == h / 256) by (bit_vector);
    assert(k >> 8u32 == k / 256) by (bit_vector);
}

/// The largest whole spacing of `count` points in a line within `available`
/// pixels; a single point admits any.
pub open spec fn axis_spacing(available: int, count: int) -> Option<int> {
    if count == 1 {
        None
    } else if count < 1 {
        Some(0)
    } else {
        Some(available / (count - 1))
    }
}

/// The spacing of a grid: the tighter of its two axes, and at least one pixel.
pub open spec fn spacing(cols: int, rows: int) -> int {
    let tighter = match (
        axis_spacing(GRID_AVAILABLE_X as int, cols),
        axis_spacing(GRID_AVAILABLE_Y as int, rows),
    ) {
        (Some(x), Some(y)) => if x <= y {
            x
        } else {
            y
        },
        (Some(x), None) => x,
        (None, Some(y)) => y,
        (None, None) => 1,
    };
    if tighter >= 1 {
        tighter
    } else {
        1
    }
}

/// A whole cell spacing, in pixels, that fits the grid within the available
/// viewport. Each axis is constrained on its own, so that grids that are not
/// square use the space efficiently. A grid of one cell has no spacing.
pub fn cell_size_for_grid(cols: i32, rows: i32) -> (size: i32)
    requires
        cols > i32::MIN,
        rows > i32::MIN,
        cols != 1 || rows != 1,
    ensures
        size == spacing(cols as int, rows as int),
{
    let from_x: Option<i32> = spacing_along(GRID_AVAILABLE_X, cols);
    let from_y: Option<i32> = spacing_along(GRID_AVAILABLE_Y, rows);
    let tighter: i32 = match (from_x, from_y) {
        (Some(x), Some(y)) => if x <= y {
            x
        } else {
            y
        },
        (Some(x), None) => x,
        (None, Some(y)) => y,
        (None, None) => 1,
    };
    if tighter >= 1 {
        tighter
    } else {
        1
    }
}

/// The largest whole spacing along one axis, if anything bounds it.
fn spacing_along(available: i32, count: i32) -> (size: Option<i32>)
    requires
        count > i32::MIN,
        available >= 0,
    ensures
        match (size, axis_spacing(available as int, count as int)) {
            (Some(s), Some(t)) => s == t,
            (None, None) => true,
            _ => false,
        },
{
    if count == 1 {
        None
    } else if count < 1 {
        Some(0)
    } else {
        Some(available / (count - 1))
    }
}

/// A grid with spacing `s` stays within the pixel budget.
pub open spec fn fits_viewport(cols: int, rows: int, s: int) -> bool {
    &&& s * (cols - 1) <= GRID_AVAILABLE_X
    &&& s * (rows - 1) <= GRID_AVAILABLE_Y
}

/// Of the whole spacings from one pixel up, the chosen one is the largest that
/// fits the viewport, if any does.
pub proof fn spacing_is_largest_that_fits(cols: int, rows: int, s: int)
    requires
        cols >= 1,
        rows >= 1,
        cols > 1 || rows > 1,
        s >= 1,
        fits_viewport(cols, rows, s),
    ensures
        fits_viewport(cols, rows, spacing(cols, rows)),
        s <= spacing(cols, rows),
{
    lemma_axis_spacing(GRID_AVAILABLE_X as int, cols, s, spacing(cols, rows));
    lemma_axis_spacing(GRID_AVAILABLE_Y as int, rows, s, spacing(cols, rows));
}

/// The spacing is at least one pixel, and just that if not even one fits or if
/// an axis has no points.
pub proof fn spacing_is_at_least_a_pixel(cols: int, rows: int)
    ensures
        spacing(cols, rows) >= 1,
        (cols > 481 || rows > 481) ==> spacing(cols, rows) == 1,
        (cols < 1 || rows < 1) ==> spacing(cols, rows) == 1,
{
    assert(cols > 481 ==> 480int / (cols - 1) == 0) by (nonlinear_arith);
    assert(rows > 481 ==> 480int / (rows - 1) == 0) by (nonlinear_arith);
    assert(cols > 1 ==> 480int / (cols - 1) >= 0) by (nonlinear_arith);
    assert(rows > 1 ==> 480int / (rows - 1) >= 0) by (nonlinear_arith);
}

proof fn lemma_axis_spacing(available: int, count: int, s: int, t: int)
    requires
        available >= 0,
        count >= 1,
        s >= 1,
        t >= 1,
        s * (count - 1) <= available,
    ensures
        axis_spacing(available, count) matches Some(most) ==> s <= most,
        axis_spacing(available, count) matches Some(most) ==> (t <= most ==> t * (count - 1)
            <= available),
        axis_spacing(available, count) is None ==> t * (count - 1) <= available,
{
    if count == 1 {
        assert(t * (count - 1) == 0) by (nonlinear_arith)
            requires
                count == 1,
        ;
    } else {
        let n = count - 1;
        let most = available / n;
        assert(s <= most) by (nonlinear_arith)
            requires
                n >= 1,
                s * n <= available,
                most == available / n,
        ;
        if t <= most {
            assert(t * n <= available) by (nonlinear_arith)
                requires
                    n >= 1,
                    0 <= t <= most,
                    most == available / n,
            ;
        }
    }
}

/// The coordinate of the first of `count` points with spacing `size` that are
/// centred on zero, rounded away from zero to a whole pixel.
pub open spec fn first_coordinate(count: int, size: int) -> int {
    -(((count - 1) * size + 1) / 2)
}

/// Where the grid of a level lies on the screen.
#[derive(Clone, Copy, Debug, PartialEq, Eq, Structural)]
pub struct Playfield {
    pub cols: i32,
    pub rows: i32,
    /// Distance between neighbouring cells, in pixels.
    pub cell_size: i32,
    /// Horizontal position of column zero.
    pub origin_x: i32,
    /// Vertical position of row zero.
    pub origin_y: i32,
}

/// The layout of a level's grid.
pub open spec fn is_playfield(field: Playfield, level: u32) -> bool {
    &&& field.cols == level_cols(level)
    &&& field.rows == level_rows(level)
    &&& field.cell_size == spacing(level_cols(level), level_rows(level))
    &&& field.origin_x == first_coordinate(field.cols as int, field.cell_size as int)
    &&& field.origin_y == first_coordinate(field.rows as int, field.cell_size as int)
}

/// Lays out the grid of a level. Positions are whole pixels, so that every dot
/// lands on a pixel boundary.
pub fn playfield(level: u32) -> (field: Playfield)
    ensures
        is_playfield(field, level),
        field.cols == level_cols(level) && field.rows == level_rows(level),
        field.cell_size >= 1,
        field.cell_size * (field.cols - 1) <= 480 && field.cell_size * (field.rows - 1) <= 480,
        (field.cell_size + 1) * (field.cols - 1) > 480 || (field.cell_size + 1) * (field.rows - 1)
            > 480,
        -1 <= 2 * field.origin_x + (field.cols - 1) * field.cell_size <= 0,
        -1 <= 2 * field.origin_y + (field.rows - 1) * field.cell_size <= 0,
{
    let (cols, rows): (i32, i32) = level_grid_size(level);
    let cell_size: i32 = cell_size_for_grid(cols, rows);
    proof {
        playfield_fits_viewport(level);
        if fits_viewport(cols as int, rows as int, cell_size + 1) {
            spacing_is_largest_that_fits(cols as int, rows as int, cell_size + 1);
        }
    }
    let width: i32 = (cols - 1) * cell_size;
    let height: i32 = (rows - 1) * cell_size;
    Playfield {
        cols,
        rows,
        cell_size,
        origin_x: -((width + 1) / 2),
        origin_y: -((height + 1) / 2),
    }
}

/// The grid of every level fits the viewport, with a cell spacing of twelve to
/// fifty-three pixels, and lies centred in it to within half a pixel.
pub proof fn playfield_fits_viewport(level: u32)
    ensures
        ({
            let (cols, rows) = (level_cols(level), level_rows(level));
            let size = spacing(cols, rows);
            &&& 12 <= size <= 53
            &&& fits_viewport(cols, rows, size)
            &&& 0 <= (cols - 1) * size <= GRID_AVAILABLE_X
            &&& 0 <= (rows - 1) * size <= GRID_AVAILABLE_Y
            &&& -1 <= 2 * first_coordinate(cols, size) + (cols - 1) * size <= 0
            &&& -1 <= 2 * first_coordinate(rows, size) + (rows - 1) * size <= 0
        }),
{
    let (cols, rows) = (level_cols(level), level_rows(level));
    let size = spacing(cols, rows);
    assert(12 * (cols - 1) <= 480 && 12 * (rows - 1) <= 480);
    spacing_is_largest_that_fits(cols, rows, 12);
    assert(size <= 53) by (nonlinear_arith)
        requires
            size * (cols - 1) <= 480,
            cols >= 10,
            size >= 1,
    ;
    assert((cols - 1) * size == size * (cols - 1)) by (nonlinear_arith);
    assert((rows - 1) * size == size * (rows - 1)) by (nonlinear_arith);
    assert((cols - 1) * size >= 0) by (nonlinear_arith)
        requires
            size >= 1,
            cols >= 1,
    ;
    assert((rows - 1) * size >= 0) by (nonlinear_arith)
        requires
            size >= 1,
            rows >= 1,
    ;
}

/// The size in pixels of the area that reacts to the pointer: the grid and a
/// border of half a cell.
pub fn hit_area(level: u32) -> (size: (i32, i32))
    ensures
        size.0 == level_cols(level) * spacing(level_cols(level), level_rows(level)),
        size.1 == level_rows(level) * spacing(level_cols(level), level_rows(level)),
{
    let field: Playfield = playfield(level);
    proof {
        playfield_fits_viewport(level);
    }
    let (cols, rows, size): (i32, i32, i32) = (field.cols, field.rows, field.cell_size);
    assert(0 <= cols * size <= 40 * 53 && 0 <= rows * size <= 40 * 53) by (nonlinear_arith)
        requires
            0 <= cols <= 40,
            0 <= rows <= 40,
            0 <= size <= 53,
    ;
    (cols * size, rows * size)
}

/// A dot of the grid, with its logical and its pixel position.
#[derive(Clone, Copy, Debug, PartialEq, Eq, Structural)]
pub struct GridDot {
    pub col: i32,
    pub row: i32,
    pub x: i32,
    pub y: i32,
}

/// `dot` is the dot of the cell `(col, row)` of a level's grid.
pub open spec fn is_dot(dot: GridDot, level: u32, col: int, row: int) -> bool {
    let (cols, rows) = (level_cols(level), level_rows(level));
    let size = spacing(cols, rows);
    &&& dot.col == col
    &&& dot.row == row
    &&& dot.x == first_coordinate(cols, size) + col * size
    &&& dot.y == first_coordinate(rows, size) + row * size
}

/// The dot that stands for one cell.
fn dot_at(field: &Playfield, col: i32, row: i32, Ghost(level): Ghost<u32>) -> (dot: GridDot)
    requires
        is_playfield(*field, level),
        on_board((col as int, row as int), field.cols as int, field.rows as int),
    ensures
        is_dot(dot, level, col as int, row as int),
{
    proof {
        playfield_fits_viewport(level);
        let (cols, rows, size) = (field.cols as int, field.rows as int, field.cell_size as int);
        assert(0 <= col * size <= (cols - 1) * size && 0 <= row * size <= (rows - 1) * size)
            by (nonlinear_arith)
            requires
                0 <= col <= cols - 1,
                0 <= row <= rows - 1,
                size >= 1,
        ;
    }
    GridDot {
        col,
        row,
        x: field.origin_x + col * field.cell_size,
        y: field.origin_y + row * field.cell_size,
    }
}

/// The dots of a level's grid, row by row.
pub fn grid_dots(level: u32) -> (dots: Vec<GridDot>)
    ensures
        dots@.len() == level_cols(level) * level_rows(level),
        forall|i: int|
            0 <= i < dots@.len() ==> is_dot(
                #[trigger] dots@[i],
                level,
                i % level_cols(level),
                i / level_cols(level),
            ),
        forall|i: int|
            0 <= i < dots@.len() ==> ({
                let dot = #[trigger] dots@[i];
                let size = spacing(level_cols(level), level_rows(level));
                &&& 0 <= dot.col < level_cols(level)
                &&& dot.row * level_cols(level) + dot.col == i
                &&& dot.x == dots@[0].x + dot.col * size
                &&& dot.y == dots@[0].y + dot.row * size
            }),
        dots@.len() > 0,
        -1 <= 2 * dots@[0].x + (level_cols(level) - 1) * spacing(
            level_cols(level),
            level_rows(level),
        ) <= 0,
        -1 <= 2 * dots@[0].y + (level_rows(level) - 1) * spacing(
            level_cols(level),
            level_rows(level),
        ) <= 0,
{
    let field: Playfield = playfield(level);
    let ghost (k, h) = (level_cols(level), level_rows(level));
    let mut dots: Vec<GridDot> = Vec::new();
    let mut row: i32 = 0;
    assert(0 * k == 0);
    while row < field.rows
        invariant
            is_playfield(field, level),
            k == level_cols(level),
            h == level_rows(level),
            k == field.cols,
            h == field.rows,
            0 <= row <= h,
            k >= 1,
            dots@.len() == row * k,
            forall|i: int|
                0 <= i < dots@.len() ==> is_dot(#[trigger] dots@[i], level, i % k, i / k),
        decreases h - row,
    {
        let mut col: i32 = 0;
        while col < field.cols
            invariant
                is_playfield(field, level),
                k == level_cols(level),
                h == level_rows(level),
                k == field.cols,
                h == field.rows,
                0 <= row < h,
                0 <= col <= k,
                k >= 1,
                dots@.len() == row * k + col,
                forall|i: int|
                    0 <= i < dots@.len() ==> is_dot(#[trigger] dots@[i], level, i % k, i / k),
            decreases k - col,
        {
            proof {
                let i = row * k + col;
                assert(i % k == col && i / k == row) by {
                    vstd::arithmetic::div_mod::lemma_fundamental_div_mod_converse(
                        i,
                        k,
                        row as int,
                        col as int,
                    );
                }
            }
            dots.push(dot_at(&field, col, row, Ghost(level)));
            col = col + 1;
        }
        assert((row + 1) * k == row * k + k) by (nonlinear_arith);
        row = row + 1;
    }
    assert(h * k == k * h) by (nonlinear_arith);
    proof {
        let size = spacing(k, h);
        playfield_fits_viewport(level);
        assert(k * h >= 1) by (nonlinear_arith)
            requires
                k >= 1,
                h >= 1,
        ;
        assert(0int % k == 0 && 0int / k == 0) by (nonlinear_arith)
            requires
                k >= 1,
        ;
        assert(is_dot(dots@[0], level, 0, 0));
        assert(0 * size == 0);
        assert forall|i: int| 0 <= i < dots@.len() implies ({
            let dot = #[trigger] dots@[i];
            &&& 0 <= dot.col < k
            &&& dot.row * k + dot.col == i
            &&& dot.x == dots@[0].x + dot.col * size
            &&& dot.y == dots@[0].y + dot.row * size
        }) by {
            assert(is_dot(dots@[i], level, i % k, i / k));
            assert(0 <= i % k < k && (i / k) * k + i % k == i) by (nonlinear_arith)
                requires
                    k >= 1,
            ;
        }
    }
    dots
}

/// `k`, or the nearer of the ends of `0..count` if it lies outside.
pub open spec fn clamped(k: int, count: int) -> int {
    if k < 0 {
        0
    } else if k >= count {
        count - 1
    } else {
        k
    }
}

/// The board cell nearest to `(col, row)`.
pub open spec fn nearest_cell(c: Cell, cols: int, rows: int) -> Cell {
    (clamped(c.0, cols), clamped(c.1, rows))
}

/// No cell of the board is nearer than the one that a position is clamped to,
/// along either axis.
pub proof fn clamping_finds_the_nearest(c: Cell, b: Cell, cols: int, rows: int)
    requires
        0 <= b.0 < cols,
        0 <= b.1 < rows,
    ensures
        ({
            let n = nearest_cell(c, cols, rows);
            &&& 0 <= n.0 < cols && 0 <= n.1 < rows
            &&& gap(n.0, c.0) <= gap(b.0, c.0)
            &&& gap(n.1, c.1) <= gap(b.1, c.1)
        }),
{
}

/// The board cell nearest to a position in grid units.
pub fn clamp_to_board(col: i32, row: i32, cols: i32, rows: i32) -> (cell: IVec2)
    requires
        cols >= 1,
        rows >= 1,
    ensures
        cell@ == nearest_cell((col as int, row as int), cols as int, rows as int),
        on_board(cell@, cols as int, rows as int),
        0 <= cell.x < cols && 0 <= cell.y < rows,
        0 <= col < cols ==> cell.x == col,
        0 <= row < rows ==> cell.y == row,
        col < 0 ==> cell.x == 0,
        row < 0 ==> cell.y == 0,
        col >= cols ==> cell.x == cols - 1,
        row >= rows ==> cell.y == rows - 1,
{
    IVec2::new(clamp_index(col, cols), clamp_index(row, rows))
}

fn clamp_index(k: i32, count: i32) -> (r: i32)
    requires
        count >= 1,
    ensures
        r == clamped(k as int, count as int),
{
    if k < 0 {
        0
    } else if k >= count {
        count - 1
    } else {
        k
    }
}

} // verus!
