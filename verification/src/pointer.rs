//! What the pointer does: hovering, clicking, and the highlights they cause.

use crate::generate::level;
use crate::grid_map::{lookup_identifies_arrow, read, shows, Entity, GridMap};
use crate::ivec::{cells, fits, minus, Cell, IVec2};
use crate::path::{covers, gap};
use crate::placement::{heading, sign};
use crate::playfield::{
    clamp_to_board, clamping_finds_the_nearest, level_cols, level_grid_size, level_rows,
    nearest_cell,
};
use crate::solvable::{level_arrows_are_well_formed, well_formed};
use vstd::prelude::*;

verus! {

/// What the pointer is over.
#[derive(Clone, Copy, Debug, PartialEq, Eq, Structural)]
pub struct Hover {
    /// The arrow under the pointer, if any.
    pub arrow: Option<Entity>,
    /// The grid cell under the pointer, if any.
    pub cell: Option<IVec2>,
}

impl Default for Hover {
    fn default() -> (hover: Self)
        ensures
            hover == (Hover { arrow: None, cell: None }),
    {
        Hover { arrow: None, cell: None }
    }
}

/// A new hover state, and which of its parts differ from the one before.
#[derive(Clone, Copy, Debug, PartialEq, Eq, Structural)]
pub struct HoverUpdate {
    pub hover: Hover,
    pub arrow_changed: bool,
    pub cell_changed: bool,
}

/// The board cell of a level nearest to a position in grid units.
pub open spec fn pointed_cell(level: u32, col: int, row: int) -> Cell {
    nearest_cell((col, row), level_cols(level), level_rows(level))
}

/// The cell that a position selects is on the level's board, and no cell of it
/// is nearer along either axis.
pub proof fn pointed_cell_is_the_nearest(level: u32, col: int, row: int, b: Cell)
    requires
        0 <= b.0 < level_cols(level),
        0 <= b.1 < level_rows(level),
    ensures
        ({
            let n = pointed_cell(level, col, row);
            &&& 0 <= n.0 < level_cols(level) && 0 <= n.1 < level_rows(level)
            &&& gap(n.0, col) <= gap(b.0, col)
            &&& gap(n.1, row) <= gap(b.1, row)
        }),
{
    clamping_finds_the_nearest((col, row), b, level_cols(level), level_rows(level));
}

/// Whether two optional entities differ.
fn entities_differ(a: Option<Entity>, b: Option<Entity>) -> (differ: bool)
    ensures
        differ == (a != b),
{
    match (a, b) {
        (None, None) => false,
        (Some(x), Some(y)) => x != y,
        _ => true,
    }
}

/// Whether two optional cells differ.
fn cells_differ(a: Option<IVec2>, b: Option<IVec2>) -> (differ: bool)
    ensures
        differ == (a != b),
{
    match (a, b) {
        (None, None) => false,
        (Some(x), Some(y)) => x != y,
        _ => true,
    }
}

/// The pointer moved over the grid, to `(col, row)` in rounded grid units,
/// which may lie just off the board.
pub fn on_grid_hover(level: u32, grid_map: &GridMap, before: Hover, col: i32, row: i32) -> (update:
    HoverUpdate)
    requires
        grid_map.wf(),
    ensures
        update.hover.arrow == read(grid_map@, pointed_cell(level, col as int, row as int)),
        update.hover.cell matches Some(cell) && cell@ == pointed_cell(
            level,
            col as int,
            row as int,
        ),
        update.arrow_changed == (update.hover.arrow != before.arrow),
        update.cell_changed == (update.hover.cell != before.cell),
        update.hover.cell matches Some(cell) && update.hover.arrow == read(grid_map@, cell@),
{
    let (cols, rows): (i32, i32) = level_grid_size(level);
    let cell: IVec2 = clamp_to_board(col, row, cols, rows);
    let arrow: Option<Entity> = grid_map.get(cell.x, cell.y);
    let hover: Hover = Hover { arrow, cell: Some(cell) };
    HoverUpdate {
        hover,
        arrow_changed: entities_differ(hover.arrow, before.arrow),
        cell_changed: cells_differ(hover.cell, before.cell),
    }
}

/// The pointer left the grid: nothing is hovered any more.
pub fn on_grid_leave() -> (hover: Hover)
    ensures
        hover == (Hover { arrow: None, cell: None }),
{
    Hover { arrow: None, cell: None }
}

/// The player clicked at `(col, row)` in rounded grid units, which may lie just
/// off the board. Yields the arrow on that cell, if there is one.
pub fn on_grid_click(level: u32, grid_map: &GridMap, col: i32, row: i32) -> (clicked: Option<
    Entity,
>)
    requires
        grid_map.wf(),
    ensures
        clicked == read(grid_map@, pointed_cell(level, col as int, row as int)),
{
    let (cols, rows): (i32, i32) = level_grid_size(level);
    let cell: IVec2 = clamp_to_board(col, row, cols, rows);
    grid_map.get(cell.x, cell.y)
}

/// The displacement along which a clicked arrow begins to slide: that of its
/// last segment. An arrow that is under way already is left alone.
pub fn start_slide(vertices: &Vec<IVec2>, animating: bool) -> (direction: Option<IVec2>)
    requires
        vertices@.len() >= 2,
        fits(minus(vertices@.last()@, vertices@[vertices@.len() - 2]@)),
    ensures
        direction is None <==> animating,
        direction matches Some(d) ==> d@ == minus(
            vertices@.last()@,
            vertices@[vertices@.len() - 2]@,
        ),
        direction matches Some(d) ==> (sign(d.x as int), sign(d.y as int)) == heading(
            cells(vertices@),
        ),
{
    if animating {
        return None;
    }
    let n: usize = vertices.len();
    let direction: IVec2 = vertices[n - 1].minus(vertices[n - 2]);
    Some(direction)
}

/// On a generated level, a click on a cell of an arrow selects that arrow.
pub proof fn click_selects_arrow(
    index: u32,
    entities: Seq<Entity>,
    map: Map<Cell, Entity>,
    k: int,
    c: Cell,
)
    requires
        entities.len() == level(level_cols(index), level_rows(index), index).len(),
        shows(
            map,
            level_cols(index),
            level_rows(index),
            level(level_cols(index), level_rows(index), index),
            entities,
        ),
        0 <= k < entities.len(),
        covers(level(level_cols(index), level_rows(index), index)[k].path, c),
    ensures
        read(map, pointed_cell(index, c.0, c.1)) == Some(entities[k]),
{
    let (cols, rows) = (level_cols(index), level_rows(index));
    level_arrows_are_well_formed(cols, rows, index);
    assert(well_formed(level(cols, rows, index)[k], cols, rows));
    lookup_identifies_arrow(cols, rows, index, entities, map, k, c);
}

/// How brightly an arrow is drawn.
#[derive(Clone, Copy, Debug, PartialEq, Eq, Structural)]
pub enum Lightness {
    /// Idle, and not under the pointer.
    Normal,
    /// Under the pointer.
    Hovered,
    /// On its way off the board.
    Animating,
}

/// The brightness of an arrow: sliding outshines hovering.
pub fn arrow_lightness(animating: bool, hovered: Option<Entity>, arrow: Entity) -> (tier: Lightness)
    ensures
        tier == (if animating {
            Lightness::Animating
        } else if hovered == Some(arrow) {
            Lightness::Hovered
        } else {
            Lightness::Normal
        }),
{
    if animating {
        return Lightness::Animating;
    }
    if entities_differ(hovered, Some(arrow)) {
        Lightness::Normal
    } else {
        Lightness::Hovered
    }
}

/// The size of a grid dot in percent: half as large again under the pointer.
pub fn dot_scale_percent(hovered: Option<IVec2>, col: i32, row: i32) -> (percent: u32)
    ensures
        percent == (if hovered == Some((IVec2 { x: col, y: row })) {
            150u32
        } else {
            100u32
        }),
{
    if cells_differ(hovered, Some(IVec2::new(col, row))) {
        100
    } else {
        150
    }
}

} // verus!
