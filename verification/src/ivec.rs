//! Integer grid vectors and the plane geometry that the board rests on.

use vstd::prelude::*;

verus! {

/// A point or a displacement on the grid, as mathematical integers.
pub type Cell = (int, int);

/// A grid coordinate `(col, row)`, or a displacement between two of them.
#[derive(Clone, Copy, Debug, PartialEq, Eq, Structural)]
pub struct IVec2 {
    pub x: i32,
    pub y: i32,
}

impl View for IVec2 {
    type V = Cell;

    open spec fn view(&self) -> Cell {
        (self.x as int, self.y as int)
    }
}

/// The points of an executable path.
pub open spec fn cells(path: Seq<IVec2>) -> Seq<Cell> {
    path.map_values(|p: IVec2| p@)
}

/// Whether both coordinates of `c` are `i32` values.
pub open spec fn fits(c: Cell) -> bool {
    &&& i32::MIN <= c.0 <= i32::MAX
    &&& i32::MIN <= c.1 <= i32::MAX
}

/// `c` displaced by `d`.
pub open spec fn plus(c: Cell, d: Cell) -> Cell {
    (c.0 + d.0, c.1 + d.1)
}

/// The displacement that leads from `b` to `a`.
pub open spec fn minus(a: Cell, b: Cell) -> Cell {
    (a.0 - b.0, a.1 - b.1)
}

/// The displacement opposite to `d`.
pub open spec fn opposite(d: Cell) -> Cell {
    (-d.0, -d.1)
}

/// `d` rotated a quarter turn counter-clockwise.
pub open spec fn left_of(d: Cell) -> Cell {
    (-d.1, d.0)
}

/// `d` rotated a quarter turn clockwise.
pub open spec fn right_of(d: Cell) -> Cell {
    (d.1, -d.0)
}

/// One of the four unit directions.
pub open spec fn cardinal(d: Cell) -> bool {
    d == (1int, 0int) || d == (-1int, 0int) || d == (0int, 1int) || d == (0int, -1int)
}

/// The cell `k` steps from `c` in the cardinal direction `d`.
pub open spec fn shift(c: Cell, d: Cell, k: int) -> Cell {
    if d == (1int, 0int) {
        (c.0 + k, c.1)
    } else if d == (-1int, 0int) {
        (c.0 - k, c.1)
    } else if d == (0int, 1int) {
        (c.0, c.1 + k)
    } else {
        (c.0, c.1 - k)
    }
}

/// `c` lies strictly ahead of `h` on the ray that leaves `h` in direction `d`.
pub open spec fn ahead(h: Cell, d: Cell, c: Cell) -> bool {
    &&& d.0 == 0 ==> c.0 == h.0
    &&& d.0 > 0 ==> c.0 > h.0
    &&& d.0 < 0 ==> c.0 < h.0
    &&& d.1 == 0 ==> c.1 == h.1
    &&& d.1 > 0 ==> c.1 > h.1
    &&& d.1 < 0 ==> c.1 < h.1
}

/// `c` is a cell of the board with `cols` columns and `rows` rows.
pub open spec fn on_board(c: Cell, cols: int, rows: int) -> bool {
    0 <= c.0 < cols && 0 <= c.1 < rows
}

/// The position of `c` in row-major storage with `cols` columns.
pub open spec fn index_of(c: Cell, cols: int) -> int {
    c.1 * cols + c.0
}

/// Board dimensions whose cell count is an `i32` that is not negative.
pub open spec fn storable(cols: int, rows: int) -> bool {
    0 <= cols * rows <= i32::MAX
}

/// A row-major mask over the board marks the cell `c`.
pub open spec fn marked(mask: Seq<bool>, cols: int, c: Cell) -> bool {
    mask[index_of(c, cols)]
}

impl IVec2 {
    pub fn new(x: i32, y: i32) -> (v: Self)
        ensures
            v == (IVec2 { x, y }),
    {
        IVec2 { x, y }
    }

    /// Componentwise sum.
    pub fn plus(self, d: IVec2) -> (r: IVec2)
        requires
            fits(plus(self@, d@)),
        ensures
            r@ == plus(self@, d@),
            r.x == self.x + d.x && r.y == self.y + d.y,
    {
        IVec2 { x: self.x + d.x, y: self.y + d.y }
    }

    /// Componentwise difference.
    pub fn minus(self, other: IVec2) -> (r: IVec2)
        requires
            fits(minus(self@, other@)),
        ensures
            r@ == minus(self@, other@),
            r.x == self.x - other.x && r.y == self.y - other.y,
    {
        IVec2 { x: self.x - other.x, y: self.y - other.y }
    }

    /// The opposite displacement.
    pub fn negated(self) -> (r: IVec2)
        requires
            fits(opposite(self@)),
        ensures
            r@ == opposite(self@),
            r.x == -self.x && r.y == -self.y,
    {
        IVec2 { x: -self.x, y: -self.y }
    }

    /// Componentwise product with a scalar.
    pub fn times(self, k: i32) -> (r: IVec2)
        requires
            fits((self.x * k, self.y * k)),
        ensures
            r@ == (self.x * k, self.y * k),
    {
        IVec2 { x: self.x * k, y: self.y * k }
    }
}

/// The row-major index of `p` on a board with `cols` columns. A point whose
/// index is negative wraps as the cast does; it names no storage slot.
#[inline]
pub fn cell_index(p: IVec2, cols: i32) -> (i: usize)
    requires
        i32::MIN <= p.y * cols <= i32::MAX,
        i32::MIN <= index_of(p@, cols as int) <= i32::MAX,
    ensures
        i == index_of(p@, cols as int) as i32 as usize,
        index_of(p@, cols as int) >= 0 ==> i == index_of(p@, cols as int),
        p.y * cols + p.x >= 0 ==> i == p.y * cols + p.x,
{
    (p.y * cols + p.x) as usize
}

/// Whether `p` is a cell of the board.
#[inline]
pub fn in_bounds(p: IVec2, cols: i32, rows: i32) -> (b: bool)
    ensures
        b == on_board(p@, cols as int, rows as int),
        b == (0 <= p.x < cols && 0 <= p.y < rows),
{
    p.x >= 0 && p.y >= 0 && p.x < cols && p.y < rows
}

/// Rotate a cardinal direction 90 degrees counter-clockwise (the left of
/// someone who faces `d`).
#[inline]
pub fn turn_left(d: IVec2) -> (r: IVec2)
    requires
        d.y != i32::MIN,
    ensures
        r@ == left_of(d@),
        r.x == -d.y && r.y == d.x,
{
    IVec2::new(-d.y, d.x)
}

/// Rotate a cardinal direction 90 degrees clockwise (the right of someone who
/// faces `d`).
#[inline]
pub fn turn_right(d: IVec2) -> (r: IVec2)
    requires
        d.x != i32::MIN,
    ensures
        r@ == right_of(d@),
        r.x == d.y && r.y == -d.x,
{
    IVec2::new(d.y, -d.x)
}

/// Boards can be stored and points be held exactly up to the limits of `i32`.
pub proof fn limits_are_those_of_the_numbers(cols: int, rows: int, c: Cell)
    ensures
        storable(cols, rows) <==> 0 <= cols * rows <= 0x7fff_ffff,
        fits(c) <==> -0x8000_0000 <= c.0 <= 0x7fff_ffff && -0x8000_0000 <= c.1 <= 0x7fff_ffff,
{
}

/// A displacement leads from its start to its end: added to a point it is what
/// the difference gives back, and its opposite leads back.
pub proof fn displacements_lead_from_point_to_point(c: Cell, d: Cell)
    ensures
        plus(c, d).0 - c.0 == d.0 && plus(c, d).1 - c.1 == d.1,
        minus(plus(c, d), c) == d,
        plus(plus(c, d), opposite(d)) == c,
{
}

/// A left turn leaves the length of a direction and stands square to it on its
/// counter-clockwise side; a right turn does so on the clockwise side.
pub proof fn turns_are_square_and_sided(d: Cell)
    ensures
        d.0 * left_of(d).0 + d.1 * left_of(d).1 == 0,
        d.0 * left_of(d).1 - d.1 * left_of(d).0 == d.0 * d.0 + d.1 * d.1,
        d.0 * right_of(d).0 + d.1 * right_of(d).1 == 0,
        d.0 * right_of(d).1 - d.1 * right_of(d).0 == -(d.0 * d.0 + d.1 * d.1),
        left_of(d).0 * left_of(d).0 + left_of(d).1 * left_of(d).1 == d.0 * d.0 + d.1 * d.1,
        right_of(d).0 * right_of(d).0 + right_of(d).1 * right_of(d).1 == d.0 * d.0 + d.1 * d.1,
{
    let (x, y) = d;
    assert(x * (-y) == -(y * x) && y * (-y) == -(y * y) && y * (-x) == -(x * y) && x * (-x) == -(x
        * x) && (-y) * (-y) == y * y && (-x) * (-x) == x * x && x * y == y * x) by (nonlinear_arith);
}

/// The cardinal directions are the displacements of length one.
pub proof fn cardinal_directions_have_length_one(d: Cell)
    ensures
        cardinal(d) <==> d.0 * d.0 + d.1 * d.1 == 1,
{
    let (x, y) = d;
    assert(x == 0 ==> x * x == 0) by (nonlinear_arith);
    assert(y == 0 ==> y * y == 0) by (nonlinear_arith);
    assert(x == 1 || x == -1 ==> x * x == 1) by (nonlinear_arith);
    assert(y == 1 || y == -1 ==> y * y == 1) by (nonlinear_arith);
    if x * x + y * y == 1 {
        assert(-1 <= x <= 1 && -1 <= y <= 1) by (nonlinear_arith)
            requires
                x * x + y * y == 1,
        ;
    }
}

/// A shift is made of single steps.
pub proof fn shifts_are_made_of_steps(c: Cell, d: Cell, k: int)
    requires
        cardinal(d),
    ensures
        shift(c, d, 0) == c,
        shift(c, d, k + 1).0 == shift(c, d, k).0 + d.0,
        shift(c, d, k + 1).1 == shift(c, d, k).1 + d.1,
{
}

/// What lies ahead is what a number of steps leads to.
pub proof fn ahead_is_some_steps_on(h: Cell, d: Cell, c: Cell)
    requires
        cardinal(d),
    ensures
        ahead(h, d, c) <==> exists|k: int| k >= 1 && #[trigger] shift(h, d, k) == c,
{
    if ahead(h, d, c) {
        let k = if d.0 == 1 {
            c.0 - h.0
        } else if d.0 == -1 {
            h.0 - c.0
        } else if d.1 == 1 {
            c.1 - h.1
        } else {
            h.1 - c.1
        };
        assert(shift(h, d, k) == c);
    }
}

/// Storage is row by row: it starts with the cell at the origin, the next cell
/// of a row has the next slot, and the next row starts `cols` slots later. A
/// mask marks what it holds at the slot.
pub proof fn storage_is_row_major(c: Cell, cols: int, mask: Seq<bool>)
    ensures
        index_of((0, 0), cols) == 0,
        index_of((c.0 + 1, c.1), cols) == index_of(c, cols) + 1,
        index_of((c.0, c.1 + 1), cols) == index_of(c, cols) + cols,
        marked(mask, cols, c) == mask[c.0 + c.1 * cols],
{
    assert(0 * cols == 0);
    assert((c.1 + 1) * cols == c.1 * cols + cols) by (nonlinear_arith);
}

/// A left turn and a right turn undo each other, two turns to one side face
/// backwards, and a turn takes cardinal directions to cardinal directions.
pub proof fn turns_are_quarter_rotations(d: Cell)
    ensures
        left_of(right_of(d)) == d,
        right_of(left_of(d)) == d,
        left_of(left_of(d)) == opposite(d),
        right_of(right_of(d)) == opposite(d),
        cardinal(d) ==> cardinal(left_of(d)) && cardinal(right_of(d)),
{
}

/// Cells of the board have distinct storage slots, and each slot exists.
pub proof fn board_cells_have_distinct_slots(a: Cell, b: Cell, cols: int, rows: int)
    requires
        on_board(a, cols, rows),
        on_board(b, cols, rows),
    ensures
        0 <= index_of(a, cols) < cols * rows,
        index_of(a, cols) == index_of(b, cols) ==> a == b,
{
    lemma_index_in_range(a, cols, rows);
    if index_of(a, cols) == index_of(b, cols) {
        assert(a.1 == b.1) by (nonlinear_arith)
            requires
                a.1 * cols + a.0 == b.1 * cols + b.0,
                0 <= a.0 < cols,
                0 <= b.0 < cols,
        ;
    }
}

/// The slot of a board cell lies in storage, and so does the start of its row.
pub proof fn lemma_index_in_range(c: Cell, cols: int, rows: int)
    requires
        on_board(c, cols, rows),
    ensures
        0 <= c.1 * cols <= index_of(c, cols) < cols * rows,
{
    assert(0 <= c.1 * cols && c.1 * cols + c.0 < cols * rows) by (nonlinear_arith)
        requires
            0 <= c.0 < cols,
            0 <= c.1 < rows,
    ;
}

} // verus!
