//! The slide of an arrow along its own path and off the board.
//!
//! Both ends travel at the same speed: the head runs on past the last vertex,
//! and the tail follows the path. Distances are whole pixels; a slide offset
//! between two of them falls on the same segment as its whole part.

use crate::generate::{floored, level};
use crate::ivec::{cardinal, cells, on_board, shift, Cell, IVec2};
use crate::path::{axis_aligned, gap, straight, straight_path};
use crate::placement::{
    direction, heading, legal_segments, sign, steps_add_up_both_axes, steps_between, MAX_SEGMENTS,
    MAX_SEG_LEN,
};
use crate::playfield::{
    first_coordinate, level_cols, level_rows, playfield_fits_viewport, spacing, WINDOW_SIZE,
};
use crate::solvable::{level_arrows_are_well_formed, well_formed};
use vstd::arithmetic::mul::lemma_mul_is_distributive_add_other_way;
use vstd::prelude::*;

verus! {

/// The length of a path along the axes, in cells.
pub open spec fn path_length(path: Seq<Cell>) -> int
    decreases path.len(),
{
    if path.len() < 2 {
        0
    } else {
        path_length(path.drop_last()) + steps_between(path[path.len() - 2], path.last())
    }
}

/// The distance along `path` from its start to vertex `k`, in cells.
pub open spec fn distance_to(path: Seq<Cell>, k: int) -> int {
    path_length(path.take(k + 1))
}

/// The length of a path is that of its segments together: a single point has
/// none, and one more point adds the steps that lead to it. The distance to a
/// vertex is the length of the path up to it.
pub proof fn lengths_add_up_segment_by_segment(path: Seq<Cell>, x: Cell, k: int)
    ensures
        path.len() < 2 ==> path_length(path) == 0,
        path.len() >= 1 ==> path_length(path.push(x)) == path_length(path) + gap(
            path.last().0,
            x.0,
        ) + gap(path.last().1, x.1),
        0 <= k < path.len() ==> distance_to(path, k) == path_length(path.take(k + 1)),
{
    if path.len() >= 1 {
        assert(path.push(x).drop_last() =~= path);
        steps_add_up_both_axes(path.last(), x);
    }
}

/// The distance grows by the length of each segment passed.
pub proof fn lemma_distance_step(path: Seq<Cell>, k: int)
    requires
        1 <= k < path.len(),
    ensures
        distance_to(path, k) == distance_to(path, k - 1) + steps_between(path[k - 1], path[k]),
        distance_to(path, 0) == 0,
        straight(path[k - 1], path[k]) ==> distance_to(path, k) > distance_to(path, k - 1),
{
    let longer = path.take(k + 1);
    assert(longer.drop_last() =~= path.take(k));
    assert(longer[longer.len() - 2] == path[k - 1]);
}

/// Vertices further on are further away.
pub proof fn lemma_distance_monotonic(path: Seq<Cell>, j: int, k: int)
    requires
        0 <= j <= k < path.len(),
    ensures
        0 <= distance_to(path, j) <= distance_to(path, k) <= path_length(path),
        distance_to(path, path.len() - 1) == path_length(path),
        straight_path(path) && j < k ==> distance_to(path, j) < distance_to(path, k),
{
    assert(path.take(path.len() as int) =~= path);
    if j > 0 {
        lemma_distance_from_start(path, j);
    }
    if k < path.len() - 1 {
        lemma_distance_between(path, k, path.len() - 1);
    }
    lemma_distance_between(path, j, k);
}

proof fn lemma_distance_from_start(path: Seq<Cell>, j: int)
    requires
        0 <= j < path.len(),
    ensures
        0 <= distance_to(path, j),
    decreases j,
{
    if j > 0 {
        lemma_distance_step(path, j);
        lemma_distance_from_start(path, j - 1);
    }
}

proof fn lemma_distance_between(path: Seq<Cell>, j: int, k: int)
    requires
        0 <= j <= k < path.len(),
    ensures
        distance_to(path, j) <= distance_to(path, k),
        straight_path(path) && j < k ==> distance_to(path, j) < distance_to(path, k),
    decreases k - j,
{
    if j < k {
        lemma_distance_step(path, k);
        lemma_distance_between(path, j, k - 1);
        assert(straight_path(path) ==> straight(path[k - 1], path[k - 1 + 1]));
    }
}

/// The number of steps along the axes between two points.
fn steps(a: IVec2, b: IVec2) -> (n: i32)
    requires
        steps_between(a@, b@) <= i32::MAX,
    ensures
        n == steps_between(a@, b@),
{
    let across: i32 = if a.x <= b.x {
        b.x - a.x
    } else {
        a.x - b.x
    };
    let along: i32 = if a.y <= b.y {
        b.y - a.y
    } else {
        a.y - b.y
    };
    across + along
}

/// The length of a path along rows and columns, in cells.
pub fn arrow_length(vertices: &Vec<IVec2>) -> (length: i32)
    requires
        axis_aligned(cells(vertices@)),
        path_length(cells(vertices@)) <= i32::MAX,
    ensures
        length == path_length(cells(vertices@)),
{
    let ghost path = cells(vertices@);
    if vertices.len() == 0 {
        return 0;
    }
    let mut length: i32 = 0;
    let mut i: usize = 1;
    assert(path.take(1).len() == 1);
    while i < vertices.len()
        invariant
            path == cells(vertices@),
            path_length(path) <= i32::MAX,
            1 <= i <= vertices.len(),
            length == distance_to(path, i - 1),
        decreases vertices.len() - i,
    {
        proof {
            lemma_distance_step(path, i as int);
            lemma_distance_monotonic(path, i as int - 1, i as int);
            assert(path[i as int - 1] == vertices@[i as int - 1]@);
        }
        length = length + steps(vertices[i - 1], vertices[i]);
        i = i + 1;
    }
    assert(path.take(path.len() as int) =~= path);
    length
}

/// An arrow that has slid by `offset` pixels is well past the screen boundary.
pub open spec fn is_gone(path: Seq<Cell>, cell_size: int, offset: int) -> bool {
    offset > path_length(path) * cell_size + WINDOW_SIZE
}

/// An offset of `num` over `den` pixels is past the screen boundary exactly if
/// that offset rounded up is.
pub proof fn rounding_up_decides_whether_gone(
    path: Seq<Cell>,
    cell_size: int,
    num: int,
    den: int,
)
    requires
        den >= 1,
    ensures
        is_gone(path, cell_size, (num + den - 1) / den) <==> num > (path_length(path) * cell_size
            + WINDOW_SIZE) * den,
{
    let limit = path_length(path) * cell_size + WINDOW_SIZE;
    let up = (num + den - 1) / den;
    assert(num <= up * den < num + den) by (nonlinear_arith)
        requires
            den >= 1,
            up == (num + den - 1) / den,
    ;
    assert(up > limit ==> num > limit * den) by (nonlinear_arith)
        requires
            den >= 1,
            up * den < num + den,
    ;
    assert(up <= limit ==> num <= limit * den) by (nonlinear_arith)
        requires
            den >= 1,
            num <= up * den,
    ;
}

/// Whether an arrow can be slid: straight segments, and a length in pixels that
/// leaves room for the window.
pub fn slidable(vertices: &Vec<IVec2>, cell_size: i32) -> (ok: bool)
    ensures
        ok <==> straight_path(cells(vertices@)) && cell_size >= 1 && path_length(cells(vertices@))
            * cell_size + WINDOW_SIZE <= i32::MAX,
{
    let ghost path = cells(vertices@);
    let n: usize = vertices.len();
    if n < 2 || cell_size < 1 {
        return false;
    }
    let room: i64 = ((i32::MAX - WINDOW_SIZE) / cell_size) as i64;
    let mut length: i64 = 0;
    let mut i: usize = 1;
    assert(path.take(1).len() == 1);
    while i < n
        invariant
            path == cells(vertices@),
            n == vertices@.len(),
            n >= 2,
            cell_size >= 1,
            room == (i32::MAX - WINDOW_SIZE) / cell_size as int,
            1 <= i <= n,
            0 <= length <= room <= i32::MAX,
            length == distance_to(path, i - 1),
            forall|j: int| 0 <= j < i - 1 ==> straight(#[trigger] path[j], path[j + 1]),
        decreases n - i,
    {
        let (a, b): (IVec2, IVec2) = (vertices[i - 1], vertices[i]);
        assert(path[i - 1] == a@ && path[i - 1 + 1] == b@);
        if (a.x == b.x) == (a.y == b.y) {
            assert(!straight(path[i - 1], path[i - 1 + 1]));
            return false;
        }
        proof {
            lemma_distance_step(path, i as int);
            lemma_distance_monotonic(path, i as int, i as int);
        }
        length = length + long_steps(a, b);
        if length > room {
            proof {
                lemma_room(path_length(path), cell_size as int);
            }
            return false;
        }
        i = i + 1;
    }
    proof {
        assert(path.take(path.len() as int) =~= path);
        lemma_room(path_length(path), cell_size as int);
    }
    true
}

/// A length fits beside the window exactly if it is at most what division gives.
proof fn lemma_room(length: int, cell_size: int)
    requires
        cell_size >= 1,
    ensures
        length * cell_size + WINDOW_SIZE <= i32::MAX <==> length <= (i32::MAX - WINDOW_SIZE)
            / cell_size,
{
    let most = i32::MAX - WINDOW_SIZE;
    assert(length * cell_size <= most <==> length <= most / cell_size) by (nonlinear_arith)
        requires
            cell_size >= 1,
    ;
}

/// The number of steps along the axes between any two points.
fn long_steps(a: IVec2, b: IVec2) -> (n: i64)
    ensures
        n == steps_between(a@, b@),
        0 <= n <= 0x2_0000_0000,
{
    let across: i64 = if a.x <= b.x {
        b.x as i64 - a.x as i64
    } else {
        a.x as i64 - b.x as i64
    };
    let along: i64 = if a.y <= b.y {
        b.y as i64 - a.y as i64
    } else {
        a.y as i64 - b.y as i64
    };
    across + along
}

/// Whether an arrow that has slid by an offset is well past the screen
/// boundary, tail included. `offset` is the slide offset in pixels, rounded up.
pub fn slid_off(vertices: &Vec<IVec2>, cell_size: i32, offset: i32) -> (gone: bool)
    requires
        axis_aligned(cells(vertices@)),
        cell_size >= 1,
        path_length(cells(vertices@)) * cell_size + WINDOW_SIZE <= i32::MAX,
    ensures
        gone <==> is_gone(cells(vertices@), cell_size as int, offset as int),
        gone <==> offset > path_length(cells(vertices@)) * cell_size + 640,
{
    let ghost n = path_length(cells(vertices@));
    proof {
        if vertices@.len() > 0 {
            lemma_distance_monotonic(cells(vertices@), 0, 0);
        }
        assert(0 <= n <= n * cell_size) by (nonlinear_arith)
            requires
                n >= 0,
                cell_size >= 1,
        ;
    }
    let length: i32 = arrow_length(vertices);
    offset > length * cell_size + WINDOW_SIZE
}

/// Where the tail of a sliding arrow is.
#[derive(Clone, Copy, Debug, PartialEq, Eq, Structural)]
pub struct TailPosition {
    /// The number of path segments that the tail has left behind.
    pub segment: usize,
    /// Their length in pixels.
    pub passed: i32,
}

/// `tail` is where a tail that has travelled `offset` pixels is: past the end
/// of every segment that is no longer than that, and of no other.
pub open spec fn tail_at(path: Seq<Cell>, cell_size: int, offset: int, tail: TailPosition) -> bool {
    &&& tail.segment < path.len()
    &&& tail.passed == distance_to(path, tail.segment as int) * cell_size
    &&& tail.passed <= offset
    &&& tail.segment < path.len() - 1 ==> offset < distance_to(path, tail.segment + 1) * cell_size
}

/// A tail has left behind the segments that are no longer together than it has
/// travelled, as far as there are any, and counts their pixels.
pub proof fn tails_leave_whole_segments_behind(
    path: Seq<Cell>,
    cell_size: int,
    offset: int,
    tail: TailPosition,
)
    requires
        tail_at(path, cell_size, offset, tail),
    ensures
        tail.segment < path.len(),
        tail.passed == path_length(path.take(tail.segment + 1)) * cell_size,
        tail.passed <= offset,
        tail.segment + 1 < path.len() ==> offset < path_length(path.take(tail.segment + 2))
            * cell_size,
{
}

/// There is one such position only.
pub proof fn tail_position_is_unique(
    path: Seq<Cell>,
    cell_size: int,
    offset: int,
    a: TailPosition,
    b: TailPosition,
)
    requires
        cell_size >= 1,
        tail_at(path, cell_size, offset, a),
        tail_at(path, cell_size, offset, b),
    ensures
        a == b,
{
    lemma_tail_not_later(path, cell_size, offset, a, b);
    lemma_tail_not_later(path, cell_size, offset, b, a);
}

proof fn lemma_tail_not_later(
    path: Seq<Cell>,
    cell_size: int,
    offset: int,
    a: TailPosition,
    b: TailPosition,
)
    requires
        cell_size >= 1,
        tail_at(path, cell_size, offset, a),
        tail_at(path, cell_size, offset, b),
    ensures
        b.segment <= a.segment,
{
    if a.segment < b.segment {
        lemma_distance_monotonic(path, a.segment + 1, b.segment as int);
        let (x, y) = (distance_to(path, a.segment + 1), distance_to(path, b.segment as int));
        assert(x * cell_size <= y * cell_size) by (nonlinear_arith)
            requires
                x <= y,
                cell_size >= 1,
        ;
    }
}

/// An offset of `num` over `den` pixels falls on the same segment as that offset
/// rounded down.
pub proof fn rounding_down_keeps_the_segment(
    path: Seq<Cell>,
    cell_size: int,
    num: int,
    den: int,
    tail: TailPosition,
)
    requires
        den >= 1,
        tail_at(path, cell_size, num / den, tail),
    ensures
        tail.passed * den <= num,
        tail.segment < path.len() - 1 ==> num < (distance_to(path, tail.segment + 1) * cell_size)
            * den,
{
    let down = num / den;
    let passed = tail.passed as int;
    assert(down * den <= num < down * den + den) by (nonlinear_arith)
        requires
            den >= 1,
            down == num / den,
    ;
    assert(passed * den <= down * den) by (nonlinear_arith)
        requires
            den >= 1,
            passed <= down,
    ;
    if tail.segment < path.len() - 1 {
        let end = distance_to(path, tail.segment + 1) * cell_size;
        assert(down * den + den <= end * den) by (nonlinear_arith)
            requires
                den >= 1,
                down + 1 <= end,
        ;
    }
}

/// Finds the tail of an arrow that has slid by `offset` pixels, rounded down. A
/// negative offset counts as none.
pub fn tail_position(vertices: &Vec<IVec2>, cell_size: i32, offset: i32) -> (tail: TailPosition)
    requires
        straight_path(cells(vertices@)),
        cell_size >= 1,
        path_length(cells(vertices@)) * cell_size <= i32::MAX,
    ensures
        tail_at(cells(vertices@), cell_size as int, floored(offset as int) as int, tail),
        tail.segment < vertices@.len(),
        tail.passed == path_length(cells(vertices@).take(tail.segment + 1)) * cell_size,
        offset >= 0 ==> tail.passed <= offset,
        tail.segment + 1 < vertices@.len() ==> offset < path_length(
            cells(vertices@).take(tail.segment + 2),
        ) * cell_size,
{
    let travelled: i32 = if offset < 0 {
        0
    } else {
        offset
    };
    let ghost path = cells(vertices@);
    let ghost k = cell_size as int;
    let mut segment: usize = 0;
    let mut passed: i32 = 0;
    assert(path.take(1).len() == 1);
    assert(0 * k == 0);
    while segment + 1 < vertices.len()
        invariant
            path == cells(vertices@),
            k == cell_size,
            k >= 1,
            path_length(path) * k <= i32::MAX,
            segment < vertices.len(),
            passed == distance_to(path, segment as int) * k,
            0 <= passed <= travelled,
            travelled == floored(offset as int),
        decreases vertices.len() - segment,
    {
        let ghost next = distance_to(path, segment + 1);
        let ghost length = steps_between(path[segment as int], path[segment + 1]);
        proof {
            lemma_distance_step(path, segment + 1);
            lemma_distance_monotonic(path, segment as int, segment + 1);
            assert(path[segment as int] == vertices@[segment as int]@);
            assert(path[segment + 1] == vertices@[segment + 1]@);
            assert(0 <= length <= length * k && next * k <= path_length(path) * k)
                by (nonlinear_arith)
                requires
                    0 <= length,
                    next <= path_length(path),
                    k >= 1,
            ;
            lemma_mul_is_distributive_add_other_way(
                k,
                distance_to(path, segment as int),
                length,
            );
        }
        let pixels: i32 = steps(vertices[segment], vertices[segment + 1]) * cell_size;
        if travelled - passed < pixels {
            return TailPosition { segment, passed };
        }
        passed = passed + pixels;
        segment = segment + 1;
    }
    TailPosition { segment, passed }
}

/// A point of a body that is part-way along its slide.
#[derive(Clone, Copy, Debug, PartialEq, Eq, Structural)]
pub enum Waypoint {
    /// The end of the tail.
    Tail,
    /// A vertex of the path, by its position.
    Vertex(usize),
    /// The arrowhead.
    Head,
}

/// The waypoints of a body whose tail has left `segment` segments of a path of
/// `count` vertices behind: the tail, the vertices that the tail has still to
/// reach but for the last, and the head.
pub open spec fn body_waypoints(count: int, segment: int) -> Seq<Waypoint> {
    seq![Waypoint::Tail] + Seq::new(
        inner_vertices(count, segment),
        |i: int| Waypoint::Vertex((segment + 1 + i) as usize),
    ) + seq![Waypoint::Head]
}

/// The number of path vertices strictly inside the body.
pub open spec fn inner_vertices(count: int, segment: int) -> nat {
    if segment + 2 <= count {
        (count - segment - 2) as nat
    } else {
        0
    }
}

/// The waypoints of a sliding body, tail first.
pub fn waypoints(count: usize, segment: usize) -> (list: Vec<Waypoint>)
    requires
        segment < count,
    ensures
        list@ == body_waypoints(count as int, segment as int),
        list@.len() == (if segment + 2 <= count {
            count - segment
        } else {
            2
        }),
        list@[0] == Waypoint::Tail,
        list@.last() == Waypoint::Head,
        forall|i: int|
            1 <= i < list@.len() - 1 ==> #[trigger] list@[i] == Waypoint::Vertex(
                (segment + i) as usize,
            ),
{
    let mut list: Vec<Waypoint> = Vec::new();
    list.push(Waypoint::Tail);
    let mut i: usize = segment + 1;
    while i < count && i + 1 < count
        invariant
            segment < i <= count,
            list@ =~= seq![Waypoint::Tail] + Seq::new(
                (i - segment - 1) as nat,
                |j: int| Waypoint::Vertex((segment + 1 + j) as usize),
            ),
            i > segment + 1 ==> i + 1 <= count,
        decreases count - i,
    {
        list.push(Waypoint::Vertex(i));
        i = i + 1;
    }
    list.push(Waypoint::Head);
    assert(list@ =~= body_waypoints(count as int, segment as int));
    list
}

/// How far along the path, prolonged beyond its last vertex, a waypoint lies
/// when the slide offset is `offset`, in pixels.
pub open spec fn waypoint_distance(
    path: Seq<Cell>,
    cell_size: int,
    offset: int,
    w: Waypoint,
) -> int {
    match w {
        Waypoint::Tail => offset,
        Waypoint::Vertex(v) => distance_to(path, v as int) * cell_size,
        Waypoint::Head => path_length(path) * cell_size + offset,
    }
}

/// At every offset the waypoints follow one another strictly along the path,
/// and the body from tail to head is as long as the arrow at rest.
pub proof fn body_length_is_constant(
    path: Seq<Cell>,
    cell_size: int,
    offset: int,
    tail: TailPosition,
)
    requires
        straight_path(path),
        path.len() <= usize::MAX,
        cell_size >= 1,
        offset >= 0,
        tail_at(path, cell_size, offset, tail),
    ensures
        ({
            let list = body_waypoints(path.len() as int, tail.segment as int);
            let far = |i: int| waypoint_distance(path, cell_size, offset, list[i]);
            &&& forall|i: int, j: int| 0 <= i < j < list.len() ==> #[trigger] far(i) < #[trigger] far(j)
            &&& far(list.len() - 1) - far(0) == path_length(path) * cell_size
        }),
{
    let list = body_waypoints(path.len() as int, tail.segment as int);
    let far = |i: int| waypoint_distance(path, cell_size, offset, list[i]);
    let n = path.len() as int;
    let s = tail.segment as int;
    let total = path_length(path);
    lemma_distance_monotonic(path, 0, n - 1);
    assert(total * cell_size > 0) by (nonlinear_arith)
        requires
            total > 0,
            cell_size >= 1,
    ;
    assert forall|i: int, j: int| 0 <= i < j < list.len() implies #[trigger] far(i) < #[trigger] far(
        j,
    ) by {
        let (a, b) = (s + i, s + j);
        if j == list.len() - 1 {
            if i > 0 {
                lemma_distance_monotonic(path, a, n - 1);
                let x = distance_to(path, a);
                assert(x * cell_size < total * cell_size) by (nonlinear_arith)
                    requires
                        x < total,
                        cell_size >= 1,
                ;
            }
        } else if i == 0 {
            lemma_distance_monotonic(path, s + 1, b);
            let (x, y) = (distance_to(path, s + 1), distance_to(path, b));
            assert(x * cell_size <= y * cell_size) by (nonlinear_arith)
                requires
                    x <= y,
                    cell_size >= 1,
            ;
        } else {
            lemma_distance_monotonic(path, a, b);
            let (x, y) = (distance_to(path, a), distance_to(path, b));
            assert(x * cell_size < y * cell_size) by (nonlinear_arith)
                requires
                    x < y,
                    cell_size >= 1,
            ;
        }
    }
}

/// The sign of `k`.
fn sign_of(k: i64) -> (s: i32)
    ensures
        s == sign(k as int),
{
    if k > 0 {
        1
    } else if k < 0 {
        -1
    } else {
        0
    }
}

/// The unit direction that leads from `a` to `b` along an axis.
pub fn direction_of(a: IVec2, b: IVec2) -> (d: IVec2)
    ensures
        d@ == direction(a@, b@),
        -1 <= d.x <= 1,
        -1 <= d.y <= 1,
{
    IVec2::new(sign_of(b.x as i64 - a.x as i64), sign_of(b.y as i64 - a.y as i64))
}

/// The direction in which the path runs on from vertex `s`; past its last
/// vertex it is prolonged straight ahead.
pub open spec fn onward(path: Seq<Cell>, s: int) -> Cell {
    if s < path.len() - 1 {
        direction(path[s], path[s + 1])
    } else {
        heading(path)
    }
}

/// The directions of the body segments, from the tail to the head, once the
/// tail has left `segment` path segments behind.
pub open spec fn body_directions(path: Seq<Cell>, segment: int) -> Seq<Cell> {
    Seq::new(
        inner_vertices(path.len() as int, segment) + 1,
        |i: int| onward(path, segment + i),
    )
}

/// Finds the direction in which the path runs on from a vertex.
fn onward_from(vertices: &Vec<IVec2>, s: usize) -> (d: IVec2)
    requires
        vertices@.len() >= 2,
        s < vertices@.len(),
    ensures
        d@ == onward(cells(vertices@), s as int),
{
    let n: usize = vertices.len();
    if s < n - 1 {
        direction_of(vertices[s], vertices[s + 1])
    } else {
        direction_of(vertices[n - 2], vertices[n - 1])
    }
}

/// The directions of the segments of a sliding body, tail first.
pub fn segment_directions(vertices: &Vec<IVec2>, segment: usize) -> (list: Vec<IVec2>)
    requires
        vertices@.len() >= 2,
        segment < vertices@.len(),
    ensures
        cells(list@) == body_directions(cells(vertices@), segment as int),
        list@.len() == (if segment + 2 <= vertices@.len() {
            vertices@.len() - segment - 1
        } else {
            1
        }),
        forall|i: int|
            0 <= i < list@.len() ==> (#[trigger] list@[i])@ == (if segment + i + 1
                < vertices@.len() {
                direction(vertices@[segment + i]@, vertices@[segment + i + 1]@)
            } else {
                direction(vertices@[vertices@.len() - 2]@, vertices@.last()@)
            }),
{
    let ghost path = cells(vertices@);
    let n: usize = vertices.len();
    let mut list: Vec<IVec2> = Vec::new();
    list.push(onward_from(vertices, segment));
    let mut i: usize = segment + 1;
    while i < n - 1
        invariant
            path == cells(vertices@),
            n == vertices@.len(),
            n >= 2,
            segment < i <= n,
            i > segment + 1 ==> i <= n - 1,
            list@.len() == i - segment,
            forall|j: int|
                0 <= j < list@.len() ==> (#[trigger] list@[j])@ == onward(path, segment + j),
        decreases n - i,
    {
        list.push(onward_from(vertices, i));
        i = i + 1;
    }
    assert(cells(list@) =~= body_directions(path, segment as int));
    list
}

/// How a waypoint moves: at slide offset `t` it lies `t - passed` pixels from
/// the grid point `vertex` in the given direction, which is zero if the
/// waypoint stands still.
#[derive(Clone, Copy, Debug, PartialEq, Eq, Structural)]
pub struct Anchor {
    pub vertex: IVec2,
    pub direction: IVec2,
    pub passed: i32,
}

/// `a` tells where waypoint `w` of a body with its tail at `tail` is.
pub open spec fn anchored(path: Seq<Cell>, tail: TailPosition, w: Waypoint, a: Anchor) -> bool {
    match w {
        Waypoint::Tail => {
            &&& a.vertex@ == path[tail.segment as int]
            &&& a.direction@ == onward(path, tail.segment as int)
            &&& a.passed == tail.passed
        },
        Waypoint::Vertex(v) => {
            &&& a.vertex@ == path[v as int]
            &&& a.direction@ == (0int, 0int)
            &&& a.passed == 0
        },
        Waypoint::Head => {
            &&& a.vertex@ == path.last()
            &&& a.direction@ == heading(path)
            &&& a.passed == 0
        },
    }
}

/// Finds where a waypoint of a sliding body is.
pub fn anchor(vertices: &Vec<IVec2>, tail: TailPosition, w: Waypoint) -> (a: Anchor)
    requires
        vertices@.len() >= 2,
        tail.segment < vertices@.len(),
        w matches Waypoint::Vertex(v) ==> v < vertices@.len(),
    ensures
        anchored(cells(vertices@), tail, w, a),
        match w {
            Waypoint::Tail => a.vertex == vertices@[tail.segment as int] && a.passed == tail.passed,
            Waypoint::Vertex(v) => a.vertex == vertices@[v as int] && a.passed == 0 && a.direction.x
                == 0 && a.direction.y == 0,
            Waypoint::Head => a.vertex == vertices@.last() && a.passed == 0,
        },
        w is Head || (w is Tail && tail.segment == vertices@.len() - 1) ==> a.direction@
            == direction(vertices@[vertices@.len() - 2]@, vertices@.last()@),
        w is Tail && tail.segment < vertices@.len() - 1 ==> a.direction@ == direction(
            vertices@[tail.segment as int]@,
            vertices@[tail.segment + 1]@,
        ),
{
    match w {
        Waypoint::Tail => Anchor {
            vertex: vertices[tail.segment],
            direction: onward_from(vertices, tail.segment),
            passed: tail.passed,
        },
        Waypoint::Vertex(v) => Anchor {
            vertex: vertices[v],
            direction: IVec2::new(0, 0),
            passed: 0,
        },
        Waypoint::Head => Anchor {
            vertex: vertices[vertices.len() - 1],
            direction: onward_from(vertices, vertices.len() - 1),
            passed: 0,
        },
    }
}

/// Where an anchored waypoint lies at a whole slide offset, in pixels from the
/// origin of the grid.
pub open spec fn anchor_pixel(a: Anchor, cell_size: int, offset: int) -> Cell {
    (
        a.vertex.x * cell_size + a.direction.x * (offset - a.passed),
        a.vertex.y * cell_size + a.direction.y * (offset - a.passed),
    )
}

/// Waypoints lie on the path and on the line beyond it: a vertex at its own
/// pixels, whatever the offset; the tail as far past the last vertex behind it as
/// it has gone on from there; the head as far past the last vertex as it has
/// travelled.
pub proof fn waypoints_lie_on_the_path(
    path: Seq<Cell>,
    cell_size: int,
    offset: int,
    tail: TailPosition,
    w: Waypoint,
    a: Anchor,
)
    requires
        straight_path(path),
        tail_at(path, cell_size, offset, tail),
        anchored(path, tail, w, a),
    ensures
        ({
            let pixels = |c: Cell| (c.0 * cell_size, c.1 * cell_size);
            let at = anchor_pixel(a, cell_size, offset);
            let (s, n) = (tail.segment as int, path.len() as int);
            let behind = offset - path_length(path.take(s + 1)) * cell_size;
            match w {
                Waypoint::Vertex(v) => at == pixels(path[v as int]),
                Waypoint::Head => at == shift(
                    pixels(path.last()),
                    direction(path[n - 2], path[n - 1]),
                    offset,
                ),
                Waypoint::Tail => at == shift(
                    pixels(path[s]),
                    if s < n - 1 {
                        direction(path[s], path[s + 1])
                    } else {
                        direction(path[n - 2], path[n - 1])
                    },
                    behind,
                ),
            }
        }),
{
    let (s, n) = (tail.segment as int, path.len() as int);
    assert(straight(path[n - 2], path[n - 2 + 1]));
    lemma_straight_is_shift(path[n - 2], path[n - 1]);
    match w {
        Waypoint::Vertex(v) => {
            lemma_anchor_is_shifted(a, (1, 0), cell_size, offset, 0);
        },
        Waypoint::Head => {
            lemma_anchor_is_shifted(a, heading(path), cell_size, offset, offset);
        },
        Waypoint::Tail => {
            if s < n - 1 {
                assert(straight(path[s], path[s + 1]));
                lemma_straight_is_shift(path[s], path[s + 1]);
            }
            lemma_anchor_is_shifted(a, onward(path, s), cell_size, offset, offset - tail.passed);
        },
    }
}

/// The body keeps to the path: from each waypoint the next one lies straight
/// ahead in the direction of the body segment between them, as far as the
/// distances along the path tell.
pub proof fn body_follows_the_path(
    path: Seq<Cell>,
    cell_size: int,
    offset: int,
    tail: TailPosition,
    i: int,
    a: Anchor,
    b: Anchor,
)
    requires
        straight_path(path),
        path.len() <= usize::MAX,
        cell_size >= 1,
        offset >= 0,
        tail_at(path, cell_size, offset, tail),
        0 <= i < body_directions(path, tail.segment as int).len(),
        anchored(path, tail, body_waypoints(path.len() as int, tail.segment as int)[i], a),
        anchored(path, tail, body_waypoints(path.len() as int, tail.segment as int)[i + 1], b),
    ensures
        ({
            let list = body_waypoints(path.len() as int, tail.segment as int);
            let d = body_directions(path, tail.segment as int)[i];
            let length = waypoint_distance(path, cell_size, offset, list[i + 1])
                - waypoint_distance(path, cell_size, offset, list[i]);
            &&& cardinal(d)
            &&& length > 0
            &&& anchor_pixel(b, cell_size, offset) == shift(
                anchor_pixel(a, cell_size, offset),
                d,
                length,
            )
        }),
{
    let n = path.len() as int;
    let s = tail.segment as int;
    let list = body_waypoints(n, s);
    let d = onward(path, s + i);
    let far = |j: int| waypoint_distance(path, cell_size, offset, list[j]);
    assert(far(i) < far(i + 1)) by {
        body_length_is_constant(path, cell_size, offset, tail);
    }
    let (start, end, k) = lemma_segment_ends(path, cell_size, offset, tail, i, a, b);
    assert(far(i + 1) - far(i) == k * cell_size + end - start);
    let p = path[s + i];
    let origin = (p.0 * cell_size, p.1 * cell_size);
    lemma_shift_composes(origin, d, k * cell_size, end);
    lemma_shift_composes(origin, d, start, k * cell_size + end - start);
}

/// A body segment starts some way past vertex `tail.segment + i` of the path,
/// and ends some way past the point that lies a number of cells further on.
proof fn lemma_segment_ends(
    path: Seq<Cell>,
    cell_size: int,
    offset: int,
    tail: TailPosition,
    i: int,
    a: Anchor,
    b: Anchor,
) -> (r: (int, int, int))
    requires
        straight_path(path),
        path.len() <= usize::MAX,
        tail_at(path, cell_size, offset, tail),
        0 <= i < body_directions(path, tail.segment as int).len(),
        anchored(path, tail, body_waypoints(path.len() as int, tail.segment as int)[i], a),
        anchored(path, tail, body_waypoints(path.len() as int, tail.segment as int)[i + 1], b),
    ensures
        ({
            let (start, end, k) = r;
            let s = tail.segment as int;
            let list = body_waypoints(path.len() as int, s);
            let d = onward(path, s + i);
            let p = path[s + i];
            let origin = (p.0 * cell_size, p.1 * cell_size);
            &&& cardinal(d)
            &&& waypoint_distance(path, cell_size, offset, list[i + 1]) - waypoint_distance(
                path,
                cell_size,
                offset,
                list[i],
            ) == k * cell_size + end - start
            &&& anchor_pixel(a, cell_size, offset) == shift(origin, d, start)
            &&& anchor_pixel(b, cell_size, offset) == shift(shift(origin, d, k * cell_size), d, end)
        }),
{
    let n = path.len() as int;
    let s = tail.segment as int;
    let list = body_waypoints(n, s);
    let d = onward(path, s + i);
    let p = path[s + i];
    let start = if i == 0 {
        offset - tail.passed
    } else {
        0
    };
    let end = if i + 1 == list.len() - 1 {
        offset
    } else {
        0
    };
    if s + i < n - 1 {
        let q = path[s + i + 1];
        let k = steps_between(p, q);
        assert(straight(p, q));
        lemma_straight_is_shift(p, q);
        lemma_anchor_is_shifted(a, d, cell_size, offset, start);
        lemma_anchor_is_shifted(b, d, cell_size, offset, end);
        lemma_distance_step(path, s + i + 1);
        lemma_distance_monotonic(path, 0, n - 1);
        lemma_mul_is_distributive_add_other_way(cell_size, distance_to(path, s + i), k);
        lemma_scaled_shift(p, d, k, cell_size);
        (start, end, k)
    } else {
        assert(straight(path[n - 2], path[n - 2 + 1]));
        lemma_straight_is_shift(path[n - 2], path[n - 1]);
        lemma_anchor_is_shifted(a, d, cell_size, offset, start);
        lemma_anchor_is_shifted(b, d, cell_size, offset, end);
        lemma_distance_monotonic(path, 0, n - 1);
        assert(0 * cell_size == 0);
        (start, end, 0)
    }
}

/// Two shifts in one direction add up.
proof fn lemma_shift_composes(c: Cell, d: Cell, j: int, k: int)
    requires
        cardinal(d),
    ensures
        shift(shift(c, d, j), d, k) == shift(c, d, j + k),
{
}

/// The second of two points on a line lies straight ahead of the first.
proof fn lemma_straight_is_shift(p: Cell, q: Cell)
    requires
        straight(p, q),
    ensures
        cardinal(direction(p, q)),
        q == shift(p, direction(p, q), steps_between(p, q)),
{
}

/// A waypoint lies as far ahead of its vertex as it has moved.
proof fn lemma_anchor_is_shifted(a: Anchor, d: Cell, cell_size: int, offset: int, moved: int)
    requires
        cardinal(d),
        a.direction@ == d && moved == offset - a.passed || a.direction@ == (0int, 0int) && moved == 0,
    ensures
        anchor_pixel(a, cell_size, offset) == shift(
            (a.vertex.x * cell_size, a.vertex.y * cell_size),
            d,
            moved,
        ),
{
    let (x, y, m) = (a.direction.x as int, a.direction.y as int, offset - a.passed);
    assert(x == 0 ==> x * m == 0) by (nonlinear_arith);
    assert(y == 0 ==> y * m == 0) by (nonlinear_arith);
    assert(x == 1 ==> x * m == m) by (nonlinear_arith);
    assert(y == 1 ==> y * m == m) by (nonlinear_arith);
    assert(x == -1 ==> x * m == -m) by (nonlinear_arith);
    assert(y == -1 ==> y * m == -m) by (nonlinear_arith);
}

/// A shift by whole cells is a shift by their pixels.
proof fn lemma_scaled_shift(p: Cell, d: Cell, k: int, cell_size: int)
    requires
        cardinal(d),
    ensures
        ({
            let q = shift(p, d, k);
            (q.0 * cell_size, q.1 * cell_size) == shift(
                (p.0 * cell_size, p.1 * cell_size),
                d,
                k * cell_size,
            )
        }),
{
    assert((p.0 + k) * cell_size == p.0 * cell_size + k * cell_size) by (nonlinear_arith);
    assert((p.1 + k) * cell_size == p.1 * cell_size + k * cell_size) by (nonlinear_arith);
    assert((p.0 - k) * cell_size == p.0 * cell_size - k * cell_size) by (nonlinear_arith);
    assert((p.1 - k) * cell_size == p.1 * cell_size - k * cell_size) by (nonlinear_arith);
}

/// An arrow that has slid by its own length or more has left its path: its tail
/// has passed every segment, and its body is one segment along the heading.
pub proof fn past_the_end_the_body_is_straight(
    path: Seq<Cell>,
    cell_size: int,
    offset: int,
    tail: TailPosition,
)
    requires
        straight_path(path),
        path.len() <= usize::MAX,
        cell_size >= 1,
        offset >= path_length(path) * cell_size,
        tail_at(path, cell_size, offset, tail),
    ensures
        tail.segment == path.len() - 1,
        tail.passed == path_length(path) * cell_size,
        body_waypoints(path.len() as int, tail.segment as int) == seq![
            Waypoint::Tail,
            Waypoint::Head,
        ],
        body_directions(path, tail.segment as int) == seq![heading(path)],
{
    let s = tail.segment as int;
    if s < path.len() - 1 {
        lemma_distance_monotonic(path, s + 1, path.len() - 1);
        let (x, y) = (distance_to(path, s + 1), path_length(path));
        assert(x * cell_size <= y * cell_size) by (nonlinear_arith)
            requires
                x <= y,
                cell_size >= 1,
        ;
    }
    lemma_distance_monotonic(path, s, path.len() - 1);
    assert(body_waypoints(path.len() as int, s) =~= seq![Waypoint::Tail, Waypoint::Head]);
    assert(body_directions(path, s) =~= seq![heading(path)]);
}

/// Past the end of its path an arrow only moves along its heading: between two
/// such offsets each waypoint keeps its anchor, and is shifted by their
/// difference.
pub proof fn past_the_end_the_body_only_moves_ahead(
    path: Seq<Cell>,
    cell_size: int,
    s: int,
    t: int,
    before: TailPosition,
    after: TailPosition,
    w: Waypoint,
    a: Anchor,
    b: Anchor,
)
    requires
        straight_path(path),
        path.len() <= usize::MAX,
        cell_size >= 1,
        s >= path_length(path) * cell_size,
        t >= path_length(path) * cell_size,
        tail_at(path, cell_size, s, before),
        tail_at(path, cell_size, t, after),
        body_waypoints(path.len() as int, before.segment as int).contains(w),
        anchored(path, before, w, a),
        anchored(path, after, w, b),
    ensures
        before == after,
        a == b,
        cardinal(heading(path)),
        anchor_pixel(b, cell_size, t) == shift(
            anchor_pixel(a, cell_size, s),
            heading(path),
            t - s,
        ),
{
    past_the_end_the_body_is_straight(path, cell_size, s, before);
    past_the_end_the_body_is_straight(path, cell_size, t, after);
    let d = heading(path);
    let n = path.len() as int;
    assert(straight(path[n - 2], path[n - 2 + 1]));
    lemma_straight_is_shift(path[n - 2], path[n - 1]);
    lemma_anchor_is_shifted(a, d, cell_size, s, s - a.passed);
    lemma_anchor_is_shifted(b, d, cell_size, t, t - b.passed);
    lemma_shift_composes((a.vertex.x * cell_size, a.vertex.y * cell_size), d, s - a.passed, t - s);
}

/// An arrow at rest: its tail is at the first vertex, and its body runs through
/// every vertex in turn up to the head at the last.
pub proof fn arrow_at_rest(path: Seq<Cell>, cell_size: int, tail: TailPosition)
    requires
        straight_path(path),
        path.len() <= usize::MAX,
        cell_size >= 1,
        tail_at(path, cell_size, 0, tail),
    ensures
        tail == (TailPosition { segment: 0, passed: 0 }),
        body_waypoints(path.len() as int, 0).len() == path.len(),
        forall|i: int|
            0 <= i < path.len() ==> waypoint_distance(
                path,
                cell_size,
                0,
                #[trigger] body_waypoints(path.len() as int, 0)[i],
            ) == distance_to(path, i) * cell_size,
{
    lemma_distance_monotonic(path, 0, 0);
    lemma_distance_step(path, 1);
    assert(0 * cell_size == 0);
    let rest = TailPosition { segment: 0, passed: 0 };
    let first = distance_to(path, 1);
    assert(straight(path[0], path[0int + 1]));
    assert(first * cell_size > 0) by (nonlinear_arith)
        requires
            first > 0,
            cell_size >= 1,
    ;
    tail_position_is_unique(path, cell_size, 0, tail, rest);
    assert forall|i: int| 0 <= i < path.len() implies waypoint_distance(
        path,
        cell_size,
        0,
        #[trigger] body_waypoints(path.len() as int, 0)[i],
    ) == distance_to(path, i) * cell_size by {
        lemma_distance_monotonic(path, i, path.len() - 1);
    }
}

/// Every arrow of a generated level has straight segments, and a length of one
/// to twenty cells over at most five vertices.
pub proof fn level_arrows_are_short(cols: int, rows: int, seed: u32, i: int)
    requires
        0 <= i < level(cols, rows, seed).len(),
    ensures
        ({
            let path = level(cols, rows, seed)[i].path;
            &&& straight_path(path)
            &&& path.len() <= MAX_SEGMENTS + 1
            &&& 1 <= path_length(path) <= MAX_SEGMENTS * MAX_SEG_LEN
        }),
{
    level_arrows_are_well_formed(cols, rows, seed);
    let path = level(cols, rows, seed)[i].path;
    assert(well_formed(level(cols, rows, seed)[i], cols, rows));
    lemma_legal_length(path, path.len() - 1);
    lemma_distance_monotonic(path, 0, path.len() - 1);
}

proof fn lemma_legal_length(path: Seq<Cell>, k: int)
    requires
        legal_segments(path),
        0 <= k < path.len(),
    ensures
        k <= distance_to(path, k) <= k * MAX_SEG_LEN,
    decreases k,
{
    if k > 0 {
        lemma_distance_step(path, k);
        lemma_legal_length(path, k - 1);
        assert(straight(path[k - 1], path[k - 1 + 1]));
    }
}

/// The pixel position of a cell of a level's grid.
pub open spec fn pixel(level: u32, c: Cell) -> Cell {
    let (cols, rows) = (level_cols(level), level_rows(level));
    let size = spacing(cols, rows);
    (first_coordinate(cols, size) + c.0 * size, first_coordinate(rows, size) + c.1 * size)
}

/// A tail that has gone further than a window's side past an arrowhead of the
/// grid, whichever way it points, is outside the window.
pub proof fn tail_past_window_is_unseen(level: u32, head: Cell, d: Cell, beyond: int)
    requires
        on_board(head, level_cols(level), level_rows(level)),
        cardinal(d),
        beyond > WINDOW_SIZE,
    ensures
        ({
            let (x, y) = shift(pixel(level, head), d, beyond);
            !(-WINDOW_SIZE <= 2 * x <= WINDOW_SIZE && -WINDOW_SIZE <= 2 * y <= WINDOW_SIZE)
        }),
{
    playfield_fits_viewport(level);
    let (cols, rows) = (level_cols(level), level_rows(level));
    let size = spacing(cols, rows);
    let (c, r) = head;
    assert(0 <= c * size <= (cols - 1) * size) by (nonlinear_arith)
        requires
            0 <= c <= cols - 1,
            size >= 0,
    ;
    assert(0 <= r * size <= (rows - 1) * size) by (nonlinear_arith)
        requires
            0 <= r <= rows - 1,
            size >= 0,
    ;
}

} // verus!
