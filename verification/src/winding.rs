//! The angles of rounded parts, and the winding of every triangle.
//!
//! Sides of a body segment face one of four ways, and arcs sweep whole multiples
//! of a quarter turn in five equal parts, so that every angle is a whole number
//! of degrees.

use crate::ivec::{cardinal, cells, left_of, opposite, right_of, shift, Cell, IVec2};
use crate::mesh::{
    arc_rim, arrow_mesh, bend, bends, body_mesh, counter_clockwise,
    last_segment_has_room_for_head, lemma_body_sound, lemma_fan_sound, offset_of, segment_end,
    side, straight_parts_wind_counter_clockwise, vertex_at, Mesh, MeshPoint, Side, Turn,
    ARROWHEAD_LENGTH, CELL_PARTS, ROUND_SEGMENTS,
};
use crate::path::straight_path;
use crate::slide::{
    anchor_pixel, anchored, body_directions, body_follows_the_path, body_waypoints, tail_at,
    waypoint_distance, Anchor, TailPosition,
};
use vstd::prelude::*;

verus! {

/// The angle of a cardinal direction, in degrees counter-clockwise from east.
pub open spec fn bearing(d: Cell) -> int {
    if d == (1int, 0int) {
        0
    } else if d == (0int, 1int) {
        90
    } else if d == (-1int, 0int) {
        180
    } else {
        270
    }
}

/// The angle at which a side of a segment that runs along `d` faces.
pub open spec fn side_bearing(d: Cell, left: bool) -> int {
    bearing(
        if left {
            left_of(d)
        } else {
            right_of(d)
        },
    )
}

/// The angle through which an arc sweeps from `from` to `to`: positive
/// counter-clockwise and negative clockwise, and never zero.
pub open spec fn sweep(from: int, to: int, ccw: bool) -> int {
    if ccw {
        if (to - from) % 360 == 0 {
            360
        } else {
            (to - from) % 360
        }
    } else {
        if (from - to) % 360 == 0 {
            -360
        } else {
            -((from - to) % 360)
        }
    }
}

/// The angle at which the end of a rim lies, seen from its waypoint.
pub open spec fn end_bearing(end: Side, directions: Seq<Cell>) -> int {
    side_bearing(directions[end.segment as int], end.left)
}

/// The angle at which a vertex on a rim or an arc lies, seen from its waypoint,
/// when the segments run in `directions`. It may exceed a full turn.
pub open spec fn point_bearing(point: MeshPoint, directions: Seq<Cell>) -> int {
    match point {
        MeshPoint::Rim { side, .. } => end_bearing(side, directions),
        MeshPoint::Arc { start, end, ccw, step, .. } => {
            let (from, to) = (end_bearing(start, directions), end_bearing(end, directions));
            from + sweep(from, to, ccw) / ROUND_SEGMENTS as int * step
        },
        _ => 0,
    }
}

/// `side` is one of a segment that runs in a cardinal direction.
pub open spec fn faces(side: Side, directions: Seq<Cell>) -> bool {
    &&& side.segment < directions.len()
    &&& cardinal(directions[side.segment as int])
}

fn bearing_of(d: IVec2) -> (degrees: i32)
    requires
        cardinal(d@),
    ensures
        degrees == bearing(d@),
        0 <= degrees <= 270,
{
    if d.x == 1 {
        0
    } else if d.y == 1 {
        90
    } else if d.x == -1 {
        180
    } else {
        270
    }
}

fn side_bearing_of(d: IVec2, left: bool) -> (degrees: i32)
    requires
        cardinal(d@),
    ensures
        degrees == side_bearing(d@, left),
        0 <= degrees <= 270,
{
    if left {
        bearing_of(IVec2::new(-d.y, d.x))
    } else {
        bearing_of(IVec2::new(d.y, -d.x))
    }
}

/// Finds the angle at which a vertex part-way along an arc lies, seen from its
/// waypoint, in degrees counter-clockwise from east. Other vertices have none.
pub fn arc_degrees(point: MeshPoint, directions: &Vec<IVec2>) -> (degrees: Option<i32>)
    requires
        point matches MeshPoint::Arc { start, end, step, .. } ==> faces(start, cells(directions@))
            && faces(end, cells(directions@)) && step <= ROUND_SEGMENTS,
    ensures
        degrees is Some <==> point is Arc,
        degrees matches Some(k) ==> k == point_bearing(point, cells(directions@)),
{
    match point {
        MeshPoint::Arc { start, end, ccw, step, .. } => {
            let from: i32 = side_bearing_of(directions[start.segment], start.left);
            let to: i32 = side_bearing_of(directions[end.segment], end.left);
            let d: i32 = to - from;
            let span: i32 = if ccw {
                if d <= 0 {
                    d + 360
                } else {
                    d
                }
            } else {
                if d >= 0 {
                    d - 360
                } else {
                    d
                }
            };
            proof {
                lemma_bearings_are_quarters(directions@[start.segment as int]@, start.left);
                lemma_bearings_are_quarters(directions@[end.segment as int]@, end.left);
                assert(span == sweep(from as int, to as int, ccw));
            }
            let part: i32 = part_of(span);
            let n: i32 = step as i32;
            assert(-360 <= part * n <= 360) by (nonlinear_arith)
                requires
                    -72 <= part <= 72,
                    0 <= n <= 5,
            ;
            Some(from + part * n)
        },
        _ => None,
    }
}

/// One of the equal parts of a sweep by whole quarter turns.
fn part_of(span: i32) -> (part: i32)
    requires
        -360 <= span <= 360,
        span % 90 == 0,
    ensures
        part == span as int / ROUND_SEGMENTS as int,
        -72 <= part <= 72,
{
    if span >= 0 {
        span / ROUND_SEGMENTS as i32
    } else {
        -((-span) / ROUND_SEGMENTS as i32)
    }
}

proof fn lemma_bearings_are_quarters(d: Cell, left: bool)
    requires
        cardinal(d),
    ensures
        quarter(side_bearing(d, left)),
{
}

/// `b` is the angle of a cardinal direction.
spec fn quarter(b: int) -> bool {
    b == 0 || b == 90 || b == 180 || b == 270
}

/// The five parts of a sweep make up the whole, which leads to its end.
proof fn lemma_parts_of_sweep(from: int, to: int, ccw: bool)
    requires
        quarter(from),
        quarter(to),
    ensures
        ({
            let part = sweep(from, to, ccw) / ROUND_SEGMENTS as int;
            &&& ccw ==> 18 <= part <= 72
            &&& !ccw ==> -72 <= part <= -18
            &&& (from + part * 5 - to) % 360 == 0
        }),
{
}

/// The angle of a rim point grows by equal parts.
proof fn lemma_rim_bearing(
    waypoint: int,
    start: Side,
    end: Side,
    ccw: bool,
    directions: Seq<Cell>,
    j: int,
)
    requires
        0 <= j <= ROUND_SEGMENTS,
    ensures
        ({
            let (from, to) = (end_bearing(start, directions), end_bearing(end, directions));
            let part = sweep(from, to, ccw) / ROUND_SEGMENTS as int;
            point_bearing(arc_rim(waypoint, start, end, ccw)[j], directions) == from + part * j
        }),
{
    let (from, to) = (end_bearing(start, directions), end_bearing(end, directions));
    let part = sweep(from, to, ccw) / ROUND_SEGMENTS as int;
    assert(part * 0 == 0);
}

/// Angles turn with directions: east is at zero, a left turn adds a quarter of a
/// turn, and the sides of a segment face a quarter of a turn off it.
pub proof fn bearings_turn_with_directions(d: Cell)
    requires
        cardinal(d),
    ensures
        bearing((1, 0)) == 0,
        0 <= bearing(d) < 360,
        bearing(left_of(d)) == (bearing(d) + 90) % 360,
        side_bearing(d, true) == (bearing(d) + 90) % 360,
        side_bearing(d, false) == (bearing(d) + 270) % 360,
{
}

/// The vertices along an arc lie one after the other around its waypoint: each
/// is more than nothing and less than half a turn further than the one before,
/// counter-clockwise or clockwise as the arc sweeps, and all by the same angle;
/// the first one faces as the side does that the arc starts from, and the last
/// one as the side that it leads to.
pub proof fn arc_points_follow_one_another(
    waypoint: int,
    start: Side,
    end: Side,
    ccw: bool,
    directions: Seq<Cell>,
    i: int,
)
    requires
        0 <= i < ROUND_SEGMENTS,
        faces(start, directions),
        faces(end, directions),
    ensures
        ({
            let rim = arc_rim(waypoint, start, end, ccw);
            let at = |j: int| point_bearing(rim[j], directions);
            &&& ccw ==> 0 < at(i + 1) - at(i) < 180
            &&& !ccw ==> -180 < at(i + 1) - at(i) < 0
            &&& (at(ROUND_SEGMENTS as int) - end_bearing(end, directions)) % 360 == 0
            &&& at(0) == side_bearing(directions[start.segment as int], start.left)
            &&& at(i + 1) - at(i) == at(1) - at(0)
            &&& -360 <= at(ROUND_SEGMENTS as int) - at(0) <= 360
        }),
{
    let (from, to) = (end_bearing(start, directions), end_bearing(end, directions));
    let part = sweep(from, to, ccw) / ROUND_SEGMENTS as int;
    lemma_bearings_are_quarters(directions[start.segment as int], start.left);
    lemma_bearings_are_quarters(directions[end.segment as int], end.left);
    lemma_parts_of_sweep(from, to, ccw);
    lemma_rim_bearing(waypoint, start, end, ccw, directions, 0);
    lemma_rim_bearing(waypoint, start, end, ccw, directions, 1);
    lemma_rim_bearing(waypoint, start, end, ccw, directions, i);
    lemma_rim_bearing(waypoint, start, end, ccw, directions, i + 1);
    lemma_rim_bearing(waypoint, start, end, ccw, directions, ROUND_SEGMENTS as int);
    assert(part * (i + 1) == part * i + part) by (nonlinear_arith);
}

/// An arc divides its sweep evenly, wherever it is: a vertex after `step` of five
/// parts lies that part of the whole angle past the side that the arc starts
/// from. The whole is at most one turn, in the direction of the sweep, and leads
/// to the side that the arc ends at.
pub proof fn arcs_divide_their_sweep_evenly(
    waypoint: usize,
    start: Side,
    end: Side,
    ccw: bool,
    step: usize,
    directions: Seq<Cell>,
)
    requires
        faces(start, directions),
        faces(end, directions),
    ensures
        ({
            let from = side_bearing(directions[start.segment as int], start.left);
            let to = side_bearing(directions[end.segment as int], end.left);
            let at = |k: usize|
                point_bearing(MeshPoint::Arc { waypoint, start, end, ccw, step: k }, directions);
            let whole = at(5) - from;
            &&& 5 * (at(step) - from) == whole * step
            &&& (from + whole - to) % 360 == 0
            &&& ccw ==> 0 < whole <= 360
            &&& !ccw ==> -360 <= whole < 0
        }),
{
    let (from, to) = (end_bearing(start, directions), end_bearing(end, directions));
    lemma_bearings_are_quarters(directions[start.segment as int], start.left);
    lemma_bearings_are_quarters(directions[end.segment as int], end.left);
    lemma_parts_of_sweep(from, to, ccw);
    let part = sweep(from, to, ccw) / ROUND_SEGMENTS as int;
    assert(5 * (part * step) == (part * 5) * step) by (nonlinear_arith);
}

/// The gap at a bend lies on its outer side, and the arc that fills it sweeps a
/// quarter turn from the old segment's side to the new one's: at a left bend
/// counter-clockwise along the right side, at a right bend clockwise along the
/// left side. The cap at the tail sweeps half a turn by way of its back.
pub proof fn arcs_fill_the_outer_gap(d: Cell, e: Cell)
    requires
        cardinal(d),
    ensures
        bend(d, e) == Turn::Left ==> left_of(right_of(d)) == right_of(e),
        bend(d, e) == Turn::Right ==> right_of(left_of(d)) == left_of(e),
        left_of(left_of(d)) == opposite(d) && left_of(opposite(d)) == right_of(d),
        bend(d, e) == Turn::Left ==> sweep(side_bearing(d, false), side_bearing(e, false), true)
            == 90,
        bend(d, e) == Turn::Right ==> sweep(side_bearing(d, true), side_bearing(e, true), false)
            == -90,
        sweep(side_bearing(d, true), side_bearing(d, false), true) == 180,
{
}

/// `point` lies on the circle around a waypoint.
pub open spec fn around(point: MeshPoint, at: usize) -> bool {
    match point {
        MeshPoint::Rim { waypoint, .. } => waypoint == at,
        MeshPoint::Arc { waypoint, .. } => waypoint == at,
        _ => false,
    }
}

/// The corners `a`, `b` and `c` are in counter-clockwise order, when the
/// waypoints of the body are at `points` and its segments run in `directions`.
/// Of a triangle with its first corner at a waypoint and the others on the
/// circle around it, the third lies less than half a turn further than the
/// second.
pub open spec fn wound(
    a: MeshPoint,
    b: MeshPoint,
    c: MeshPoint,
    points: Seq<Cell>,
    directions: Seq<Cell>,
    cell_size: int,
) -> bool {
    let n = directions.len() as int;
    let at = |p: MeshPoint| vertex_at(p, points, directions, cell_size);
    match a {
        MeshPoint::Center { waypoint } => {
            &&& around(b, waypoint)
            &&& around(c, waypoint)
            &&& 0 < (point_bearing(c, directions) - point_bearing(b, directions)) % 360 < 180
        },
        _ => {
            &&& offset_of(a, n) is Some
            &&& offset_of(b, n) is Some
            &&& offset_of(c, n) is Some
            &&& counter_clockwise(at(a), at(b), at(c))
        },
    }
}

/// Corner `j` of triangle `k`.
pub open spec fn corner(m: Mesh<MeshPoint>, k: int, j: int) -> MeshPoint {
    m.positions[m.indices[3 * k + j] as int]
}

/// Triangle `k` of the mesh is in counter-clockwise order.
pub open spec fn triangle_wound(
    m: Mesh<MeshPoint>,
    k: int,
    points: Seq<Cell>,
    directions: Seq<Cell>,
    cell_size: int,
) -> bool {
    wound(corner(m, k, 0), corner(m, k, 1), corner(m, k, 2), points, directions, cell_size)
}

/// Every triangle of the mesh is whole and in counter-clockwise order.
pub open spec fn all_wound(
    m: Mesh<MeshPoint>,
    points: Seq<Cell>,
    directions: Seq<Cell>,
    cell_size: int,
) -> bool {
    &&& m.sound()
    &&& forall|k: int|
        0 <= k < m.indices.len() / 3 ==> #[trigger] triangle_wound(
            m,
            k,
            points,
            directions,
            cell_size,
        )
}

proof fn lemma_point_keeps_wound(
    m: Mesh<MeshPoint>,
    p: MeshPoint,
    points: Seq<Cell>,
    directions: Seq<Cell>,
    cell_size: int,
)
    requires
        all_wound(m, points, directions, cell_size),
    ensures
        all_wound(m.point(p), points, directions, cell_size),
{
    let more = m.point(p);
    assert forall|k: int| 0 <= k < more.indices.len() / 3 implies #[trigger] triangle_wound(
        more,
        k,
        points,
        directions,
        cell_size,
    ) by {
        assert(triangle_wound(m, k, points, directions, cell_size));
        assert(corner(more, k, 0) == corner(m, k, 0));
        assert(corner(more, k, 1) == corner(m, k, 1));
        assert(corner(more, k, 2) == corner(m, k, 2));
    }
}

proof fn lemma_tri_keeps_wound(
    m: Mesh<MeshPoint>,
    a: int,
    b: int,
    c: int,
    points: Seq<Cell>,
    directions: Seq<Cell>,
    cell_size: int,
)
    requires
        all_wound(m, points, directions, cell_size),
        m.positions.len() <= u32::MAX,
        0 <= a < m.positions.len(),
        0 <= b < m.positions.len(),
        0 <= c < m.positions.len(),
        wound(m.positions[a], m.positions[b], m.positions[c], points, directions, cell_size),
    ensures
        all_wound(m.tri(a, b, c), points, directions, cell_size),
{
    let more = m.tri(a, b, c);
    assert forall|k: int| 0 <= k < more.indices.len() / 3 implies #[trigger] triangle_wound(
        more,
        k,
        points,
        directions,
        cell_size,
    ) by {
        if k < m.indices.len() / 3 {
            assert(triangle_wound(m, k, points, directions, cell_size));
            assert(corner(more, k, 0) == corner(m, k, 0));
            assert(corner(more, k, 1) == corner(m, k, 1));
            assert(corner(more, k, 2) == corner(m, k, 2));
        } else {
            assert(3 * k == m.indices.len());
            assert(corner(more, k, 0) == m.positions[a]);
            assert(corner(more, k, 1) == m.positions[b]);
            assert(corner(more, k, 2) == m.positions[c]);
        }
    }
}

/// A fan whose rim points follow one another keeps a mesh wound.
proof fn lemma_fan_keeps_wound(
    m: Mesh<MeshPoint>,
    center: int,
    rim: Seq<MeshPoint>,
    ccw: bool,
    points: Seq<Cell>,
    directions: Seq<Cell>,
    cell_size: int,
)
    requires
        all_wound(m, points, directions, cell_size),
        0 <= center < m.positions.len(),
        m.positions.len() + rim.len() <= u32::MAX,
        forall|i: int|
            0 <= i < rim.len() - 1 ==> (if ccw {
                wound(
                    m.positions[center],
                    #[trigger] rim[i],
                    rim[i + 1],
                    points,
                    directions,
                    cell_size,
                )
            } else {
                wound(m.positions[center], rim[i + 1], rim[i], points, directions, cell_size)
            }),
    ensures
        all_wound(m.fan(center, rim, ccw), points, directions, cell_size),
    decreases rim.len(),
{
    if rim.len() == 1 {
        lemma_point_keeps_wound(m, rim[0], points, directions, cell_size);
    } else if rim.len() > 1 {
        let shorter = rim.drop_last();
        lemma_fan_keeps_wound(m, center, shorter, ccw, points, directions, cell_size);
        lemma_fan_sound(m, center, shorter, ccw);
        let sofar = m.fan(center, shorter, ccw);
        let i = sofar.positions.len() as int;
        let grown = sofar.point(rim.last());
        let last = rim.len() - 2;
        lemma_point_keeps_wound(sofar, rim.last(), points, directions, cell_size);
        assert(grown.positions[center] == m.positions[center]);
        assert(grown.positions[i - 1] == rim[last]);
        assert(grown.positions[i] == rim[last + 1]);
        if ccw {
            lemma_tri_keeps_wound(grown, center, i - 1, i, points, directions, cell_size);
        } else {
            lemma_tri_keeps_wound(grown, center, i, i - 1, points, directions, cell_size);
        }
    }
}

/// The fan over an arc around a waypoint keeps a mesh wound.
proof fn lemma_arc_keeps_wound(
    m: Mesh<MeshPoint>,
    waypoint: int,
    start: Side,
    end: Side,
    ccw: bool,
    points: Seq<Cell>,
    directions: Seq<Cell>,
    cell_size: int,
)
    requires
        all_wound(m, points, directions, cell_size),
        0 <= waypoint <= usize::MAX,
        m.positions.len() >= 1,
        m.positions.last() == (MeshPoint::Center { waypoint: waypoint as usize }),
        m.positions.len() + 6 <= u32::MAX,
        faces(start, directions),
        faces(end, directions),
    ensures
        all_wound(
            m.fan(m.positions.len() - 1, arc_rim(waypoint, start, end, ccw), ccw),
            points,
            directions,
            cell_size,
        ),
{
    let rim = arc_rim(waypoint, start, end, ccw);
    let center = m.positions.len() - 1;
    assert forall|i: int| 0 <= i < rim.len() - 1 implies (if ccw {
        wound(m.positions[center], #[trigger] rim[i], rim[i + 1], points, directions, cell_size)
    } else {
        wound(m.positions[center], rim[i + 1], rim[i], points, directions, cell_size)
    }) by {
        arc_points_follow_one_another(waypoint, start, end, ccw, directions, i);
    }
    lemma_fan_keeps_wound(m, center, rim, ccw, points, directions, cell_size);
}

/// A body whose segments run from each point to the next in cardinal
/// directions, the last of them further than the arrowhead is long.
pub open spec fn laid_along(
    points: Seq<Cell>,
    directions: Seq<Cell>,
    lengths: Seq<int>,
    cell_size: int,
) -> bool {
    &&& directions.len() >= 1
    &&& points.len() == directions.len() + 1
    &&& lengths.len() == directions.len()
    &&& forall|i: int|
        0 <= i < directions.len() ==> cardinal(#[trigger] directions[i]) && lengths[i] > 0
            && points[i + 1] == shift(points[i], directions[i], lengths[i])
    &&& CELL_PARTS * lengths.last() > ARROWHEAD_LENGTH * cell_size
}

/// The quad of a segment keeps a mesh wound.
proof fn lemma_segment_keeps_wound(
    m: Mesh<MeshPoint>,
    i: int,
    points: Seq<Cell>,
    directions: Seq<Cell>,
    lengths: Seq<int>,
    cell_size: int,
)
    requires
        all_wound(m, points, directions, cell_size),
        cell_size >= 1,
        laid_along(points, directions, lengths, cell_size),
        directions.len() <= usize::MAX,
        0 <= i < directions.len(),
        m.positions.len() + 4 <= u32::MAX,
    ensures
        all_wound(
            m.with_segment(i, directions.len() as int),
            points,
            directions,
            cell_size,
        ),
{
    let n = directions.len() as int;
    let tl = MeshPoint::Rim { waypoint: i as usize, side: side(i, true) };
    let bl = MeshPoint::Rim { waypoint: i as usize, side: side(i, false) };
    let (br, tr) = (segment_end(i, n, false), segment_end(i, n, true));
    assert(cardinal(directions[i]));
    straight_parts_wind_counter_clockwise(points, directions, cell_size, i, lengths[i]);
    assert(wound(tl, bl, br, points, directions, cell_size));
    assert(wound(tl, br, tr, points, directions, cell_size));
    let at = m.positions.len() as int;
    let (m1, m2) = (m.point(tl), m.point(tl).point(bl));
    let (m3, m4) = (m2.point(br), m2.point(br).point(tr));
    lemma_point_keeps_wound(m, tl, points, directions, cell_size);
    lemma_point_keeps_wound(m1, bl, points, directions, cell_size);
    lemma_point_keeps_wound(m2, br, points, directions, cell_size);
    lemma_point_keeps_wound(m3, tr, points, directions, cell_size);
    assert(m4.positions[at] == tl && m4.positions[at + 1] == bl && m4.positions[at + 2] == br
        && m4.positions[at + 3] == tr);
    lemma_tri_keeps_wound(m4, at, at + 1, at + 2, points, directions, cell_size);
    let half = m4.tri(at, at + 1, at + 2);
    lemma_tri_keeps_wound(half, at, at + 2, at + 3, points, directions, cell_size);
}

/// The join of two segments keeps a mesh wound.
proof fn lemma_join_keeps_wound(
    m: Mesh<MeshPoint>,
    i: int,
    turn: Turn,
    points: Seq<Cell>,
    directions: Seq<Cell>,
    cell_size: int,
)
    requires
        all_wound(m, points, directions, cell_size),
        directions.len() <= usize::MAX,
        0 <= i < directions.len() - 1,
        cardinal(directions[i]),
        cardinal(directions[i + 1]),
        m.positions.len() + 7 <= u32::MAX,
    ensures
        all_wound(m.with_join(i, turn), points, directions, cell_size),
{
    let center = MeshPoint::Center { waypoint: (i + 1) as usize };
    let centered = m.point(center);
    lemma_point_keeps_wound(m, center, points, directions, cell_size);
    match turn {
        Turn::Left => {
            lemma_arc_keeps_wound(
                centered,
                i + 1,
                side(i, false),
                side(i + 1, false),
                true,
                points,
                directions,
                cell_size,
            );
        },
        Turn::Right => {
            lemma_arc_keeps_wound(
                centered,
                i + 1,
                side(i, true),
                side(i + 1, true),
                false,
                points,
                directions,
                cell_size,
            );
        },
        Turn::Straight => {},
    }
}

proof fn lemma_body_is_wound(
    turns: Seq<Turn>,
    k: nat,
    points: Seq<Cell>,
    directions: Seq<Cell>,
    lengths: Seq<int>,
    cell_size: int,
)
    requires
        k <= turns.len() + 1,
        11 * (turns.len() + 2) <= u32::MAX,
        directions.len() <= usize::MAX,
        cell_size >= 1,
        laid_along(points, directions, lengths, cell_size),
        turns.len() == directions.len() - 1,
    ensures
        all_wound(body_mesh(turns, k), points, directions, cell_size),
    decreases k,
{
    if k == 0 {
        let empty = Mesh::<MeshPoint> { positions: Seq::empty(), indices: Seq::empty() };
        let center = MeshPoint::Center { waypoint: 0 };
        assert(all_wound(empty, points, directions, cell_size));
        lemma_point_keeps_wound(empty, center, points, directions, cell_size);
        assert(cardinal(directions[0]));
        lemma_arc_keeps_wound(
            empty.point(center),
            0,
            side(0, true),
            side(0, false),
            true,
            points,
            directions,
            cell_size,
        );
    } else {
        let i = k - 1;
        let before = body_mesh(turns, (k - 1) as nat);
        lemma_body_is_wound(turns, (k - 1) as nat, points, directions, lengths, cell_size);
        lemma_body_sound(turns, (k - 1) as nat);
        lemma_segment_keeps_wound(before, i, points, directions, lengths, cell_size);
        let quad = before.with_segment(i, turns.len() as int + 1);
        if i < turns.len() {
            assert(cardinal(directions[i]) && cardinal(directions[i + 1]));
            lemma_join_keeps_wound(quad, i, turns[i], points, directions, cell_size);
        }
    }
}

/// Every triangle of an arrow's mesh is in counter-clockwise order: those of the
/// cap and the joins as well as the quads and the arrowhead.
pub proof fn every_triangle_winds_counter_clockwise(
    turns: Seq<Turn>,
    points: Seq<Cell>,
    directions: Seq<Cell>,
    lengths: Seq<int>,
    cell_size: int,
)
    requires
        11 * (turns.len() + 2) <= u32::MAX,
        directions.len() <= usize::MAX,
        cell_size >= 1,
        laid_along(points, directions, lengths, cell_size),
        turns.len() == directions.len() - 1,
    ensures
        all_wound(arrow_mesh(turns), points, directions, cell_size),
{
    let k = turns.len() + 1;
    let n = directions.len() as int;
    let body = body_mesh(turns, k);
    lemma_body_is_wound(turns, k, points, directions, lengths, cell_size);
    lemma_body_sound(turns, k);
    assert(cardinal(directions[n - 1]));
    straight_parts_wind_counter_clockwise(
        points,
        directions,
        cell_size,
        n - 1,
        lengths[n - 1],
    );
    let (tip, left) = (MeshPoint::Tip, MeshPoint::Barb { left: true });
    let right = MeshPoint::Barb { left: false };
    assert(wound(tip, left, right, points, directions, cell_size));
    let at = body.positions.len() as int;
    let (m1, m2) = (body.point(tip), body.point(tip).point(left));
    let m3 = m2.point(right);
    lemma_point_keeps_wound(body, tip, points, directions, cell_size);
    lemma_point_keeps_wound(m1, left, points, directions, cell_size);
    lemma_point_keeps_wound(m2, right, points, directions, cell_size);
    assert(m3.positions[at] == tip && m3.positions[at + 1] == left && m3.positions[at + 2]
        == right);
    lemma_tri_keeps_wound(m3, at, at + 1, at + 2, points, directions, cell_size);
}

/// At every whole offset of its slide, at rest included, every triangle of an
/// arrow is in counter-clockwise order. `anchors` tell where its waypoints are.
pub proof fn sliding_arrow_winds_counter_clockwise(
    path: Seq<Cell>,
    cell_size: int,
    offset: int,
    tail: TailPosition,
    anchors: Seq<Anchor>,
)
    requires
        straight_path(path),
        11 * path.len() <= u32::MAX,
        path.len() <= usize::MAX,
        cell_size >= 1,
        offset >= 0,
        tail_at(path, cell_size, offset, tail),
        anchors.len() == body_waypoints(path.len() as int, tail.segment as int).len(),
        forall|j: int|
            0 <= j < anchors.len() ==> anchored(
                path,
                tail,
                body_waypoints(path.len() as int, tail.segment as int)[j],
                #[trigger] anchors[j],
            ),
    ensures
        all_wound(
            arrow_mesh(bends(path, tail.segment as int)),
            anchors.map_values(|a: Anchor| anchor_pixel(a, cell_size, offset)),
            body_directions(path, tail.segment as int),
            cell_size,
        ),
{
    let s = tail.segment as int;
    let directions = body_directions(path, s);
    let points = anchors.map_values(|a: Anchor| anchor_pixel(a, cell_size, offset));
    let list = body_waypoints(path.len() as int, s);
    let far = |i: int| waypoint_distance(path, cell_size, offset, list[i]);
    let lengths = Seq::new(directions.len(), |i: int| far(i + 1) - far(i));
    let turns = bends(path, s);
    assert forall|i: int| 0 <= i < directions.len() implies cardinal(#[trigger] directions[i])
        && lengths[i] > 0 && points[i + 1] == shift(points[i], directions[i], lengths[i]) by {
        assert(anchored(path, tail, list[i], anchors[i]));
        assert(anchored(path, tail, list[i + 1], anchors[i + 1]));
        body_follows_the_path(path, cell_size, offset, tail, i, anchors[i], anchors[i + 1]);
    }
    last_segment_has_room_for_head(path, cell_size, offset, tail);
    assert(lengths.last() == far(list.len() - 1) - far(list.len() - 2));
    assert(laid_along(points, directions, lengths, cell_size));
    every_triangle_winds_counter_clockwise(turns, points, directions, lengths, cell_size);
}

} // verus!
