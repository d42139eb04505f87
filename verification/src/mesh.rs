//! The triangle layout of an arrow.
//!
//! Vertices of the mesh are named by the part of the arrow that they belong to;
//! their coordinates follow from the waypoints of the body and its widths.

use crate::generate::floored;
use crate::ivec::{cardinal, cells, left_of, right_of, shift, Cell, IVec2};
use crate::path::{straight, straight_path};
use crate::placement::{direction, heading, square_to, turning};
use crate::slide::{
    anchor_pixel, anchored, body_directions, body_follows_the_path, body_waypoints,
    direction_of, distance_to, inner_vertices, lemma_distance_monotonic,
    past_the_end_the_body_is_straight, past_the_end_the_body_only_moves_ahead, path_length,
    segment_directions, tail_at, tail_position, waypoint_distance, waypoints, Anchor, TailPosition,
    Waypoint,
};
use vstd::prelude::*;

verus! {

/// Triangles used per rounded corner arc and end cap.
pub const ROUND_SEGMENTS: usize = 5;

/// One long side of a body segment: the left or the right one, seen along it.
#[derive(Clone, Copy, Debug, PartialEq, Eq, Structural)]
pub struct Side {
    pub segment: usize,
    pub left: bool,
}

/// A vertex of an arrow's mesh.
#[derive(Clone, Copy, Debug, PartialEq, Eq, Structural)]
pub enum MeshPoint {
    /// The waypoint itself.
    Center { waypoint: usize },
    /// Half a body width off a waypoint, square to a segment.
    Rim { waypoint: usize, side: Side },
    /// Half a body width off the base of the arrowhead.
    Neck { left: bool },
    /// On the arc around a waypoint from one rim point to another, after
    /// `step` of [`ROUND_SEGMENTS`] equal parts.
    Arc { waypoint: usize, start: Side, end: Side, ccw: bool, step: usize },
    /// The tip of the arrowhead.
    Tip,
    /// A rear corner of the arrowhead.
    Barb { left: bool },
}

/// The parts of a cell in which the measures of an arrow are given.
pub const CELL_PARTS: i32 = 10_000;

/// Half the width of the body.
pub const ARROW_HALF_WIDTH: i32 = 1_400;

/// Distance from the base of the arrowhead to its grid point.
pub const ARROWHEAD_LENGTH: i32 = 5_500;

/// How far the tip lies past the grid point, so that the dot sits inside.
pub const ARROWHEAD_OVERSHOOT: i32 = 1_375;

/// Half the width of the arrowhead at its base.
pub const ARROWHEAD_HALF_WIDTH: i32 = 3_600;

/// A place relative to a waypoint of the body: so many parts of a cell ahead of
/// it along a segment, and so many to the left.
#[derive(Clone, Copy, Debug, PartialEq, Eq, Structural)]
pub struct VertexOffset {
    pub waypoint: usize,
    pub segment: usize,
    pub along: i32,
    pub across: i32,
}

/// `k` to the left, or as much to the right.
pub open spec fn sideways(k: int, left: bool) -> int {
    if left {
        k
    } else {
        -k
    }
}

/// The place of a vertex of a body of `segments` segments. A vertex part-way
/// along an arc has none: it lies on the circle of half the body width around
/// its waypoint.
pub open spec fn offset_of(point: MeshPoint, segments: int) -> Option<VertexOffset> {
    let (head, last) = (segments as usize, (segments - 1) as usize);
    match point {
        MeshPoint::Center { waypoint } => Some(
            VertexOffset { waypoint, segment: 0, along: 0, across: 0 },
        ),
        MeshPoint::Rim { waypoint, side } => Some(
            VertexOffset {
                waypoint,
                segment: side.segment,
                along: 0,
                across: sideways(ARROW_HALF_WIDTH as int, side.left) as i32,
            },
        ),
        MeshPoint::Neck { left } => Some(
            VertexOffset {
                waypoint: head,
                segment: last,
                along: -ARROWHEAD_LENGTH as i32,
                across: sideways(ARROW_HALF_WIDTH as int, left) as i32,
            },
        ),
        MeshPoint::Arc { .. } => None,
        MeshPoint::Tip => Some(
            VertexOffset { waypoint: head, segment: last, along: ARROWHEAD_OVERSHOOT, across: 0 },
        ),
        MeshPoint::Barb { left } => Some(
            VertexOffset {
                waypoint: head,
                segment: last,
                along: -ARROWHEAD_LENGTH as i32,
                across: sideways(ARROWHEAD_HALF_WIDTH as int, left) as i32,
            },
        ),
    }
}

/// Finds the place of a vertex of a body of `segments` segments, unless it lies
/// part-way along an arc.
pub fn vertex_offset(point: MeshPoint, segments: usize) -> (offset: Option<VertexOffset>)
    requires
        segments >= 1,
    ensures
        offset == offset_of(point, segments as int),
{
    let last: usize = segments - 1;
    match point {
        MeshPoint::Center { waypoint } => Some(
            VertexOffset { waypoint, segment: 0, along: 0, across: 0 },
        ),
        MeshPoint::Rim { waypoint, side } => Some(
            VertexOffset {
                waypoint,
                segment: side.segment,
                along: 0,
                across: if side.left {
                    ARROW_HALF_WIDTH
                } else {
                    -ARROW_HALF_WIDTH
                },
            },
        ),
        MeshPoint::Neck { left } => Some(
            VertexOffset {
                waypoint: segments,
                segment: last,
                along: -ARROWHEAD_LENGTH,
                across: if left {
                    ARROW_HALF_WIDTH
                } else {
                    -ARROW_HALF_WIDTH
                },
            },
        ),
        MeshPoint::Arc { .. } => None,
        MeshPoint::Tip => Some(
            VertexOffset {
                waypoint: segments,
                segment: last,
                along: ARROWHEAD_OVERSHOOT,
                across: 0,
            },
        ),
        MeshPoint::Barb { left } => Some(
            VertexOffset {
                waypoint: segments,
                segment: last,
                along: -ARROWHEAD_LENGTH,
                across: if left {
                    ARROWHEAD_HALF_WIDTH
                } else {
                    -ARROWHEAD_HALF_WIDTH
                },
            },
        ),
    }
}

/// The contents of a [`MeshBuilder`].
#[verifier::ext_equal]
pub struct Mesh<P> {
    pub positions: Seq<P>,
    pub indices: Seq<u32>,
}

impl<P> Mesh<P> {
    /// One more vertex.
    pub open spec fn point(self, p: P) -> Mesh<P> {
        Mesh { positions: self.positions.push(p), indices: self.indices }
    }

    /// One more triangle.
    pub open spec fn tri(self, a: int, b: int, c: int) -> Mesh<P> {
        Mesh {
            positions: self.positions,
            indices: self.indices + seq![a as u32, b as u32, c as u32],
        }
    }

    /// Two triangles that share the edge from the first to the third corner.
    pub open spec fn quad(self, tl: int, bl: int, br: int, tr: int) -> Mesh<P> {
        self.tri(tl, bl, br).tri(tl, br, tr)
    }

    /// The vertices of `rim`, and a fan of triangles from vertex `center` over
    /// each pair of neighbours among them.
    pub open spec fn fan(self, center: int, rim: Seq<P>, ccw: bool) -> Mesh<P>
        decreases rim.len(),
    {
        if rim.len() == 0 {
            self
        } else if rim.len() == 1 {
            self.point(rim[0])
        } else {
            let sofar = self.fan(center, rim.drop_last(), ccw);
            let i = sofar.positions.len() as int;
            let grown = sofar.point(rim.last());
            if ccw {
                grown.tri(center, i - 1, i)
            } else {
                grown.tri(center, i, i - 1)
            }
        }
    }

    /// Every triangle is whole and refers to existing vertices only.
    pub open spec fn sound(self) -> bool {
        &&& self.indices.len() % 3 == 0
        &&& forall|i: int|
            0 <= i < self.indices.len() ==> (#[trigger] self.indices[i]) < self.positions.len()
    }
}

/// Accumulates triangle-list geometry.
pub struct MeshBuilder<P> {
    pub positions: Vec<P>,
    pub indices: Vec<u32>,
}

impl<P> View for MeshBuilder<P> {
    type V = Mesh<P>;

    open spec fn view(&self) -> Mesh<P> {
        Mesh { positions: self.positions@, indices: self.indices@ }
    }
}

impl<P: Copy> MeshBuilder<P> {
    /// No geometry.
    pub fn new() -> (builder: Self)
        ensures
            builder@ == (Mesh::<P> { positions: Seq::empty(), indices: Seq::empty() }),
    {
        MeshBuilder { positions: Vec::new(), indices: Vec::new() }
    }

    /// Push a vertex and return its index.
    pub fn push(&mut self, pos: P) -> (idx: u32)
        ensures
            idx == old(self)@.positions.len() as u32,
            final(self)@ == old(self)@.point(pos),
            final(self).positions@ == old(self).positions@.push(pos),
            final(self).indices@ == old(self).indices@,
    {
        let idx: u32 = self.positions.len() as u32;
        self.positions.push(pos);
        idx
    }

    /// Add one triangle, its corners in counter-clockwise order.
    pub fn tri(&mut self, a: u32, b: u32, c: u32)
        ensures
            final(self)@ == old(self)@.tri(a as int, b as int, c as int),
            final(self).positions@ == old(self).positions@,
            final(self).indices@ == old(self).indices@ + seq![a, b, c],
    {
        self.indices.push(a);
        self.indices.push(b);
        self.indices.push(c);
        assert(self@ =~= old(self)@.tri(a as int, b as int, c as int));
    }

    /// Add a quad as two triangles. Corners in counter-clockwise order: top
    /// left, bottom left, bottom right, top right.
    pub fn quad(&mut self, tl: u32, bl: u32, br: u32, tr: u32)
        ensures
            final(self)@ == old(self)@.quad(tl as int, bl as int, br as int, tr as int),
            final(self).positions@ == old(self).positions@,
            final(self).indices@ == old(self).indices@ + seq![tl, bl, br, tl, br, tr],
    {
        self.tri(tl, bl, br);
        self.tri(tl, br, tr);
        assert(self.indices@ =~= old(self).indices@ + seq![tl, bl, br, tl, br, tr]);
    }

    /// Fan of triangles from `center_idx` over the points of an arc, which are
    /// listed in sweep order; `ccw` tells a counter-clockwise sweep.
    pub fn arc_fan(&mut self, center_idx: u32, rim: &Vec<P>, ccw: bool)
        requires
            rim@.len() >= 1,
            old(self)@.positions.len() + rim@.len() <= u32::MAX,
        ensures
            final(self)@ == old(self)@.fan(center_idx as int, rim@, ccw),
            final(self).positions@ == old(self).positions@ + rim@,
            final(self).indices@ == old(self).indices@ + fan_indices(
                center_idx,
                old(self).positions@.len() as int,
                rim@.len() as int,
                ccw,
            ),
    {
        let ghost before = self@;
        let ghost points = rim@;
        let mut prev_idx: u32 = self.push(rim[0]);
        assert(points.take(1).len() == 1);
        let mut i: usize = 1;
        while i < rim.len()
            invariant
                points == rim@,
                1 <= i <= rim.len(),
                before.positions.len() + points.len() <= u32::MAX,
                self@ == before.fan(center_idx as int, points.take(i as int), ccw),
                self@.positions.len() == before.positions.len() + i,
                prev_idx == before.positions.len() + i - 1,
            decreases rim.len() - i,
        {
            assert(points.take(i + 1).drop_last() =~= points.take(i as int));
            assert(points.take(i + 1).last() == points[i as int]);
            let curr_idx: u32 = self.push(rim[i]);
            if ccw {
                self.tri(center_idx, prev_idx, curr_idx);
            } else {
                self.tri(center_idx, curr_idx, prev_idx);
            }
            prev_idx = curr_idx;
            i = i + 1;
        }
        assert(points.take(i as int) =~= points);
        proof {
            fans_join_neighbours(before, center_idx as int, points, ccw);
        }
    }
}

/// The triangles of a fan over `count` vertices that are stored from `first` on:
/// the centre with each two neighbours, in sweep order or against it.
pub open spec fn fan_indices(center: u32, first: int, count: int, ccw: bool) -> Seq<u32> {
    Seq::new(
        (3 * (count - 1)) as nat,
        |j: int|
            if j % 3 == 0 {
                center
            } else if (j % 3 == 1) == ccw {
                (first + j / 3) as u32
            } else {
                (first + j / 3 + 1) as u32
            },
    )
}

/// A fan stores its rim after what there is, and joins its centre to each two
/// neighbours of the rim.
pub proof fn fans_join_neighbours<P>(m: Mesh<P>, center: int, rim: Seq<P>, ccw: bool)
    requires
        rim.len() >= 1,
    ensures
        m.fan(center, rim, ccw).positions == m.positions + rim,
        m.fan(center, rim, ccw).indices == m.indices + fan_indices(
            center as u32,
            m.positions.len() as int,
            rim.len() as int,
            ccw,
        ),
    decreases rim.len(),
{
    if rim.len() > 1 {
        fans_join_neighbours(m, center, rim.drop_last(), ccw);
        let n = rim.len() - 2;
        assert((3 * n) % 3 == 0 && (3 * n + 1) % 3 == 1 && (3 * n + 2) % 3 == 2 && (3 * n + 1) / 3
            == n && (3 * n + 2) / 3 == n);
    }
    assert(m.fan(center, rim, ccw).positions =~= m.positions + rim);
    assert(m.fan(center, rim, ccw).indices =~= m.indices + fan_indices(
        center as u32,
        m.positions.len() as int,
        rim.len() as int,
        ccw,
    ));
}

/// Triangle `j` of a fan joins its centre to the rim vertices `j` and `j + 1`, in
/// that order if the sweep is counter-clockwise, and else the other way round.
pub proof fn fan_triangles_join_neighbours<P>(
    m: Mesh<P>,
    center: int,
    rim: Seq<P>,
    ccw: bool,
    j: int,
)
    requires
        0 <= j < rim.len() - 1,
    ensures
        ({
            let after = m.fan(center, rim, ccw);
            let at = m.indices.len() + 3 * j;
            let first = m.positions.len() as int;
            let (one, other) = ((first + j) as u32, (first + j + 1) as u32);
            &&& after.positions == m.positions + rim
            &&& after.indices.len() == m.indices.len() + 3 * (rim.len() - 1)
            &&& after.indices.take(m.indices.len() as int) == m.indices
            &&& after.indices[at] == center as u32
            &&& ccw ==> after.indices[at + 1] == one && after.indices[at + 2] == other
            &&& !ccw ==> after.indices[at + 1] == other && after.indices[at + 2] == one
        }),
{
    fans_join_neighbours(m, center, rim, ccw);
    assert((3 * j) % 3 == 0 && (3 * j + 1) % 3 == 1 && (3 * j + 2) % 3 == 2 && (3 * j + 1) / 3 == j
        && (3 * j + 2) / 3 == j);
    assert(m.fan(center, rim, ccw).indices.take(m.indices.len() as int) =~= m.indices);
}

/// Which way a path bends at a vertex.
#[derive(Clone, Copy, Debug, PartialEq, Eq, Structural)]
pub enum Turn {
    Left,
    Right,
    Straight,
}

/// The bend between two directions.
pub open spec fn bend(d: Cell, e: Cell) -> Turn {
    if e == left_of(d) {
        Turn::Left
    } else if e == right_of(d) {
        Turn::Right
    } else {
        Turn::Straight
    }
}

/// The bends of a path after vertex `from`, one per inner vertex.
pub open spec fn bends(path: Seq<Cell>, from: int) -> Seq<Turn> {
    Seq::new(
        inner_vertices(path.len() as int, from),
        |i: int|
            bend(
                direction(path[from + i], path[from + i + 1]),
                direction(path[from + i + 1], path[from + i + 2]),
            ),
    )
}

/// The cross product of the displacements from `a` to `b` and from `b` to `c`.
pub open spec fn cross(a: Cell, b: Cell, c: Cell) -> int {
    (b.0 - a.0) * (c.1 - b.1) - (b.1 - a.1) * (c.0 - b.0)
}

/// `turn` is to the left, to the right or neither as the cross product of the
/// displacements is positive, negative or zero.
pub open spec fn bends_as_crossed(a: Cell, b: Cell, c: Cell, turn: Turn) -> bool {
    &&& turn == Turn::Left <==> cross(a, b, c) > 0
    &&& turn == Turn::Right <==> cross(a, b, c) < 0
    &&& turn == Turn::Straight <==> cross(a, b, c) == 0
}

proof fn lemma_bend_is_crossed(a: Cell, b: Cell, c: Cell)
    requires
        straight(a, b),
        straight(b, c),
    ensures
        bends_as_crossed(a, b, c, bend(direction(a, b), direction(b, c))),
{
    let (p, q) = (b.0 - a.0, b.1 - a.1);
    let (r, s) = (c.0 - b.0, c.1 - b.1);
    lemma_sign_of_product(p, s);
    lemma_sign_of_product(q, r);
}

proof fn lemma_sign_of_product(p: int, q: int)
    ensures
        p == 0 || q == 0 ==> p * q == 0,
        p > 0 && q > 0 ==> p * q > 0,
        p < 0 && q < 0 ==> p * q > 0,
        p > 0 && q < 0 ==> p * q < 0,
        p < 0 && q > 0 ==> p * q < 0,
{
    assert(p == 0 || q == 0 ==> p * q == 0) by (nonlinear_arith);
    assert(p > 0 && q > 0 ==> p * q > 0) by (nonlinear_arith);
    assert(p < 0 && q < 0 ==> p * q > 0) by (nonlinear_arith);
    assert(p > 0 && q < 0 ==> p * q < 0) by (nonlinear_arith);
    assert(p < 0 && q > 0 ==> p * q < 0) by (nonlinear_arith);
}

/// A body bends at each vertex that its tail has still to reach but for the
/// last, the way the path does there: as the cross product of the displacements
/// to and from that vertex tells.
pub proof fn bodies_bend_as_their_path(path: Seq<Cell>, s: int, i: int)
    requires
        straight_path(path),
        0 <= s < path.len(),
    ensures
        bends(path, s).len() == (if s + 2 <= path.len() {
            path.len() - s - 2
        } else {
            0
        }),
        0 <= i < bends(path, s).len() ==> bends_as_crossed(
            path[s + i],
            path[s + i + 1],
            path[s + i + 2],
            bends(path, s)[i],
        ),
{
    if 0 <= i < bends(path, s).len() {
        assert(straight(path[s + i], path[s + i + 1]));
        assert(straight(path[s + i + 1], path[s + i + 1 + 1]));
        lemma_bend_is_crossed(path[s + i], path[s + i + 1], path[s + i + 2]);
    }
}

/// The mesh of an arrow that turns at every corner of its path, as those of a
/// level do, has a fan at each of the `m` corners that its tail has still to
/// reach, wherever it stands: four quads' worth of triangles for cap and head,
/// two triangles per segment, and five per corner.
pub proof fn layouts_have_a_fan_per_corner(
    mesh: ArrowMesh,
    path: Seq<Cell>,
    cell_size: int,
    offset: int,
)
    requires
        straight_path(path),
        11 * path.len() <= u32::MAX,
        turning(path),
        lays_out(mesh, path, cell_size, offset),
    ensures
        ({
            let s = mesh.tail.segment as int;
            let m = if s + 2 <= path.len() {
                path.len() - s - 2
            } else {
                0
            };
            &&& mesh.builder.positions@.len() == 5 * (m + 2) + 4 + 6 * m
            &&& mesh.builder.indices@.len() == 3 * (2 * (m + 2) + 4 + 5 * m)
        }),
{
    let s = mesh.tail.segment as int;
    let turns = bends(path, s);
    assert forall|i: int| 0 <= i < turns.len() implies #[trigger] turns[i] != Turn::Straight by {
        assert(straight(path[s + i], path[s + i + 1]));
        assert(square_to(
            direction(path[s + i], path[s + i + 1]),
            direction(path[s + i + 1], path[s + i + 2]),
        ));
    }
    lemma_all_corners(turns);
    arrow_mesh_is_sound(turns);
}

proof fn lemma_all_corners(turns: Seq<Turn>)
    requires
        forall|i: int| 0 <= i < turns.len() ==> #[trigger] turns[i] != Turn::Straight,
    ensures
        corners(turns) == turns.len(),
    decreases turns.len(),
{
    if turns.len() > 0 {
        let fewer = turns.drop_last();
        assert forall|i: int| 0 <= i < fewer.len() implies #[trigger] fewer[i] != Turn::Straight by {
            assert(fewer[i] == turns[i]);
        }
        lemma_all_corners(fewer);
    }
}

/// The rim of an arc around a waypoint: its start, then the end of each part.
pub open spec fn arc_rim(waypoint: int, start: Side, end: Side, ccw: bool) -> Seq<MeshPoint> {
    Seq::new(
        (ROUND_SEGMENTS + 1) as nat,
        |i: int|
            if i == 0 {
                MeshPoint::Rim { waypoint: waypoint as usize, side: start }
            } else {
                MeshPoint::Arc { waypoint: waypoint as usize, start, end, ccw, step: i as usize }
            },
    )
}

/// A side of segment `i`.
pub open spec fn side(i: int, left: bool) -> Side {
    Side { segment: i as usize, left }
}

impl Mesh<MeshPoint> {
    /// The rounded cap behind the tail: from the left side of the first segment
    /// counter-clockwise to its right side.
    pub open spec fn with_cap(self) -> Mesh<MeshPoint> {
        self.point(MeshPoint::Center { waypoint: 0 }).fan(
            self.positions.len() as int,
            arc_rim(0, side(0, true), side(0, false), true),
            true,
        )
    }

    /// The quad of segment `i` of `n`; the last one ends at the arrowhead's base.
    pub open spec fn with_segment(self, i: int, n: int) -> Mesh<MeshPoint> {
        let at = self.positions.len() as int;
        self.point(MeshPoint::Rim { waypoint: i as usize, side: side(i, true) }).point(
            MeshPoint::Rim { waypoint: i as usize, side: side(i, false) },
        ).point(segment_end(i, n, false)).point(segment_end(i, n, true)).quad(
            at,
            at + 1,
            at + 2,
            at + 3,
        )
    }

    /// The join of segments `i` and `i + 1`: an arc that fills the gap on the
    /// outer side of a bend.
    pub open spec fn with_join(self, i: int, turn: Turn) -> Mesh<MeshPoint> {
        let at = self.positions.len() as int;
        let centered = self.point(MeshPoint::Center { waypoint: (i + 1) as usize });
        match turn {
            Turn::Left => centered.fan(
                at,
                arc_rim(i + 1, side(i, false), side(i + 1, false), true),
                true,
            ),
            Turn::Right => centered.fan(
                at,
                arc_rim(i + 1, side(i, true), side(i + 1, true), false),
                false,
            ),
            Turn::Straight => centered,
        }
    }

    /// The triangle of the arrowhead.
    pub open spec fn with_head(self) -> Mesh<MeshPoint> {
        let at = self.positions.len() as int;
        self.point(MeshPoint::Tip).point(MeshPoint::Barb { left: true }).point(
            MeshPoint::Barb { left: false },
        ).tri(at, at + 1, at + 2)
    }
}

/// The front corner of segment `i` of `n` on one side.
pub open spec fn segment_end(i: int, n: int, left: bool) -> MeshPoint {
    if i == n - 1 {
        MeshPoint::Neck { left }
    } else {
        MeshPoint::Rim { waypoint: (i + 1) as usize, side: side(i, left) }
    }
}

/// Cap, and the first `k` segments with their joins, of a body whose bends are
/// `turns`.
pub open spec fn body_mesh(turns: Seq<Turn>, k: nat) -> Mesh<MeshPoint>
    decreases k,
{
    if k == 0 {
        Mesh::<MeshPoint> { positions: Seq::empty(), indices: Seq::empty() }.with_cap()
    } else {
        let i = k - 1;
        let quad = body_mesh(turns, (k - 1) as nat).with_segment(i, turns.len() as int + 1);
        if i < turns.len() {
            quad.with_join(i, turns[i])
        } else {
            quad
        }
    }
}

/// The mesh of a body whose bends are `turns`.
pub open spec fn arrow_mesh(turns: Seq<Turn>) -> Mesh<MeshPoint> {
    body_mesh(turns, turns.len() + 1).with_head()
}

/// Where the vertices of segment `i` start in the mesh of a body.
pub open spec fn segment_start(turns: Seq<Turn>, i: int) -> int {
    7 + 5 * i + 6 * corners(turns.take(i))
}

/// Where the triangles of segment `i` start in the mesh of a body.
pub open spec fn triangles_start(turns: Seq<Turn>, i: int) -> int {
    15 + 6 * i + 15 * corners(turns.take(i))
}

/// `list` holds `part` from position `at` on.
pub open spec fn holds<T>(list: Seq<T>, at: int, part: Seq<T>) -> bool {
    &&& 0 <= at && at + part.len() <= list.len()
    &&& forall|j: int| 0 <= j < part.len() ==> list[at + j] == #[trigger] part[j]
}

/// The mesh of an arrow begins with its cap: a fan around the first waypoint, from
/// the left to the right side of the first segment.
pub proof fn meshes_begin_with_a_cap(turns: Seq<Turn>)
    ensures
        ({
            let m = arrow_mesh(turns);
            let cap = arc_rim(0, side(0, true), side(0, false), true);
            &&& holds(m.positions, 0, seq![MeshPoint::Center { waypoint: 0 }] + cap)
            &&& holds(m.indices, 0, fan_indices(0, 1, 6, true))
        }),
{
    let m = arrow_mesh(turns);
    let cap = arc_rim(0, side(0, true), side(0, false), true);
    let body = body_mesh(turns, 0);
    lemma_cap_parts(turns);
    lemma_arrow_grows(turns, 0);
    lemma_longer_holds(
        body.positions,
        m.positions,
        0,
        seq![MeshPoint::Center { waypoint: 0 }] + cap,
    );
    lemma_longer_holds(body.indices, m.indices, 0, fan_indices(0, 1, 6, true));
}

/// The mesh of an arrow ends with its arrowhead.
pub proof fn meshes_end_with_an_arrowhead(turns: Seq<Turn>)
    ensures
        ({
            let m = arrow_mesh(turns);
            let n = m.positions.len() as int;
            &&& holds(
                m.positions,
                n - 3,
                seq![
                    MeshPoint::Tip,
                    MeshPoint::Barb { left: true },
                    MeshPoint::Barb { left: false },
                ],
            )
            &&& holds(
                m.indices,
                m.indices.len() - 3,
                seq![(n - 3) as u32, (n - 2) as u32, (n - 1) as u32],
            )
        }),
{
}

/// Each segment of a body adds a quad between its waypoints to the mesh, the last
/// one up to the base of the arrowhead.
pub proof fn meshes_hold_a_quad_per_segment(turns: Seq<Turn>, i: int)
    requires
        11 * (turns.len() + 2) <= u32::MAX,
        0 <= i <= turns.len(),
    ensures
        ({
            let m = arrow_mesh(turns);
            let at = segment_start(turns, i);
            let end = |left: bool|
                if i == turns.len() {
                    MeshPoint::Neck { left }
                } else {
                    MeshPoint::Rim { waypoint: (i + 1) as usize, side: side(i, left) }
                };
            &&& holds(
                m.positions,
                at,
                seq![
                    MeshPoint::Rim { waypoint: i as usize, side: side(i, true) },
                    MeshPoint::Rim { waypoint: i as usize, side: side(i, false) },
                    end(false),
                    end(true),
                ],
            )
            &&& holds(
                m.indices,
                triangles_start(turns, i),
                seq![
                    at as u32,
                    (at + 1) as u32,
                    (at + 2) as u32,
                    at as u32,
                    (at + 2) as u32,
                    (at + 3) as u32,
                ],
            )
        }),
{
    let m = arrow_mesh(turns);
    let at = segment_start(turns, i);
    let body = body_mesh(turns, (i + 1) as nat);
    let n = turns.len() as int + 1;
    lemma_segment_parts(turns, i);
    lemma_arrow_grows(turns, (i + 1) as nat);
    lemma_longer_holds(
        body.positions,
        m.positions,
        at,
        seq![
            MeshPoint::Rim { waypoint: i as usize, side: side(i, true) },
            MeshPoint::Rim { waypoint: i as usize, side: side(i, false) },
            segment_end(i, n, false),
            segment_end(i, n, true),
        ],
    );
    lemma_longer_holds(
        body.indices,
        m.indices,
        triangles_start(turns, i),
        seq![
            at as u32,
            (at + 1) as u32,
            (at + 2) as u32,
            at as u32,
            (at + 2) as u32,
            (at + 3) as u32,
        ],
    );
}

/// Where a body bends behind a segment, a fan around the waypoint in between
/// fills the outer side: the right one at a left bend, the left one at a right
/// bend.
pub proof fn meshes_hold_a_fan_per_bend(turns: Seq<Turn>, i: int)
    requires
        11 * (turns.len() + 2) <= u32::MAX,
        0 <= i < turns.len(),
    ensures
        ({
            let m = arrow_mesh(turns);
            let at = segment_start(turns, i);
            let from = triangles_start(turns, i);
            let center = MeshPoint::Center { waypoint: (i + 1) as usize };
            let right = arc_rim(i + 1, side(i, false), side(i + 1, false), true);
            let left = arc_rim(i + 1, side(i, true), side(i + 1, true), false);
            &&& holds(m.positions, at + 4, seq![center])
            &&& turns[i] == Turn::Left ==> holds(m.positions, at + 5, right) && holds(
                m.indices,
                from + 6,
                fan_indices((at + 4) as u32, at + 5, 6, true),
            )
            &&& turns[i] == Turn::Right ==> holds(m.positions, at + 5, left) && holds(
                m.indices,
                from + 6,
                fan_indices((at + 4) as u32, at + 5, 6, false),
            )
        }),
{
    let m = arrow_mesh(turns);
    let at = segment_start(turns, i);
    let from = triangles_start(turns, i);
    let body = body_mesh(turns, (i + 1) as nat);
    let center = MeshPoint::Center { waypoint: (i + 1) as usize };
    lemma_segment_parts(turns, i);
    lemma_arrow_grows(turns, (i + 1) as nat);
    lemma_longer_holds(body.positions, m.positions, at + 4, seq![center]);
    match turns[i] {
        Turn::Left => {
            let right = arc_rim(i + 1, side(i, false), side(i + 1, false), true);
            let fan = fan_indices((at + 4) as u32, at + 5, 6, true);
            lemma_longer_holds(body.positions, m.positions, at + 5, right);
            lemma_longer_holds(body.indices, m.indices, from + 6, fan);
        },
        Turn::Right => {
            let left = arc_rim(i + 1, side(i, true), side(i + 1, true), false);
            let fan = fan_indices((at + 4) as u32, at + 5, 6, false);
            lemma_longer_holds(body.positions, m.positions, at + 5, left);
            lemma_longer_holds(body.indices, m.indices, from + 6, fan);
        },
        Turn::Straight => {},
    }
}

/// The mesh of an arrow begins with that of any part of its body.
proof fn lemma_arrow_grows(turns: Seq<Turn>, j: nat)
    requires
        j <= turns.len() + 1,
    ensures
        body_mesh(turns, j).positions.is_prefix_of(arrow_mesh(turns).positions),
        body_mesh(turns, j).indices.is_prefix_of(arrow_mesh(turns).indices),
{
    lemma_body_grows(turns, j, turns.len() + 1);
    let (whole, m) = (body_mesh(turns, turns.len() + 1), arrow_mesh(turns));
    assert(whole.positions.is_prefix_of(m.positions));
    assert(whole.indices.is_prefix_of(m.indices));
}

/// What the beginning of a list holds, the list holds.
proof fn lemma_longer_holds<T>(a: Seq<T>, b: Seq<T>, at: int, part: Seq<T>)
    requires
        a.is_prefix_of(b),
        holds(a, at, part),
    ensures
        holds(b, at, part),
{
    assert forall|j: int| 0 <= j < part.len() implies b[at + j] == #[trigger] part[j] by {
        assert(a[at + j] == part[j]);
    }
}

/// A body keeps its beginning as it grows.
proof fn lemma_body_grows(turns: Seq<Turn>, j: nat, k: nat)
    requires
        j <= k <= turns.len() + 1,
    ensures
        body_mesh(turns, j).positions.is_prefix_of(body_mesh(turns, k).positions),
        body_mesh(turns, j).indices.is_prefix_of(body_mesh(turns, k).indices),
    decreases k - j,
{
    if j < k {
        lemma_body_grows(turns, j, (k - 1) as nat);
        let i = k - 1;
        let before = body_mesh(turns, i as nat);
        let quad = before.with_segment(i, turns.len() as int + 1);
        assert(before.positions.is_prefix_of(quad.positions));
        assert(before.indices.is_prefix_of(quad.indices));
        if i < turns.len() {
            let centered = quad.point(MeshPoint::Center { waypoint: (i + 1) as usize });
            let at = quad.positions.len() as int;
            fans_join_neighbours(
                centered,
                at,
                arc_rim(i + 1, side(i, false), side(i + 1, false), true),
                true,
            );
            fans_join_neighbours(
                centered,
                at,
                arc_rim(i + 1, side(i, true), side(i + 1, true), false),
                false,
            );
        }
        let after = body_mesh(turns, k);
        assert(quad.positions.is_prefix_of(after.positions));
        assert(quad.indices.is_prefix_of(after.indices));
    }
}

proof fn lemma_cap_parts(turns: Seq<Turn>)
    ensures
        ({
            let m = body_mesh(turns, 0);
            let cap = arc_rim(0, side(0, true), side(0, false), true);
            &&& holds(m.positions, 0, seq![MeshPoint::Center { waypoint: 0 }] + cap)
            &&& holds(m.indices, 0, fan_indices(0, 1, 6, true))
        }),
{
    let empty = Mesh::<MeshPoint> { positions: Seq::empty(), indices: Seq::empty() };
    let centered = empty.point(MeshPoint::Center { waypoint: 0 });
    let cap = arc_rim(0, side(0, true), side(0, false), true);
    fans_join_neighbours(centered, 0, cap, true);
    assert(body_mesh(turns, 0) == centered.fan(0, cap, true));
}

proof fn lemma_segment_parts(turns: Seq<Turn>, i: int)
    requires
        11 * (turns.len() + 2) <= u32::MAX,
        0 <= i <= turns.len(),
    ensures
        ({
            let m = body_mesh(turns, (i + 1) as nat);
            let at = segment_start(turns, i);
            let from = triangles_start(turns, i);
            let n = turns.len() as int + 1;
            let center = MeshPoint::Center { waypoint: (i + 1) as usize };
            let right = arc_rim(i + 1, side(i, false), side(i + 1, false), true);
            let left = arc_rim(i + 1, side(i, true), side(i + 1, true), false);
            &&& holds(
                m.positions,
                at,
                seq![
                    MeshPoint::Rim { waypoint: i as usize, side: side(i, true) },
                    MeshPoint::Rim { waypoint: i as usize, side: side(i, false) },
                    segment_end(i, n, false),
                    segment_end(i, n, true),
                ],
            )
            &&& holds(
                m.indices,
                from,
                seq![
                    at as u32,
                    (at + 1) as u32,
                    (at + 2) as u32,
                    at as u32,
                    (at + 2) as u32,
                    (at + 3) as u32,
                ],
            )
            &&& i < turns.len() ==> holds(m.positions, at + 4, seq![center])
            &&& i < turns.len() && turns[i] == Turn::Left ==> holds(m.positions, at + 5, right)
                && holds(m.indices, from + 6, fan_indices((at + 4) as u32, at + 5, 6, true))
            &&& i < turns.len() && turns[i] == Turn::Right ==> holds(m.positions, at + 5, left)
                && holds(m.indices, from + 6, fan_indices((at + 4) as u32, at + 5, 6, false))
        }),
{
    lemma_body_size(turns, i as nat);
    let before = body_mesh(turns, i as nat);
    let n = turns.len() as int + 1;
    let at = before.positions.len() as int;
    let from = before.indices.len() as int;
    let quad = before.with_segment(i, n);
    let rectangle = seq![
        MeshPoint::Rim { waypoint: i as usize, side: side(i, true) },
        MeshPoint::Rim { waypoint: i as usize, side: side(i, false) },
        segment_end(i, n, false),
        segment_end(i, n, true),
    ];
    let two = seq![
        at as u32,
        (at + 1) as u32,
        (at + 2) as u32,
        at as u32,
        (at + 2) as u32,
        (at + 3) as u32,
    ];
    assert(quad.positions =~= before.positions + rectangle);
    assert(quad.indices =~= before.indices + two);
    if i < turns.len() {
        let center = MeshPoint::Center { waypoint: (i + 1) as usize };
        let centered = quad.point(center);
        let right = arc_rim(i + 1, side(i, false), side(i + 1, false), true);
        let left = arc_rim(i + 1, side(i, true), side(i + 1, true), false);
        assert(centered.positions =~= before.positions + rectangle + seq![center]);
        fans_join_neighbours(centered, at + 4, right, true);
        fans_join_neighbours(centered, at + 4, left, false);
    }
}

/// The most vertices that a body of `k` segments takes without its head.
pub open spec fn vertex_bound(k: int) -> int {
    7 + 11 * k
}

/// A fan refers to existing vertices only, and adds those of its rim.
pub proof fn lemma_fan_sound<P>(m: Mesh<P>, center: int, rim: Seq<P>, ccw: bool)
    requires
        m.sound(),
        0 <= center < m.positions.len(),
        m.positions.len() + rim.len() <= u32::MAX,
    ensures
        m.fan(center, rim, ccw).sound(),
        m.fan(center, rim, ccw).positions == m.positions + rim,
        rim.len() >= 1 ==> m.fan(center, rim, ccw).indices.len() == m.indices.len() + 3 * (rim.len()
            - 1),
    decreases rim.len(),
{
    let whole = m.fan(center, rim, ccw);
    if rim.len() == 0 {
        assert(whole.positions =~= m.positions + rim);
    } else if rim.len() == 1 {
        assert(whole.positions =~= m.positions + rim);
    } else {
        lemma_fan_sound(m, center, rim.drop_last(), ccw);
        assert(whole.positions =~= m.positions + rim);
    }
}

/// A body mesh refers to its own vertices only, and does not outgrow its bound.
pub proof fn lemma_body_sound(turns: Seq<Turn>, k: nat)
    requires
        k <= turns.len() + 1,
        11 * (turns.len() + 2) <= u32::MAX,
    ensures
        body_mesh(turns, k).sound(),
        7 <= body_mesh(turns, k).positions.len() <= vertex_bound(k as int),
        k == turns.len() + 1 ==> body_mesh(turns, k).positions.len() <= vertex_bound(k as int) - 7,
    decreases k,
{
    if k == 0 {
        let empty = Mesh::<MeshPoint> { positions: Seq::empty(), indices: Seq::empty() };
        let centered = empty.point(MeshPoint::Center { waypoint: 0 });
        lemma_fan_sound(centered, 0, arc_rim(0, side(0, true), side(0, false), true), true);
    } else {
        lemma_body_sound(turns, (k - 1) as nat);
        let i = k - 1;
        let before = body_mesh(turns, (k - 1) as nat);
        let quad = before.with_segment(i, turns.len() as int + 1);
        assert(quad.sound());
        if i < turns.len() {
            let at = quad.positions.len() as int;
            let centered = quad.point(MeshPoint::Center { waypoint: (i + 1) as usize });
            assert(centered.sound());
            lemma_fan_sound(
                centered,
                at,
                arc_rim(i + 1, side(i, false), side(i + 1, false), true),
                true,
            );
            lemma_fan_sound(
                centered,
                at,
                arc_rim(i + 1, side(i, true), side(i + 1, true), false),
                false,
            );
        }
    }
}

/// The number of bends to one side or the other.
pub open spec fn corners(turns: Seq<Turn>) -> nat
    decreases turns.len(),
{
    if turns.len() == 0 {
        0
    } else {
        corners(turns.drop_last()) + (if turns.last() == Turn::Straight {
            0nat
        } else {
            1nat
        })
    }
}

/// Every triangle of an arrow's mesh is whole and refers to existing vertices.
/// Each inner waypoint adds a quad, and a fan if the body bends there; where it
/// runs straight on, no triangle joins the quads.
pub proof fn arrow_mesh_is_sound(turns: Seq<Turn>)
    requires
        11 * (turns.len() + 2) <= u32::MAX,
    ensures
        arrow_mesh(turns).sound(),
        arrow_mesh(turns).positions.len() == 5 * (turns.len() + 2) + 4 + 6 * corners(turns),
        arrow_mesh(turns).indices.len() == 3 * (2 * (turns.len() + 2) + 4 + 5 * corners(turns)),
        corners(turns) <= turns.len(),
{
    lemma_body_sound(turns, turns.len() + 1);
    lemma_body_size(turns, turns.len());
    assert(turns.take(turns.len() as int) =~= turns);
}

proof fn lemma_body_size(turns: Seq<Turn>, k: nat)
    requires
        k <= turns.len(),
        11 * (turns.len() + 2) <= u32::MAX,
    ensures
        ({
            let bent = corners(turns.take(k as int));
            &&& bent <= k
            &&& body_mesh(turns, k).positions.len() == 7 + 5 * k + 6 * bent
            &&& body_mesh(turns, k).indices.len() == 15 + 6 * k + 15 * bent
        }),
    decreases k,
{
    if k == 0 {
        let empty = Mesh::<MeshPoint> { positions: Seq::empty(), indices: Seq::empty() };
        let centered = empty.point(MeshPoint::Center { waypoint: 0 });
        lemma_fan_sound(centered, 0, arc_rim(0, side(0, true), side(0, false), true), true);
    } else {
        lemma_body_size(turns, (k - 1) as nat);
        lemma_body_sound(turns, (k - 1) as nat);
        let i = k - 1;
        assert(turns.take(k as int).drop_last() =~= turns.take(i));
        let quad = body_mesh(turns, i as nat).with_segment(i, turns.len() as int + 1);
        assert(quad.sound());
        let at = quad.positions.len() as int;
        let centered = quad.point(MeshPoint::Center { waypoint: (i + 1) as usize });
        assert(centered.sound());
        lemma_fan_sound(
            centered,
            at,
            arc_rim(i + 1, side(i, false), side(i + 1, false), true),
            true,
        );
        lemma_fan_sound(
            centered,
            at,
            arc_rim(i + 1, side(i, true), side(i + 1, true), false),
            false,
        );
    }
}

/// The rim of an arc around a waypoint.
fn arc_points(waypoint: usize, start: Side, end: Side, ccw: bool) -> (rim: Vec<MeshPoint>)
    ensures
        rim@ == arc_rim(waypoint as int, start, end, ccw),
{
    let mut rim: Vec<MeshPoint> = Vec::new();
    rim.push(MeshPoint::Rim { waypoint, side: start });
    let mut step: usize = 1;
    while step <= ROUND_SEGMENTS
        invariant
            1 <= step <= ROUND_SEGMENTS + 1,
            rim@ =~= arc_rim(waypoint as int, start, end, ccw).take(step as int),
        decreases ROUND_SEGMENTS + 1 - step,
    {
        rim.push(MeshPoint::Arc { waypoint, start, end, ccw, step });
        step = step + 1;
    }
    assert(rim@ =~= arc_rim(waypoint as int, start, end, ccw));
    rim
}

/// Lays out the mesh of a body whose bends are `turns`.
pub fn build_body(turns: &Vec<Turn>) -> (mb: MeshBuilder<MeshPoint>)
    requires
        11 * (turns@.len() + 2) <= u32::MAX,
    ensures
        mb@ == arrow_mesh(turns@),
        mb@.sound(),
        mb.positions@ == arrow_mesh(turns@).positions,
        mb.indices@ == arrow_mesh(turns@).indices,
{
    let mut mb: MeshBuilder<MeshPoint> = MeshBuilder::new();
    let n: usize = turns.len() + 1;

    // Tail cap: the semicircle that faces backward from the first waypoint.
    let first_left: Side = Side { segment: 0, left: true };
    let first_right: Side = Side { segment: 0, left: false };
    let c: u32 = mb.push(MeshPoint::Center { waypoint: 0 });
    let cap: Vec<MeshPoint> = arc_points(0, first_left, first_right, true);
    mb.arc_fan(c, &cap, true);

    // Segment quads and rounded joins.
    let mut i: usize = 0;
    while i < n
        invariant
            n == turns@.len() + 1,
            11 * (turns@.len() + 2) <= u32::MAX,
            0 <= i <= n,
            mb@ == body_mesh(turns@, i as nat),
        decreases n - i,
    {
        proof {
            lemma_body_sound(turns@, i as nat);
        }
        let ghost before = mb@;
        let left: Side = Side { segment: i, left: true };
        let right: Side = Side { segment: i, left: false };
        let last: bool = i == n - 1;
        let tl: u32 = mb.push(MeshPoint::Rim { waypoint: i, side: left });
        let bl: u32 = mb.push(MeshPoint::Rim { waypoint: i, side: right });
        // The last segment is shortened to leave room for the arrowhead.
        let br: u32 = mb.push(
            if last {
                MeshPoint::Neck { left: false }
            } else {
                MeshPoint::Rim { waypoint: i + 1, side: right }
            },
        );
        let tr: u32 = mb.push(
            if last {
                MeshPoint::Neck { left: true }
            } else {
                MeshPoint::Rim { waypoint: i + 1, side: left }
            },
        );
        mb.quad(tl, bl, br, tr);
        assert(mb@ == before.with_segment(i as int, n as int));
        if i < turns.len() {
            let vc: u32 = mb.push(MeshPoint::Center { waypoint: i + 1 });
            match turns[i] {
                Turn::Left => {
                    // The outer gap is on the right side.
                    let end: Side = Side { segment: i + 1, left: false };
                    let rim: Vec<MeshPoint> = arc_points(i + 1, right, end, true);
                    mb.arc_fan(vc, &rim, true);
                },
                Turn::Right => {
                    // The outer gap is on the left side.
                    let end: Side = Side { segment: i + 1, left: true };
                    let rim: Vec<MeshPoint> = arc_points(i + 1, left, end, false);
                    mb.arc_fan(vc, &rim, false);
                },
                Turn::Straight => {
                    // The quads already meet flush.
                },
            }
        }
        i = i + 1;
    }
    proof {
        lemma_body_sound(turns@, turns@.len() + 1);
        arrow_mesh_is_sound(turns@);
    }

    // Arrowhead: one triangle at the last waypoint.
    let tip: u32 = mb.push(MeshPoint::Tip);
    let barb_left: u32 = mb.push(MeshPoint::Barb { left: true });
    let barb_right: u32 = mb.push(MeshPoint::Barb { left: false });
    mb.tri(tip, barb_left, barb_right);
    mb
}

/// Which way a path from `a` by way of `b` to `c` bends at `b`.
pub fn turn_at(a: IVec2, b: IVec2, c: IVec2) -> (turn: Turn)
    ensures
        turn == bend(direction(a@, b@), direction(b@, c@)),
        straight(a@, b@) && straight(b@, c@) ==> bends_as_crossed(a@, b@, c@, turn),
{
    proof {
        if straight(a@, b@) && straight(b@, c@) {
            lemma_bend_is_crossed(a@, b@, c@);
        }
    }
    let d: IVec2 = direction_of(a, b);
    let e: IVec2 = direction_of(b, c);
    if e.x == -d.y && e.y == d.x {
        Turn::Left
    } else if e.x == d.y && e.y == -d.x {
        Turn::Right
    } else {
        Turn::Straight
    }
}

/// A laid-out arrow at some offset of its slide.
pub struct ArrowMesh {
    /// Where the tail is.
    pub tail: TailPosition,
    /// The points that the body runs through, tail first.
    pub waypoints: Vec<Waypoint>,
    /// The directions of the segments between them.
    pub directions: Vec<IVec2>,
    /// The triangles.
    pub builder: MeshBuilder<MeshPoint>,
}

/// `mesh` is the layout of an arrow that has slid by `offset` pixels.
pub open spec fn lays_out(mesh: ArrowMesh, path: Seq<Cell>, cell_size: int, offset: int) -> bool {
    let segment = mesh.tail.segment as int;
    &&& tail_at(path, cell_size, offset, mesh.tail)
    &&& mesh.waypoints@ == body_waypoints(path.len() as int, segment)
    &&& cells(mesh.directions@) == body_directions(path, segment)
    &&& mesh.builder@ == arrow_mesh(bends(path, segment))
    &&& mesh.builder.positions@ == arrow_mesh(bends(path, segment)).positions
    &&& mesh.builder.indices@ == arrow_mesh(bends(path, segment)).indices
}

/// Lays out the mesh of an arrow in its current animation state.
///
/// Both ends of the arrow travel along the path at the same speed, so that the
/// body length stays constant: the head extends past the last vertex in the
/// direction of the final segment, and of the path as much is removed behind
/// the tail. `offset` is the slide offset in pixels, rounded down; at zero, and
/// before, the arrow is at rest.
pub fn build_arrow_mesh(vertices: &Vec<IVec2>, cell_size: i32, offset: i32) -> (mesh: ArrowMesh)
    requires
        straight_path(cells(vertices@)),
        11 * vertices@.len() <= u32::MAX,
        cell_size >= 1,
        path_length(cells(vertices@)) * cell_size <= i32::MAX,
    ensures
        lays_out(mesh, cells(vertices@), cell_size as int, floored(offset as int) as int),
        mesh.builder@.sound(),
        tail_at(cells(vertices@), cell_size as int, floored(offset as int) as int, mesh.tail),
        mesh.waypoints@ == body_waypoints(vertices@.len() as int, mesh.tail.segment as int),
        cells(mesh.directions@) == body_directions(cells(vertices@), mesh.tail.segment as int),
        mesh.builder.positions@ == arrow_mesh(
            bends(cells(vertices@), mesh.tail.segment as int),
        ).positions,
        mesh.builder.indices@ == arrow_mesh(
            bends(cells(vertices@), mesh.tail.segment as int),
        ).indices,
{
    let ghost path = cells(vertices@);
    let tail: TailPosition = tail_position(vertices, cell_size, offset);
    let list: Vec<Waypoint> = waypoints(vertices.len(), tail.segment);
    let mut turns: Vec<Turn> = Vec::new();
    let mut i: usize = tail.segment;
    while i < vertices.len() && vertices.len() - i > 2
        invariant
            path == cells(vertices@),
            tail.segment <= i < vertices.len(),
            turns@.len() == i - tail.segment,
            i > tail.segment ==> i + 2 <= vertices.len(),
            forall|j: int|
                0 <= j < turns@.len() ==> #[trigger] turns@[j] == bend(
                    direction(path[tail.segment + j], path[tail.segment + j + 1]),
                    direction(path[tail.segment + j + 1], path[tail.segment + j + 2]),
                ),
        decreases vertices.len() - i,
    {
        turns.push(turn_at(vertices[i], vertices[i + 1], vertices[i + 2]));
        i = i + 1;
    }
    assert(turns@ =~= bends(path, tail.segment as int));
    let builder: MeshBuilder<MeshPoint> = build_body(&turns);
    let directions: Vec<IVec2> = segment_directions(vertices, tail.segment);
    ArrowMesh { tail, waypoints: list, directions, builder }
}

/// The point that lies `along` ahead of `a` in direction `d`, and `across` to
/// the left of it.
pub open spec fn placed(a: Cell, d: Cell, along: int, across: int) -> Cell {
    (a.0 + d.0 * along + left_of(d).0 * across, a.1 + d.1 * along + left_of(d).1 * across)
}

/// The corners `a`, `b` and `c` are in counter-clockwise order.
pub open spec fn counter_clockwise(a: Cell, b: Cell, c: Cell) -> bool {
    (b.0 - a.0) * (c.1 - a.1) - (b.1 - a.1) * (c.0 - a.0) > 0
}

/// Where a vertex of an arrow's mesh lies, in [`CELL_PARTS`] parts of a pixel,
/// when the waypoints of the body are at `points`, in pixels, and its segments
/// run in `directions`. Of vertices part-way along an arc it says nothing.
pub open spec fn vertex_at(
    point: MeshPoint,
    points: Seq<Cell>,
    directions: Seq<Cell>,
    cell_size: int,
) -> Cell {
    let o = offset_of(point, directions.len() as int)->0;
    let w = points[o.waypoint as int];
    placed(
        (CELL_PARTS * w.0, CELL_PARTS * w.1),
        directions[o.segment as int],
        o.along * cell_size,
        o.across * cell_size,
    )
}

/// The quad of a body segment consists of two counter-clockwise triangles, and
/// so does the arrowhead of one, whichever way they point, as long as the last
/// segment is longer than the arrowhead.
pub proof fn straight_parts_wind_counter_clockwise(
    points: Seq<Cell>,
    directions: Seq<Cell>,
    cell_size: int,
    i: int,
    length: int,
)
    requires
        cell_size >= 1,
        points.len() == directions.len() + 1,
        directions.len() <= usize::MAX,
        0 <= i < directions.len(),
        cardinal(directions[i]),
        length > 0,
        points[i + 1] == shift(points[i], directions[i], length),
        i == directions.len() - 1 ==> CELL_PARTS * length > ARROWHEAD_LENGTH * cell_size,
    ensures
        ({
            let n = directions.len() as int;
            let at = |p: MeshPoint| vertex_at(p, points, directions, cell_size);
            let tl = at(MeshPoint::Rim { waypoint: i as usize, side: side(i, true) });
            let bl = at(MeshPoint::Rim { waypoint: i as usize, side: side(i, false) });
            let br = at(segment_end(i, n, false));
            let tr = at(segment_end(i, n, true));
            &&& counter_clockwise(tl, bl, br)
            &&& counter_clockwise(tl, br, tr)
            &&& i == n - 1 ==> counter_clockwise(
                at(MeshPoint::Tip),
                at(MeshPoint::Barb { left: true }),
                at(MeshPoint::Barb { left: false }),
            )
        }),
{
    let n = directions.len() as int;
    let d = directions[i];
    let (a, b) = (points[i], points[i + 1]);
    let (u, v) = ((CELL_PARTS * a.0, CELL_PARTS * a.1), (CELL_PARTS * b.0, CELL_PARTS * b.1));
    let long = CELL_PARTS * length;
    let half = ARROW_HALF_WIDTH * cell_size;
    lemma_negated_product(ARROW_HALF_WIDTH as int, cell_size);
    lemma_negated_product(ARROWHEAD_LENGTH as int, cell_size);
    lemma_negated_product(ARROWHEAD_HALF_WIDTH as int, cell_size);
    let front = if i == n - 1 {
        long - ARROWHEAD_LENGTH * cell_size
    } else {
        long
    };
    assert(placed(v, d, front - long, half) == placed(u, d, front, half)) by {
        lemma_placed(u, d, (front, half));
        lemma_placed(v, d, (front - long, half));
    }
    assert(placed(v, d, front - long, -half) == placed(u, d, front, -half)) by {
        lemma_placed(u, d, (front, -half));
        lemma_placed(v, d, (front - long, -half));
    }
    lemma_box_winds(u, d, front, half);
    if i == n - 1 {
        let wide = ARROWHEAD_HALF_WIDTH * cell_size;
        let (tip, base) = (ARROWHEAD_OVERSHOOT * cell_size, -ARROWHEAD_LENGTH * cell_size);
        lemma_wedge_winds(v, d, tip, base, wide);
    }
}

proof fn lemma_negated_product(k: int, c: int)
    ensures
        (-k) * c == -(k * c),
        0 * c == 0,
{
    assert((-k) * c == -(k * c)) by (nonlinear_arith);
}

/// The measures of an arrow, in ten-thousandths of a cell. The body is 2800
/// wide: its rim stands off a waypoint by half of that, square to a segment. The
/// arrowhead reaches from 5500 behind its grid point, where it is 7200 wide, to
/// a quarter of that ahead of it.
pub proof fn vertices_stand_off_their_waypoints(
    waypoint: usize,
    side: Side,
    left: bool,
    segments: int,
)
    requires
        1 <= segments <= usize::MAX,
    ensures
        offset_of(MeshPoint::Center { waypoint }, segments) matches Some(o) && o.waypoint == waypoint
            && o.along == 0 && o.across == 0,
        offset_of(MeshPoint::Rim { waypoint, side }, segments) matches Some(o) && o.waypoint
            == waypoint && o.segment == side.segment && o.along == 0 && o.across == (if side.left {
            1400int
        } else {
            -1400
        }),
        offset_of(MeshPoint::Neck { left }, segments) matches Some(o) && o.waypoint == segments
            && o.segment == segments - 1 && o.along == -5500 && o.across == (if left {
            1400int
        } else {
            -1400
        }),
        offset_of(MeshPoint::Barb { left }, segments) matches Some(o) && o.waypoint == segments
            && o.segment == segments - 1 && o.along == -5500 && o.across == (if left {
            3600int
        } else {
            -3600
        }),
        offset_of(MeshPoint::Tip, segments) matches Some(o) && o.waypoint == segments && o.segment
            == segments - 1 && 4 * o.along == 5500 && o.across == 0,
{
}

/// The two halves of a box of some length and width.
proof fn lemma_box_winds(a: Cell, d: Cell, length: int, half: int)
    requires
        cardinal(d),
        length > 0,
        half > 0,
    ensures
        ({
            let (tl, bl) = (placed(a, d, 0, half), placed(a, d, 0, -half));
            let (br, tr) = (placed(a, d, length, -half), placed(a, d, length, half));
            counter_clockwise(tl, bl, br) && counter_clockwise(tl, br, tr)
        }),
{
    lemma_area(a, d, (0, half), (0, -half), (length, -half));
    lemma_area(a, d, (0, half), (length, -half), (length, half));
    assert(0 * (-half - half) - (-half - half) * length > 0) by (nonlinear_arith)
        requires
            length > 0,
            half > 0,
    ;
    assert(length * (half - half) - (-half - half) * length > 0) by (nonlinear_arith)
        requires
            length > 0,
            half > 0,
    ;
}

/// A triangle with its tip ahead of its base.
proof fn lemma_wedge_winds(a: Cell, d: Cell, tip: int, base: int, half: int)
    requires
        cardinal(d),
        base < tip,
        half > 0,
    ensures
        counter_clockwise(
            placed(a, d, tip, 0),
            placed(a, d, base, half),
            placed(a, d, base, -half),
        ),
{
    lemma_area(a, d, (tip, 0), (base, half), (base, -half));
    assert((base - tip) * (-half - 0) - (half - 0) * (base - tip) > 0) by (nonlinear_arith)
        requires
            base < tip,
            half > 0,
    ;
}

/// At every offset the last body segment is at least a cell long.
pub proof fn last_segment_has_room_for_head(
    path: Seq<Cell>,
    cell_size: int,
    offset: int,
    tail: TailPosition,
)
    requires
        straight_path(path),
        path.len() <= usize::MAX,
        cell_size >= 1,
        offset >= 0,
        tail_at(path, cell_size, offset, tail),
    ensures
        ({
            let list = body_waypoints(path.len() as int, tail.segment as int);
            let far = |i: int| waypoint_distance(path, cell_size, offset, list[i]);
            far(list.len() - 1) - far(list.len() - 2) >= cell_size
        }),
{
    let n = path.len() as int;
    let list = body_waypoints(n, tail.segment as int);
    lemma_distance_monotonic(path, 0, n - 1);
    let from = if list.len() == 2 {
        0
    } else {
        lemma_distance_monotonic(path, n - 2, n - 1);
        distance_to(path, n - 2)
    };
    let total = path_length(path);
    assert(total * cell_size - from * cell_size >= cell_size) by (nonlinear_arith)
        requires
            total >= from + 1,
            cell_size >= 1,
    ;
    assert(0 * cell_size == 0);
}

/// Placing three points in a rotated frame keeps the area that they span.
proof fn lemma_area(a: Cell, d: Cell, u: Cell, v: Cell, w: Cell)
    requires
        cardinal(d),
    ensures
        ({
            let (p, q, r) = (
                placed(a, d, u.0, u.1),
                placed(a, d, v.0, v.1),
                placed(a, d, w.0, w.1),
            );
            (q.0 - p.0) * (r.1 - p.1) - (q.1 - p.1) * (r.0 - p.0) == (v.0 - u.0) * (w.1 - u.1) - (
            v.1 - u.1) * (w.0 - u.0)
        }),
{
    let (s, t) = (v.0 - u.0, v.1 - u.1);
    let (m, n) = (w.0 - u.0, w.1 - u.1);
    let (p, q, r) = (placed(a, d, u.0, u.1), placed(a, d, v.0, v.1), placed(a, d, w.0, w.1));
    lemma_placed(a, d, u);
    lemma_placed(a, d, v);
    lemma_placed(a, d, w);
    assert((-s) * (-n) == s * n && (-t) * (-m) == t * m && (-t) * m == -(t * m) && s * (-n) == -(s * n)
        && t * (-m) == -(t * m) && (-s) * n == -(s * n)) by (nonlinear_arith);
    if d == (1int, 0int) {
        assert(q.0 - p.0 == s && q.1 - p.1 == t && r.0 - p.0 == m && r.1 - p.1 == n);
    } else if d == (-1int, 0int) {
        assert(q.0 - p.0 == -s && q.1 - p.1 == -t && r.0 - p.0 == -m && r.1 - p.1 == -n);
    } else if d == (0int, 1int) {
        assert(q.0 - p.0 == -t && q.1 - p.1 == s && r.0 - p.0 == -n && r.1 - p.1 == m);
        assert((-t) * m - s * (-n) == s * n - t * m);
    } else {
        assert(q.0 - p.0 == t && q.1 - p.1 == -s && r.0 - p.0 == n && r.1 - p.1 == -m);
        assert(t * (-m) - (-s) * n == s * n - t * m);
    }
}

proof fn lemma_placed(a: Cell, d: Cell, u: Cell)
    requires
        cardinal(d),
    ensures
        d == (1int, 0int) ==> placed(a, d, u.0, u.1) == (a.0 + u.0, a.1 + u.1),
        d == (-1int, 0int) ==> placed(a, d, u.0, u.1) == (a.0 - u.0, a.1 - u.1),
        d == (0int, 1int) ==> placed(a, d, u.0, u.1) == (a.0 - u.1, a.1 + u.0),
        d == (0int, -1int) ==> placed(a, d, u.0, u.1) == (a.0 + u.1, a.1 - u.0),
{
    lemma_unit_products(d.0, u.0);
    lemma_unit_products(d.1, u.0);
    lemma_unit_products(left_of(d).0, u.1);
    lemma_unit_products(left_of(d).1, u.1);
}

/// Products with the components of a unit direction.
proof fn lemma_unit_products(e: int, k: int)
    ensures
        e == 1 ==> e * k == k,
        e == 0 ==> e * k == 0,
        e == -1 ==> e * k == -k,
{
    assert(e == 1 ==> e * k == k) by (nonlinear_arith);
    assert(e == 0 ==> e * k == 0) by (nonlinear_arith);
    assert(e == -1 ==> e * k == -k) by (nonlinear_arith);
}

/// The mesh of a body without a bend: cap, one quad, arrowhead.
proof fn lemma_straight_arrow_mesh()
    ensures
        ({
            let mesh = arrow_mesh(Seq::empty());
            let rim = arc_rim(0, side(0, true), side(0, false), true);
            &&& mesh.positions == seq![MeshPoint::Center { waypoint: 0 }] + rim + seq![
                MeshPoint::Rim { waypoint: 0, side: side(0, true) },
                MeshPoint::Rim { waypoint: 0, side: side(0, false) },
                MeshPoint::Neck { left: false },
                MeshPoint::Neck { left: true },
                MeshPoint::Tip,
                MeshPoint::Barb { left: true },
                MeshPoint::Barb { left: false },
            ]
            &&& mesh.positions.len() == 14
            &&& mesh.indices == seq![
                0u32, 1, 2, 0, 2, 3, 0, 3, 4, 0, 4, 5, 0, 5, 6, 7, 8, 9, 7, 9, 10, 11, 12, 13,
            ]
        }),
{
    let none = Seq::<Turn>::empty();
    let empty = Mesh::<MeshPoint> { positions: Seq::empty(), indices: Seq::empty() };
    let centered = empty.point(MeshPoint::Center { waypoint: 0 });
    let rim = arc_rim(0, side(0, true), side(0, false), true);
    let cap = body_mesh(none, 0);
    lemma_fan_sound(centered, 0, rim, true);
    assert(cap.positions == centered.positions + rim);
    fans_join_neighbours(centered, 0, rim, true);
    assert(cap.indices =~= seq![0u32, 1, 2, 0, 2, 3, 0, 3, 4, 0, 4, 5, 0, 5, 6]);
    let mesh = arrow_mesh(none);
    assert(body_mesh(none, 1) == cap.with_segment(0, 1));
    assert(mesh == cap.with_segment(0, 1).with_head());
    assert(mesh.positions =~= seq![MeshPoint::Center { waypoint: 0 }] + rim + seq![
        MeshPoint::Rim { waypoint: 0, side: side(0, true) },
        MeshPoint::Rim { waypoint: 0, side: side(0, false) },
        MeshPoint::Neck { left: false },
        MeshPoint::Neck { left: true },
        MeshPoint::Tip,
        MeshPoint::Barb { left: true },
        MeshPoint::Barb { left: false },
    ]);
    assert(mesh.indices =~= seq![
        0u32, 1, 2, 0, 2, 3, 0, 3, 4, 0, 4, 5, 0, 5, 6, 7, 8, 9, 7, 9, 10, 11, 12, 13,
    ]);
}

/// Past the end of its path an arrow is laid out the same at every offset.
pub proof fn past_the_end_layouts_are_equal(
    path: Seq<Cell>,
    cell_size: int,
    s: int,
    t: int,
    a: ArrowMesh,
    b: ArrowMesh,
)
    requires
        straight_path(path),
        path.len() <= usize::MAX,
        cell_size >= 1,
        s >= path_length(path) * cell_size,
        t >= path_length(path) * cell_size,
        lays_out(a, path, cell_size, s),
        lays_out(b, path, cell_size, t),
    ensures
        a.tail == b.tail,
        a.waypoints@ == seq![Waypoint::Tail, Waypoint::Head],
        b.waypoints@ == a.waypoints@,
        cells(a.directions@) == seq![heading(path)],
        cells(b.directions@) == seq![heading(path)],
        a.builder@.positions.len() == 14,
        b.builder@ == a.builder@,
        a.builder@.indices == seq![
            0u32, 1, 2, 0, 2, 3, 0, 3, 4, 0, 4, 5, 0, 5, 6, 7, 8, 9, 7, 9, 10, 11, 12, 13,
        ],
{
    past_the_end_the_body_is_straight(path, cell_size, s, a.tail);
    past_the_end_the_body_is_straight(path, cell_size, t, b.tail);
    assert(bends(path, a.tail.segment as int) =~= Seq::empty());
    lemma_straight_arrow_mesh();
}

/// The vertices that fix the place of `point`: the vertex itself, or the centre
/// and the two ends of the arc that it lies on.
pub open spec fn support(point: MeshPoint) -> Seq<MeshPoint> {
    match point {
        MeshPoint::Arc { waypoint, start, end, .. } => seq![
            MeshPoint::Center { waypoint },
            MeshPoint::Rim { waypoint, side: start },
            MeshPoint::Rim { waypoint, side: end },
        ],
        _ => seq![point],
    }
}

/// Past the end of its path an arrow is drawn the same at every offset, and
/// only moves along its heading: the layouts at the offsets `s` and `t` are
/// equal, with fourteen vertices and eight triangles, each vertex at `t` is the
/// one at `s` shifted by `t - s` pixels, and from the middle of its cap to its
/// tip the arrow is as long as its path and the overshoot of the tip. `from`
/// and `to` anchor the waypoints at the two offsets.
pub proof fn past_the_end_the_mesh_only_moves_ahead(
    path: Seq<Cell>,
    cell_size: int,
    s: int,
    t: int,
    before: TailPosition,
    after: TailPosition,
    from: Seq<Anchor>,
    to: Seq<Anchor>,
)
    requires
        straight_path(path),
        path.len() <= usize::MAX,
        cell_size >= 1,
        s >= path_length(path) * cell_size,
        t >= path_length(path) * cell_size,
        tail_at(path, cell_size, s, before),
        tail_at(path, cell_size, t, after),
        from.len() == 2,
        to.len() == 2,
        anchored(path, before, Waypoint::Tail, from[0]),
        anchored(path, before, Waypoint::Head, from[1]),
        anchored(path, after, Waypoint::Tail, to[0]),
        anchored(path, after, Waypoint::Head, to[1]),
    ensures
        body_waypoints(path.len() as int, before.segment as int) == seq![
            Waypoint::Tail,
            Waypoint::Head,
        ],
        before == after,
        ({
            let d = heading(path);
            let mesh = arrow_mesh(bends(path, before.segment as int));
            let directions = body_directions(path, before.segment as int);
            let old_points = from.map_values(|a: Anchor| anchor_pixel(a, cell_size, s));
            let new_points = to.map_values(|a: Anchor| anchor_pixel(a, cell_size, t));
            let old_at = |p: MeshPoint| vertex_at(p, old_points, directions, cell_size);
            let new_at = |p: MeshPoint| vertex_at(p, new_points, directions, cell_size);
            &&& cardinal(d)
            &&& mesh == arrow_mesh(bends(path, after.segment as int))
            &&& mesh.positions.len() == 14
            &&& mesh.indices.len() == 24
            &&& forall|i: int, p: MeshPoint|
                0 <= i < 14 && #[trigger] support(mesh.positions[i]).contains(p) ==> new_at(p)
                    == shift(old_at(p), d, CELL_PARTS * (t - s))
            &&& mesh.positions[0] == (MeshPoint::Center { waypoint: 0 })
            &&& mesh.positions[11] == MeshPoint::Tip
            &&& old_at(MeshPoint::Tip) == shift(
                old_at(MeshPoint::Center { waypoint: 0 }),
                d,
                CELL_PARTS * (path_length(path) * cell_size) + ARROWHEAD_OVERSHOOT * cell_size,
            )
        }),
{
    let d = heading(path);
    let list = body_waypoints(path.len() as int, before.segment as int);
    past_the_end_the_body_is_straight(path, cell_size, s, before);
    past_the_end_the_body_is_straight(path, cell_size, t, after);
    assert(list[0] == Waypoint::Tail && list[1] == Waypoint::Head);
    past_the_end_the_body_only_moves_ahead(
        path,
        cell_size,
        s,
        t,
        before,
        after,
        Waypoint::Tail,
        from[0],
        to[0],
    );
    past_the_end_the_body_only_moves_ahead(
        path,
        cell_size,
        s,
        t,
        before,
        after,
        Waypoint::Head,
        from[1],
        to[1],
    );
    assert(bends(path, before.segment as int) =~= Seq::empty());
    lemma_straight_arrow_mesh();
    let mesh = arrow_mesh(bends(path, before.segment as int));
    let directions = body_directions(path, before.segment as int);
    let old_points = from.map_values(|a: Anchor| anchor_pixel(a, cell_size, s));
    let new_points = to.map_values(|a: Anchor| anchor_pixel(a, cell_size, t));
    assert forall|i: int, p: MeshPoint|
        0 <= i < 14 && #[trigger] support(mesh.positions[i]).contains(p) implies vertex_at(
        p,
        new_points,
        directions,
        cell_size,
    ) == shift(vertex_at(p, old_points, directions, cell_size), d, CELL_PARTS * (t - s)) by {
        lemma_support_of_straight_arrow(i, p);
        let o = offset_of(p, 1)->0;
        let w = old_points[o.waypoint as int];
        lemma_placed_moves(w, d, o.along * cell_size, o.across * cell_size, t - s);
    }
    assert(list[0int + 1] == Waypoint::Head);
    let length = path_length(path) * cell_size;
    lemma_distance_monotonic(path, 0, 0);
    assert(length >= 0) by (nonlinear_arith)
        requires
            path_length(path) >= 0,
            cell_size >= 1,
            length == path_length(path) * cell_size,
    ;
    body_follows_the_path(path, cell_size, s, before, 0, from[0], from[1]);
    let tail = old_points[0];
    lemma_placed_moves(tail, d, 0, 0, length);
    lemma_placed_ahead(old_points[1], d, ARROWHEAD_OVERSHOOT * cell_size);
    lemma_placed_ahead(tail, d, 0);
    assert(0 * cell_size == 0);
}

/// What fixes the vertices of a body without a bend has a place of its own, at
/// one of the two waypoints and along the only segment.
proof fn lemma_support_of_straight_arrow(i: int, p: MeshPoint)
    requires
        0 <= i < 14,
        support(arrow_mesh(Seq::empty()).positions[i]).contains(p),
    ensures
        offset_of(p, 1) matches Some(o) && o.waypoint < 2 && o.segment == 0,
{
    lemma_straight_arrow_mesh();
    let positions = arrow_mesh(Seq::empty()).positions;
    let rim = arc_rim(0, side(0, true), side(0, false), true);
    if 1 <= i < 7 {
        assert(positions[i] == rim[i - 1]);
    }
}

/// A place moves as its waypoint does.
proof fn lemma_placed_moves(w: Cell, d: Cell, along: int, across: int, k: int)
    requires
        cardinal(d),
    ensures
        ({
            let v = shift(w, d, k);
            placed((CELL_PARTS * v.0, CELL_PARTS * v.1), d, along, across) == shift(
                placed((CELL_PARTS * w.0, CELL_PARTS * w.1), d, along, across),
                d,
                CELL_PARTS * k,
            )
        }),
{
    let v = shift(w, d, k);
    lemma_placed((CELL_PARTS * w.0, CELL_PARTS * w.1), d, (along, across));
    lemma_placed((CELL_PARTS * v.0, CELL_PARTS * v.1), d, (along, across));
}

/// A place that is not off to a side lies straight ahead.
proof fn lemma_placed_ahead(w: Cell, d: Cell, along: int)
    requires
        cardinal(d),
    ensures
        placed((CELL_PARTS * w.0, CELL_PARTS * w.1), d, along, 0) == shift(
            (CELL_PARTS * w.0, CELL_PARTS * w.1),
            d,
            along,
        ),
{
    lemma_placed((CELL_PARTS * w.0, CELL_PARTS * w.1), d, (along, 0));
}

} // verus!
