//! The slide of an arrow and the layout of its mesh.

use vector_emancipation::{
    anchor, arc_degrees, arrow_length, build_arrow_mesh, build_body, generate_level, level_grid_size, playfield,
    segment_directions, slid_off, slidable, tail_position, turn_at, vertex_offset, waypoints, Anchor,
    ArrowMesh, IVec2, MeshBuilder, MeshPoint, Side, TailPosition, Turn, VertexOffset, Waypoint,
    ARROW_HALF_WIDTH, CELL_PARTS, ROUND_SEGMENTS,
};

type Point = (f32, f32);

fn v(x: i32, y: i32) -> IVec2 {
    IVec2::new(x, y)
}

fn hook() -> Vec<IVec2> {
    vec![v(1, 1), v(1, 4), v(3, 4), v(3, 2)]
}

fn add(a: Point, b: Point, k: f32) -> Point {
    (a.0 + b.0 * k, a.1 + b.1 * k)
}

fn angle(from: Point, to: Point) -> f32 {
    (to.1 - from.1).atan2(to.0 - from.0)
}

/// The point `t` of the way along an arc.
fn arc(center: Point, start: Point, end: Point, radius: f32, ccw: bool, t: f32) -> Point {
    let full = std::f32::consts::TAU;
    let first = angle(center, start);
    let d = angle(center, end) - first;
    let span = match ccw {
        true if d <= 0.0 => d + full,
        false if d >= 0.0 => d - full,
        _ => d,
    };
    let a = first + span * t;
    (center.0 + a.cos() * radius, center.1 + a.sin() * radius)
}

/// The vertices of a mesh in pixels, from its symbolic layout.
fn coordinates(path: &Vec<IVec2>, cell: i32, t: f32, mesh: &ArrowMesh) -> Vec<Point> {
    let size = cell as f32;
    let at: Vec<Point> = mesh
        .waypoints
        .iter()
        .map(|&w| {
            let a = anchor(path, mesh.tail, w);
            let base = (a.vertex.x as f32 * size, a.vertex.y as f32 * size);
            let d = (a.direction.x as f32, a.direction.y as f32);
            add(base, d, t - a.passed as f32)
        })
        .collect();
    let n = mesh.directions.len();
    let place = |p: MeshPoint| {
        let o = vertex_offset(p, n).expect("not part-way along an arc");
        let d = (mesh.directions[o.segment].x as f32, mesh.directions[o.segment].y as f32);
        let part = |k: i32| size * (k as f32 / CELL_PARTS as f32);
        add(add(at[o.waypoint], d, part(o.along)), (-d.1, d.0), part(o.across))
    };
    let mut list = Vec::new();
    for &p in &mesh.builder.positions {
        list.push(match p {
            MeshPoint::Arc { waypoint, start, end, ccw, step } => {
                let s = place(MeshPoint::Rim { waypoint, side: start });
                let e = place(MeshPoint::Rim { waypoint, side: end });
                let radius = size * (ARROW_HALF_WIDTH as f32 / CELL_PARTS as f32);
                let part = step as f32 / ROUND_SEGMENTS as f32;
                arc(at[waypoint], s, e, radius, ccw, part)
            }
            other => place(other),
        });
    }
    list
}

/// Vertices and indices of an arrow's mesh, computed in pixels throughout.
fn drawn(path: &Vec<IVec2>, cell: f32, t: f32) -> (Vec<Point>, Vec<u32>) {
    let (hw, head_len, head_hw) = (cell * 0.14, cell * 0.55, cell * 0.36);
    let base: Vec<Point> = path.iter().map(|p| (p.x as f32 * cell, p.y as f32 * cell)).collect();
    let segs: Vec<(Point, f32)> = base
        .windows(2)
        .map(|w| {
            let d = (w[1].0 - w[0].0, w[1].1 - w[0].1);
            let length = (d.0 * d.0 + d.1 * d.1).sqrt();
            ((d.0 / length, d.1 / length), length)
        })
        .collect();
    let total: f32 = segs.iter().map(|s| s.1).sum();
    let last = base.len() - 1;
    let last_dir = segs[last - 1].0;
    let head = add(base[last], last_dir, t);
    let (tail_seg, tail) = if t >= total {
        (segs.len(), add(base[last], last_dir, t - total))
    } else {
        let mut rem = t;
        let mut i = 0;
        while rem >= segs[i].1 {
            rem -= segs[i].1;
            i += 1;
        }
        (i, add(base[i], segs[i].0, rem))
    };
    let mut wps = vec![tail];
    for i in (tail_seg + 1)..last {
        wps.push(base[i]);
    }
    wps.push(head);
    let n = wps.len();
    let dirs: Vec<Point> = wps
        .windows(2)
        .map(|w| {
            let d = (w[1].0 - w[0].0, w[1].1 - w[0].1);
            let length = (d.0 * d.0 + d.1 * d.1).sqrt();
            (d.0 / length, d.1 / length)
        })
        .collect();
    let perps: Vec<Point> = dirs.iter().map(|d| (-d.1, d.0)).collect();
    let mut points: Vec<Point> = Vec::new();
    let mut indices: Vec<u32> = Vec::new();
    let fan = |points: &mut Vec<Point>, indices: &mut Vec<u32>, c: Point, s: Point, e: Point, ccw| {
        let center = points.len() as u32 - 1;
        points.push(s);
        for i in 1..=5u32 {
            points.push(arc(c, s, e, hw, ccw, i as f32 / 5.0));
            let now = points.len() as u32 - 1;
            if ccw {
                indices.extend([center, now - 1, now]);
            } else {
                indices.extend([center, now, now - 1]);
            }
        }
    };
    points.push(wps[0]);
    let (s, e) = (add(wps[0], perps[0], hw), add(wps[0], perps[0], -hw));
    fan(&mut points, &mut indices, wps[0], s, e, true);
    for i in 0..n - 1 {
        let p = perps[i];
        let b = if i == n - 2 { add(wps[n - 1], dirs[i], -head_len) } else { wps[i + 1] };
        let k = points.len() as u32;
        points.extend([add(wps[i], p, hw), add(wps[i], p, -hw), add(b, p, -hw), add(b, p, hw)]);
        indices.extend([k, k + 1, k + 2, k, k + 2, k + 3]);
        if i < n - 2 {
            let (c, q) = (wps[i + 1], perps[i + 1]);
            let cross = dirs[i].0 * dirs[i + 1].1 - dirs[i].1 * dirs[i + 1].0;
            points.push(c);
            if cross > 1e-4 {
                fan(&mut points, &mut indices, c, add(c, p, -hw), add(c, q, -hw), true);
            } else if cross < -1e-4 {
                fan(&mut points, &mut indices, c, add(c, p, hw), add(c, q, hw), false);
            }
        }
    }
    let rear = add(wps[n - 1], dirs[n - 2], -head_len);
    let k = points.len() as u32;
    points.push(add(wps[n - 1], dirs[n - 2], head_len * 0.25));
    points.extend([add(rear, perps[n - 2], head_hw), add(rear, perps[n - 2], -head_hw)]);
    indices.extend([k, k + 1, k + 2]);
    (points, indices)
}

/// Twice the signed area of a triangle.
fn area(a: Point, b: Point, c: Point) -> f32 {
    (b.0 - a.0) * (c.1 - a.1) - (b.1 - a.1) * (c.0 - a.0)
}

fn assert_close(a: &Vec<Point>, b: &Vec<Point>) {
    assert_eq!(a.len(), b.len());
    for (p, q) in a.iter().zip(b) {
        assert!((p.0 - q.0).abs() < 0.01 && (p.1 - q.1).abs() < 0.01, "{:?} and {:?}", p, q);
    }
}

#[test]
fn lengths_of_arrows() {
    assert_eq!(arrow_length(&hook()), 7);
    assert_eq!(arrow_length(&vec![v(4, 4), v(0, 4)]), 4);
    assert_eq!(arrow_length(&vec![v(0, 0), v(0, 1), v(0, 0)]), 2);
    assert_eq!(arrow_length(&vec![v(0, 0), v(0, 0), v(3, 0)]), 3);
    assert_eq!(arrow_length(&vec![v(5, 5)]), 0);
    assert_eq!(arrow_length(&Vec::new()), 0);
}

#[test]
fn arrows_vanish_past_the_window() {
    let short = vec![v(0, 0), v(0, 2)];
    assert!(!slid_off(&short, 10, 0));
    assert!(!slid_off(&short, 10, 660));
    assert!(slid_off(&short, 10, 661));
    assert!(slid_off(&short, 10, i32::MAX));
    assert!(!slid_off(&hook(), 53, 7 * 53 + 640));
    assert!(slid_off(&hook(), 53, 7 * 53 + 641));
    assert!(!slid_off(&vec![v(5, 5)], 10, 640));
    assert!(slid_off(&Vec::new(), 10, 641));
}

#[test]
fn a_tail_that_is_gone_is_out_of_sight() {
    for level in 0..40 {
        let field = playfield(level);
        for arrow in &generate_level(field.cols, field.rows, level) {
            let n = arrow.vertices.len();
            let head = arrow.vertices[n - 1];
            let d = segment_directions(&arrow.vertices, n - 1)[0];
            let x = field.origin_x + head.x * field.cell_size + d.x * 641;
            let y = field.origin_y + head.y * field.cell_size + d.y * 641;
            assert!(x.abs() > 320 || y.abs() > 320);
        }
    }
}

#[test]
fn tails_advance_along_the_path() {
    let at = |offset: i32| {
        let t = tail_position(&hook(), 10, offset);
        (t.segment, t.passed)
    };
    assert_eq!(at(0), (0, 0));
    assert_eq!(at(29), (0, 0));
    assert_eq!(at(30), (1, 30));
    assert_eq!(at(49), (1, 30));
    assert_eq!(at(50), (2, 50));
    assert_eq!(at(69), (2, 50));
    assert_eq!(at(70), (3, 70));
    assert_eq!(at(5_000), (3, 70));
    assert_eq!(at(i32::MAX), (3, 70));
    assert_eq!(at(-1), (0, 0));
    assert_eq!(at(i32::MIN), (0, 0));
}

#[test]
fn fractional_offsets_fall_on_the_segment_of_their_whole_part() {
    let ends = [30, 50, 70];
    for num in 0..800 {
        let den = 8;
        let tail = tail_position(&hook(), 10, num / den);
        assert!(tail.passed * den <= num);
        if tail.segment < 3 {
            assert!(num < ends[tail.segment] * den);
        }
        let mesh = build_arrow_mesh(&hook(), 10, num / den);
        assert_eq!(mesh.tail, tail);
    }
}

#[test]
fn fractional_offsets_are_gone_when_rounded_up() {
    let short = vec![v(0, 0), v(0, 2)];
    let den = 4;
    for num in (655 * den)..(665 * den) {
        let up = (num + den - 1) / den;
        assert_eq!(slid_off(&short, 10, up), num > 660 * den);
    }
}

#[test]
fn slidable_arrows() {
    assert!(slidable(&hook(), 10));
    assert!(slidable(&vec![v(0, 0), v(0, 1)], 1));
    assert!(!slidable(&hook(), 0));
    assert!(!slidable(&hook(), -3));
    assert!(!slidable(&Vec::new(), 10));
    assert!(!slidable(&vec![v(1, 1)], 10));
    assert!(!slidable(&vec![v(0, 0), v(1, 1)], 10));
    assert!(!slidable(&vec![v(0, 0), v(0, 0), v(0, 1)], 10));
    assert!(slidable(&vec![v(0, 0), v(i32::MAX - 640, 0)], 1));
    assert!(!slidable(&vec![v(0, 0), v(i32::MAX - 639, 0)], 1));
    assert!(!slidable(&vec![v(0, 0), v(1_000_000_000, 0), v(1_000_000_000, 1_000_000_000)], 2));
    assert!(!slidable(&vec![v(i32::MIN, 0), v(i32::MAX, 0)], 1));
    for level in 0..20 {
        let field = playfield(level);
        for arrow in &generate_level(field.cols, field.rows, level) {
            assert!(slidable(&arrow.vertices, field.cell_size));
        }
    }
}

#[test]
fn waypoints_of_a_body() {
    assert_eq!(
        waypoints(4, 0),
        vec![Waypoint::Tail, Waypoint::Vertex(1), Waypoint::Vertex(2), Waypoint::Head]
    );
    assert_eq!(waypoints(4, 1), vec![Waypoint::Tail, Waypoint::Vertex(2), Waypoint::Head]);
    assert_eq!(waypoints(4, 2), vec![Waypoint::Tail, Waypoint::Head]);
    assert_eq!(waypoints(4, 3), vec![Waypoint::Tail, Waypoint::Head]);
    assert_eq!(waypoints(2, 0), vec![Waypoint::Tail, Waypoint::Head]);
}

#[test]
fn directions_of_a_body() {
    let (up, right, down) = (v(0, 1), v(1, 0), v(0, -1));
    assert_eq!(segment_directions(&hook(), 0), vec![up, right, down]);
    assert_eq!(segment_directions(&hook(), 1), vec![right, down]);
    assert_eq!(segment_directions(&hook(), 2), vec![down]);
    assert_eq!(segment_directions(&hook(), 3), vec![down]);
}

#[test]
fn anchors_of_waypoints() {
    let tail = TailPosition { segment: 1, passed: 30 };
    assert_eq!(
        anchor(&hook(), tail, Waypoint::Tail),
        Anchor { vertex: v(1, 4), direction: v(1, 0), passed: 30 }
    );
    assert_eq!(
        anchor(&hook(), tail, Waypoint::Vertex(2)),
        Anchor { vertex: v(3, 4), direction: v(0, 0), passed: 0 }
    );
    assert_eq!(
        anchor(&hook(), tail, Waypoint::Head),
        Anchor { vertex: v(3, 2), direction: v(0, -1), passed: 0 }
    );
    let past = TailPosition { segment: 3, passed: 70 };
    assert_eq!(
        anchor(&hook(), past, Waypoint::Tail),
        Anchor { vertex: v(3, 2), direction: v(0, -1), passed: 70 }
    );
}

#[test]
fn body_length_stays_constant() {
    let path = hook();
    let cell = 10;
    for offset in 0..200 {
        let mesh = build_arrow_mesh(&path, cell, offset);
        let points: Vec<(i32, i32)> = mesh
            .waypoints
            .iter()
            .map(|&w| {
                let a = anchor(&path, mesh.tail, w);
                let moved = offset - a.passed;
                (
                    a.vertex.x * cell + a.direction.x * moved,
                    a.vertex.y * cell + a.direction.y * moved,
                )
            })
            .collect();
        let mut length = 0;
        for (pair, d) in points.windows(2).zip(&mesh.directions) {
            let (dx, dy) = (pair[1].0 - pair[0].0, pair[1].1 - pair[0].1);
            assert_eq!((dx.signum(), dy.signum()), (d.x, d.y));
            length += dx.abs() + dy.abs();
        }
        assert_eq!(length, 70);
    }
}

#[test]
fn arrow_at_rest_runs_through_its_vertices() {
    let mesh = build_arrow_mesh(&hook(), 10, 0);
    assert_eq!(mesh.tail, TailPosition { segment: 0, passed: 0 });
    let ends: Vec<IVec2> = mesh
        .waypoints
        .iter()
        .map(|&w| anchor(&hook(), mesh.tail, w).vertex)
        .collect();
    assert_eq!(ends, hook());
}

#[test]
fn negative_offsets_leave_the_arrow_at_rest() {
    let rest = build_arrow_mesh(&hook(), 10, 0);
    let early = build_arrow_mesh(&hook(), 10, -25);
    assert_eq!(early.tail, rest.tail);
    assert_eq!(early.waypoints, rest.waypoints);
    assert_eq!(early.directions, rest.directions);
    assert_eq!(early.builder.positions, rest.builder.positions);
    assert_eq!(early.builder.indices, rest.builder.indices);
}

#[test]
fn angles_along_arcs() {
    let (up, right) = (v(0, 1), v(1, 0));
    let side = |segment: usize, left: bool| Side { segment, left };
    let cap = |step: usize| MeshPoint::Arc {
        waypoint: 0,
        start: side(0, true),
        end: side(0, false),
        ccw: true,
        step,
    };
    // Heading east, the cap runs from north by way of west to south.
    let degrees: Vec<Option<i32>> = (1..=5).map(|k| arc_degrees(cap(k), &vec![right])).collect();
    assert_eq!(degrees, vec![Some(126), Some(162), Some(198), Some(234), Some(270)]);
    // From north to east is a right bend: clockwise from west to north.
    let join = MeshPoint::Arc {
        waypoint: 1,
        start: side(0, true),
        end: side(1, true),
        ccw: false,
        step: 5,
    };
    assert_eq!(arc_degrees(join, &vec![up, right]), Some(90));
    // From east to north is a left bend: counter-clockwise from south to east.
    let join = MeshPoint::Arc {
        waypoint: 1,
        start: side(0, false),
        end: side(1, false),
        ccw: true,
        step: 1,
    };
    assert_eq!(arc_degrees(join, &vec![right, up]), Some(288));
    assert_eq!(arc_degrees(MeshPoint::Tip, &vec![up]), None);
    assert_eq!(arc_degrees(MeshPoint::Rim { waypoint: 0, side: side(0, true) }, &vec![up]), None);
}

#[test]
fn angles_agree_with_the_ends_of_arcs() {
    for level in 0..4 {
        let field = playfield(level);
        for arrow in &generate_level(field.cols, field.rows, level) {
            let mesh = build_arrow_mesh(&arrow.vertices, 20, 0);
            let at = coordinates(&arrow.vertices, 20, 0.0, &mesh);
            for (point, place) in mesh.builder.positions.iter().zip(&at) {
                if let MeshPoint::Arc { waypoint, .. } = *point {
                    let k = arc_degrees(*point, &mesh.directions).expect("on an arc");
                    let a = anchor(&arrow.vertices, mesh.tail, mesh.waypoints[waypoint]);
                    let radians = (k as f32).to_radians();
                    let x = a.vertex.x as f32 * 20.0 + radians.cos() * 2.8;
                    let y = a.vertex.y as f32 * 20.0 + radians.sin() * 2.8;
                    assert!((x - place.0).abs() < 0.01 && (y - place.1).abs() < 0.01);
                }
            }
        }
    }
}

#[test]
fn sizes_of_meshes_at_rest() {
    for level in 0..6 {
        let field = playfield(level);
        for arrow in &generate_level(field.cols, field.rows, level) {
            let nb = arrow.vertices.len();
            let mesh = build_arrow_mesh(&arrow.vertices, field.cell_size, 0);
            let turns = nb - 2;
            assert_eq!(mesh.builder.positions.len(), 5 * nb + 4 + 6 * turns);
            assert_eq!(mesh.builder.indices.len(), 3 * (2 * nb + 4 + 5 * turns));
        }
    }
    // A vertex on a straight line adds a quad, and no join.
    let mesh = build_arrow_mesh(&vec![v(0, 0), v(2, 0), v(3, 0)], 10, 0);
    assert_eq!(mesh.builder.positions.len(), 19);
    assert_eq!(mesh.builder.indices.len(), 30);
}

#[test]
fn bends_of_a_path() {
    assert_eq!(turn_at(v(0, 0), v(3, 0), v(3, 1)), Turn::Left);
    assert_eq!(turn_at(v(0, 0), v(3, 0), v(3, -1)), Turn::Right);
    assert_eq!(turn_at(v(0, 0), v(3, 0), v(4, 0)), Turn::Straight);
    assert_eq!(turn_at(v(0, 0), v(3, 0), v(1, 0)), Turn::Straight);
    assert_eq!(turn_at(v(0, 5), v(0, 0), v(1, 0)), Turn::Left);
    assert_eq!(turn_at(v(i32::MIN, 0), v(i32::MAX, 0), v(i32::MAX, i32::MIN)), Turn::Right);
}

#[test]
fn builder_collects_triangles() {
    let mut mb: MeshBuilder<char> = MeshBuilder::new();
    assert_eq!(mb.push('a'), 0);
    assert_eq!(mb.push('b'), 1);
    assert_eq!(mb.push('c'), 2);
    assert_eq!(mb.push('d'), 3);
    mb.tri(0, 1, 2);
    mb.quad(3, 2, 1, 0);
    assert_eq!(mb.positions, vec!['a', 'b', 'c', 'd']);
    assert_eq!(mb.indices, vec![0, 1, 2, 3, 2, 1, 3, 1, 0]);
}

#[test]
fn fans_wind_as_told() {
    let rim = vec!['p', 'q', 'r'];
    let mut mb: MeshBuilder<char> = MeshBuilder::new();
    let c = mb.push('c');
    mb.arc_fan(c, &rim, true);
    assert_eq!(mb.positions, vec!['c', 'p', 'q', 'r']);
    assert_eq!(mb.indices, vec![0, 1, 2, 0, 2, 3]);

    let mut mb: MeshBuilder<char> = MeshBuilder::new();
    mb.push('x');
    let c = mb.push('c');
    mb.arc_fan(c, &rim, false);
    assert_eq!(mb.indices, vec![1, 3, 2, 1, 4, 3]);
}

#[test]
fn mesh_of_a_straight_body() {
    let mb = build_body(&Vec::new());
    let (left, right) = (Side { segment: 0, left: true }, Side { segment: 0, left: false });
    let step = |step: usize| MeshPoint::Arc { waypoint: 0, start: left, end: right, ccw: true, step };
    assert_eq!(
        mb.positions,
        vec![
            MeshPoint::Center { waypoint: 0 },
            MeshPoint::Rim { waypoint: 0, side: left },
            step(1),
            step(2),
            step(3),
            step(4),
            step(5),
            MeshPoint::Rim { waypoint: 0, side: left },
            MeshPoint::Rim { waypoint: 0, side: right },
            MeshPoint::Neck { left: false },
            MeshPoint::Neck { left: true },
            MeshPoint::Tip,
            MeshPoint::Barb { left: true },
            MeshPoint::Barb { left: false },
        ]
    );
    assert_eq!(
        mb.indices,
        vec![
            0, 1, 2, 0, 2, 3, 0, 3, 4, 0, 4, 5, 0, 5, 6, 7, 8, 9, 7, 9, 10, 11, 12, 13
        ]
    );
}

#[test]
fn joins_fill_the_outer_side() {
    let mb = build_body(&vec![Turn::Left, Turn::Right, Turn::Straight]);
    assert_eq!(mb.positions.len(), 7 + 4 * 4 + 7 + 7 + 1 + 3);
    assert_eq!(mb.indices.len(), 15 + 4 * 6 + 15 + 15 + 3);
    let right = |segment: usize| Side { segment, left: false };
    let left = |segment: usize| Side { segment, left: true };
    assert_eq!(mb.positions[11], MeshPoint::Center { waypoint: 1 });
    assert_eq!(mb.positions[12], MeshPoint::Rim { waypoint: 1, side: right(0) });
    assert_eq!(
        mb.positions[17],
        MeshPoint::Arc { waypoint: 1, start: right(0), end: right(1), ccw: true, step: 5 }
    );
    assert_eq!(mb.indices[21..24], [11, 12, 13]);
    assert_eq!(mb.positions[22], MeshPoint::Center { waypoint: 2 });
    assert_eq!(
        mb.positions[24],
        MeshPoint::Arc { waypoint: 2, start: left(1), end: left(2), ccw: false, step: 1 }
    );
    assert_eq!(mb.indices[42..45], [22, 24, 23]);
    assert_eq!(mb.positions[33], MeshPoint::Center { waypoint: 3 });
    assert_eq!(mb.positions[34], MeshPoint::Rim { waypoint: 3, side: left(3) });
}

#[test]
fn places_of_vertices() {
    let side = Side { segment: 1, left: false };
    assert_eq!(
        vertex_offset(MeshPoint::Rim { waypoint: 2, side }, 3),
        Some(VertexOffset { waypoint: 2, segment: 1, along: 0, across: -1_400 })
    );
    assert_eq!(
        vertex_offset(MeshPoint::Center { waypoint: 2 }, 3),
        Some(VertexOffset { waypoint: 2, segment: 0, along: 0, across: 0 })
    );
    assert_eq!(
        vertex_offset(MeshPoint::Neck { left: true }, 3),
        Some(VertexOffset { waypoint: 3, segment: 2, along: -5_500, across: 1_400 })
    );
    assert_eq!(
        vertex_offset(MeshPoint::Tip, 3),
        Some(VertexOffset { waypoint: 3, segment: 2, along: 1_375, across: 0 })
    );
    assert_eq!(
        vertex_offset(MeshPoint::Barb { left: false }, 3),
        Some(VertexOffset { waypoint: 3, segment: 2, along: -5_500, across: -3_600 })
    );
    let arc = MeshPoint::Arc { waypoint: 1, start: side, end: side, ccw: true, step: 2 };
    assert_eq!(vertex_offset(arc, 3), None);
}

#[test]
fn meshes_agree_with_pixel_computation() {
    let offsets = [0.0f32, 0.5, 1.0, 9.75, 10.0, 29.9, 30.0, 30.25, 49.5, 50.0, 69.5, 70.0, 300.0];
    for t in offsets {
        let mesh = build_arrow_mesh(&hook(), 10, t.floor() as i32);
        let (points, indices) = drawn(&hook(), 10.0, t);
        assert_eq!(mesh.builder.indices, indices);
        assert_close(&coordinates(&hook(), 10, t, &mesh), &points);
    }
}

#[test]
fn meshes_of_levels_agree_with_pixel_computation() {
    for level in 0..12 {
        let field = playfield(level);
        for arrow in &generate_level(field.cols, field.rows, level) {
            for t in [0.0f32, 1.0, 17.25, 53.0, 106.5, 212.0, 700.75] {
                let mesh = build_arrow_mesh(&arrow.vertices, field.cell_size, t.floor() as i32);
                let (points, indices) = drawn(&arrow.vertices, field.cell_size as f32, t);
                assert_eq!(mesh.builder.indices, indices);
                let placed = coordinates(&arrow.vertices, field.cell_size, t, &mesh);
                assert_close(&placed, &points);
            }
        }
    }
}

#[test]
fn past_the_end_the_mesh_only_moves_ahead() {
    let at = |offset: i32| {
        let mesh = build_arrow_mesh(&hook(), 10, offset);
        let points = coordinates(&hook(), 10, offset as f32, &mesh);
        (mesh, points)
    };
    let (first, points) = at(70);
    assert_eq!(points.len(), 14);
    assert_eq!(first.builder.indices.len(), 24);
    // The heading is downward; the path is seventy pixels long.
    assert!((points[11].0 - points[0].0).abs() < 0.01);
    assert!((points[11].1 - points[0].1 + 70.0 + 1.375).abs() < 0.01);
    for offset in [71, 100, 345, 710] {
        let (later, moved) = at(offset);
        assert_eq!(later.tail, first.tail);
        assert_eq!(later.waypoints, first.waypoints);
        assert_eq!(later.directions, first.directions);
        assert_eq!(later.builder.positions, first.builder.positions);
        assert_eq!(later.builder.indices, first.builder.indices);
        let shifted = points.iter().map(|p| (p.0, p.1 - (offset - 70) as f32)).collect();
        assert_close(&moved, &shifted);
    }
}

#[test]
fn triangles_wind_counter_clockwise() {
    for level in 0..6 {
        let (cols, rows) = level_grid_size(level);
        for arrow in &generate_level(cols, rows, level) {
            for offset in [0, 1, 40, 100, 333] {
                let mesh = build_arrow_mesh(&arrow.vertices, 20, offset);
                let at = coordinates(&arrow.vertices, 20, offset as f32, &mesh);
                assert_eq!(mesh.builder.indices.len() % 3, 0);
                for t in mesh.builder.indices.chunks(3) {
                    let (a, b, c) = (at[t[0] as usize], at[t[1] as usize], at[t[2] as usize]);
                    assert!(area(a, b, c) > 0.0);
                }
            }
        }
    }
}
