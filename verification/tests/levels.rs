//! The level generator and what every level guarantees.

use vector_emancipation::{
    cell_index, corridor_clear, corridor_mask, edge_outlets, generate_level, in_bounds,
    level_grid_size, try_place_arrow, ArrowSpec, IVec2, Rng,
};

fn v(x: i32, y: i32) -> IVec2 {
    IVec2::new(x, y)
}

fn path(points: &[(i32, i32)]) -> Vec<IVec2> {
    points.iter().map(|&(x, y)| v(x, y)).collect()
}

/// Asserts the vertices and the hue of an arrow.
fn assert_arrow(arrow: &ArrowSpec, points: &[(i32, i32)], hue: u32) {
    assert_eq!(arrow.vertices, path(points));
    assert_eq!(arrow.hue, hue);
}

fn heading(arrow: &ArrowSpec) -> IVec2 {
    let n = arrow.vertices.len();
    let d = arrow.vertices[n - 1].minus(arrow.vertices[n - 2]);
    v(d.x.signum(), d.y.signum())
}

/// The cells of an arrow, each once, from tail to head.
fn body(arrow: &ArrowSpec) -> Vec<IVec2> {
    let mut list = vec![arrow.vertices[0]];
    for pair in arrow.vertices.windows(2) {
        let step = v((pair[1].x - pair[0].x).signum(), (pair[1].y - pair[0].y).signum());
        let mut at = pair[0];
        while at != pair[1] {
            at = at.plus(step);
            list.push(at);
        }
    }
    list
}

/// The cells ahead of an arrow, up to the edge of the board.
fn way_out(arrow: &ArrowSpec, cols: i32, rows: i32) -> Vec<IVec2> {
    let d = heading(arrow);
    let mut list = Vec::new();
    let mut at = arrow.vertices[arrow.vertices.len() - 1].plus(d);
    while in_bounds(at, cols, rows) {
        list.push(at);
        at = at.plus(d);
    }
    list
}

/// Checks the shape of every arrow, and that the level can be played in order.
fn assert_playable(list: &Vec<ArrowSpec>, cols: i32, rows: i32) {
    let mut standing = vec![false; (cols * rows) as usize];
    let mut exits: Vec<(IVec2, IVec2)> = Vec::new();
    for arrow in list {
        assert!(arrow.vertices.len() >= 2 && arrow.vertices.len() <= 5);
        assert!(arrow.hue < 1 << 24);
        for pair in arrow.vertices.windows(2) {
            let d = pair[1].minus(pair[0]);
            let length = d.x.abs() + d.y.abs();
            assert!((d.x == 0) != (d.y == 0) && length >= 1 && length <= 5);
        }
        for c in body(arrow) {
            assert!(in_bounds(c, cols, rows));
            let slot = cell_index(c, cols);
            assert!(!standing[slot], "two bodies, or one twice, on a cell");
            standing[slot] = true;
        }
        let out = way_out(arrow, cols, rows);
        assert!(out.len() >= 1 && out.len() <= 4);
        exits.push((out[out.len() - 1], heading(arrow)));
    }
    for i in 0..exits.len() {
        for j in 0..i {
            assert_ne!(exits[i], exits[j]);
        }
    }
    for arrow in list {
        for c in way_out(arrow, cols, rows) {
            assert!(!standing[cell_index(c, cols)], "the way out is blocked");
        }
        for c in body(arrow) {
            standing[cell_index(c, cols)] = false;
        }
    }
    assert!(standing.iter().all(|&s| !s));
}

#[test]
fn level_six_by_six() {
    let list = generate_level(6, 6, 0);
    assert_eq!(list.len(), 8);
    assert_arrow(&list[0], &[(0, 2), (0, 1)], 5045072);
    assert_arrow(&list[1], &[(2, 0), (4, 0)], 9656708);
    assert_arrow(&list[2], &[(5, 3), (5, 4)], 10830895);
    assert_arrow(&list[3], &[(0, 5), (1, 5)], 14493728);
    assert_arrow(&list[4], &[(5, 2), (1, 2)], 3648840);
    assert_arrow(&list[5], &[(1, 0), (1, 1), (2, 1)], 5752605);
    assert_arrow(&list[6], &[(0, 3), (4, 3)], 1291559);
    assert_arrow(&list[7], &[(0, 4), (3, 4)], 14495113);
}

#[test]
fn level_five_by_three() {
    let list = generate_level(5, 3, 9);
    assert_eq!(list.len(), 3);
    assert_arrow(&list[0], &[(3, 2), (3, 1), (2, 1)], 8454572);
    assert_arrow(&list[1], &[(4, 0), (1, 0)], 8859211);
    assert_arrow(&list[2], &[(0, 2), (1, 2)], 1068885);
}

#[test]
fn level_of_one_column() {
    let list = generate_level(1, 8, 4);
    assert_eq!(list.len(), 1);
    assert_arrow(&list[0], &[(0, 0), (0, 3)], 11458232);
}

#[test]
fn boards_too_small_for_an_arrow() {
    assert!(generate_level(2, 2, 0).is_empty());
    assert!(generate_level(1, 1, 0).is_empty());
    assert!(generate_level(0, 0, 0).is_empty());
    assert!(generate_level(0, 9, 3).is_empty());
    assert!(generate_level(9, 0, 3).is_empty());
    assert!(generate_level(-4, -4, 3).is_empty());
}

#[test]
fn first_levels_of_the_game() {
    let (cols, rows) = level_grid_size(0);
    let list = generate_level(cols, rows, 0);
    assert_eq!(list.len(), 16);
    assert_arrow(&list[0], &[(3, 6), (3, 8), (6, 8)], 7014027);
    assert_arrow(&list[15], &[(3, 9), (5, 9)], 5295408);
    assert_eq!(list.iter().map(|a| a.hue).sum::<u32>(), 130581861);

    let (cols, rows) = level_grid_size(1);
    let list = generate_level(cols, rows, 1);
    assert_eq!(list.len(), 38);
    assert_arrow(&list[0], &[(15, 1), (19, 1)], 4499918);
    assert_eq!(list.iter().map(|a| a.hue).sum::<u32>(), 325910521);

    let (cols, rows) = level_grid_size(2);
    let list = generate_level(cols, rows, 2);
    assert_eq!(list.len(), 87);
    assert_eq!(list.iter().map(|a| a.hue).sum::<u32>(), 771521581);
}

#[test]
fn generation_is_deterministic() {
    assert_eq!(generate_level(10, 12, 3).len(), 23);
    let first = generate_level(10, 12, 3);
    let second = generate_level(10, 12, 3);
    for (a, b) in first.iter().zip(&second) {
        assert_eq!(a.vertices, b.vertices);
        assert_eq!(a.hue, b.hue);
    }
    let other = generate_level(10, 12, 4);
    assert!(first.iter().zip(&other).any(|(a, b)| a.vertices != b.vertices));
}

#[test]
fn levels_can_be_solved_in_order() {
    for seed in 0..60 {
        let (cols, rows) = level_grid_size(seed);
        assert_playable(&generate_level(cols, rows, seed), cols, rows);
    }
}

#[test]
fn small_boards_can_be_solved_in_order() {
    for seed in 0..40 {
        for cols in 1..8 {
            for rows in 1..8 {
                let list = generate_level(cols, rows, seed);
                assert_playable(&list, cols, rows);
                assert_eq!(list.is_empty(), cols <= 2 && rows <= 2);
                assert!(list.len() <= edge_outlets(cols, rows).len());
            }
        }
    }
}

#[test]
fn arrows_of_levels_are_short() {
    for seed in 0..30 {
        let (cols, rows) = level_grid_size(seed);
        for arrow in &generate_level(cols, rows, seed) {
            let length = body(arrow).len() - 1;
            assert!(length >= 1 && length <= 20);
        }
    }
}

#[test]
fn arrows_turn_at_every_corner() {
    let mut corners = 0;
    for seed in 0..30 {
        let (cols, rows) = level_grid_size(seed);
        for arrow in &generate_level(cols, rows, seed) {
            for w in arrow.vertices.windows(3) {
                let (d, e) = (w[1].minus(w[0]), w[2].minus(w[1]));
                assert_eq!(d.x * e.x + d.y * e.y, 0);
                corners += 1;
            }
        }
    }
    assert!(corners > 0);
}

#[test]
fn no_arrow_can_be_added_to_a_level() {
    for seed in 0..20 {
        let (cols, rows) = (4 + seed as i32 % 9, 3 + seed as i32 % 7);
        let list = generate_level(cols, rows, seed);
        let mut standing = vec![false; (cols * rows) as usize];
        let mut used: Vec<(IVec2, IVec2)> = Vec::new();
        for arrow in &list {
            for c in body(arrow) {
                standing[cell_index(c, cols)] = true;
            }
            let out = way_out(arrow, cols, rows);
            used.push((out[out.len() - 1], heading(arrow).negated()));
        }
        for (edge_cell, inward) in edge_outlets(cols, rows) {
            if used.contains(&(edge_cell, inward)) {
                continue;
            }
            for depth in 1..=4 {
                let head = edge_cell.plus(inward.times(depth));
                let behind = head.plus(inward);
                let open = |c: IVec2| in_bounds(c, cols, rows) && !standing[cell_index(c, cols)];
                let free = open(head)
                    && open(behind)
                    && corridor_clear(cols, rows, &standing, head, inward.negated());
                assert!(!free);
            }
        }
    }
}

#[test]
fn outlets_of_a_board() {
    let list = edge_outlets(3, 2);
    let expected = vec![
        (v(0, 0), v(0, 1)),
        (v(0, 1), v(0, -1)),
        (v(1, 0), v(0, 1)),
        (v(1, 1), v(0, -1)),
        (v(2, 0), v(0, 1)),
        (v(2, 1), v(0, -1)),
        (v(0, 0), v(1, 0)),
        (v(2, 0), v(-1, 0)),
        (v(0, 1), v(1, 0)),
        (v(2, 1), v(-1, 0)),
    ];
    assert_eq!(list, expected);
    assert!(edge_outlets(0, 0).is_empty());
    assert!(edge_outlets(-5, -2).is_empty());
}

#[test]
fn corridors_reach_from_the_head_to_the_edge() {
    let mask = corridor_mask(5, 4, v(2, 1), v(1, 0));
    let marked: Vec<usize> = (0..20).filter(|&i| mask[i]).collect();
    assert_eq!(marked, vec![8, 9]);
    let up = corridor_mask(5, 4, v(2, 1), v(0, 1));
    let marked: Vec<usize> = (0..20).filter(|&i| up[i]).collect();
    assert_eq!(marked, vec![12, 17]);
    assert!(corridor_mask(5, 4, v(0, 1), v(-1, 0)).iter().all(|&m| !m));
}

#[test]
fn a_corridor_is_blocked_by_any_cell_ahead() {
    let mut occupied = vec![false; 20];
    occupied[cell_index(v(2, 1), 5)] = true;
    occupied[cell_index(v(1, 1), 5)] = true;
    assert!(corridor_clear(5, 4, &occupied, v(2, 1), v(1, 0)));
    assert!(!corridor_clear(5, 4, &occupied, v(2, 1), v(-1, 0)));
    occupied[cell_index(v(4, 1), 5)] = true;
    assert!(!corridor_clear(5, 4, &occupied, v(2, 1), v(1, 0)));
    assert!(corridor_clear(5, 4, &occupied, v(4, 1), v(1, 0)));
}

#[test]
fn a_tail_is_laid_behind_a_head() {
    let mut corridor = vec![false; 64];
    corridor[cell_index(v(3, 0), 8)] = true;
    let free = vec![false; 64];
    let mut rng = Rng::new(5);
    let placed = try_place_arrow(8, 8, &free, &corridor, v(3, 1), v(0, -1), &mut rng);
    assert_eq!(placed, Some(path(&[(7, 2), (3, 2), (3, 1)])));
    assert_eq!(rng.next_u32(), 405661792);
}

#[test]
fn a_tail_stops_in_front_of_an_occupied_cell() {
    let mut corridor = vec![false; 64];
    corridor[cell_index(v(3, 0), 8)] = true;
    let mut occupied = vec![false; 64];
    occupied[cell_index(v(3, 4), 8)] = true;
    let mut rng = Rng::new(6);
    let placed = try_place_arrow(8, 8, &occupied, &corridor, v(3, 1), v(0, -1), &mut rng);
    assert_eq!(placed, Some(path(&[(3, 3), (3, 1)])));
    assert_eq!(rng.next_u32(), 2197084643);
}

#[test]
fn no_arrow_without_room_for_a_tail() {
    let corridor = vec![false; 64];
    let mut occupied = vec![false; 64];
    occupied[cell_index(v(3, 2), 8)] = true;
    let mut rng = Rng::new(6);
    let placed = try_place_arrow(8, 8, &occupied, &corridor, v(3, 1), v(0, -1), &mut rng);
    assert_eq!(placed, None);
    assert_eq!(rng.next_u32(), 2197084643);

    // The corridor blocks a tail as an arrow does, and so does the edge.
    let mut rng = Rng::new(6);
    assert_eq!(
        try_place_arrow(8, 8, &corridor, &occupied, v(3, 1), v(0, -1), &mut rng),
        None
    );
    assert_eq!(
        try_place_arrow(8, 8, &corridor, &corridor, v(3, 7), v(0, -1), &mut rng),
        None
    );
}

#[test]
fn tails_never_cross_themselves() {
    let free = vec![false; 100];
    for seed in 0..500 {
        let mut rng = Rng::new(seed);
        let corridor = corridor_mask(10, 10, v(5, 4), v(1, 0));
        let placed = try_place_arrow(10, 10, &free, &corridor, v(5, 4), v(1, 0), &mut rng);
        let vertices = placed.expect("an empty board has room");
        let arrow = ArrowSpec { vertices, hue: 0 };
        assert_eq!(heading(&arrow), v(1, 0));
        let mut cells: Vec<(i32, i32)> = body(&arrow).iter().map(|c| (c.x, c.y)).collect();
        let n = cells.len();
        cells.sort();
        cells.dedup();
        assert_eq!(cells.len(), n);
        assert!(cells.iter().all(|&(x, y)| y != 4 || x <= 5));
    }
}
