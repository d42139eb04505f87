//! Grid vectors, masks, and the map from cells to arrows.

use vector_emancipation::{
    cell_index, generate_level, in_bounds, map_arrows, mark_path_occupied, mark_segment_occupied,
    turn_left, turn_right, ArrowSpec, Entity, GridMap, IVec2,
};

fn v(x: i32, y: i32) -> IVec2 {
    IVec2::new(x, y)
}

fn e(bits: u64) -> Entity {
    Entity { bits }
}

/// The cells on a straight segment, by stepping along it.
fn cells_between(a: IVec2, b: IVec2) -> Vec<IVec2> {
    let step = v((b.x - a.x).signum(), (b.y - a.y).signum());
    let mut list = vec![a];
    let mut at = a;
    while at != b {
        at = at.plus(step);
        list.push(at);
    }
    list
}

#[test]
fn vector_arithmetic() {
    assert_eq!(v(1, 2).plus(v(3, -5)), v(4, -3));
    assert_eq!(v(1, 2).minus(v(3, -5)), v(-2, 7));
    assert_eq!(v(1, -2).negated(), v(-1, 2));
    assert_eq!(v(1, -2).times(4), v(4, -8));
}

#[test]
fn turns() {
    assert_eq!(turn_left(v(1, 0)), v(0, 1));
    assert_eq!(turn_left(v(0, 1)), v(-1, 0));
    assert_eq!(turn_right(v(1, 0)), v(0, -1));
    assert_eq!(turn_right(v(0, 1)), v(1, 0));
    for d in [v(1, 0), v(-1, 0), v(0, 1), v(0, -1)] {
        assert_eq!(turn_left(turn_right(d)), d);
        assert_eq!(turn_right(turn_left(d)), d);
        assert_eq!(turn_left(turn_left(d)), d.negated());
        assert_eq!(turn_right(turn_right(d)), d.negated());
    }
}

#[test]
fn bounds_of_a_board() {
    assert!(in_bounds(v(0, 0), 4, 3));
    assert!(in_bounds(v(3, 2), 4, 3));
    assert!(!in_bounds(v(4, 2), 4, 3));
    assert!(!in_bounds(v(3, 3), 4, 3));
    assert!(!in_bounds(v(-1, 0), 4, 3));
    assert!(!in_bounds(v(0, -1), 4, 3));
    assert!(!in_bounds(v(0, 0), 0, 3));
}

#[test]
fn index_is_row_major() {
    assert_eq!(cell_index(v(0, 0), 7), 0);
    assert_eq!(cell_index(v(3, 2), 7), 17);
    assert_eq!(cell_index(v(6, 0), 7), 6);
    assert_eq!(cell_index(v(0, 1), 7), 7);
    // A negative index wraps and addresses nothing.
    assert_eq!(cell_index(v(-1, 0), 7), (-1i32) as usize);
}

#[test]
fn distinct_cells_have_distinct_slots() {
    let mut seen = vec![false; 5 * 9];
    for y in 0..9 {
        for x in 0..5 {
            let i = cell_index(v(x, y), 5);
            assert!(!seen[i]);
            seen[i] = true;
        }
    }
    assert!(seen.iter().all(|&s| s));
}

#[test]
fn segments_mark_both_ends_and_between() {
    for (a, b) in [
        (v(1, 1), v(4, 1)),
        (v(4, 1), v(1, 1)),
        (v(2, 0), v(2, 3)),
        (v(2, 3), v(2, 0)),
        (v(3, 3), v(3, 3)),
    ] {
        let mut mask = vec![false; 6 * 4];
        mask[0] = true;
        mark_segment_occupied(&mut mask, 6, a, b);
        let on = cells_between(a, b);
        for y in 0..4 {
            for x in 0..6 {
                let expected = on.contains(&v(x, y)) || (x, y) == (0, 0);
                assert_eq!(mask[cell_index(v(x, y), 6)], expected);
            }
        }
    }
}

#[test]
fn skew_segment_follows_the_row_of_its_start() {
    let mut mask = vec![false; 5 * 5];
    mark_segment_occupied(&mut mask, 5, v(1, 2), v(3, 4));
    let marked: Vec<usize> = (0..25).filter(|&i| mask[i]).collect();
    assert_eq!(marked, vec![11, 12, 13]);
}

#[test]
fn paths_mark_all_their_segments() {
    let path = vec![v(0, 0), v(0, 2), v(3, 2), v(3, 1)];
    let mut mask = vec![false; 4 * 4];
    mark_path_occupied(&mut mask, 4, 4, &path);
    let marked: Vec<usize> = (0..16).filter(|&i| mask[i]).collect();
    assert_eq!(marked, vec![0, 4, 7, 8, 9, 10, 11]);

    let mut untouched = vec![false; 16];
    mark_path_occupied(&mut untouched, 4, 4, &vec![v(1, 1)]);
    mark_path_occupied(&mut untouched, 4, 4, &Vec::new());
    assert!(untouched.iter().all(|&m| !m));
}

#[test]
fn map_starts_empty() {
    let map = GridMap::new(3, 2);
    for row in -1..3 {
        for col in -1..4 {
            assert_eq!(map.get(col, row), None);
        }
    }
    let none = GridMap::new(0, 7);
    assert_eq!(none.get(0, 0), None);
    // Two negative dimensions have a positive product, and no cells.
    let odd = GridMap::new(-2, -3);
    assert_eq!(odd.get(0, 0), None);
    assert_eq!(odd.get(-1, -1), None);
}

#[test]
fn reads_give_back_writes() {
    let mut map = GridMap::new(3, 2);
    map.set(2, 1, Some(e(7)));
    map.set(0, 0, Some(e(9)));
    assert_eq!(map.get(2, 1), Some(e(7)));
    assert_eq!(map.get(0, 0), Some(e(9)));
    assert_eq!(map.get(1, 1), None);
    map.set(2, 1, Some(e(8)));
    assert_eq!(map.get(2, 1), Some(e(8)));
    map.set(2, 1, None);
    assert_eq!(map.get(2, 1), None);
    assert_eq!(map.get(0, 0), Some(e(9)));
}

#[test]
fn writes_out_of_bounds_are_ignored() {
    let mut map = GridMap::new(3, 2);
    for (col, row) in [(3, 0), (0, 2), (-1, 0), (0, -1), (i32::MAX, i32::MAX), (i32::MIN, 0)] {
        map.set(col, row, Some(e(1)));
        assert_eq!(map.get(col, row), None);
    }
    for row in 0..2 {
        for col in 0..3 {
            assert_eq!(map.get(col, row), None);
        }
    }
}

#[test]
fn map_marks_segments_where_they_cross_the_board() {
    let mut map = GridMap::new(4, 4);
    map.mark_segment(v(2, -3), v(2, 9), e(5));
    map.mark_segment(v(7, 1), v(1, 1), e(6));
    for row in 0..4 {
        for col in 0..4 {
            let expected = if row == 1 && col >= 1 {
                Some(e(6))
            } else if col == 2 {
                Some(e(5))
            } else {
                None
            };
            assert_eq!(map.get(col, row), expected);
        }
    }
}

#[test]
fn later_arrows_cover_earlier_ones() {
    let list = vec![
        ArrowSpec { vertices: vec![v(0, 0), v(3, 0)], hue: 0 },
        ArrowSpec { vertices: vec![v(1, 2), v(1, 0)], hue: 0 },
    ];
    let map = map_arrows(4, 3, &list, &vec![e(10), e(20)]);
    assert_eq!(map.get(0, 0), Some(e(10)));
    assert_eq!(map.get(1, 0), Some(e(20)));
    assert_eq!(map.get(2, 0), Some(e(10)));
    assert_eq!(map.get(1, 1), Some(e(20)));
    assert_eq!(map.get(2, 1), None);
}

#[test]
fn map_of_a_path_with_corners() {
    let mut map = GridMap::new(5, 5);
    map.mark_path(&vec![v(0, 4), v(0, 2), v(2, 2)], e(3));
    let mut count = 0;
    for row in 0..5 {
        for col in 0..5 {
            if map.get(col, row) == Some(e(3)) {
                count += 1;
            }
        }
    }
    assert_eq!(count, 5);
    assert_eq!(map.get(0, 3), Some(e(3)));
    assert_eq!(map.get(1, 2), Some(e(3)));
}

#[test]
fn lookup_identifies_the_arrow_of_a_level() {
    let (cols, rows) = (12, 15);
    let list = generate_level(cols, rows, 4);
    let entities: Vec<Entity> = (0..list.len()).map(|i| e(100 + i as u64)).collect();
    let map = map_arrows(cols, rows, &list, &entities);
    let mut covered = 0;
    for (arrow, entity) in list.iter().zip(&entities) {
        let mut on: Vec<IVec2> = Vec::new();
        for pair in arrow.vertices.windows(2) {
            for c in cells_between(pair[0], pair[1]) {
                if !on.contains(&c) {
                    on.push(c);
                }
            }
        }
        for c in &on {
            assert_eq!(map.get(c.x, c.y), Some(*entity));
        }
        covered += on.len();
    }
    let mut shown = 0;
    for row in 0..rows {
        for col in 0..cols {
            if map.get(col, row).is_some() {
                shown += 1;
            }
        }
    }
    assert_eq!(shown, covered);
}
