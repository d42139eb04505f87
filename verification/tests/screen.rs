//! Layout of the grid, screens, progress and pointer.

use vector_emancipation::{
    advance_intro, arrow_lightness, cell_size_for_grid, check_level_complete, clamp_to_board,
    dot_scale_percent, generate_level, grid_dots, highest_text, hit_area, level_grid_size,
    map_arrows, on_grid_click, on_grid_hover, on_grid_leave, playfield, start_slide, Entity,
    GameState, GridMap, Hover, IVec2, Lightness, Progress,
};

fn v(x: i32, y: i32) -> IVec2 {
    IVec2::new(x, y)
}

fn e(bits: u64) -> Entity {
    Entity { bits }
}

#[test]
fn sizes_of_the_first_levels() {
    let sizes: Vec<(i32, i32)> = (0..6).map(level_grid_size).collect();
    assert_eq!(
        sizes,
        vec![(10, 10), (21, 18), (33, 26), (22, 33), (25, 12), (31, 21)]
    );
}

#[test]
fn sizes_stay_in_range() {
    let mut smallest = 100;
    let mut largest = 0;
    for level in 0..5_000 {
        let (cols, rows) = level_grid_size(level);
        for n in [cols, rows] {
            assert!(n >= 10 && n <= 40);
            smallest = smallest.min(n);
            largest = largest.max(n);
        }
    }
    assert_eq!((smallest, largest), (10, 40));
    let (cols, rows) = level_grid_size(u32::MAX);
    assert!(cols >= 10 && cols <= 40 && rows >= 10 && rows <= 40);
}

/// The spacing as a floating-point computation gives it.
fn float_spacing(cols: i32, rows: i32) -> f32 {
    let from_x = 480.0 / (cols - 1) as f32;
    let from_y = 480.0 / (rows - 1) as f32;
    from_x.min(from_y).floor().max(1.0)
}

#[test]
fn spacing_of_some_grids() {
    assert_eq!(cell_size_for_grid(10, 10), 53);
    assert_eq!(cell_size_for_grid(40, 10), 12);
    assert_eq!(cell_size_for_grid(10, 41), 12);
    assert_eq!(cell_size_for_grid(11, 25), 20);
    assert_eq!(cell_size_for_grid(1, 3), 240);
    assert_eq!(cell_size_for_grid(481, 2), 1);
    assert_eq!(cell_size_for_grid(5_000, 5_000), 1);
    assert_eq!(cell_size_for_grid(0, 5), 1);
    assert_eq!(cell_size_for_grid(-7, 5), 1);
    assert_eq!(cell_size_for_grid(i32::MAX, i32::MAX), 1);
}

#[test]
fn spacing_agrees_with_floating_point() {
    for cols in -3..600 {
        for rows in [-2, 0, 1, 2, 3, 7, 10, 33, 40, 121, 161, 241, 480, 481, 482, 1_000] {
            if cols != 1 || rows != 1 {
                assert_eq!(cell_size_for_grid(cols, rows) as f32, float_spacing(cols, rows));
            }
        }
    }
}

#[test]
fn spacing_is_the_largest_that_fits() {
    for cols in 1..60 {
        for rows in 2..60 {
            let s = cell_size_for_grid(cols, rows);
            assert!(s * (cols - 1) <= 480 && s * (rows - 1) <= 480);
            assert!((s + 1) * (cols - 1) > 480 || (s + 1) * (rows - 1) > 480);
        }
    }
}

#[test]
fn layout_of_level_zero() {
    let field = playfield(0);
    assert_eq!((field.cols, field.rows, field.cell_size), (10, 10, 53));
    assert_eq!((field.origin_x, field.origin_y), (-239, -239));
    assert_eq!(hit_area(0), (530, 530));
}

#[test]
fn origins_agree_with_floating_point() {
    for level in 0..2_000 {
        let field = playfield(level);
        let size = float_spacing(field.cols, field.rows);
        assert_eq!(field.cell_size as f32, size);
        let x = (-(field.cols - 1) as f32 * size / 2.0).round();
        let y = (-(field.rows - 1) as f32 * size / 2.0).round();
        assert_eq!((field.origin_x as f32, field.origin_y as f32), (x, y));
        let (w, h) = hit_area(level);
        assert_eq!((w as f32, h as f32), (field.cols as f32 * size, field.rows as f32 * size));
        assert!(field.cell_size >= 12 && field.cell_size <= 53);
    }
}

#[test]
fn dots_cover_the_grid_row_by_row() {
    for level in 0..8 {
        let field = playfield(level);
        let dots = grid_dots(level);
        assert_eq!(dots.len(), (field.cols * field.rows) as usize);
        let mut i = 0;
        for row in 0..field.rows {
            for col in 0..field.cols {
                assert_eq!((dots[i].col, dots[i].row), (col, row));
                assert_eq!(dots[i].x, field.origin_x + col * field.cell_size);
                assert_eq!(dots[i].y, field.origin_y + row * field.cell_size);
                i += 1;
            }
        }
    }
    let dots = grid_dots(0);
    assert_eq!((dots[0].x, dots[0].y), (-239, -239));
    assert_eq!((dots[99].x, dots[99].y), (238, 238));
}

#[test]
fn positions_off_the_board_are_clamped() {
    assert_eq!(clamp_to_board(3, 4, 10, 12), v(3, 4));
    assert_eq!(clamp_to_board(-1, 12, 10, 12), v(0, 11));
    assert_eq!(clamp_to_board(10, -5, 10, 12), v(9, 0));
    assert_eq!(clamp_to_board(i32::MIN, i32::MAX, 1, 1), v(0, 0));
}

#[test]
fn title_screen_waits_for_input() {
    assert_eq!(GameState::default(), GameState::Intro);
    assert_eq!(advance_intro(false, false), None);
    assert_eq!(advance_intro(true, false), Some(GameState::Playing));
    assert_eq!(advance_intro(false, true), Some(GameState::Playing));
    assert_eq!(advance_intro(true, true), Some(GameState::Playing));
}

#[test]
fn puzzle_is_complete_without_arrows() {
    assert_eq!(check_level_complete(2), None);
    assert_eq!(check_level_complete(1), None);
    assert_eq!(check_level_complete(0), Some(GameState::PuzzleComplete));
}

#[test]
fn progress_counts_completed_puzzles() {
    let mut progress = Progress::default();
    assert_eq!(progress, Progress { level: 0, highest: 0 });
    for n in 1..=20 {
        progress.record_completion();
        assert_eq!(progress.highest, n);
        assert_eq!(progress.advance_puzzle_complete(false, false), None);
        assert_eq!(progress.level, n - 1);
        let next = progress.advance_puzzle_complete(n % 2 == 0, n % 2 == 1);
        assert_eq!(next, Some(GameState::Playing));
        assert_eq!(progress, Progress { level: n, highest: n });
    }
}

#[test]
fn highest_level_never_drops() {
    let mut progress = Progress { level: 2, highest: 9 };
    progress.record_completion();
    assert_eq!(progress, Progress { level: 2, highest: 9 });
    let mut last = Progress { level: u32::MAX - 1, highest: 0 };
    last.record_completion();
    assert_eq!(last.highest, u32::MAX);
}

#[test]
fn last_level_stays_without_input() {
    let mut last = Progress { level: u32::MAX, highest: 5 };
    assert_eq!(last.advance_puzzle_complete(false, false), None);
    assert_eq!(last, Progress { level: u32::MAX, highest: 5 });
}

#[test]
fn highest_level_is_shown_in_decimal() {
    assert_eq!(highest_text(0), "Highest level: 0");
    assert_eq!(highest_text(7), "Highest level: 7");
    assert_eq!(highest_text(10), "Highest level: 10");
    assert_eq!(highest_text(u32::MAX), "Highest level: 4294967295");
    for n in (0..200_000).step_by(37) {
        assert_eq!(highest_text(n), format!("Highest level: {}", n));
    }
}

#[test]
fn hovering_reports_arrow_and_cell() {
    let mut map = GridMap::new(10, 10);
    map.set(4, 5, Some(e(77)));
    let none = Hover::default();
    assert_eq!(none, Hover { arrow: None, cell: None });

    let update = on_grid_hover(0, &map, none, 4, 5);
    assert_eq!(update.hover, Hover { arrow: Some(e(77)), cell: Some(v(4, 5)) });
    assert!(update.arrow_changed && update.cell_changed);

    let again = on_grid_hover(0, &map, update.hover, 4, 5);
    assert_eq!(again.hover, update.hover);
    assert!(!again.arrow_changed && !again.cell_changed);

    let beside = on_grid_hover(0, &map, update.hover, 5, 5);
    assert_eq!(beside.hover, Hover { arrow: None, cell: Some(v(5, 5)) });
    assert!(beside.arrow_changed && beside.cell_changed);

    let further = on_grid_hover(0, &map, beside.hover, 6, 5);
    assert!(!further.arrow_changed && further.cell_changed);

    assert_eq!(on_grid_leave(), none);
}

#[test]
fn hovering_just_off_the_board_counts_as_its_edge() {
    let mut map = GridMap::new(10, 10);
    map.set(9, 0, Some(e(1)));
    let update = on_grid_hover(0, &map, Hover::default(), 10, -1);
    assert_eq!(update.hover, Hover { arrow: Some(e(1)), cell: Some(v(9, 0)) });
    assert_eq!(on_grid_click(0, &map, 12, -3), Some(e(1)));
}

#[test]
fn clicks_select_the_arrow_of_the_cell() {
    let (cols, rows) = level_grid_size(0);
    let list = generate_level(cols, rows, 0);
    let entities: Vec<Entity> = (0..list.len()).map(|i| e(i as u64 + 1)).collect();
    let map = map_arrows(cols, rows, &list, &entities);
    for (arrow, entity) in list.iter().zip(&entities) {
        for p in &arrow.vertices {
            assert_eq!(on_grid_click(0, &map, p.x, p.y), Some(*entity));
        }
    }
    for row in 0..rows {
        for col in 0..cols {
            assert_eq!(on_grid_click(0, &map, col, row), map.get(col, row));
        }
    }
}

#[test]
fn idle_arrows_start_along_their_last_segment() {
    let bent = vec![v(0, 0), v(0, 3), v(5, 3)];
    assert_eq!(start_slide(&bent, false), Some(v(5, 0)));
    assert_eq!(start_slide(&bent, true), None);
    let down = vec![v(2, 6), v(2, 4)];
    assert_eq!(start_slide(&down, false), Some(v(0, -2)));
}

#[test]
fn lightness_tiers() {
    assert_eq!(arrow_lightness(false, None, e(1)), Lightness::Normal);
    assert_eq!(arrow_lightness(false, Some(e(2)), e(1)), Lightness::Normal);
    assert_eq!(arrow_lightness(false, Some(e(1)), e(1)), Lightness::Hovered);
    assert_eq!(arrow_lightness(true, Some(e(1)), e(1)), Lightness::Animating);
    assert_eq!(arrow_lightness(true, None, e(1)), Lightness::Animating);
}

#[test]
fn dot_under_the_pointer_grows() {
    assert_eq!(dot_scale_percent(None, 1, 2), 100);
    assert_eq!(dot_scale_percent(Some(v(1, 2)), 1, 2), 150);
    assert_eq!(dot_scale_percent(Some(v(2, 1)), 1, 2), 100);
    assert_eq!(dot_scale_percent(Some(v(1, 3)), 1, 2), 100);
}
