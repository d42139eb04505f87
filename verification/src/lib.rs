//! Rules of a puzzle in which arrows leave a rectangular board.
//!
//! A level is a grid of cells covered by disjoint arrows. Clicking an arrow
//! makes it slide along its own body and off the board. The crate holds the
//! deterministic part of the game: the seeded generator and its solvability
//! guarantee, the map from cells to arrows, the triangle layout of an arrow
//! that is part-way off the board, and the decisions taken on input.

pub mod ivec;
pub mod hash;
pub mod rng;
pub mod path;
pub mod placement;
pub mod generate;
pub mod solvable;
pub mod grid_map;
pub mod playfield;
pub mod game;
pub mod pointer;
pub mod slide;
pub mod mesh;
pub mod winding;

pub use ivec::{cell_index, in_bounds, turn_left, turn_right, IVec2};
pub use hash::hash_u32;
pub use path::{mark_path_occupied, mark_segment_occupied};
pub use placement::try_place_arrow;
pub use generate::{corridor_clear, corridor_mask, edge_outlets, generate_level, ArrowSpec};
pub use grid_map::{map_arrows, Entity, GridMap};
pub use playfield::{
    cell_size_for_grid, clamp_to_board, grid_dots, hit_area, level_grid_size, playfield, GridDot,
    Playfield,
};
pub use game::{advance_intro, check_level_complete, highest_text, GameState, Progress};
pub use pointer::{
    arrow_lightness, dot_scale_percent, on_grid_click, on_grid_hover, on_grid_leave, start_slide,
    Hover, HoverUpdate, Lightness,
};
pub use slide::{
    anchor, arrow_length, segment_directions, slid_off, slidable, tail_position, waypoints,
    Anchor, TailPosition, Waypoint,
};
pub use mesh::{
    build_arrow_mesh, build_body, turn_at, vertex_offset, ArrowMesh, MeshBuilder, MeshPoint, Side,
    Turn, VertexOffset, ARROW_HALF_WIDTH, CELL_PARTS, ROUND_SEGMENTS,
};
pub use rng::Rng;
pub use winding::arc_degrees;
