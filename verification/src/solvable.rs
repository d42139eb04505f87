//! What every generated level guarantees.

use crate::generate::{
    cells_to_edge, column_outlets, corridor_is_clear, depth_choices, depth_tried, depths_tried,
    final_board, floored, lemma_shuffled_depths, lemma_shuffled_elements, level, occupied_by,
    outlet_served, outlets, outlets_served, row_outlets, suits_head, tail_room, Arrow, Board,
    Outlet, MAX_HEAD_DEPTH,
};
use crate::ivec::{
    ahead, cardinal, cardinal_directions_have_length_one, on_board, opposite, plus, shift,
    Cell,
};
use crate::path::{covers, on_segment, straight, straight_path};
use crate::placement::{
    heading, legal_segments, placed_arrow_is_well_formed, self_avoiding,
    tail_begins_if_first_cell_is_free, tail_is_decided_by_its_draws, tail_walk, turning,
    MAX_SEGMENTS,
};
use crate::rng::{after_draws, first_state, next_state, shuffle_permutes, shuffled};
use vstd::prelude::*;

verus! {

/// `c` lies on the way out of `arrow`: ahead of its arrowhead.
pub open spec fn in_corridor(arrow: Arrow, c: Cell) -> bool {
    ahead(arrow.path.last(), heading(arrow.path), c)
}

/// The number of cells between the arrowhead and the edge that it points to,
/// the edge cell included.
pub open spec fn head_depth(arrow: Arrow, cols: int, rows: int) -> int {
    cells_to_edge(arrow.path.last(), heading(arrow.path), cols, rows) - 1
}

/// The outlet by which `arrow` leaves.
pub open spec fn exit_of(arrow: Arrow, cols: int, rows: int) -> Outlet {
    (
        shift(arrow.path.last(), heading(arrow.path), head_depth(arrow, cols, rows)),
        opposite(heading(arrow.path)),
    )
}

/// The shape that every arrow of a level has: a few straight segments of
/// permitted length, square to one another, that stay on the board, never meet
/// again, keep out of the arrow's own way, and end in an arrowhead near the edge that it points to.
pub open spec fn well_formed(arrow: Arrow, cols: int, rows: int) -> bool {
    let path = arrow.path;
    &&& 2 <= path.len() <= MAX_SEGMENTS + 1
    &&& straight_path(path)
    &&& legal_segments(path)
    &&& turning(path)
    &&& self_avoiding(path)
    &&& cardinal(heading(path))
    &&& 1 <= head_depth(arrow, cols, rows) <= MAX_HEAD_DEPTH
    &&& forall|c: Cell| #[trigger] covers(path, c) ==> on_board(c, cols, rows) && !in_corridor(arrow, c)
    &&& arrow.hue < 0x100_0000
}

/// No cell is covered by both arrows.
pub open spec fn apart(a: Arrow, b: Arrow) -> bool {
    forall|c: Cell| !(#[trigger] covers(a.path, c) && covers(b.path, c))
}

/// `arrow` can slide off the board while the arrows of `others` stand on it.
pub open spec fn leaves_freely(cols: int, rows: int, arrow: Arrow, others: Seq<Arrow>) -> bool {
    forall|c: Cell| #[trigger]
        on_board(c, cols, rows) && in_corridor(arrow, c) ==> !occupied_by(others, c)
}

/// The arrows of `list` can be cleared from first to last: each can leave when
/// it and the ones after it are all that is left.
pub open spec fn solvable(cols: int, rows: int, list: Seq<Arrow>) -> bool
    decreases list.len(),
{
    list.len() == 0 || leaves_freely(cols, rows, list[0], list) && solvable(
        cols,
        rows,
        list.drop_first(),
    )
}

/// The generator's invariant: arrows are well formed and apart, leave by
/// distinct outlets, and each could leave over those placed before it.
spec fn consistent(cols: int, rows: int, placed: Seq<Arrow>) -> bool {
    &&& forall|i: int| 0 <= i < placed.len() ==> well_formed(#[trigger] placed[i], cols, rows)
    &&& forall|i: int, j: int|
        0 <= i < j < placed.len() ==> apart(#[trigger] placed[i], #[trigger] placed[j]) && exit_of(
            placed[i],
            cols,
            rows,
        ) != exit_of(placed[j], cols, rows)
    &&& forall|j: int|
        0 <= j < placed.len() ==> leaves_freely(cols, rows, #[trigger] placed[j], placed.take(j))
}

/// `outlet` is an edge cell with the direction that leads away from its edge.
spec fn at_edge(outlet: Outlet, cols: int, rows: int) -> bool {
    &&& cardinal(outlet.1)
    &&& cells_to_edge(outlet.0, opposite(outlet.1), cols, rows) == 1
}

/// No arrow of `placed` leaves by `outlet`.
spec fn unused(outlet: Outlet, cols: int, rows: int, placed: Seq<Arrow>) -> bool {
    forall|i: int| 0 <= i < placed.len() ==> exit_of(#[trigger] placed[i], cols, rows) != outlet
}

proof fn lemma_depth_keeps_consistent(
    cols: int,
    rows: int,
    b: Board,
    outlet: Outlet,
    depth: int,
    other: Outlet,
)
    requires
        consistent(cols, rows, b.placed),
        at_edge(outlet, cols, rows),
        unused(outlet, cols, rows, b.placed),
        1 <= depth <= MAX_HEAD_DEPTH,
    ensures
        ({
            let (after, placed) = depth_tried(cols, rows, b, outlet, depth);
            &&& consistent(cols, rows, after.placed)
            &&& !placed ==> after.placed == b.placed
            &&& unused(other, cols, rows, b.placed) && other != outlet ==> unused(
                other,
                cols,
                rows,
                after.placed,
            )
        }),
{
    let d = opposite(outlet.1);
    let head = shift(outlet.0, outlet.1, depth);
    let room = tail_room(cols, rows, b.placed, head, d);
    let w = tail_walk(room, head, d, b.state);
    if suits_head(cols, rows, b.placed, head, d) && w.stops.len() > 1 {
        let drawn = next_state(w.state);
        let arrow = Arrow { path: w.stops.reverse(), hue: (drawn / 256) as u32 };
        let more = b.placed.push(arrow);
        let path = arrow.path;
        placed_arrow_is_well_formed(room, head, d, b.state);
        assert(exit_of(arrow, cols, rows) == outlet);
        assert forall|c: Cell| #[trigger] covers(path, c) implies on_board(c, cols, rows)
            && !in_corridor(arrow, c) && !occupied_by(b.placed, c) by {
            assert(c == head || room(c));
        }
        assert(well_formed(arrow, cols, rows));
        assert forall|i: int| 0 <= i < more.len() implies well_formed(
            #[trigger] more[i],
            cols,
            rows,
        ) by {
            assert(i < b.placed.len() ==> more[i] == b.placed[i]);
        }
        assert forall|i: int, j: int| 0 <= i < j < more.len() implies apart(
            #[trigger] more[i],
            #[trigger] more[j],
        ) && exit_of(more[i], cols, rows) != exit_of(more[j], cols, rows) by {
            assert(more[i] == b.placed[i]);
            if j < b.placed.len() {
                assert(more[j] == b.placed[j]);
            } else {
                assert forall|c: Cell| !(#[trigger] covers(more[i].path, c) && covers(path, c)) by {
                    if covers(b.placed[i].path, c) && covers(path, c) {
                        assert(occupied_by(b.placed, c));
                    }
                }
            }
        }
        assert forall|j: int| 0 <= j < more.len() implies leaves_freely(
            cols,
            rows,
            #[trigger] more[j],
            more.take(j),
        ) by {
            if j < b.placed.len() {
                assert(more[j] == b.placed[j]);
                assert(more.take(j) =~= b.placed.take(j));
            } else {
                assert(more.take(j) =~= b.placed);
                assert(corridor_is_clear(cols, rows, b.placed, head, d));
            }
        }
    }
}

proof fn lemma_depths_keep_consistent(
    cols: int,
    rows: int,
    b: Board,
    outlet: Outlet,
    depths: Seq<int>,
    other: Outlet,
)
    requires
        consistent(cols, rows, b.placed),
        at_edge(outlet, cols, rows),
        unused(outlet, cols, rows, b.placed),
        forall|i: int| 0 <= i < depths.len() ==> 1 <= #[trigger] depths[i] <= MAX_HEAD_DEPTH,
    ensures
        consistent(cols, rows, depths_tried(cols, rows, b, outlet, depths).placed),
        unused(other, cols, rows, b.placed) && other != outlet ==> unused(
            other,
            cols,
            rows,
            depths_tried(cols, rows, b, outlet, depths).placed,
        ),
    decreases depths.len(),
{
    if depths.len() > 0 {
        let (after, placed) = depth_tried(cols, rows, b, outlet, depths[0]);
        lemma_depth_keeps_consistent(cols, rows, b, outlet, depths[0], other);
        if !placed {
            let rest = depths.drop_first();
            assert forall|i: int| 0 <= i < rest.len() implies 1 <= #[trigger] rest[i]
                <= MAX_HEAD_DEPTH by {
                assert(rest[i] == depths[i + 1]);
            }
            lemma_depths_keep_consistent(cols, rows, after, outlet, rest, other);
        }
    }
}

proof fn lemma_outlet_keeps_consistent(
    cols: int,
    rows: int,
    b: Board,
    outlet: Outlet,
    other: Outlet,
)
    requires
        consistent(cols, rows, b.placed),
        at_edge(outlet, cols, rows),
        unused(outlet, cols, rows, b.placed),
    ensures
        consistent(cols, rows, outlet_served(cols, rows, b, outlet).placed),
        unused(other, cols, rows, b.placed) && other != outlet ==> unused(
            other,
            cols,
            rows,
            outlet_served(cols, rows, b, outlet).placed,
        ),
{
    let (depths, state) = shuffled(depth_choices(), b.state);
    lemma_shuffled_depths(b.state);
    lemma_depths_keep_consistent(
        cols,
        rows,
        Board { placed: b.placed, state },
        outlet,
        depths,
        other,
    );
}

proof fn lemma_outlets_keep_consistent(cols: int, rows: int, b: Board, list: Seq<Outlet>)
    requires
        consistent(cols, rows, b.placed),
        list.no_duplicates(),
        forall|i: int| 0 <= i < list.len() ==> at_edge(#[trigger] list[i], cols, rows),
        forall|i: int| 0 <= i < list.len() ==> unused(#[trigger] list[i], cols, rows, b.placed),
    ensures
        consistent(cols, rows, outlets_served(cols, rows, b, list).placed),
    decreases list.len(),
{
    if list.len() > 0 {
        let after = outlet_served(cols, rows, b, list[0]);
        let rest = list.drop_first();
        lemma_outlet_keeps_consistent(cols, rows, b, list[0], list[0]);
        assert forall|i: int| 0 <= i < rest.len() implies at_edge(#[trigger] rest[i], cols, rows)
            && unused(rest[i], cols, rows, after.placed) by {
            assert(rest[i] == list[i + 1]);
            assert(list[0] != list[i + 1]);
            lemma_outlet_keeps_consistent(cols, rows, b, list[0], rest[i]);
        }
        lemma_outlets_keep_consistent(cols, rows, after, rest);
    }
}

/// The outlets of a board are distinct edge cells with inward directions.
proof fn lemma_outlets_distinct(cols: int, rows: int)
    ensures
        outlets(cols, rows).no_duplicates(),
        forall|i: int|
            0 <= i < outlets(cols, rows).len() ==> at_edge(
                #[trigger] outlets(cols, rows)[i],
                cols,
                rows,
            ),
{
    let all = outlets(cols, rows);
    let n = column_outlets(rows, floored(cols)).len();
    assert forall|i: int| 0 <= i < all.len() implies at_edge(#[trigger] all[i], cols, rows) by {
        if i < n {
            assert(all[i] == column_outlets(rows, floored(cols))[i]);
        } else {
            assert(all[i] == row_outlets(cols, floored(rows))[i - n]);
        }
    }
    assert forall|i: int, j: int| 0 <= i < j < all.len() implies all[i] != all[j] by {
        if j < n {
            assert(all[i] == column_outlets(rows, floored(cols))[i]);
            assert(all[j] == column_outlets(rows, floored(cols))[j]);
        } else if i < n {
            assert(all[i] == column_outlets(rows, floored(cols))[i]);
            assert(all[j] == row_outlets(cols, floored(rows))[j - n]);
        } else {
            assert(all[i] == row_outlets(cols, floored(rows))[i - n]);
            assert(all[j] == row_outlets(cols, floored(rows))[j - n]);
        }
    }
}

proof fn lemma_final_board_consistent(cols: int, rows: int, seed: u32)
    ensures
        consistent(cols, rows, final_board(cols, rows, seed).placed),
{
    let all = outlets(cols, rows);
    let (list, state) = shuffled(all, first_state(seed));
    let b = Board { placed: Seq::empty(), state };
    lemma_outlets_distinct(cols, rows);
    shuffle_permutes(all, first_state(seed));
    lemma_shuffled_elements(all, first_state(seed));
    all.lemma_multiset_has_no_duplicates();
    list.lemma_multiset_has_no_duplicates_conv();
    assert forall|i: int| 0 <= i < list.len() implies at_edge(#[trigger] list[i], cols, rows) by {
        assert(all.contains(list[i]));
    }
    lemma_outlets_keep_consistent(cols, rows, b, list);
}

/// Every arrow of a level is well formed.
pub proof fn level_arrows_are_well_formed(cols: int, rows: int, seed: u32)
    ensures
        forall|i: int|
            0 <= i < level(cols, rows, seed).len() ==> well_formed(
                #[trigger] level(cols, rows, seed)[i],
                cols,
                rows,
            ),
{
    lemma_final_board_consistent(cols, rows, seed);
}

/// No cell of a level is covered by two arrows.
pub proof fn level_arrows_are_apart(cols: int, rows: int, seed: u32)
    ensures
        forall|i: int, j: int|
            0 <= i < j < level(cols, rows, seed).len() ==> apart(
                #[trigger] level(cols, rows, seed)[i],
                #[trigger] level(cols, rows, seed)[j],
            ),
{
    lemma_final_board_consistent(cols, rows, seed);
    let placed = final_board(cols, rows, seed).placed;
    let list = level(cols, rows, seed);
    assert forall|i: int, j: int| 0 <= i < j < list.len() implies apart(
        #[trigger] list[i],
        #[trigger] list[j],
    ) by {
        assert(apart(placed[list.len() - 1 - j], placed[list.len() - 1 - i]));
    }
}

/// No two arrows of a level leave by the same outlet.
pub proof fn level_exits_are_distinct(cols: int, rows: int, seed: u32)
    ensures
        forall|i: int, j: int|
            0 <= i < j < level(cols, rows, seed).len() ==> exit_of(
                #[trigger] level(cols, rows, seed)[i],
                cols,
                rows,
            ) != exit_of(#[trigger] level(cols, rows, seed)[j], cols, rows),
{
    lemma_final_board_consistent(cols, rows, seed);
    let placed = final_board(cols, rows, seed).placed;
    let list = level(cols, rows, seed);
    assert forall|i: int, j: int| 0 <= i < j < list.len() implies exit_of(
        #[trigger] list[i],
        cols,
        rows,
    ) != exit_of(#[trigger] list[j], cols, rows) by {
        assert(apart(placed[list.len() - 1 - j], placed[list.len() - 1 - i]));
    }
}

/// Every level can be solved in the order in which it is listed.
pub proof fn level_is_solvable_in_order(cols: int, rows: int, seed: u32)
    ensures
        solvable(cols, rows, level(cols, rows, seed)),
{
    lemma_final_board_consistent(cols, rows, seed);
    lemma_reversed_is_solvable(cols, rows, final_board(cols, rows, seed).placed);
}

proof fn lemma_reversed_is_solvable(cols: int, rows: int, placed: Seq<Arrow>)
    requires
        consistent(cols, rows, placed),
    ensures
        solvable(cols, rows, placed.reverse()),
    decreases placed.len(),
{
    let list = placed.reverse();
    if placed.len() > 0 {
        let last = placed.len() - 1;
        let fewer = placed.take(last);
        assert forall|j: int| 0 <= j < fewer.len() implies leaves_freely(
            cols,
            rows,
            #[trigger] fewer[j],
            fewer.take(j),
        ) by {
            assert(fewer[j] == placed[j]);
            assert(fewer.take(j) =~= placed.take(j));
        }
        lemma_reversed_is_solvable(cols, rows, fewer);
        assert(list.drop_first() =~= fewer.reverse());
        let first = placed[last];
        assert(leaves_freely(cols, rows, first, fewer));
        assert forall|c: Cell| #[trigger] on_board(c, cols, rows) && in_corridor(first, c) implies
            !occupied_by(list, c) by {
            if occupied_by(list, c) {
                let i = choose|i: int| 0 <= i < list.len() && covers(#[trigger] list[i].path, c);
                if i == 0 {
                    assert(well_formed(placed[last], cols, rows));
                } else {
                    assert(covers(fewer[last - i].path, c));
                    assert(occupied_by(fewer, c));
                }
            }
        }
    }
}

/// A board gets an arrow exactly if it has room for one: three cells in a line.
pub proof fn level_has_an_arrow(cols: int, rows: int, seed: u32)
    ensures
        level(cols, rows, seed).len() >= 1 <==> cols >= 1 && rows >= 1 && (cols >= 3 || rows >= 3),
{
    if level(cols, rows, seed).len() >= 1 {
        level_arrows_are_well_formed(cols, rows, seed);
        lemma_arrow_takes_three_cells(level(cols, rows, seed)[0], cols, rows);
    }
    if cols >= 1 && rows >= 1 && (cols >= 3 || rows >= 3) {
        let all = outlets(cols, rows);
        let (list, state) = shuffled(all, first_state(seed));
        let n = column_outlets(rows, floored(cols)).len();
        let k = if rows >= 3 {
            0
        } else {
            n as int
        };
        let outlet = all[k];
        if rows >= 3 {
            assert(outlet == column_outlets(rows, floored(cols))[0]);
        } else {
            assert(outlet == row_outlets(cols, floored(rows))[0]);
        }
        assert(all.contains(outlet));
        lemma_shuffled_elements(all, first_state(seed));
        lemma_roomy_outlet_gets_arrow(
            cols,
            rows,
            Board { placed: Seq::empty(), state },
            list,
            outlet,
        );
    }
}

/// The tail, the head and the way out of an arrow take a cell each.
proof fn lemma_arrow_takes_three_cells(arrow: Arrow, cols: int, rows: int)
    requires
        well_formed(arrow, cols, rows),
    ensures
        cols >= 1 && rows >= 1 && (cols >= 3 || rows >= 3),
{
    let path = arrow.path;
    let k = path.len() - 2;
    assert(straight(path[k], path[k + 1]));
    assert(on_segment(path[k], path[k + 1], path[k]));
    assert(on_segment(path[k], path[k + 1], path[k + 1]));
    assert(covers(path, path[k]) && covers(path, path[k + 1]));
}

/// Three cells in a row lead inward from `outlet`.
spec fn roomy(outlet: Outlet, cols: int, rows: int) -> bool {
    &&& at_edge(outlet, cols, rows)
    &&& on_board(outlet.0, cols, rows)
    &&& on_board(shift(outlet.0, outlet.1, 2), cols, rows)
}

/// At depth one a roomy outlet of an empty board gets an arrow.
proof fn lemma_first_arrow(cols: int, rows: int, b: Board, outlet: Outlet)
    requires
        b.placed.len() == 0,
        roomy(outlet, cols, rows),
    ensures
        depth_tried(cols, rows, b, outlet, 1).1,
{
    let d = opposite(outlet.1);
    let head = shift(outlet.0, outlet.1, 1);
    let room = tail_room(cols, rows, b.placed, head, d);
    assert(opposite(d) == outlet.1);
    assert(suits_head(cols, rows, b.placed, head, d));
    assert(plus(head, opposite(d)) == shift(outlet.0, outlet.1, 2));
    assert(room(plus(head, opposite(d))));
    tail_begins_if_first_cell_is_free(room, head, d, b.state);
}

proof fn lemma_roomy_depths_get_arrow(
    cols: int,
    rows: int,
    b: Board,
    outlet: Outlet,
    depths: Seq<int>,
)
    requires
        roomy(outlet, cols, rows),
        depths.contains(1),
    ensures
        depths_tried(cols, rows, b, outlet, depths).placed.len() >= 1,
    decreases depths.len(),
{
    let (after, placed) = depth_tried(cols, rows, b, outlet, depths[0]);
    if b.placed.len() > 0 {
        lemma_depths_keep_arrows(cols, rows, b, outlet, depths);
    } else if !placed {
        lemma_first_arrow(cols, rows, b, outlet);
        let k = choose|k: int| 0 <= k < depths.len() && depths[k] == 1;
        assert(depths.drop_first()[k - 1] == 1);
        lemma_roomy_depths_get_arrow(cols, rows, after, outlet, depths.drop_first());
    }
}

proof fn lemma_roomy_outlet_gets_arrow(
    cols: int,
    rows: int,
    b: Board,
    list: Seq<Outlet>,
    outlet: Outlet,
)
    requires
        roomy(outlet, cols, rows),
        list.contains(outlet),
    ensures
        outlets_served(cols, rows, b, list).placed.len() >= 1,
    decreases list.len(),
{
    let after = outlet_served(cols, rows, b, list[0]);
    let rest = list.drop_first();
    if list[0] == outlet {
        let (depths, state) = shuffled(depth_choices(), b.state);
        assert(depth_choices()[0] == 1);
        assert(depth_choices().contains(1));
        lemma_shuffled_elements(depth_choices(), b.state);
        lemma_roomy_depths_get_arrow(
            cols,
            rows,
            Board { placed: b.placed, state },
            outlet,
            depths,
        );
        lemma_outlets_keep_arrows(cols, rows, after, rest);
    } else {
        let k = choose|k: int| 0 <= k < list.len() && list[k] == outlet;
        assert(rest[k - 1] == outlet);
        lemma_roomy_outlet_gets_arrow(cols, rows, after, rest, outlet);
    }
}

/// A level has at most one arrow per outlet.
pub proof fn level_has_at_most_one_arrow_per_outlet(cols: int, rows: int, seed: u32)
    ensures
        level(cols, rows, seed).len() <= outlets(cols, rows).len(),
        outlets(cols, rows).len() == 2 * (floored(cols) + floored(rows)),
{
    let (list, state) = shuffled(outlets(cols, rows), first_state(seed));
    shuffle_permutes(outlets(cols, rows), first_state(seed));
    lemma_outlets_add_few(cols, rows, Board { placed: Seq::empty(), state }, list);
}

proof fn lemma_depths_add_few(cols: int, rows: int, b: Board, outlet: Outlet, depths: Seq<int>)
    ensures
        depths_tried(cols, rows, b, outlet, depths).placed.len() <= b.placed.len() + 1,
    decreases depths.len(),
{
    if depths.len() > 0 {
        let (after, placed) = depth_tried(cols, rows, b, outlet, depths[0]);
        if !placed {
            lemma_depths_add_few(cols, rows, after, outlet, depths.drop_first());
        }
    }
}

proof fn lemma_outlets_add_few(cols: int, rows: int, b: Board, list: Seq<Outlet>)
    ensures
        outlets_served(cols, rows, b, list).placed.len() <= b.placed.len() + list.len(),
    decreases list.len(),
{
    if list.len() > 0 {
        let (depths, state) = shuffled(depth_choices(), b.state);
        lemma_depths_add_few(cols, rows, Board { placed: b.placed, state }, list[0], depths);
        lemma_outlets_add_few(
            cols,
            rows,
            outlet_served(cols, rows, b, list[0]),
            list.drop_first(),
        );
    }
}

/// Beside the arrows of `placed`, an arrow could leave by `outlet` whose head
/// stands `depth` cells inward: the head and its way out are free, and so is a
/// cell for its tail.
pub open spec fn admits(
    cols: int,
    rows: int,
    placed: Seq<Arrow>,
    outlet: Outlet,
    depth: int,
) -> bool {
    let head = shift(outlet.0, outlet.1, depth);
    let behind = plus(head, outlet.1);
    &&& stands(cols, rows, placed, outlet, depth)
    &&& 0 <= behind.0 < cols && 0 <= behind.1 < rows
    &&& !occupied_by(placed, behind)
}

/// Beside the arrows of `placed`, a head could stand `depth` cells inward of
/// `outlet`: it is on the board and free, and so is every cell from there to the
/// edge.
pub open spec fn stands(
    cols: int,
    rows: int,
    placed: Seq<Arrow>,
    outlet: Outlet,
    depth: int,
) -> bool {
    let head = shift(outlet.0, outlet.1, depth);
    &&& 0 <= head.0 < cols && 0 <= head.1 < rows
    &&& !occupied_by(placed, head)
    &&& forall|c: Cell|
        0 <= c.0 < cols && 0 <= c.1 < rows && #[trigger] ahead(head, opposite(outlet.1), c)
            ==> !occupied_by(placed, c)
}

/// A head stands where the generator lets it, and its tail begins where there is
/// room.
proof fn lemma_stands_is_suitable(
    cols: int,
    rows: int,
    placed: Seq<Arrow>,
    outlet: Outlet,
    depth: int,
)
    requires
        cardinal(outlet.1),
    ensures
        ({
            let d = opposite(outlet.1);
            let head = shift(outlet.0, outlet.1, depth);
            let room = tail_room(cols, rows, placed, head, d);
            &&& stands(cols, rows, placed, outlet, depth) <==> suits_head(
                cols,
                rows,
                placed,
                head,
                d,
            )
            &&& admits(cols, rows, placed, outlet, depth) <==> suits_head(
                cols,
                rows,
                placed,
                head,
                d,
            ) && room(plus(head, opposite(d)))
            &&& opposite(d) == outlet.1
        }),
{
    let d = opposite(outlet.1);
    let head = shift(outlet.0, outlet.1, depth);
    if suits_head(cols, rows, placed, head, d) {
        assert forall|c: Cell|
            0 <= c.0 < cols && 0 <= c.1 < rows && #[trigger] ahead(head, d, c) implies !occupied_by(
            placed,
            c,
        ) by {
            assert(on_board(c, cols, rows));
        }
    }
    if stands(cols, rows, placed, outlet, depth) {
        assert forall|c: Cell| #[trigger] on_board(c, cols, rows) && ahead(head, d, c) implies
            !occupied_by(placed, c) by {}
    }
}

/// How many of the `depths` let a head stand.
pub open spec fn attempts(
    cols: int,
    rows: int,
    placed: Seq<Arrow>,
    outlet: Outlet,
    depths: Seq<int>,
) -> nat
    decreases depths.len(),
{
    if depths.len() == 0 {
        0
    } else {
        attempts(cols, rows, placed, outlet, depths.drop_first()) + (if stands(
            cols,
            rows,
            placed,
            outlet,
            depths[0],
        ) {
            1nat
        } else {
            0nat
        })
    }
}

/// The board after an arrow with its head `depth` cells inward of `outlet` was
/// added, by the draws from `state` on. Its tail keeps to the board, off other
/// arrows and out of its own way; one more draw, without its lowest eight bits,
/// is its hue.
pub open spec fn arrow_added(
    cols: int,
    rows: int,
    placed: Seq<Arrow>,
    outlet: Outlet,
    depth: int,
    state: u32,
) -> Board {
    let d = opposite(outlet.1);
    let head = shift(outlet.0, outlet.1, depth);
    let room = |c: Cell|
        0 <= c.0 < cols && 0 <= c.1 < rows && !occupied_by(placed, c) && !ahead(head, d, c);
    let w = tail_walk(room, head, d, state);
    let hue = next_state(w.state);
    Board {
        placed: placed.push(Arrow { path: w.stops.reverse(), hue: (hue / 256) as u32 }),
        state: hue,
    }
}

/// An outlet tries the four depths in shuffled order and takes the first that
/// admits an arrow, if any does; before that, each depth at which a head could
/// stand costs two draws.
pub proof fn outlet_takes_the_first_depth_that_admits(
    cols: int,
    rows: int,
    b: Board,
    outlet: Outlet,
    depths: Seq<int>,
    start: u32,
    k: int,
)
    requires
        cardinal(outlet.1),
        shuffled(seq![1int, 2, 3, 4], b.state) == (depths, start),
        0 <= k <= 4,
        forall|j: int| 0 <= j < k ==> !admits(cols, rows, b.placed, outlet, #[trigger] depths[j]),
        k < 4 ==> admits(cols, rows, b.placed, outlet, depths[k]),
    ensures
        ({
            let tried = attempts(cols, rows, b.placed, outlet, depths.take(k));
            let state = after_draws(start, 2 * tried);
            outlet_served(cols, rows, b, outlet) == (if k == 4 {
                Board { placed: b.placed, state }
            } else {
                arrow_added(cols, rows, b.placed, outlet, depths[k], state)
            })
        }),
{
    assert(depth_choices() =~= seq![1int, 2, 3, 4]);
    shuffle_permutes(seq![1int, 2, 3, 4], b.state);
    lemma_depths_take_first(cols, rows, Board { placed: b.placed, state: start }, outlet, depths, k);
}

proof fn lemma_depths_take_first(
    cols: int,
    rows: int,
    b: Board,
    outlet: Outlet,
    depths: Seq<int>,
    k: int,
)
    requires
        cardinal(outlet.1),
        0 <= k <= depths.len(),
        forall|j: int|
            0 <= j < k ==> !admits(cols, rows, b.placed, outlet, #[trigger] depths[j]),
        k < depths.len() ==> admits(cols, rows, b.placed, outlet, depths[k]),
    ensures
        ({
            let tried = attempts(cols, rows, b.placed, outlet, depths.take(k));
            let state = after_draws(b.state, 2 * tried);
            depths_tried(cols, rows, b, outlet, depths) == (if k == depths.len() {
                Board { placed: b.placed, state }
            } else {
                arrow_added(cols, rows, b.placed, outlet, depths[k], state)
            })
        }),
    decreases depths.len(),
{
    if depths.len() > 0 {
        lemma_one_depth(cols, rows, b, outlet, depths[0]);
        let (after, placed) = depth_tried(cols, rows, b, outlet, depths[0]);
        if k == 0 {
            assert(depths.take(0) =~= Seq::empty());
            assert(attempts(cols, rows, b.placed, outlet, depths.take(0)) == 0);
        } else {
            let rest = depths.drop_first();
            assert(!admits(cols, rows, b.placed, outlet, depths[0]));
            assert forall|j: int| 0 <= j < k - 1 implies !admits(
                cols,
                rows,
                after.placed,
                outlet,
                #[trigger] rest[j],
            ) by {
                assert(rest[j] == depths[j + 1]);
            }
            lemma_depths_take_first(cols, rows, after, outlet, rest, k - 1);
            assert(depths.take(k).drop_first() =~= rest.take(k - 1));
            assert(depths.take(k)[0] == depths[0]);
            let more = attempts(cols, rows, b.placed, outlet, rest.take(k - 1));
            if stands(cols, rows, b.placed, outlet, depths[0]) {
                lemma_draws_add(b.state, 2, 2 * more);
            }
        }
    } else {
        assert(depths.take(0) =~= Seq::empty());
    }
}

/// What one depth does to the board.
proof fn lemma_one_depth(cols: int, rows: int, b: Board, outlet: Outlet, depth: int)
    requires
        cardinal(outlet.1),
    ensures
        ({
            let (after, done) = depth_tried(cols, rows, b, outlet, depth);
            &&& done <==> admits(cols, rows, b.placed, outlet, depth)
            &&& done ==> after == arrow_added(cols, rows, b.placed, outlet, depth, b.state)
            &&& !done ==> after.placed == b.placed
            &&& !done ==> after.state == (if stands(cols, rows, b.placed, outlet, depth) {
                after_draws(b.state, 2)
            } else {
                b.state
            })
        }),
{
    let d = opposite(outlet.1);
    let head = shift(outlet.0, outlet.1, depth);
    let room = tail_room(cols, rows, b.placed, head, d);
    lemma_stands_is_suitable(cols, rows, b.placed, outlet, depth);
    tail_begins_if_first_cell_is_free(room, head, d, b.state);
    tail_is_decided_by_its_draws(room, head, d, b.state);
    assert(room =~= |c: Cell|
        0 <= c.0 < cols && 0 <= c.1 < rows && !occupied_by(b.placed, c) && !ahead(head, d, c));
}

/// Draws follow one another.
proof fn lemma_draws_add(state: u32, j: nat, k: nat)
    ensures
        after_draws(state, j + k) == after_draws(after_draws(state, j), k),
    decreases j,
{
    if j > 0 {
        lemma_draws_add(next_state(state), (j - 1) as nat, k);
    }
}

/// Outlets have their turns one after the other, each on the board that those
/// before it left.
pub proof fn outlets_are_served_in_turn(
    cols: int,
    rows: int,
    b: Board,
    list: Seq<Outlet>,
    outlet: Outlet,
)
    ensures
        outlets_served(cols, rows, b, Seq::empty()) == b,
        outlets_served(cols, rows, b, list.push(outlet)) == outlet_served(
            cols,
            rows,
            outlets_served(cols, rows, b, list),
            outlet,
        ),
    decreases list.len(),
{
    let longer = list.push(outlet);
    if list.len() == 0 {
        assert(longer.drop_first() =~= Seq::empty());
        let after = outlet_served(cols, rows, b, outlet);
        assert(outlets_served(cols, rows, after, Seq::empty()) == after);
    } else {
        assert(longer.drop_first() =~= list.drop_first().push(outlet));
        outlets_are_served_in_turn(
            cols,
            rows,
            outlet_served(cols, rows, b, list[0]),
            list.drop_first(),
            outlet,
        );
    }
}

/// A level lists, last placed first, what the outlets of its board leave when
/// they are served in shuffled order, from an empty board on, and the stream of
/// its seed decides.
pub proof fn level_is_what_its_outlets_leave(cols: int, rows: int, seed: u32)
    ensures
        ({
            let (list, state) = shuffled(outlets(cols, rows), first_state(seed));
            level(cols, rows, seed).reverse() == outlets_served(
                cols,
                rows,
                Board { placed: Seq::empty(), state },
                list,
            ).placed
        }),
{
    let placed = final_board(cols, rows, seed).placed;
    assert(placed.reverse().reverse() =~= placed);
}

/// The outlets of a board are the cells on its edges, each with the direction
/// inward from an edge that it touches: against that direction the next cell is
/// off the board. Each is listed once.
pub proof fn outlets_are_the_edge_cells(cols: int, rows: int, outlet: Outlet)
    requires
        cols >= 1,
        rows >= 1,
    ensures
        ({
            let (c, d) = outlet;
            outlets(cols, rows).contains(outlet) <==> 0 <= c.0 < cols && 0 <= c.1 < rows && d.0 * d.0
                + d.1 * d.1 == 1 && !(0 <= c.0 - d.0 < cols && 0 <= c.1 - d.1 < rows)
        }),
        outlets(cols, rows).no_duplicates(),
{
    let (c, d) = outlet;
    let all = outlets(cols, rows);
    let n = column_outlets(rows, floored(cols)).len();
    cardinal_directions_have_length_one(d);
    lemma_outlets_distinct(cols, rows);
    if all.contains(outlet) {
        let i = choose|i: int| 0 <= i < all.len() && all[i] == outlet;
        if i < n {
            assert(all[i] == column_outlets(rows, floored(cols))[i]);
        } else {
            assert(all[i] == row_outlets(cols, floored(rows))[i - n]);
        }
    }
    if 0 <= c.0 < cols && 0 <= c.1 < rows && cardinal(d) && !(0 <= c.0 - d.0 < cols && 0 <= c.1
        - d.1 < rows) {
        outlets_are_listed_by_column_and_row(cols, rows, c.0);
        outlets_are_listed_by_column_and_row(cols, rows, c.1);
        let i = if d == (0int, 1int) {
            2 * c.0
        } else if d == (0int, -1int) {
            2 * c.0 + 1
        } else if d == (1int, 0int) {
            2 * cols + 2 * c.1
        } else {
            2 * cols + 2 * c.1 + 1
        };
        assert(all[i] == outlet);
    }
}

/// Outlets are listed column by column, bottom and top, and then row by row,
/// left and right.
pub proof fn outlets_are_listed_by_column_and_row(cols: int, rows: int, k: int)
    requires
        cols >= 0,
        rows >= 0,
    ensures
        outlets(cols, rows).len() == 2 * (cols + rows),
        0 <= k < cols ==> outlets(cols, rows)[2 * k] == ((k, 0int), (0int, 1int)),
        0 <= k < cols ==> outlets(cols, rows)[2 * k + 1] == ((k, rows - 1), (0int, -1int)),
        0 <= k < rows ==> outlets(cols, rows)[2 * cols + 2 * k] == ((0int, k), (1int, 0int)),
        0 <= k < rows ==> outlets(cols, rows)[2 * cols + 2 * k + 1] == (
            (cols - 1, k),
            (-1int, 0int),
        ),
{
    let all = outlets(cols, rows);
    let (first, second) = (column_outlets(rows, floored(cols)), row_outlets(cols, floored(rows)));
    assert((2 * k) % 2 == 0 && (2 * k) / 2 == k && (2 * k + 1) % 2 == 1 && (2 * k + 1) / 2 == k);
    if 0 <= k < cols {
        assert(all[2 * k] == first[2 * k]);
        assert(all[2 * k + 1] == first[2 * k + 1]);
    }
    if 0 <= k < rows {
        assert(all[2 * cols + 2 * k] == second[2 * k]);
        assert(all[2 * cols + 2 * k + 1] == second[2 * k + 1]);
    }
}

/// From a cell to the edge it is as many cells as fit: the last of them is on
/// the board, and the next one is not.
pub proof fn edge_comes_after_the_cells_to_it(c: Cell, d: Cell, cols: int, rows: int)
    requires
        0 <= c.0 < cols,
        0 <= c.1 < rows,
        cardinal(d),
    ensures
        ({
            let k = cells_to_edge(c, d, cols, rows);
            let (last, next) = (shift(c, d, k - 1), shift(c, d, k));
            &&& k >= 1
            &&& 0 <= last.0 < cols && 0 <= last.1 < rows
            &&& !(0 <= next.0 < cols && 0 <= next.1 < rows)
        }),
{
}

/// `outlet` is taken, or no arrow could be added at it.
spec fn settled(cols: int, rows: int, placed: Seq<Arrow>, outlet: Outlet) -> bool {
    unused(outlet, cols, rows, placed) ==> forall|depth: int|
        1 <= depth <= MAX_HEAD_DEPTH ==> !#[trigger] admits(cols, rows, placed, outlet, depth)
}

/// No arrow can be added to a level: at an outlet by which no arrow leaves, the
/// head, its way out or its tail is blocked at every permitted depth.
pub proof fn level_is_full(cols: int, rows: int, seed: u32, outlet: Outlet, depth: int)
    requires
        outlets(cols, rows).contains(outlet),
        1 <= depth <= MAX_HEAD_DEPTH,
        forall|i: int|
            0 <= i < level(cols, rows, seed).len() ==> exit_of(
                #[trigger] level(cols, rows, seed)[i],
                cols,
                rows,
            ) != outlet,
    ensures
        !admits(cols, rows, level(cols, rows, seed), outlet, depth),
{
    let placed = final_board(cols, rows, seed).placed;
    lemma_final_board_settled(cols, rows, seed, outlet);
    assert(unused(outlet, cols, rows, placed)) by {
        assert forall|i: int| 0 <= i < placed.len() implies exit_of(#[trigger] placed[i], cols, rows)
            != outlet by {
            assert(placed[i] == level(cols, rows, seed)[placed.len() - 1 - i]);
        }
    }
    assert(!admits(cols, rows, placed, outlet, depth));
    lemma_order_does_not_matter(cols, rows, placed, outlet, depth);
}

proof fn lemma_order_does_not_matter(
    cols: int,
    rows: int,
    placed: Seq<Arrow>,
    outlet: Outlet,
    depth: int,
)
    ensures
        admits(cols, rows, placed.reverse(), outlet, depth) ==> admits(
            cols,
            rows,
            placed,
            outlet,
            depth,
        ),
{
    let turned = placed.reverse();
    assert forall|i: int| 0 <= i < placed.len() implies turned.contains(#[trigger] placed[i]) by {
        assert(turned[placed.len() - 1 - i] == placed[i]);
    }
    lemma_more_arrows_admit_less(cols, rows, placed, turned, outlet, depth);
}

proof fn lemma_final_board_settled(cols: int, rows: int, seed: u32, outlet: Outlet)
    requires
        outlets(cols, rows).contains(outlet),
    ensures
        settled(cols, rows, final_board(cols, rows, seed).placed, outlet),
{
    let all = outlets(cols, rows);
    let (list, state) = shuffled(all, first_state(seed));
    lemma_outlets_distinct(cols, rows);
    lemma_shuffled_elements(all, first_state(seed));
    assert forall|i: int| 0 <= i < list.len() implies at_edge(#[trigger] list[i], cols, rows) by {
        assert(all.contains(list[i]));
    }
    lemma_outlets_settle(cols, rows, Board { placed: Seq::empty(), state }, list, outlet);
}

/// Where each arrow of `fewer` stands among `more`, no more is admitted.
proof fn lemma_more_arrows_admit_less(
    cols: int,
    rows: int,
    fewer: Seq<Arrow>,
    more: Seq<Arrow>,
    outlet: Outlet,
    depth: int,
)
    requires
        forall|i: int| 0 <= i < fewer.len() ==> more.contains(#[trigger] fewer[i]),
    ensures
        admits(cols, rows, more, outlet, depth) ==> admits(cols, rows, fewer, outlet, depth),
{
    assert forall|c: Cell| #[trigger] occupied_by(fewer, c) implies occupied_by(more, c) by {
        let i = choose|i: int| 0 <= i < fewer.len() && covers(#[trigger] fewer[i].path, c);
        assert(more.contains(fewer[i]));
        let j = choose|j: int| 0 <= j < more.len() && more[j] == fewer[i];
        assert(covers(more[j].path, c));
    }
}

/// What an outlet leaves behind when it had its turn: the arrows from before,
/// and either one that leaves by it, or no room for one.
proof fn lemma_depths_settle(
    cols: int,
    rows: int,
    b: Board,
    outlet: Outlet,
    depths: Seq<int>,
    depth: int,
)
    requires
        at_edge(outlet, cols, rows),
    ensures
        ({
            let after = depths_tried(cols, rows, b, outlet, depths).placed;
            &&& b.placed.is_prefix_of(after)
            &&& unused(outlet, cols, rows, after) && depths.contains(depth) ==> !admits(
                cols,
                rows,
                after,
                outlet,
                depth,
            )
        }),
    decreases depths.len(),
{
    if depths.len() > 0 {
        let (after, placed) = depth_tried(cols, rows, b, outlet, depths[0]);
        let d = opposite(outlet.1);
        let head = shift(outlet.0, outlet.1, depths[0]);
        let room = tail_room(cols, rows, b.placed, head, d);
        lemma_stands_is_suitable(cols, rows, b.placed, outlet, depths[0]);
        tail_begins_if_first_cell_is_free(room, head, d, b.state);
        if placed {
            placed_arrow_is_well_formed(room, head, d, b.state);
            let arrow = after.placed.last();
            assert(exit_of(arrow, cols, rows) == outlet);
            assert(after.placed[b.placed.len() as int] == arrow);
            assert(b.placed.is_prefix_of(after.placed));
        } else {
            assert(after.placed == b.placed);
            assert(!admits(cols, rows, b.placed, outlet, depths[0]));
            let rest = depths.drop_first();
            lemma_depths_settle(cols, rows, after, outlet, rest, depth);
            let whole = depths_tried(cols, rows, after, outlet, rest).placed;
            if depths.contains(depth) && depth != depths[0] {
                let k = choose|k: int| 0 <= k < depths.len() && depths[k] == depth;
                assert(rest[k - 1] == depth);
            } else if depth == depths[0] {
                lemma_prefix_is_contained(b.placed, whole);
                lemma_more_arrows_admit_less(cols, rows, b.placed, whole, outlet, depth);
            }
        }
    }
}

proof fn lemma_prefix_is_contained(fewer: Seq<Arrow>, more: Seq<Arrow>)
    requires
        fewer.is_prefix_of(more),
    ensures
        forall|i: int| 0 <= i < fewer.len() ==> more.contains(#[trigger] fewer[i]),
{
    assert forall|i: int| 0 <= i < fewer.len() implies more.contains(#[trigger] fewer[i]) by {
        assert(fewer[i] == more[i]);
    }
}

proof fn lemma_outlet_settles(cols: int, rows: int, b: Board, outlet: Outlet)
    requires
        at_edge(outlet, cols, rows),
    ensures
        b.placed.is_prefix_of(outlet_served(cols, rows, b, outlet).placed),
        settled(cols, rows, outlet_served(cols, rows, b, outlet).placed, outlet),
{
    let (depths, state) = shuffled(depth_choices(), b.state);
    let start = Board { placed: b.placed, state };
    let after = outlet_served(cols, rows, b, outlet).placed;
    lemma_shuffled_elements(depth_choices(), b.state);
    lemma_depths_settle(cols, rows, start, outlet, depths, 1);
    assert forall|depth: int|
        1 <= depth <= MAX_HEAD_DEPTH && unused(outlet, cols, rows, after) implies !#[trigger] admits(
        cols,
        rows,
        after,
        outlet,
        depth,
    ) by {
        assert(depth_choices()[depth - 1] == depth);
        assert(depth_choices().contains(depth));
        lemma_depths_settle(cols, rows, start, outlet, depths, depth);
    }
}

proof fn lemma_outlets_settle(cols: int, rows: int, b: Board, list: Seq<Outlet>, outlet: Outlet)
    requires
        forall|i: int| 0 <= i < list.len() ==> at_edge(#[trigger] list[i], cols, rows),
    ensures
        b.placed.is_prefix_of(outlets_served(cols, rows, b, list).placed),
        list.contains(outlet) ==> settled(
            cols,
            rows,
            outlets_served(cols, rows, b, list).placed,
            outlet,
        ),
    decreases list.len(),
{
    if list.len() > 0 {
        let after = outlet_served(cols, rows, b, list[0]);
        let rest = list.drop_first();
        let whole = outlets_served(cols, rows, after, rest).placed;
        assert forall|i: int| 0 <= i < rest.len() implies at_edge(#[trigger] rest[i], cols, rows) by {
            assert(rest[i] == list[i + 1]);
        }
        lemma_outlet_settles(cols, rows, b, list[0]);
        lemma_outlets_settle(cols, rows, after, rest, outlet);
        if list.contains(outlet) {
            if outlet == list[0] {
                lemma_prefix_is_contained(after.placed, whole);
                assert forall|depth: int|
                    1 <= depth <= MAX_HEAD_DEPTH && unused(
                        outlet,
                        cols,
                        rows,
                        whole,
                    ) implies !#[trigger] admits(cols, rows, whole, outlet, depth) by {
                    assert(unused(outlet, cols, rows, after.placed));
                    assert(!admits(cols, rows, after.placed, outlet, depth));
                    lemma_more_arrows_admit_less(
                        cols,
                        rows,
                        after.placed,
                        whole,
                        outlet,
                        depth,
                    );
                }
            } else {
                let k = choose|k: int| 0 <= k < list.len() && list[k] == outlet;
                assert(rest[k - 1] == outlet);
            }
        }
    }
}

proof fn lemma_depths_keep_arrows(
    cols: int,
    rows: int,
    b: Board,
    outlet: Outlet,
    depths: Seq<int>,
)
    ensures
        depths_tried(cols, rows, b, outlet, depths).placed.len() >= b.placed.len(),
    decreases depths.len(),
{
    if depths.len() > 0 {
        let (after, placed) = depth_tried(cols, rows, b, outlet, depths[0]);
        if !placed {
            lemma_depths_keep_arrows(cols, rows, after, outlet, depths.drop_first());
        }
    }
}

proof fn lemma_outlets_keep_arrows(cols: int, rows: int, b: Board, list: Seq<Outlet>)
    ensures
        outlets_served(cols, rows, b, list).placed.len() >= b.placed.len(),
    decreases list.len(),
{
    if list.len() > 0 {
        let (depths, state) = shuffled(depth_choices(), b.state);
        lemma_depths_keep_arrows(cols, rows, Board { placed: b.placed, state }, list[0], depths);
        lemma_outlets_keep_arrows(
            cols,
            rows,
            outlet_served(cols, rows, b, list[0]),
            list.drop_first(),
        );
    }
}

} // verus!
