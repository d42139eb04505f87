//! The level generator.

use crate::ivec::{
    ahead, board_cells_have_distinct_slots, cardinal, cell_index, cells, fits, in_bounds,
    lemma_index_in_range, marked, on_board, opposite, plus, shift, storable, Cell, IVec2,
};
use crate::path::{covers, mark_path_occupied, on_segment, path_on_board, straight_path};
use crate::placement::{placed_arrow_is_well_formed, tail_walk, try_place_arrow, unmasked};
use crate::rng::{
    first_state, next_state, shuffle_commutes_with_map, shuffle_permutes, shuffled, Rng,
};
use crate::solvable::{
    level_arrows_are_well_formed, level_is_solvable_in_order, solvable, well_formed,
};
use vstd::prelude::*;
use vstd::seq_lib::group_to_multiset_ensures;

verus! {

/// Maximum distance, in cells, from a board-edge cell to its arrowhead.
pub const MAX_HEAD_DEPTH: i32 = 4;

/// One arrow of a level.
pub struct ArrowSpec {
    /// Path vertices from tail end to arrowhead, in grid coordinates.
    pub vertices: Vec<IVec2>,
    /// Random hue, as a fraction of a full turn over two to the power 24.
    pub hue: u32,
}

/// The mathematical content of an [`ArrowSpec`].
pub struct Arrow {
    pub path: Seq<Cell>,
    pub hue: u32,
}

impl View for ArrowSpec {
    type V = Arrow;

    open spec fn view(&self) -> Arrow {
        Arrow { path: cells(self.vertices@), hue: self.hue }
    }
}

/// The contents of a list of arrows.
pub open spec fn arrows(list: Seq<ArrowSpec>) -> Seq<Arrow> {
    list.map_values(|a: ArrowSpec| a@)
}

/// A place at which an arrow can leave the board: a cell on the edge, and the
/// direction that leads inward from it.
pub type Outlet = (Cell, Cell);

/// `k`, or zero if it is negative.
pub open spec fn floored(k: int) -> nat {
    if k > 0 {
        k as nat
    } else {
        0
    }
}

/// The outlets of a board, one per boundary cell and edge that it touches:
/// bottom and top for each column, then left and right for each row.
pub open spec fn outlets(cols: int, rows: int) -> Seq<Outlet> {
    column_outlets(rows, floored(cols)) + row_outlets(cols, floored(rows))
}

/// The outlets of the first `n` columns of a board with `rows` rows.
pub open spec fn column_outlets(rows: int, n: nat) -> Seq<Outlet> {
    Seq::new(
        2 * n,
        |i: int|
            if i % 2 == 0 {
                ((i / 2, 0int), (0int, 1int))
            } else {
                ((i / 2, rows - 1), (0int, -1int))
            },
    )
}

/// The outlets of the first `n` rows of a board with `cols` columns.
pub open spec fn row_outlets(cols: int, n: nat) -> Seq<Outlet> {
    Seq::new(
        2 * n,
        |i: int|
            if i % 2 == 0 {
                ((0int, i / 2), (1int, 0int))
            } else {
                ((cols - 1, i / 2), (-1int, 0int))
            },
    )
}

/// The generator part-way: the arrows placed so far, the one that is solved
/// last at the front, and the state of the random stream.
pub struct Board {
    pub placed: Seq<Arrow>,
    pub state: u32,
}

/// Some arrow of `placed` covers `c`.
pub open spec fn occupied_by(placed: Seq<Arrow>, c: Cell) -> bool {
    exists|i: int| 0 <= i < placed.len() && covers(#[trigger] placed[i].path, c)
}

/// No arrow of `placed` stands between `head` and the edge ahead of it.
pub open spec fn corridor_is_clear(
    cols: int,
    rows: int,
    placed: Seq<Arrow>,
    head: Cell,
    d: Cell,
) -> bool {
    forall|c: Cell| #[trigger]
        on_board(c, cols, rows) && ahead(head, d, c) ==> !occupied_by(placed, c)
}

/// An arrowhead may stand at `head` and point along `d`.
pub open spec fn suits_head(cols: int, rows: int, placed: Seq<Arrow>, head: Cell, d: Cell) -> bool {
    &&& on_board(head, cols, rows)
    &&& !occupied_by(placed, head)
    &&& corridor_is_clear(cols, rows, placed, head, d)
}

/// The cells that the tail of an arrowhead at `head` may use: those that no
/// arrow covers and that do not block its own way out.
pub open spec fn tail_room(
    cols: int,
    rows: int,
    placed: Seq<Arrow>,
    head: Cell,
    d: Cell,
) -> spec_fn(Cell) -> bool {
    |c: Cell| on_board(c, cols, rows) && !occupied_by(placed, c) && !ahead(head, d, c)
}

/// The board after an outlet has tried one depth, and whether an arrow was
/// placed.
pub open spec fn depth_tried(cols: int, rows: int, b: Board, outlet: Outlet, depth: int) -> (
    Board,
    bool,
) {
    let d = opposite(outlet.1);
    let head = shift(outlet.0, outlet.1, depth);
    if suits_head(cols, rows, b.placed, head, d) {
        let w = tail_walk(tail_room(cols, rows, b.placed, head, d), head, d, b.state);
        if w.stops.len() > 1 {
            let drawn = next_state(w.state);
            let arrow = Arrow { path: w.stops.reverse(), hue: (drawn / 256) as u32 };
            (Board { placed: b.placed.push(arrow), state: drawn }, true)
        } else {
            (Board { placed: b.placed, state: w.state }, false)
        }
    } else {
        (b, false)
    }
}

/// The board after an outlet has tried the `depths` in turn, up to the first at
/// which an arrow was placed.
pub open spec fn depths_tried(
    cols: int,
    rows: int,
    b: Board,
    outlet: Outlet,
    depths: Seq<int>,
) -> Board
    decreases depths.len(),
{
    if depths.len() == 0 {
        b
    } else {
        let (after, placed) = depth_tried(cols, rows, b, outlet, depths[0]);
        if placed {
            after
        } else {
            depths_tried(cols, rows, after, outlet, depths.drop_first())
        }
    }
}

/// The depths that an outlet can choose from.
pub open spec fn depth_choices() -> Seq<int> {
    Seq::new(MAX_HEAD_DEPTH as nat, |i: int| i + 1)
}

/// The board after one outlet had its turn.
pub open spec fn outlet_served(cols: int, rows: int, b: Board, outlet: Outlet) -> Board {
    let (depths, state) = shuffled(depth_choices(), b.state);
    depths_tried(cols, rows, Board { state, ..b }, outlet, depths)
}

/// The board after each of the outlets in `list` had its turn.
pub open spec fn outlets_served(cols: int, rows: int, b: Board, list: Seq<Outlet>) -> Board
    decreases list.len(),
{
    if list.len() == 0 {
        b
    } else {
        outlets_served(cols, rows, outlet_served(cols, rows, b, list[0]), list.drop_first())
    }
}

/// The board when every outlet, in shuffled order, had its turn.
pub open spec fn final_board(cols: int, rows: int, seed: u32) -> Board {
    let (list, state) = shuffled(outlets(cols, rows), first_state(seed));
    outlets_served(cols, rows, Board { placed: Seq::empty(), state }, list)
}

/// The level of `seed`, in solve order.
pub open spec fn level(cols: int, rows: int, seed: u32) -> Seq<Arrow> {
    final_board(cols, rows, seed).placed.reverse()
}

/// The mask `occupied` marks exactly the board cells that `placed` covers.
pub open spec fn mask_of(occupied: Seq<bool>, cols: int, rows: int, placed: Seq<Arrow>) -> bool {
    &&& occupied.len() == cols * rows
    &&& forall|c: Cell| #[trigger]
        on_board(c, cols, rows) ==> (marked(occupied, cols, c) <==> occupied_by(placed, c))
}

/// The number of board cells from `c` to the edge in direction `d`, `c` included.
pub open spec fn cells_to_edge(c: Cell, d: Cell, cols: int, rows: int) -> int {
    if d == (1int, 0int) {
        cols - c.0
    } else if d == (-1int, 0int) {
        c.0 + 1
    } else if d == (0int, 1int) {
        rows - c.1
    } else {
        c.1 + 1
    }
}

/// Whether no cell ahead of `head` is marked as occupied.
pub fn corridor_clear(cols: i32, rows: i32, occupied: &[bool], head: IVec2, dir: IVec2) -> (clear:
    bool)
    requires
        storable(cols as int, rows as int),
        occupied@.len() >= cols * rows,
        on_board(head@, cols as int, rows as int),
        cardinal(dir@),
    ensures
        clear <==> forall|c: Cell| #[trigger]
            on_board(c, cols as int, rows as int) && ahead(head@, dir@, c) ==> !marked(
                occupied@,
                cols as int,
                c,
            ),
{
    let ghost (k, h) = (cols as int, rows as int);
    let mut step: IVec2 = head.plus(dir);
    while in_bounds(step, cols, rows)
        invariant
            k == cols,
            h == rows,
            storable(k, h),
            occupied@.len() >= k * h,
            cardinal(dir@),
            on_board(head@, k, h),
            ahead(head@, dir@, step@),
            on_board(plus(step@, opposite(dir@)), k, h),
            forall|c: Cell| #[trigger]
                on_board(c, k, h) && ahead(head@, dir@, c) && c != step@ && !ahead(
                    step@,
                    dir@,
                    c,
                ) ==> !marked(occupied@, k, c),
        decreases cells_to_edge(step@, dir@, k, h),
    {
        proof {
            lemma_index_in_range(step@, k, h);
        }
        if occupied[cell_index(step, cols)] {
            assert(on_board(step@, k, h) && marked(occupied@, k, step@));
            return false;
        }
        step = step.plus(dir);
    }
    true
}

/// A mask of the cells ahead of `head`.
pub fn corridor_mask(cols: i32, rows: i32, head: IVec2, dir: IVec2) -> (mask: Vec<bool>)
    requires
        storable(cols as int, rows as int),
        on_board(head@, cols as int, rows as int),
        cardinal(dir@),
    ensures
        mask@.len() == cols * rows,
        forall|c: Cell| #[trigger]
            on_board(c, cols as int, rows as int) ==> (marked(mask@, cols as int, c) <==> ahead(
                head@,
                dir@,
                c,
            )),
{
    let ghost (k, h) = (cols as int, rows as int);
    let mut mask: Vec<bool> = vec![false; (cols * rows) as usize];
    let mut step: IVec2 = head.plus(dir);
    assert forall|c: Cell| #[trigger] on_board(c, k, h) implies !marked(mask@, k, c) by {
        lemma_index_in_range(c, k, h);
    }
    while in_bounds(step, cols, rows)
        invariant
            k == cols,
            h == rows,
            storable(k, h),
            mask@.len() == k * h,
            cardinal(dir@),
            on_board(head@, k, h),
            ahead(head@, dir@, step@),
            on_board(plus(step@, opposite(dir@)), k, h),
            forall|c: Cell| #[trigger]
                on_board(c, k, h) ==> (marked(mask@, k, c) <==> (ahead(head@, dir@, c) && c != step@
                    && !ahead(step@, dir@, c))),
        decreases cells_to_edge(step@, dir@, k, h),
    {
        let ghost was = mask@;
        let ghost at = step@;
        proof {
            lemma_index_in_range(step@, k, h);
        }
        mask[cell_index(step, cols)] = true;
        step = step.plus(dir);
        assert forall|c: Cell| #[trigger] on_board(c, k, h) implies (marked(mask@, k, c) <==> (ahead(
            head@,
            dir@,
            c,
        ) && c != step@ && !ahead(step@, dir@, c))) by {
            lemma_index_in_range(c, k, h);
            board_cells_have_distinct_slots(at, c, k, h);
            assert(marked(was, k, c) <==> (ahead(head@, dir@, c) && c != at && !ahead(at, dir@, c)));
        }
    }
    mask
}

/// An executable outlet as a mathematical one.
pub open spec fn outlet_of(o: (IVec2, IVec2)) -> Outlet {
    (o.0@, o.1@)
}

/// The heads that an outlet can ask for have `i32` coordinates.
pub open spec fn reachable(outlet: Outlet) -> bool {
    &&& cardinal(outlet.1)
    &&& forall|k: int| 0 <= k <= MAX_HEAD_DEPTH ==> fits(#[trigger] shift(outlet.0, outlet.1, k))
}

/// Tries to place an arrow whose head stands `depth` cells inward of an outlet.
fn try_depth(
    cols: i32,
    rows: i32,
    occupied: &mut Vec<bool>,
    placed: &mut Vec<ArrowSpec>,
    edge_cell: IVec2,
    inward: IVec2,
    depth: i32,
    rng: &mut Rng,
) -> (done: bool)
    requires
        storable(cols as int, rows as int),
        mask_of(old(occupied)@, cols as int, rows as int, arrows(old(placed)@)),
        reachable((edge_cell@, inward@)),
        1 <= depth <= MAX_HEAD_DEPTH,
    ensures
        mask_of(final(occupied)@, cols as int, rows as int, arrows(final(placed)@)),
        (Board { placed: arrows(final(placed)@), state: final(rng)@ }, done) == depth_tried(
            cols as int,
            rows as int,
            Board { placed: arrows(old(placed)@), state: old(rng)@ },
            (edge_cell@, inward@),
            depth as int,
        ),
{
    let ghost (k, h) = (cols as int, rows as int);
    let ghost before = arrows(placed@);
    // The arrowhead slides outward, toward the edge cell.
    let head_dir: IVec2 = inward.negated();
    proof {
        lemma_outlet_head((edge_cell@, inward@), depth as int);
    }
    let arrowhead: IVec2 = edge_cell.plus(inward.times(depth));
    let ghost head = arrowhead@;
    let ghost d = head_dir@;
    if !in_bounds(arrowhead, cols, rows) {
        return false;
    }
    proof {
        lemma_index_in_range(head, k, h);
    }
    if occupied[cell_index(arrowhead, cols)] {
        return false;
    }
    if !corridor_clear(cols, rows, occupied.as_slice(), arrowhead, head_dir) {
        assert(!corridor_is_clear(k, h, before, head, d));
        return false;
    }
    assert(corridor_is_clear(k, h, before, head, d));
    // The tail has to keep out of the arrow's own corridor.
    let corridor: Vec<bool> = corridor_mask(cols, rows, arrowhead, head_dir);
    let ghost free = unmasked(k, h, occupied@, corridor@);
    assert(free =~= tail_room(k, h, before, head, d));
    let ghost state = rng@;
    let attempt: Option<Vec<IVec2>> = try_place_arrow(
        cols,
        rows,
        occupied.as_slice(),
        corridor.as_slice(),
        arrowhead,
        head_dir,
        rng,
    );
    match attempt {
        None => false,
        Some(vertices) => {
            let ghost path = cells(vertices@);
            let ghost mask = occupied@;
            proof {
                lemma_placed_path_on_board(k, h, before, head, d, state);
            }
            mark_path_occupied(occupied.as_mut_slice(), cols, rows, &vertices);
            let hue: u32 = rng.unit_numerator();
            placed.push(ArrowSpec { vertices, hue });
            proof {
                let arrow = Arrow { path, hue };
                assert(arrows(placed@) =~= before.push(arrow));
                lemma_mask_of_pushed(mask, occupied@, k, h, before, arrow);
            }
            true
        },
    }
}

/// Gives one outlet its turn: tries the head depths in shuffled order, and
/// places an arrow at the first that admits one.
fn serve_outlet(
    cols: i32,
    rows: i32,
    occupied: &mut Vec<bool>,
    placed: &mut Vec<ArrowSpec>,
    edge_cell: IVec2,
    inward: IVec2,
    rng: &mut Rng,
)
    requires
        storable(cols as int, rows as int),
        mask_of(old(occupied)@, cols as int, rows as int, arrows(old(placed)@)),
        reachable((edge_cell@, inward@)),
    ensures
        mask_of(final(occupied)@, cols as int, rows as int, arrows(final(placed)@)),
        (Board { placed: arrows(final(placed)@), state: final(rng)@ }) == outlet_served(
            cols as int,
            rows as int,
            Board { placed: arrows(old(placed)@), state: old(rng)@ },
            (edge_cell@, inward@),
        ),
{
    let ghost (k, h) = (cols as int, rows as int);
    let ghost outlet = (edge_cell@, inward@);
    let ghost whole = outlet_served(
        k,
        h,
        Board { placed: arrows(placed@), state: rng@ },
        outlet,
    );
    let mut depths: Vec<i32> = Vec::new();
    let mut next: i32 = 1;
    while next <= MAX_HEAD_DEPTH
        invariant
            1 <= next <= MAX_HEAD_DEPTH + 1,
            depths@ =~= Seq::new((next - 1) as nat, |i: int| (i + 1) as i32),
        decreases MAX_HEAD_DEPTH + 1 - next,
    {
        depths.push(next);
        next = next + 1;
    }
    let ghost unshuffled = depths@;
    let ghost start = rng@;
    rng.shuffle(depths.as_mut_slice());
    let ghost as_int = |d: i32| d as int;
    let ghost choices = depths@.map_values(as_int);
    proof {
        shuffle_commutes_with_map(unshuffled, start, as_int);
        assert(unshuffled.map_values(as_int) =~= depth_choices());
        lemma_shuffled_depths(start);
        assert(choices.skip(0) =~= choices);
    }

    let mut i: usize = 0;
    let mut done: bool = false;
    while !done && i < depths.len()
        invariant
            k == cols,
            h == rows,
            storable(k, h),
            mask_of(occupied@, k, h, arrows(placed@)),
            outlet == (edge_cell@, inward@),
            reachable(outlet),
            choices == depths@.map_values(|d: i32| d as int),
            forall|j: int| 0 <= j < choices.len() ==> 1 <= #[trigger] choices[j] <= MAX_HEAD_DEPTH,
            0 <= i <= depths.len(),
            !done ==> whole == depths_tried(
                k,
                h,
                Board { placed: arrows(placed@), state: rng@ },
                outlet,
                choices.skip(i as int),
            ),
            done ==> whole == (Board { placed: arrows(placed@), state: rng@ }),
        decreases depths.len() - i,
    {
        let ghost rest = choices.skip(i as int);
        proof {
            assert(choices[i as int] == depths@[i as int]);
            assert(rest[0] == choices[i as int]);
            assert(rest.drop_first() =~= choices.skip(i + 1));
        }
        done = try_depth(cols, rows, occupied, placed, edge_cell, inward, depths[i], rng);
        i = i + 1;
    }
}

/// Generates a level deterministically from `seed`. Returns the arrows in
/// **solve order**: the first is the arrow that the player must click first,
/// the last is the last to be cleared.
///
/// Arrows are placed in reverse order: the arrow placed *first* is the *last*
/// one that the player solves, since by then every arrow solved earlier has
/// left the board. Each turn takes an unused outlet on the board edge, looks
/// for an arrowhead position with a clear corridor to that edge, and walks a
/// tail backward from it. Only body cells count as occupied; corridor cells
/// stay free, so that arrows placed later (solved earlier) may cross them.
pub fn generate_level(cols: i32, rows: i32, seed: u32) -> (result: Vec<ArrowSpec>)
    requires
        storable(cols as int, rows as int),
    ensures
        arrows(result@) == level(cols as int, rows as int, seed),
        forall|i: int|
            0 <= i < result@.len() ==> ({
                let arrow = level(cols as int, rows as int, seed)[i];
                &&& (#[trigger] result@[i]).hue == arrow.hue
                &&& cells(result@[i].vertices@) == arrow.path
            }),
        solvable(cols as int, rows as int, arrows(result@)),
        forall|i: int|
            0 <= i < result@.len() ==> well_formed(
                (#[trigger] result@[i])@,
                cols as int,
                rows as int,
            ),
{
    let ghost (k, h) = (cols as int, rows as int);
    let mut rng: Rng = Rng::new(seed);
    let mut occupied: Vec<bool> = vec![false; (cols * rows) as usize];
    let mut placed: Vec<ArrowSpec> = Vec::new();

    proof {
        lemma_same_sign(k, h);
    }
    let mut exits: Vec<(IVec2, IVec2)> = edge_outlets(cols, rows);
    let ghost unshuffled = exits@;
    let ghost start = rng@;
    rng.shuffle(exits.as_mut_slice());
    let ghost as_outlet = |o: (IVec2, IVec2)| outlet_of(o);
    let ghost list = exits@.map_values(as_outlet);
    let ghost whole = final_board(k, h, seed);
    proof {
        shuffle_commutes_with_map(unshuffled, start, as_outlet);
        assert(unshuffled.map_values(as_outlet) =~= outlets(k, h));
        lemma_shuffled_outlets_reachable(k, h, start);
        assert(list.skip(0) =~= list);
        assert(arrows(placed@) =~= Seq::empty());
        assert forall|c: Cell| #[trigger] on_board(c, k, h) implies (marked(occupied@, k, c)
            <==> occupied_by(arrows(placed@), c)) by {
            lemma_index_in_range(c, k, h);
        }
    }

    let mut i: usize = 0;
    while i < exits.len()
        invariant
            k == cols,
            h == rows,
            storable(k, h),
            mask_of(occupied@, k, h, arrows(placed@)),
            list == exits@.map_values(|o: (IVec2, IVec2)| outlet_of(o)),
            forall|j: int| 0 <= j < list.len() ==> reachable(#[trigger] list[j]),
            0 <= i <= exits.len(),
            whole == outlets_served(
                k,
                h,
                Board { placed: arrows(placed@), state: rng@ },
                list.skip(i as int),
            ),
        decreases exits.len() - i,
    {
        let (edge_cell, inward) = exits[i];
        proof {
            assert(list[i as int] == (edge_cell@, inward@));
            assert(list.skip(i as int)[0] == list[i as int]);
            assert(list.skip(i as int).drop_first() =~= list.skip(i + 1));
        }
        serve_outlet(cols, rows, &mut occupied, &mut placed, edge_cell, inward, &mut rng);
        i = i + 1;
    }

    // Solve order is the reverse of placement order.
    let ghost in_order = placed@;
    let mut result: Vec<ArrowSpec> = Vec::new();
    while placed.len() > 0
        invariant
            in_order.len() == placed@.len() + result@.len(),
            placed@ =~= in_order.take(placed@.len() as int),
            forall|j: int|
                0 <= j < result@.len() ==> #[trigger] result@[j] == in_order[in_order.len() - 1 - j],
        decreases placed.len(),
    {
        let last: Option<ArrowSpec> = placed.pop();
        if let Some(arrow) = last {
            result.push(arrow);
        }
    }
    assert(result@ =~= in_order.reverse());
    assert(arrows(result@) =~= arrows(in_order).reverse());
    proof {
        level_is_solvable_in_order(k, h, seed);
        level_arrows_are_well_formed(k, h, seed);
        assert forall|j: int| 0 <= j < result@.len() implies well_formed(
            (#[trigger] result@[j])@,
            k,
            h,
        ) by {
            assert(level(k, h, seed)[j] == result@[j]@);
        }
        assert forall|j: int| 0 <= j < result@.len() implies ({
            let arrow = level(k, h, seed)[j];
            &&& (#[trigger] result@[j]).hue == arrow.hue
            &&& cells(result@[j].vertices@) == arrow.path
        }) by {
            assert(level(k, h, seed)[j] == result@[j]@);
        }
    }
    result
}

/// Lists the outlets of the board, one per boundary cell and edge that it
/// touches; a corner cell contributes two.
pub fn edge_outlets(cols: i32, rows: i32) -> (list: Vec<(IVec2, IVec2)>)
    requires
        cols > 0 ==> rows > i32::MIN,
        rows > 0 ==> cols > i32::MIN,
    ensures
        list@.map_values(|o: (IVec2, IVec2)| outlet_of(o)) == outlets(cols as int, rows as int),
        list@.len() == outlets(cols as int, rows as int).len(),
        forall|i: int|
            0 <= i < list@.len() ==> ({
                let (c, d) = outlets(cols as int, rows as int)[i];
                let (p, v) = #[trigger] list@[i];
                &&& p.x == c.0 && p.y == c.1
                &&& v.x == d.0 && v.y == d.1
            }),
{
    let ghost (k, h) = (cols as int, rows as int);
    let ghost as_outlet = |o: (IVec2, IVec2)| outlet_of(o);
    let mut list: Vec<(IVec2, IVec2)> = Vec::new();
    let mut c: i32 = 0;
    while c < cols
        invariant
            cols > 0 ==> rows > i32::MIN,
            h == rows,
            0 <= c,
            c <= cols || c == 0,
            as_outlet == (|o: (IVec2, IVec2)| outlet_of(o)),
            list@.map_values(as_outlet) =~= column_outlets(h, c as nat),
        decreases cols - c,
    {
        list.push((IVec2::new(c, 0), IVec2::new(0, 1)));  // bottom edge, inward is up
        list.push((IVec2::new(c, rows - 1), IVec2::new(0, -1)));  // top edge, inward is down
        proof {
            let (was, now) = (column_outlets(h, c as nat), column_outlets(h, (c + 1) as nat));
            assert(now =~= was.push(((c as int, 0), (0, 1))).push(((c as int, h - 1), (0, -1))));
        }
        c = c + 1;
    }
    let mut r: i32 = 0;
    assert(column_outlets(h, floored(k)) + row_outlets(k, 0) =~= column_outlets(h, floored(k)));
    while r < rows
        invariant
            rows > 0 ==> cols > i32::MIN,
            k == cols,
            h == rows,
            0 <= r,
            r <= rows || r == 0,
            as_outlet == (|o: (IVec2, IVec2)| outlet_of(o)),
            list@.map_values(as_outlet) =~= column_outlets(h, floored(k)) + row_outlets(
                k,
                r as nat,
            ),
        decreases rows - r,
    {
        list.push((IVec2::new(0, r), IVec2::new(1, 0)));  // left edge, inward is right
        list.push((IVec2::new(cols - 1, r), IVec2::new(-1, 0)));  // right edge, inward is left
        proof {
            let (was, now) = (row_outlets(k, r as nat), row_outlets(k, (r + 1) as nat));
            assert(now =~= was.push(((0, r as int), (1, 0))).push(((k - 1, r as int), (-1, 0))));
            let base = column_outlets(h, floored(k));
            assert(base + now =~= (base + was).push(((0, r as int), (1, 0))).push(
                ((k - 1, r as int), (-1, 0)),
            ));
        }
        r = r + 1;
    }
    assert forall|i: int| 0 <= i < list@.len() implies ({
        let (e, d) = outlets(k, h)[i];
        let (p, v) = #[trigger] list@[i];
        &&& p.x == e.0 && p.y == e.1
        &&& v.x == d.0 && v.y == d.1
    }) by {
        assert(list@.map_values(as_outlet)[i] == outlets(k, h)[i]);
    }
    list
}

/// The head at depth `k`, as the generator computes it.
proof fn lemma_outlet_head(outlet: Outlet, k: int)
    requires
        reachable(outlet),
        0 <= k <= MAX_HEAD_DEPTH,
    ensures
        fits((outlet.1.0 * k, outlet.1.1 * k)),
        plus(outlet.0, (outlet.1.0 * k, outlet.1.1 * k)) == shift(outlet.0, outlet.1, k),
        fits(shift(outlet.0, outlet.1, k)),
{
    let d = outlet.1;
    assert(d.0 * k == (if d.0 == 1 {
        k
    } else if d.0 == 0 {
        0
    } else {
        -k
    })) by (nonlinear_arith)
        requires
            -1 <= d.0 <= 1,
    ;
    assert(d.1 * k == (if d.1 == 1 {
        k
    } else if d.1 == 0 {
        0
    } else {
        -k
    })) by (nonlinear_arith)
        requires
            -1 <= d.1 <= 1,
    ;
}

/// Each point of a polyline with a segment is covered by it.
proof fn lemma_points_are_covered(path: Seq<Cell>)
    requires
        path.len() >= 2,
        straight_path(path),
    ensures
        forall|i: int| 0 <= i < path.len() ==> covers(path, #[trigger] path[i]),
{
    assert forall|i: int| 0 <= i < path.len() implies covers(path, #[trigger] path[i]) by {
        if i < path.len() - 1 {
            assert(on_segment(path[i], path[i + 1], path[i]));
        } else {
            assert(on_segment(path[i - 1], path[i - 1 + 1], path[i]));
        }
    }
}

/// Without arrows no cell is occupied, and one more arrow adds the cells that it
/// covers.
pub proof fn lemma_occupied_by_pushed(placed: Seq<Arrow>, arrow: Arrow, c: Cell)
    ensures
        occupied_by(placed.push(arrow), c) <==> occupied_by(placed, c) || covers(arrow.path, c),
        placed.len() == 0 ==> !occupied_by(placed, c),
{
    let more = placed.push(arrow);
    if occupied_by(more, c) {
        let i = choose|i: int| 0 <= i < more.len() && covers(#[trigger] more[i].path, c);
        if i < placed.len() {
            assert(covers(placed[i].path, c));
        }
    }
    if occupied_by(placed, c) {
        let i = choose|i: int| 0 <= i < placed.len() && covers(#[trigger] placed[i].path, c);
        assert(covers(more[i].path, c));
    }
    if covers(arrow.path, c) {
        assert(covers(more[placed.len() as int].path, c));
    }
}

/// A path laid in the room left on a board stays on it.
proof fn lemma_placed_path_on_board(
    cols: int,
    rows: int,
    placed: Seq<Arrow>,
    head: Cell,
    d: Cell,
    state: u32,
)
    requires
        cardinal(d),
        on_board(head, cols, rows),
        tail_walk(tail_room(cols, rows, placed, head, d), head, d, state).stops.len() > 1,
    ensures
        path_on_board(
            tail_walk(tail_room(cols, rows, placed, head, d), head, d, state).stops.reverse(),
            cols,
            rows,
        ),
{
    let free = tail_room(cols, rows, placed, head, d);
    let path = tail_walk(free, head, d, state).stops.reverse();
    lemma_tail_points(free, head, d, state);
    assert forall|i: int| 0 <= i < path.len() implies on_board(#[trigger] path[i], cols, rows) by {
        assert(path[i] == head || free(path[i]));
    }
}

/// The points of a tail are the arrowhead and free cells.
proof fn lemma_tail_points(free: spec_fn(Cell) -> bool, head: Cell, d: Cell, state: u32)
    requires
        cardinal(d),
        tail_walk(free, head, d, state).stops.len() > 1,
    ensures
        ({
            let path = tail_walk(free, head, d, state).stops.reverse();
            forall|i: int| 0 <= i < path.len() ==> #[trigger] path[i] == head || free(path[i])
        }),
{
    let path = tail_walk(free, head, d, state).stops.reverse();
    assert(straight_path(path) && forall|c: Cell| #[trigger]
        covers(path, c) ==> c == head || free(c)) by {
        placed_arrow_is_well_formed(free, head, d, state);
    }
    lemma_points_are_covered(path);
    assert forall|i: int| 0 <= i < path.len() implies #[trigger] path[i] == head || free(path[i]) by {
        assert(covers(path, path[i]));
    }
}

/// Marking the cells of one more arrow keeps the mask exact.
proof fn lemma_mask_of_pushed(
    was: Seq<bool>,
    now: Seq<bool>,
    cols: int,
    rows: int,
    placed: Seq<Arrow>,
    arrow: Arrow,
)
    requires
        mask_of(was, cols, rows, placed),
        now.len() == was.len(),
        forall|c: Cell| #[trigger]
            on_board(c, cols, rows) ==> (marked(now, cols, c) <==> (marked(was, cols, c) || covers(
                arrow.path,
                c,
            ))),
    ensures
        mask_of(now, cols, rows, placed.push(arrow)),
{
    assert forall|c: Cell| #[trigger] on_board(c, cols, rows) implies (marked(now, cols, c)
        <==> occupied_by(placed.push(arrow), c)) by {
        lemma_occupied_by_pushed(placed, arrow, c);
    }
}

/// A shuffle hands out exactly the elements that went into it.
pub proof fn lemma_shuffled_elements<T>(s: Seq<T>, state: u32)
    ensures
        forall|i: int|
            0 <= i < shuffled(s, state).0.len() ==> s.contains(#[trigger] shuffled(s, state).0[i]),
        forall|x: T| #[trigger] s.contains(x) ==> shuffled(s, state).0.contains(x),
{
    broadcast use group_to_multiset_ensures;

    shuffle_permutes(s, state);
    let t = shuffled(s, state).0;
    assert forall|i: int| 0 <= i < t.len() implies s.contains(#[trigger] t[i]) by {
        assert(t.contains(t[i]));
        assert(t.to_multiset().count(t[i]) > 0);
        assert(s.to_multiset().count(t[i]) > 0);
    }
    assert forall|x: T| #[trigger] s.contains(x) implies t.contains(x) by {
        assert(s.to_multiset().count(x) > 0);
        assert(t.to_multiset().count(x) > 0);
    }
}

/// Shuffled depths are still permitted depths.
pub proof fn lemma_shuffled_depths(state: u32)
    ensures
        forall|i: int|
            0 <= i < shuffled(depth_choices(), state).0.len() ==> 1 <= #[trigger] shuffled(
                depth_choices(),
                state,
            ).0[i] <= MAX_HEAD_DEPTH,
{
    lemma_shuffled_elements(depth_choices(), state);
    let t = shuffled(depth_choices(), state).0;
    assert forall|i: int| 0 <= i < t.len() implies 1 <= #[trigger] t[i] <= MAX_HEAD_DEPTH by {
        assert(depth_choices().contains(t[i]));
    }
}

/// Every outlet asks for heads with `i32` coordinates only.
proof fn lemma_shuffled_outlets_reachable(cols: int, rows: int, state: u32)
    requires
        cols <= i32::MAX,
        rows <= i32::MAX,
        cols * rows >= 0,
        cols >= i32::MIN,
        rows >= i32::MIN,
    ensures
        forall|i: int|
            0 <= i < shuffled(outlets(cols, rows), state).0.len() ==> reachable(
                #[trigger] shuffled(outlets(cols, rows), state).0[i],
            ),
{
    lemma_same_sign(cols, rows);
    let all = outlets(cols, rows);
    lemma_shuffled_elements(all, state);
    let t = shuffled(all, state).0;
    assert forall|i: int| 0 <= i < t.len() implies reachable(#[trigger] t[i]) by {
        assert(all.contains(t[i]));
        let j = choose|j: int| 0 <= j < all.len() && all[j] == t[i];
        if j < column_outlets(rows, floored(cols)).len() {
            assert(all[j] == column_outlets(rows, floored(cols))[j]);
        } else {
            assert(all[j] == row_outlets(cols, floored(rows))[j - column_outlets(
                rows,
                floored(cols),
            ).len()]);
        }
    }
}

/// Dimensions with a product that is not negative do not differ in sign.
proof fn lemma_same_sign(cols: int, rows: int)
    requires
        cols * rows >= 0,
    ensures
        cols > 0 ==> rows >= 0,
        rows > 0 ==> cols >= 0,
{
    assert(cols > 0 ==> rows >= 0) by (nonlinear_arith)
        requires
            cols * rows >= 0,
    ;
    assert(rows > 0 ==> cols >= 0) by (nonlinear_arith)
        requires
            cols * rows >= 0,
    ;
}

} // verus!
