//! Placement of one arrow: a random walk that lays a tail behind an arrowhead.

use crate::ivec::{
    board_cells_have_distinct_slots, cardinal, cell_index, cells, in_bounds, left_of,
    lemma_index_in_range, marked, on_board, opposite, plus, right_of, shift, storable, turn_left,
    turn_right, Cell, IVec2,
};
use crate::path::{
    covers, gap, on_segment, paths_cover_segment_by_segment, straight, straight_path,
};
use crate::rng::{after_draws, heads, next_state, pick, Rng};
use vstd::prelude::*;

verus! {

/// Maximum number of axis-aligned segments per arrow tail.
pub const MAX_SEGMENTS: i32 = 4;

/// Smallest length of a single tail segment, in cells.
pub const MIN_SEG_LEN: i32 = 1;

/// Largest length of a single tail segment, in cells.
pub const MAX_SEG_LEN: i32 = 5;

/// The progress of a tail that grows away from an arrowhead.
pub struct Walk {
    /// The arrowhead, then the end of each segment walked so far.
    pub stops: Seq<Cell>,
    /// Every cell walked so far, in order, the arrowhead first.
    pub trail: Seq<Cell>,
    /// The state of the random stream.
    pub state: u32,
}

/// The trail after at most `n` steps in direction `d`: it ends early in front
/// of a cell that is not free or that it holds already.
pub open spec fn stride(free: spec_fn(Cell) -> bool, trail: Seq<Cell>, d: Cell, n: int) -> Seq<Cell>
    decreases n,
{
    let next = plus(trail.last(), d);
    if n <= 0 || !free(next) || trail.contains(next) {
        trail
    } else {
        stride(free, trail.push(next), d, n - 1)
    }
}

/// The walk after at most `n` more segments, the first in direction `d`. Each
/// segment draws its length; a segment cut short is the last one, and so is
/// one that cannot begin; after a full segment a coin picks the side to turn to.
pub open spec fn walk(free: spec_fn(Cell) -> bool, w: Walk, d: Cell, n: int) -> Walk
    decreases n,
{
    if n <= 0 {
        w
    } else {
        let drawn = next_state(w.state);
        let target = pick(drawn, MIN_SEG_LEN as int, MAX_SEG_LEN as int);
        let trail = stride(free, w.trail, d, target);
        let steps = trail.len() - w.trail.len();
        if steps == 0 {
            Walk { state: drawn, ..w }
        } else {
            let stops = w.stops.push(trail.last());
            if steps < target {
                Walk { stops, trail, state: drawn }
            } else {
                let coin = next_state(drawn);
                let turned = if heads(coin) {
                    left_of(d)
                } else {
                    right_of(d)
                };
                walk(free, Walk { stops, trail, state: coin }, turned, n - 1)
            }
        }
    }
}

/// The whole tail walk behind an arrowhead at `head` that points along `d`.
pub open spec fn tail_walk(free: spec_fn(Cell) -> bool, head: Cell, d: Cell, state: u32) -> Walk {
    let drawn = next_state(state);
    walk(
        free,
        Walk { stops: seq![head], trail: seq![head], state: drawn },
        opposite(d),
        pick(drawn, 1, MAX_SEGMENTS as int),
    )
}

/// The cells of the board that neither mask marks.
pub open spec fn unmasked(
    cols: int,
    rows: int,
    occupied: Seq<bool>,
    corridor: Seq<bool>,
) -> spec_fn(Cell) -> bool {
    |c: Cell| on_board(c, cols, rows) && !marked(occupied, cols, c) && !marked(corridor, cols, c)
}

/// Random-walks a tail backward from `arrowhead` and assembles the arrow's
/// vertex list, tail end first, then the corners, then the arrowhead. There is
/// no arrow if the first step is already blocked.
pub fn try_place_arrow(
    cols: i32,
    rows: i32,
    occupied: &[bool],
    corridor: &[bool],
    arrowhead: IVec2,
    head_dir: IVec2,
    rng: &mut Rng,
) -> (placed: Option<Vec<IVec2>>)
    requires
        storable(cols as int, rows as int),
        occupied@.len() >= cols * rows,
        corridor@.len() >= cols * rows,
        on_board(arrowhead@, cols as int, rows as int),
        cardinal(head_dir@),
    ensures
        ({
            let free = unmasked(cols as int, rows as int, occupied@, corridor@);
            let w = tail_walk(free, arrowhead@, head_dir@, old(rng)@);
            &&& final(rng)@ == w.state
            &&& placed is Some <==> free(plus(arrowhead@, opposite(head_dir@)))
            &&& placed is Some <==> w.stops.len() > 1
            &&& placed matches Some(vertices) ==> cells(vertices@) == w.stops.reverse()
            &&& decided_by_draws(free, head_dir@, old(rng)@, w.stops, final(rng)@)
        }),
        placed matches Some(vertices) ==> vertices@.last() == arrowhead && forall|c: Cell| #[trigger]
            covers(cells(vertices@), c) ==> c == arrowhead@ || 0 <= c.0 < cols && 0 <= c.1 < rows
                && !occupied@[c.1 * cols + c.0] && !corridor@[c.1 * cols + c.0],
{
    let ghost (k, h) = (cols as int, rows as int);
    let ghost free = unmasked(k, h, occupied@, corridor@);
    let ghost head = arrowhead@;
    let ghost whole = tail_walk(free, head, head_dir@, rng@);

    // Self-avoidance mask: the tail must not revisit its own cells.
    let mut visited: Vec<bool> = vec![false; (cols * rows) as usize];
    proof {
        lemma_index_in_range(head, k, h);
    }
    let start: usize = cell_index(arrowhead, cols);
    visited[start] = true;

    // End of each completed segment, in order moving outward from the arrowhead.
    let mut segment_ends: Vec<IVec2> = Vec::new();
    let mut cur: IVec2 = arrowhead;
    let mut dir: IVec2 = head_dir.negated();
    let num_segments: i32 = rng.range(1, MAX_SEGMENTS);

    let ghost mut w = Walk { stops: seq![head], trail: seq![head], state: rng@ };
    proof {
        assert forall|c: Cell| #[trigger] on_board(c, k, h) implies (marked(visited@, k, c)
            <==> w.trail.contains(c)) by {
            lemma_index_in_range(c, k, h);
            board_cells_have_distinct_slots(head, c, k, h);
            assert(w.trail[0] == head);
        }
        lemma_first_step(free, w, dir@, num_segments as int);
        assert(w.stops =~= seq![head] + cells(segment_ends@));
    }

    let mut n: i32 = 0;
    let mut walking: bool = true;
    while walking && n < num_segments
        invariant
            k == cols,
            h == rows,
            storable(k, h),
            occupied@.len() >= k * h,
            corridor@.len() >= k * h,
            visited@.len() == k * h,
            free == unmasked(k, h, occupied@, corridor@),
            0 <= n <= num_segments,
            cardinal(dir@),
            w.state == rng@,
            w.trail.len() >= 1,
            w.trail.last() == cur@,
            on_board(cur@, k, h),
            w.stops =~= seq![head] + cells(segment_ends@),
            forall|c: Cell| #[trigger]
                on_board(c, k, h) ==> (marked(visited@, k, c) <==> w.trail.contains(c)),
            walking ==> whole == walk(free, w, dir@, num_segments - n),
            !walking ==> whole == w,
        decreases num_segments - n,
    {
        let target: i32 = rng.range(MIN_SEG_LEN, MAX_SEG_LEN);
        let ghost trail = w.trail;
        let ghost mut grown = w.trail;
        let mut steps: i32 = 0;
        let mut clear: bool = true;
        while clear && steps < target
            invariant
                k == cols,
                h == rows,
                storable(k, h),
                occupied@.len() >= k * h,
                corridor@.len() >= k * h,
                visited@.len() == k * h,
                free == unmasked(k, h, occupied@, corridor@),
                0 <= steps <= target,
                cardinal(dir@),
                grown.len() == trail.len() + steps,
                grown.len() >= 1,
                grown.last() == cur@,
                on_board(cur@, k, h),
                forall|c: Cell| #[trigger]
                    on_board(c, k, h) ==> (marked(visited@, k, c) <==> grown.contains(c)),
                clear ==> stride(free, trail, dir@, target as int) == stride(
                    free,
                    grown,
                    dir@,
                    target - steps,
                ),
                !clear ==> stride(free, trail, dir@, target as int) == grown && steps < target,
            decreases target - steps, clear as int,
        {
            let next: IVec2 = cur.plus(dir);
            if !in_bounds(next, cols, rows) {
                clear = false;
            } else {
                proof {
                    lemma_index_in_range(next@, k, h);
                }
                let i: usize = cell_index(next, cols);
                if occupied[i] || corridor[i] || visited[i] {
                    clear = false;
                } else {
                    let ghost was = visited@;
                    visited[i] = true;
                    cur = next;
                    steps = steps + 1;
                    proof {
                        assert forall|c: Cell| #[trigger] on_board(c, k, h) implies (marked(
                            visited@,
                            k,
                            c,
                        ) <==> grown.push(next@).contains(c)) by {
                            lemma_index_in_range(c, k, h);
                            board_cells_have_distinct_slots(next@, c, k, h);
                            lemma_push_contains(grown, next@, c);
                            assert(marked(was, k, c) <==> grown.contains(c));
                        }
                        grown = grown.push(next@);
                    }
                }
            }
        }
        n = n + 1;
        proof {
            assert(grown == stride(free, trail, dir@, target as int));
        }
        if steps == 0 {
            walking = false;
            proof {
                lemma_stride_extends(free, trail, dir@, target as int);
                assert(grown =~= trail);
                w = Walk { state: rng@, ..w };
            }
        } else {
            segment_ends.push(cur);
            let ghost stops = w.stops.push(cur@);
            if steps < target {
                // Cut short: keep what there is and stop.
                walking = false;
                proof {
                    w = Walk { stops, trail: grown, state: rng@ };
                }
            } else {
                dir = if rng.bool() {
                    turn_left(dir)
                } else {
                    turn_right(dir)
                };
                proof {
                    w = Walk { stops, trail: grown, state: rng@ };
                }
            }
        }
    }
    assert(whole == w);
    proof {
        tail_is_decided_by_its_draws(free, head, head_dir@, old(rng)@);
    }
    if segment_ends.len() == 0 {
        return None;
    }

    // Reverse so that the vertices read tail end, corners, arrowhead.
    let mut vertices: Vec<IVec2> = Vec::with_capacity(segment_ends.len());
    let ghost ends = segment_ends@;
    while segment_ends.len() > 0
        invariant
            ends.len() == segment_ends@.len() + vertices@.len(),
            segment_ends@ =~= ends.take(segment_ends@.len() as int),
            forall|i: int|
                0 <= i < vertices@.len() ==> #[trigger] vertices@[i] == ends[ends.len() - 1 - i],
        decreases segment_ends.len(),
    {
        let end: Option<IVec2> = segment_ends.pop();
        if let Some(p) = end {
            vertices.push(p);
        }
    }
    vertices.push(arrowhead);
    assert(cells(vertices@) =~= w.stops.reverse());
    proof {
        placed_arrow_is_well_formed(free, head, head_dir@, old(rng)@);
    }
    Some(vertices)
}

proof fn lemma_push_contains(s: Seq<Cell>, x: Cell, c: Cell)
    ensures
        s.push(x).contains(c) <==> s.contains(c) || c == x,
{
    if s.contains(c) {
        let i = choose|i: int| 0 <= i < s.len() && s[i] == c;
        assert(s.push(x)[i] == c);
    }
    if c == x {
        assert(s.push(x)[s.len() as int] == c);
    }
    if s.push(x).contains(c) && c != x {
        let i = choose|i: int| 0 <= i < s.push(x).len() && s.push(x)[i] == c;
        assert(s[i] == c);
    }
}

/// A stride only extends its trail, by at most its target.
proof fn lemma_stride_extends(free: spec_fn(Cell) -> bool, trail: Seq<Cell>, d: Cell, n: int)
    ensures
        stride(free, trail, d, n).len() >= trail.len(),
        n >= 0 ==> stride(free, trail, d, n).len() <= trail.len() + n,
        stride(free, trail, d, n).take(trail.len() as int) == trail,
    decreases n,
{
    let next = plus(trail.last(), d);
    if n <= 0 || !free(next) || trail.contains(next) {
    } else {
        lemma_stride_extends(free, trail.push(next), d, n - 1);
        let longer = stride(free, trail, d, n);
        assert(longer.take(trail.len() as int) =~= longer.take(trail.len() as int + 1).take(
            trail.len() as int,
        ));
        assert(trail.push(next).take(trail.len() as int) =~= trail);
    }
}

/// A walk never loses a stop.
proof fn lemma_walk_keeps_stops(free: spec_fn(Cell) -> bool, w: Walk, d: Cell, n: int)
    ensures
        walk(free, w, d, n).stops.len() >= w.stops.len(),
    decreases n,
{
    if n > 0 {
        let drawn = next_state(w.state);
        let target = pick(drawn, MIN_SEG_LEN as int, MAX_SEG_LEN as int);
        let trail = stride(free, w.trail, d, target);
        let steps = trail.len() - w.trail.len();
        if steps != 0 && steps >= target {
            let stops = w.stops.push(trail.last());
            let coin = next_state(drawn);
            let turned = if heads(coin) {
                left_of(d)
            } else {
                right_of(d)
            };
            lemma_walk_keeps_stops(free, Walk { stops, trail, state: coin }, turned, n - 1);
        }
    }
}

/// An arrow gets a tail exactly if the cell behind its head is free.
pub proof fn tail_begins_if_first_cell_is_free(
    free: spec_fn(Cell) -> bool,
    head: Cell,
    d: Cell,
    state: u32,
)
    requires
        cardinal(d),
    ensures
        tail_walk(free, head, d, state).stops.len() > 1 <==> free(plus(head, opposite(d))),
{
    let drawn = next_state(state);
    let start = Walk { stops: seq![head], trail: seq![head], state: drawn };
    lemma_first_step(free, start, opposite(d), pick(drawn, 1, MAX_SEGMENTS as int));
}

/// A walk that starts with a single cell gets past it exactly if the next cell
/// is free.
proof fn lemma_first_step(free: spec_fn(Cell) -> bool, w: Walk, d: Cell, n: int)
    requires
        n >= 1,
        cardinal(d),
        w.trail.len() == 1,
        w.stops.len() == 1,
    ensures
        walk(free, w, d, n).stops.len() > 1 <==> free(plus(w.trail.last(), d)),
{
    let drawn = next_state(w.state);
    let target = pick(drawn, MIN_SEG_LEN as int, MAX_SEG_LEN as int);
    let next = plus(w.trail.last(), d);
    let trail = stride(free, w.trail, d, target);
    let steps = trail.len() - w.trail.len();
    assert(target >= 1);
    assert(!w.trail.contains(next));
    lemma_stride_extends(free, w.trail, d, target);
    if free(next) {
        lemma_stride_extends(free, w.trail.push(next), d, target - 1);
        assert(steps >= 1);
        if steps >= target {
            let stops = w.stops.push(trail.last());
            let coin = next_state(drawn);
            let turned = if heads(coin) {
                left_of(d)
            } else {
                right_of(d)
            };
            lemma_walk_keeps_stops(free, Walk { stops, trail, state: coin }, turned, n - 1);
        }
    }
}

/// The number of steps along the axes from `a` to `b`.
pub open spec fn steps_between(a: Cell, b: Cell) -> int {
    (if a.0 <= b.0 {
        b.0 - a.0
    } else {
        a.0 - b.0
    }) + (if a.1 <= b.1 {
        b.1 - a.1
    } else {
        a.1 - b.1
    })
}

/// Segments of `path` meet only where one ends and the next begins.
pub open spec fn self_avoiding(path: Seq<Cell>) -> bool {
    forall|i: int, j: int, c: Cell|
        0 <= i < j < path.len() - 1 && #[trigger] on_segment(path[i], path[i + 1], c)
            && #[trigger] on_segment(path[j], path[j + 1], c) ==> j == i + 1 && c == path[j]
}

/// Every segment of `path` is straight and of a permitted length.
pub open spec fn legal_segments(path: Seq<Cell>) -> bool {
    forall|i: int|
        0 <= i < path.len() - 1 ==> straight(#[trigger] path[i], path[i + 1]) && MIN_SEG_LEN
            <= steps_between(path[i], path[i + 1]) <= MAX_SEG_LEN
}

/// The unit direction that leads from `a` to `b` along an axis.
pub open spec fn direction(a: Cell, b: Cell) -> Cell {
    (sign(b.0 - a.0), sign(b.1 - a.1))
}

/// `e` is a quarter turn off `d`, to either side.
pub open spec fn square_to(d: Cell, e: Cell) -> bool {
    e == left_of(d) || e == right_of(d)
}

/// At every inner point `path` turns to one side or the other.
pub open spec fn turning(path: Seq<Cell>) -> bool {
    forall|i: int|
        0 <= i < path.len() - 2 ==> square_to(
            direction(#[trigger] path[i], path[i + 1]),
            direction(path[i + 1], path[i + 2]),
        )
}

/// `c` is the point of `trail` at some position from `lo` to `hi`.
spec fn on_stretch(trail: Seq<Cell>, lo: int, hi: int, c: Cell) -> bool {
    exists|m: int| lo <= m <= hi && #[trigger] trail[m] == c
}

/// What holds of a walk at any time; `marks` are the positions on the trail of
/// the stops, and `back` is the direction of the first segment.
spec fn sound_walk(
    free: spec_fn(Cell) -> bool,
    head: Cell,
    back: Cell,
    w: Walk,
    marks: Seq<int>,
) -> bool {
    &&& w.stops.len() >= 1
    &&& w.stops[0] == head
    &&& marks.len() == w.stops.len()
    &&& w.trail.len() >= 1
    &&& w.trail[0] == head
    &&& w.trail.last() == w.stops.last()
    &&& w.trail.no_duplicates()
    &&& marks[0] == 0
    &&& marks.last() == w.trail.len() - 1
    &&& forall|i: int, j: int| 0 <= i < j < marks.len() ==> marks[i] < marks[j]
    &&& forall|i: int| 0 <= i < marks.len() ==> w.stops[i] == w.trail[#[trigger] marks[i]]
    &&& forall|i: int| 1 <= i < w.trail.len() ==> free(#[trigger] w.trail[i])
    &&& forall|i: int, c: Cell|
        0 <= i < w.stops.len() - 1 && #[trigger] on_segment(w.stops[i], w.stops[i + 1], c)
            ==> on_stretch(w.trail, marks[i], marks[i + 1], c)
    &&& legal_segments(w.stops)
    &&& turning(w.stops)
    &&& w.stops.len() >= 2 ==> exists|n: int|
        MIN_SEG_LEN <= n <= MAX_SEG_LEN && w.stops[1] == #[trigger] shift(head, back, n)
}

/// A segment that leaves the last of `stops` along `d` turns off the one before.
spec fn leaves_sideways(stops: Seq<Cell>, d: Cell) -> bool {
    stops.len() >= 2 ==> square_to(direction(stops[stops.len() - 2], stops.last()), d)
}

/// The shape of a stride: the trail gains distinct free cells in a row.
proof fn lemma_stride_shape(free: spec_fn(Cell) -> bool, trail: Seq<Cell>, d: Cell, n: int)
    requires
        cardinal(d),
        trail.len() >= 1,
        trail.no_duplicates(),
    ensures
        ({
            let grown = stride(free, trail, d, n);
            let base = trail.len() - 1;
            &&& grown.len() >= trail.len()
            &&& n >= 0 ==> grown.len() <= trail.len() + n
            &&& grown.no_duplicates()
            &&& forall|i: int| 0 <= i < trail.len() ==> #[trigger] grown[i] == trail[i]
            &&& forall|i: int| trail.len() <= i < grown.len() ==> free(#[trigger] grown[i])
            &&& forall|i: int|
                base <= i < grown.len() ==> #[trigger] grown[i] == shift(trail.last(), d, i - base)
        }),
    decreases n,
{
    let next = plus(trail.last(), d);
    if n <= 0 || !free(next) || trail.contains(next) {
    } else {
        let longer = trail.push(next);
        assert(longer.no_duplicates());
        lemma_stride_shape(free, longer, d, n - 1);
        let grown = stride(free, trail, d, n);
        assert forall|i: int| 0 <= i < trail.len() implies #[trigger] grown[i] == trail[i] by {
            assert(grown[i] == longer[i]);
        }
        assert forall|i: int| trail.len() <= i < grown.len() implies free(#[trigger] grown[i]) by {
            if i == trail.len() {
                assert(grown[i] == longer[i]);
            }
        }
        let base = trail.len() - 1;
        assert forall|i: int| base <= i < grown.len() implies #[trigger] grown[i] == shift(
            trail.last(),
            d,
            i - base,
        ) by {
            if i == base {
                assert(grown[i] == trail[i]);
            } else {
                assert(grown[i] == shift(longer.last(), d, i - (longer.len() - 1)));
            }
        }
    }
}

/// The cells of a straight segment are those that a stride along it visits.
proof fn lemma_segment_is_stretch(a: Cell, d: Cell, n: int, c: Cell)
    requires
        cardinal(d),
        n >= 1,
    ensures
        on_segment(a, shift(a, d, n), c) <==> exists|m: int| 0 <= m <= n && #[trigger] shift(a, d, m) == c,
        straight(a, shift(a, d, n)),
        steps_between(a, shift(a, d, n)) == n,
{
    if on_segment(a, shift(a, d, n), c) {
        assert(shift(a, d, steps_between(a, c)) == c);
    }
}

/// One full or cut segment keeps a walk sound.
proof fn lemma_segment_keeps_sound(
    free: spec_fn(Cell) -> bool,
    head: Cell,
    back: Cell,
    w: Walk,
    marks: Seq<int>,
    d: Cell,
    target: int,
    state: u32,
)
    requires
        sound_walk(free, head, back, w, marks),
        cardinal(d),
        w.stops.len() == 1 ==> d == back,
        leaves_sideways(w.stops, d),
        MIN_SEG_LEN <= target <= MAX_SEG_LEN,
        stride(free, w.trail, d, target).len() > w.trail.len(),
    ensures
        ({
            let trail = stride(free, w.trail, d, target);
            let grown = Walk { stops: w.stops.push(trail.last()), trail, state };
            &&& sound_walk(free, head, back, grown, marks.push(trail.len() - 1))
            &&& direction(w.stops.last(), trail.last()) == d
        }),
{
    let trail = stride(free, w.trail, d, target);
    let stops = w.stops.push(trail.last());
    let grown = Walk { stops, trail, state };
    let all = marks.push(trail.len() - 1);
    let last = w.stops.last();
    let n = trail.len() - w.trail.len();
    lemma_stride_shape(free, w.trail, d, target);
    assert(trail.last() == shift(last, d, n));
    lemma_segment_is_stretch(last, d, n, last);
    assert forall|i: int| 0 <= i < all.len() implies stops[i] == trail[#[trigger] all[i]] by {
        if i < marks.len() {
            assert(all[i] == marks[i]);
            assert(0 <= marks[i] <= marks.last());
            assert(w.stops[i] == w.trail[marks[i]]);
        }
    }
    assert forall|i: int| 1 <= i < trail.len() implies free(#[trigger] trail[i]) by {
        if i < w.trail.len() {
            assert(trail[i] == w.trail[i]);
        }
    }
    assert forall|i: int, c: Cell|
        0 <= i < stops.len() - 1 && #[trigger] on_segment(stops[i], stops[i + 1], c) implies on_stretch(
        trail,
        all[i],
        all[i + 1],
        c,
    ) by {
        if i < w.stops.len() - 1 {
            assert(on_segment(w.stops[i], w.stops[i + 1], c));
            assert(on_stretch(w.trail, marks[i], marks[i + 1], c));
            let m = choose|m: int| marks[i] <= m <= marks[i + 1] && #[trigger] w.trail[m] == c;
            assert(0 <= marks[i] && marks[i + 1] <= marks.last());
            assert(trail[m] == c);
        } else {
            lemma_segment_is_stretch(last, d, n, c);
            let m = choose|m: int| 0 <= m <= n && #[trigger] shift(last, d, m) == c;
            assert(trail[w.trail.len() - 1 + m] == c);
        }
    }
    assert forall|i: int| 0 <= i < stops.len() - 1 implies straight(#[trigger] stops[i], stops[i + 1])
        && MIN_SEG_LEN <= steps_between(stops[i], stops[i + 1]) <= MAX_SEG_LEN by {
        if i < w.stops.len() - 1 {
            assert(straight(w.stops[i], w.stops[i + 1]));
        }
    }
    assert(direction(last, trail.last()) == d);
    assert forall|i: int| 0 <= i < stops.len() - 2 implies square_to(
        direction(#[trigger] stops[i], stops[i + 1]),
        direction(stops[i + 1], stops[i + 2]),
    ) by {
        if i < w.stops.len() - 2 {
            assert(square_to(
                direction(w.stops[i], w.stops[i + 1]),
                direction(w.stops[i + 1], w.stops[i + 2]),
            ));
        }
    }
    if w.stops.len() == 1 {
        assert(stops[1] == shift(head, back, n));
    } else {
        assert(stops[1] == w.stops[1]);
    }
}

/// A walk that starts sound stays sound, and adds at most `n` stops.
proof fn lemma_walk_sound(
    free: spec_fn(Cell) -> bool,
    head: Cell,
    back: Cell,
    w: Walk,
    marks: Seq<int>,
    d: Cell,
    n: int,
) -> (ended: Seq<int>)
    requires
        sound_walk(free, head, back, w, marks),
        cardinal(d),
        w.stops.len() == 1 ==> d == back,
        leaves_sideways(w.stops, d),
    ensures
        sound_walk(free, head, back, walk(free, w, d, n), ended),
        n >= 0 ==> walk(free, w, d, n).stops.len() <= w.stops.len() + n,
    decreases n,
{
    if n <= 0 {
        marks
    } else {
        let drawn = next_state(w.state);
        let target = pick(drawn, MIN_SEG_LEN as int, MAX_SEG_LEN as int);
        let trail = stride(free, w.trail, d, target);
        let steps = trail.len() - w.trail.len();
        lemma_stride_shape(free, w.trail, d, target);
        if steps == 0 {
            marks
        } else {
            let stops = w.stops.push(trail.last());
            let all = marks.push(trail.len() - 1);
            if steps < target {
                lemma_segment_keeps_sound(free, head, back, w, marks, d, target, drawn);
                all
            } else {
                let coin = next_state(drawn);
                lemma_segment_keeps_sound(free, head, back, w, marks, d, target, coin);
                let turned = if heads(coin) {
                    left_of(d)
                } else {
                    right_of(d)
                };
                lemma_walk_sound(
                    free,
                    head,
                    back,
                    Walk { stops, trail, state: coin },
                    all,
                    turned,
                    n - 1,
                )
            }
        }
    }
}

/// The unit direction in which the last segment of `path` points.
pub open spec fn heading(path: Seq<Cell>) -> Cell {
    let (a, b) = (path[path.len() - 2], path.last());
    (sign(b.0 - a.0), sign(b.1 - a.1))
}

/// The sign of `k`.
pub open spec fn sign(k: int) -> int {
    if k > 0 {
        1
    } else if k < 0 {
        -1
    } else {
        0
    }
}

/// An arrow laid behind an arrowhead ends in that arrowhead and points along
/// its direction; it has at most [`MAX_SEGMENTS`] straight segments of
/// permitted length, each square to the one before, does not cross itself, and
/// behind the arrowhead covers free cells only.
pub proof fn placed_arrow_is_well_formed(
    free: spec_fn(Cell) -> bool,
    head: Cell,
    d: Cell,
    state: u32,
)
    requires
        cardinal(d),
        tail_walk(free, head, d, state).stops.len() > 1,
    ensures
        ({
            let path = tail_walk(free, head, d, state).stops.reverse();
            &&& 2 <= path.len() <= MAX_SEGMENTS + 1
            &&& path.last() == head
            &&& heading(path) == d
            &&& legal_segments(path)
            &&& straight_path(path)
            &&& turning(path)
            &&& self_avoiding(path)
            &&& covers(path, head)
            &&& forall|c: Cell| #[trigger] covers(path, c) ==> c == head || free(c)
        }),
{
    let drawn = next_state(state);
    let start = Walk { stops: seq![head], trail: seq![head], state: drawn };
    let back = opposite(d);
    let n = pick(drawn, 1, MAX_SEGMENTS as int);
    assert(sound_walk(free, head, back, start, seq![0int]));
    let marks = lemma_walk_sound(free, head, back, start, seq![0int], back, n);
    let w = tail_walk(free, head, d, state);
    let stops = w.stops;
    let path = stops.reverse();
    let last = path.len() - 1;
    assert forall|i: int| 0 <= i < last implies straight(#[trigger] path[i], path[i + 1])
        && MIN_SEG_LEN <= steps_between(path[i], path[i + 1]) <= MAX_SEG_LEN by {
        assert(straight(stops[last - i - 1], stops[last - i - 1 + 1]));
    }
    assert forall|i: int| 0 <= i < path.len() - 2 implies square_to(
        direction(#[trigger] path[i], path[i + 1]),
        direction(path[i + 1], path[i + 2]),
    ) by {
        let j = last - i - 2;
        assert(square_to(
            direction(stops[j], stops[j + 1]),
            direction(stops[j + 1], stops[j + 2]),
        ));
    }
    let k = choose|k: int|
        MIN_SEG_LEN <= k <= MAX_SEG_LEN && stops[1] == #[trigger] shift(head, back, k);
    assert(path[last - 1] == stops[1]);
    assert forall|i: int, c: Cell|
        0 <= i < last && #[trigger] on_segment(path[i], path[i + 1], c) implies on_stretch(
        w.trail,
        marks[last - i - 1],
        marks[last - i],
        c,
    ) by {
        assert(straight(stops[last - i - 1], stops[last - i - 1 + 1]));
        assert(on_segment(stops[last - i - 1], stops[last - i - 1 + 1], c));
    }
    assert forall|i: int, j: int, c: Cell|
        0 <= i < j < last && #[trigger] on_segment(path[i], path[i + 1], c) && #[trigger] on_segment(
            path[j],
            path[j + 1],
            c,
        ) implies j == i + 1 && c == path[j] by {
        assert(on_stretch(w.trail, marks[last - i - 1], marks[last - i], c));
        assert(on_stretch(w.trail, marks[last - j - 1], marks[last - j], c));
        let a = choose|m: int|
            marks[last - i - 1] <= m <= marks[last - i] && #[trigger] w.trail[m] == c;
        let b = choose|m: int|
            marks[last - j - 1] <= m <= marks[last - j] && #[trigger] w.trail[m] == c;
        lemma_marks_in_range(free, head, back, w, marks);
        assert(a == b);
        assert(marks[last - j] <= marks[last - i - 1]);
        assert(stops[last - j] == w.trail[marks[last - j]]);
    }
    assert(on_segment(path[last - 1], path[last - 1 + 1], head));
    assert forall|c: Cell| #[trigger] covers(path, c) implies c == head || free(c) by {
        let i = choose|i: int|
            0 <= i < path.len() - 1 && #[trigger] on_segment(path[i], path[i + 1], c);
        assert(on_stretch(w.trail, marks[last - i - 1], marks[last - i], c));
        let m = choose|m: int|
            marks[last - i - 1] <= m <= marks[last - i] && #[trigger] w.trail[m] == c;
        lemma_marks_in_range(free, head, back, w, marks);
        if m > 0 {
            assert(free(w.trail[m]));
        }
    }
}

proof fn lemma_marks_in_range(
    free: spec_fn(Cell) -> bool,
    head: Cell,
    back: Cell,
    w: Walk,
    marks: Seq<int>,
)
    requires
        sound_walk(free, head, back, w, marks),
    ensures
        forall|i: int| 0 <= i < marks.len() ==> 0 <= #[trigger] marks[i] < w.trail.len(),
{
    assert forall|i: int| 0 <= i < marks.len() implies 0 <= #[trigger] marks[i] < w.trail.len() by {
        assert(i == 0 || marks[0] < marks[i]);
        assert(i == marks.len() - 1 || marks[i] < marks[marks.len() - 1]);
    }
}

/// The steps between two points are those along either axis together.
pub proof fn steps_add_up_both_axes(a: Cell, b: Cell)
    ensures
        steps_between(a, b) == gap(a.0, b.0) + gap(a.1, b.1),
{
}

/// From a point to one straight ahead of it leads the direction in which it
/// lies, and a path is headed as its last two points tell.
pub proof fn directions_point_the_way(a: Cell, d: Cell, k: int, path: Seq<Cell>)
    requires
        cardinal(d),
        k >= 1,
    ensures
        direction(a, shift(a, d, k)) == d,
        path.len() >= 2 ==> heading(path) == direction(path[path.len() - 2], path.last()),
{
}

/// A tail may use the board cells that neither mask marks, and no other.
pub proof fn tails_use_unmarked_board_cells(
    cols: int,
    rows: int,
    occupied: Seq<bool>,
    corridor: Seq<bool>,
    c: Cell,
)
    ensures
        unmasked(cols, rows, occupied, corridor)(c) <==> 0 <= c.0 < cols && 0 <= c.1 < rows
            && !occupied[c.1 * cols + c.0] && !corridor[c.1 * cols + c.0],
{
}

/// The direction of segment `j` of the tail behind an arrowhead that points
/// along `d`: away from the arrowhead at first, and from then on turned by every
/// second draw, to the left if it is even.
pub open spec fn tail_direction(state: u32, d: Cell, j: nat) -> Cell
    decreases j,
{
    if j == 0 {
        opposite(d)
    } else {
        let before = tail_direction(state, d, (j - 1) as nat);
        if after_draws(state, 2 * j + 1) % 2 == 0 {
            left_of(before)
        } else {
            right_of(before)
        }
    }
}

/// The length drawn for segment `j` of a tail.
pub open spec fn drawn_length(state: u32, j: nat) -> int {
    1 + after_draws(state, 2 * j + 2) % 5
}

/// A tail through `stops` cannot go on to `c`.
pub open spec fn barred(free: spec_fn(Cell) -> bool, stops: Seq<Cell>, c: Cell) -> bool {
    !free(c) || c == stops[0] || covers(stops, c)
}

/// The first `n` segments through `stops` run as drawn.
pub open spec fn runs_as_drawn(stops: Seq<Cell>, d: Cell, state: u32, n: int) -> bool {
    forall|j: int|
        0 <= j < n ==> #[trigger] stops[j + 1] == shift(
            stops[j],
            tail_direction(state, d, j as nat),
            drawn_length(state, j as nat),
        )
}

/// A tail through `stops` that leaves the random stream in `end` is the one that
/// the draws from `state` on decide. The first draw, modulo four, tells how many
/// segments there are beyond one. Every segment but the last has the length
/// drawn for it. The tail ends with its last segment at full length, and else
/// only where it is barred: within a segment, or before one begins.
pub open spec fn decided_by_draws(
    free: spec_fn(Cell) -> bool,
    d: Cell,
    state: u32,
    stops: Seq<Cell>,
    end: u32,
) -> bool {
    let m = stops.len() - 1;
    let segments = 1 + after_draws(state, 1) % 4;
    &&& 0 <= m <= segments
    &&& runs_as_drawn(stops, d, state, m - 1)
    &&& ({
        ||| m == segments && runs_as_drawn(stops, d, state, m) && end == after_draws(
            state,
            (2 * m + 1) as nat,
        )
        ||| m < segments && runs_as_drawn(stops, d, state, m) && barred(
            free,
            stops,
            plus(stops[m], tail_direction(state, d, m as nat)),
        ) && end == after_draws(state, (2 * m + 2) as nat)
        ||| m >= 1 && cut_short(free, d, state, stops, m) && end == after_draws(
            state,
            (2 * m) as nat,
        )
    })
}

/// Segment `m` through `stops`, counted from one, runs in its direction for less
/// than the length drawn for it, and is barred at its end.
pub open spec fn cut_short(
    free: spec_fn(Cell) -> bool,
    d: Cell,
    state: u32,
    stops: Seq<Cell>,
    m: int,
) -> bool {
    let along = tail_direction(state, d, (m - 1) as nat);
    let steps = steps_between(stops[m - 1], stops[m]);
    &&& 1 <= steps < drawn_length(state, (m - 1) as nat)
    &&& stops[m] == shift(stops[m - 1], along, steps)
    &&& barred(free, stops, plus(stops[m], along))
}

/// The tail behind an arrowhead is the one that the draws decide, wherever the
/// arrowhead stands: its position matters only through the cells that are free.
pub proof fn tail_is_decided_by_its_draws(
    free: spec_fn(Cell) -> bool,
    head: Cell,
    d: Cell,
    state: u32,
)
    requires
        cardinal(d),
    ensures
        ({
            let w = tail_walk(free, head, d, state);
            &&& w.stops.len() >= 1
            &&& w.stops[0] == head
            &&& decided_by_draws(free, d, state, w.stops, w.state)
        }),
{
    let drawn = next_state(state);
    let start = Walk { stops: seq![head], trail: seq![head], state: drawn };
    let n = pick(drawn, 1, MAX_SEGMENTS as int);
    assert(after_draws(next_state(state), 0) == drawn);
    assert(after_draws(state, 1) == drawn);
    assert forall|c: Cell| #[trigger] start.trail.contains(c) implies c == head || covers(
        start.stops,
        c,
    ) by {}
    lemma_walk_decided(free, head, d, state, start, opposite(d), n);
}

proof fn lemma_walk_decided(
    free: spec_fn(Cell) -> bool,
    head: Cell,
    d: Cell,
    state: u32,
    w: Walk,
    dir: Cell,
    n: int,
)
    requires
        cardinal(d),
        cardinal(dir),
        n >= 0,
        w.stops.len() >= 1,
        w.stops[0] == head,
        w.stops.len() - 1 + n == 1 + after_draws(state, 1) % 4,
        w.state == after_draws(state, (2 * (w.stops.len() - 1) + 1) as nat),
        dir == tail_direction(state, d, (w.stops.len() - 1) as nat),
        runs_as_drawn(w.stops, d, state, w.stops.len() - 1),
        w.trail.len() >= 1,
        w.trail.last() == w.stops.last(),
        w.trail.no_duplicates(),
        forall|c: Cell| #[trigger] w.trail.contains(c) ==> c == head || covers(w.stops, c),
    ensures
        ({
            let v = walk(free, w, dir, n);
            &&& v.stops.len() >= 1
            &&& v.stops[0] == head
            &&& decided_by_draws(free, d, state, v.stops, v.state)
        }),
    decreases n,
{
    let m = w.stops.len() - 1;
    if n > 0 {
        let drawn = next_state(w.state);
        lemma_draw_after(state, (2 * m + 1) as nat);
        assert(drawn == after_draws(state, (2 * m + 2) as nat));
        let target = pick(drawn, MIN_SEG_LEN as int, MAX_SEG_LEN as int);
        assert(target == drawn_length(state, m as nat));
        let trail = stride(free, w.trail, dir, target);
        let steps = trail.len() - w.trail.len();
        let next = plus(trail.last(), dir);
        lemma_stride_shape(free, w.trail, dir, target);
        lemma_stride_ends(free, w.trail, dir, target);
        if steps == 0 {
            assert(trail =~= w.trail);
        } else {
            let stops = w.stops.push(trail.last());
            let last = w.stops.last();
            assert(trail.last() == shift(last, dir, steps));
            lemma_segment_is_stretch(last, dir, steps, last);
            assert forall|j: int| 0 <= j < m implies #[trigger] stops[j + 1] == shift(
                stops[j],
                tail_direction(state, d, j as nat),
                drawn_length(state, j as nat),
            ) by {
                assert(w.stops[j + 1] == shift(
                    w.stops[j],
                    tail_direction(state, d, j as nat),
                    drawn_length(state, j as nat),
                ));
            }
            assert forall|c: Cell| #[trigger] trail.contains(c) implies c == head || covers(
                stops,
                c,
            ) by {
                paths_cover_segment_by_segment(w.stops, trail.last(), c);
                let k = choose|k: int| 0 <= k < trail.len() && trail[k] == c;
                if k < w.trail.len() {
                    assert(w.trail[k] == c);
                    assert(w.trail.contains(c));
                } else {
                    let base = w.trail.len() - 1;
                    assert(c == shift(last, dir, k - base));
                    lemma_segment_is_stretch(last, dir, steps, c);
                }
            }
            if steps < target {
                assert(barred(free, stops, next));
                assert(cut_short(free, d, state, stops, m + 1));
            } else {
                let coin = next_state(drawn);
                lemma_draw_after(state, (2 * m + 2) as nat);
                assert(coin == after_draws(state, (2 * (m + 1) + 1) as nat));
                let turned = if heads(coin) {
                    left_of(dir)
                } else {
                    right_of(dir)
                };
                assert(turned == tail_direction(state, d, (m + 1) as nat));
                assert(stops[m + 1] == shift(stops[m], dir, target));
                lemma_walk_decided(
                    free,
                    head,
                    d,
                    state,
                    Walk { stops, trail, state: coin },
                    turned,
                    n - 1,
                );
            }
        }
    }
}

/// One more draw steps the stream once more.
proof fn lemma_draw_after(state: u32, k: nat)
    ensures
        after_draws(state, k + 1) == next_state(after_draws(state, k)),
    decreases k,
{
    if k > 0 {
        lemma_draw_after(next_state(state), (k - 1) as nat);
    } else {
        assert(after_draws(next_state(state), 0) == next_state(state));
    }
}

/// A stride that falls short of its target ends in front of a cell that is not
/// free or that it holds already.
proof fn lemma_stride_ends(free: spec_fn(Cell) -> bool, trail: Seq<Cell>, d: Cell, n: int)
    ensures
        ({
            let grown = stride(free, trail, d, n);
            let next = plus(grown.last(), d);
            grown.len() < trail.len() + n ==> !free(next) || grown.contains(next)
        }),
    decreases n,
{
    let next = plus(trail.last(), d);
    if !(n <= 0 || !free(next) || trail.contains(next)) {
        lemma_stride_ends(free, trail.push(next), d, n - 1);
    }
}

} // verus!
