//! Arrow paths: polylines through grid points, and the cells they cover.

use crate::ivec::{
    board_cells_have_distinct_slots, cell_index, cells, index_of, lemma_index_in_range, marked,
    on_board, storable, Cell, IVec2,
};
use vstd::prelude::*;

verus! {

/// `m` lies between `a` and `b`, whichever of them is the smaller.
pub open spec fn between(a: int, m: int, b: int) -> bool {
    a <= m <= b || b <= m <= a
}

/// `c` lies on the axis-aligned segment from `a` to `b`, ends included. If the
/// points share no coordinate, the segment runs along the row of `a`.
pub open spec fn on_segment(a: Cell, b: Cell, c: Cell) -> bool {
    if a.0 == b.0 {
        c.0 == a.0 && between(a.1, c.1, b.1)
    } else {
        c.1 == a.1 && between(a.0, c.0, b.0)
    }
}

/// The distance between two numbers.
pub open spec fn gap(p: int, q: int) -> int {
    if p <= q {
        q - p
    } else {
        p - q
    }
}

/// Of two points on one row or column, the segment holds the points by way of
/// which it is no further; of other points, those on the row of the first.
pub proof fn segment_holds_what_lies_on_the_way(a: Cell, b: Cell, c: Cell)
    ensures
        a.0 == b.0 || a.1 == b.1 ==> (on_segment(a, b, c) <==> gap(a.0, c.0) + gap(c.0, b.0) + gap(
            a.1,
            c.1,
        ) + gap(c.1, b.1) == gap(a.0, b.0) + gap(a.1, b.1)),
        a.0 != b.0 && a.1 != b.1 ==> (on_segment(a, b, c) <==> c.1 == a.1 && gap(a.0, c.0) + gap(
            c.0,
            b.0,
        ) == gap(a.0, b.0)),
{
}

/// A path covers what its segments hold: a single point covers nothing, and one
/// more point adds the segment that leads to it.
pub proof fn paths_cover_segment_by_segment(path: Seq<Cell>, x: Cell, c: Cell)
    ensures
        path.len() < 2 ==> !covers(path, c),
        path.len() >= 1 ==> (covers(path.push(x), c) <==> covers(path, c) || on_segment(
            path.last(),
            x,
            c,
        )),
{
    if path.len() >= 1 {
        let longer = path.push(x);
        let n = path.len() as int;
        lemma_covers_extended(longer, n, c);
        assert(longer.take(n + 1) =~= longer);
        assert(longer.take(n) =~= path);
    }
}

/// `c` lies on some segment between two consecutive points of `path`.
pub open spec fn covers(path: Seq<Cell>, c: Cell) -> bool {
    exists|i: int| 0 <= i < path.len() - 1 && #[trigger] on_segment(path[i], path[i + 1], c)
}

/// Two distinct points on one row or one column.
pub open spec fn straight(a: Cell, b: Cell) -> bool {
    a != b && (a.0 == b.0 || a.1 == b.1)
}

/// A polyline of one or more segments, each along a row or a column.
pub open spec fn straight_path(path: Seq<Cell>) -> bool {
    &&& path.len() >= 2
    &&& forall|i: int| 0 <= i < path.len() - 1 ==> straight(#[trigger] path[i], path[i + 1])
}

/// Along a straight path neighbours differ in one coordinate, and in one only.
pub proof fn straight_paths_step_along_one_axis(path: Seq<Cell>)
    ensures
        straight_path(path) <==> path.len() >= 2 && forall|i: int|
            0 <= i < path.len() - 1 ==> ((#[trigger] path[i]).0 == path[i + 1].0) != (path[i].1
                == path[i + 1].1),
{
    if straight_path(path) {
        assert forall|i: int| 0 <= i < path.len() - 1 implies ((#[trigger] path[i]).0 == path[i
            + 1].0) != (path[i].1 == path[i + 1].1) by {
            assert(straight(path[i], path[i + 1]));
        }
    }
}

/// Neighbouring points of `path` share a row or a column, and may coincide.
pub open spec fn axis_aligned(path: Seq<Cell>) -> bool {
    forall|i: int|
        0 <= i < path.len() - 1 ==> (#[trigger] path[i]).0 == path[i + 1].0 || path[i].1 == path[i
            + 1].1
}

/// Every point of `path` is a cell of the board.
pub open spec fn path_on_board(path: Seq<Cell>, cols: int, rows: int) -> bool {
    forall|i: int| 0 <= i < path.len() ==> on_board(#[trigger] path[i], cols, rows)
}

/// `c` can be addressed in row-major storage of `len` slots by `i32` arithmetic.
pub open spec fn addressable(c: Cell, cols: int, len: int) -> bool {
    &&& i32::MIN <= c.1 * cols <= i32::MAX
    &&& 0 <= index_of(c, cols) <= i32::MAX
    &&& index_of(c, cols) < len
}

/// Some cell of the segment from `a` to `b` is stored at `slot`.
pub open spec fn segment_hits(a: Cell, b: Cell, cols: int, slot: int) -> bool {
    exists|c: Cell| #[trigger] on_segment(a, b, c) && index_of(c, cols) == slot
}

/// The slots that a segment marks are those of its cells.
pub proof fn segments_hit_the_slots_of_their_cells(a: Cell, b: Cell, cols: int, slot: int, c: Cell)
    ensures
        on_segment(a, b, c) && slot == c.0 + c.1 * cols ==> segment_hits(a, b, cols, slot),
        segment_hits(a, b, cols, slot) ==> exists|p: Cell| #[trigger]
            on_segment(a, b, p) && slot == p.0 + p.1 * cols,
{
}

/// Mark every cell on the axis-aligned segment from `a` to `b` as occupied.
pub fn mark_segment_occupied(occupied: &mut [bool], cols: i32, a: IVec2, b: IVec2)
    requires
        forall|c: Cell| #[trigger]
            on_segment(a@, b@, c) ==> addressable(c, cols as int, old(occupied)@.len() as int),
    ensures
        final(occupied)@.len() == old(occupied)@.len(),
        forall|i: int|
            0 <= i < old(occupied)@.len() ==> #[trigger] final(occupied)@[i] == (old(occupied)@[i]
                || segment_hits(a@, b@, cols as int, i)),
        forall|c: Cell| #[trigger]
            on_segment(a@, b@, c) ==> final(occupied)@[c.1 * cols + c.0],
{
    let ghost before = occupied@;
    let ghost k = cols as int;
    if a.x == b.x {
        let (r0, r1): (i32, i32) = if a.y <= b.y {
            (a.y, b.y)
        } else {
            (b.y, a.y)
        };
        let mut r: i32 = r0;
        while r < r1
            invariant
                a.x == b.x,
                r0 <= r <= r1,
                forall|c: Cell| #[trigger]
                    on_segment(a@, b@, c) <==> c.0 == a.x && r0 <= c.1 <= r1,
                forall|c: Cell| #[trigger]
                    on_segment(a@, b@, c) ==> addressable(c, k, before.len() as int),
                k == cols,
                occupied@.len() == before.len(),
                forall|i: int|
                    0 <= i < before.len() ==> #[trigger] occupied@[i] == (before[i] || exists|y: int|
                        r0 <= y < r && #[trigger] index_of((a.x as int, y), k) == i),
            decreases r1 - r,
        {
            let ghost was = occupied@;
            assert(on_segment(a@, b@, (a.x as int, r as int)));
            let slot: usize = cell_index(IVec2::new(a.x, r), cols);
            occupied[slot] = true;
            r = r + 1;
            assert forall|i: int| 0 <= i < before.len() implies #[trigger] occupied@[i] == (before[i]
                || exists|y: int| r0 <= y < r && #[trigger] index_of((a.x as int, y), k) == i) by {
                assert(was[i] == (before[i] || exists|y: int|
                    r0 <= y < r - 1 && #[trigger] index_of((a.x as int, y), k) == i));
                if i == slot {
                    assert(index_of((a.x as int, r - 1), k) == i);
                }
            }
        }
        let ghost was = occupied@;
        assert(on_segment(a@, b@, (a.x as int, r1 as int)));
        let slot: usize = cell_index(IVec2::new(a.x, r1), cols);
        occupied[slot] = true;
        assert forall|i: int| 0 <= i < before.len() implies #[trigger] occupied@[i] == (before[i]
            || segment_hits(a@, b@, k, i)) by {
            assert(was[i] == (before[i] || exists|y: int|
                r0 <= y < r1 && #[trigger] index_of((a.x as int, y), k) == i));
            if i == slot {
                assert(on_segment(a@, b@, (a.x as int, r1 as int)));
            } else if was[i] && !before[i] {
                let y = choose|y: int|
                    r0 <= y < r1 && #[trigger] index_of((a.x as int, y), k) == i;
                assert(on_segment(a@, b@, (a.x as int, y)));
            } else if segment_hits(a@, b@, k, i) {
                let c = choose|c: Cell| #[trigger]
                    on_segment(a@, b@, c) && index_of(c, k) == i;
                assert(c == (a.x as int, c.1));
                assert(index_of((a.x as int, c.1), k) == i);
            }
        }
    } else {
        let (c0, c1): (i32, i32) = if a.x <= b.x {
            (a.x, b.x)
        } else {
            (b.x, a.x)
        };
        let mut c: i32 = c0;
        while c < c1
            invariant
                a.x != b.x,
                c0 <= c <= c1,
                forall|p: Cell| #[trigger]
                    on_segment(a@, b@, p) <==> p.1 == a.y && c0 <= p.0 <= c1,
                forall|p: Cell| #[trigger]
                    on_segment(a@, b@, p) ==> addressable(p, k, before.len() as int),
                k == cols,
                occupied@.len() == before.len(),
                forall|i: int|
                    0 <= i < before.len() ==> #[trigger] occupied@[i] == (before[i] || exists|x: int|
                        c0 <= x < c && #[trigger] index_of((x, a.y as int), k) == i),
            decreases c1 - c,
        {
            let ghost was = occupied@;
            assert(on_segment(a@, b@, (c as int, a.y as int)));
            let slot: usize = cell_index(IVec2::new(c, a.y), cols);
            occupied[slot] = true;
            c = c + 1;
            assert forall|i: int| 0 <= i < before.len() implies #[trigger] occupied@[i] == (before[i]
                || exists|x: int| c0 <= x < c && #[trigger] index_of((x, a.y as int), k) == i) by {
                assert(was[i] == (before[i] || exists|x: int|
                    c0 <= x < c - 1 && #[trigger] index_of((x, a.y as int), k) == i));
                if i == slot {
                    assert(index_of((c - 1, a.y as int), k) == i);
                }
            }
        }
        let ghost was = occupied@;
        assert(on_segment(a@, b@, (c1 as int, a.y as int)));
        let slot: usize = cell_index(IVec2::new(c1, a.y), cols);
        occupied[slot] = true;
        assert forall|i: int| 0 <= i < before.len() implies #[trigger] occupied@[i] == (before[i]
            || segment_hits(a@, b@, k, i)) by {
            assert(was[i] == (before[i] || exists|x: int|
                c0 <= x < c1 && #[trigger] index_of((x, a.y as int), k) == i));
            if i == slot {
                assert(on_segment(a@, b@, (c1 as int, a.y as int)));
            } else if was[i] && !before[i] {
                let x = choose|x: int|
                    c0 <= x < c1 && #[trigger] index_of((x, a.y as int), k) == i;
                assert(on_segment(a@, b@, (x, a.y as int)));
            } else if segment_hits(a@, b@, k, i) {
                let p = choose|p: Cell| #[trigger]
                    on_segment(a@, b@, p) && index_of(p, k) == i;
                assert(p == (p.0, a.y as int));
                assert(index_of((p.0, a.y as int), k) == i);
            }
        }
    }
}

/// Mark every cell that `path` covers, on a mask over the whole board.
pub fn mark_path_occupied(occupied: &mut [bool], cols: i32, rows: i32, path: &Vec<IVec2>)
    requires
        storable(cols as int, rows as int),
        old(occupied)@.len() == cols * rows,
        path_on_board(cells(path@), cols as int, rows as int),
    ensures
        final(occupied)@.len() == old(occupied)@.len(),
        forall|c: Cell| #[trigger]
            on_board(c, cols as int, rows as int) ==> (marked(final(occupied)@, cols as int, c) <==> (
            marked(old(occupied)@, cols as int, c) || covers(cells(path@), c))),
{
    let ghost before = occupied@;
    let ghost points = cells(path@);
    let ghost (k, h) = (cols as int, rows as int);
    if path.len() == 0 {
        return;
    }
    let mut i: usize = 0;
    while i + 1 < path.len()
        invariant
            points == cells(path@),
            k == cols,
            h == rows,
            storable(k, h),
            before.len() == k * h,
            occupied@.len() == before.len(),
            path_on_board(points, k, h),
            i < path.len(),
            forall|c: Cell| #[trigger]
                on_board(c, k, h) ==> (marked(occupied@, k, c) <==> (marked(before, k, c) || covers(
                    points.take(i + 1),
                    c,
                ))),
        decreases path.len() - i,
    {
        let ghost was = occupied@;
        let ghost (a, b) = (points[i as int], points[i + 1]);
        assert(a == path@[i as int]@ && b == path@[i + 1]@);
        assert forall|c: Cell| #[trigger] on_segment(a, b, c) implies on_board(c, k, h)
            && addressable(c, k, before.len() as int) by {
            assert(on_board(a, k, h) && on_board(b, k, h));
            lemma_index_in_range(c, k, h);
        }
        mark_segment_occupied(occupied, cols, path[i], path[i + 1]);
        i = i + 1;
        assert forall|c: Cell| #[trigger] on_board(c, k, h) implies (marked(occupied@, k, c) <==> (
        marked(before, k, c) || covers(points.take(i + 1), c))) by {
            lemma_index_in_range(c, k, h);
            lemma_covers_extended(points, i as int, c);
            assert(occupied@[index_of(c, k)] == (was[index_of(c, k)] || segment_hits(
                a,
                b,
                k,
                index_of(c, k),
            )));
            if segment_hits(a, b, k, index_of(c, k)) {
                let p = choose|p: Cell| #[trigger]
                    on_segment(a, b, p) && index_of(p, k) == index_of(c, k);
                board_cells_have_distinct_slots(p, c, k, h);
            }
        }
    }
    assert(points.take(i + 1) =~= points);
}

/// One more point adds the cells of one more segment.
pub proof fn lemma_covers_extended(points: Seq<Cell>, n: int, c: Cell)
    requires
        1 <= n < points.len(),
    ensures
        covers(points.take(n + 1), c) <==> covers(points.take(n), c) || on_segment(
            points[n - 1],
            points[n],
            c,
        ),
{
    let longer = points.take(n + 1);
    let shorter = points.take(n);
    if covers(longer, c) {
        let i = choose|i: int|
            0 <= i < longer.len() - 1 && #[trigger] on_segment(longer[i], longer[i + 1], c);
        if i < n - 1 {
            assert(on_segment(shorter[i], shorter[i + 1], c));
        }
    }
    if covers(shorter, c) {
        let i = choose|i: int|
            0 <= i < shorter.len() - 1 && #[trigger] on_segment(shorter[i], shorter[i + 1], c);
        assert(on_segment(longer[i], longer[i + 1], c));
    }
    if on_segment(points[n - 1], points[n], c) {
        assert(on_segment(longer[n - 1], longer[n - 1 + 1], c));
    }
}

} // verus!
