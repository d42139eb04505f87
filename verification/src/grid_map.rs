//! The map from board cells to the arrows that stand on them.

use crate::generate::{
    arrows, lemma_occupied_by_pushed, level, occupied_by, Arrow, ArrowSpec,
};
use crate::ivec::{
    board_cells_have_distinct_slots, cells, index_of, lemma_index_in_range, on_board, storable,
    Cell, IVec2,
};
use crate::path::{covers, lemma_covers_extended, on_segment};
use crate::solvable::{apart, level_arrows_are_apart, level_arrows_are_well_formed, well_formed};
use vstd::prelude::*;

verus! {

/// The handle by which the host of the game names an arrow.
#[derive(Clone, Copy, Debug, PartialEq, Eq, Structural)]
pub struct Entity {
    pub bits: u64,
}

/// Maps every grid cell to the [`Entity`] of the arrow that occupies it.
///
/// Every cell on every axis-aligned segment of each arrow path is marked, so a
/// single look-up is enough to identify which arrow was clicked.
pub struct GridMap {
    cols: i32,
    rows: i32,
    /// Row-major flat storage: `slots[row * cols + col]`.
    slots: Vec<Option<Entity>>,
}

impl View for GridMap {
    type V = Map<Cell, Entity>;

    closed spec fn view(&self) -> Map<Cell, Entity> {
        Map::new(
            |c: Cell| on_board(c, self.cols as int, self.rows as int) && self.slot(c) is Some,
            |c: Cell| self.slot(c)->0,
        )
    }
}

/// The map that sends the board cells on the segment from `a` to `b` to `entity`.
pub open spec fn segment_map(
    a: Cell,
    b: Cell,
    cols: int,
    rows: int,
    entity: Entity,
) -> Map<Cell, Entity> {
    Map::new(|c: Cell| on_board(c, cols, rows) && on_segment(a, b, c), |c: Cell| entity)
}

/// The map that sends the board cells that `path` covers to `entity`.
pub open spec fn path_map(path: Seq<Cell>, cols: int, rows: int, entity: Entity) -> Map<
    Cell,
    Entity,
> {
    Map::new(|c: Cell| on_board(c, cols, rows) && covers(path, c), |c: Cell| entity)
}

/// What a look-up of `c` yields.
pub open spec fn read(map: Map<Cell, Entity>, c: Cell) -> Option<Entity> {
    if map.dom().contains(c) {
        Some(map[c])
    } else {
        None
    }
}

/// The map after `entity` was written into `c`, if that is a board cell.
pub open spec fn written(
    map: Map<Cell, Entity>,
    cols: int,
    rows: int,
    c: Cell,
    entity: Option<Entity>,
) -> Map<Cell, Entity> {
    if !on_board(c, cols, rows) {
        map
    } else {
        match entity {
            Some(e) => map.insert(c, e),
            None => map.remove(c),
        }
    }
}

/// A look-up yields what was last written into a board cell, a write leaves
/// every other cell alone, and a write off the board has no effect.
pub proof fn reads_follow_writes(
    map: Map<Cell, Entity>,
    cols: int,
    rows: int,
    at: Cell,
    c: Cell,
    entity: Option<Entity>,
)
    ensures
        on_board(at, cols, rows) ==> read(written(map, cols, rows, at, entity), at) == entity,
        c != at ==> read(written(map, cols, rows, at, entity), c) == read(map, c),
        !on_board(at, cols, rows) ==> written(map, cols, rows, at, entity) == map,
{
}

/// After a segment or a path was marked, a look-up of a board cell on it yields
/// the mark, and any other look-up what it did before.
pub proof fn marks_read_back(
    map: Map<Cell, Entity>,
    cols: int,
    rows: int,
    a: Cell,
    b: Cell,
    path: Seq<Cell>,
    entity: Entity,
    c: Cell,
)
    ensures
        read(map.union_prefer_right(segment_map(a, b, cols, rows, entity)), c) == (if on_board(
            c,
            cols,
            rows,
        ) && on_segment(a, b, c) {
            Some(entity)
        } else {
            read(map, c)
        }),
        read(map.union_prefer_right(path_map(path, cols, rows, entity)), c) == (if on_board(
            c,
            cols,
            rows,
        ) && covers(path, c) {
            Some(entity)
        } else {
            read(map, c)
        }),
{
}

/// A look-up yields the entity of the last listed arrow that covers a board
/// cell, and nothing where none does or off the board.
pub proof fn look_ups_yield_the_last_arrow(
    map: Map<Cell, Entity>,
    cols: int,
    rows: int,
    list: Seq<Arrow>,
    entities: Seq<Entity>,
    k: int,
    c: Cell,
)
    requires
        shows(map, cols, rows, list, entities),
    ensures
        !on_board(c, cols, rows) ==> read(map, c) is None,
        (forall|j: int| 0 <= j < list.len() ==> !covers(#[trigger] list[j].path, c)) ==> read(map, c)
            is None,
        on_board(c, cols, rows) && 0 <= k < list.len() && covers(list[k].path, c) && (forall|j: int|
            k < j < list.len() ==> !covers(#[trigger] list[j].path, c)) ==> read(map, c) == Some(
            entities[k],
        ),
{
    assert(map.dom().contains(c) <==> on_board(c, cols, rows) && occupied_by(list, c));
    if on_board(c, cols, rows) && 0 <= k < list.len() && covers(list[k].path, c) && (forall|j: int|
        k < j < list.len() ==> !covers(#[trigger] list[j].path, c)) {
        assert(topmost(list, k, c));
        assert(occupied_by(list, c));
    }
}

/// Among `list`, arrow `k` covers `c` and no later one does.
pub open spec fn topmost(list: Seq<Arrow>, k: int, c: Cell) -> bool {
    &&& 0 <= k < list.len()
    &&& covers(list[k].path, c)
    &&& forall|j: int| k < j < list.len() ==> !covers(#[trigger] list[j].path, c)
}

/// `map` sends each covered board cell to the entity of the last arrow of
/// `list` that covers it, and no other cell anywhere.
pub open spec fn shows(
    map: Map<Cell, Entity>,
    cols: int,
    rows: int,
    list: Seq<Arrow>,
    entities: Seq<Entity>,
) -> bool {
    &&& forall|c: Cell| #[trigger]
        map.dom().contains(c) <==> on_board(c, cols, rows) && occupied_by(list, c)
    &&& forall|k: int, c: Cell|
        on_board(c, cols, rows) && #[trigger] topmost(list, k, c) ==> map[c] == entities[k]
}

impl GridMap {
    /// The number of columns.
    pub closed spec fn spec_cols(&self) -> int {
        self.cols as int
    }

    /// The number of rows.
    pub closed spec fn spec_rows(&self) -> int {
        self.rows as int
    }

    /// The storage covers the board.
    pub closed spec fn wf(&self) -> bool {
        &&& storable(self.cols as int, self.rows as int)
        &&& self.slots@.len() == self.cols * self.rows
    }

    /// What is stored for the cell `c`.
    spec fn slot(&self, c: Cell) -> Option<Entity> {
        self.slots@[index_of(c, self.cols as int)]
    }

    /// An empty map for a board.
    pub fn new(cols: i32, rows: i32) -> (map: Self)
        requires
            storable(cols as int, rows as int),
        ensures
            map.wf(),
            map.spec_cols() == cols,
            map.spec_rows() == rows,
            map@ == Map::<Cell, Entity>::empty(),
    {
        let map: GridMap = GridMap { cols, rows, slots: vec![None; (cols * rows) as usize] };
        assert forall|c: Cell| on_board(c, cols as int, rows as int) implies map.slot(c) is None by {
            lemma_index_in_range(c, cols as int, rows as int);
        }
        assert(map@ =~= Map::<Cell, Entity>::empty());
        map
    }

    /// The entity at `(col, row)`, or `None` if empty or out of bounds.
    pub fn get(&self, col: i32, row: i32) -> (entity: Option<Entity>)
        requires
            self.wf(),
        ensures
            entity == read(self@, (col as int, row as int)),
            !on_board((col as int, row as int), self.spec_cols(), self.spec_rows()) ==> entity
                is None,
    {
        if col < 0 || row < 0 || col >= self.cols || row >= self.rows {
            return None;
        }
        proof {
            lemma_index_in_range((col as int, row as int), self.cols as int, self.rows as int);
        }
        self.slots[(row * self.cols + col) as usize]
    }

    /// Writes `entity` into `(col, row)`. Silently ignores out-of-bounds writes.
    pub fn set(&mut self, col: i32, row: i32, entity: Option<Entity>)
        requires
            old(self).wf(),
        ensures
            final(self).wf(),
            final(self).spec_cols() == old(self).spec_cols(),
            final(self).spec_rows() == old(self).spec_rows(),
            final(self)@ == written(
                old(self)@,
                old(self).spec_cols(),
                old(self).spec_rows(),
                (col as int, row as int),
                entity,
            ),
    {
        let ghost (k, h) = (self.cols as int, self.rows as int);
        let ghost at = (col as int, row as int);
        let ghost was = *self;
        if col >= 0 && row >= 0 && col < self.cols && row < self.rows {
            proof {
                lemma_index_in_range(at, k, h);
            }
            let slot: usize = (row * self.cols + col) as usize;
            self.slots[slot] = entity;
            proof {
                assert forall|c: Cell| #[trigger] on_board(c, k, h) implies self.slot(c) == (if c
                    == at {
                    entity
                } else {
                    was.slot(c)
                }) by {
                    lemma_index_in_range(c, k, h);
                    board_cells_have_distinct_slots(at, c, k, h);
                }
                match entity {
                    Some(e) => {
                        assert(self@ =~= was@.insert(at, e));
                    },
                    None => {
                        assert(self@ =~= was@.remove(at));
                    },
                }
            }
        }
    }

    /// Marks every cell on the axis-aligned segment from `a` to `b` with `entity`.
    pub fn mark_segment(&mut self, a: IVec2, b: IVec2, entity: Entity)
        requires
            old(self).wf(),
        ensures
            final(self).wf(),
            final(self).spec_cols() == old(self).spec_cols(),
            final(self).spec_rows() == old(self).spec_rows(),
            final(self)@ == old(self)@.union_prefer_right(
                segment_map(a@, b@, old(self).spec_cols(), old(self).spec_rows(), entity),
            ),
    {
        let ghost (k, h) = (self.cols as int, self.rows as int);
        let ghost before = self@;
        if a.x == b.x {
            let (r0, r1): (i32, i32) = if a.y <= b.y {
                (a.y, b.y)
            } else {
                (b.y, a.y)
            };
            let mut row: i32 = r0;
            let ghost mut done = Map::<Cell, Entity>::empty();
            assert(self@ =~= before.union_prefer_right(done));
            while row < r1
                invariant
                    self.wf(),
                    self.spec_cols() == k,
                    self.spec_rows() == h,
                    r0 <= row <= r1,
                    done == Map::new(
                        |c: Cell| on_board(c, k, h) && c.0 == a.x && r0 <= c.1 < row,
                        |c: Cell| entity,
                    ),
                    self@ == before.union_prefer_right(done),
                decreases r1 - row,
            {
                self.set(a.x, row, Some(entity));
                row = row + 1;
                proof {
                    done = Map::new(
                        |c: Cell| on_board(c, k, h) && c.0 == a.x && r0 <= c.1 < row,
                        |c: Cell| entity,
                    );
                    assert(self@ =~= before.union_prefer_right(done));
                }
            }
            self.set(a.x, r1, Some(entity));
            assert(self@ =~= before.union_prefer_right(segment_map(a@, b@, k, h, entity)));
        } else {
            let (c0, c1): (i32, i32) = if a.x <= b.x {
                (a.x, b.x)
            } else {
                (b.x, a.x)
            };
            let mut col: i32 = c0;
            let ghost mut done = Map::<Cell, Entity>::empty();
            assert(self@ =~= before.union_prefer_right(done));
            while col < c1
                invariant
                    self.wf(),
                    self.spec_cols() == k,
                    self.spec_rows() == h,
                    c0 <= col <= c1,
                    done == Map::new(
                        |c: Cell| on_board(c, k, h) && c.1 == a.y && c0 <= c.0 < col,
                        |c: Cell| entity,
                    ),
                    self@ == before.union_prefer_right(done),
                decreases c1 - col,
            {
                self.set(col, a.y, Some(entity));
                col = col + 1;
                proof {
                    done = Map::new(
                        |c: Cell| on_board(c, k, h) && c.1 == a.y && c0 <= c.0 < col,
                        |c: Cell| entity,
                    );
                    assert(self@ =~= before.union_prefer_right(done));
                }
            }
            self.set(c1, a.y, Some(entity));
            assert(self@ =~= before.union_prefer_right(segment_map(a@, b@, k, h, entity)));
        }
    }

    /// Marks every cell that the path covers with `entity`.
    pub fn mark_path(&mut self, path: &Vec<IVec2>, entity: Entity)
        requires
            old(self).wf(),
        ensures
            final(self).wf(),
            final(self).spec_cols() == old(self).spec_cols(),
            final(self).spec_rows() == old(self).spec_rows(),
            final(self)@ == old(self)@.union_prefer_right(
                path_map(cells(path@), old(self).spec_cols(), old(self).spec_rows(), entity),
            ),
    {
        let ghost (k, h) = (self.cols as int, self.rows as int);
        let ghost before = self@;
        let ghost points = cells(path@);
        if path.len() == 0 {
            assert(self@ =~= before.union_prefer_right(path_map(points, k, h, entity)));
            return;
        }
        let mut i: usize = 0;
        assert(self@ =~= before.union_prefer_right(path_map(points.take(1), k, h, entity)));
        while i + 1 < path.len()
            invariant
                self.wf(),
                self.spec_cols() == k,
                self.spec_rows() == h,
                points == cells(path@),
                i < path.len(),
                self@ == before.union_prefer_right(path_map(points.take(i + 1), k, h, entity)),
            decreases path.len() - i,
        {
            let ghost was = path_map(points.take(i + 1), k, h, entity);
            self.mark_segment(path[i], path[i + 1], entity);
            i = i + 1;
            proof {
                let now = path_map(points.take(i + 1), k, h, entity);
                let seg = segment_map(points[i - 1], points[i as int], k, h, entity);
                assert forall|c: Cell| #[trigger] now.dom().contains(c) <==> was.dom().contains(c)
                    || seg.dom().contains(c) by {
                    lemma_covers_extended(points, i as int, c);
                }
                assert(self@ =~= before.union_prefer_right(now));
            }
        }
        assert(points.take(i + 1) =~= points);
    }
}

/// The map of a board on which the arrows of `list` stand, each under the
/// entity at its own position.
pub fn map_arrows(cols: i32, rows: i32, list: &Vec<ArrowSpec>, entities: &Vec<Entity>) -> (map:
    GridMap)
    requires
        storable(cols as int, rows as int),
        entities@.len() == list@.len(),
    ensures
        map.wf(),
        map.spec_cols() == cols,
        map.spec_rows() == rows,
        shows(map@, cols as int, rows as int, arrows(list@), entities@),
{
    let ghost (k, h) = (cols as int, rows as int);
    let ghost all = arrows(list@);
    let mut map: GridMap = GridMap::new(cols, rows);
    let mut i: usize = 0;
    while i < list.len()
        invariant
            map.wf(),
            map.spec_cols() == k,
            map.spec_rows() == h,
            all == arrows(list@),
            entities@.len() == list@.len(),
            i <= list.len(),
            shows(map@, k, h, all.take(i as int), entities@),
        decreases list.len() - i,
    {
        let ghost was = map@;
        map.mark_path(&list[i].vertices, entities[i]);
        proof {
            assert(all[i as int].path == cells(list@[i as int].vertices@));
            lemma_shows_extended(was, map@, k, h, all, entities@, i as int);
        }
        i = i + 1;
    }
    assert(all.take(i as int) =~= all);
    map
}

proof fn lemma_shows_extended(
    was: Map<Cell, Entity>,
    now: Map<Cell, Entity>,
    cols: int,
    rows: int,
    all: Seq<Arrow>,
    entities: Seq<Entity>,
    i: int,
)
    requires
        0 <= i < all.len(),
        shows(was, cols, rows, all.take(i), entities),
        now == was.union_prefer_right(path_map(all[i].path, cols, rows, entities[i])),
    ensures
        shows(now, cols, rows, all.take(i + 1), entities),
{
    let fewer = all.take(i);
    let more = all.take(i + 1);
    assert(more =~= fewer.push(all[i]));
    assert forall|c: Cell| #[trigger] now.dom().contains(c) <==> on_board(c, cols, rows)
        && occupied_by(more, c) by {
        lemma_occupied_by_pushed(fewer, all[i], c);
        assert(was.dom().contains(c) <==> on_board(c, cols, rows) && occupied_by(fewer, c));
    }
    assert forall|k: int, c: Cell|
        on_board(c, cols, rows) && #[trigger] topmost(more, k, c) implies now[c] == entities[k] by {
        if k < i {
            assert(!covers(more[i].path, c));
            assert forall|j: int| k < j < fewer.len() implies !covers(#[trigger] fewer[j].path, c) by {
                assert(fewer[j] == more[j]);
            }
            assert(fewer[k] == more[k]);
            assert(topmost(fewer, k, c));
            assert(covers(fewer[k].path, c));
            assert(was.dom().contains(c));
        }
    }
}

/// On a generated level a look-up identifies the arrow: each cell of an arrow
/// yields that arrow's entity, and, if the entities are distinct, a cell yields
/// an arrow's entity only if that arrow covers it.
pub proof fn lookup_identifies_arrow(
    cols: int,
    rows: int,
    seed: u32,
    entities: Seq<Entity>,
    map: Map<Cell, Entity>,
    k: int,
    c: Cell,
)
    requires
        entities.len() == level(cols, rows, seed).len(),
        shows(map, cols, rows, level(cols, rows, seed), entities),
        0 <= k < entities.len(),
    ensures
        covers(level(cols, rows, seed)[k].path, c) ==> map.dom().contains(c) && map[c]
            == entities[k],
        entities.no_duplicates() && map.dom().contains(c) && map[c] == entities[k] ==> covers(
            level(cols, rows, seed)[k].path,
            c,
        ),
{
    let list = level(cols, rows, seed);
    level_arrows_are_apart(cols, rows, seed);
    level_arrows_are_well_formed(cols, rows, seed);
    if covers(list[k].path, c) {
        lemma_topmost_when_apart(list, k, c);
        assert(well_formed(list[k], cols, rows));
        assert(occupied_by(list, c));
    }
    if map.dom().contains(c) && map[c] == entities[k] {
        assert(occupied_by(list, c));
        let j = choose|j: int| 0 <= j < list.len() && covers(#[trigger] list[j].path, c);
        lemma_topmost_when_apart(list, j, c);
        assert(map[c] == entities[j]);
    }
}

proof fn lemma_topmost_when_apart(list: Seq<Arrow>, k: int, c: Cell)
    requires
        0 <= k < list.len(),
        covers(list[k].path, c),
        forall|i: int, j: int|
            0 <= i < j < list.len() ==> apart(#[trigger] list[i], #[trigger] list[j]),
    ensures
        topmost(list, k, c),
{
    assert forall|j: int| k < j < list.len() implies !covers(#[trigger] list[j].path, c) by {
        assert(apart(list[k], list[j]));
    }
}

} // verus!
