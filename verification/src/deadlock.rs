//! Predicates on a box list that tell hopeless states early: a room with more
//! boxes than goals, and a box that is blocked on both axes.

use vstd::prelude::*;
use vstd::set_lib::{lemma_int_range, lemma_len_subset, set_int_range};
use crate::lists::RoomCounts;
use crate::point::Point;
use crate::solver::{
    count_labelled, lemma_cells_bounded, lemma_index_in_range, lemma_index_injective, SokobanSolver,
    NO_ROOM,
};

verus! {

/// Boxes on distinct cells of the board are at most as many as the cells.
pub proof fn lemma_placed_fit(s: &SokobanSolver, boxes: Seq<Point>)
    requires
        0 <= s.width,
        0 <= s.height,
        s.placed(boxes),
    ensures
        boxes.len() <= s.cells(),
        s.cells() <= i32::MAX,
{
    let indices = boxes.map_values(|p: Point| s.index_of(p));
    assert forall|i: int, j: int|
        0 <= i < indices.len() && 0 <= j < indices.len() && i != j implies indices[i]
        != indices[j] by {
        if indices[i] == indices[j] {
            lemma_index_injective(s, boxes[i], boxes[j]);
        }
    }
    indices.unique_seq_to_set();
    let range = set_int_range(0, s.cells());
    assert forall|x: int| indices.to_set().contains(x) implies range.contains(x) by {
        let i = choose|i: int| 0 <= i < indices.len() && indices[i] == x;
        lemma_index_in_range(s, boxes[i]);
    }
    lemma_cells_bounded(s.width as int, s.height as int);
    lemma_int_range(0, s.cells());
    lemma_len_subset(indices.to_set(), range);
}

/// Counting over one more point adds that point's share.
pub proof fn lemma_count_step(points: Seq<Point>, labels: Seq<u32>, width: int, room: int, n: int)
    requires
        0 <= n < points.len(),
    ensures
        count_labelled(points.take(n + 1), labels, width, room) == count_labelled(
            points.take(n),
            labels,
            width,
            room,
        ) + (if labels[points[n].row * width + points[n].col] == room {
            1nat
        } else {
            0nat
        }),
        count_labelled(points.take(n), labels, width, room) <= n,
    decreases n,
{
    assert(points.take(n + 1).drop_last() =~= points.take(n));
    if n > 0 {
        lemma_count_step(points, labels, width, room, n - 1);
    }
}

impl SokobanSolver {
    /// Whether a box cannot move onto `p`: `p` is off the board, a wall, or
    /// holds one of `boxes`.
    pub open spec fn obstacle(&self, boxes: Seq<Point>, p: Point) -> bool {
        !self.walkable(p) || boxes.contains(p)
    }

    /// Whether a cell is shut in on both axes: an obstacle above or below it,
    /// and an obstacle left or right of it.
    pub open spec fn blocked(&self, boxes: Seq<Point>, p: Point) -> bool {
        &&& self.obstacle(boxes, p.stepped(0)) || self.obstacle(boxes, p.stepped(1))
        &&& self.obstacle(boxes, p.stepped(2)) || self.obstacle(boxes, p.stepped(3))
    }

    /// A frozen box: off goal and shut in on both axes.
    pub open spec fn frozen(&self, boxes: Seq<Point>, p: Point) -> bool {
        !self.goal_at(p) && self.blocked(boxes, p)
    }

    /// Whether the neighbour of `p` in direction `dir` is an obstacle.
    fn has_obstacle(&self, boxes: &[Point], p: Point, dir: u8) -> (b: bool)
        requires
            self.in_bounds(p),
            self.map@.len() == self.cells(),
            dir < 4,
        ensures
            b == self.obstacle(boxes@, p.stepped(dir as int)),
    {
        match self.neighbor(p, dir) {
            None => true,
            Some(q) => self.is_wall(q) || Self::has_box(boxes, q),
        }
    }

    /// Whether the cell at `p` is shut in on both axes by walls, the board's
    /// edge or `boxes`.
    fn is_blocked(&self, boxes: &[Point], p: Point) -> (b: bool)
        requires
            self.in_bounds(p),
            self.map@.len() == self.cells(),
        ensures
            b == self.blocked(boxes@, p),
    {
        let v_blocked = self.has_obstacle(boxes, p, 0) || self.has_obstacle(boxes, p, 1);
        let h_blocked = self.has_obstacle(boxes, p, 2) || self.has_obstacle(boxes, p, 3);
        v_blocked && h_blocked
    }

    /// Whether a box at (`row`, `col`) is frozen: never on a goal, else when
    /// walls, the board's edge or `boxes` shut it in on both axes.
    pub fn is_frozen_box_fast(&self, boxes: &[Point], row: i16, col: i16) -> (b: bool)
        requires
            self.in_bounds(Point { row, col }),
            self.grid_wf(),
        ensures
            b == self.frozen(boxes@, Point { row, col }),
    {
        let p = Point { row, col };
        if self.is_goal(p) {
            return false;
        }
        self.is_blocked(boxes, p)
    }

    /// Whether a box at (`row`, `col`) is frozen: never on a goal, else when
    /// it is shut in on both axes.
    pub fn is_frozen_box_ultra_fast(&self, boxes: &[Point], row: i16, col: i16) -> (b: bool)
        requires
            self.in_bounds(Point { row, col }),
            self.grid_wf(),
        ensures
            b == self.frozen(boxes@, Point { row, col }),
    {
        self.is_frozen_box_fast(boxes, row, col)
    }

    /// Whether some room holds more of `boxes` than it has goals.
    pub fn is_room_deadlock(&self, boxes: &[Point]) -> (b: bool)
        requires
            self.wf(),
            self.placed(boxes@),
        ensures
            b == self.room_overfull(boxes@),
    {
        let rooms: usize = self.goal_counts_by_room.as_slice().len();
        let mut box_counts = RoomCounts::empty();
        box_counts.fill(rooms, 0);
        proof {
            lemma_placed_fit(self, boxes@);
        }
        let mut i: usize = 0;
        while i < boxes.len()
            invariant
                i <= boxes@.len(),
                self.wf(),
                self.placed(boxes@),
                boxes@.len() <= i32::MAX,
                rooms == self.rooms(),
                self.cells() <= i32::MAX,
                box_counts@.len() == rooms,
                forall|room: int|
                    0 <= room < rooms ==> #[trigger] box_counts@[room] == self.count_in_room(
                        boxes@.take(i as int),
                        room,
                    ),
            decreases boxes@.len() - i,
        {
            let b = boxes[i];
            let idx = self.to_idx(b.row, b.col);
            let room_id: u32 = self.room_ids[idx];
            proof {
                assert forall|room: int| 0 <= room < rooms implies self.count_in_room(
                    boxes@.take(i + 1),
                    room,
                ) == self.count_in_room(boxes@.take(i as int), room) + (if self.room_of(b) == room {
                    1nat
                } else {
                    0nat
                }) && self.count_in_room(boxes@.take(i as int), room) <= i by {
                    lemma_count_step(boxes@, self.room_ids@, self.width as int, room, i as int);
                }
                assert(self.room_of(b) == NO_ROOM || self.room_of(b) < rooms);
                assert(rooms < NO_ROOM);
                assert(room_id == self.room_of(b));
            }
            let ghost before = box_counts@;
            if room_id != NO_ROOM {
                let seen: i32 = box_counts.as_slice()[room_id as usize];
                assert(seen == self.count_in_room(boxes@.take(i as int), room_id as int));
                box_counts.put(room_id as usize, seen + 1);
            }
            assert forall|room: int| 0 <= room < rooms implies #[trigger] box_counts@[room]
                == self.count_in_room(boxes@.take(i + 1), room) by {
                assert(before[room] == self.count_in_room(boxes@.take(i as int), room));
                lemma_count_step(boxes@, self.room_ids@, self.width as int, room, i as int);
            }
            i += 1;
        }
        assert(boxes@.take(boxes@.len() as int) =~= boxes@);
        let mut room: usize = 0;
        while room < rooms
            invariant
                room <= rooms,
                rooms == self.rooms(),
                box_counts@.len() == rooms,
                forall|r: int|
                    0 <= r < rooms ==> #[trigger] box_counts@[r] == self.count_in_room(boxes@, r),
                forall|r: int|
                    0 <= r < room ==> #[trigger] self.count_in_room(boxes@, r)
                        <= self.goal_counts_by_room@[r],
            decreases rooms - room,
        {
            if box_counts.as_slice()[room] > self.goal_counts_by_room.as_slice()[room] {
                assert(self.count_in_room(boxes@, room as int) > self.goal_counts_by_room@[room as int]);
                return true;
            }
            room += 1;
        }
        false
    }
}

} // verus!
