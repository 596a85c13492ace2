//! Positions that differ only in the order of their box lists: the search
//! treats them alike.

use vstd::prelude::*;
use crate::heuristic::{lemma_position, position};
use crate::moves::{lemma_moved_sound, Position};
use crate::point::Point;
use crate::solver::{count_labelled, SokobanSolver};

verus! {

/// Whether two positions have the player on one cell and boxes on the same cells.
pub open spec fn same_layout(a: Position, b: Position) -> bool {
    a.player == b.player && a.boxes.to_set() == b.boxes.to_set()
}

/// Moving the box at `i` of a duplicate-free list to a cell that holds none
/// takes its old cell out of the set of box cells and puts the new one in.
pub proof fn lemma_update_to_set(boxes: Seq<Point>, i: int, to: Point)
    requires
        boxes.no_duplicates(),
        0 <= i < boxes.len(),
        !boxes.contains(to),
    ensures
        boxes.update(i, to).to_set() == boxes.to_set().remove(boxes[i]).insert(to),
{
    let moved = boxes.update(i, to);
    let target = boxes.to_set().remove(boxes[i]).insert(to);
    assert forall|p: Point| moved.to_set().contains(p) <==> target.contains(p) by {
        if moved.to_set().contains(p) {
            let k = choose|k: int| 0 <= k < moved.len() && moved[k] == p;
            if k != i {
                assert(boxes[k] == p);
                assert(boxes.contains(p));
            }
        }
        if target.contains(p) {
            if p != to {
                let k = choose|k: int| 0 <= k < boxes.len() && boxes[k] == p;
                assert(moved[k] == p);
            } else {
                assert(moved[i] == p);
            }
        }
    }
    assert(moved.to_set() =~= target);
}

/// How many of `points` meet `pred`.
pub open spec fn count_where(points: Seq<Point>, pred: spec_fn(Point) -> bool) -> nat
    decreases points.len(),
{
    if points.len() == 0 {
        0
    } else {
        count_where(points.drop_last(), pred) + if pred(points.last()) {
            1nat
        } else {
            0nat
        }
    }
}

/// A count over a duplicate-free list is the size of a set, so the order
/// of the list does not matter.
pub proof fn lemma_count_where_is_size(points: Seq<Point>, pred: spec_fn(Point) -> bool)
    requires
        points.no_duplicates(),
    ensures
        points.to_set().filter(pred).finite(),
        count_where(points, pred) == points.to_set().filter(pred).len(),
        count_where(points, pred) <= points.len(),
    decreases points.len(),
{
    broadcast use vstd::set::group_set_axioms;

    vstd::seq_lib::seq_to_set_is_finite(points);
    if points.len() == 0 {
        assert(points.to_set().filter(pred) =~= Set::<Point>::empty());
    } else {
        let rest = points.drop_last();
        let p = points.last();
        lemma_count_where_is_size(rest, pred);
        vstd::seq_lib::seq_to_set_is_finite(rest);
        assert(!rest.contains(p)) by {
            if rest.contains(p) {
                let k = choose|k: int| 0 <= k < rest.len() && rest[k] == p;
                assert(points[k] == points[points.len() - 1]);
            }
        }
        assert(points.to_set() =~= rest.to_set().insert(p)) by {
            assert forall|q: Point| points.to_set().contains(q) <==> rest.to_set().insert(
                p,
            ).contains(q) by {
                if points.to_set().contains(q) {
                    let k = choose|k: int| 0 <= k < points.len() && points[k] == q;
                    if k < rest.len() {
                        assert(rest[k] == q);
                    }
                }
                if rest.to_set().contains(q) {
                    let k = choose|k: int| 0 <= k < rest.len() && rest[k] == q;
                    assert(points[k] == q);
                }
                if q == p {
                    assert(points[points.len() - 1] == q);
                }
            }
        }
        let before = rest.to_set().filter(pred);
        let after = points.to_set().filter(pred);
        if pred(p) {
            assert(after =~= before.insert(p));
            assert(!before.contains(p));
        } else {
            assert(after =~= before);
        }
    }
}

/// Counts over one list by conditions that hold of the same points are equal.
pub proof fn lemma_count_where_same(
    points: Seq<Point>,
    one: spec_fn(Point) -> bool,
    other: spec_fn(Point) -> bool,
)
    requires
        forall|i: int| 0 <= i < points.len() ==> one(#[trigger] points[i]) == other(points[i]),
    ensures
        count_where(points, one) == count_where(points, other),
    decreases points.len(),
{
    if points.len() > 0 {
        let rest = points.drop_last();
        assert forall|i: int| 0 <= i < rest.len() implies one(#[trigger] rest[i]) == other(
            rest[i],
        ) by {
            assert(rest[i] == points[i]);
        }
        lemma_count_where_same(rest, one, other);
        assert(points.last() == points[points.len() - 1]);
    }
}

/// Whether `labels` gives the cell at `p` the label `room`, as a condition
/// on `p`.
pub open spec fn has_label(labels: Seq<u32>, width: int, room: int) -> spec_fn(Point) -> bool {
    |p: Point| labels[p.row * width + p.col] == room
}

/// The cells of `cells` that are labelled `room`.
pub open spec fn labelled_cells(cells: Set<Point>, labels: Seq<u32>, width: int, room: int) -> Set<
    Point,
> {
    cells.filter(has_label(labels, width, room))
}

/// The count of the points with a label is the count by that condition.
pub proof fn lemma_count_labelled_is_where(
    points: Seq<Point>,
    labels: Seq<u32>,
    width: int,
    room: int,
)
    ensures
        count_labelled(points, labels, width, room) == count_where(
            points,
            has_label(labels, width, room),
        ),
    decreases points.len(),
{
    if points.len() > 0 {
        lemma_count_labelled_is_where(points.drop_last(), labels, width, room);
    }
}

/// The count over a duplicate-free list is the size of a set, so the order
/// of the list does not matter.
pub proof fn lemma_count_is_size(points: Seq<Point>, labels: Seq<u32>, width: int, room: int)
    requires
        points.no_duplicates(),
    ensures
        labelled_cells(points.to_set(), labels, width, room).finite(),
        count_labelled(points, labels, width, room) == labelled_cells(
            points.to_set(),
            labels,
            width,
            room,
        ).len(),
{
    lemma_count_labelled_is_where(points, labels, width, room);
    lemma_count_where_is_size(points, has_label(labels, width, room));
}

impl SokobanSolver {
    /// Lists with the same cells fill the rooms alike.
    pub proof fn lemma_overfull_by_cells(&self, a: Seq<Point>, b: Seq<Point>)
        requires
            a.no_duplicates(),
            b.no_duplicates(),
            a.to_set() == b.to_set(),
        ensures
            self.room_overfull(a) == self.room_overfull(b),
    {
        assert forall|room: int| self.count_in_room(a, room) == self.count_in_room(b, room) by {
            lemma_count_is_size(a, self.room_ids@, self.width as int, room);
            lemma_count_is_size(b, self.room_ids@, self.width as int, room);
        }
        if self.room_overfull(a) {
            let room = choose|room: int|
                0 <= room < self.rooms() && #[trigger] self.count_in_room(a, room)
                    > self.goal_counts_by_room@[room];
            assert(self.count_in_room(b, room) > self.goal_counts_by_room@[room]);
        }
        if self.room_overfull(b) {
            let room = choose|room: int|
                0 <= room < self.rooms() && #[trigger] self.count_in_room(b, room)
                    > self.goal_counts_by_room@[room];
            assert(self.count_in_room(a, room) > self.goal_counts_by_room@[room]);
        }
    }

    /// Lists with the same cells are solved alike.
    pub proof fn lemma_solved_by_cells(&self, a: Seq<Point>, b: Seq<Point>)
        requires
            a.to_set() == b.to_set(),
            self.solved(a),
        ensures
            self.solved(b),
    {
        assert forall|i: int| 0 <= i < b.len() implies self.goal_at(#[trigger] b[i]) by {
            assert(b.to_set().contains(b[i]));
            assert(a.contains(b[i]));
            let k = choose|k: int| 0 <= k < a.len() && a[k] == b[i];
            assert(self.goal_at(a[k]));
        }
    }

    /// From positions of one layout the search takes the same moves, and they
    /// lead to positions of one layout.
    pub proof fn lemma_searched_by_layout(&self, a: Position, b: Position, dir: int)
        requires
            self.sound(a),
            self.sound(b),
            same_layout(a, b),
            self.searched(a, dir) is Some,
        ensures
            self.searched(b, dir) is Some,
            same_layout(self.searched(a, dir)->0, self.searched(b, dir)->0),
    {
        let to = a.player.stepped(dir);
        assert(a.boxes.contains(to) == b.boxes.contains(to)) by {
            assert(a.boxes.to_set().contains(to) == a.boxes.contains(to));
            assert(b.boxes.to_set().contains(to) == b.boxes.contains(to));
        }
        if a.boxes.contains(to) {
            let beyond = to.stepped(dir);
            assert(a.boxes.contains(beyond) == b.boxes.contains(beyond)) by {
                assert(a.boxes.to_set().contains(beyond) == a.boxes.contains(beyond));
                assert(b.boxes.to_set().contains(beyond) == b.boxes.contains(beyond));
            }
            lemma_position(a.boxes, to);
            lemma_position(b.boxes, to);
            lemma_update_to_set(a.boxes, position(a.boxes, to), beyond);
            lemma_update_to_set(b.boxes, position(b.boxes, to), beyond);
            lemma_moved_sound(self, a, dir);
            lemma_moved_sound(self, b, dir);
            self.lemma_overfull_by_cells(self.moved(a, dir)->0.boxes, self.moved(b, dir)->0.boxes);
        }
    }
}

} // verus!
