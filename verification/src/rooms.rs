//! Rooms: the cells that are no walls, split into connected regions, each
//! with the number of goals that lie in it.

use std::collections::VecDeque;
use vstd::prelude::*;
use crate::deadlock::lemma_placed_fit;
use crate::layout::{
    count_where, has_label, lemma_count_labelled_is_where, lemma_count_where_is_size,
    lemma_count_where_same,
};
use crate::lists::RoomCounts;
use crate::moves::lemma_step_back;
use crate::point::{earlier, opposite, Point};
use crate::solver::{
    count_labelled, lemma_alike, lemma_cells_bounded, lemma_index_in_range, lemma_index_injective,
    lemma_same_board, SokobanSolver, NO_ROOM,
};

verus! {

/// The number of entries of `labels` that name no room.
pub open spec fn count_free(labels: Seq<u32>) -> nat
    decreases labels.len(),
{
    if labels.len() == 0 {
        0
    } else {
        count_free(labels.drop_last()) + if labels.last() == NO_ROOM {
            1nat
        } else {
            0nat
        }
    }
}

/// Labelling a cell that had no room leaves one fewer without.
pub proof fn lemma_label_counts(labels: Seq<u32>, i: int, room: u32)
    requires
        0 <= i < labels.len(),
        labels[i] == NO_ROOM,
        room != NO_ROOM,
    ensures
        count_free(labels.update(i, room)) + 1 == count_free(labels),
    decreases labels.len(),
{
    if i == labels.len() - 1 {
        assert(labels.update(i, room).drop_last() =~= labels.drop_last());
    } else {
        assert(labels.update(i, room).drop_last() =~= labels.drop_last().update(i, room));
        lemma_label_counts(labels.drop_last(), i, room);
    }
}

impl SokobanSolver {
    /// The label of the cell at `p` in `labels`.
    pub open spec fn label_in(&self, labels: Seq<u32>, p: Point) -> int {
        labels[self.index_of(p)] as int
    }

    /// How many of `points` are goal cells.
    pub open spec fn count_goals(&self, points: Seq<Point>) -> nat {
        count_where(points, |p: Point| self.goal_at(p))
    }

    /// Whether no labelled cell has a neighbour that is no wall and carries
    /// another label or none.
    pub open spec fn rooms_closed(&self, labels: Seq<u32>) -> bool {
        forall|p: Point, dir: int|
            self.in_bounds(p) && 0 <= dir < 4 && self.label_in(labels, p) != NO_ROOM
                && self.walkable(#[trigger] p.stepped(dir)) ==> self.label_in(
                labels,
                p.stepped(dir),
            ) == self.label_in(labels, p)
    }

    /// Whether `labels` holds the rooms found so far, the room `q` grown
    /// from the cell `seeds[q]`: a labelled cell is no wall and connected to the
    /// seed of its room, and the rooms are closed. The seed is the first cell of
    /// its room in reading order, the seeds follow each other in reading order,
    /// and no cell before a seed that is no wall is left without a room.
    pub open spec fn labelled(&self, labels: Seq<u32>, seeds: Seq<Point>) -> bool {
        &&& labels.len() == self.cells()
        &&& self.placed(seeds)
        &&& forall|q: int| 0 <= q < seeds.len() ==> self.label_in(labels, #[trigger] seeds[q]) == q
        &&& forall|p: Point|
            self.in_bounds(p) ==> ({
                let l = #[trigger] self.label_in(labels, p);
                l == NO_ROOM || (0 <= l < seeds.len() && self.walkable(p) && self.connected(
                    seeds[l],
                    p,
                ) && !earlier(p, seeds[l]))
            })
        &&& self.rooms_closed(labels)
        &&& forall|a: int, b: int|
            0 <= a < b < seeds.len() ==> earlier(#[trigger] seeds[a], #[trigger] seeds[b])
        &&& forall|q: int, p: Point|
            0 <= q < seeds.len() && self.walkable(p) && earlier(p, #[trigger] seeds[q])
                ==> #[trigger] self.label_in(labels, p) != NO_ROOM
    }

    /// Whether `labels` holds `rooms` whole rooms and nothing else.
    pub open spec fn partitioned(&self, labels: Seq<u32>, rooms: int) -> bool {
        exists|seeds: Seq<Point>| seeds.len() == rooms && #[trigger] self.labelled(labels, seeds)
    }

    /// A path of at most `n` steps is one of at most `m`, for `m` not below `n`.
    pub proof fn lemma_connected_more(&self, a: Point, b: Point, n: nat, m: nat)
        requires
            self.connected_within(a, b, n),
            n <= m,
        ensures
            self.connected_within(a, b, m),
        decreases n,
    {
        if a != b {
            let k = (n - 1) as nat;
            let j = (m - 1) as nat;
            if self.connected_within(a.stepped(0), b, k) {
                self.lemma_connected_more(a.stepped(0), b, k, j);
            } else if self.connected_within(a.stepped(1), b, k) {
                self.lemma_connected_more(a.stepped(1), b, k, j);
            } else if self.connected_within(a.stepped(2), b, k) {
                self.lemma_connected_more(a.stepped(2), b, k, j);
            } else {
                self.lemma_connected_more(a.stepped(3), b, k, j);
            }
        }
    }

    /// A path can be led one step on, onto a cell that is no wall.
    pub proof fn lemma_connected_append(&self, a: Point, b: Point, dir: int, n: nat)
        requires
            self.connected_within(a, b, n),
            0 <= dir < 4,
            self.walkable(b.stepped(dir)),
        ensures
            self.connected_within(a, b.stepped(dir), n + 1),
        decreases n,
    {
        let to = b.stepped(dir);
        if a == b {
            assert(self.connected_within(to, to, 0));
            self.lemma_connected_more(to, to, 0, n);
            assert(((n + 1) - 1) as nat == n);
        } else {
            let k = (n - 1) as nat;
            assert(((n + 1) - 1) as nat == k + 1);
            if self.connected_within(a.stepped(0), b, k) {
                self.lemma_connected_append(a.stepped(0), b, dir, k);
            } else if self.connected_within(a.stepped(1), b, k) {
                self.lemma_connected_append(a.stepped(1), b, dir, k);
            } else if self.connected_within(a.stepped(2), b, k) {
                self.lemma_connected_append(a.stepped(2), b, dir, k);
            } else {
                self.lemma_connected_append(a.stepped(3), b, dir, k);
            }
        }
    }

    /// A path can be walked backwards.
    pub proof fn lemma_connected_back(&self, a: Point, b: Point, n: nat)
        requires
            self.connected_within(a, b, n),
        ensures
            self.connected_within(b, a, n),
            self.walkable(b),
        decreases n,
    {
        if a != b {
            let k = (n - 1) as nat;
            let dir: int = if self.connected_within(a.stepped(0), b, k) {
                0
            } else if self.connected_within(a.stepped(1), b, k) {
                1
            } else if self.connected_within(a.stepped(2), b, k) {
                2
            } else {
                3
            };
            let next = a.stepped(dir);
            self.lemma_connected_back(next, b, k);
            lemma_step_back(a, dir);
            self.lemma_connected_append(b, next, opposite(dir), k);
        }
    }

    /// Two paths that meet make one.
    pub proof fn lemma_connected_join(&self, a: Point, b: Point, c: Point, n: nat, m: nat)
        requires
            self.connected_within(a, b, n),
            self.connected_within(b, c, m),
        ensures
            self.connected_within(a, c, n + m),
        decreases n,
    {
        if a == b {
            self.lemma_connected_more(a, c, m, n + m);
        } else {
            let k = (n - 1) as nat;
            assert(((n + m) - 1) as nat == k + m);
            if self.connected_within(a.stepped(0), b, k) {
                self.lemma_connected_join(a.stepped(0), b, c, k, m);
            } else if self.connected_within(a.stepped(1), b, k) {
                self.lemma_connected_join(a.stepped(1), b, c, k, m);
            } else if self.connected_within(a.stepped(2), b, k) {
                self.lemma_connected_join(a.stepped(2), b, c, k, m);
            } else {
                self.lemma_connected_join(a.stepped(3), b, c, k, m);
            }
        }
    }

    /// Two cells connected to a third are connected to each other.
    pub proof fn lemma_connected_through(&self, seed: Point, a: Point, b: Point)
        requires
            self.connected(seed, a),
            self.connected(seed, b),
        ensures
            self.connected(a, b),
    {
        let n = choose|n: nat| self.connected_within(seed, a, n);
        let m = choose|m: nat| self.connected_within(seed, b, m);
        self.lemma_connected_back(seed, a, n);
        self.lemma_connected_join(a, seed, b, n, m);
    }

    /// A path starts on a cell that is no wall.
    pub proof fn lemma_path_starts_open(&self, a: Point, b: Point, n: nat)
        requires
            self.connected_within(a, b, n),
        ensures
            self.walkable(a),
    {
    }

    /// Where the rooms are closed, a path stays within one room.
    pub proof fn lemma_path_in_room(&self, labels: Seq<u32>, a: Point, b: Point, n: nat)
        requires
            self.rooms_closed(labels),
            self.connected_within(a, b, n),
            self.label_in(labels, a) != NO_ROOM,
        ensures
            self.label_in(labels, b) == self.label_in(labels, a),
        decreases n,
    {
        if a != b {
            let k = (n - 1) as nat;
            let dir: int = if self.connected_within(a.stepped(0), b, k) {
                0
            } else if self.connected_within(a.stepped(1), b, k) {
                1
            } else if self.connected_within(a.stepped(2), b, k) {
                2
            } else {
                3
            };
            self.lemma_path_starts_open(a.stepped(dir), b, k);
            assert(self.label_in(labels, a.stepped(dir)) == self.label_in(labels, a));
            self.lemma_path_in_room(labels, a.stepped(dir), b, k);
        }
    }
}

/// A labelling of one board is a labelling of every board with the same cells.
pub proof fn lemma_labelled_alike(
    a: &SokobanSolver,
    b: &SokobanSolver,
    labels: Seq<u32>,
    seeds: Seq<Point>,
)
    requires
        a.alike(b),
        a.labelled(labels, seeds),
    ensures
        b.labelled(labels, seeds),
{
    lemma_alike(a, b);
    assert forall|p: Point| a.walkable(p) == b.walkable(p) by {
        assert(a.in_bounds(p) ==> a.cell(p) == b.cell(p));
    }
    assert forall|q: int| 0 <= q < seeds.len() implies b.label_in(labels, #[trigger] seeds[q])
        == q by {
        assert(a.label_in(labels, seeds[q]) == q);
    }
    assert forall|p: Point| b.in_bounds(p) implies ({
        let l = #[trigger] b.label_in(labels, p);
        l == NO_ROOM || (0 <= l < seeds.len() && b.walkable(p) && b.connected(seeds[l], p)
            && !earlier(p, seeds[l]))
    }) by {
        let l = a.label_in(labels, p);
        if l != NO_ROOM {
            assert(a.connected(seeds[l], p) == b.connected(seeds[l], p));
        }
    }
    assert forall|p: Point, dir: int|
        b.in_bounds(p) && 0 <= dir < 4 && b.label_in(labels, p) != NO_ROOM && b.walkable(
            #[trigger] p.stepped(dir),
        ) implies b.label_in(labels, p.stepped(dir)) == b.label_in(labels, p) by {
        assert(a.walkable(p.stepped(dir)));
        assert(a.label_in(labels, p.stepped(dir)) == a.label_in(labels, p));
    }
    assert forall|q: int, p: Point|
        0 <= q < seeds.len() && b.walkable(p) && earlier(p, #[trigger] seeds[q]) implies #[trigger] b.label_in(
        labels,
        p,
    ) != NO_ROOM by {
        assert(a.walkable(p));
        assert(a.label_in(labels, p) != NO_ROOM);
    }
    assert forall|i: int| 0 <= i < seeds.len() implies b.in_bounds(#[trigger] seeds[i]) by {
        assert(a.in_bounds(seeds[i]));
    }
}

/// Two full labellings of one board grow their rooms from the same seeds.
pub proof fn lemma_seeds_agree(
    s: &SokobanSolver,
    la: Seq<u32>,
    lb: Seq<u32>,
    sa: Seq<Point>,
    sb: Seq<Point>,
    q: int,
)
    requires
        0 <= s.width,
        0 <= s.height,
        s.labelled(la, sa),
        s.labelled(lb, sb),
        forall|p: Point| #[trigger] s.walkable(p) ==> s.label_in(la, p) != NO_ROOM,
        forall|p: Point| #[trigger] s.walkable(p) ==> s.label_in(lb, p) != NO_ROOM,
        0 <= q < sa.len(),
    ensures
        q < sb.len(),
        sa[q] == sb[q],
        forall|i: int| 0 <= i <= q ==> #[trigger] sa[i] == sb[i],
    decreases q,
{
    lemma_placed_fit(s, sa);
    lemma_placed_fit(s, sb);
    if q > 0 {
        lemma_seeds_agree(s, la, lb, sa, sb, q - 1);
    }
    assert forall|i: int| 0 <= i < q implies i < sb.len() && #[trigger] sa[i] == sb[i] by {}
    let x = sa[q];
    assert(s.label_in(la, x) == q);
    assert(s.walkable(x));
    lemma_seed_label(s, la, lb, sa, sb, q, x);
    let in_b = s.label_in(lb, x);
    assert(q <= in_b < sb.len());
    let y = sb[q];
    assert(s.label_in(lb, y) == q);
    assert(s.walkable(y));
    assert forall|i: int| 0 <= i < q implies i < sa.len() && #[trigger] sb[i] == sa[i] by {
        assert(sa[i] == sb[i]);
    }
    lemma_seed_label(s, lb, la, sb, sa, q, y);
    let in_a = s.label_in(la, y);
    if x != y {
        if earlier(y, x) {
            // `y` lies in a room of the first labelling whose seed comes no
            // later than `y`, so before `x`; that room has a number below `q`.
            assert(!earlier(y, sa[in_a]));
            if in_a > q {
                assert(earlier(sa[q], sa[in_a]));
            }
            assert(false);
        } else {
            assert(earlier(x, y));
            assert(!earlier(x, sb[in_b]));
            if in_b > q {
                assert(earlier(sb[q], sb[in_b]));
            }
            assert(false);
        }
    }
}

/// A cell with the label `q` in one full labelling has no lower label in
/// another whose earlier seeds are the same.
proof fn lemma_seed_label(
    s: &SokobanSolver,
    la: Seq<u32>,
    lb: Seq<u32>,
    sa: Seq<Point>,
    sb: Seq<Point>,
    q: int,
    x: Point,
)
    requires
        0 <= s.width,
        0 <= s.height,
        s.labelled(la, sa),
        s.labelled(lb, sb),
        forall|p: Point| #[trigger] s.walkable(p) ==> s.label_in(lb, p) != NO_ROOM,
        0 <= q < sa.len(),
        s.walkable(x),
        s.label_in(la, x) == q,
        forall|i: int| 0 <= i < q ==> i < sb.len() && #[trigger] sa[i] == sb[i],
    ensures
        q <= s.label_in(lb, x) < sb.len(),
{
    lemma_placed_fit(s, sa);
    lemma_placed_fit(s, sb);
    let l = s.label_in(lb, x);
    assert(l != NO_ROOM);
    if l < q {
        assert(s.connected(sb[l], x));
        let n = choose|n: nat| s.connected_within(sb[l], x, n);
        assert(s.label_in(la, sa[l]) == l);
        s.lemma_path_in_room(la, sa[l], x, n);
        assert(false);
    }
}

/// Two full labellings of one board are one: the same rooms with the same
/// numbers.
pub proof fn lemma_labels_agree(
    s: &SokobanSolver,
    la: Seq<u32>,
    lb: Seq<u32>,
    rooms_a: int,
    rooms_b: int,
)
    requires
        0 <= s.width,
        0 <= s.height,
        s.partitioned(la, rooms_a),
        s.partitioned(lb, rooms_b),
        forall|p: Point| #[trigger] s.walkable(p) ==> s.label_in(la, p) != NO_ROOM,
        forall|p: Point| #[trigger] s.walkable(p) ==> s.label_in(lb, p) != NO_ROOM,
    ensures
        rooms_a == rooms_b,
        forall|p: Point| s.in_bounds(p) ==> #[trigger] s.label_in(la, p) == s.label_in(lb, p),
{
    let sa = choose|seeds: Seq<Point>| seeds.len() == rooms_a && #[trigger] s.labelled(la, seeds);
    let sb = choose|seeds: Seq<Point>| seeds.len() == rooms_b && #[trigger] s.labelled(lb, seeds);
    lemma_placed_fit(s, sa);
    lemma_placed_fit(s, sb);
    if rooms_a > 0 {
        lemma_seeds_agree(s, la, lb, sa, sb, rooms_a - 1);
    }
    if rooms_b > 0 {
        lemma_seeds_agree(s, lb, la, sb, sa, rooms_b - 1);
    }
    assert forall|p: Point| s.in_bounds(p) implies #[trigger] s.label_in(la, p) == s.label_in(
        lb,
        p,
    ) by {
        let a = s.label_in(la, p);
        let b = s.label_in(lb, p);
        if a != NO_ROOM {
            assert(s.walkable(p));
            assert(b != NO_ROOM);
            lemma_seeds_agree(s, la, lb, sa, sb, a);
            assert(s.connected(sa[a], p));
            let n = choose|n: nat| s.connected_within(sa[a], p, n);
            assert(s.label_in(lb, sb[a]) == a);
            s.lemma_path_in_room(lb, sa[a], p, n);
        } else if b != NO_ROOM {
            assert(s.walkable(p));
        }
    }
}

/// Labels that agree on which cells belong to `room` give the same count.
pub proof fn lemma_count_same(
    points: Seq<Point>,
    before: Seq<u32>,
    after: Seq<u32>,
    width: int,
    room: int,
)
    requires
        forall|i: int|
            0 <= i < points.len() ==> (before[(#[trigger] points[i]).row * width + points[i].col]
                == room) == (after[points[i].row * width + points[i].col] == room),
    ensures
        count_labelled(points, before, width, room) == count_labelled(points, after, width, room),
    decreases points.len(),
{
    if points.len() > 0 {
        let rest = points.drop_last();
        assert forall|i: int| 0 <= i < rest.len() implies (before[(#[trigger] rest[i]).row * width
            + rest[i].col] == room) == (after[rest[i].row * width + rest[i].col] == room) by {
            assert(rest[i] == points[i]);
        }
        lemma_count_same(rest, before, after, width, room);
        assert(points.last() == points[points.len() - 1]);
    }
}


impl SokobanSolver {
    /// How many of `points` are connected to `from`.
    pub open spec fn count_reached(&self, points: Seq<Point>, from: Point) -> nat {
        count_where(points, |p: Point| self.connected(from, p))
    }

    /// Whether the cell at `p` had no room in `first` and has the label
    /// `room` in `labels`.
    pub open spec fn filled(&self, first: Seq<u32>, labels: Seq<u32>, room: int, p: Point) -> bool {
        self.label_in(first, p) == NO_ROOM && self.label_in(labels, p) == room
    }

    /// Whether the neighbours of `p` in the first `dirs` directions that are
    /// no walls were filled with the label `room`.
    pub open spec fn neighbours_in(
        &self,
        first: Seq<u32>,
        labels: Seq<u32>,
        p: Point,
        room: int,
        dirs: int,
    ) -> bool {
        &&& 0 < dirs && self.walkable(p.stepped(0)) ==> self.filled(first, labels, room, p.stepped(0))
        &&& 1 < dirs && self.walkable(p.stepped(1)) ==> self.filled(first, labels, room, p.stepped(1))
        &&& 2 < dirs && self.walkable(p.stepped(2)) ==> self.filled(first, labels, room, p.stepped(2))
        &&& 3 < dirs && self.walkable(p.stepped(3)) ==> self.filled(first, labels, room, p.stepped(3))
    }

    /// What holds while one room is filled from `start`: only cells without
    /// a room were given `room`; each of them is no wall, connected to `start`,
    /// and waits in `queue`, is the one being worked on, or was taken from the
    /// queue, and then its neighbours are filled too.
    pub open spec fn filling(
        &self,
        first: Seq<u32>,
        labels: Seq<u32>,
        room: int,
        start: Point,
        queue: Seq<Point>,
        popped: Seq<Point>,
        current: Option<Point>,
    ) -> bool {
        &&& labels.len() == self.cells()
        &&& self.filled(first, labels, room, start)
        &&& forall|p: Point|
            self.in_bounds(p) ==> #[trigger] self.label_in(labels, p) == self.label_in(first, p)
                || self.filled(first, labels, room, p)
        &&& forall|p: Point|
            self.in_bounds(p) && #[trigger] self.filled(first, labels, room, p) ==> self.walkable(p)
                && self.connected(start, p) && (queue.contains(p) || popped.contains(p) || current
                == Some(p))
        &&& forall|k: int|
            0 <= k < queue.len() ==> self.in_bounds(#[trigger] queue[k]) && self.filled(
                first,
                labels,
                room,
                queue[k],
            )
        &&& forall|j: int|
            0 <= j < popped.len() ==> self.in_bounds(#[trigger] popped[j]) && self.filled(
                first,
                labels,
                room,
                popped[j],
            ) && self.neighbours_in(first, labels, popped[j], room, 4)
        &&& queue.no_duplicates()
        &&& popped.no_duplicates()
        &&& forall|k: int, j: int|
            0 <= k < queue.len() && 0 <= j < popped.len() ==> #[trigger] queue[k]
                != #[trigger] popped[j]
        &&& current is Some ==> !queue.contains(current->0) && !popped.contains(current->0)
    }

    /// The neighbours that were filled stay filled when one more cell
    /// without a room is given the room's label.
    proof fn lemma_neighbours_stay(
        &self,
        first: Seq<u32>,
        before: Seq<u32>,
        after: Seq<u32>,
        p: Point,
        room: int,
        dirs: int,
    )
        requires
            self.neighbours_in(first, before, p, room, dirs),
            forall|q: Point|
                self.in_bounds(q) && #[trigger] self.filled(first, before, room, q) ==> self.filled(
                    first,
                    after,
                    room,
                    q,
                ),
        ensures
            self.neighbours_in(first, after, p, room, dirs),
    {
        assert(self.walkable(p.stepped(0)) ==> self.in_bounds(p.stepped(0)));
        assert(self.walkable(p.stepped(1)) ==> self.in_bounds(p.stepped(1)));
        assert(self.walkable(p.stepped(2)) ==> self.in_bounds(p.stepped(2)));
        assert(self.walkable(p.stepped(3)) ==> self.in_bounds(p.stepped(3)));
    }

    /// Once the queue is empty, every cell that a path leads to from a
    /// filled cell is filled.
    proof fn lemma_path_is_filled(
        &self,
        first: Seq<u32>,
        labels: Seq<u32>,
        room: int,
        start: Point,
        popped: Seq<Point>,
        a: Point,
        b: Point,
        n: nat,
    )
        requires
            self.filling(first, labels, room, start, Seq::<Point>::empty(), popped, None),
            self.in_bounds(a),
            self.filled(first, labels, room, a),
            self.connected_within(a, b, n),
        ensures
            self.in_bounds(b),
            self.filled(first, labels, room, b),
        decreases n,
    {
        if a != b {
            let k = (n - 1) as nat;
            let dir: int = if self.connected_within(a.stepped(0), b, k) {
                0
            } else if self.connected_within(a.stepped(1), b, k) {
                1
            } else if self.connected_within(a.stepped(2), b, k) {
                2
            } else {
                3
            };
            self.lemma_path_starts_open(a.stepped(dir), b, k);
            assert(popped.contains(a));
            let j = choose|j: int| 0 <= j < popped.len() && popped[j] == a;
            assert(self.neighbours_in(first, labels, popped[j], room, 4));
            self.lemma_path_is_filled(first, labels, room, start, popped, a.stepped(dir), b, k);
        }
    }

    /// Gives the label `room_id` to the cells connected to `start`, none of
    /// which has a room yet, and counts the goals among them.
    pub fn flood_fill_room(&self, room_ids: &mut Vec<u32>, start: Point, room_id: u32) -> (goal_count:
        i32)
        requires
            self.grid_wf(),
            old(room_ids)@.len() == self.cells(),
            self.walkable(start),
            room_id != NO_ROOM,
            forall|p: Point| #[trigger]
                self.connected(start, p) ==> self.label_in(old(room_ids)@, p) == NO_ROOM,
        ensures
            final(room_ids)@.len() == self.cells(),
            forall|p: Point|
                self.in_bounds(p) ==> #[trigger] self.label_in(final(room_ids)@, p) == (
                if self.connected(start, p) {
                    room_id as int
                } else {
                    self.label_in(old(room_ids)@, p)
                }),
            goal_count == self.count_reached(self.goals@, start),
    {
        let ghost first = room_ids@;
        let ghost room = room_id as int;
        proof {
            lemma_index_in_range(self, start);
            assert(self.connected_within(start, start, 0));
            assert(self.connected(start, start));
        }
        let mut goal_count: i32 = 0;
        let mut queue: VecDeque<Point> = VecDeque::with_capacity(100);
        queue.push_back(start);
        let start_idx = self.to_idx(start.row, start.col);
        room_ids[start_idx] = room_id;
        let ghost mut popped: Seq<Point> = Seq::empty();
        let ghost mut free: nat = count_free(room_ids@);
        proof {
            lemma_label_counts(first, start_idx as int, room_id);
            assert forall|p: Point| self.in_bounds(p) implies (#[trigger] self.label_in(room_ids@, p)
                == if p == start {
                room
            } else {
                self.label_in(first, p)
            }) by {
                lemma_index_in_range(self, p);
                if p != start && self.index_of(p) == self.index_of(start) {
                    lemma_index_injective(self, p, start);
                }
            }
            assert(queue@[0] == start);
            assert forall|p: Point|
                self.in_bounds(p) && #[trigger] self.filled(first, room_ids@, room, p)
                    implies self.walkable(p) && self.connected(start, p) && (queue@.contains(p)
                || popped.contains(p) || None::<Point> == Some(p)) by {
                if p != start {
                    assert(self.label_in(room_ids@, p) == self.label_in(first, p));
                }
            }
            assert forall|p: Point| self.in_bounds(p) implies #[trigger] self.label_in(room_ids@, p)
                == self.label_in(first, p) || self.filled(first, room_ids@, room, p) by {}
        }
        while queue.len() > 0
            invariant
                self.grid_wf(),
                room == room_id,
                room != NO_ROOM,
                first.len() == self.cells(),
                self.cells() <= i32::MAX,
                forall|p: Point| #[trigger] self.connected(start, p) ==> self.label_in(first, p) == NO_ROOM,
                self.filling(first, room_ids@, room, start, queue@, popped, None),
                goal_count == self.count_goals(popped),
                free == count_free(room_ids@),
            decreases 2 * free + queue@.len(),
        {
            let ghost waiting = queue@;
            let current = queue.pop_front().unwrap();
            proof {
                assert(waiting[0] == current);
                assert forall|k: int| 0 <= k < queue@.len() implies queue@[k] == waiting[k + 1] by {}
                assert(!queue@.contains(current)) by {
                    if queue@.contains(current) {
                        let k = choose|k: int| 0 <= k < queue@.len() && queue@[k] == current;
                        assert(waiting[k + 1] == waiting[0]);
                    }
                }
                assert(!popped.contains(current)) by {
                    if popped.contains(current) {
                        let j = choose|j: int| 0 <= j < popped.len() && popped[j] == current;
                        assert(waiting[0] != popped[j]);
                    }
                }
                assert forall|p: Point|
                    self.in_bounds(p) && #[trigger] self.filled(first, room_ids@, room, p)
                        implies queue@.contains(p) || popped.contains(p) || Some(current) == Some(
                    p,
                ) by {
                    if waiting.contains(p) && p != current {
                        let k = choose|k: int| 0 <= k < waiting.len() && waiting[k] == p;
                        assert(queue@[k - 1] == p);
                    }
                }
                assert forall|k: int, j: int|
                    0 <= k < queue@.len() && 0 <= j < popped.len() implies #[trigger] queue@[k]
                    != #[trigger] popped[j] by {
                    assert(waiting[k + 1] != popped[j]);
                }
                assert(self.filling(first, room_ids@, room, start, queue@, popped, Some(current)));
                assert(self.placed(popped.push(current))) by {
                    let more = popped.push(current);
                    assert forall|a: int, b: int|
                        0 <= a < more.len() && 0 <= b < more.len() && a != b implies more[a]
                        != more[b] by {
                        if a < popped.len() && b < popped.len() {
                        } else if a < popped.len() {
                            assert(popped.contains(popped[a]));
                        } else {
                            assert(popped.contains(popped[b]));
                        }
                    }
                }
                lemma_placed_fit(self, popped.push(current));
                lemma_count_where_is_size(popped, |p: Point| self.goal_at(p));
                assert(popped.push(current).drop_last() =~= popped);
            }
            let ghost found: nat = if self.goal_at(current) {
                1
            } else {
                0
            };
            if self.is_goal(current) {
                goal_count += 1;
            }
            let ghost total = free + queue@.len();
            let ghost free_before = free;
            let mut dir: u8 = 0;
            while dir < 4
                invariant
                    dir <= 4,
                    self.grid_wf(),
                    room == room_id,
                    room != NO_ROOM,
                    first.len() == self.cells(),
                    forall|p: Point| #[trigger]
                        self.connected(start, p) ==> self.label_in(first, p) == NO_ROOM,
                    self.in_bounds(current),
                    self.filled(first, room_ids@, room, current),
                    self.filling(first, room_ids@, room, start, queue@, popped, Some(current)),
                    self.neighbours_in(first, room_ids@, current, room, dir as int),
                    goal_count == self.count_goals(popped) + found,
                    free == count_free(room_ids@),
                    free <= free_before,
                    free + queue@.len() == total,
                decreases 4 - dir,
            {
                let ghost labels = room_ids@;
                let ghost lined = queue@;
                let mut taken: Option<Point> = None;
                if let Some(next) = self.neighbor(current, dir) {
                    let idx = self.to_idx(next.row, next.col);
                    if !self.is_wall(next) {
                        proof {
                            // The neighbour is connected to the start, so it had no room.
                            let n = choose|n: nat| self.connected_within(start, current, n);
                            self.lemma_connected_append(start, current, dir as int, n);
                            assert(self.connected(start, next));
                        }
                        if room_ids[idx] == NO_ROOM {
                            room_ids[idx] = room_id;
                            queue.push_back(next);
                            taken = Some(next);
                        } else {
                            proof {
                                assert(self.label_in(labels, next) != self.label_in(first, next));
                                assert(self.filled(first, labels, room, next));
                            }
                        }
                    }
                }
                proof {
                    if let Some(next) = taken {
                        lemma_index_in_range(self, next);
                        lemma_label_counts(labels, self.index_of(next), room_id);
                        free = (free - 1) as nat;
                        assert forall|p: Point| self.in_bounds(p) implies (#[trigger] self.label_in(
                            room_ids@,
                            p,
                        ) == if p == next {
                            room
                        } else {
                            self.label_in(labels, p)
                        }) by {
                            lemma_index_in_range(self, p);
                            if p != next && self.index_of(p) == self.index_of(next) {
                                lemma_index_injective(self, p, next);
                            }
                        }
                        assert forall|p: Point| self.in_bounds(p) implies (#[trigger] self.filled(
                            first,
                            room_ids@,
                            room,
                            p,
                        ) <==> p == next || self.filled(first, labels, room, p)) by {
                            assert(self.label_in(room_ids@, p) == if p == next {
                                room
                            } else {
                                self.label_in(labels, p)
                            });
                        }
                        assert(!lined.contains(next) && !popped.contains(next) && next != current) by {
                            if lined.contains(next) {
                                let k = choose|k: int| 0 <= k < lined.len() && lined[k] == next;
                                assert(self.filled(first, labels, room, lined[k]));
                            }
                            if popped.contains(next) {
                                let j = choose|j: int| 0 <= j < popped.len() && popped[j] == next;
                                assert(self.filled(first, labels, room, popped[j]));
                            }
                        }
                        assert forall|p: Point| self.in_bounds(p) implies #[trigger] self.label_in(
                            room_ids@,
                            p,
                        ) == self.label_in(first, p) || self.filled(first, room_ids@, room, p) by {
                            if p != next {
                                assert(self.label_in(labels, p) == self.label_in(first, p)
                                    || self.filled(first, labels, room, p));
                            }
                        }
                        assert forall|k: int| 0 <= k < queue@.len() implies self.in_bounds(
                            #[trigger] queue@[k],
                        ) && self.filled(first, room_ids@, room, queue@[k]) by {
                            if k < lined.len() {
                                assert(queue@[k] == lined[k]);
                                assert(self.filled(first, labels, room, lined[k]));
                            }
                        }
                        assert forall|p: Point|
                            self.in_bounds(p) && #[trigger] self.filled(first, room_ids@, room, p)
                                implies self.walkable(p) && self.connected(start, p) && (
                            queue@.contains(p) || popped.contains(p) || Some(current) == Some(p)) by {
                            if p == next {
                                assert(queue@[lined.len() as int] == next);
                            } else {
                                assert(self.filled(first, labels, room, p));
                                if lined.contains(p) {
                                    let k = choose|k: int| 0 <= k < lined.len() && lined[k] == p;
                                    assert(queue@[k] == p);
                                }
                            }
                        }
                        assert forall|j: int| 0 <= j < popped.len() implies self.in_bounds(
                            #[trigger] popped[j],
                        ) && self.filled(first, room_ids@, room, popped[j]) && self.neighbours_in(
                            first,
                            room_ids@,
                            popped[j],
                            room,
                            4,
                        ) by {
                            assert(self.filled(first, labels, room, popped[j]));
                            self.lemma_neighbours_stay(first, labels, room_ids@, popped[j], room, 4);
                        }
                        assert(queue@.no_duplicates()) by {
                            assert forall|a: int, b: int|
                                0 <= a < queue@.len() && 0 <= b < queue@.len() && a
                                    != b implies queue@[a] != queue@[b] by {
                                if a < lined.len() && b < lined.len() {
                                    assert(lined[a] != lined[b]);
                                } else if a < lined.len() {
                                    assert(lined.contains(lined[a]));
                                } else {
                                    assert(lined.contains(lined[b]));
                                }
                            }
                        }
                        assert forall|k: int, j: int|
                            0 <= k < queue@.len() && 0 <= j < popped.len() implies #[trigger] queue@[k]
                            != #[trigger] popped[j] by {
                            if k < lined.len() {
                                assert(lined[k] != popped[j]);
                            } else {
                                assert(popped.contains(popped[j]));
                            }
                        }
                        assert(!queue@.contains(current)) by {
                            if queue@.contains(current) {
                                let k = choose|k: int| 0 <= k < queue@.len() && queue@[k] == current;
                                if k < lined.len() {
                                    assert(lined.contains(current));
                                }
                            }
                        }
                        assert(self.filled(first, room_ids@, room, start)) by {
                            assert(self.filled(first, labels, room, start));
                        }
                        assert(self.filled(first, room_ids@, room, current)) by {
                            assert(self.filled(first, labels, room, current));
                        }
                        self.lemma_neighbours_stay(first, labels, room_ids@, current, room, dir as int);
                    }
                }
                dir += 1;
            }
            proof {
                let more = popped.push(current);
                assert(more.drop_last() =~= popped);
                assert forall|j: int| 0 <= j < more.len() implies self.in_bounds(#[trigger] more[j])
                    && self.filled(first, room_ids@, room, more[j]) && self.neighbours_in(
                    first,
                    room_ids@,
                    more[j],
                    room,
                    4,
                ) by {
                    if j < popped.len() {
                        assert(more[j] == popped[j]);
                    }
                }
                assert(more.no_duplicates()) by {
                    assert forall|a: int, b: int|
                        0 <= a < more.len() && 0 <= b < more.len() && a != b implies more[a]
                        != more[b] by {
                        if a < popped.len() && b < popped.len() {
                        } else if a < popped.len() {
                            assert(popped.contains(popped[a]));
                        } else {
                            assert(popped.contains(popped[b]));
                        }
                    }
                }
                assert forall|k: int, j: int|
                    0 <= k < queue@.len() && 0 <= j < more.len() implies #[trigger] queue@[k]
                    != #[trigger] more[j] by {
                    if j < popped.len() {
                        assert(queue@[k] != popped[j]);
                    } else {
                        assert(queue@.contains(queue@[k]));
                    }
                }
                assert forall|p: Point|
                    self.in_bounds(p) && #[trigger] self.filled(first, room_ids@, room, p)
                        implies queue@.contains(p) || more.contains(p) || None::<Point> == Some(
                    p,
                ) by {
                    if p == current {
                        assert(more[popped.len() as int] == current);
                    } else if popped.contains(p) {
                        let j = choose|j: int| 0 <= j < popped.len() && popped[j] == p;
                        assert(more[j] == p);
                    }
                }
                popped = more;
            }
        }
        proof {
            let labels = room_ids@;
            assert(queue@ =~= Seq::<Point>::empty());
            // Exactly the cells connected to the start were filled.
            assert forall|p: Point| self.in_bounds(p) implies #[trigger] self.label_in(labels, p) == (
            if self.connected(start, p) {
                room
            } else {
                self.label_in(first, p)
            }) by {
                if self.connected(start, p) {
                    let n = choose|n: nat| self.connected_within(start, p, n);
                    self.lemma_path_is_filled(first, labels, room, start, popped, start, p, n);
                } else {
                    assert(self.label_in(labels, p) == self.label_in(first, p) || self.filled(
                        first,
                        labels,
                        room,
                        p,
                    ));
                }
            }
            // The goals that were counted are the goals connected to the start.
            let goal = |p: Point| self.goal_at(p);
            let reached = |p: Point| self.connected(start, p);
            lemma_count_where_is_size(popped, goal);
            lemma_count_where_is_size(self.goals@, reached);
            let counted = popped.to_set().filter(goal);
            let inside = self.goals@.to_set().filter(reached);
            assert forall|p: Point| counted.contains(p) <==> inside.contains(p) by {
                if counted.contains(p) {
                    let j = choose|j: int| 0 <= j < popped.len() && popped[j] == p;
                    assert(self.filled(first, labels, room, popped[j]));
                    assert(self.goals@.contains(p));
                }
                if inside.contains(p) {
                    let i = choose|i: int| 0 <= i < self.goals@.len() && self.goals@[i] == p;
                    assert(self.goal_at(self.goals@[i]));
                    let n = choose|n: nat| self.connected_within(start, p, n);
                    self.lemma_path_is_filled(first, labels, room, start, popped, start, p, n);
                    assert(popped.contains(p));
                }
            }
            assert(counted =~= inside);
        }
        goal_count
    }
}

impl SokobanSolver {
    /// A cell without a room is connected to no cell that has one.
    pub proof fn lemma_room_is_free(&self, labels: Seq<u32>, seeds: Seq<Point>, start: Point)
        requires
            self.labelled(labels, seeds),
            self.label_in(labels, start) == NO_ROOM,
        ensures
            forall|p: Point| #[trigger] self.connected(start, p) ==> self.label_in(labels, p) == NO_ROOM,
    {
        assert forall|p: Point| #[trigger] self.connected(start, p) implies self.label_in(labels, p)
            == NO_ROOM by {
            if self.label_in(labels, p) != NO_ROOM {
                let n = choose|n: nat| self.connected_within(start, p, n);
                self.lemma_connected_back(start, p, n);
                self.lemma_path_in_room(labels, p, start, n);
            }
        }
    }

    /// The rooms found so far and one more, filled from the first cell that
    /// has no room yet, are the rooms found so far again.
    pub proof fn lemma_room_added(
        &self,
        first: Seq<u32>,
        labels: Seq<u32>,
        seeds: Seq<Point>,
        start: Point,
    )
        requires
            0 <= self.width,
            0 <= self.height,
            self.labelled(first, seeds),
            self.walkable(start),
            self.label_in(first, start) == NO_ROOM,
            forall|p: Point|
                self.walkable(p) && earlier(p, start) ==> #[trigger] self.label_in(first, p) != NO_ROOM,
            labels.len() == self.cells(),
            forall|p: Point|
                self.in_bounds(p) ==> #[trigger] self.label_in(labels, p) == (if self.connected(
                    start,
                    p,
                ) {
                    seeds.len() as int
                } else {
                    self.label_in(first, p)
                }),
        ensures
            self.labelled(labels, seeds.push(start)),
    {
        let room = seeds.len() as int;
        let grown = seeds.push(start);
        lemma_placed_fit(self, seeds);
        self.lemma_room_is_free(first, seeds, start);
        assert(self.connected_within(start, start, 0));
        assert(self.connected(start, start));
        assert forall|a: int, b: int|
            0 <= a < grown.len() && 0 <= b < grown.len() && a != b implies grown[a] != grown[b] by {
            if a < seeds.len() {
                assert(self.label_in(first, seeds[a]) == a);
            }
            if b < seeds.len() {
                assert(self.label_in(first, seeds[b]) == b);
            }
        }
        assert forall|i: int| 0 <= i < grown.len() implies self.in_bounds(#[trigger] grown[i]) by {
            if i < seeds.len() {
                assert(self.in_bounds(seeds[i]));
            }
        }
        assert forall|q: int| 0 <= q < grown.len() implies self.label_in(labels, #[trigger] grown[q])
            == q by {
            if q < seeds.len() {
                assert(grown[q] == seeds[q]);
                assert(self.label_in(first, seeds[q]) == q);
                assert(self.label_in(labels, seeds[q]) == (if self.connected(start, seeds[q]) {
                    room
                } else {
                    self.label_in(first, seeds[q])
                }));
            } else {
                assert(self.label_in(labels, start) == (if self.connected(start, start) {
                    room
                } else {
                    self.label_in(first, start)
                }));
            }
        }
        assert forall|p: Point| self.in_bounds(p) implies ({
            let l = #[trigger] self.label_in(labels, p);
            l == NO_ROOM || (0 <= l < grown.len() && self.walkable(p) && self.connected(grown[l], p)
                && !earlier(p, grown[l]))
        }) by {
            let l = self.label_in(labels, p);
            let before = self.label_in(first, p);
            assert(before == NO_ROOM || 0 <= before < seeds.len());
            if self.connected(start, p) {
                let n = choose|n: nat| self.connected_within(start, p, n);
                self.lemma_connected_back(start, p, n);
                assert(grown[room] == start);
                assert(before == NO_ROOM);
            } else if l != NO_ROOM {
                assert(grown[l] == seeds[l]);
            }
        }
        assert forall|p: Point, dir: int|
            self.in_bounds(p) && 0 <= dir < 4 && self.label_in(labels, p) != NO_ROOM
                && self.walkable(#[trigger] p.stepped(dir)) implies self.label_in(
            labels,
            p.stepped(dir),
        ) == self.label_in(labels, p) by {
            let next = p.stepped(dir);
            assert(self.label_in(labels, next) == (if self.connected(start, next) {
                room
            } else {
                self.label_in(first, next)
            }));
            let before = self.label_in(first, p);
            assert(before == NO_ROOM || self.walkable(p));
            if self.connected(start, p) {
                let n = choose|n: nat| self.connected_within(start, p, n);
                self.lemma_connected_append(start, p, dir, n);
                assert(self.connected(start, next));
            } else {
                assert(before != NO_ROOM);
                if self.connected(start, next) {
                    let n = choose|n: nat| self.connected_within(start, next, n);
                    lemma_step_back(p, dir);
                    self.lemma_connected_append(start, next, opposite(dir), n);
                    assert(self.connected(start, p));
                }
                assert(self.label_in(first, next) == before);
            }
        }
        assert forall|a: int, b: int| 0 <= a < b < grown.len() implies earlier(
            #[trigger] grown[a],
            #[trigger] grown[b],
        ) by {
            if b < seeds.len() {
                assert(earlier(seeds[a], seeds[b]));
            } else {
                assert(self.label_in(first, seeds[a]) == a);
                if earlier(start, seeds[a]) {
                    assert(self.label_in(first, start) != NO_ROOM);
                }
            }
        }
        assert forall|q: int, p: Point|
            0 <= q < grown.len() && self.walkable(p) && earlier(p, #[trigger] grown[q]) implies #[trigger] self.label_in(
            labels,
            p,
        ) != NO_ROOM by {
            if q < seeds.len() {
                assert(grown[q] == seeds[q]);
            }
            assert(self.label_in(first, p) != NO_ROOM);
        }
    }

    /// Once every cell that is no wall has a label, two such cells have one
    /// label exactly when they are connected.
    pub proof fn lemma_rooms_are_components(&self, labels: Seq<u32>, rooms: int)
        requires
            self.partitioned(labels, rooms),
            forall|p: Point| #[trigger] self.walkable(p) ==> self.label_in(labels, p) != NO_ROOM,
        ensures
            forall|a: Point, b: Point|
                self.walkable(a) && self.walkable(b) ==> (#[trigger] self.label_in(labels, a)
                    == #[trigger] self.label_in(labels, b) <==> self.connected(a, b)),
    {
        let seeds = choose|seeds: Seq<Point>|
            seeds.len() == rooms && #[trigger] self.labelled(labels, seeds);
        assert forall|a: Point, b: Point| self.walkable(a) && self.walkable(b) implies (
        #[trigger] self.label_in(labels, a) == #[trigger] self.label_in(labels, b)
            <==> self.connected(a, b)) by {
            if self.label_in(labels, a) == self.label_in(labels, b) {
                let l = self.label_in(labels, a);
                self.lemma_connected_through(seeds[l], a, b);
            }
            if self.connected(a, b) {
                let n = choose|n: nat| self.connected_within(a, b, n);
                self.lemma_path_in_room(labels, a, b, n);
            }
        }
    }

    /// Labels every cell that is no wall with its room, numbering the rooms
    /// in the order in which their first cells are read, and counts each room's
    /// goals.
    pub fn precompute_rooms(&mut self)
        requires
            old(self).grid_wf(),
        ensures
            final(self).rooms_wf(),
            final(self).grid_wf(),
            final(self).same_board(old(self)),
            final(self).dead_squares == old(self).dead_squares,
            final(self).zobrist_table == old(self).zobrist_table,
    {
        proof {
            lemma_cells_bounded(self.width as int, self.height as int);
        }
        let size: usize = (self.width as usize) * (self.height as usize);
        let mut labels: Vec<u32> = vec![NO_ROOM; size];
        let mut counts = RoomCounts::empty();
        let mut current_room_id: u32 = 0;
        proof {
            let none = Seq::<Point>::empty();
            assert forall|p: Point| self.in_bounds(p) implies #[trigger] self.label_in(labels@, p)
                == NO_ROOM by {
                lemma_index_in_range(self, p);
            }
            assert(self.labelled(labels@, none));
        }
        let mut row: i16 = 0;
        while row < self.height
            invariant
                0 <= row <= self.height,
                self.grid_wf(),
                *self == *old(self),
                labels@.len() == self.cells(),
                self.cells() <= 32767 * 32767,
                current_room_id <= self.cells(),
                self.partitioned(labels@, current_room_id as int),
                counts@.len() == current_room_id,
                forall|q: int|
                    0 <= q < current_room_id ==> #[trigger] counts@[q] == count_labelled(
                        self.goals@,
                        labels@,
                        self.width as int,
                        q,
                    ),
                forall|p: Point|
                    self.in_bounds(p) && p.row < row && self.walkable(p) ==> #[trigger] self.label_in(
                        labels@,
                        p,
                    ) != NO_ROOM,
            decreases self.height - row,
        {
            let mut col: i16 = 0;
            while col < self.width
                invariant
                    0 <= row < self.height,
                    0 <= col <= self.width,
                    self.grid_wf(),
                    *self == *old(self),
                    labels@.len() == self.cells(),
                    self.cells() <= 32767 * 32767,
                    current_room_id <= self.cells(),
                    self.partitioned(labels@, current_room_id as int),
                    counts@.len() == current_room_id,
                    forall|q: int|
                        0 <= q < current_room_id ==> #[trigger] counts@[q] == count_labelled(
                            self.goals@,
                            labels@,
                            self.width as int,
                            q,
                        ),
                    forall|p: Point|
                        self.in_bounds(p) && (p.row < row || (p.row == row && p.col < col))
                            && self.walkable(p) ==> #[trigger] self.label_in(labels@, p) != NO_ROOM,
                decreases self.width - col,
            {
                let here = Point { row, col };
                let idx = self.to_idx(row, col);
                if !self.is_wall(here) && labels[idx] == NO_ROOM {
                    let ghost before = labels@;
                    let ghost counted = counts@;
                    let ghost seeds = choose|seeds: Seq<Point>|
                        seeds.len() == current_room_id && #[trigger] self.labelled(before, seeds);
                    proof {
                        self.lemma_room_is_free(before, seeds, here);
                    }
                    let goal_count = self.flood_fill_room(&mut labels, here, current_room_id);
                    counts.append(goal_count);
                    proof {
                        let room = current_room_id as int;
                        let width = self.width as int;
                        self.lemma_room_added(before, labels@, seeds, here);
                        lemma_placed_fit(self, seeds.push(here));
                        assert(self.partitioned(labels@, room + 1));
                        assert forall|q: int| 0 <= q < room + 1 implies #[trigger] counts@[q]
                            == count_labelled(self.goals@, labels@, width, q) by {
                            if q < room {
                                assert(counts@[q] == counted[q]);
                                assert forall|i: int| 0 <= i < self.goals@.len() implies (before[(
                                #[trigger] self.goals@[i]).row * width + self.goals@[i].col] == q)
                                    == (labels@[self.goals@[i].row * width + self.goals@[i].col]
                                    == q) by {
                                    let g = self.goals@[i];
                                    assert(self.goal_at(g));
                                    assert(self.label_in(labels@, g) == (if self.connected(here, g) {
                                        room
                                    } else {
                                        self.label_in(before, g)
                                    }));
                                }
                                lemma_count_same(self.goals@, before, labels@, width, q);
                            } else {
                                assert forall|i: int| 0 <= i < self.goals@.len() implies has_label(
                                    labels@,
                                    width,
                                    room,
                                )(#[trigger] self.goals@[i]) == self.connected(here, self.goals@[i]) by {
                                    let g = self.goals@[i];
                                    assert(self.goal_at(g));
                                    assert(self.label_in(labels@, g) == (if self.connected(here, g) {
                                        room
                                    } else {
                                        self.label_in(before, g)
                                    }));
                                    assert(self.label_in(before, g) == NO_ROOM || self.label_in(
                                        before,
                                        g,
                                    ) < room);
                                }
                                lemma_count_where_same(
                                    self.goals@,
                                    has_label(labels@, width, room),
                                    |p: Point| self.connected(here, p),
                                );
                                lemma_count_labelled_is_where(self.goals@, labels@, width, room);
                            }
                        }
                        assert forall|p: Point|
                            self.in_bounds(p) && (p.row < row || (p.row == row && p.col < col + 1))
                                && self.walkable(p) implies #[trigger] self.label_in(labels@, p)
                            != NO_ROOM by {
                            assert(self.connected_within(here, here, 0));
                            if p != here {
                                assert(self.label_in(before, p) != NO_ROOM);
                            }
                        }
                    }
                    current_room_id += 1;
                }
                col += 1;
            }
            row += 1;
        }
        proof {
            assert forall|p: Point| #[trigger] self.walkable(p) implies self.label_in(labels@, p)
                != NO_ROOM by {}
            self.lemma_rooms_are_components(labels@, current_room_id as int);
            let seeds = choose|seeds: Seq<Point>|
                seeds.len() == current_room_id && #[trigger] self.labelled(labels@, seeds);
            assert forall|p: Point| self.in_bounds(p) implies (#[trigger] self.label_in(labels@, p)
                == NO_ROOM <==> !self.walkable(p)) by {}
            assert forall|p: Point| #[trigger] self.walkable(p) implies 0 <= self.label_in(labels@, p)
                < current_room_id by {
                assert(self.label_in(labels@, p) != NO_ROOM);
            }
        }
        let ghost board = *self;
        let ghost rooms = current_room_id as int;
        self.room_ids = labels;
        self.goal_counts_by_room = counts;
        proof {
            lemma_same_board(self, &board);
            let seeds = choose|seeds: Seq<Point>|
                seeds.len() == rooms && #[trigger] board.labelled(self.room_ids@, seeds);
            lemma_labelled_alike(&board, self, self.room_ids@, seeds);
            assert(self.partitioned(self.room_ids@, self.rooms()));
            assert forall|p: Point| self.room_of(p) == board.label_in(self.room_ids@, p) by {}
            assert forall|p: Point|
                self.in_bounds(p) implies (#[trigger] self.room_of(p) == NO_ROOM <==> !self.walkable(
                p,
            )) by {
                assert(board.label_in(self.room_ids@, p) == NO_ROOM <==> !board.walkable(p));
            }
            assert forall|p: Point| #[trigger] self.walkable(p) implies 0 <= self.room_of(p)
                < self.rooms() by {
                assert(board.walkable(p));
            }
            assert forall|a: Point, b: Point| self.walkable(a) && self.walkable(b) implies (
            #[trigger] self.room_of(a) == #[trigger] self.room_of(b) <==> self.connected(a, b)) by {
                assert(board.walkable(a) && board.walkable(b));
                assert(board.label_in(self.room_ids@, a) == board.label_in(self.room_ids@, b)
                    <==> board.connected(a, b));
                assert(self.connected(a, b) == board.connected(a, b));
            }
        }
    }
}

} // verus!
