//! Dead squares: the cells from which a box can never be pushed to a goal.
//! They are found backwards, by pulling a box away from every goal.

use std::collections::VecDeque;
use vstd::prelude::*;
use crate::bits::BitSet;
use crate::moves::{lemma_live_step, lemma_step_back};
use crate::point::{opposite, Point};
use crate::solver::{
    lemma_cells_bounded, lemma_index_in_range, lemma_index_injective, lemma_same_board,
    SokobanSolver,
};

verus! {

/// The number of entries of `marks` that are not set.
pub open spec fn count_false(marks: Seq<bool>) -> nat
    decreases marks.len(),
{
    if marks.len() == 0 {
        0
    } else {
        count_false(marks.drop_last()) + if marks.last() {
            0nat
        } else {
            1nat
        }
    }
}

/// Setting an entry that was not set leaves one fewer unset.
pub proof fn lemma_mark_counts(marks: Seq<bool>, i: int)
    requires
        0 <= i < marks.len(),
        !marks[i],
    ensures
        count_false(marks.update(i, true)) + 1 == count_false(marks),
    decreases marks.len(),
{
    if i == marks.len() - 1 {
        assert(marks.update(i, true).drop_last() =~= marks.drop_last());
    } else {
        assert(marks.update(i, true).drop_last() =~= marks.drop_last().update(i, true));
        lemma_mark_counts(marks.drop_last(), i);
    }
}

impl SokobanSolver {
    /// Whether the cell at `p` is marked in `marks`.
    pub open spec fn marked(&self, marks: Seq<bool>, p: Point) -> bool {
        marks[self.index_of(p)]
    }

    /// Whether the cell from which a box is pulled onto `target` against
    /// direction `dir` is marked, if a box can be pushed from there.
    pub open spec fn pull_done(&self, marks: Seq<bool>, target: Point, dir: int) -> bool {
        let origin = target.stepped(dir);
        self.walkable(origin) && self.walkable(origin.stepped(dir)) ==> self.marked(marks, origin)
    }

    /// Whether the pulls from `target` in the first `dirs` directions are done.
    pub open spec fn pulls_done(&self, marks: Seq<bool>, target: Point, dirs: int) -> bool {
        &&& 0 < dirs ==> self.pull_done(marks, target, 0)
        &&& 1 < dirs ==> self.pull_done(marks, target, 1)
        &&& 2 < dirs ==> self.pull_done(marks, target, 2)
        &&& 3 < dirs ==> self.pull_done(marks, target, 3)
    }

    /// What holds while the flood runs: only live cells are marked, every
    /// goal is, and every marked cell but `current` waits in the queue or has
    /// had its pulls done.
    pub open spec fn flooding(
        &self,
        marks: Seq<bool>,
        queue: Seq<Point>,
        current: Option<Point>,
    ) -> bool {
        &&& marks.len() == self.cells()
        &&& forall|p: Point| self.in_bounds(p) && #[trigger] self.marked(marks, p) ==> self.live(p)
        &&& forall|p: Point| #[trigger] self.goal_at(p) ==> self.marked(marks, p)
        &&& forall|k: int|
            0 <= k < queue.len() ==> self.in_bounds(#[trigger] queue[k]) && self.marked(
                marks,
                queue[k],
            )
        &&& forall|p: Point|
            self.in_bounds(p) && #[trigger] self.marked(marks, p) ==> queue.contains(p)
                || self.pulls_done(marks, p, 4) || current == Some(p)
    }

    /// A cell from which a box reaches a goal is no wall.
    pub proof fn lemma_live_is_walkable(&self, p: Point, n: nat)
        requires
            self.live_within(p, n),
        ensures
            self.walkable(p),
    {
    }

    /// Marks that hold every goal and are closed under pulling hold every
    /// live cell.
    pub proof fn lemma_flooded(&self, marks: Seq<bool>, p: Point, n: nat)
        requires
            0 <= self.width,
            0 <= self.height,
            self.flooding(marks, Seq::<Point>::empty(), None),
            self.live_within(p, n),
        ensures
            self.marked(marks, p),
        decreases n,
    {
        if !self.goal_at(p) {
            let m = (n - 1) as nat;
            let dir: int = if self.pushable(p, 0) && self.live_within(p.stepped(0), m) {
                0
            } else if self.pushable(p, 1) && self.live_within(p.stepped(1), m) {
                1
            } else if self.pushable(p, 2) && self.live_within(p.stepped(2), m) {
                2
            } else {
                3
            };
            let target = p.stepped(dir);
            self.lemma_flooded(marks, target, m);
            self.lemma_live_is_walkable(target, m);
            lemma_step_back(p, dir);
            assert(self.pulls_done(marks, target, 4));
            assert(self.pull_done(marks, target, opposite(dir)));
        }
    }

    /// Marks the cell `origin` as live after a pull from `target`.
    proof fn lemma_pull_is_live(&self, target: Point, dir: int)
        requires
            0 <= dir < 4,
            self.in_bounds(target),
            self.live(target),
            self.walkable(target.stepped(dir)),
            self.walkable(target.stepped(dir).stepped(dir)),
        ensures
            self.live(target.stepped(dir)),
    {
        let n = choose|n: nat| self.live_within(target, n);
        self.lemma_live_is_walkable(target, n);
        let origin = target.stepped(dir);
        lemma_step_back(target, dir);
        assert(opposite(opposite(dir)) == dir);
        lemma_live_step(self, origin, opposite(dir), n);
    }

    /// The cells from which a box can be pushed to a goal, one flag per cell.
    pub fn live_squares(&self) -> (live: Vec<bool>)
        requires
            self.grid_wf(),
        ensures
            live@.len() == self.cells(),
            forall|p: Point| self.in_bounds(p) ==> (#[trigger] self.marked(live@, p) <==> self.live(p)),
    {
        proof {
            lemma_cells_bounded(self.width as int, self.height as int);
        }
        let size: usize = (self.width as usize) * (self.height as usize);
        let mut live: Vec<bool> = vec![false; size];
        let goals = self.goals.as_slice();
        let mut queue: VecDeque<Point> = VecDeque::with_capacity(goals.len() * 4);
        let mut i: usize = 0;
        proof {
            assert forall|p: Point| self.in_bounds(p) implies !#[trigger] self.marked(live@, p) by {
                lemma_index_in_range(self, p);
            }
        }
        while i < goals.len()
            invariant
                i <= goals@.len(),
                goals@ == self.goals@,
                self.grid_wf(),
                live@.len() == self.cells(),
                queue@ == goals@.take(i as int),
                forall|p: Point|
                    self.in_bounds(p) ==> (#[trigger] self.marked(live@, p) <==> goals@.take(
                        i as int,
                    ).contains(p)),
            decreases goals@.len() - i,
        {
            let goal = goals[i];
            assert(self.goal_at(goal));
            let idx = self.to_idx(goal.row, goal.col);
            let ghost before = live@;
            live[idx] = true;
            queue.push_back(goal);
            proof {
                let seeded = goals@.take(i as int);
                assert(goals@.take(i + 1) =~= seeded.push(goal));
                assert forall|p: Point| self.in_bounds(p) implies (#[trigger] self.marked(live@, p)
                    <==> goals@.take(i + 1).contains(p)) by {
                    if p == goal {
                        assert(seeded.push(goal)[i as int] == goal);
                    } else {
                        if self.index_of(p) == self.index_of(goal) {
                            lemma_index_injective(self, p, goal);
                        }
                        lemma_index_in_range(self, p);
                        assert(self.marked(live@, p) == self.marked(before, p));
                        if seeded.contains(p) {
                            let k = choose|k: int| 0 <= k < seeded.len() && seeded[k] == p;
                            assert(seeded.push(goal)[k] == p);
                        }
                        if seeded.push(goal).contains(p) {
                            let k = choose|k: int|
                                0 <= k < seeded.push(goal).len() && seeded.push(goal)[k] == p;
                            assert(seeded[k] == p);
                        }
                    }
                }
            }
            i += 1;
        }
        proof {
            assert(goals@.take(goals@.len() as int) =~= goals@);
            assert forall|p: Point| self.in_bounds(p) && #[trigger] self.marked(
                live@,
                p,
            ) implies self.live(p) by {
                assert(self.goal_at(p));
                assert(self.live_within(p, 0));
            }
        }
        let ghost mut unmarked: nat = count_false(live@);
        while queue.len() > 0
            invariant
                self.grid_wf(),
                self.flooding(live@, queue@, None),
                unmarked == count_false(live@),
            decreases 2 * unmarked + queue@.len(),
        {
            let ghost queue_before = queue@;
            let target = queue.pop_front().unwrap();
            proof {
                assert(queue_before[0] == target);
                assert forall|p: Point|
                    self.in_bounds(p) && #[trigger] self.marked(live@, p) implies queue@.contains(p)
                    || self.pulls_done(live@, p, 4) || Some(target) == Some(p) by {
                    if queue_before.contains(p) && p != target {
                        let k = choose|k: int| 0 <= k < queue_before.len() && queue_before[k] == p;
                        assert(queue@[k - 1] == p);
                    }
                }
                assert forall|k: int| 0 <= k < queue@.len() implies self.in_bounds(
                    #[trigger] queue@[k],
                ) && self.marked(live@, queue@[k]) by {
                    assert(queue@[k] == queue_before[k + 1]);
                }
            }
            let ghost total = unmarked + queue@.len();
            let ghost unmarked_before = unmarked;
            let mut dir: u8 = 0;
            while dir < 4
                invariant
                    dir <= 4,
                    self.grid_wf(),
                    self.in_bounds(target),
                    self.marked(live@, target),
                    self.flooding(live@, queue@, Some(target)),
                    self.pulls_done(live@, target, dir as int),
                    unmarked == count_false(live@),
                    unmarked <= unmarked_before,
                    unmarked + queue@.len() == total,
                decreases 4 - dir,
            {
                let ghost marks = live@;
                let ghost waiting = queue@;
                let mut pulled: Option<Point> = None;
                if let Some(origin) = self.neighbor(target, dir) {
                    if let Some(player) = self.neighbor(origin, dir) {
                        if !self.is_wall(origin) && !self.is_wall(player) {
                            let idx = self.to_idx(origin.row, origin.col);
                            if !live[idx] {
                                pulled = Some(origin);
                                live[idx] = true;
                                queue.push_back(origin);
                            }
                        }
                    }
                }
                proof {
                    if let Some(origin) = pulled {
                        lemma_index_in_range(self, origin);
                        lemma_mark_counts(marks, self.index_of(origin));
                        unmarked = (unmarked - 1) as nat;
                        self.lemma_pull_is_live(target, dir as int);
                        assert forall|p: Point| self.in_bounds(p) implies (#[trigger] self.marked(
                            live@,
                            p,
                        ) <==> p == origin || self.marked(marks, p)) by {
                            if p != origin && self.index_of(p) == self.index_of(origin) {
                                lemma_index_injective(self, p, origin);
                            }
                            lemma_index_in_range(self, p);
                        }
                        assert forall|k: int| 0 <= k < queue@.len() implies self.in_bounds(
                            #[trigger] queue@[k],
                        ) && self.marked(live@, queue@[k]) by {
                            if k < waiting.len() {
                                assert(queue@[k] == waiting[k]);
                            }
                        }
                        assert forall|p: Point| #[trigger] self.goal_at(p) implies self.marked(
                            live@,
                            p,
                        ) by {
                            assert(self.marked(marks, p));
                        }
                        assert forall|p: Point|
                            self.in_bounds(p) && #[trigger] self.marked(live@, p) implies self.live(
                            p,
                        ) by {
                            if p != origin {
                                assert(self.marked(marks, p));
                            }
                        }
                        assert forall|p: Point|
                            self.in_bounds(p) && #[trigger] self.marked(
                                live@,
                                p,
                            ) implies queue@.contains(p) || self.pulls_done(live@, p, 4) || Some(target)
                            == Some(p) by {
                            if p == origin {
                                assert(queue@[waiting.len() as int] == origin);
                            } else {
                                assert(self.marked(marks, p));
                                if waiting.contains(p) {
                                    let k = choose|k: int| 0 <= k < waiting.len() && waiting[k] == p;
                                    assert(queue@[k] == p);
                                } else if self.pulls_done(marks, p, 4) {
                                    self.lemma_pulls_stay(marks, live@, p, 4);
                                }
                            }
                        }
                        self.lemma_pulls_stay(marks, live@, target, dir as int);
                    }
                }
                dir += 1;
            }
            proof {
                assert forall|p: Point|
                    self.in_bounds(p) && #[trigger] self.marked(live@, p) implies queue@.contains(p)
                    || self.pulls_done(live@, p, 4) || None::<Point> == Some(p) by {
                    if p == target {
                    } else {
                        assert(queue@.contains(p) || self.pulls_done(live@, p, 4) || Some(target)
                            == Some(p));
                    }
                }
            }
        }
        proof {
            assert(queue@ =~= Seq::<Point>::empty());
            assert forall|p: Point| self.in_bounds(p) && self.live(p) implies #[trigger] self.marked(
                live@,
                p,
            ) by {
                let n = choose|n: nat| self.live_within(p, n);
                self.lemma_flooded(live@, p, n);
            }
        }
        live
    }

    /// Pulls that are done stay done when more cells are marked.
    proof fn lemma_pulls_stay(&self, before: Seq<bool>, after: Seq<bool>, target: Point, dirs: int)
        requires
            self.pulls_done(before, target, dirs),
            forall|p: Point|
                self.in_bounds(p) && #[trigger] self.marked(before, p) ==> self.marked(after, p),
        ensures
            self.pulls_done(after, target, dirs),
    {
        assert(self.walkable(target.stepped(0)) ==> self.in_bounds(target.stepped(0)));
        assert(self.walkable(target.stepped(1)) ==> self.in_bounds(target.stepped(1)));
        assert(self.walkable(target.stepped(2)) ==> self.in_bounds(target.stepped(2)));
        assert(self.walkable(target.stepped(3)) ==> self.in_bounds(target.stepped(3)));
    }

    /// Computes the dead squares: the cells that are no walls and from which
    /// no box can be pushed to a goal.
    pub fn precompute_static_deadlocks(&mut self)
        requires
            old(self).grid_wf(),
        ensures
            final(self).dead_wf(),
            final(self).grid_wf(),
            final(self).width == old(self).width,
            final(self).height == old(self).height,
            final(self).map == old(self).map,
            final(self).goals == old(self).goals,
            final(self).goal_grid == old(self).goal_grid,
            final(self).room_ids == old(self).room_ids,
            final(self).goal_counts_by_room == old(self).goal_counts_by_room,
            final(self).zobrist_table == old(self).zobrist_table,
    {
        let live = self.live_squares();
        proof {
            lemma_cells_bounded(self.width as int, self.height as int);
        }
        let size: usize = (self.width as usize) * (self.height as usize);
        let mut dead = BitSet::new(size);
        let mut row: i16 = 0;
        while row < self.height
            invariant
                0 <= row <= self.height,
                self.grid_wf(),
                *self == *old(self),
                live@.len() == self.cells(),
                forall|p: Point|
                    self.in_bounds(p) ==> (#[trigger] self.marked(live@, p) <==> self.live(p)),
                dead.wf(),
                dead.bits == self.cells(),
                forall|p: Point|
                    self.in_bounds(p) ==> (#[trigger] dead.has(self.index_of(p)) <==> p.row < row
                        && self.dead(p)),
            decreases self.height - row,
        {
            let mut col: i16 = 0;
            while col < self.width
                invariant
                    0 <= row < self.height,
                    0 <= col <= self.width,
                    self.grid_wf(),
                    *self == *old(self),
                    live@.len() == self.cells(),
                    forall|p: Point|
                        self.in_bounds(p) ==> (#[trigger] self.marked(live@, p) <==> self.live(p)),
                    dead.wf(),
                    dead.bits == self.cells(),
                    forall|p: Point|
                        self.in_bounds(p) ==> (#[trigger] dead.has(self.index_of(p)) <==> (p.row < row
                            || (p.row == row && p.col < col)) && self.dead(p)),
                decreases self.width - col,
            {
                let here = Point { row, col };
                let idx = self.to_idx(row, col);
                if !self.is_wall(here) && !live[idx] {
                    let ghost before = dead;
                    dead.insert(idx);
                    proof {
                        assert(self.marked(live@, here) == self.live(here));
                        assert forall|p: Point| self.in_bounds(p) implies (#[trigger] dead.has(
                            self.index_of(p),
                        ) <==> (p.row < row || (p.row == row && p.col < col + 1)) && self.dead(
                            p,
                        )) by {
                            if p != here && self.index_of(p) == idx {
                                lemma_index_injective(self, p, here);
                            }
                            assert(before.has(self.index_of(p)) <==> (p.row < row || (p.row == row
                                && p.col < col)) && self.dead(p));
                        }
                    }
                } else {
                    proof {
                        assert(self.marked(live@, here) == self.live(here));
                    }
                }
                col += 1;
            }
            row += 1;
        }
        self.dead_squares = dead;
        proof {
            lemma_same_board(self, old(self));
        }
    }
}

} // verus!
