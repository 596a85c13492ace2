//! The search heuristic: each box off goal is matched greedily, in list
//! order, to the nearest goal not yet taken, and pays its distance; a frozen
//! box pays a penalty on top.

use arrayvec::ArrayVec;
use vstd::prelude::*;
use crate::deadlock::lemma_placed_fit;
use crate::lists::{flags_new, flags_of, flags_push, flags_put, flags_slice};
use crate::point::Point;
use crate::solver::SokobanSolver;

verus! {

/// What a frozen box off goal adds to the heuristic.
pub const FROZEN_PENALTY: u64 = 30;

/// The first place of `p` in `list`, or the list's length where `p` is absent.
pub open spec fn position(list: Seq<Point>, p: Point) -> int
    decreases list.len(),
{
    if list.len() == 0 {
        0
    } else {
        let before = position(list.drop_last(), p);
        if before < list.len() - 1 {
            before
        } else if list.last() == p {
            list.len() - 1
        } else {
            list.len() as int
        }
    }
}

/// `position` finds the first occurrence, and the length only if there is none.
pub proof fn lemma_position(list: Seq<Point>, p: Point)
    ensures
        0 <= position(list, p) <= list.len(),
        position(list, p) < list.len() ==> list[position(list, p)] == p,
        forall|j: int| 0 <= j < position(list, p) ==> list[j] != p,
    decreases list.len(),
{
    if list.len() > 0 {
        lemma_position(list.drop_last(), p);
        assert forall|j: int| 0 <= j < position(list, p) implies list[j] != p by {
            if j < list.len() - 1 {
                assert(list.drop_last()[j] == list[j]);
            }
        }
    }
}

/// The first place of `p` in `list`, if it occurs there.
pub fn find_point(list: &[Point], p: Point) -> (found: Option<usize>)
    ensures
        match found {
            Some(i) => i == position(list@, p) && i < list@.len(),
            None => position(list@, p) == list@.len(),
        },
{
    let mut i: usize = 0;
    while i < list.len()
        invariant
            i <= list@.len(),
            position(list@.take(i as int), p) == i,
        decreases list@.len() - i,
    {
        assert(list@.take(i + 1).drop_last() =~= list@.take(i as int));
        if list[i].row == p.row && list[i].col == p.col {
            proof {
                lemma_position_prefix(list@, p, i + 1);
            }
            return Some(i);
        }
        i += 1;
    }
    assert(list@.take(list@.len() as int) =~= list@);
    None
}

/// The running result of the greedy matching.
pub struct Tally {
    /// The distances and penalties added up so far.
    pub total: int,
    /// For each goal, whether a box has taken it.
    pub used: Seq<bool>,
    /// How many boxes stood on a goal.
    pub on_goal: int,
}

impl SokobanSolver {
    /// Among the first `n` goals, the untaken one nearest to `b`, the earliest
    /// of several; -1 if all of them are taken.
    pub open spec fn nearest_free(&self, b: Point, used: Seq<bool>, n: nat) -> int
        decreases n,
    {
        if n == 0 {
            -1
        } else {
            let best = self.nearest_free(b, used, (n - 1) as nat);
            let g = n - 1;
            if !used[g] && (best < 0 || b.manhattan(self.goals@[g]) < b.manhattan(self.goals@[best])) {
                g
            } else {
                best
            }
        }
    }

    /// The matching after the first `k` boxes of `boxes`.
    pub open spec fn tally(&self, boxes: Seq<Point>, k: nat) -> Tally
        decreases k,
    {
        if k == 0 {
            Tally { total: 0, used: Seq::new(self.goals@.len(), |i: int| false), on_goal: 0 }
        } else {
            let t = self.tally(boxes, (k - 1) as nat);
            let b = boxes[k - 1];
            if self.goal_at(b) {
                let g = position(self.goals@, b);
                Tally {
                    total: t.total,
                    used: if g < t.used.len() {
                        t.used.update(g, true)
                    } else {
                        t.used
                    },
                    on_goal: t.on_goal + 1,
                }
            } else {
                let penalty = if self.frozen(boxes, b) {
                    FROZEN_PENALTY as int
                } else {
                    0
                };
                let g = self.nearest_free(b, t.used, self.goals@.len());
                if g >= 0 {
                    Tally {
                        total: t.total + penalty + b.manhattan(self.goals@[g]),
                        used: t.used.update(g, true),
                        on_goal: t.on_goal,
                    }
                } else {
                    Tally { total: t.total + penalty, used: t.used, on_goal: t.on_goal }
                }
            }
        }
    }

    /// The heuristic of a box list: 0 when every box stands on a goal, else
    /// the total of the greedy matching.
    pub open spec fn heuristic_of(&self, boxes: Seq<Point>) -> int {
        let t = self.tally(boxes, boxes.len());
        if t.on_goal == boxes.len() {
            0
        } else {
            t.total
        }
    }

    /// The index of the goal at (`row`, `col`), if there is one.
    pub fn find_goal_index(&self, row: i16, col: i16) -> (found: Option<usize>)
        ensures
            match found {
                Some(i) => i == position(self.goals@, Point { row, col }) && i < self.goals@.len(),
                None => position(self.goals@, Point { row, col }) == self.goals@.len(),
            },
    {
        find_point(self.goals.as_slice(), Point { row, col })
    }

    /// One flag for each goal, none of them set.
    pub fn fresh_flags(&self) -> (flags: ArrayVec<bool, 64>)
        requires
            self.grid_wf(),
        ensures
            flags_of(flags) == Seq::new(self.goals@.len(), |i: int| false),
    {
        let mut flags = flags_new();
        let goal_count: usize = self.goals.as_slice().len();
        let mut g: usize = 0;
        while g < goal_count
            invariant
                g <= goal_count,
                goal_count == self.goals@.len(),
                goal_count <= 64,
                flags_of(flags) == Seq::new(g as nat, |i: int| false),
            decreases goal_count - g,
        {
            flags_push(&mut flags, false);
            assert(flags_of(flags) =~= Seq::new((g + 1) as nat, |i: int| false));
            g += 1;
        }
        flags
    }

    /// Flags the goal at (`row`, `col`) as taken, if there is one.
    pub fn mark_goal_as_matched(&self, used_goals: &mut ArrayVec<bool, 64>, row: i16, col: i16)
        requires
            flags_of(*old(used_goals)).len() == self.goals@.len(),
        ensures
            flags_of(*final(used_goals)) == (if position(self.goals@, Point { row, col })
                < self.goals@.len() {
                flags_of(*old(used_goals)).update(position(self.goals@, Point { row, col }), true)
            } else {
                flags_of(*old(used_goals))
            }),
    {
        if let Some(i) = self.find_goal_index(row, col) {
            flags_put(used_goals, i, true);
        }
    }

    /// The untaken goal nearest to `b`, the earliest of several.
    fn nearest_free_goal(&self, b: Point, used_goals: &ArrayVec<bool, 64>) -> (best: Option<usize>)
        requires
            flags_of(*used_goals).len() == self.goals@.len(),
        ensures
            match best {
                Some(g) => g == self.nearest_free(b, flags_of(*used_goals), self.goals@.len()),
                None => self.nearest_free(b, flags_of(*used_goals), self.goals@.len()) < 0,
            },
            best is Some ==> best->0 < self.goals@.len(),
    {
        let goals = self.goals.as_slice();
        let used = flags_slice(used_goals);
        let mut best: Option<usize> = None;
        let mut min_dist: u64 = 0;
        let mut i: usize = 0;
        while i < goals.len()
            invariant
                i <= goals@.len(),
                goals@ == self.goals@,
                used@ == flags_of(*used_goals),
                used@.len() == goals@.len(),
                match best {
                    Some(g) => g == self.nearest_free(b, used@, i as nat) && g < i
                        && min_dist == b.manhattan(goals@[g as int]),
                    None => self.nearest_free(b, used@, i as nat) < 0,
                },
            decreases goals@.len() - i,
        {
            if !used[i] {
                let dist = b.distance(goals[i]);
                if best.is_none() || dist < min_dist {
                    min_dist = dist;
                    best = Some(i);
                }
            }
            i += 1;
        }
        best
    }

    /// The heuristic of `boxes`.
    pub fn calculate_heuristic(&self, boxes: &[Point]) -> (h: u64)
        requires
            self.grid_wf(),
            self.placed(boxes@),
        ensures
            h == self.heuristic_of(boxes@),
            self.solved(boxes@) ==> h == 0,
    {
        let mut used_goals = self.fresh_flags();
        proof {
            lemma_placed_fit(self, boxes@);
        }
        let mut total_dist: u64 = 0;
        let mut boxes_on_goals: usize = 0;
        let mut i: usize = 0;
        while i < boxes.len()
            invariant
                i <= boxes@.len(),
                self.grid_wf(),
                self.placed(boxes@),
                boxes@.len() <= i32::MAX,
                flags_of(used_goals) == self.tally(boxes@, i as nat).used,
                flags_of(used_goals).len() == self.goals@.len(),
                total_dist == self.tally(boxes@, i as nat).total,
                boxes_on_goals == self.tally(boxes@, i as nat).on_goal,
                total_dist <= i * 70_000,
                boxes_on_goals <= i,
            decreases boxes@.len() - i,
        {
            let box_pos = boxes[i];
            if self.is_goal(box_pos) {
                self.mark_goal_as_matched(&mut used_goals, box_pos.row, box_pos.col);
                proof {
                    lemma_position(self.goals@, box_pos);
                }
                boxes_on_goals += 1;
            } else {
                if self.is_frozen_box_ultra_fast(boxes, box_pos.row, box_pos.col) {
                    total_dist += FROZEN_PENALTY;
                }
                if let Some(best) = self.nearest_free_goal(box_pos, &used_goals) {
                    let goal = self.goals.as_slice()[best];
                    let dist = box_pos.distance(goal);
                    flags_put(&mut used_goals, best, true);
                    total_dist += dist;
                }
            }
            i += 1;
        }
        proof {
            lemma_on_goal(self, boxes@, boxes@.len());
        }
        if boxes_on_goals == boxes.len() {
            return 0;
        }
        total_dist
    }
}

/// Where `p` stands within a prefix, it stands first in the whole list too.
proof fn lemma_position_prefix(list: Seq<Point>, p: Point, n: int)
    requires
        0 <= n <= list.len(),
        position(list.take(n), p) < n,
    ensures
        position(list, p) == position(list.take(n), p),
    decreases list.len() - n,
{
    if n < list.len() {
        assert(list.take(n + 1).drop_last() =~= list.take(n));
        lemma_position_prefix(list, p, n + 1);
    } else {
        assert(list.take(n) =~= list);
    }
}

/// The matching counts a box as on goal exactly when it stands on one: the
/// count reaches `k` only if each of the first `k` boxes does.
pub proof fn lemma_on_goal(s: &SokobanSolver, boxes: Seq<Point>, k: nat)
    requires
        k <= boxes.len(),
    ensures
        0 <= s.tally(boxes, k).on_goal <= k,
        s.tally(boxes, k).on_goal == k <==> (forall|i: int|
            0 <= i < k ==> s.goal_at(#[trigger] boxes[i])),
    decreases k,
{
    if k > 0 {
        lemma_on_goal(s, boxes, (k - 1) as nat);
    }
}

/// A state with every box on a goal has heuristic 0.
pub proof fn lemma_solved_heuristic_zero(s: &SokobanSolver, boxes: Seq<Point>)
    requires
        s.solved(boxes),
    ensures
        s.heuristic_of(boxes) == 0,
{
    lemma_on_goal(s, boxes, boxes.len());
}

} // verus!
