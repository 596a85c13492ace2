//! Why the search may prune: a push onto a dead square, or one that leaves
//! a room with more boxes than goals, is part of no solution.

use vstd::prelude::*;
use vstd::set_lib::lemma_len_subset;
use crate::heuristic::{lemma_position, position};
use crate::layout::{labelled_cells, lemma_count_is_size};
use crate::moves::{direction_of, lemma_dead_box_stays, lemma_moved_sound, Position};
use crate::point::Point;
use crate::solver::{count_labelled, SokobanSolver};

verus! {

/// Lists of equal length whose points carry the same labels, place by
/// place, count alike.
pub proof fn lemma_count_by_labels(
    a: Seq<Point>,
    b: Seq<Point>,
    labels: Seq<u32>,
    width: int,
    room: int,
)
    requires
        a.len() == b.len(),
        forall|i: int|
            0 <= i < a.len() ==> labels[(#[trigger] a[i]).row * width + a[i].col] == labels[(
            #[trigger] b[i]).row * width + b[i].col],
    ensures
        count_labelled(a, labels, width, room) == count_labelled(b, labels, width, room),
    decreases a.len(),
{
    if a.len() > 0 {
        let ra = a.drop_last();
        let rb = b.drop_last();
        assert forall|i: int| 0 <= i < ra.len() implies labels[(#[trigger] ra[i]).row * width
            + ra[i].col] == labels[(#[trigger] rb[i]).row * width + rb[i].col] by {
            assert(ra[i] == a[i]);
            assert(rb[i] == b[i]);
        }
        lemma_count_by_labels(ra, rb, labels, width, room);
        assert(a.last() == a[a.len() - 1]);
        assert(b.last() == b[b.len() - 1]);
    }
}

impl SokobanSolver {
    /// Whether every box of `boxes` stands on a cell that is no wall.
    pub open spec fn on_floor(&self, boxes: Seq<Point>) -> bool {
        forall|i: int| 0 <= i < boxes.len() ==> self.walkable(#[trigger] boxes[i])
    }

    /// Whether no string of moves solves the puzzle from `pos`.
    pub open spec fn unsolvable(&self, pos: Position) -> bool {
        forall|moves: Seq<char>| !#[trigger] self.solves(pos, moves)
    }

    /// Playing one string of moves and then another is playing both on end.
    pub proof fn lemma_replay_on(&self, pos: Position, first: Seq<char>, then: Seq<char>)
        ensures
            self.replay(pos, first + then) == (match self.replay(pos, first) {
                Some(mid) => self.replay(mid, then),
                None => None,
            }),
        decreases then.len(),
    {
        if then.len() == 0 {
            assert(first + then =~= first);
        } else {
            assert((first + then).drop_last() =~= first + then.drop_last());
            assert((first + then).last() == then.last());
            self.lemma_replay_on(pos, first, then.drop_last());
        }
    }

    /// A move leaves every room with as many boxes as it had: a box that is
    /// pushed stays in its room.
    pub proof fn lemma_move_keeps_rooms(&self, pos: Position, dir: int)
        requires
            self.rooms_wf(),
            self.sound(pos),
            self.on_floor(pos.boxes),
            self.moved(pos, dir) is Some,
        ensures
            self.on_floor(self.moved(pos, dir)->0.boxes),
            forall|room: int|
                self.count_in_room(self.moved(pos, dir)->0.boxes, room) == self.count_in_room(
                    pos.boxes,
                    room,
                ),
            self.room_overfull(self.moved(pos, dir)->0.boxes) == self.room_overfull(pos.boxes),
    {
        let next = self.moved(pos, dir)->0;
        let to = pos.player.stepped(dir);
        if pos.boxes.contains(to) {
            let i = position(pos.boxes, to);
            lemma_position(pos.boxes, to);
            let beyond = to.stepped(dir);
            assert(next.boxes == pos.boxes.update(i, beyond));
            assert(self.connected_within(beyond, beyond, 0));
            assert(self.connected_within(to, beyond, 1));
            assert(self.connected(to, beyond));
            assert(self.room_of(to) == self.room_of(beyond));
            assert forall|k: int| 0 <= k < next.boxes.len() implies self.walkable(
                #[trigger] next.boxes[k],
            ) by {
                if k != i {
                    assert(self.walkable(pos.boxes[k]));
                }
            }
            assert forall|room: int|
                self.count_in_room(next.boxes, room) == self.count_in_room(pos.boxes, room) by {
                assert forall|k: int| 0 <= k < next.boxes.len() implies self.room_ids@[(
                #[trigger] next.boxes[k]).row * self.width + next.boxes[k].col] == self.room_ids@[(
                #[trigger] pos.boxes[k]).row * self.width + pos.boxes[k].col] by {
                    if k == i {
                        assert(self.room_of(beyond) == self.room_of(to));
                    }
                }
                lemma_count_by_labels(
                    next.boxes,
                    pos.boxes,
                    self.room_ids@,
                    self.width as int,
                    room,
                );
            }
        }
        if self.room_overfull(pos.boxes) {
            let room = choose|room: int|
                0 <= room < self.rooms() && #[trigger] self.count_in_room(pos.boxes, room)
                    > self.goal_counts_by_room@[room];
            assert(self.count_in_room(next.boxes, room) > self.goal_counts_by_room@[room]);
        }
        if self.room_overfull(next.boxes) {
            let room = choose|room: int|
                0 <= room < self.rooms() && #[trigger] self.count_in_room(next.boxes, room)
                    > self.goal_counts_by_room@[room];
            assert(self.count_in_room(pos.boxes, room) > self.goal_counts_by_room@[room]);
        }
    }

    /// Play leaves every room as full as it was.
    pub proof fn lemma_play_keeps_rooms(&self, pos: Position, moves: Seq<char>)
        requires
            self.rooms_wf(),
            self.sound(pos),
            self.on_floor(pos.boxes),
            self.replay(pos, moves) is Some,
        ensures
            self.sound(self.replay(pos, moves)->0),
            self.on_floor(self.replay(pos, moves)->0.boxes),
            self.room_overfull(self.replay(pos, moves)->0.boxes) == self.room_overfull(pos.boxes),
        decreases moves.len(),
    {
        if moves.len() > 0 {
            self.lemma_play_keeps_rooms(pos, moves.drop_last());
            let before = self.replay(pos, moves.drop_last())->0;
            let dir = direction_of(moves.last());
            lemma_moved_sound(self, before, dir);
            self.lemma_move_keeps_rooms(before, dir);
        }
    }

    /// With every box on a goal of its own, no room holds more boxes than goals.
    pub proof fn lemma_solved_rooms_fit(&self, boxes: Seq<Point>)
        requires
            self.grid_wf(),
            self.rooms_wf(),
            self.placed(boxes),
            self.solved(boxes),
        ensures
            !self.room_overfull(boxes),
    {
        assert forall|room: int| 0 <= room < self.rooms() implies self.count_in_room(boxes, room)
            <= self.goal_counts_by_room@[room] by {
            let labels = self.room_ids@;
            let width = self.width as int;
            lemma_count_is_size(boxes, labels, width, room);
            lemma_count_is_size(self.goals@, labels, width, room);
            let held = labelled_cells(boxes.to_set(), labels, width, room);
            let wanted = labelled_cells(self.goals@.to_set(), labels, width, room);
            assert forall|p: Point| held.contains(p) implies wanted.contains(p) by {
                let k = choose|k: int| 0 <= k < boxes.len() && boxes[k] == p;
                assert(self.goal_at(boxes[k]));
                assert(self.goals@.contains(p));
            }
            lemma_len_subset(held, wanted);
        }
    }

    /// From a position that can still be solved, with the player on a cell
    /// that is no wall, no box stands on a dead square and no room is overfull.
    pub proof fn lemma_solvable_is_unpruned(&self, pos: Position, moves: Seq<char>)
        requires
            self.wf(),
            self.sound(pos),
            self.on_floor(pos.boxes),
            self.walkable(pos.player),
            self.solves(pos, moves),
        ensures
            !self.room_overfull(pos.boxes),
            forall|i: int| 0 <= i < pos.boxes.len() ==> !self.dead(#[trigger] pos.boxes[i]),
    {
        self.lemma_play_keeps_rooms(pos, moves);
        let end = self.replay(pos, moves)->0;
        self.lemma_solved_rooms_fit(end.boxes);
        assert forall|i: int| 0 <= i < pos.boxes.len() implies !self.dead(
            #[trigger] pos.boxes[i],
        ) by {
            if self.dead(pos.boxes[i]) {
                lemma_dead_box_stays(self, pos, moves, i);
            }
        }
    }

    /// The search prunes no move of a solution: it takes every move of a
    /// string that solves the puzzle, whatever is played after it.
    pub proof fn lemma_pruning_is_safe(&self, start: Position, moves: Seq<char>, then: Seq<char>)
        requires
            self.wf(),
            self.sound(start),
            self.on_floor(start.boxes),
            self.solves(start, moves + then),
        ensures
            self.search_replay(start, moves) == self.replay(start, moves),
            self.replay(start, moves) is Some,
        decreases moves.len(),
    {
        self.lemma_replay_on(start, moves, then);
        if moves.len() > 0 {
            let earlier = moves.drop_last();
            let rest = seq![moves.last()] + then;
            assert(earlier + rest =~= moves + then);
            self.lemma_pruning_is_safe(start, earlier, rest);
            let before = self.replay(start, earlier)->0;
            let dir = direction_of(moves.last());
            let next = self.moved(before, dir)->0;
            self.lemma_play_keeps_rooms(start, earlier);
            lemma_moved_sound(self, before, dir);
            self.lemma_move_keeps_rooms(before, dir);
            self.lemma_solvable_is_unpruned(next, then);
            let to = before.player.stepped(dir);
            if before.boxes.contains(to) {
                lemma_position(before.boxes, to);
                assert(next.boxes[position(before.boxes, to)] == to.stepped(dir));
            }
        }
    }

    /// Where the search finds no solution there is none: what it prunes is
    /// part of no solution.
    pub proof fn lemma_hopeless_is_unsolvable(&self, start: Position)
        requires
            self.wf(),
            self.sound(start),
            self.on_floor(start.boxes),
            self.hopeless(start),
        ensures
            self.unsolvable(start),
    {
        assert forall|moves: Seq<char>| !#[trigger] self.solves(start, moves) by {
            if self.solves(start, moves) {
                assert(moves + Seq::<char>::empty() =~= moves);
                self.lemma_pruning_is_safe(start, moves, Seq::<char>::empty());
                assert(self.search_replay(start, moves) is Some);
            }
        }
    }
}

} // verus!
