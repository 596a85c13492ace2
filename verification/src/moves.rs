//! The rules of the game: what one move does to a position, and what a
//! string of moves does.

use vstd::prelude::*;
use crate::heuristic::{lemma_position, position};
use crate::point::{move_char, opposite, Point};
use crate::solver::SokobanSolver;

verus! {

/// Where the player and the boxes stand.
pub struct Position {
    pub player: Point,
    pub boxes: Seq<Point>,
}

/// The direction that a character of a move string stands for, -1 for a
/// character that stands for none.
pub open spec fn direction_of(c: char) -> int {
    if c == 'u' {
        0
    } else if c == 'd' {
        1
    } else if c == 'l' {
        2
    } else if c == 'r' {
        3
    } else {
        -1
    }
}

/// The move string of a sequence of direction codes.
pub open spec fn text_of(codes: Seq<u8>) -> Seq<char> {
    codes.map_values(|code: u8| move_char(code as int))
}

impl SokobanSolver {
    /// The position after the player takes one step in direction `dir`,
    /// pushing the box that stands in the way, if one does. There is none where
    /// the step leads off the board or into a wall, or where the box would have
    /// to move off the board, into a wall or into another box.
    pub open spec fn moved(&self, pos: Position, dir: int) -> Option<Position> {
        let to = pos.player.stepped(dir);
        if !(0 <= dir < 4) || !self.walkable(to) {
            None
        } else if pos.boxes.contains(to) {
            let beyond = to.stepped(dir);
            if self.obstacle(pos.boxes, beyond) {
                None
            } else {
                Some(Position { player: to, boxes: pos.boxes.update(position(pos.boxes, to), beyond) })
            }
        } else {
            Some(Position { player: to, boxes: pos.boxes })
        }
    }

    /// The move as the search takes it: as `moved`, but a push onto a dead
    /// square, or one that overfills a room, is not taken.
    pub open spec fn searched(&self, pos: Position, dir: int) -> Option<Position> {
        match self.moved(pos, dir) {
            Some(next) => if pos.boxes.contains(next.player) && (self.dead(
                next.player.stepped(dir),
            ) || self.room_overfull(next.boxes)) {
                None
            } else {
                Some(next)
            },
            None => None,
        }
    }

    /// The position after playing `moves` from `pos`, if every move is legal.
    pub open spec fn replay(&self, pos: Position, moves: Seq<char>) -> Option<Position>
        decreases moves.len(),
    {
        if moves.len() == 0 {
            Some(pos)
        } else {
            match self.replay(pos, moves.drop_last()) {
                Some(before) => self.moved(before, direction_of(moves.last())),
                None => None,
            }
        }
    }

    /// Whether playing `moves` from `pos` is legal and leaves every box on a goal.
    pub open spec fn solves(&self, pos: Position, moves: Seq<char>) -> bool {
        match self.replay(pos, moves) {
            Some(end) => self.solved(end.boxes),
            None => false,
        }
    }

    /// A position the search may hold: the player on the board, the boxes on
    /// distinct cells of it.
    pub open spec fn sound(&self, pos: Position) -> bool {
        self.in_bounds(pos.player) && self.placed(pos.boxes)
    }
}

/// One more code adds its character to the move string.
pub proof fn lemma_text_push(codes: Seq<u8>, code: u8)
    requires
        code < 4,
    ensures
        text_of(codes.push(code)) == text_of(codes).push(move_char(code as int)),
        direction_of(move_char(code as int)) == code,
        text_of(codes.push(code)).drop_last() == text_of(codes),
{
    assert(text_of(codes.push(code)) =~= text_of(codes).push(move_char(code as int)));
    assert(text_of(codes).push(move_char(code as int)).drop_last() =~= text_of(codes));
}

/// A step and the step back lead to where one stood.
pub proof fn lemma_step_back(p: Point, dir: int)
    requires
        0 <= dir < 4,
        i16::MIN < p.row < i16::MAX,
        i16::MIN < p.col < i16::MAX,
    ensures
        p.stepped(dir).stepped(opposite(dir)) == p,
{
}

/// After a move of a sound position the player stands on a cell that is no
/// wall and holds no box, and the boxes are still on distinct cells of the
/// board, one of them moved at most.
pub proof fn lemma_moved_sound(s: &SokobanSolver, pos: Position, dir: int)
    requires
        s.sound(pos),
        s.moved(pos, dir) is Some,
    ensures
        s.sound(s.moved(pos, dir)->0),
        s.walkable(s.moved(pos, dir)->0.player),
        !s.moved(pos, dir)->0.boxes.contains(s.moved(pos, dir)->0.player),
        s.moved(pos, dir)->0.boxes.len() == pos.boxes.len(),
{
    let next = s.moved(pos, dir)->0;
    let to = pos.player.stepped(dir);
    if pos.boxes.contains(to) {
        let i = position(pos.boxes, to);
        lemma_position(pos.boxes, to);
        let beyond = to.stepped(dir);
        assert(next.boxes == pos.boxes.update(i, beyond));
        assert(!pos.boxes.contains(beyond));
        assert forall|a: int, b: int|
            0 <= a < next.boxes.len() && 0 <= b < next.boxes.len() && a != b implies next.boxes[a]
            != next.boxes[b] by {
            if a == i {
                assert(pos.boxes[b] != beyond);
            } else if b == i {
                assert(pos.boxes[a] != beyond);
            }
        }
        assert forall|a: int| 0 <= a < next.boxes.len() implies s.in_bounds(
            #[trigger] next.boxes[a],
        ) by {
            if a != i {
                assert(s.in_bounds(pos.boxes[a]));
            }
        }
        assert forall|a: int| 0 <= a < next.boxes.len() implies next.boxes[a] != to by {
            if a != i {
                assert(pos.boxes[a] != pos.boxes[i]);
            } else {
                assert(beyond != to);
            }
        }
    }
}

/// In every successor that the search takes from a sound position: the
/// player is on the board and not on a wall; no box shares the player's cell
/// or another box's; after a push no room is overfull, and a walk overfills
/// none; a box that was moved is on no wall and on no dead square; and where
/// no box of the position stood on a wall or a dead square, none of the
/// successor does.
pub proof fn lemma_successor_invariants(s: &SokobanSolver, pos: Position, dir: int)
    requires
        s.sound(pos),
        s.searched(pos, dir) is Some,
    ensures
        ({
            let next = s.searched(pos, dir)->0;
            &&& s.walkable(next.player)
            &&& s.placed(next.boxes)
            &&& !next.boxes.contains(next.player)
            &&& next.boxes != pos.boxes ==> !s.room_overfull(next.boxes)
            &&& !s.room_overfull(pos.boxes) ==> !s.room_overfull(next.boxes)
            &&& forall|i: int|
                0 <= i < next.boxes.len() && #[trigger] next.boxes[i] != pos.boxes[i] ==> s.walkable(
                    next.boxes[i],
                ) && !s.dead(next.boxes[i])
            &&& (forall|i: int|
                0 <= i < pos.boxes.len() ==> s.walkable(#[trigger] pos.boxes[i]) && !s.dead(
                    pos.boxes[i],
                )) ==> (forall|i: int|
                0 <= i < next.boxes.len() ==> s.walkable(#[trigger] next.boxes[i]) && !s.dead(
                    next.boxes[i],
                ))
        }),
{
    lemma_moved_sound(s, pos, dir);
    let next = s.searched(pos, dir)->0;
    let to = pos.player.stepped(dir);
    if pos.boxes.contains(to) {
        let i = position(pos.boxes, to);
        lemma_position(pos.boxes, to);
    }
}

/// A box that can be pushed onto a square from which it reaches a goal
/// reaches a goal too.
pub proof fn lemma_live_step(s: &SokobanSolver, p: Point, dir: int, n: nat)
    requires
        0 <= dir < 4,
        s.pushable(p, dir),
        s.live_within(p.stepped(dir), n),
    ensures
        s.live_within(p, n + 1),
        s.live(p),
{
    let m: nat = n + 1;
    assert((m - 1) as nat == n);
    assert(s.live_within(p, m));
}

/// A box on a dead square stays on dead squares, whatever is played, as
/// long as the player starts on a cell that is no wall.
pub proof fn lemma_dead_box_stays(s: &SokobanSolver, pos: Position, moves: Seq<char>, i: int)
    requires
        s.sound(pos),
        s.walkable(pos.player),
        0 <= i < pos.boxes.len(),
        s.dead(pos.boxes[i]),
        s.replay(pos, moves) is Some,
    ensures
        s.sound(s.replay(pos, moves)->0),
        s.walkable(s.replay(pos, moves)->0.player),
        s.replay(pos, moves)->0.boxes.len() == pos.boxes.len(),
        s.dead(s.replay(pos, moves)->0.boxes[i]),
        !s.solves(pos, moves),
    decreases moves.len(),
{
    if moves.len() > 0 {
        lemma_dead_box_stays(s, pos, moves.drop_last(), i);
        let before = s.replay(pos, moves.drop_last())->0;
        let dir = direction_of(moves.last());
        let after = s.moved(before, dir)->0;
        lemma_moved_sound(s, before, dir);
        let to = before.player.stepped(dir);
        if before.boxes.contains(to) && position(before.boxes, to) == i {
            lemma_position(before.boxes, to);
            let beyond = to.stepped(dir);
            lemma_step_back(before.player, dir);
            // Were the square beyond live, the push would make this one live.
            if s.live(beyond) {
                let n = choose|n: nat| s.live_within(beyond, n);
                assert(s.pushable(to, dir));
                lemma_live_step(s, to, dir, n);
                assert(s.live(to));
            }
        } else if before.boxes.contains(to) {
            lemma_position(before.boxes, to);
        }
    }
    let end = s.replay(pos, moves)->0;
    assert(!s.goal_at(end.boxes[i])) by {
        if s.goal_at(end.boxes[i]) {
            assert(s.live_within(end.boxes[i], 0));
        }
    }
}

} // verus!
