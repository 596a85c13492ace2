use sokoban_solver::point::Point;
use sokoban_solver::solver::{SokobanSolver, NO_ROOM};

fn dead_cells(s: &SokobanSolver) -> Vec<(i16, i16)> {
    let mut out = Vec::new();
    for row in 0..s.height {
        for col in 0..s.width {
            if s.is_dead(Point::new(row, col)) {
                out.push((row, col));
            }
        }
    }
    out
}

#[test]
fn corridor_is_live_up_to_the_cell_before_the_wall() {
    let s = SokobanSolver::new("#@$    .#");
    assert_eq!(dead_cells(&s), vec![(0, 1)]);
    assert_eq!(
        s.live_squares(),
        vec![false, false, true, true, true, true, true, true, false]
    );
}

#[test]
fn corner_and_wall_side_cells_are_dead() {
    let s = SokobanSolver::new("#####\n#$ @#\n#  .#\n#####");
    assert_eq!(dead_cells(&s), vec![(1, 1), (1, 2), (1, 3), (2, 1)]);
}

#[test]
fn goals_are_never_dead() {
    let s = SokobanSolver::new("###\n#.#\n###");
    assert!(dead_cells(&s).is_empty());
    assert!(!s.is_dead(Point::new(1, 1)));
}

#[test]
fn walls_are_not_dead_squares() {
    let s = SokobanSolver::new("####\n#  #\n####");
    assert_eq!(dead_cells(&s), vec![(1, 1), (1, 2)]);
}

#[test]
fn open_field_is_live_except_where_no_pull_reaches() {
    // A box can be pulled away from the goal along its row and its column only
    let s = SokobanSolver::new("   \n . \n   ");
    assert_eq!(dead_cells(&s), vec![(0, 0), (0, 1), (0, 2), (1, 0), (1, 2), (2, 0), (2, 1), (2, 2)]);
    let s = SokobanSolver::new("     \n     \n  .  \n     \n     ");
    let dead = dead_cells(&s);
    assert!(!dead.contains(&(2, 1)));
    assert!(!dead.contains(&(1, 2)));
    assert!(!dead.contains(&(2, 3)));
    assert!(!dead.contains(&(3, 2)));
    assert!(!dead.contains(&(1, 1)));
    assert!(dead.contains(&(0, 0)));
    assert!(dead.contains(&(0, 2)));
    assert!(dead.contains(&(2, 0)));
}

#[test]
fn rooms_are_numbered_in_reading_order() {
    let s = SokobanSolver::new("#######\n#. #$ #\n#@ # .#\n#######");
    let w = NO_ROOM;
    assert_eq!(
        s.room_ids,
        vec![
            w, w, w, w, w, w, w, //
            w, 0, 0, w, 1, 1, w, //
            w, 0, 0, w, 1, 1, w, //
            w, w, w, w, w, w, w,
        ]
    );
    assert_eq!(s.goal_counts_by_room.to_vec(), vec![1, 1]);
}

#[test]
fn room_that_winds_back_keeps_one_label() {
    let s = SokobanSolver::new("# #\n# #\n  .");
    let w = NO_ROOM;
    assert_eq!(s.room_ids, vec![w, 0, w, w, 0, w, 0, 0, 0]);
    assert_eq!(s.goal_counts_by_room.to_vec(), vec![1]);
    let s = SokobanSolver::new(" #.\n # \n   ");
    assert_eq!(s.room_ids, vec![0, w, 0, 0, w, 0, 0, 0, 0]);
    assert_eq!(s.goal_counts_by_room.to_vec(), vec![1]);
}

#[test]
fn many_small_rooms() {
    let s = SokobanSolver::new(".#.#*# #+#.#.#.#.#.");
    let ids: Vec<u32> = s.room_ids.iter().copied().filter(|&r| r != NO_ROOM).collect();
    assert_eq!(ids, vec![0, 1, 2, 3, 4, 5, 6, 7, 8, 9]);
    assert_eq!(s.goal_counts_by_room.to_vec(), vec![1, 1, 1, 0, 1, 1, 1, 1, 1, 1]);
}

#[test]
fn flood_fill_labels_one_room_and_counts_its_goals() {
    let s = SokobanSolver::new("..#.\n  # ");
    let mut labels = vec![NO_ROOM; 8];
    let count = s.flood_fill_room(&mut labels, Point::new(1, 0), 0);
    assert_eq!(count, 2);
    assert_eq!(labels, vec![0, 0, NO_ROOM, NO_ROOM, 0, 0, NO_ROOM, NO_ROOM]);
    let count = s.flood_fill_room(&mut labels, Point::new(0, 3), 1);
    assert_eq!(count, 1);
    assert_eq!(labels, vec![0, 0, NO_ROOM, 1, 0, 0, NO_ROOM, 1]);
}

#[test]
fn flood_fill_counts_only_what_it_reaches() {
    // the cells behind the wall carry the label already; their goal is not counted
    let s = SokobanSolver::new("..#.\n  # ");
    let mut labels = vec![NO_ROOM, NO_ROOM, NO_ROOM, 5, NO_ROOM, NO_ROOM, NO_ROOM, 5];
    let count = s.flood_fill_room(&mut labels, Point::new(1, 0), 5);
    assert_eq!(count, 2);
    assert_eq!(labels, vec![5, 5, NO_ROOM, 5, 5, 5, NO_ROOM, 5]);
    // other labels stay as they are
    let mut labels = vec![NO_ROOM, NO_ROOM, NO_ROOM, 7, NO_ROOM, NO_ROOM, 9, 7];
    let count = s.flood_fill_room(&mut labels, Point::new(0, 1), 3);
    assert_eq!(count, 2);
    assert_eq!(labels, vec![3, 3, NO_ROOM, 7, 3, 3, 9, 7]);
}

#[test]
fn room_deadlock_counts_boxes_against_goals() {
    let s = SokobanSolver::new("#######\n#. #$ #\n#@ # .#\n#######");
    assert!(!s.is_room_deadlock(&[Point::new(1, 4)]));
    assert!(s.is_room_deadlock(&[Point::new(1, 4), Point::new(2, 4)]));
    assert!(!s.is_room_deadlock(&[Point::new(1, 1), Point::new(1, 4)]));
    assert!(s.is_room_deadlock(&[Point::new(1, 1), Point::new(1, 2)]));
    assert!(!s.is_room_deadlock(&[]));
    // a box on a wall belongs to no room
    assert!(!s.is_room_deadlock(&[Point::new(0, 0), Point::new(0, 1), Point::new(1, 4)]));
}

#[test]
fn room_without_goal_takes_no_box() {
    let s = SokobanSolver::new(" #.");
    assert_eq!(s.goal_counts_by_room.to_vec(), vec![0, 1]);
    assert!(s.is_room_deadlock(&[Point::new(0, 0)]));
    assert!(!s.is_room_deadlock(&[Point::new(0, 2)]));
}

#[test]
fn frozen_box_needs_an_obstacle_on_both_axes() {
    let s = SokobanSolver::new("#####\n#   #\n#  .#\n#####");
    let at = |r: i16, c: i16| Point::new(r, c);
    // corner: wall above and wall to the left
    assert!(s.is_frozen_box_ultra_fast(&[at(1, 1)], 1, 1));
    // wall above only
    assert!(!s.is_frozen_box_ultra_fast(&[at(1, 2)], 1, 2));
    // wall above, box to the right
    assert!(s.is_frozen_box_ultra_fast(&[at(1, 2), at(1, 3)], 1, 2));
    // wall below only
    assert!(!s.is_frozen_box_ultra_fast(&[at(2, 2)], 2, 2));
    // on a goal a box is never frozen, though it is shut in
    assert!(!s.is_frozen_box_ultra_fast(&[at(2, 3)], 2, 3));
    assert!(!s.is_frozen_box_fast(&[at(2, 3)], 2, 3));
    // off the goal a corner freezes a box
    assert!(s.is_frozen_box_fast(&[at(1, 1)], 1, 1));
    assert!(!s.is_frozen_box_fast(&[at(1, 2)], 1, 2));
}

#[test]
fn board_edge_is_an_obstacle() {
    let s = SokobanSolver::new("  \n  ");
    assert!(s.is_frozen_box_fast(&[], 0, 0));
    assert!(s.is_frozen_box_fast(&[], 1, 1));
    let s = SokobanSolver::new("   \n   \n   ");
    assert!(!s.is_frozen_box_fast(&[], 1, 1));
    assert!(s.is_frozen_box_fast(&[Point::new(0, 1), Point::new(1, 0)], 1, 1));
    assert!(!s.is_frozen_box_fast(&[Point::new(0, 1), Point::new(2, 1)], 1, 1));
}
