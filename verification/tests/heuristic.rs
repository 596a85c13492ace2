use arrayvec::ArrayVec;
use sokoban_solver::heuristic::find_point;
use sokoban_solver::parse::parse_puzzle;
use sokoban_solver::point::Point;
use sokoban_solver::solver::SokobanSolver;

fn heuristic_of(text: &str) -> u64 {
    let (_, boxes, solver) = parse_puzzle(text);
    solver.calculate_heuristic(&boxes.to_vec())
}

#[test]
fn heuristic_is_zero_when_every_box_is_on_a_goal() {
    assert_eq!(heuristic_of("###\n#*#\n#@#\n###"), 0);
    assert_eq!(heuristic_of("#**@#"), 0);
    assert_eq!(heuristic_of("#@  #"), 0);
    // a box in a corner, but on a goal
    assert_eq!(heuristic_of("####\n#*.#\n#@ #\n####"), 0);
}

#[test]
fn heuristic_is_the_distance_to_the_goal() {
    assert_eq!(heuristic_of("#######\n#@ $ .#\n#######"), 2);
    assert_eq!(heuristic_of("#####\n#@$.#\n#####"), 1);
    assert_eq!(heuristic_of("      \n $    \n      \n    . "), 5);
}

#[test]
fn frozen_box_pays_thirty_more() {
    assert_eq!(heuristic_of("#####\n#$ @#\n#  .#\n#####"), 33);
}

#[test]
fn boxes_take_goals_greedily_in_list_order() {
    // the first box is frozen against the wall and takes the nearer goal
    assert_eq!(heuristic_of("#$  .$  .#"), 36);
    // the first box takes the goal that the second one stands next to
    assert_eq!(heuristic_of("      \n $ .$ \n      \n     ."), 2 + 3);
}

#[test]
fn goal_under_a_box_is_taken() {
    assert_eq!(heuristic_of("#*$ .#"), 32);
}

#[test]
fn box_without_a_free_goal_pays_its_penalty_only() {
    assert_eq!(heuristic_of("#$$.#"), 62);
    assert_eq!(heuristic_of("   \n $ \n   "), 0 + 0);
    assert_eq!(heuristic_of("$  \n   \n   "), 30);
}

#[test]
fn nearest_goal_on_a_tie_is_the_earlier_one() {
    // both goals are two steps away: the box takes the first, the second box the other
    assert_eq!(heuristic_of("       \n . $ . \n       \n     $ \n       "), 2 + 2);
}

#[test]
fn find_goal_index_gives_the_place_in_the_goal_list() {
    let s = SokobanSolver::new(".#.\n . ");
    assert_eq!(s.find_goal_index(0, 0), Some(0));
    assert_eq!(s.find_goal_index(0, 2), Some(1));
    assert_eq!(s.find_goal_index(1, 1), Some(2));
    assert_eq!(s.find_goal_index(1, 0), None);
    assert_eq!(s.find_goal_index(0, 1), None);
    assert_eq!(s.find_goal_index(7, 7), None);
}

#[test]
fn find_point_gives_the_first_place() {
    let list = [Point::new(1, 1), Point::new(2, 2), Point::new(1, 1)];
    assert_eq!(find_point(&list, Point::new(1, 1)), Some(0));
    assert_eq!(find_point(&list, Point::new(2, 2)), Some(1));
    assert_eq!(find_point(&list, Point::new(3, 3)), None);
    assert_eq!(find_point(&[], Point::new(0, 0)), None);
}

#[test]
fn mark_goal_as_matched_sets_one_flag() {
    let s = SokobanSolver::new(".#.\n . ");
    let mut used: ArrayVec<bool, 64> = s.fresh_flags();
    assert_eq!(used.as_slice(), &[false, false, false]);
    s.mark_goal_as_matched(&mut used, 0, 2);
    assert_eq!(used.as_slice(), &[false, true, false]);
    s.mark_goal_as_matched(&mut used, 1, 0);
    assert_eq!(used.as_slice(), &[false, true, false]);
    s.mark_goal_as_matched(&mut used, 1, 1);
    assert_eq!(used.as_slice(), &[false, true, true]);
}

#[test]
fn heuristic_with_64_goals() {
    let mut text = String::new();
    for _ in 0..64 {
        text.push('.');
    }
    text.push('\n');
    for _ in 0..64 {
        text.push('$');
    }
    // every box is one step below its goal, and shut in by the edge and its neighbours
    assert_eq!(heuristic_of(&text), 64 + 64 * 30);
}

#[test]
fn fresh_flags_has_one_unset_flag_for_each_goal() {
    let s = SokobanSolver::new("#@ #");
    assert!(s.fresh_flags().is_empty());
    let row: String = std::iter::repeat('.').take(64).collect();
    let s = SokobanSolver::new(&row);
    let flags = s.fresh_flags();
    assert_eq!(flags.len(), 64);
    assert!(flags.iter().all(|f| !*f));
}
