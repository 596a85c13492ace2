use sokoban_solver::heap::{OpenHeap, State};
use sokoban_solver::lists::{BoxVec, MovePath};
use sokoban_solver::parse::{parse_puzzle, solve_puzzle};
use sokoban_solver::point::Point;
use sokoban_solver::solver::SokobanSolver;

/// Plays `moves` on the puzzle of `text` by the rules of the game and says
/// whether every move was legal and every box ends on a goal.
fn replay_solves(text: &str, moves: &str) -> bool {
    let grid: Vec<Vec<char>> = text.lines().map(|l| l.chars().collect()).collect();
    let cell = |r: i32, c: i32| -> Option<char> {
        if r < 0 || c < 0 || r as usize >= grid.len() {
            return None;
        }
        let width = grid.iter().map(|l| l.len()).max().unwrap_or(0);
        if c as usize >= width {
            return None;
        }
        Some(*grid[r as usize].get(c as usize).unwrap_or(&' '))
    };
    let mut player = (0i32, 0i32);
    let mut boxes: Vec<(i32, i32)> = Vec::new();
    for (r, line) in grid.iter().enumerate() {
        for (c, ch) in line.iter().enumerate() {
            if *ch == '@' || *ch == '+' {
                player = (r as i32, c as i32);
            }
            if *ch == '$' || *ch == '*' {
                boxes.push((r as i32, c as i32));
            }
        }
    }
    for m in moves.chars() {
        let (dr, dc) = match m {
            'u' => (-1, 0),
            'd' => (1, 0),
            'l' => (0, -1),
            'r' => (0, 1),
            _ => return false,
        };
        let to = (player.0 + dr, player.1 + dc);
        match cell(to.0, to.1) {
            None | Some('#') => return false,
            _ => {}
        }
        if let Some(i) = boxes.iter().position(|b| *b == to) {
            let beyond = (to.0 + dr, to.1 + dc);
            match cell(beyond.0, beyond.1) {
                None | Some('#') => return false,
                _ => {}
            }
            if boxes.contains(&beyond) {
                return false;
            }
            boxes[i] = beyond;
        }
        player = to;
    }
    boxes.iter().all(|b| matches!(cell(b.0, b.1), Some('.') | Some('+') | Some('*')))
}

/// Whether playing `moves` on the puzzle of `text` never brings the player
/// and the boxes back to where they stood before.
fn layouts_differ(text: &str, moves: &str) -> bool {
    let mut player = (0i32, 0i32);
    let mut boxes: Vec<(i32, i32)> = Vec::new();
    for (r, line) in text.lines().enumerate() {
        for (c, ch) in line.chars().enumerate() {
            if ch == '@' || ch == '+' {
                player = (r as i32, c as i32);
            }
            if ch == '$' || ch == '*' {
                boxes.push((r as i32, c as i32));
            }
        }
    }
    let mut seen: Vec<((i32, i32), Vec<(i32, i32)>)> = Vec::new();
    let mut sorted = boxes.clone();
    sorted.sort();
    seen.push((player, sorted));
    for m in moves.chars() {
        let (dr, dc) = match m {
            'u' => (-1, 0),
            'd' => (1, 0),
            'l' => (0, -1),
            _ => (0, 1),
        };
        let to = (player.0 + dr, player.1 + dc);
        if let Some(i) = boxes.iter().position(|b| *b == to) {
            boxes[i] = (to.0 + dr, to.1 + dc);
        }
        player = to;
        let mut sorted = boxes.clone();
        sorted.sort();
        if seen.contains(&(player, sorted.clone())) {
            return false;
        }
        seen.push((player, sorted));
    }
    true
}

fn keyed(text: &str) -> SokobanSolver {
    let (_, _, drawn) = parse_puzzle(text);
    let cells = (drawn.width as usize) * (drawn.height as usize);
    let mut keys = Vec::new();
    let mut x: u64 = 0x9E37_79B9_7F4A_7C15;
    for _ in 0..cells {
        let mut pair = [0u64; 2];
        for k in pair.iter_mut() {
            x = x.wrapping_add(0x9E37_79B9_7F4A_7C15);
            let mut z = x;
            z = (z ^ (z >> 30)).wrapping_mul(0xBF58_476D_1CE4_E5B9);
            z = (z ^ (z >> 27)).wrapping_mul(0x94D0_49BB_1331_11EB);
            *k = z ^ (z >> 31);
        }
        keys.push(pair);
    }
    SokobanSolver::with_keys(text, keys).unwrap()
}

fn solve_keyed(text: &str) -> String {
    let (player, boxes, _) = parse_puzzle(text);
    keyed(text).solve(player, boxes)
}

fn state(heuristic: u64, path: &[u8], hash: u64) -> State {
    State {
        boxes: BoxVec::from_slice(&[]),
        player: Point::new(0, 0),
        path: MovePath::from_slice(path),
        heuristic,
        hash,
    }
}

#[test]
fn heap_hands_out_the_lowest_heuristic_first() {
    let mut heap = OpenHeap::with_capacity(4);
    for (i, h) in [5u64, 1, 3, 9, 2, 8, 7, 4, 6, 0].iter().enumerate() {
        heap.push(state(*h, &[], i as u64));
    }
    assert_eq!(heap.len(), 10);
    let mut order = Vec::new();
    while let Some(s) = heap.pop() {
        order.push(s.heuristic);
    }
    assert_eq!(order, vec![0, 1, 2, 3, 4, 5, 6, 7, 8, 9]);
    assert_eq!(heap.len(), 0);
    assert!(heap.pop().is_none());
}

#[test]
fn heap_prefers_the_shorter_path_on_a_tie() {
    let mut heap = OpenHeap::with_capacity(4);
    heap.push(state(2, &[0, 1, 2], 1));
    heap.push(state(2, &[0], 2));
    heap.push(state(1, &[0, 1, 2, 3], 3));
    heap.push(state(2, &[0, 1], 4));
    let mut order = Vec::new();
    while let Some(s) = heap.pop() {
        order.push(s.hash);
    }
    assert_eq!(order, vec![3, 2, 4, 1]);
}

#[test]
fn precedes_orders_by_heuristic_then_path_length() {
    assert!(state(1, &[0, 0], 0).precedes(&state(2, &[], 0)));
    assert!(!state(2, &[], 0).precedes(&state(1, &[0, 0], 0)));
    assert!(state(2, &[0], 0).precedes(&state(2, &[0, 0], 0)));
    assert!(!state(2, &[0, 0], 0).precedes(&state(2, &[0], 0)));
    assert!(state(2, &[1], 0).precedes(&state(2, &[3], 0)));
}

#[test]
fn path_string_maps_codes_to_letters() {
    assert_eq!(SokobanSolver::path_string(&MovePath::from_slice(&[0, 1, 2, 3, 3, 0])), "udlrru");
    assert_eq!(SokobanSolver::path_string(&MovePath::from_slice(&[])), "");
}

fn start_state(text: &str) -> (SokobanSolver, State) {
    let (player, boxes, _) = parse_puzzle(text);
    let solver = keyed(text);
    let hash = solver.calculate_zobrist_hash(&player, &boxes.to_vec());
    let heuristic = solver.calculate_heuristic(&boxes.to_vec());
    (solver, State { boxes, player, path: MovePath::from_slice(&[]), heuristic, hash })
}

#[test]
fn successor_walks_onto_free_cells() {
    let (s, st) = start_state("#####\n# @ #\n# $.#\n#####");
    assert!(s.successor(&st, 0).is_none());
    let left = s.successor(&st, 2).unwrap();
    assert_eq!(left.player, Point::new(1, 1));
    assert_eq!(left.boxes.to_vec(), vec![Point::new(2, 2)]);
    assert_eq!(left.hash, s.calculate_zobrist_hash(&Point::new(1, 1), &[Point::new(2, 2)]));
    let right = s.successor(&st, 3).unwrap();
    assert_eq!(right.player, Point::new(1, 3));
    assert_eq!(right.hash, s.calculate_zobrist_hash(&Point::new(1, 3), &[Point::new(2, 2)]));
}

#[test]
fn successor_does_not_push_into_a_wall() {
    let (s, st) = start_state("#####\n# @ #\n# $.#\n#####");
    assert!(s.successor(&st, 1).is_none());
}

#[test]
fn successor_pushes_a_box() {
    let (s, st) = start_state("######\n#@$ .#\n######");
    let next = s.successor(&st, 3).unwrap();
    assert_eq!(next.player, Point::new(1, 2));
    assert_eq!(next.boxes.to_vec(), vec![Point::new(1, 3)]);
    assert_eq!(next.hash, s.calculate_zobrist_hash(&Point::new(1, 2), &[Point::new(1, 3)]));
    // the state that was expanded keeps its boxes
    assert_eq!(st.boxes.to_vec(), vec![Point::new(1, 2)]);
}

#[test]
fn successor_does_not_push_two_boxes() {
    let (s, st) = start_state("#######\n#@$$..#\n#######");
    assert!(s.successor(&st, 3).is_none());
}

#[test]
fn successor_does_not_push_onto_a_dead_square() {
    // the cell left of the box lies against the wall: dead
    let (s, st) = start_state("######\n#. $@#\n######");
    assert!(s.is_dead(Point::new(1, 2)) == false);
    let next = s.successor(&st, 2).unwrap();
    assert_eq!(next.boxes.to_vec(), vec![Point::new(1, 2)]);
    let (s, st) = start_state("#####\n#   #\n# $ #\n# @.#\n#####");
    assert!(s.is_dead(Point::new(1, 2)));
    assert!(s.successor(&st, 0).is_none());
}

#[test]
fn successor_does_not_overfill_a_room() {
    // one room, one goal, two boxes: every push is refused, walking is not
    let (s, st) = start_state("######\n#@$ .#\n#  $ #\n######");
    assert!(s.successor(&st, 3).is_none());
    assert!(s.successor(&st, 1).is_some());
}

#[test]
fn successors_keep_the_state_invariants() {
    let text = "#######\n#  .  #\n# $@$ #\n#  .  #\n#######";
    let (s, st) = start_state(text);
    for dir in 0..4u8 {
        if let Some(next) = s.successor(&st, dir) {
            let boxes = next.boxes.to_vec();
            assert!(s.is_valid(next.player.row, next.player.col));
            assert!(!s.is_wall(next.player));
            assert!(!boxes.contains(&next.player));
            for (i, b) in boxes.iter().enumerate() {
                assert!(!s.is_wall(*b));
                assert!(!s.is_dead(*b));
                assert!(!boxes[..i].contains(b));
            }
            assert!(!s.is_room_deadlock(&boxes));
            assert_eq!(next.hash, s.calculate_zobrist_hash(&next.player, &boxes));
        }
    }
}

#[test]
fn one_push_solves() {
    let text = "#####\n#@$.#\n#####";
    assert_eq!(solve_keyed(text), "r");
    let out = solve_puzzle(text).unwrap();
    assert!(replay_solves(text, &out));
    assert_eq!(out, "r");
}

#[test]
fn straight_corridor() {
    let text = "#######\n#@ $ .#\n#######";
    assert_eq!(solve_keyed(text), "rrr");
    let out = solve_puzzle(text).unwrap();
    assert!(!out.is_empty());
    assert!(replay_solves(text, &out));
}

#[test]
fn box_already_on_goal_needs_no_move() {
    assert_eq!(solve_puzzle("###\n#*#\n#@#\n###").unwrap(), "");
    assert_eq!(solve_keyed("###\n#*#\n#@#\n###"), "");
}

#[test]
fn box_in_a_dead_corner_is_never_solved() {
    assert_eq!(solve_puzzle("#####\n#$ @#\n#  .#\n#####").unwrap(), "");
    assert_eq!(solve_puzzle("####\n#$ #\n#  .#\n####").unwrap(), "");
    assert_eq!(solve_keyed("#####\n#$ @#\n#  .#\n#####"), "");
}

#[test]
fn long_corridor_is_pushed_to_the_far_goal() {
    let text = "#@$    .#";
    assert_eq!(solve_keyed(text), "rrrrr");
    let out = solve_puzzle(text).unwrap();
    assert!(replay_solves(text, &out));
}

#[test]
fn longer_corridor_is_walked_without_a_step_back() {
    let text = "#@$     .#";
    assert_eq!(solve_keyed(text), "rrrrrr");
    let out = solve_puzzle(text).unwrap();
    assert_eq!(out, "rrrrrr");
    assert!(replay_solves(text, &out));
}

#[test]
fn answers_come_by_no_layout_twice() {
    for text in [
        "########\n#      #\n# $  . #\n# $  . #\n#  @   #\n########",
        "####\n# .#\n#  ###\n#*@  #\n#  $ #\n#  ###\n####",
        "#######\n#     #\n# $@. #\n#     #\n#######",
    ] {
        let out = solve_puzzle(text).unwrap();
        assert!(replay_solves(text, &out));
        assert!(layouts_differ(text, &out));
    }
}

#[test]
fn puzzle_without_boxes_and_goals_is_solved_by_no_moves() {
    assert_eq!(solve_puzzle("###\n#@#\n###").unwrap(), "");
    assert_eq!(solve_puzzle("@").unwrap(), "");
    assert_eq!(solve_puzzle("").unwrap(), "");
    assert_eq!(solve_puzzle("\n\n").unwrap(), "");
}

#[test]
fn more_boxes_than_goals_is_never_solved() {
    assert_eq!(solve_puzzle("######\n#@$$.#\n######").unwrap(), "");
    assert_eq!(solve_puzzle("#######\n#     #\n# $$. #\n#  @  #\n#######").unwrap(), "");
    assert_eq!(solve_puzzle("####\n#@$#\n####").unwrap(), "");
}

#[test]
fn fewer_boxes_than_goals_is_solved_when_every_box_is_on_a_goal() {
    let text = "#@$..#";
    let out = solve_puzzle(text).unwrap();
    assert_eq!(out, "r");
    assert!(replay_solves(text, &out));
}

#[test]
fn player_on_a_wall_can_still_push() {
    // without a player mark the player starts on the first cell, a wall here
    let text = "#$.#";
    let out = solve_puzzle(text).unwrap();
    assert_eq!(out, "r");
}

#[test]
fn two_boxes_two_goals() {
    let text = "########\n#      #\n# $  . #\n# $  . #\n#  @   #\n########";
    let out = solve_puzzle(text).unwrap();
    assert!(!out.is_empty());
    assert!(replay_solves(text, &out));
    let out = solve_keyed(text);
    assert!(replay_solves(text, &out));
}

#[test]
fn two_rooms_are_searched_in_the_players_room_only() {
    // the box behind the wall cannot be reached: no solution
    let text = "#######\n#@$.#$.#\n#######";
    assert_eq!(solve_puzzle(text).unwrap(), "");
    // the box behind the wall stands on its goal already
    let text = "#######\n#@$.#*  #\n#######";
    let out = solve_puzzle(text).unwrap();
    assert_eq!(out, "r");
    assert!(replay_solves(text, &out));
}

#[test]
fn box_must_be_walked_round() {
    let text = "#######\n#     #\n# .$@ #\n#     #\n#######";
    let out = solve_puzzle(text).unwrap();
    assert_eq!(out, "l");
    let text = "#######\n#     #\n# @$. #\n#     #\n#######";
    assert_eq!(solve_puzzle(text).unwrap(), "r");
    let text = "#######\n#     #\n# $@. #\n#     #\n#######";
    let out = solve_puzzle(text).unwrap();
    assert!(!out.is_empty());
    assert!(replay_solves(text, &out));
    assert!(out.len() >= 6);
}

#[test]
fn small_level_is_solved() {
    let text = "####\n# .#\n#  ###\n#*@  #\n#  $ #\n#  ###\n####";
    let out = solve_puzzle(text).unwrap();
    assert!(!out.is_empty());
    assert!(replay_solves(text, &out));
    let out = solve_keyed(text);
    assert!(replay_solves(text, &out));
}

#[test]
fn solve_gives_the_same_answer_for_the_same_keys() {
    let text = "########\n#      #\n# $  . #\n# $  . #\n#  @   #\n########";
    assert_eq!(solve_keyed(text), solve_keyed(text));
}

#[test]
fn replay_helper_knows_the_rules() {
    let text = "#####\n#@$.#\n#####";
    assert!(replay_solves(text, "r"));
    assert!(!replay_solves(text, ""));
    assert!(!replay_solves(text, "rr"));
    assert!(!replay_solves(text, "l"));
    assert!(!replay_solves(text, "x"));
}

#[test]
fn level_with_boxes_side_by_side_is_solved() {
    let text = "######\n#    #\n# #@ #\n# $* #\n# .* #\n#    #\n######";
    let out = solve_puzzle(text).unwrap();
    assert!(!out.is_empty());
    assert!(replay_solves(text, &out));
}

#[test]
fn level_with_a_detour_is_solved() {
    let text = "  ####\n###  ####\n#     $ #\n# #  #$ #\n# . .#@ #\n#########";
    let out = solve_puzzle(text).unwrap();
    assert!(!out.is_empty());
    assert!(replay_solves(text, &out));
}
