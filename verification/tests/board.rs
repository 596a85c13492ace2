use sokoban_solver::parse::{chars_of, find_marks, longest_row, parse_puzzle, puzzle_fits, solve_puzzle, split_lines, Mark};
use sokoban_solver::point::Point;
use sokoban_solver::solver::{Cell, SokobanSolver};

fn lines(text: &str) -> Vec<String> {
    split_lines(&chars_of(text)).into_iter().map(|l| l.into_iter().collect()).collect()
}

#[test]
fn chars_of_reads_every_character() {
    assert_eq!(chars_of("a#é\n"), vec!['a', '#', 'é', '\n']);
    assert!(chars_of("").is_empty());
}

#[test]
fn lines_end_at_line_feeds() {
    assert_eq!(lines("ab\ncd"), vec!["ab", "cd"]);
    assert_eq!(lines("ab\ncd\n"), vec!["ab", "cd"]);
    assert_eq!(lines("a\n\nb"), vec!["a", "", "b"]);
    assert_eq!(lines("\n"), vec![""]);
    assert!(lines("").is_empty());
}

#[test]
fn carriage_return_before_line_feed_is_dropped() {
    assert_eq!(lines("ab\r\ncd\r\n"), vec!["ab", "cd"]);
    assert_eq!(lines("ab\r"), vec!["ab\r"]);
    assert_eq!(lines("a\rb\n"), vec!["a\rb"]);
    assert_eq!(lines("ab\r\r\n"), vec!["ab\r"]);
}

#[test]
fn longest_row_of_rows() {
    assert_eq!(longest_row(&split_lines(&chars_of("ab\nabcd\n\nabc"))), 4);
    assert_eq!(longest_row(&split_lines(&chars_of(""))), 0);
}

#[test]
fn marks_are_found_in_reading_order() {
    let rows = split_lines(&chars_of(".$\n*+@\n $."));
    assert_eq!(
        find_marks(&rows, Mark::Goal).to_vec(),
        vec![Point::new(0, 0), Point::new(1, 0), Point::new(1, 1), Point::new(2, 2)]
    );
    assert_eq!(
        find_marks(&rows, Mark::Crate).to_vec(),
        vec![Point::new(0, 1), Point::new(1, 0), Point::new(2, 1)]
    );
    assert_eq!(find_marks(&rows, Mark::Player).to_vec(), vec![Point::new(1, 1), Point::new(1, 2)]);
}

#[test]
fn cells_are_decoded() {
    let s = SokobanSolver::new("#.@\n+$*\n x#");
    assert_eq!(s.width, 3);
    assert_eq!(s.height, 3);
    assert_eq!(
        s.map,
        vec![
            Cell::Wall,
            Cell::Goal,
            Cell::Floor,
            Cell::Goal,
            Cell::Floor,
            Cell::Goal,
            Cell::Floor,
            Cell::Floor,
            Cell::Wall
        ]
    );
    assert_eq!(s.goals.to_vec(), vec![Point::new(0, 1), Point::new(1, 0), Point::new(1, 2)]);
    for idx in 0..9 {
        assert_eq!(s.goal_grid.contains(idx), idx == 1 || idx == 3 || idx == 5);
    }
}

#[test]
fn short_rows_are_padded_with_floor() {
    let s = SokobanSolver::new("##\n#@ $.#\n#");
    assert_eq!(s.width, 6);
    assert_eq!(s.height, 3);
    let wall = Cell::Wall;
    let floor = Cell::Floor;
    assert_eq!(
        s.map,
        vec![
            wall, wall, floor, floor, floor, floor, //
            wall, floor, floor, floor, Cell::Goal, wall, //
            wall, floor, floor, floor, floor, floor,
        ]
    );
}

#[test]
fn index_and_bounds() {
    let s = SokobanSolver::new("####\n#@.#\n####");
    assert!(s.is_valid(0, 0));
    assert!(s.is_valid(2, 3));
    assert!(!s.is_valid(3, 0));
    assert!(!s.is_valid(0, 4));
    assert!(!s.is_valid(-1, 0));
    assert!(!s.is_valid(0, -1));
    assert_eq!(s.to_idx(0, 0), 0);
    assert_eq!(s.to_idx(1, 2), 6);
    assert_eq!(s.to_idx(2, 3), 11);
    assert!(s.is_wall(Point::new(0, 1)));
    assert!(!s.is_wall(Point::new(1, 1)));
    assert!(s.is_goal(Point::new(1, 2)));
    assert!(!s.is_goal(Point::new(1, 1)));
    assert_eq!(s.neighbor(Point::new(0, 0), 0), None);
    assert_eq!(s.neighbor(Point::new(0, 0), 2), None);
    assert_eq!(s.neighbor(Point::new(0, 0), 1), Some(Point::new(1, 0)));
    assert_eq!(s.neighbor(Point::new(2, 3), 3), None);
    assert_eq!(s.neighbor(Point::new(2, 3), 1), None);
    assert_eq!(s.neighbor(Point::new(1, 1), 3), Some(Point::new(1, 2)));
}

#[test]
fn parse_finds_player_and_boxes() {
    let (player, boxes, solver) = parse_puzzle("#####\n#@$.#\n#*  #\n#####");
    assert_eq!(player, Point::new(1, 1));
    assert_eq!(boxes.to_vec(), vec![Point::new(1, 2), Point::new(2, 1)]);
    assert_eq!(solver.goals.to_vec(), vec![Point::new(1, 3), Point::new(2, 1)]);
}

#[test]
fn last_player_wins() {
    let (player, _, _) = parse_puzzle("@ +\n@ ");
    assert_eq!(player, Point::new(1, 0));
    let (player, _, _) = parse_puzzle("@ +");
    assert_eq!(player, Point::new(0, 2));
}

#[test]
fn missing_player_starts_at_the_first_cell() {
    let (player, boxes, solver) = parse_puzzle("#$.#");
    assert_eq!(player, Point::new(0, 0));
    assert_eq!(boxes.to_vec(), vec![Point::new(0, 1)]);
    assert_eq!(solver.width, 4);
}

#[test]
fn empty_text_gives_a_board_without_cells() {
    let (player, boxes, solver) = parse_puzzle("");
    assert_eq!(player, Point::new(0, 0));
    assert!(boxes.to_vec().is_empty());
    assert_eq!(solver.width, 0);
    assert_eq!(solver.height, 0);
    assert!(solver.map.is_empty());
    assert!(solver.zobrist_table.is_empty());
    assert!(solver.goal_counts_by_room.to_vec().is_empty());
}

#[test]
fn puzzle_with_64_goals_fits_and_65_do_not() {
    let row64: String = std::iter::repeat('.').take(64).collect();
    let row65: String = std::iter::repeat('.').take(65).collect();
    assert!(puzzle_fits(&row64));
    assert!(!puzzle_fits(&row65));
    assert!(puzzle_fits(""));
    assert_eq!(solve_puzzle(&row65), None);
}

#[test]
fn puzzle_with_too_many_rows_or_columns_does_not_fit() {
    let wide: String = std::iter::repeat(' ').take(32768).collect();
    assert!(!puzzle_fits(&wide));
    let widest: String = std::iter::repeat(' ').take(32767).collect();
    assert!(puzzle_fits(&widest));
    let tall: String = std::iter::repeat("#\n").take(32768).collect();
    assert!(!puzzle_fits(&tall));
    assert_eq!(solve_puzzle(&tall), None);
}

#[test]
fn with_keys_wants_one_pair_for_each_cell() {
    let text = "#@$.#";
    assert!(SokobanSolver::with_keys(text, vec![[1, 2]; 4]).is_none());
    assert!(SokobanSolver::with_keys(text, vec![[1, 2]; 6]).is_none());
    let s = SokobanSolver::with_keys(text, vec![[1, 2]; 5]).unwrap();
    assert_eq!(s.zobrist_table, vec![[1, 2]; 5]);
}

#[test]
fn building_twice_gives_the_same_board() {
    let text = "######\n#@$ .#\n## ###\n#. $ #\n######";
    let a = SokobanSolver::new(text);
    let b = SokobanSolver::new(text);
    assert_eq!(a.map, b.map);
    assert_eq!(a.goal_grid.words, b.goal_grid.words);
    assert_eq!(a.dead_squares.words, b.dead_squares.words);
    assert_eq!(a.room_ids, b.room_ids);
    assert_eq!(a.goal_counts_by_room.to_vec(), b.goal_counts_by_room.to_vec());
}
