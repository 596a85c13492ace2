use sokoban_solver::point::Point;
use sokoban_solver::solver::SokobanSolver;
use sokoban_solver::zobrist::random_keys;

fn keyed(text: &str, cells: usize) -> SokobanSolver {
    let mut keys = Vec::new();
    for i in 0..cells {
        keys.push([1u64 << i, 1u64 << (i + 16)]);
    }
    SokobanSolver::with_keys(text, keys).unwrap()
}

#[test]
fn hash_is_player_key_xor_box_keys() {
    let s = keyed("#@$ .#", 6);
    let player = Point::new(0, 1);
    assert_eq!(s.calculate_zobrist_hash(&player, &[]), 2);
    assert_eq!(s.calculate_zobrist_hash(&player, &[Point::new(0, 2)]), 2 | (1 << 18));
    assert_eq!(
        s.calculate_zobrist_hash(&player, &[Point::new(0, 2), Point::new(0, 4)]),
        2 | (1 << 18) | (1 << 20)
    );
    assert_eq!(
        s.calculate_zobrist_hash(&player, &[Point::new(0, 4), Point::new(0, 2)]),
        2 | (1 << 18) | (1 << 20)
    );
}

#[test]
fn box_key_of_a_list() {
    let s = keyed("#@$ .#", 6);
    assert_eq!(s.boxes_zobrist_key(&[]), 0);
    assert_eq!(s.boxes_zobrist_key(&[Point::new(0, 2), Point::new(0, 3)]), (1 << 18) | (1 << 19));
}

#[test]
fn equal_keys_cancel() {
    let s = SokobanSolver::with_keys("    ", vec![[3, 5], [9, 5], [3, 6], [1, 1]]).unwrap();
    assert_eq!(s.boxes_zobrist_key(&[Point::new(0, 0), Point::new(0, 1)]), 0);
    assert_eq!(s.calculate_zobrist_hash(&Point::new(0, 3), &[Point::new(0, 3)]), 0);
    assert_eq!(s.calculate_zobrist_hash(&Point::new(0, 0), &[Point::new(0, 2)]), 3 ^ 6);
}

#[test]
fn incremental_hash_of_a_walk() {
    let s = keyed("#@$ .#", 6);
    let boxes = [Point::new(0, 4)];
    let before = s.calculate_zobrist_hash(&Point::new(0, 1), &boxes);
    let after = s.calculate_zobrist_hash_incremental(before, Point::new(0, 1), Point::new(0, 2), None, None);
    assert_eq!(after, 4 | (1 << 20));
    assert_eq!(after, s.calculate_zobrist_hash(&Point::new(0, 2), &boxes));
}

#[test]
fn incremental_hash_of_a_push() {
    let s = keyed("#@$ .#", 6);
    let before = s.calculate_zobrist_hash(&Point::new(0, 1), &[Point::new(0, 2)]);
    let after = s.calculate_zobrist_hash_incremental(
        before,
        Point::new(0, 1),
        Point::new(0, 2),
        Some(Point::new(0, 2)),
        Some(Point::new(0, 3)),
    );
    assert_eq!(after, 4 | (1 << 19));
    assert_eq!(after, s.calculate_zobrist_hash(&Point::new(0, 2), &[Point::new(0, 3)]));
}

#[test]
fn incremental_hash_agrees_with_recomputation_along_a_path() {
    let s = SokobanSolver::new("#######\n#@ $ .#\n#  $ .#\n#######");
    let mut player = Point::new(1, 1);
    let mut boxes = vec![Point::new(1, 3), Point::new(2, 3)];
    let mut hash = s.calculate_zobrist_hash(&player, &boxes);
    // r, r (push), l, d, r (push)
    let steps: [(i16, i16, Option<usize>); 5] =
        [(0, 1, None), (0, 1, Some(0)), (0, -1, None), (1, 0, None), (0, 1, Some(1))];
    for &(dr, dc, pushed) in steps.iter() {
        let to = Point::new(player.row + dr, player.col + dc);
        let (old_box, new_box) = match pushed {
            Some(i) => {
                let from = boxes[i];
                assert_eq!(from, to);
                boxes[i] = Point::new(from.row + dr, from.col + dc);
                (Some(from), Some(boxes[i]))
            }
            None => (None, None),
        };
        hash = s.calculate_zobrist_hash_incremental(hash, player, to, old_box, new_box);
        player = to;
        assert_eq!(hash, s.calculate_zobrist_hash(&player, &boxes));
    }
    assert_eq!(boxes, vec![Point::new(1, 4), Point::new(2, 4)]);
}

#[test]
fn random_keys_has_a_pair_for_each_cell() {
    assert_eq!(random_keys(0).len(), 0);
    let keys = random_keys(40);
    assert_eq!(keys.len(), 40);
    let first = keys[0][0];
    assert!(keys.iter().any(|pair| pair[0] != first || pair[1] != first));
}

#[test]
fn new_solver_has_keys_for_its_cells() {
    let s = SokobanSolver::new("#####\n#@$.#\n#####");
    assert_eq!(s.zobrist_table.len(), 15);
    let mut all: Vec<u64> = s.zobrist_table.iter().flat_map(|pair| pair.iter().copied()).collect();
    all.sort();
    all.dedup();
    assert_eq!(all.len(), 30);
}

#[test]
fn initialize_zobrist_draws_new_keys() {
    let mut s = SokobanSolver::with_keys("#@$.#", vec![[0, 0]; 5]).unwrap();
    s.initialize_zobrist();
    assert_eq!(s.zobrist_table.len(), 5);
    assert!(s.zobrist_table.iter().any(|pair| pair[0] != 0 || pair[1] != 0));
    assert_eq!(s.width, 5);
    assert_eq!(s.height, 1);
}
