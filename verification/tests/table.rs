use sokoban_solver::table::{Entry, TranspositionTable};

#[test]
fn new_table_is_zeroed() {
    let t = TranspositionTable::new(8);
    assert_eq!(t.size, 8);
    assert_eq!(t.age, 0);
    assert_eq!(t.entries.len(), 8);
    for e in t.entries.iter() {
        assert_eq!(*e, Entry { hash: 0, heuristic: 0, age: 0 });
    }
}

#[test]
fn fresh_table_answers_for_hash_zero_only() {
    let t = TranspositionTable::new(8);
    assert_eq!(t.probe(0), Some(0));
    assert_eq!(t.probe(5), None);
    assert_eq!(t.probe(8), None);
}

#[test]
fn store_then_probe_finds_the_value() {
    let mut t = TranspositionTable::new(8);
    t.store(13, 7);
    assert_eq!(t.probe(13), Some(7));
    assert_eq!(t.entries[5], Entry { hash: 13, heuristic: 7, age: 0 });
    assert_eq!(t.probe(5), None);
}

#[test]
fn store_replaces_what_shares_the_slot() {
    let mut t = TranspositionTable::new(8);
    t.store(13, 7);
    t.store(21, 9);
    assert_eq!(t.probe(13), None);
    assert_eq!(t.probe(21), Some(9));
}

#[test]
fn next_age_forgets_and_wraps_round() {
    let mut t = TranspositionTable::new(4);
    t.store(6, -3);
    assert_eq!(t.probe(6), Some(-3));
    t.next_age();
    assert_eq!(t.age, 1);
    assert_eq!(t.probe(6), None);
    for _ in 0..255 {
        t.next_age();
    }
    assert_eq!(t.age, 0);
    assert_eq!(t.probe(6), Some(-3));
}
