use sokoban_solver::bits::BitSet;

#[test]
fn new_bitset_is_empty() {
    let s = BitSet::new(130);
    assert_eq!(s.bits, 130);
    assert_eq!(s.words.len(), 3);
    for i in 0..130 {
        assert!(!s.contains(i));
    }
}

#[test]
fn insert_sets_one_bit() {
    let mut s = BitSet::new(130);
    for &i in [0usize, 63, 64, 129].iter() {
        s.insert(i);
    }
    for i in 0..130 {
        assert_eq!(s.contains(i), i == 0 || i == 63 || i == 64 || i == 129);
    }
    assert_eq!(s.words[0], 1u64 | (1u64 << 63));
    assert_eq!(s.words[1], 1);
    assert_eq!(s.words[2], 2);
}

#[test]
fn insert_twice_changes_nothing() {
    let mut s = BitSet::new(10);
    s.insert(3);
    s.insert(3);
    assert_eq!(s.words[0], 8);
}

#[test]
fn bitset_of_no_bits_has_no_words() {
    let s = BitSet::new(0);
    assert_eq!(s.words.len(), 0);
}
