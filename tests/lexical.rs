use permutohedron::next_in_lexical_order;

#[test]
fn lexical_walk_from_sorted() {
    let mut data = [1u64, 2, 3];
    let expected = [[1u64, 3, 2], [2, 1, 3], [2, 3, 1], [3, 1, 2], [3, 2, 1]];
    for e in expected.iter() {
        assert!(next_in_lexical_order(&mut data));
        assert_eq!(&data, e);
    }
    assert!(!next_in_lexical_order(&mut data));
    assert_eq!(data, [3, 2, 1]);
}

#[test]
fn lexical_counts_all_arrangements() {
    let mut data = [1u64, 2, 3, 4, 5];
    let mut n = 1;
    while next_in_lexical_order(&mut data) {
        n += 1;
    }
    assert_eq!(n, 120);
}

#[test]
fn lexical_with_repeated_elements() {
    let mut data = [1u64, 1, 2];
    assert!(next_in_lexical_order(&mut data));
    assert_eq!(data, [1, 2, 1]);
    assert!(next_in_lexical_order(&mut data));
    assert_eq!(data, [2, 1, 1]);
    assert!(!next_in_lexical_order(&mut data));
}

#[test]
fn lexical_short_inputs() {
    let mut empty: [u64; 0] = [];
    assert!(!next_in_lexical_order(&mut empty));
    let mut one = [4u64];
    assert!(!next_in_lexical_order(&mut one));
    assert_eq!(one, [4]);
}

#[test]
fn lexical_resumes_from_middle() {
    let mut data = [1u64, 4, 3, 2];
    assert!(next_in_lexical_order(&mut data));
    assert_eq!(data, [2, 1, 3, 4]);
}
