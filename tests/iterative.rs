use permutohedron::{factorial, Heap, MAXHEAP};

fn collect_rest<T: Copy>(heap: &mut Heap<'_, T>) -> Vec<Vec<T>> {
    let mut out = Vec::new();
    while let Some(p) = heap.next() {
        out.push(p);
    }
    out
}

#[test]
fn first_and_reset() {
    let mut data = [1, 2, 3];
    let mut heap = Heap::new(&mut data);
    let mut perm123 = vec![[1, 2, 3], [2, 1, 3], [3, 1, 2], [1, 3, 2], [2, 3, 1], [3, 2, 1]];
    assert_eq!(collect_rest(&mut heap), perm123);

    // test reset
    heap.reset();
    // for the 1,2,3 case this happens to work out to the reverse order
    perm123.reverse();
    assert_eq!(collect_rest(&mut heap), perm123);
}

#[test]
fn permutations_0_to_6() {
    let mut data = [0; 6];
    for n in 0..data.len() {
        let count = factorial(n);
        for (index, elt) in data.iter_mut().enumerate() {
            *elt = index + 1;
        }
        let mut permutations = collect_rest(&mut Heap::new(&mut data[..n]));
        assert_eq!(permutations.len(), count);
        permutations.sort();
        permutations.dedup();
        assert_eq!(permutations.len(), count);
        // Each permutation contains all of 1 to n
        assert!(permutations.iter().all(|perm| perm.len() == n));
        assert!(permutations.iter().all(|perm| (1..n + 1).all(|i| perm.iter().position(|elt| *elt == i).is_some())));
    }
}

#[test]
fn count_permutations_iter() {
    let mut data = [0; 10];
    for n in 0..data.len() + 1 {
        let count = factorial(n);
        let mut permutations = Heap::new(&mut data[..n]);
        let mut i = 0;
        while let Some(_) = permutations.next_permutation() {
            i += 1;
        }
        assert_eq!(i, count);
        println!("{}! = {} ok", n, count);
    }
}

#[test]
fn iterative_order_of_three() {
    let mut data = [1, 2, 3];
    let mut heap = Heap::new(&mut data);
    let expected: [[i32; 3]; 6] = [[1, 2, 3], [2, 1, 3], [3, 1, 2], [1, 3, 2], [2, 3, 1], [3, 2, 1]];
    for e in expected.iter() {
        assert_eq!(heap.next_permutation(), Some(&e[..]));
    }
    assert_eq!(heap.next_permutation(), None);
    assert_eq!(heap.next_permutation(), None);
    assert_eq!(heap.get(), &[3, 2, 1][..]);
}

#[test]
fn iterative_counts_and_multisets_up_to_eight() {
    for n in 0..=8usize {
        let mut data: Vec<u32> = (0..n as u32).collect();
        let original = data.clone();
        let mut perms = collect_rest(&mut Heap::new(&mut data[..]));
        assert_eq!(perms.len(), factorial(n));
        for p in perms.iter() {
            let mut sorted = p.clone();
            sorted.sort();
            assert_eq!(sorted, original);
        }
        perms.sort();
        perms.dedup();
        assert_eq!(perms.len(), factorial(n));
    }
}

#[test]
fn iterative_first_is_input_and_last_is_reversal_up_to_three() {
    for n in 0..=3usize {
        let mut data: Vec<u8> = (1..=n as u8).collect();
        let original = data.clone();
        let perms = collect_rest(&mut Heap::new(&mut data[..]));
        assert_eq!(perms[0], original);
        let mut reversed = original.clone();
        reversed.reverse();
        assert_eq!(perms[perms.len() - 1], reversed);
        assert_eq!(data, reversed);
    }
}

#[test]
fn iterative_last_of_four_is_not_the_reversal() {
    let mut data = [1, 2, 3, 4];
    let perms = collect_rest(&mut Heap::new(&mut data));
    assert_eq!(perms[0], vec![1, 2, 3, 4]);
    assert_eq!(perms[23], vec![2, 3, 4, 1]);
    assert_eq!(data, [2, 3, 4, 1]);
}

#[test]
fn iterative_empty_and_single() {
    let mut empty: [u8; 0] = [];
    let mut heap = Heap::new(&mut empty);
    assert_eq!(heap.next_permutation(), Some(&[][..]));
    assert_eq!(heap.next_permutation(), None);

    let mut one = [7];
    let mut heap = Heap::new(&mut one);
    assert_eq!(heap.next(), Some(vec![7]));
    assert_eq!(heap.next(), None);
}

#[test]
fn iterative_equal_elements_are_distinct_positions() {
    let mut data = [5, 5, 5];
    let perms = collect_rest(&mut Heap::new(&mut data));
    assert_eq!(perms.len(), 6);
    assert!(perms.iter().all(|p| p == &vec![5, 5, 5]));
}

#[test]
fn iterative_largest_size() {
    let mut data = [0u8; MAXHEAP];
    for (i, x) in data.iter_mut().enumerate() {
        *x = i as u8;
    }
    let mut heap = Heap::new(&mut data);
    assert_eq!(heap.next().unwrap()[..2], [0, 1]);
    assert_eq!(heap.next().unwrap()[..3], [1, 0, 2]);
    assert_eq!(heap.next().unwrap()[..3], [2, 0, 1]);
}

#[test]
fn get_mut_changes_where_the_walk_goes_on() {
    let mut data = [1, 2, 3];
    let mut heap = Heap::new(&mut data);
    assert_eq!(heap.next(), Some(vec![1, 2, 3]));
    heap.get_mut()[2] = 9;
    assert_eq!(heap.get(), &[1, 2, 9][..]);
    assert_eq!(heap.next(), Some(vec![2, 1, 9]));
}

#[test]
fn reset_restarts_from_current_arrangement() {
    let mut data = [1, 2, 3, 4];
    let mut heap = Heap::new(&mut data);
    heap.next_permutation();
    heap.next_permutation();
    assert_eq!(heap.get(), &[2, 1, 3, 4][..]);
    heap.reset();
    assert_eq!(heap.next(), Some(vec![2, 1, 3, 4]));
    assert_eq!(heap.next(), Some(vec![1, 2, 3, 4]));
    let mut n = 2;
    while heap.next_permutation().is_some() {
        n += 1;
    }
    assert_eq!(n, 24);
}

#[test]
fn factorial_values() {
    assert_eq!(factorial(0), 1);
    assert_eq!(factorial(1), 1);
    assert_eq!(factorial(5), 120);
    assert_eq!(factorial(10), 3628800);
    assert_eq!(factorial(20), 2432902008176640000);
}
