use permutohedron::{factorial, heap_recursive, Control, ControlFlow, Heap};

#[test]
fn count_permutations_recur() {
    let mut data = [0; 10];
    for n in 0..data.len() + 1 {
        let count = factorial(n);
        let mut i = 0;
        heap_recursive(&mut data[..n], |_| i += 1);
        assert_eq!(i, count);
        println!("{}! = {} ok", n, count);
    }
}

#[test]
fn permutations_0_to_6_recursive() {
    let mut data = [0; 6];
    for n in 0..data.len() {
        let count = factorial(n);
        for (index, elt) in data.iter_mut().enumerate() {
            *elt = index + 1;
        }
        let mut permutations = Vec::with_capacity(count);
        heap_recursive(&mut data[..n], |elt| permutations.push(elt.to_owned()));
        println!("{:?}", permutations);
        assert_eq!(permutations.len(), count);
        permutations.sort();
        permutations.dedup();
        assert_eq!(permutations.len(), count);
        // Each permutation contains all of 1 to n
        assert!(permutations.iter().all(|perm| perm.len() == n));
        assert!(permutations.iter().all(|perm| (1..n + 1).all(|i| perm.iter().position(|elt| *elt == i).is_some())));
    }
}

#[test]
fn recursive_matches_iterative_order() {
    for n in 0..=7usize {
        let mut a: Vec<u32> = (0..n as u32).collect();
        let mut b = a.clone();
        let mut rec = Vec::new();
        heap_recursive(&mut a[..], |p| rec.push(p.to_vec()));
        let mut it = Vec::new();
        let mut heap = Heap::new(&mut b[..]);
        while let Some(p) = heap.next() {
            it.push(p);
        }
        assert_eq!(rec, it);
        assert_eq!(a, b);
        assert_eq!(rec.len(), factorial(n));
    }
}

#[test]
fn recursive_order_of_three() {
    let mut data = [1, 2, 3];
    let mut seen = Vec::new();
    heap_recursive(&mut data, |p| seen.push(p.to_vec()));
    assert_eq!(
        seen,
        vec![vec![1, 2, 3], vec![2, 1, 3], vec![3, 1, 2], vec![1, 3, 2], vec![2, 3, 1], vec![3, 2, 1]]
    );
    assert_eq!(data, [3, 2, 1]);
}

#[test]
fn recursive_stops_after_third_call() {
    let mut data = [1, 2, 3, 4];
    let mut seen = Vec::new();
    let r = heap_recursive(&mut data, |p| {
        seen.push(p.to_vec());
        if seen.len() == 3 {
            Control::Break(seen.len())
        } else {
            Control::Continue
        }
    });
    assert_eq!(seen.len(), 3);
    assert_eq!(r.break_value(), Some(3));
    assert_eq!(seen[2], vec![3, 1, 2, 4]);
    // no exchange after the stop
    assert_eq!(data, [3, 1, 2, 4]);
}

#[test]
fn recursive_stops_on_err() {
    let mut data = [1, 2];
    let mut calls = 0;
    let r: Result<(), &str> = heap_recursive(&mut data, |_| {
        calls += 1;
        Err("stop")
    });
    assert_eq!(r, Err("stop"));
    assert_eq!(calls, 1);
    assert_eq!(data, [1, 2]);
}

#[test]
fn recursive_full_walk_returns_continue() {
    let mut data = [1, 2, 3, 4, 5];
    let mut calls = 0;
    let r: Control<()> = heap_recursive(&mut data, |_| {
        calls += 1;
        Control::Continue
    });
    assert!(!r.should_break());
    assert_eq!(calls, 120);
    assert_eq!(data, [5, 2, 3, 4, 1]);
}

#[test]
fn control_values() {
    assert!(Control::<u8>::breaking().should_break());
    assert_eq!(Control::<()>::breaking().break_value(), Some(()));
    assert_eq!(Control::<u8>::Continue.break_value(), None);
    assert_eq!(Control::Break(4).break_value(), Some(4));
    assert!(!Control::<u8>::continuing().should_break());
    assert!(!<()>::continuing().should_break());
    assert!(!Result::<(), u8>::continuing().should_break());
    assert!(Result::<(), u8>::Err(1).should_break());
}
