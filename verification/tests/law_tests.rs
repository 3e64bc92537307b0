use lau_fibonacci_growth::{
    fib_fits_u64, find_skill, spiral_count_for_root, unlock_order, FibonacciSequence, LucasSequence, SkillUnlock,
};

const F92: u64 = 7540113804746346429;
const F93: u64 = 12200160415121876738;

fn reference_fib(n: usize) -> u64 {
    let (mut a, mut b) = (0u64, 1u64);
    for _ in 0..n {
        let c = a + b;
        a = b;
        b = c;
    }
    a
}

#[test]
fn fib_fits_u64_marks_the_largest_u64_fibonacci_number() {
    assert!(fib_fits_u64(0));
    assert!(fib_fits_u64(1));
    assert!(fib_fits_u64(93));
    assert!(!fib_fits_u64(94));
    assert!(!fib_fits_u64(1000));
}

#[test]
fn at_past_the_table_gives_the_largest_values() {
    let fib = FibonacciSequence::new();
    assert_eq!(fib.at(92), F92);
    assert_eq!(fib.at(93), F93);
}

#[test]
fn computed_to_tracks_the_largest_request() {
    let mut fib = FibonacciSequence::new();
    assert_eq!(fib.computed_to(), 1);
    fib.compute_to(10);
    assert_eq!(fib.computed_to(), 10);
    assert_eq!(fib.values().len(), 11);
    fib.compute_to(5);
    assert_eq!(fib.computed_to(), 10);
    assert_eq!(fib.values().len(), 11);
    let d = FibonacciSequence::default();
    assert_eq!(*d.values(), vec![0, 1]);
    assert_eq!(d.computed_to(), 1);
}

#[test]
fn compute_to_continues_whatever_is_stored() {
    // Stored values that are not Fibonacci numbers are continued by the same recurrence.
    let mut seq = FibonacciSequence::from_parts(vec![2, 1], 1);
    seq.compute_to(6);
    assert_eq!(*seq.values(), vec![2, 1, 3, 4, 7, 11, 18]);
    // Past the stored values, `at` answers with the Fibonacci number.
    assert_eq!(seq.at(6), 18);
    assert_eq!(seq.at(7), 13);
}

#[test]
fn table_recurrence_law_on_concrete_values() {
    let mut fib = FibonacciSequence::new();
    fib.compute_to(30);
    for n in 2..=60 {
        assert_eq!(fib.at(n), fib.at(n - 1) + fib.at(n - 2));
        assert_eq!(fib.at(n), reference_fib(n));
    }
}

#[test]
fn is_fibonacci_at_the_top_of_u64() {
    let fib = FibonacciSequence::new();
    assert!(fib.is_fibonacci(F93));
    assert!(fib.is_fibonacci(F92));
    assert!(!fib.is_fibonacci(F93 + 1));
    assert!(!fib.is_fibonacci(F93 - 1));
    assert!(!fib.is_fibonacci(u64::MAX));
    assert!(!fib.is_fibonacci(1u64 << 63));
}

#[test]
fn is_fibonacci_agrees_with_the_table() {
    let fib = FibonacciSequence::new();
    let mut k = 0;
    for n in 0..=2000u64 {
        while reference_fib(k) < n {
            k += 1;
        }
        assert_eq!(fib.is_fibonacci(n), reference_fib(k) == n, "n = {n}");
    }
}

#[test]
fn index_of_undoes_at() {
    let fib = FibonacciSequence::new();
    for k in 0..=93usize {
        if k == 2 {
            assert_eq!(fib.index_of(fib.at(2)), Some(1));
        } else {
            assert_eq!(fib.index_of(fib.at(k)), Some(k), "k = {k}");
        }
    }
    assert_eq!(fib.index_of(u64::MAX), None);
    assert_eq!(fib.index_of(F93 + 1), None);
}

#[test]
fn sum_to_at_the_largest_allowed_index() {
    let fib = FibonacciSequence::new();
    assert_eq!(fib.sum_to(0), 0);
    assert_eq!(fib.sum_to(1), 1);
    assert_eq!(fib.sum_to(10), 143);
    assert_eq!(fib.sum_to(91), F93 - 1);
}

#[test]
fn zeckendorf_exact_lists() {
    let fib = FibonacciSequence::new();
    assert_eq!(fib.zeckendorf(4), vec![2, 4]);
    assert_eq!(fib.zeckendorf(100), vec![4, 6, 11]);
    assert_eq!(fib.zeckendorf(89), vec![11]);
    assert_eq!(fib.zeckendorf(143), vec![3, 5, 7, 9, 11]);
}

#[test]
fn zeckendorf_below_the_largest_u64_fibonacci_number() {
    let fib = FibonacciSequence::new();
    for n in [F93 - 1, F92, F92 + 1, u64::MAX / 2, 1u64 << 62] {
        let rep = fib.zeckendorf(n);
        let sum: u64 = rep.iter().map(|&i| fib.at(i)).sum();
        assert_eq!(sum, n);
        assert!(rep.iter().all(|&i| i >= 2));
        for w in rep.windows(2) {
            assert!(w[0] + 2 <= w[1]);
        }
    }
}

#[test]
fn lucas_identity_law_on_concrete_values() {
    let lucas = LucasSequence::new();
    for n in 0..=92 {
        assert!(lucas.verify_lucas_identity(n), "n = {n}");
    }
    assert_eq!(lucas.at(92), reference_fib(91) + reference_fib(93));
    let d = LucasSequence::default();
    assert_eq!(d.values, vec![2, 1]);
}

#[test]
fn lucas_identity_fails_on_other_stored_values() {
    let altered = LucasSequence { values: vec![2, 1, 4] };
    assert!(!altered.verify_lucas_identity(2));
    assert!(altered.verify_lucas_identity(1));
    assert!(altered.verify_lucas_identity(3));
    let no_start = LucasSequence { values: vec![7] };
    assert!(!no_start.verify_lucas_identity(0));
}

#[test]
fn lucas_at_past_the_table() {
    let empty = LucasSequence { values: vec![] };
    assert_eq!(empty.at(0), 2);
    assert_eq!(empty.at(5), 11);
    let mut seq = LucasSequence { values: vec![1, 1] };
    seq.compute_to(5);
    assert_eq!(seq.values, vec![1, 1, 2, 3, 5, 8]);
}

#[test]
fn unlock_order_is_stable() {
    let skills = vec![
        SkillUnlock { name: "b".to_string(), unlocks_at: 2 },
        SkillUnlock { name: "a".to_string(), unlocks_at: 1 },
        SkillUnlock { name: "c".to_string(), unlocks_at: 2 },
        SkillUnlock { name: "d".to_string(), unlocks_at: 1 },
        SkillUnlock { name: "e".to_string(), unlocks_at: 0 },
    ];
    assert_eq!(unlock_order(&skills), vec!["e", "a", "d", "b", "c"]);
    assert!(unlock_order(&Vec::new()).is_empty());
}

#[test]
fn spiral_count_exact_pairs() {
    assert_eq!(spiral_count_for_root(0), (2, 3));
    assert_eq!(spiral_count_for_root(10), (8, 13));
    assert_eq!(spiral_count_for_root(6), (5, 8));
    assert_eq!(spiral_count_for_root(1_000_000), (317811, 514229));
    assert_eq!(spiral_count_for_root(usize::MAX), (317811, 514229));
}

#[test]
fn find_skill_gives_the_first_match() {
    let skills = vec![
        SkillUnlock { name: "core".to_string(), unlocks_at: 1 },
        SkillUnlock { name: "attack".to_string(), unlocks_at: 2 },
        SkillUnlock { name: "core".to_string(), unlocks_at: 5 },
    ];
    assert_eq!(find_skill(&skills, &"core".to_string()), Some(0));
    assert_eq!(find_skill(&skills, &"attack".to_string()), Some(1));
    assert_eq!(find_skill(&skills, &"missing".to_string()), None);
    assert_eq!(find_skill(&Vec::new(), &"core".to_string()), None);
}

#[test]
fn zeckendorf_at_and_above_the_largest_u64_fibonacci_number() {
    let fib = FibonacciSequence::new();
    assert_eq!(fib.zeckendorf(F93), vec![93]);
    for n in [F93 + 1, u64::MAX - 1, u64::MAX] {
        let rep = fib.zeckendorf(n);
        assert_eq!(*rep.last().unwrap(), 93);
        let sum: u128 = rep.iter().map(|&i| fib.at(i) as u128).sum();
        assert_eq!(sum, n as u128);
        assert!(rep.iter().all(|&i| i >= 2));
        for w in rep.windows(2) {
            assert!(w[0] + 2 <= w[1]);
        }
    }
}
