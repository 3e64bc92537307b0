use lau_fibonacci_growth::FibonacciSequence;

#[test]
fn test_fibonacci_initial_values() {
    let fib = FibonacciSequence::new();
    assert_eq!(*fib.values(), vec![0, 1]);
}

#[test]
fn test_fibonacci_compute_to() {
    let mut fib = FibonacciSequence::new();
    fib.compute_to(10);
    assert_eq!(fib.at(0), 0);
    assert_eq!(fib.at(1), 1);
    assert_eq!(fib.at(2), 1);
    assert_eq!(fib.at(3), 2);
    assert_eq!(fib.at(4), 3);
    assert_eq!(fib.at(5), 5);
    assert_eq!(fib.at(6), 8);
    assert_eq!(fib.at(7), 13);
    assert_eq!(fib.at(8), 21);
    assert_eq!(fib.at(9), 34);
    assert_eq!(fib.at(10), 55);
}

#[test]
fn test_fibonacci_theorem_12() {
    // F(0)=0, F(1)=1, F(2)=1, F(3)=2, F(4)=3, F(5)=5
    let fib = FibonacciSequence::new();
    assert_eq!(fib.at(0), 0);
    assert_eq!(fib.at(1), 1);
    assert_eq!(fib.at(2), 1);
    assert_eq!(fib.at(3), 2);
    assert_eq!(fib.at(4), 3);
    assert_eq!(fib.at(5), 5);
}

#[test]
fn test_fibonacci_recurrence_theorem_2() {
    // F(n) = F(n-1) + F(n-2)
    let mut fib = FibonacciSequence::new();
    fib.compute_to(20);
    for n in 2..=20 {
        assert_eq!(fib.at(n), fib.at(n - 1) + fib.at(n - 2));
    }
}

#[test]
fn test_is_fibonacci() {
    let fib = FibonacciSequence::new();
    assert!(fib.is_fibonacci(0));
    assert!(fib.is_fibonacci(1));
    assert!(fib.is_fibonacci(2));
    assert!(fib.is_fibonacci(3));
    assert!(fib.is_fibonacci(5));
    assert!(fib.is_fibonacci(8));
    assert!(fib.is_fibonacci(13));
    assert!(fib.is_fibonacci(21));
    assert!(fib.is_fibonacci(55));
    assert!(!fib.is_fibonacci(4));
    assert!(!fib.is_fibonacci(6));
    assert!(!fib.is_fibonacci(7));
    assert!(!fib.is_fibonacci(10));
    assert!(!fib.is_fibonacci(14));
}

#[test]
fn test_index_of() {
    let fib = FibonacciSequence::new();
    assert_eq!(fib.index_of(0), Some(0));
    assert_eq!(fib.index_of(1), Some(1));
    assert_eq!(fib.index_of(2), Some(3));
    assert_eq!(fib.index_of(3), Some(4));
    assert_eq!(fib.index_of(5), Some(5));
    assert_eq!(fib.index_of(8), Some(6));
    assert_eq!(fib.index_of(13), Some(7));
    assert_eq!(fib.index_of(21), Some(8));
    assert_eq!(fib.index_of(4), None);
    assert_eq!(fib.index_of(6), None);
}

#[test]
fn test_sum_formula_theorem_3() {
    // Σ F(i) for i=0..n = F(n+2) - 1
    let fib = FibonacciSequence::new();
    for n in 0..=15 {
        let sum = fib.sum_to(n);
        let expected = fib.at(n + 2) - 1;
        assert_eq!(sum, expected, "Sum formula failed at n={n}");
    }
}

#[test]
fn test_zeckendorf_theorem_4() {
    let fib = FibonacciSequence::new();
    // Every positive integer has unique representation as sum of non-consecutive Fibonacci numbers
    for n in 1..=100 {
        let rep = fib.zeckendorf(n);
        // Verify sum equals n
        let sum: u64 = rep.iter().map(|&i| fib.at(i)).sum();
        assert_eq!(sum, n, "Zeckendorf sum mismatch for n={n}");

        // Verify non-consecutive
        for w in rep.windows(2) {
            assert!(w[1] - w[0] >= 2, "Consecutive Fibonacci indices for n={n}");
        }
    }
}

#[test]
fn test_zeckendorf_specific() {
    let fib = FibonacciSequence::new();
    // 1 = F(2) = 1
    assert_eq!(fib.zeckendorf(1), vec![2]);
    // 2 = F(3) = 2
    assert_eq!(fib.zeckendorf(2), vec![3]);
    // 3 = F(4) = 3
    assert_eq!(fib.zeckendorf(3), vec![4]);
    // 4 = F(4) + F(2) = 3 + 1
    let rep = fib.zeckendorf(4);
    let sum: u64 = rep.iter().map(|&i| fib.at(i)).sum();
    assert_eq!(sum, 4);
    // 100 = 89 + 8 + 3 = F(11) + F(6) + F(4)
    let rep = fib.zeckendorf(100);
    let sum: u64 = rep.iter().map(|&i| fib.at(i)).sum();
    assert_eq!(sum, 100);
}

#[test]
fn test_zeckendorf_zero() {
    let fib = FibonacciSequence::new();
    assert_eq!(fib.zeckendorf(0), vec![0]);
}

#[test]
fn test_fibonacci_larger_values() {
    let mut fib = FibonacciSequence::new();
    fib.compute_to(50);
    assert_eq!(fib.at(20), 6765);
    assert_eq!(fib.at(30), 832040);
    assert_eq!(fib.at(40), 102334155);
}

#[test]
fn test_fibonacci_idempotent_compute() {
    let mut fib = FibonacciSequence::new();
    fib.compute_to(10);
    fib.compute_to(10); // no panic
    assert_eq!(fib.at(5), 5);
}

#[test]
fn test_fibonacci_index_of_large() {
    let fib = FibonacciSequence::new();
    assert_eq!(fib.index_of(55), Some(10));
    assert_eq!(fib.index_of(89), Some(11));
}
