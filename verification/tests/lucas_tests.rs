use lau_fibonacci_growth::LucasSequence;

#[test]
fn test_lucas_initial_values() {
    let lucas = LucasSequence::new();
    assert_eq!(lucas.values, vec![2, 1]);
}

#[test]
fn test_lucas_compute() {
    let mut lucas = LucasSequence::new();
    lucas.compute_to(10);
    assert_eq!(lucas.at(0), 2);
    assert_eq!(lucas.at(1), 1);
    assert_eq!(lucas.at(2), 3);
    assert_eq!(lucas.at(3), 4);
    assert_eq!(lucas.at(4), 7);
    assert_eq!(lucas.at(5), 11);
    assert_eq!(lucas.at(6), 18);
    assert_eq!(lucas.at(7), 29);
    assert_eq!(lucas.at(8), 47);
    assert_eq!(lucas.at(9), 76);
    assert_eq!(lucas.at(10), 123);
}

#[test]
fn test_lucas_identity_theorem_8() {
    let mut lucas = LucasSequence::new();
    lucas.compute_to(20);
    for n in 1..=20 {
        assert!(
            lucas.verify_lucas_identity(n),
            "Lucas identity failed at n={n}"
        );
    }
}

#[test]
fn test_lucas_identity_at_0() {
    let lucas = LucasSequence::new();
    assert!(lucas.verify_lucas_identity(0));
}

#[test]
fn test_lucas_recurrence() {
    let mut lucas = LucasSequence::new();
    lucas.compute_to(15);
    for n in 2..=15 {
        assert_eq!(lucas.at(n), lucas.at(n - 1) + lucas.at(n - 2));
    }
}
