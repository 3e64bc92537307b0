use lau_fibonacci_growth::{spiral_count_for_root, unlock_order, FibonacciSequence, SkillUnlock};

fn skill(name: &str, unlocks_at: usize) -> SkillUnlock {
    SkillUnlock { name: name.to_string(), unlocks_at }
}

#[test]
fn test_skill_node_unlocked() {
    let node = skill("test", 5);
    assert!(!node.is_unlocked(4));
    assert!(node.is_unlocked(5));
    assert!(node.is_unlocked(10));
}

#[test]
fn test_skill_tree_unlock_order() {
    let skills = vec![
        skill("core", 1),
        skill("attack", 2),
        skill("defense", 3),
        skill("special", 5),
        skill("ultimate", 8),
    ];
    let order = unlock_order(&skills);
    assert_eq!(
        order,
        vec!["core", "attack", "defense", "special", "ultimate"]
    );
}

#[test]
fn test_phyllotaxis_spiral_count_theorem_7() {
    // For 100 seeds, expect Fibonacci pair near sqrt(100)=10
    // Fibonacci pairs: (5,8), (8,13) — 10 is between
    let root = (100usize as f64).sqrt() as usize;
    let (cw, ccw) = spiral_count_for_root(root);
    // Should be consecutive Fibonacci numbers
    let fib = FibonacciSequence::new();
    assert!(fib.is_fibonacci(cw as u64));
    assert!(fib.is_fibonacci(ccw as u64));
}
