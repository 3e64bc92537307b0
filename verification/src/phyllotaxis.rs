//! Spiral arm counts of a phyllotaxis pattern: the pair of consecutive
//! Fibonacci numbers whose mean lies nearest to the square root of the
//! number of seeds.

use vstd::prelude::*;
use vstd::arithmetic::power2::lemma2_to64;
use crate::sequence_spec::{fib, is_fib_prefix, lemma_continued_fib, lemma_fib_upper_bound, lemma_fib_monotone};
use crate::fibonacci::FibonacciSequence;

verus! {

/// How far the mean of F(i) and F(i+1), rounded down, lies from `root`.
pub open spec fn arm_pair_gap(i: nat, root: int) -> int {
    let mean = (fib(i) + fib(i + 1)) / 2;
    if mean >= root {
        mean - root
    } else {
        root - mean
    }
}

/// The distance between two integers.
pub open spec fn distance(a: int, b: int) -> int {
    if a >= b {
        a - b
    } else {
        b - a
    }
}

/// Among the pairs (F(j), F(j+1)) for 3 <= j < 29, the pair at index i has
/// the smallest gap to `root`, and no pair before it has a gap as small.
pub open spec fn is_nearest_arm_pair(i: nat, root: int) -> bool {
    &&& 3 <= i < 29
    &&& forall|j: nat| 3 <= j < 29 ==> arm_pair_gap(i, root) <= #[trigger] arm_pair_gap(j, root)
    &&& forall|j: nat| 3 <= j < i ==> arm_pair_gap(i, root) < #[trigger] arm_pair_gap(j, root)
}

/// The nearest arm pair is nearest by the mean of both of its counts: for
/// the pair (F(i), F(i+1)) that `spiral_count_for_root` picks, the distance
/// from (F(i) + F(i+1)) / 2 to the root is at most that of every other pair
/// (F(j), F(j+1)) with 3 <= j < 29, and strictly less than that of every
/// earlier pair.
pub proof fn law_nearest_arm_pair_minimises_mean_distance(i: nat, root: int)
    requires
        is_nearest_arm_pair(i, root),
    ensures
        3 <= i < 29,
        forall|j: nat|
            #![trigger fib(j)]
            3 <= j < 29 ==> distance(((fib(i) + fib(i + 1)) / 2) as int, root) <= distance(
                ((fib(j) + fib(j + 1)) / 2) as int,
                root,
            ),
        forall|j: nat|
            #![trigger fib(j)]
            3 <= j < i ==> distance(((fib(i) + fib(i + 1)) / 2) as int, root) < distance(
                ((fib(j) + fib(j + 1)) / 2) as int,
                root,
            ),
{
    assert forall|j: nat| #![trigger fib(j)] 3 <= j < 29 implies distance(
        ((fib(i) + fib(i + 1)) / 2) as int,
        root,
    ) <= distance(((fib(j) + fib(j + 1)) / 2) as int, root) by {
        assert(arm_pair_gap(i, root) <= arm_pair_gap(j, root));
    }
    assert forall|j: nat| #![trigger fib(j)] 3 <= j < i implies distance(
        ((fib(i) + fib(i + 1)) / 2) as int,
        root,
    ) < distance(((fib(j) + fib(j + 1)) / 2) as int, root) by {
        assert(arm_pair_gap(i, root) < arm_pair_gap(j, root));
    }
}

/// The (clockwise, counterclockwise) spiral arm counts for a pattern whose
/// seed count has the square root `root` (rounded down): the consecutive
/// Fibonacci pair, from (2, 3) up to (317811, 514229), whose mean lies
/// nearest to `root`, the smaller pair on a tie.
pub fn spiral_count_for_root(root: usize) -> (r: (usize, usize))
    ensures
        exists|i: nat| #[trigger] is_nearest_arm_pair(i, root as int) && r.0 == fib(i) && r.1 == fib(i + 1),
        exists|i: nat|
            {
                &&& 3 <= i < 29
                &&& r.0 == #[trigger] fib(i)
                &&& r.1 == fib(i + 1)
                &&& forall|j: nat|
                    #![trigger fib(j)]
                    3 <= j < 29 ==> distance((r.0 + r.1) / 2, root as int) <= distance(
                        ((fib(j) + fib(j + 1)) / 2) as int,
                        root as int,
                    )
                &&& forall|j: nat|
                    #![trigger fib(j)]
                    3 <= j < i ==> distance((r.0 + r.1) / 2, root as int) < distance(
                        ((fib(j) + fib(j + 1)) / 2) as int,
                        root as int,
                    )
            },
{
    proof {
        lemma2_to64();
        lemma_fib_upper_bound(30);
        lemma_continued_fib(seq![0u64, 1u64], 30);
    }
    let mut table = FibonacciSequence::new();
    table.compute_to(30);
    let mut best: (usize, usize) = (5, 8);
    let mut best_gap: usize = usize::MAX;
    let ghost mut best_index: nat = 0;
    let mut i: usize = 3;
    while i < 29
        invariant
            3 <= i <= 29,
            is_fib_prefix(table@),
            table@.len() == 31,
            fib(30) <= 0x4000_0000,
            i == 3 ==> best_gap == usize::MAX,
            i > 3 ==> {
                &&& 3 <= best_index < i
                &&& best.0 == fib(best_index)
                &&& best.1 == fib(best_index + 1)
                &&& best_gap == arm_pair_gap(best_index, root as int)
                &&& forall|j: nat| 3 <= j < i ==> arm_pair_gap(best_index, root as int) <= #[trigger] arm_pair_gap(j, root as int)
                &&& forall|j: nat| 3 <= j < best_index ==> arm_pair_gap(best_index, root as int) < #[trigger] arm_pair_gap(j, root as int)
            },
        decreases 29 - i,
    {
        proof {
            lemma_fib_monotone(i as nat, (i + 1) as nat);
            lemma_fib_monotone((i + 1) as nat, 30);
        }
        let f1 = table.values()[i] as usize;
        let f2 = table.values()[i + 1] as usize;
        let mean = (f1 + f2) / 2;
        let gap = if mean >= root { mean - root } else { root - mean };
        assert(gap == arm_pair_gap(i as nat, root as int));
        if gap < best_gap {
            best_gap = gap;
            best = if f1 < f2 { (f1, f2) } else { (f2, f1) };
            proof {
                best_index = i as nat;
            }
        }
        proof {
            if i == 3 {
                assert(fib(3) == fib(2) + fib(1));
                assert(fib(2) == fib(1) + fib(0));
                assert(gap < usize::MAX);
            }
        }
        i += 1;
    }
    assert(is_nearest_arm_pair(best_index, root as int));
    proof {
        law_nearest_arm_pair_minimises_mean_distance(best_index, root as int);
    }
    best
}

} // verus!
