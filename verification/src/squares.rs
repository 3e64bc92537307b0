//! Exact perfect-square tests on 5 n^2 + 4 and 5 n^2 - 4 for a `u64` n.
//!
//! 5 n^2 + 4 does not fit in a `u128` for the largest `u64` values, so the
//! test works with m = 2n + d instead of m itself: m^2 = 5 n^2 +- 4 exactly
//! when d (d + 4n) = n^2 +- 4, and both sides of that equation stay below
//! 2^128 wherever the search has to compare them.

use vstd::prelude::*;
use crate::sequence_spec::{square, is_square};

verus! {

/// d (d + 4n): the square of 2n + d, less 4 n^2.
pub open spec fn shifted_square(d: int, n: int) -> int {
    d * (d + 4 * n)
}

proof fn lemma_shifted_square_increases(d1: nat, d2: nat, n: nat)
    by (nonlinear_arith)
    requires
        d1 < d2,
    ensures
        shifted_square(d1 as int, n as int) < shifted_square(d2 as int, n as int),
{
    assert(d1 * (d1 + 4 * n) <= d1 * (d2 + 4 * n));
    assert(d1 * (d2 + 4 * n) < d2 * (d2 + 4 * n));
}

proof fn lemma_shifted_square_monotone(d1: nat, d2: nat, n: nat)
    requires
        d1 <= d2,
    ensures
        shifted_square(d1 as int, n as int) <= shifted_square(d2 as int, n as int),
{
    if d1 < d2 {
        lemma_shifted_square_increases(d1, d2, n);
    }
}

proof fn lemma_root_at_least_twice(m: nat, n: nat, c: int)
    by (nonlinear_arith)
    requires
        n >= 2,
        c == 4 || c == -4,
        m * m == 5 * (n * n) + c,
    ensures
        m >= 2 * n,
{
    if m < 2 * n {
        assert(m * m < (2 * n) * (2 * n));
    }
}

proof fn lemma_shift_algebra(m: int, n: int, d: int)
    by (nonlinear_arith)
    requires
        m == d + 2 * n,
    ensures
        m * m == d * (d + 4 * n) + 4 * (n * n),
{
}

/// For n >= 2, 5 n^2 + c (c = 4 or -4) is a perfect square exactly when
/// d (d + 4n) = n^2 + c for some natural d.
proof fn lemma_square_iff_shifted(n: nat, c: int)
    requires
        n >= 2,
        c == 4 || c == -4,
    ensures
        is_square(5 * square(n as int) + c) <==> exists|d: nat|
            #[trigger] shifted_square(d as int, n as int) == square(n as int) + c,
{
    if is_square(5 * square(n as int) + c) {
        let m = choose|m: nat| square(m as int) == 5 * square(n as int) + c;
        lemma_root_at_least_twice(m, n, c);
        let d = (m - 2 * n) as nat;
        lemma_shift_algebra(m as int, n as int, d as int);
        assert(shifted_square(d as int, n as int) == square(n as int) + c);
    }
    if exists|d: nat| #[trigger] shifted_square(d as int, n as int) == square(n as int) + c {
        let d = choose|d: nat| #[trigger] shifted_square(d as int, n as int) == square(n as int) + c;
        let m = d + 2 * n;
        lemma_shift_algebra(m as int, n as int, d as int);
        assert(square(m as int) == 5 * square(n as int) + c);
    }
}

proof fn lemma_shifted_square_at_n(n: nat)
    by (nonlinear_arith)
    ensures
        shifted_square(n as int, n as int) == 5 * (n * n),
{
}

/// Is 5 n^2 + 4 (when `plus`) or 5 n^2 - 4 (otherwise) a perfect square?
pub(crate) fn is_square_five_n_squared(n: u64, plus: bool) -> (r: bool)
    requires
        n >= 2,
    ensures
        r == is_square(5 * square(n as int) + (if plus { 4int } else { -4int })),
{
    let ghost c: int = if plus { 4int } else { -4int };
    let wide: u128 = n as u128;
    assert(wide * wide <= 0xffff_ffff_ffff_fffe_0000_0000_0000_0001u128) by (nonlinear_arith)
        requires
            wide <= 0xffff_ffff_ffff_ffffu128,
    ;
    assert(wide * wide >= 4) by (nonlinear_arith)
        requires
            wide >= 2,
    ;
    let nn: u128 = wide * wide;
    let target: u128 = if plus { nn + 4 } else { nn - 4 };
    let four_n: u128 = 4 * wide;
    assert(target == square(n as int) + c);
    proof {
        lemma_shifted_square_at_n(n as nat);
        assert forall|d: nat| n <= d implies #[trigger] shifted_square(d as int, n as int)
            >= target by {
            lemma_shifted_square_monotone(n as nat, d, n as nat);
        }
    }
    let mut lo: u128 = 0;
    let mut hi: u128 = wide;
    while lo < hi
        invariant
            lo <= hi <= wide,
            wide == n,
            four_n == 4 * n,
            target == square(n as int) + c,
            forall|d: nat| d < lo ==> #[trigger] shifted_square(d as int, n as int) < target,
            forall|d: nat| hi <= d ==> #[trigger] shifted_square(d as int, n as int) >= target,
        decreases hi - lo,
    {
        let mid: u128 = lo + (hi - lo) / 2;
        let below = match mid.checked_mul(mid + four_n) {
            Some(v) => v < target,
            None => false,
        };
        assert(below == (shifted_square(mid as int, n as int) < target));
        if below {
            proof {
                assert forall|d: nat| d < mid + 1 implies #[trigger] shifted_square(d as int, n as int)
                    < target by {
                    lemma_shifted_square_monotone(d, mid as nat, n as nat);
                }
            }
            lo = mid + 1;
        } else {
            proof {
                assert forall|d: nat| mid <= d implies #[trigger] shifted_square(d as int, n as int)
                    >= target by {
                    lemma_shifted_square_monotone(mid as nat, d, n as nat);
                }
            }
            hi = mid;
        }
    }
    let found = match lo.checked_mul(lo + four_n) {
        Some(v) => v == target,
        None => false,
    };
    proof {
        lemma_square_iff_shifted(n as nat, c);
        if !found {
            assert forall|d: nat| #[trigger] shifted_square(d as int, n as int) != square(
                n as int,
            ) + c by {
                if d > lo {
                    lemma_shifted_square_increases(lo as nat, d, n as nat);
                }
            }
        } else {
            assert(shifted_square(lo as int, n as int) == square(n as int) + c);
        }
    }
    found
}

} // verus!
