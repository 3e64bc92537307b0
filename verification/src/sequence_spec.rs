//! The mathematics behind the library: the Fibonacci and Lucas numbers as
//! spec functions, and the facts about them that the executable code and the
//! public laws rest on.

use vstd::prelude::*;
use vstd::arithmetic::power2::{pow2, lemma_pow2_unfold, lemma_pow2_strictly_increases, lemma2_to64};

verus! {

/// The Fibonacci numbers: F(0) = 0, F(1) = 1, F(n) = F(n-1) + F(n-2).
pub open spec fn fib(n: nat) -> nat
    decreases n,
{
    if n == 0 {
        0
    } else if n == 1 {
        1
    } else {
        fib((n - 1) as nat) + fib((n - 2) as nat)
    }
}

/// The Lucas numbers: L(0) = 2, L(1) = 1, L(n) = L(n-1) + L(n-2).
pub open spec fn lucas(n: nat) -> nat
    decreases n,
{
    if n == 0 {
        2
    } else if n == 1 {
        1
    } else {
        lucas((n - 1) as nat) + lucas((n - 2) as nat)
    }
}

/// `n` is a Fibonacci number.
pub open spec fn is_fib(n: int) -> bool {
    exists|k: nat| #[trigger] fib(k) == n
}

/// F(0) + F(1) + ... + F(n).
pub open spec fn fib_sum(n: nat) -> nat
    decreases n,
{
    if n == 0 {
        fib(0)
    } else {
        fib_sum((n - 1) as nat) + fib(n)
    }
}

/// The square of `m`.
pub open spec fn square(m: int) -> int {
    m * m
}

/// `x` is the square of a natural number.
pub open spec fn is_square(x: int) -> bool {
    exists|m: nat| #[trigger] square(m as int) == x
}

/// The value at index `i` of the sequence that starts with the stored
/// values `s` and goes on by the additive recurrence x(i) = x(i-1) + x(i-2).
/// Where `s` holds fewer than two values the recurrence has nothing to start
/// from, and the value past the stored ones is taken as 0.
pub open spec fn continued(s: Seq<u64>, i: nat) -> int
    decreases i,
{
    if i < s.len() {
        s[i as int] as int
    } else if i < 2 {
        0
    } else {
        continued(s, (i - 1) as nat) + continued(s, (i - 2) as nat)
    }
}

/// `s` holds F(0), F(1), ..., and at least the first two of them.
pub open spec fn is_fib_prefix(s: Seq<u64>) -> bool {
    &&& s.len() >= 2
    &&& forall|i: int| 0 <= i < s.len() ==> s[i] == fib(i as nat)
}

/// `s` holds L(0), L(1), ..., and at least the first two of them.
pub open spec fn is_lucas_prefix(s: Seq<u64>) -> bool {
    &&& s.len() >= 2
    &&& forall|i: int| 0 <= i < s.len() ==> s[i] == lucas(i as nat)
}

// ─── Growth of the Fibonacci numbers ─────────────────────────────────────

/// F(n) <= F(n+1).
pub proof fn lemma_fib_step(n: nat)
    ensures
        fib(n) <= fib(n + 1),
{
    if n > 0 {
        assert(fib(n + 1) == fib(n) + fib((n - 1) as nat));
    }
}

/// The Fibonacci numbers never decrease.
pub proof fn lemma_fib_monotone(i: nat, j: nat)
    requires
        i <= j,
    ensures
        fib(i) <= fib(j),
    decreases j - i,
{
    if i < j {
        lemma_fib_step((j - 1) as nat);
        lemma_fib_monotone(i, (j - 1) as nat);
    }
}

/// From index 2 on, the Fibonacci numbers strictly increase.
pub proof fn lemma_fib_strictly_increases(i: nat, j: nat)
    requires
        2 <= i < j,
    ensures
        fib(i) < fib(j),
{
    lemma_fib_monotone(1, (i - 1) as nat);
    assert(fib(1) == 1);
    assert(fib(i + 1) == fib(i) + fib((i - 1) as nat));
    lemma_fib_monotone(i + 1, j);
}

/// F(n) >= 1 for n >= 1.
pub proof fn lemma_fib_positive(n: nat)
    requires
        n >= 1,
    ensures
        fib(n) >= 1,
{
    assert(fib(1) == 1);
    lemma_fib_monotone(1, n);
}

/// F(k) >= 2^((k-1)/2) for k >= 1: the Fibonacci numbers at least double
/// every two steps.
pub proof fn lemma_fib_lower_bound(k: nat)
    requires
        k >= 1,
    ensures
        pow2(((k - 1) / 2) as nat) <= fib(k),
    decreases k,
{
    if k <= 2 {
        lemma2_to64();
        assert(fib(1) == 1);
        assert(fib(2) == fib(1) + fib(0));
    } else {
        lemma_fib_lower_bound((k - 2) as nat);
        lemma_fib_monotone((k - 2) as nat, (k - 1) as nat);
        assert(((k - 1) / 2) as nat == (((k - 3) / 2) + 1) as nat);
        lemma_pow2_unfold(((k - 1) / 2) as nat);
    }
}

/// F(k) <= 2^k.
pub proof fn lemma_fib_upper_bound(k: nat)
    ensures
        fib(k) <= pow2(k),
    decreases k,
{
    lemma2_to64();
    if k >= 2 {
        lemma_fib_upper_bound((k - 1) as nat);
        lemma_fib_upper_bound((k - 2) as nat);
        lemma_pow2_unfold(k);
        lemma_pow2_strictly_increases((k - 2) as nat, (k - 1) as nat);
    }
}

/// An index whose Fibonacci number fits in a `u64` is at most 128.
pub proof fn lemma_fib_index_bound(k: nat)
    requires
        fib(k) <= u64::MAX,
    ensures
        k <= 128,
{
    if k > 128 {
        lemma_fib_lower_bound(k);
        lemma2_to64();
        lemma_pow2_strictly_increases(64, ((k - 1) / 2) as nat);
    }
}

// ─── The continued sequence ───────────────────────────────────────────────

/// The continued sequence of natural numbers holds no negative value.
pub proof fn lemma_continued_nonnegative(s: Seq<u64>, i: nat)
    ensures
        continued(s, i) >= 0,
    decreases i,
{
    if i >= s.len() && i >= 2 {
        lemma_continued_nonnegative(s, (i - 1) as nat);
        lemma_continued_nonnegative(s, (i - 2) as nat);
    }
}

/// From the last stored value on, the continued sequence never decreases.
pub proof fn lemma_continued_monotone(s: Seq<u64>, i: nat, j: nat)
    requires
        s.len() >= 2,
        s.len() <= i + 1,
        i <= j,
    ensures
        continued(s, i) <= continued(s, j),
    decreases j - i,
{
    if i < j {
        lemma_continued_monotone(s, i, (j - 1) as nat);
        lemma_continued_nonnegative(s, (j - 2) as nat);
    }
}

/// The continued sequence keeps the stored values and, past them, follows
/// the additive recurrence x(i) = x(i-1) + x(i-2).
pub proof fn law_continued_recurrence(s: Seq<u64>, i: nat)
    requires
        s.len() >= 2,
    ensures
        i < s.len() ==> continued(s, i) == s[i as int],
        i >= s.len() ==> continued(s, i) == continued(s, (i - 1) as nat) + continued(
            s,
            (i - 2) as nat,
        ),
{
}

/// Continuing a prefix of the Fibonacci numbers gives the Fibonacci numbers.
pub proof fn lemma_continued_fib(s: Seq<u64>, i: nat)
    requires
        is_fib_prefix(s),
    ensures
        continued(s, i) == fib(i),
    decreases i,
{
    if i >= s.len() {
        lemma_continued_fib(s, (i - 1) as nat);
        lemma_continued_fib(s, (i - 2) as nat);
    }
}

/// Continuing a prefix of the Lucas numbers gives the Lucas numbers.
pub proof fn lemma_continued_lucas(s: Seq<u64>, i: nat)
    requires
        is_lucas_prefix(s),
    ensures
        continued(s, i) == lucas(i),
    decreases i,
{
    if i >= s.len() {
        lemma_continued_lucas(s, (i - 1) as nat);
        lemma_continued_lucas(s, (i - 2) as nat);
    }
}


// ─── Identities ──────────────────────────────────────────────────────────

/// The sum formula: F(0) + F(1) + ... + F(n) = F(n+2) - 1.
pub proof fn lemma_fib_sum(n: nat)
    ensures
        fib_sum(n) + 1 == fib(n + 2),
    decreases n,
{
    assert(fib(1) == 1);
    assert(fib(2) == fib(1) + fib(0));
    if n > 0 {
        lemma_fib_sum((n - 1) as nat);
        assert(fib(n + 2) == fib(n + 1) + fib(n));
    }
}

/// 2 F(k+1) = L(k) + F(k) and 2 L(k+1) = L(k) + 5 F(k).
pub proof fn lemma_fib_lucas_step(k: nat)
    ensures
        2 * fib(k + 1) == lucas(k) + fib(k),
        2 * lucas(k + 1) == lucas(k) + 5 * fib(k),
    decreases k,
{
    assert(fib(1) == 1);
    assert(lucas(1) == 1);
    assert(fib(2) == fib(1) + fib(0));
    assert(lucas(2) == lucas(1) + lucas(0));
    if k >= 2 {
        lemma_fib_lucas_step((k - 1) as nat);
        lemma_fib_lucas_step((k - 2) as nat);
        assert(fib(k + 1) == fib(k) + fib((k - 1) as nat));
        assert(lucas(k + 1) == lucas(k) + lucas((k - 1) as nat));
    }
}

/// The Lucas identity: L(n) = F(n-1) + F(n+1) for n >= 1.
pub proof fn lemma_lucas_identity(n: nat)
    requires
        n >= 1,
    ensures
        lucas(n) == fib((n - 1) as nat) + fib(n + 1),
    decreases n,
{
    assert(fib(1) == 1);
    assert(lucas(1) == 1);
    assert(fib(2) == fib(1) + fib(0));
    assert(fib(3) == fib(2) + fib(1));
    assert(lucas(2) == lucas(1) + lucas(0));
    if n >= 3 {
        lemma_lucas_identity((n - 1) as nat);
        lemma_lucas_identity((n - 2) as nat);
        assert(fib(n + 1) == fib(n) + fib((n - 1) as nat));
        assert(fib((n - 1) as nat) == fib((n - 2) as nat) + fib((n - 3) as nat));
    }
}

proof fn lemma_square_step_algebra(l: int, f: int, l1: int, f1: int, c: int)
    by (nonlinear_arith)
    requires
        2 * f1 == l + f,
        2 * l1 == l + 5 * f,
        l * l - 5 * (f * f) == c,
    ensures
        l1 * l1 - 5 * (f1 * f1) == -c,
{
    assert(4 * (l1 * l1) == (l + 5 * f) * (l + 5 * f));
    assert(4 * (f1 * f1) == (l + f) * (l + f));
}

/// L(k)^2 - 5 F(k)^2 = 4 (-1)^k.
pub proof fn lemma_lucas_fib_squares(k: nat)
    ensures
        square(lucas(k) as int) - 5 * square(fib(k) as int) == (if k % 2 == 0 { 4int } else { -4int }),
    decreases k,
{
    if k > 0 {
        lemma_lucas_fib_squares((k - 1) as nat);
        lemma_fib_lucas_step((k - 1) as nat);
        let c: int = if (k - 1) as nat % 2 == 0 { 4int } else { -4int };
        lemma_square_step_algebra(
            lucas((k - 1) as nat) as int,
            fib((k - 1) as nat) as int,
            lucas(k) as int,
            fib(k) as int,
            c,
        );
        assert(k % 2 == 0 <==> (k - 1) as nat % 2 == 1);
    } else {
        assert(lucas(0) == 2 && fib(0) == 0);
        assert(square(2) == 4);
    }
}


// ─── The perfect-square characterisation ─────────────────────────────────

proof fn lemma_descent_bounds(m: int, n: int, c: int)
    by (nonlinear_arith)
    requires
        n >= 2,
        m >= 0,
        c == 4 || c == -4,
        m * m == 5 * (n * n) + c,
    ensures
        n <= m,
        m < 3 * n,
{
    if m < n {
        assert(m * m < n * n);
    }
    if m >= 3 * n {
        assert(m * m >= (3 * n) * (3 * n));
    }
}

proof fn lemma_descent_parity(m: int, n: int, c: int)
    requires
        n >= 2,
        n <= m,
        c == 4 || c == -4,
        m * m == 5 * (n * n) + c,
    ensures
        (m - n) % 2 == 0,
{
    let d = m - n;
    if d % 2 == 1 {
        let e = d / 2;
        assert(d == 2 * e + 1);
        assert(m * m - n * n == d * (d + 2 * n)) by (nonlinear_arith)
            requires
                d == m - n,
        ;
        assert(d * (d + 2 * n) == 2 * (2 * e * e + 2 * e + 2 * e * n + n) + 1) by (nonlinear_arith)
            requires
                d == 2 * e + 1,
        ;
        assert(false);
    }
}

proof fn lemma_descent_step_algebra(m: int, n: int, m2: int, n2: int, c: int)
    by (nonlinear_arith)
    requires
        2 * n2 == m - n,
        2 * m2 == 5 * n - m,
        m * m == 5 * (n * n) + c,
    ensures
        m2 * m2 == 5 * (n2 * n2) - c,
{
    assert(4 * (m2 * m2) == (5 * n - m) * (5 * n - m));
    assert(4 * (n2 * n2) == (m - n) * (m - n));
}

proof fn lemma_square_gives_fib_small(m: nat, n: nat, c: int)
    requires
        n <= 1,
        c == 4 || c == -4,
        m * m == 5 * (n * n) + c,
    ensures
        exists|k: nat| fib(k) == n && lucas(k) == m,
{
    assert(fib(1) == 1 && lucas(1) == 1);
    assert(fib(2) == fib(1) + fib(0));
    assert(lucas(2) == lucas(1) + lucas(0));
    if n == 0 {
        assert(m == 2) by (nonlinear_arith)
            requires
                n == 0,
                m * m == 5 * (n * n) + c,
                c == 4 || c == -4,
        ;
        assert(fib(0) == n && lucas(0) == m);
    } else if c == 4 {
        assert(m == 3) by (nonlinear_arith)
            requires
                n == 1,
                m * m == 5 * (n * n) + c,
                c == 4,
        ;
        assert(fib(2) == n && lucas(2) == m);
    } else {
        assert(m == 1) by (nonlinear_arith)
            requires
                n == 1,
                m * m == 5 * (n * n) + c,
                c == -4,
        ;
        assert(fib(1) == n && lucas(1) == m);
    }
}

/// If m^2 = 5 n^2 + 4 or m^2 = 5 n^2 - 4, then n and m are a Fibonacci
/// number and the Lucas number of the same index.
pub proof fn lemma_square_gives_fib(m: nat, n: nat, c: int)
    requires
        c == 4 || c == -4,
        m * m == 5 * (n * n) + c,
    ensures
        exists|k: nat| fib(k) == n && lucas(k) == m,
    decreases n,
{
    if n <= 1 {
        lemma_square_gives_fib_small(m, n, c);
    } else {
        lemma_descent_bounds(m as int, n as int, c);
        lemma_descent_parity(m as int, n as int, c);
        let n2: nat = ((m - n) / 2) as nat;
        let m2: nat = ((5 * n - m) / 2) as nat;
        assert(2 * n2 == m - n && 2 * m2 == 5 * n - m);
        lemma_descent_step_algebra(m as int, n as int, m2 as int, n2 as int, c);
        assert(n2 < n);
        lemma_square_gives_fib(m2, n2, -c);
        let k2 = choose|k: nat| fib(k) == n2 && lucas(k) == m2;
        lemma_fib_lucas_step(k2);
        assert(fib(k2 + 1) == n && lucas(k2 + 1) == m);
    }
}

/// The perfect-square test: n is a Fibonacci number if and only if n <= 1,
/// or one of 5 n^2 + 4 and 5 n^2 - 4 is a perfect square.
pub proof fn lemma_fib_iff_square(n: nat)
    ensures
        is_fib(n as int) <==> (n <= 1 || is_square(5 * square(n as int) + 4) || is_square(
            5 * square(n as int) - 4,
        )),
{
    assert(fib(1) == 1);
    if n <= 1 {
        assert(fib(n) == n);
    }
    if is_fib(n as int) {
        let k = choose|k: nat| fib(k) == n;
        lemma_lucas_fib_squares(k);
        if k % 2 == 0 {
            assert(square(lucas(k) as int) == 5 * square(n as int) + 4);
        } else {
            assert(square(lucas(k) as int) == 5 * square(n as int) - 4);
        }
    }
    if is_square(5 * square(n as int) + 4) {
        let m = choose|m: nat| square(m as int) == 5 * square(n as int) + 4;
        assert(m * m == 5 * (n * n) + 4);
        lemma_square_gives_fib(m, n, 4);
    }
    if is_square(5 * square(n as int) - 4) {
        let m = choose|m: nat| square(m as int) == 5 * square(n as int) - 4;
        assert(m * m == 5 * (n * n) - 4);
        lemma_square_gives_fib(m, n, -4);
    }
}

} // verus!
