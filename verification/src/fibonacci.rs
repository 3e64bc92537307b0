//! `FibonacciSequence`: a growable table of Fibonacci numbers, with
//! membership, index lookup, prefix sums and Zeckendorf representations.

use vstd::prelude::*;
use crate::sequence_spec::{
    fib, fib_sum, is_fib, square, is_square, continued, is_fib_prefix, lemma_fib_monotone,
    lemma_fib_strictly_increases,
    lemma_fib_index_bound, lemma_fib_sum, lemma_fib_iff_square, lemma_continued_fib,
    lemma_continued_monotone, lemma_continued_nonnegative,
};
use crate::squares::is_square_five_n_squared;
use crate::zeckendorf_spec::{
    index_fib_sum, is_zeckendorf, lemma_index_fib_sum_prepend, lemma_zeckendorf_unique,
};

verus! {

/// What `at(n)` returns: the stored value where there is one, F(n) past the
/// stored values.
pub open spec fn stored_or_fib(s: Seq<u64>, n: nat) -> int {
    if n < s.len() {
        s[n as int] as int
    } else {
        fib(n) as int
    }
}

/// The golden sequence — classic Fibonacci numbers, kept in a table that
/// grows on demand.
#[derive(Debug, Clone)]
pub struct FibonacciSequence {
    values: Vec<u64>,
    computed_to: usize,
}

impl View for FibonacciSequence {
    type V = Seq<u64>;

    /// The stored values.
    closed spec fn view(&self) -> Seq<u64> {
        self.values@
    }
}

impl FibonacciSequence {
    /// The largest index that `compute_to` was asked for.
    pub closed spec fn computed_index(&self) -> usize {
        self.computed_to
    }

    /// Start with [0, 1].
    pub fn new() -> (r: Self)
        ensures
            r@ == seq![0u64, 1u64],
            r.computed_index() == 1,
            is_fib_prefix(r@),
    {
        let r = Self { values: vec![0, 1], computed_to: 1 };
        assert(fib(1) == 1);
        r
    }

    /// A sequence with the given stored values and computed index, as they
    /// were saved.
    pub fn from_parts(values: Vec<u64>, computed_to: usize) -> (r: Self)
        ensures
            r@ == values@,
            r.computed_index() == computed_to,
    {
        Self { values, computed_to }
    }

    /// The stored values.
    pub fn values(&self) -> (r: &Vec<u64>)
        ensures
            r@ == self@,
    {
        &self.values
    }

    /// The largest index that `compute_to` was asked for.
    pub fn computed_to(&self) -> (r: usize)
        ensures
            r == self.computed_index(),
    {
        self.computed_to
    }

    /// Compute up to the n-th Fibonacci number (index n): the stored values
    /// are continued by the recurrence until index n is stored.
    pub fn compute_to(&mut self, n: usize)
        requires
            n < old(self)@.len() || (old(self)@.len() >= 2 && n < usize::MAX && continued(
                old(self)@,
                n as nat,
            ) <= u64::MAX),
        ensures
            final(self)@.len() == if n < old(self)@.len() {
                old(self)@.len() as int
            } else {
                n + 1
            },
            forall|i: int|
                0 <= i < final(self)@.len() ==> final(self)@[i] == continued(old(self)@, i as nat),
            forall|i: int| 0 <= i < old(self)@.len() ==> final(self)@[i] == old(self)@[i],
            final(self).computed_index() == if old(self).computed_index() < n {
                n
            } else {
                old(self).computed_index()
            },
            is_fib_prefix(old(self)@) ==> is_fib_prefix(final(self)@),
    {
        let ghost start = self.values@;
        let ghost start_computed_to = self.computed_to;
        while self.values.len() <= n
            invariant
                self.computed_to == start_computed_to,
                start.len() <= self.values@.len(),
                self.values@.len() == start.len() || self.values@.len() <= n + 1,
                self.values@.len() <= n ==> (start.len() >= 2 && n < usize::MAX && continued(
                    start,
                    n as nat,
                ) <= u64::MAX),
                forall|i: int|
                    0 <= i < self.values@.len() ==> self.values@[i] == continued(start, i as nat),
            decreases n + 1 - self.values@.len(),
        {
            let len = self.values.len();
            proof {
                lemma_continued_monotone(start, len as nat, n as nat);
                lemma_continued_nonnegative(start, (len - 1) as nat);
                lemma_continued_nonnegative(start, (len - 2) as nat);
                assert(continued(start, len as nat) == continued(start, (len - 1) as nat)
                    + continued(start, (len - 2) as nat));
            }
            let next = self.values[len - 1] + self.values[len - 2];
            self.values.push(next);
        }
        if self.computed_to < n {
            self.computed_to = n;
        }
        proof {
            if is_fib_prefix(start) {
                assert forall|i: int| 0 <= i < self.values@.len() implies self.values@[i] == fib(
                    i as nat,
                ) by {
                    lemma_continued_fib(start, i as nat);
                }
            }
        }
    }

    /// Return F(n): the stored value where there is one, otherwise F(n)
    /// computed in a fresh table.
    pub fn at(&self, n: usize) -> (r: u64)
        requires
            n < self@.len() || fib(n as nat) <= u64::MAX,
        ensures
            r == stored_or_fib(self@, n as nat),
            n < self@.len() ==> r == self@[n as int],
            n >= self@.len() ==> r == fib(n as nat),
    {
        if n < self.values.len() {
            self.values[n]
        } else {
            let mut table = FibonacciSequence::new();
            proof {
                lemma_continued_fib(table@, n as nat);
                lemma_fib_index_bound(n as nat);
            }
            table.compute_to(n);
            proof {
                lemma_continued_fib(seq![0u64, 1u64], n as nat);
            }
            table.values[n]
        }
    }

    /// Check if n is a Fibonacci number: n is one iff n <= 1 or one of
    /// 5n²+4 and 5n²-4 is a perfect square.
    pub fn is_fibonacci(&self, n: u64) -> (r: bool)
        ensures
            r == is_fib(n as int),
            r == (n <= 1 || is_square(5 * square(n as int) + 4) || is_square(
                5 * square(n as int) - 4,
            )),
    {
        proof {
            lemma_fib_iff_square(n as nat);
        }
        if n <= 1 {
            return true;
        }
        is_square_five_n_squared(n, true) || is_square_five_n_squared(n, false)
    }

    /// Which Fibonacci index is n? The smallest k with F(k) = n, or `None`
    /// where n is no Fibonacci number.
    pub fn index_of(&self, n: u64) -> (r: Option<usize>)
        ensures
            match r {
                Some(k) => fib(k as nat) == n && forall|j: nat| j < k ==> #[trigger] fib(j) != n,
                None => !is_fib(n as int),
            },
    {
        if !self.is_fibonacci(n) {
            return None;
        }
        let ghost k0 = choose|k: nat| fib(k) == n;
        proof {
            lemma_fib_index_bound(k0);
        }
        let mut table = FibonacciSequence::new();
        let mut idx: usize = 0;
        loop
            invariant
                fib(k0) == n,
                k0 <= 128,
                idx <= k0,
                is_fib_prefix(table@),
                forall|j: nat| j < idx ==> #[trigger] fib(j) < n,
            decreases k0 - idx,
        {
            proof {
                lemma_fib_monotone(idx as nat, k0);
                lemma_continued_fib(table@, idx as nat);
            }
            table.compute_to(idx);
            if table.values[idx] == n {
                return Some(idx);
            }
            if table.values[idx] > n {
                return None;
            }
            idx += 1;
        }
    }

    /// Σ F(i) for i = 0..=n, which is F(n+2) - 1.
    pub fn sum_to(&self, n: usize) -> (r: u64)
        requires
            fib((n + 2) as nat) <= u64::MAX,
        ensures
            r == fib_sum(n as nat),
            r + 1 == fib((n + 2) as nat),
    {
        proof {
            lemma_fib_index_bound((n + 2) as nat);
        }
        let mut table = FibonacciSequence::new();
        proof {
            lemma_continued_fib(table@, (n + 2) as nat);
        }
        table.compute_to(n + 2);
        let mut total: u64 = 0;
        let mut i: usize = 0;
        while i <= n
            invariant
                i <= n + 1,
                n <= 126,
                is_fib_prefix(table@),
                table@.len() == n + 3,
                fib((n + 2) as nat) <= u64::MAX,
                i == 0 ==> total == 0,
                i > 0 ==> total == fib_sum((i - 1) as nat),
            decreases n + 1 - i,
        {
            proof {
                lemma_fib_sum(i as nat);
                lemma_fib_monotone((i + 2) as nat, (n + 2) as nat);
            }
            total = total + table.values[i];
            i += 1;
        }
        proof {
            lemma_fib_sum(n as nat);
        }
        total
    }

    /// Zeckendorf representation — the indices, in increasing order, of
    /// non-consecutive Fibonacci numbers (from F(2) on) that sum to n; [0]
    /// for n = 0. The greedy choice from the largest Fibonacci number down
    /// gives the one such list there is.
    pub fn zeckendorf(&self, n: u64) -> (r: Vec<usize>)
        ensures
            n == 0 ==> r@ == seq![0usize],
            n > 0 ==> is_zeckendorf(r@) && index_fib_sum(r@) == n,
            n > 0 ==> r@.len() > 0 && forall|k: int| 0 <= k < r@.len() ==> #[trigger] r@[k] >= 2,
            n > 0 ==> forall|k: int| 0 <= k < r@.len() - 1 ==> #[trigger] r@[k] + 2 <= r@[k + 1],
            n > 0 ==> forall|s: Seq<usize>|
                is_zeckendorf(s) && #[trigger] index_fib_sum(s) == n ==> s == r@,
    {
        if n == 0 {
            return vec![0];
        }
        proof {
            assert(fib(1) == 1);
            assert(fib(2) == fib(1) + fib(0));
            assert(fib(3) == fib(2) + fib(1));
            lemma_continued_fib(seq![0u64, 1u64], 2);
        }
        let mut table = FibonacciSequence::new();
        table.compute_to(2);
        // Extend the table until its last value exceeds n, or until the next
        // value would not fit in a u64 (it then exceeds n all the more).
        loop
            invariant
                is_fib_prefix(table@),
                3 <= table@.len() <= 129,
            ensures
                is_fib_prefix(table@),
                3 <= table@.len() <= 129,
                n < fib(table@.len() as nat),
            decreases 129 - table@.len(),
        {
            let len = table.values.len();
            if table.values[len - 1] > n {
                proof {
                    lemma_fib_monotone((len - 1) as nat, len as nat);
                }
                break;
            }
            assert(fib(len as nat) == fib((len - 1) as nat) + fib((len - 2) as nat));
            match table.values[len - 1].checked_add(table.values[len - 2]) {
                None => {
                    break;
                },
                Some(_) => {
                    proof {
                        lemma_fib_index_bound(len as nat);
                        lemma_continued_fib(table@, len as nat);
                    }
                    table.compute_to(len);
                },
            }
        }
        let ghost top: nat = (table@.len() - 1) as nat;
        let mut rest: u64 = n;
        let mut indices: Vec<usize> = Vec::new();
        let mut i: usize = table.values.len();
        while i > 2
            invariant
                is_fib_prefix(table@),
                table@.len() == top + 1,
                fib(2) == 1,
                2 <= i <= top + 1,
                rest < fib(i as nat),
                n == rest + index_fib_sum(indices@),
                is_zeckendorf(indices@),
                indices@.len() > 0 ==> i <= indices@[0] && rest < fib((indices@[0] - 1) as nat),
            ensures
                rest == 0,
                n == index_fib_sum(indices@),
                is_zeckendorf(indices@),
            decreases i,
        {
            i -= 1;
            if table.values[i] <= rest {
                proof {
                    assert(fib((i + 1) as nat) == fib(i as nat) + fib((i - 1) as nat));
                    lemma_fib_monotone((i - 1) as nat, i as nat);
                    if indices@.len() > 0 {
                        if i + 2 > indices@[0] {
                            lemma_fib_monotone((indices@[0] - 1) as nat, i as nat);
                        }
                    }
                    lemma_index_fib_sum_prepend(i, indices@);
                    let new_indices = seq![i] + indices@;
                    assert forall|a: int, b: int|
                        0 <= a < b < new_indices.len() implies #[trigger] new_indices[a] + 2
                        <= #[trigger] new_indices[b] by {
                        if a > 0 {
                            assert(new_indices[a] == indices@[a - 1]);
                            assert(new_indices[b] == indices@[b - 1]);
                        } else if b > 1 {
                            assert(indices@[0] + 2 <= indices@[b - 1]);
                        }
                    }
                    assert forall|a: int| 0 <= a < new_indices.len() implies #[trigger] new_indices[a]
                        >= 2 by {
                        if a > 0 {
                            assert(new_indices[a] == indices@[a - 1]);
                        }
                    }
                }
                let ghost before = indices@;
                indices.insert(0, i);
                assert(indices@ =~= seq![i] + before);
                rest = rest - table.values[i];
                if rest == 0 {
                    break;
                }
            }
        }
        proof {
            if indices@.len() == 0 {
                assert(index_fib_sum(indices@) == 0);
            }
            assert forall|k: int| 0 <= k < indices@.len() - 1 implies #[trigger] indices@[k] + 2
                <= indices@[k + 1] by {
                assert(indices@[k] + 2 <= indices@[k + 1]);
            }
            assert forall|s: Seq<usize>|
                is_zeckendorf(s) && #[trigger] index_fib_sum(s) == n implies s == indices@ by {
                lemma_zeckendorf_unique(s, indices@);
            }
        }
        indices
    }
}

/// A table that holds Fibonacci numbers answers every query with the
/// Fibonacci number: `at(n)` is F(n) whether index n is stored or not.
pub proof fn law_table_gives_fib(table: FibonacciSequence, n: nat)
    requires
        is_fib_prefix(table@),
    ensures
        stored_or_fib(table@, n) == fib(n),
{
}

/// The recurrence (Theorem 2) as the table answers it: for n >= 2,
/// at(n) = at(n-1) + at(n-2).
pub proof fn law_table_recurrence(table: FibonacciSequence, n: nat)
    requires
        is_fib_prefix(table@),
        n >= 2,
    ensures
        stored_or_fib(table@, n) == stored_or_fib(table@, (n - 1) as nat) + stored_or_fib(
            table@,
            (n - 2) as nat,
        ),
{
}

/// `index_of` undoes `at` wherever the Fibonacci number is not repeated:
/// for every k other than 2 (F(1) = F(2) = 1), k is the first index with
/// F(k), so `index_of(F(k))` gives k back.
pub proof fn law_index_of_inverts_fib(k: nat)
    requires
        k != 2,
    ensures
        forall|j: nat| j < k ==> #[trigger] fib(j) != fib(k),
{
    assert(fib(1) == 1);
    assert(fib(2) == fib(1) + fib(0));
    assert(fib(3) == fib(2) + fib(1));
    assert forall|j: nat| j < k implies #[trigger] fib(j) != fib(k) by {
        if k >= 3 {
            if j >= 2 {
                lemma_fib_strictly_increases(j, k);
            } else {
                lemma_fib_monotone(3, k);
            }
        }
    }
}

/// Does F(n) fit in a `u64`? This is what `at`, `compute_to` and `sum_to`
/// need of an index past the stored values.
pub fn fib_fits_u64(n: usize) -> (r: bool)
    ensures
        r == (fib(n as nat) <= u64::MAX),
{
    let mut a: u64 = 0;
    let mut b: u64 = 1;
    let mut k: usize = 0;
    assert(fib(1) == 1);
    while k < n
        invariant
            k <= n,
            a == fib(k as nat),
            b == fib((k + 1) as nat),
        decreases n - k,
    {
        if k + 1 == n {
            return true;
        }
        match a.checked_add(b) {
            Some(c) => {
                assert(fib((k + 2) as nat) == fib((k + 1) as nat) + fib(k as nat));
                a = b;
                b = c;
                k += 1;
            },
            None => {
                proof {
                    assert(fib((k + 2) as nat) == fib((k + 1) as nat) + fib(k as nat));
                    lemma_fib_monotone((k + 2) as nat, n as nat);
                }
                return false;
            },
        }
    }
    true
}

impl Default for FibonacciSequence {
    fn default() -> (r: Self)
        ensures
            r@ == seq![0u64, 1u64],
            r.computed_index() == 1,
    {
        Self::new()
    }
}

} // verus!
