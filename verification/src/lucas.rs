//! `LucasSequence`: the companion sequence L(0) = 2, L(1) = 1,
//! L(n) = L(n-1) + L(n-2), kept in a table that grows on demand.

use vstd::prelude::*;
use crate::sequence_spec::{
    fib, lucas, continued, is_lucas_prefix, lemma_continued_lucas, lemma_continued_monotone,
    lemma_continued_nonnegative, lemma_fib_index_bound, lemma_fib_monotone, lemma_lucas_identity,
};
use crate::fibonacci::{FibonacciSequence, stored_or_fib};

verus! {

/// What `at(n)` returns: the stored value where there is one, L(n) past the
/// stored values.
pub open spec fn stored_or_lucas(s: Seq<u64>, n: nat) -> int {
    if n < s.len() {
        s[n as int] as int
    } else {
        lucas(n) as int
    }
}

/// The value that the Lucas identity L(n) = F(n-1) + F(n+1) puts beside
/// L(n), with F(-1) taken as 1 so that n = 0 gives 2.
pub open spec fn lucas_identity_value(n: nat) -> int {
    if n == 0 {
        2
    } else {
        (fib((n - 1) as nat) + fib(n + 1)) as int
    }
}

/// Lucas sequence — companion to Fibonacci: L(0)=2, L(1)=1, L(n)=L(n-1)+L(n-2).
#[derive(Debug, Clone)]
pub struct LucasSequence {
    pub values: Vec<u64>,
}

impl LucasSequence {
    /// Start with [2, 1].
    pub fn new() -> (r: Self)
        ensures
            r.values@ == seq![2u64, 1u64],
            is_lucas_prefix(r.values@),
    {
        let r = Self { values: vec![2, 1] };
        assert(lucas(1) == 1);
        r
    }

    /// Compute up to index n: the stored values are continued by the
    /// recurrence until index n is stored.
    pub fn compute_to(&mut self, n: usize)
        requires
            n < old(self).values@.len() || (old(self).values@.len() >= 2 && n < usize::MAX
                && continued(old(self).values@, n as nat) <= u64::MAX),
        ensures
            final(self).values@.len() == if n < old(self).values@.len() {
                old(self).values@.len() as int
            } else {
                n + 1
            },
            forall|i: int|
                0 <= i < final(self).values@.len() ==> final(self).values@[i] == continued(
                    old(self).values@,
                    i as nat,
                ),
            forall|i: int|
                0 <= i < old(self).values@.len() ==> final(self).values@[i] == old(self).values@[i],
            is_lucas_prefix(old(self).values@) ==> is_lucas_prefix(final(self).values@),
    {
        let ghost start = self.values@;
        while self.values.len() <= n
            invariant
                start.len() <= self.values@.len(),
                self.values@.len() == start.len() || self.values@.len() <= n + 1,
                self.values@.len() <= n ==> (start.len() >= 2 && n < usize::MAX && continued(
                    start,
                    n as nat,
                ) <= u64::MAX),
                forall|i: int|
                    0 <= i < self.values@.len() ==> self.values@[i] == continued(start, i as nat),
            decreases n + 1 - self.values@.len(),
        {
            let len = self.values.len();
            proof {
                lemma_continued_monotone(start, len as nat, n as nat);
                lemma_continued_nonnegative(start, (len - 1) as nat);
                lemma_continued_nonnegative(start, (len - 2) as nat);
                assert(continued(start, len as nat) == continued(start, (len - 1) as nat)
                    + continued(start, (len - 2) as nat));
            }
            let next = self.values[len - 1] + self.values[len - 2];
            self.values.push(next);
        }
        proof {
            if is_lucas_prefix(start) {
                assert forall|i: int| 0 <= i < self.values@.len() implies self.values@[i] == lucas(
                    i as nat,
                ) by {
                    lemma_continued_lucas(start, i as nat);
                }
            }
        }
    }

    /// Return L(n): the stored value where there is one, otherwise L(n)
    /// computed in a fresh table.
    pub fn at(&self, n: usize) -> (r: u64)
        requires
            n < self.values@.len() || lucas(n as nat) <= u64::MAX,
        ensures
            r == stored_or_lucas(self.values@, n as nat),
            n < self.values@.len() ==> r == self.values@[n as int],
            n >= self.values@.len() ==> r == lucas(n as nat),
    {
        if n < self.values.len() {
            self.values[n]
        } else {
            let mut table = LucasSequence::new();
            proof {
                lemma_continued_lucas(table.values@, n as nat);
                if n >= 2 {
                    lemma_lucas_identity(n as nat);
                    lemma_fib_index_bound((n + 1) as nat);
                }
            }
            table.compute_to(n);
            proof {
                lemma_continued_lucas(seq![2u64, 1u64], n as nat);
            }
            table.values[n]
        }
    }

    /// Verify the Lucas identity at n: the n-th value of this sequence
    /// equals F(n-1) + F(n+1) (2 for n = 0).
    pub fn verify_lucas_identity(&self, n: usize) -> (r: bool)
        requires
            n == 0 || lucas(n as nat) <= u64::MAX,
        ensures
            r == (stored_or_lucas(self.values@, n as nat) == lucas_identity_value(n as nat)),
            n == 0 ==> (r <==> (if 0 < self.values@.len() { self.values@[0] == 2 } else { true })),
            n > 0 && n < self.values@.len() ==> (r <==> self.values@[n as int] == fib(
                (n - 1) as nat,
            ) + fib((n + 1) as nat)),
            (n >= self.values@.len() || self.values@[n as int] == lucas(n as nat)) ==> r,
    {
        proof {
            if n >= 1 {
                lemma_lucas_identity(n as nat);
            }
            assert(lucas(0) == 2);
        }
        if n == 0 {
            return self.at(0) == 2;
        }
        let table = FibonacciSequence::new();
        proof {
            lemma_fib_monotone((n - 1) as nat, (n + 1) as nat);
            lemma_fib_index_bound((n + 1) as nat);
        }
        let f_prev = table.at(n - 1);
        let f_next = table.at(n + 1);
        proof {
            assert(f_prev == fib((n - 1) as nat)) by {
                if n - 1 < 2 {
                    assert(fib(1) == 1);
                }
            }
        }
        self.at(n) == f_prev + f_next
    }
}

/// A table that holds Lucas numbers answers every query with the Lucas
/// number, and so obeys the recurrence at(n) = at(n-1) + at(n-2) for n >= 2.
pub proof fn law_lucas_table_recurrence(table: LucasSequence, n: nat)
    requires
        is_lucas_prefix(table.values@),
        n >= 2,
    ensures
        stored_or_lucas(table.values@, n) == lucas(n),
        stored_or_lucas(table.values@, n) == stored_or_lucas(table.values@, (n - 1) as nat)
            + stored_or_lucas(table.values@, (n - 2) as nat),
{
}

/// Theorem 8, as `verify_lucas_identity` checks it: on a table that holds
/// Lucas numbers the check holds at every n, L(n) = F(n-1) + F(n+1), and
/// L(0) = 2.
pub proof fn law_lucas_identity(table: LucasSequence, n: nat)
    requires
        is_lucas_prefix(table.values@),
    ensures
        stored_or_lucas(table.values@, n) == lucas_identity_value(n),
{
    if n >= 1 {
        lemma_lucas_identity(n);
    }
}

impl Default for LucasSequence {
    fn default() -> (r: Self)
        ensures
            r.values@ == seq![2u64, 1u64],
    {
        Self::new()
    }
}

} // verus!
