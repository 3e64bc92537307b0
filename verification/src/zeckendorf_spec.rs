//! Zeckendorf representations: strictly increasing lists of Fibonacci
//! indices, each at least 2 and no two consecutive, read as the sum of the
//! Fibonacci numbers they index.

use vstd::prelude::*;
use crate::sequence_spec::{fib, lemma_fib_monotone, lemma_fib_positive};

verus! {

/// The sum of the Fibonacci numbers that the indices in `s` name.
pub open spec fn index_fib_sum(s: Seq<usize>) -> nat
    decreases s.len(),
{
    if s.len() == 0 {
        0
    } else {
        index_fib_sum(s.drop_last()) + fib(s.last() as nat)
    }
}

/// `s` is a Zeckendorf list: every index is at least 2 (F(0) and F(1) are
/// not used), and the indices increase by at least 2 from one to the next
/// (no two consecutive Fibonacci numbers).
pub open spec fn is_zeckendorf(s: Seq<usize>) -> bool {
    &&& forall|i: int| 0 <= i < s.len() ==> #[trigger] s[i] >= 2
    &&& forall|i: int, j: int| 0 <= i < j < s.len() ==> #[trigger] s[i] + 2 <= #[trigger] s[j]
}

/// Putting an index in front adds its Fibonacci number to the sum.
pub proof fn lemma_index_fib_sum_prepend(i: usize, s: Seq<usize>)
    ensures
        index_fib_sum(seq![i] + s) == fib(i as nat) + index_fib_sum(s),
    decreases s.len(),
{
    if s.len() == 0 {
        assert(seq![i] + s =~= seq![i]);
        assert(seq![i].drop_last() =~= Seq::<usize>::empty());
        assert(index_fib_sum(Seq::<usize>::empty()) == 0);
        assert(index_fib_sum(seq![i]) == index_fib_sum(seq![i].drop_last()) + fib(i as nat));
    } else {
        let t = seq![i] + s;
        assert(t.drop_last() =~= seq![i] + s.drop_last());
        assert(t.last() == s.last());
        lemma_index_fib_sum_prepend(i, s.drop_last());
        assert(index_fib_sum(t) == index_fib_sum(t.drop_last()) + fib(t.last() as nat));
    }
}

/// A non-empty Zeckendorf list whose largest index is k sums to at least F(k)
/// and to less than F(k+1).
pub proof fn lemma_zeckendorf_sum_bounds(s: Seq<usize>)
    requires
        is_zeckendorf(s),
        s.len() > 0,
    ensures
        fib(s.last() as nat) <= index_fib_sum(s),
        index_fib_sum(s) < fib((s.last() + 1) as nat),
    decreases s.len(),
{
    let k = s.last() as nat;
    let p = s.drop_last();
    assert(s[s.len() - 1] >= 2);
    assert(fib(k + 1) == fib(k) + fib((k - 1) as nat));
    lemma_fib_positive((k - 1) as nat);
    if p.len() > 0 {
        assert(is_zeckendorf(p)) by {
            assert forall|i: int, j: int| 0 <= i < j < p.len() implies #[trigger] p[i] + 2
                <= #[trigger] p[j] by {
                assert(p[i] == s[i] && p[j] == s[j]);
            }
            assert forall|i: int| 0 <= i < p.len() implies #[trigger] p[i] >= 2 by {
                assert(p[i] == s[i]);
            }
        }
        lemma_zeckendorf_sum_bounds(p);
        assert(p.last() == s[s.len() - 2]);
        assert(s[s.len() - 2] + 2 <= s[s.len() - 1]);
        lemma_fib_monotone((p.last() + 1) as nat, (k - 1) as nat);
    }
}

/// Zeckendorf's theorem, uniqueness: two Zeckendorf lists with the same sum
/// are the same list.
pub proof fn lemma_zeckendorf_unique(a: Seq<usize>, b: Seq<usize>)
    requires
        is_zeckendorf(a),
        is_zeckendorf(b),
        index_fib_sum(a) == index_fib_sum(b),
    ensures
        a == b,
    decreases a.len() + b.len(),
{
    if a.len() == 0 && b.len() == 0 {
        assert(a =~= b);
    } else if a.len() == 0 {
        lemma_zeckendorf_sum_bounds(b);
        assert(b[b.len() - 1] >= 2);
        lemma_fib_positive(b.last() as nat);
    } else if b.len() == 0 {
        lemma_zeckendorf_sum_bounds(a);
        assert(a[a.len() - 1] >= 2);
        lemma_fib_positive(a.last() as nat);
    } else {
        lemma_zeckendorf_sum_bounds(a);
        lemma_zeckendorf_sum_bounds(b);
        let ka = a.last();
        let kb = b.last();
        if ka < kb {
            lemma_fib_monotone((ka + 1) as nat, kb as nat);
        } else if kb < ka {
            lemma_fib_monotone((kb + 1) as nat, ka as nat);
        }
        assert(ka == kb);
        let pa = a.drop_last();
        let pb = b.drop_last();
        assert(is_zeckendorf(pa)) by {
            assert forall|i: int, j: int| 0 <= i < j < pa.len() implies #[trigger] pa[i] + 2
                <= #[trigger] pa[j] by {
                assert(pa[i] == a[i] && pa[j] == a[j]);
            }
            assert forall|i: int| 0 <= i < pa.len() implies #[trigger] pa[i] >= 2 by {
                assert(pa[i] == a[i]);
            }
        }
        assert(is_zeckendorf(pb)) by {
            assert forall|i: int, j: int| 0 <= i < j < pb.len() implies #[trigger] pb[i] + 2
                <= #[trigger] pb[j] by {
                assert(pb[i] == b[i] && pb[j] == b[j]);
            }
            assert forall|i: int| 0 <= i < pb.len() implies #[trigger] pb[i] >= 2 by {
                assert(pb[i] == b[i]);
            }
        }
        lemma_zeckendorf_unique(pa, pb);
        assert(a =~= pa.push(ka));
        assert(b =~= pb.push(kb));
    }
}

} // verus!
