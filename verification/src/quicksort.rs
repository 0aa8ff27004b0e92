use vstd::prelude::*;

verus! {

use crate::Sorter;
use crate::key::{
    SortKey,
    sorted_between,
    exchange,
    lemma_multiset_all,
    lemma_exchange_subrange,
};

pub struct QuickSort;

/// Sort `v[lo..hi]` in place: partition around the front element, then sort
/// the two sides.
pub fn quicksort<T: SortKey>(v: &mut Vec<T>, lo: usize, hi: usize)
    requires
        lo <= hi <= old(v).len(),
    ensures
        final(v)@.len() == old(v)@.len(),
        forall|p: int|
            0 <= p < lo || hi <= p < old(v)@.len() ==> final(v)@[p] == #[trigger] old(v)@[p],
        final(v)@.subrange(lo as int, hi as int).to_multiset() == old(v)@.subrange(
            lo as int,
            hi as int,
        ).to_multiset(),
        sorted_between(final(v)@, lo as int, hi as int),
    decreases hi - lo,
{
    let ghost gl = lo as int;
    let ghost gh = hi as int;
    if hi - lo <= 1 {
        return;
    }
    if hi - lo == 2 {
        let a = v[lo];
        let b = v[lo + 1];
        if !a.le(&b) {
            proof {
                lemma_exchange_subrange(v@, gl, gh, gl, gl + 1);
            }
            exchange(v, lo, lo + 1);
        }
        return;
    }

    let ghost piv = old(v)@[gl];
    let mut left: usize = lo + 1;
    let mut right: usize = hi - 1;
    // [ pivot | not greater | unsorted | greater ]
    while left <= right && right > lo + 1
        invariant
            v@.len() == old(v)@.len(),
            lo + 3 <= hi <= v@.len(),
            lo + 1 <= left <= hi,
            lo + 1 <= right < hi,
            left <= right + 1,
            v@[gl] == piv,
            forall|p: int| 0 <= p < lo || hi <= p < v@.len() ==> v@[p] == #[trigger] old(v)@[p],
            v@.subrange(gl, gh).to_multiset() == old(v)@.subrange(gl, gh).to_multiset(),
            forall|p: int| gl < p < left ==> (#[trigger] v@[p]).key() <= piv.key(),
            forall|p: int| right < p < gh ==> (#[trigger] v@[p]).key() > piv.key(),
            right == lo + 1 ==> left > lo + 1 || v@[gl + 1].key() > piv.key(),
            gl == lo as int,
            gh == hi as int,
        decreases right + 1 - left,
    {
        let pv = v[lo];
        let a = v[left];
        if a.le(&pv) {
            // already on the correct side
            left = left + 1;
        } else {
            let b = v[right];
            if !b.le(&pv) {
                // right already on the correct side
                right = right - 1;
            } else {
                // left holds a greater element and right a smaller one
                proof {
                    lemma_exchange_subrange(v@, gl, gh, left as int, right as int);
                }
                exchange(v, left, right);
                left = left + 1;
                right = right - 1;
            }
        }
    }

    // Place the pivot between the two sides.
    let p = left - 1;
    let ghost gp = p as int;
    proof {
        assert forall|q: int| gl < q <= gp implies (#[trigger] v@[q]).key() <= piv.key() by {}
        assert forall|q: int| gp < q < gh implies (#[trigger] v@[q]).key() > piv.key() by {
            if left <= right {
                assert(right == lo + 1 && left == lo + 1);
            }
        }
        lemma_exchange_subrange(v@, gl, gh, gl, gp);
    }
    let ghost pre = v@;
    exchange(v, lo, p);
    let ghost s1 = v@;
    proof {
        assert(s1[gp] == piv);
        assert forall|q: int| gl <= q < gp implies (#[trigger] s1[q]).key() <= piv.key() by {
            if q == gl {
                assert(s1[gl] == pre[gp]);
            } else {
                assert(s1[q] == pre[q]);
            }
        }
        assert forall|q: int| gp < q < gh implies (#[trigger] s1[q]).key() > piv.key() by {
            assert(s1[q] == pre[q]);
        }
    }

    let ghost below = |y: T| y.key() <= piv.key();
    let ghost above = |y: T| y.key() > piv.key();
    quicksort(v, lo, p);
    let ghost s2 = v@;
    proof {
        assert forall|q: int| 0 <= q < s1.subrange(gl, gp).len() implies below(
            #[trigger] s1.subrange(gl, gp)[q],
        ) by {
            assert(s1.subrange(gl, gp)[q] == s1[gl + q]);
        }
        lemma_multiset_all(s1.subrange(gl, gp), s2.subrange(gl, gp), below);
        assert forall|q: int| gl <= q < gp implies (#[trigger] s2[q]).key() <= piv.key() by {
            assert(s2.subrange(gl, gp)[q - gl] == s2[q]);
            assert(below(s2.subrange(gl, gp)[q - gl]));
        }
        assert(s2[gp] == piv);
        assert forall|q: int| gp < q < gh implies (#[trigger] s2[q]).key() > piv.key() by {
            assert(s2[q] == s1[q]);
        }
    }
    quicksort(v, p + 1, hi);
    let ghost s3 = v@;
    proof {
        assert forall|q: int| 0 <= q < s2.subrange(gp + 1, gh).len() implies above(
            #[trigger] s2.subrange(gp + 1, gh)[q],
        ) by {
            assert(s2.subrange(gp + 1, gh)[q] == s2[gp + 1 + q]);
        }
        lemma_multiset_all(s2.subrange(gp + 1, gh), s3.subrange(gp + 1, gh), above);
        assert forall|q: int| gp < q < gh implies (#[trigger] s3[q]).key() > piv.key() by {
            assert(s3.subrange(gp + 1, gh)[q - gp - 1] == s3[q]);
            assert(above(s3.subrange(gp + 1, gh)[q - gp - 1]));
        }
        assert(s3[gp] == piv);
        assert forall|q: int| gl <= q < gp implies (#[trigger] s3[q]).key() <= piv.key() by {
            assert(s3[q] == s2[q]);
        }
        // The three parts line up into one sorted range.
        assert forall|a: int, b: int|
            #![trigger s3[a].key(), s3[b].key()]
            gl <= a <= b < gh implies s3[a].key() <= s3[b].key() by {
            if b < gp {
                assert(s3[a] == s2[a]);
                assert(s3[b] == s2[b]);
                assert(s2[a].key() <= s2[b].key());
            } else if a < gp && b == gp {
                assert(s3[a].key() <= piv.key());
            } else if a <= gp && b > gp {
                if a < gp {
                    assert(s3[a].key() <= piv.key());
                }
                assert(s3[b].key() > piv.key());
            }
        }
        // The whole subrange still holds the elements it started with.
        assert(s1.subrange(gl, gh) =~= s1.subrange(gl, gp) + s1.subrange(gp, gp + 1)
            + s1.subrange(gp + 1, gh));
        assert(s3.subrange(gl, gh) =~= s3.subrange(gl, gp) + s3.subrange(gp, gp + 1)
            + s3.subrange(gp + 1, gh));
        assert(s3.subrange(gl, gp) =~= s2.subrange(gl, gp));
        assert(s3.subrange(gp, gp + 1) =~= s1.subrange(gp, gp + 1));
        assert(s2.subrange(gp + 1, gh) =~= s1.subrange(gp + 1, gh));
        assert(s3.subrange(gp + 1, gh).to_multiset() == s1.subrange(gp + 1, gh).to_multiset());
        assert(s3.subrange(gl, gp).to_multiset() == s1.subrange(gl, gp).to_multiset());
        vstd::seq_lib::lemma_multiset_commutative(s1.subrange(gl, gp), s1.subrange(gp, gp + 1));
        vstd::seq_lib::lemma_multiset_commutative(
            s1.subrange(gl, gp) + s1.subrange(gp, gp + 1),
            s1.subrange(gp + 1, gh),
        );
        vstd::seq_lib::lemma_multiset_commutative(s3.subrange(gl, gp), s3.subrange(gp, gp + 1));
        vstd::seq_lib::lemma_multiset_commutative(
            s3.subrange(gl, gp) + s3.subrange(gp, gp + 1),
            s3.subrange(gp + 1, gh),
        );
        assert(s3.subrange(gl, gh).to_multiset() == s1.subrange(gl, gh).to_multiset());
        assert(s1.subrange(gl, gh).to_multiset() == pre.subrange(gl, gh).to_multiset());
        // Nothing outside the region moved.
        assert forall|q: int| 0 <= q < gl || gh <= q < s3.len() implies s3[q] == #[trigger] old(
            v,
        )@[q] by {
            assert(s2[q] == s1[q]);
            assert(s1[q] == pre[q]);
            assert(pre[q] == old(v)@[q]);
        }
    }
}

impl<T: SortKey> Sorter<T> for QuickSort {
    fn sort(&self, v: &mut Vec<T>) {
        let n = v.len();
        // [ unsorted | pivot | unsorted ]
        quicksort(v, 0, n);
        proof {
            assert(v@.subrange(0, n as int) =~= v@);
            assert(old(v)@.subrange(0, n as int) =~= old(v)@);
        }
    }
}

} // verus!
