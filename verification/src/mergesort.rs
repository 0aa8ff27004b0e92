use vstd::prelude::*;

verus! {

use crate::Sorter;
use crate::key::{
    SortKey,
    sorted_between,
    exchange,
    lemma_exchange_subrange,
    lemma_subrange_split,
    lemma_middle_multiset,
};

pub struct MergeSort;

/// Move the element at `r` to position `l`, shifting `v[l..r]` one place to
/// the right.
fn rotate_right_one<T: SortKey>(v: &mut Vec<T>, l: usize, r: usize)
    requires
        l <= r < old(v).len(),
    ensures
        final(v)@.len() == old(v)@.len(),
        final(v)@[l as int] == old(v)@[r as int],
        forall|p: int| l < p <= r ==> final(v)@[p] == old(v)@[p - 1],
        forall|p: int|
            0 <= p < l || r < p < old(v)@.len() ==> final(v)@[p] == #[trigger] old(v)@[p],
        final(v)@.to_multiset() == old(v)@.to_multiset(),
{
    let mut t: usize = r;
    while t > l
        invariant
            l <= t <= r < v@.len(),
            v@.len() == old(v)@.len(),
            v@[t as int] == old(v)@[r as int],
            forall|p: int| t < p <= r ==> v@[p] == old(v)@[p - 1],
            forall|p: int| 0 <= p < t || r < p < v@.len() ==> v@[p] == #[trigger] old(v)@[p],
            v@.to_multiset() == old(v)@.to_multiset(),
        decreases t,
    {
        exchange(v, t - 1, t);
        t = t - 1;
    }
}

impl MergeSort {
    /// Merge the two sorted runs `v[lo..mid]` and `v[mid..hi]` in place.
    #[verifier::rlimit(100)]
    pub fn merge<T: SortKey>(&self, v: &mut Vec<T>, lo: usize, mid: usize, hi: usize)
        requires
            lo <= mid <= hi <= old(v).len(),
            sorted_between(old(v)@, lo as int, mid as int),
            sorted_between(old(v)@, mid as int, hi as int),
        ensures
            final(v)@.len() == old(v)@.len(),
            forall|p: int|
                0 <= p < lo || hi <= p < old(v)@.len() ==> final(v)@[p] == #[trigger] old(v)@[p],
            final(v)@.subrange(lo as int, hi as int).to_multiset() == old(v)@.subrange(
                lo as int,
                hi as int,
            ).to_multiset(),
            sorted_between(final(v)@, lo as int, hi as int),
    {
        let ghost gl = lo as int;
        let ghost gh = hi as int;
        let mut l_start = lo;
        let mut r_start = mid;
        // [ merged | left run | right run ]: in every round the next smallest
        // element is either already in place at `l_start` or is rotated there
        // from the head of the right run.
        while r_start < hi && l_start < r_start
            invariant
                lo <= l_start <= r_start <= hi <= v@.len(),
                v@.len() == old(v)@.len(),
                forall|p: int|
                    0 <= p < lo || hi <= p < v@.len() ==> v@[p] == #[trigger] old(v)@[p],
                v@.subrange(gl, gh).to_multiset() == old(v)@.subrange(gl, gh).to_multiset(),
                sorted_between(v@, gl, r_start as int),
                sorted_between(v@, r_start as int, gh),
                forall|p: int, q: int|
                    #![trigger v@[p].key(), v@[q].key()]
                    lo <= p < l_start && r_start <= q < hi ==> v@[p].key() <= v@[q].key(),
                gl == lo as int,
                gh == hi as int,
            decreases hi - l_start,
        {
            let a = v[l_start];
            let b = v[r_start];
            if !b.le(&a) {
                // the head of the left side is already the smallest
                l_start = l_start + 1;
            } else {
                // rotate the head of the right run into place
                let ghost s0 = v@;
                rotate_right_one(v, l_start, r_start);
                let ghost s1 = v@;
                proof {
                    lemma_middle_multiset(s1, s0, gl, gh);
                    let gls = l_start as int;
                    let grs = r_start as int;
                    assert(s1[gls] == s0[grs]);
                    // the freshly placed element closes the sorted stretch
                    assert forall|p: int, q: int|
                        #![trigger s1[p].key(), s1[q].key()]
                        gl <= p <= q < grs + 1 implies s1[p].key() <= s1[q].key() by {
                        if p < gls && q < gls {
                            assert(s1[p] == s0[p]);
                            assert(s1[q] == s0[q]);
                        } else if p < gls && q == gls {
                            assert(s1[p] == s0[p]);
                            assert(s0[p].key() <= s0[grs].key());
                        } else if p < gls && q > gls {
                            assert(s1[p] == s0[p]);
                            assert(s1[q] == s0[q - 1]);
                            assert(s0[p].key() <= s0[q - 1].key());
                        } else if p == gls {
                            if q == gls {
                            } else {
                                assert(s1[q] == s0[q - 1]);
                                assert(s0[grs].key() <= s0[gls].key());
                                assert(s0[gls].key() <= s0[q - 1].key());
                            }
                        } else {
                            assert(s1[p] == s0[p - 1]);
                            assert(s1[q] == s0[q - 1]);
                            assert(s0[p - 1].key() <= s0[q - 1].key());
                        }
                    }
                    assert forall|p: int, q: int|
                        #![trigger s1[p].key(), s1[q].key()]
                        grs + 1 <= p <= q < gh implies s1[p].key() <= s1[q].key() by {
                        assert(s1[p] == s0[p]);
                        assert(s1[q] == s0[q]);
                    }
                    assert forall|p: int, q: int|
                        #![trigger s1[p].key(), s1[q].key()]
                        gl <= p < gls + 1 && grs + 1 <= q < gh implies s1[p].key() <= s1[q].key() by {
                        assert(s1[q] == s0[q]);
                        if p < gls {
                            assert(s1[p] == s0[p]);
                            assert(s0[p].key() <= s0[q].key());
                        } else {
                            assert(s1[p] == s0[grs]);
                            assert(s0[grs].key() <= s0[q].key());
                        }
                    }
                }
                l_start = l_start + 1;
                r_start = r_start + 1;
            }
        }
        proof {
            assert forall|p: int, q: int|
                #![trigger v@[p].key(), v@[q].key()]
                gl <= p <= q < gh implies v@[p].key() <= v@[q].key() by {
                let grs = r_start as int;
                if p < grs && q >= grs {
                    assert(l_start == r_start);
                    assert(v@[p].key() <= v@[q].key());
                }
            }
        }
    }

    /// Sort `v[lo..hi]` by splitting it in half, sorting the halves and
    /// merging them in place.
    fn sort_range<T: SortKey>(&self, v: &mut Vec<T>, lo: usize, hi: usize)
        requires
            lo <= hi <= old(v).len(),
        ensures
            final(v)@.len() == old(v)@.len(),
            forall|p: int|
                0 <= p < lo || hi <= p < old(v)@.len() ==> final(v)@[p] == #[trigger] old(v)@[p],
            final(v)@.subrange(lo as int, hi as int).to_multiset() == old(v)@.subrange(
                lo as int,
                hi as int,
            ).to_multiset(),
            sorted_between(final(v)@, lo as int, hi as int),
        decreases hi - lo,
    {
        let ghost gl = lo as int;
        let ghost gh = hi as int;
        let len = hi - lo;
        if len <= 1 {
            return;
        }
        if len == 2 {
            let a = v[lo];
            let b = v[lo + 1];
            if !a.le(&b) {
                proof {
                    lemma_exchange_subrange(v@, gl, gh, gl, gl + 1);
                }
                exchange(v, lo, lo + 1);
            }
            return;
        }
        let mid = lo + len / 2;
        let ghost gm = mid as int;
        self.sort_range(v, lo, mid);
        let ghost s1 = v@;
        self.sort_range(v, mid, hi);
        let ghost s2 = v@;
        proof {
            assert(s2.subrange(gl, gm) =~= s1.subrange(gl, gm));
            assert forall|p: int, q: int|
                #![trigger s2[p].key(), s2[q].key()]
                gl <= p <= q < gm implies s2[p].key() <= s2[q].key() by {
                assert(s2[p] == s1[p]);
                assert(s2[q] == s1[q]);
            }
        }
        self.merge(v, lo, mid, hi);
        let ghost s3 = v@;
        proof {
            // The elements of the whole range are unchanged through the
            // three steps.
            lemma_subrange_split(old(v)@, gl, gm, gh);
            lemma_subrange_split(s1, gl, gm, gh);
            lemma_subrange_split(s2, gl, gm, gh);
            assert(s1.subrange(gm, gh) =~= old(v)@.subrange(gm, gh));
            assert(s2.subrange(gl, gm).to_multiset() == old(v)@.subrange(gl, gm).to_multiset());
            assert(s2.subrange(gm, gh).to_multiset() == old(v)@.subrange(gm, gh).to_multiset());
            assert(s3.subrange(gl, gh).to_multiset() == old(v)@.subrange(gl, gh).to_multiset());
        }
    }
}

impl<T: SortKey> Sorter<T> for MergeSort {
    fn sort(&self, v: &mut Vec<T>) {
        let n = v.len();
        self.sort_range(v, 0, n);
        proof {
            assert(v@.subrange(0, n as int) =~= v@);
            assert(old(v)@.subrange(0, n as int) =~= old(v)@);
        }
    }
}

} // verus!
