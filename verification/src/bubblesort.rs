use vstd::prelude::*;

verus! {

use crate::Sorter;
use crate::key::{SortKey, sorted, sorted_between, exchange};

pub struct BubbleSort;

/// Start of the suffix that the first `pass` passes have already placed in
/// final position.
spec fn settled_from(n: int, pass: int) -> int {
    if pass <= n {
        n - pass
    } else {
        0
    }
}

/// Every element before position `m` is no greater than every element from
/// position `m` up to `n`.
spec fn split_dominated<T: SortKey>(s: Seq<T>, m: int, n: int) -> bool {
    forall|p: int, q: int|
        #![trigger s[p].key(), s[q].key()]
        0 <= p < m && m <= q < n ==> s[p].key() <= s[q].key()
}

impl<T: SortKey> Sorter<T> for BubbleSort {
    fn sort(&self, v: &mut Vec<T>) {
        let n = v.len();
        let mut swapped = true;
        let ghost mut pass: int = 0;
        while swapped
            invariant
                v@.len() == n,
                v@.to_multiset() == old(v)@.to_multiset(),
                0 <= pass <= n + 1,
                swapped ==> pass <= n,
                !swapped ==> sorted(v@),
                sorted_between(v@, settled_from(n as int, pass), n as int),
                split_dominated(v@, settled_from(n as int, pass), n as int),
            decreases n + 1 - pass,
        {
            swapped = false;
            let ghost lo = settled_from(n as int, pass);
            let mut i: usize = 1;
            while i < n
                invariant
                    v@.len() == n,
                    v@.to_multiset() == old(v)@.to_multiset(),
                    1 <= i,
                    n > 0 ==> i <= n,
                    lo == settled_from(n as int, pass),
                    0 <= lo <= n,
                    lo == 0 ==> !swapped,
                    sorted_between(v@, lo, n as int),
                    split_dominated(v@, lo, n as int),
                    forall|k: int|
                        0 <= k < i ==> #[trigger] v@[k].key() <= v@[i - 1].key(),
                    !swapped ==> sorted_between(v@, 0, i as int),
                    i >= lo && lo >= 1 ==> forall|k: int|
                        0 <= k < lo - 1 ==> #[trigger] v@[k].key() <= v@[lo - 1].key(),
                decreases n - i,
            {
                let a = v[i - 1];
                let b = v[i];
                if !a.le(&b) {
                    assert(i >= lo ==> false) by {
                        if i > lo {
                            assert(v@[i - 1].key() <= v@[i as int].key());
                        } else if i == lo && lo >= 1 {
                            assert(v@[i - 1].key() <= v@[i as int].key());
                        }
                    }
                    exchange(v, i - 1, i);
                    swapped = true;
                }
                i = i + 1;
            }
            proof {
                if n > 0 {
                    assert(sorted_between(v@, settled_from(n as int, pass + 1), n as int));
                    assert(split_dominated(v@, settled_from(n as int, pass + 1), n as int));
                } else {
                    assert(sorted(v@));
                }
                if swapped && pass == n {
                    assert(lo == 0);
                    assert(false);
                }
                pass = pass + 1;
            }
        }
    }
}

} // verus!
