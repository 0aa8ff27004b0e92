use vstd::prelude::*;

verus! {

use crate::Sorter;
use crate::key::{
    SortKey,
    sorted_between,
    exchange,
    lemma_multiset_all,
    lemma_exchange_subrange,
    lemma_subrange_split,
};

/// An in-place heapsort: the sequence is first shaped into a max-heap, then
/// the top is repeatedly swapped behind the shrinking heap, so the sequence
/// ends up in ascending order.
pub struct HeapSort;

/// Whether node `k` lies in the subtree rooted at `a` of the implicit binary
/// heap (the children of node `p` sit at `2p + 1` and `2p + 2`).
pub open spec fn in_subtree(a: int, k: int) -> bool
    decreases (if k > a {
        k - a
    } else {
        0
    }),
{
    if k == a {
        true
    } else if k <= a || k <= 0 {
        false
    } else {
        in_subtree(a, (k - 1) / 2)
    }
}

/// The max-heap ordering holds for every parent-child pair inside the
/// subtree rooted at `a`, restricted to the first `n` positions.
pub open spec fn subtree_heap<T: SortKey>(s: Seq<T>, n: int, a: int) -> bool {
    forall|k: int|
        1 <= k < n && in_subtree(a, k) && k != a ==> s[(k - 1) / 2].key() >= (
        #[trigger] s[k]).key()
}

/// The same, except that the pairs directly under `a` itself are exempt:
/// the shape a subtree has before `a` is sifted down.
pub open spec fn subtree_heap_except_top<T: SortKey>(s: Seq<T>, n: int, a: int) -> bool {
    forall|k: int|
        1 <= k < n && in_subtree(a, k) && k != a && (k - 1) / 2 != a ==> s[(k - 1) / 2].key() >= (
        #[trigger] s[k]).key()
}

/// The max-heap ordering holds for every parent-child pair in the first `n`
/// positions.
pub open spec fn heap_prefix<T: SortKey>(s: Seq<T>, n: int) -> bool {
    forall|k: int| 1 <= k < n ==> s[(k - 1) / 2].key() >= (#[trigger] s[k]).key()
}

/// Every element before position `u` is no greater than every element in
/// `[u, n)`.
spec fn tail_dominates<T: SortKey>(s: Seq<T>, u: int, n: int) -> bool {
    forall|p: int, q: int|
        #![trigger s[p].key(), s[q].key()]
        0 <= p < u && u <= q < n ==> s[p].key() <= s[q].key()
}

/// Subtree membership is transitive.
proof fn lemma_subtree_trans(a: int, b: int, k: int)
    requires
        in_subtree(a, b),
        in_subtree(b, k),
    ensures
        in_subtree(a, k),
    decreases (if k > b {
        k - b
    } else {
        0
    }),
{
    if k != b {
        lemma_subtree_trans(a, b, (k - 1) / 2);
    }
}

/// Every non-negative node lies in the subtree of the root.
proof fn lemma_subtree_all(k: int)
    requires
        k >= 0,
    ensures
        in_subtree(0, k),
    decreases k,
{
    if k > 0 {
        lemma_subtree_all((k - 1) / 2);
    }
}

/// The top of a heap-ordered subtree is its largest element.
proof fn lemma_subtree_root_max<T: SortKey>(s: Seq<T>, n: int, a: int, k: int)
    requires
        subtree_heap(s, n, a),
        0 <= a,
        0 <= k < n,
        in_subtree(a, k),
    ensures
        s[a].key() >= s[k].key(),
    decreases (if k > a {
        k - a
    } else {
        0
    }),
{
    if k != a {
        lemma_subtree_root_max(s, n, a, (k - 1) / 2);
    }
}

/// After the root is swapped with its largest child and that child's subtree
/// is sifted back into heap order, the whole subtree of the root is in heap
/// order again, its values still drawn from the old subtree, and nothing
/// else has moved.
#[verifier::rlimit(100)]
proof fn lemma_sift_down_combine<T: SortKey>(
    s0: Seq<T>,
    s1: Seq<T>,
    s2: Seq<T>,
    n: int,
    root: int,
    largest: int,
)
    requires
        0 <= root < n <= s0.len(),
        s1.len() == s0.len(),
        s2.len() == s0.len(),
        root < largest < n,
        (largest - 1) / 2 == root,
        subtree_heap_except_top(s0, n, root),
        s0[largest].key() >= s0[root].key(),
        2 * root + 1 < n ==> s0[largest].key() >= s0[2 * root + 1].key(),
        2 * root + 2 < n ==> s0[largest].key() >= s0[2 * root + 2].key(),
        s1 == s0.update(largest, s0[root]).update(root, s0[largest]),
        forall|p: int|
            0 <= p < s1.len() && !(in_subtree(largest, p) && p < n) ==> s2[p] == #[trigger] s1[p],
        subtree_heap(s2, n, largest),
        forall|k: int|
            0 <= k < n && in_subtree(largest, k) ==> exists|q: int|
                0 <= q < n && in_subtree(largest, q) && #[trigger] s2[k] == s1[q],
    ensures
        subtree_heap(s2, n, root),
        forall|k: int|
            0 <= k < n && in_subtree(root, k) ==> exists|q: int|
                0 <= q < n && in_subtree(root, q) && #[trigger] s2[k] == s0[q],
        forall|p: int|
            0 <= p < s0.len() && !(in_subtree(root, p) && p < n) ==> s2[p] == #[trigger] s0[p],
{
    assert(in_subtree(root, root));
    assert(in_subtree(root, largest));
    // Within the subtree of `largest`, the old order was a proper heap.
    assert forall|k: int|
        1 <= k < n && in_subtree(largest, k) && k != largest implies s0[(k - 1) / 2].key() >= (
    #[trigger] s0[k]).key() by {
        assert(in_subtree(largest, (k - 1) / 2));
        lemma_subtree_trans(root, largest, k);
        assert((k - 1) / 2 >= largest);
    }
    assert(subtree_heap(s0, n, largest));
    // Every value that ends up in the sifted subtree is bounded by the value
    // now sitting at the root.
    assert forall|q: int|
        0 <= q < n && in_subtree(largest, q) implies s1[q].key() <= #[trigger] s2[root].key() by {
        assert(s2[root] == s1[root]);
        assert(s1[root] == s0[largest]);
        if q == largest {
            assert(s1[largest] == s0[root]);
        } else {
            assert(s1[q] == s0[q]);
            lemma_subtree_root_max(s0, n, largest, q);
        }
    }
    // Heap order over the whole subtree of the root.
    assert forall|k: int|
        1 <= k < n && in_subtree(root, k) && k != root implies s2[(k - 1) / 2].key() >= (
    #[trigger] s2[k]).key() by {
        let pk = (k - 1) / 2;
        if in_subtree(largest, k) {
            if k == largest {
                let q = choose|q: int| 0 <= q < n && in_subtree(largest, q) && s2[k] == s1[q];
                assert(s1[q].key() <= s2[root].key());
            }
        } else {
            if in_subtree(largest, pk) {
                assert(in_subtree(largest, k));
                assert(false);
            }
            assert(s2[k] == s1[k]);
            assert(s2[pk] == s1[pk]);
            if pk == root {
                assert(s1[k] == s0[k]);
                assert(s1[root] == s0[largest]);
                assert(k == 2 * root + 1 || k == 2 * root + 2);
            } else {
                assert(k != largest && k != root);
                assert(s1[k] == s0[k]);
                assert(s1[pk] == s0[pk]);
            }
        }
    }
    // Values of the subtree come from the subtree.
    assert forall|k: int| 0 <= k < n && in_subtree(root, k) implies exists|q: int|
        0 <= q < n && in_subtree(root, q) && #[trigger] s2[k] == s0[q] by {
        if in_subtree(largest, k) {
            let q1 = choose|q1: int| 0 <= q1 < n && in_subtree(largest, q1) && s2[k] == s1[q1];
            lemma_subtree_trans(root, largest, q1);
            if q1 == largest {
                assert(s2[k] == s0[root]);
            } else {
                assert(s2[k] == s0[q1]);
            }
        } else {
            assert(s2[k] == s1[k]);
            if k == root {
                assert(s1[root] == s0[largest]);
            } else {
                assert(s1[k] == s0[k]);
            }
        }
    }
    // Nothing outside the subtree of the root has moved.
    assert forall|p: int|
        0 <= p < s0.len() && !(in_subtree(root, p) && p < n) implies s2[p] == #[trigger] s0[p] by {
        if p < n && in_subtree(largest, p) {
            lemma_subtree_trans(root, largest, p);
            assert(false);
        }
        assert(s2[p] == s1[p]);
        assert(p != root && p != largest);
    }
}

/// Sift the element at `root` down into the heap-ordered subtrees below it,
/// restoring the heap ordering of the whole subtree. Only the first `n`
/// positions take part in the heap.
#[verifier::rlimit(100)]
pub fn heapify<T: SortKey>(v: &mut Vec<T>, n: usize, root: usize)
    requires
        root < n <= old(v).len(),
        subtree_heap_except_top(old(v)@, n as int, root as int),
    ensures
        final(v)@.len() == old(v)@.len(),
        forall|p: int|
            0 <= p < old(v)@.len() && !(in_subtree(root as int, p) && p < n) ==> final(v)@[p]
                == #[trigger] old(v)@[p],
        final(v)@.subrange(0, n as int).to_multiset() == old(v)@.subrange(0, n as int).to_multiset(),
        subtree_heap(final(v)@, n as int, root as int),
        forall|k: int|
            0 <= k < n && in_subtree(root as int, k) ==> exists|q: int|
                0 <= q < n && in_subtree(root as int, q) && #[trigger] final(v)@[k] == old(v)@[q],
    decreases n - root,
{
    let ghost gr = root as int;
    let ghost gn = n as int;
    let mut largest = root;
    if root < n / 2 {
        let left = 2 * root + 1;
        proof {
            assert(left < n);
        }
        let a = v[left];
        let b = v[largest];
        if !a.le(&b) {
            largest = left;
        }
        let right = 2 * root + 2;
        if right < n {
            let a = v[right];
            let b = v[largest];
            if !a.le(&b) {
                largest = right;
            }
        }
    } else {
        proof {
            assert(2 * gr + 1 >= gn);
        }
    }
    // `largest` now points at the largest of the root and its children.
    if largest != root {
        let ghost s0 = v@;
        let ghost glg = largest as int;
        proof {
            assert((glg - 1) / 2 == gr);
            assert(in_subtree(gr, gr));
            assert(in_subtree(gr, glg));
            lemma_exchange_subrange(s0, 0, gn, glg, gr);
        }
        exchange(v, largest, root);
        let ghost s1 = v@;
        proof {
            // The swap leaves every pair of the subtree under `largest` in
            // place except the exempt top pairs.
            assert forall|k: int|
                1 <= k < gn && in_subtree(glg, k) && k != glg && (k - 1) / 2 != glg implies s1[(k
                - 1) / 2].key() >= (#[trigger] s1[k]).key() by {
                assert(in_subtree(glg, (k - 1) / 2));
                assert((k - 1) / 2 >= glg);
                assert(s1[k] == s0[k]);
                assert(s1[(k - 1) / 2] == s0[(k - 1) / 2]);
                lemma_subtree_trans(gr, glg, k);
            }
        }
        heapify(v, n, largest);
        proof {
            lemma_sift_down_combine(s0, s1, v@, gn, gr, glg);
        }
    }
}

/// After the top of the heap is swapped with the last element of the
/// prefix, only the pairs directly under the root can be out of order.
proof fn lemma_swap_top_except<T: SortKey>(s0: Seq<T>, s1: Seq<T>, n: int, u: int)
    requires
        0 <= u < n <= s0.len(),
        s1.len() == s0.len(),
        heap_prefix(s0, u + 1),
        s1 == s0.update(0, s0[u]).update(u, s0[0]),
    ensures
        subtree_heap_except_top(s1, u, 0),
{
    assert forall|k: int|
        1 <= k < u && in_subtree(0, k) && k != 0 && (k - 1) / 2 != 0 implies s1[(k - 1)
        / 2].key() >= (#[trigger] s1[k]).key() by {
        assert(s1[k] == s0[k]);
        assert(s1[(k - 1) / 2] == s0[(k - 1) / 2]);
    }
}

/// One pop step: with the heap's top swapped behind the prefix and the
/// prefix sifted back into heap order, the sorted tail has grown by one and
/// still dominates the heap.
#[verifier::rlimit(100)]
proof fn lemma_pop_step<T: SortKey>(s0: Seq<T>, s1: Seq<T>, s2: Seq<T>, n: int, u: int)
    requires
        0 <= u < n,
        s0.len() == n,
        s1.len() == n,
        s2.len() == n,
        heap_prefix(s0, u + 1),
        sorted_between(s0, u + 1, n),
        tail_dominates(s0, u + 1, n),
        s1 == s0.update(0, s0[u]).update(u, s0[0]),
        forall|p: int| 0 <= p < n && !(in_subtree(0, p) && p < u) ==> s2[p] == #[trigger] s1[p],
        s2.subrange(0, u).to_multiset() == s1.subrange(0, u).to_multiset(),
        subtree_heap(s2, u, 0),
    ensures
        heap_prefix(s2, u),
        sorted_between(s2, u, n),
        tail_dominates(s2, u, n),
        s2.to_multiset() == s0.to_multiset(),
{
    // The old top was the largest element of the heap.
    assert forall|k: int| 0 <= k < u + 1 implies s0[0].key() >= (#[trigger] s0[k]).key() by {
        lemma_subtree_all(k);
        lemma_subtree_root_max(s0, u + 1, 0, k);
    }
    // Positions from `u` on were not touched by the sift.
    assert forall|q: int| u <= q < n implies #[trigger] s2[q] == s1[q] by {}
    // Each element of the new prefix is bounded by the whole new tail.
    let tail = s1.subrange(u, n);
    let bounded = |y: T|
        forall|q: int| 0 <= q < tail.len() ==> y.key() <= (#[trigger] tail[q]).key();
    assert forall|p: int| 0 <= p < s1.subrange(0, u).len() implies bounded(
        #[trigger] s1.subrange(0, u)[p],
    ) by {
        assert forall|q: int| 0 <= q < tail.len() implies s1.subrange(0, u)[p].key() <= (
        #[trigger] tail[q]).key() by {
            assert(tail[q] == s1[u + q]);
            assert(s1.subrange(0, u)[p] == s1[p]);
            if u + q == u {
                assert(s1[u] == s0[0]);
                if p == 0 {
                    assert(s1[0] == s0[u]);
                } else {
                    assert(s1[p] == s0[p]);
                }
            } else {
                assert(s1[u + q] == s0[u + q]);
                if p == 0 {
                    assert(s1[0] == s0[u]);
                    assert(s0[u].key() <= s0[u + q].key());
                } else {
                    assert(s1[p] == s0[p]);
                }
            }
        }
    }
    lemma_multiset_all(s1.subrange(0, u), s2.subrange(0, u), bounded);
    assert forall|p: int, q: int|
        #![trigger s2[p].key(), s2[q].key()]
        0 <= p < u && u <= q < n implies s2[p].key() <= s2[q].key() by {
        assert(s2.subrange(0, u)[p] == s2[p]);
        assert(bounded(s2.subrange(0, u)[p]));
        assert(tail[q - u] == s1[q]);
    }
    // The sorted tail grows by one.
    assert forall|p: int, q: int|
        #![trigger s2[p].key(), s2[q].key()]
        u <= p <= q < n implies s2[p].key() <= s2[q].key() by {
        if p == u && q > u {
            assert(s2[u] == s1[u]);
            assert(s1[u] == s0[0]);
            assert(s2[q] == s1[q]);
            assert(s1[q] == s0[q]);
            assert(s0[0].key() <= s0[q].key());
        } else if p > u {
            assert(s2[p] == s1[p]);
            assert(s2[q] == s1[q]);
            assert(s1[p] == s0[p]);
            assert(s1[q] == s0[q]);
        }
    }
    // Heap ordering of the shrunken prefix.
    assert forall|k: int| 1 <= k < u implies s2[(k - 1) / 2].key() >= (#[trigger] s2[k]).key() by {
        lemma_subtree_all(k);
    }
    // The whole multiset is unchanged.
    assert(s2.subrange(u, n) =~= s1.subrange(u, n));
    lemma_subrange_split(s1, 0, u, n);
    lemma_subrange_split(s2, 0, u, n);
    assert(s1.subrange(0, n) =~= s1);
    assert(s2.subrange(0, n) =~= s2);
    lemma_exchange_subrange(s0, 0, n, 0, u);
    assert(s1.subrange(0, n).to_multiset() == s0.subrange(0, n).to_multiset());
    assert(s0.subrange(0, n) =~= s0);
}

/// One pop step: move the top of the heap `[0, u + 1)` to position `u` and
/// sift the displaced element back down.
#[verifier::rlimit(100)]
fn pop_once<T: SortKey>(v: &mut Vec<T>, u: usize)
    requires
        1 <= u < old(v).len(),
        heap_prefix(old(v)@, u + 1),
        sorted_between(old(v)@, u as int + 1, old(v)@.len() as int),
        tail_dominates(old(v)@, u + 1, old(v)@.len() as int),
    ensures
        final(v)@.len() == old(v)@.len(),
        heap_prefix(final(v)@, u as int),
        sorted_between(final(v)@, u as int, final(v)@.len() as int),
        tail_dominates(final(v)@, u as int, final(v)@.len() as int),
        final(v)@.to_multiset() == old(v)@.to_multiset(),
{
    let ghost gn = old(v)@.len() as int;
    let ghost gu = u as int;
    let ghost s0 = v@;
    exchange(v, 0, u);
    let ghost s1 = v@;
    proof {
        lemma_swap_top_except(s0, s1, gn, gu);
    }
    heapify(v, u, 0);
    proof {
        lemma_pop_step(s0, s1, v@, gn, gu);
    }
}

impl<T: SortKey> Sorter<T> for HeapSort {
    #[verifier::rlimit(100)]
    fn sort(&self, v: &mut Vec<T>) {
        let n = v.len();
        let ghost gn = n as int;

        // Shape the whole sequence into a max-heap, bottom subtrees first.
        let mut i: usize = n / 2;
        while i > 0
            invariant
                v@.len() == n,
                i <= n,
                v@.to_multiset() == old(v)@.to_multiset(),
                forall|k: int|
                    1 <= k < n && (k - 1) / 2 >= i ==> v@[(k - 1) / 2].key() >= (
                    #[trigger] v@[k]).key(),
                gn == n as int,
            decreases i,
        {
            i = i - 1;
            let ghost gi = i as int;
            let ghost s0 = v@;
            proof {
                assert forall|k: int|
                    1 <= k < gn && in_subtree(gi, k) && k != gi && (k - 1) / 2 != gi implies s0[(k
                    - 1) / 2].key() >= (#[trigger] s0[k]).key() by {
                    assert(in_subtree(gi, (k - 1) / 2));
                    assert((k - 1) / 2 >= gi);
                }
            }
            heapify(v, n, i);
            let ghost s1 = v@;
            proof {
                assert(s1.subrange(0, gn) =~= s1);
                assert(s0.subrange(0, gn) =~= s0);
                assert forall|k: int|
                    1 <= k < gn && (k - 1) / 2 >= gi implies s1[(k - 1) / 2].key() >= (
                #[trigger] s1[k]).key() by {
                    let pk = (k - 1) / 2;
                    if !in_subtree(gi, k) {
                        assert(!in_subtree(gi, pk)) by {
                            if in_subtree(gi, pk) {
                                assert(in_subtree(gi, k));
                            }
                        }
                        assert(s1[k] == s0[k]);
                        assert(s1[pk] == s0[pk]);
                        assert(pk != gi);
                    }
                }
            }
        }

        // Repeatedly move the top of the heap behind the shrinking prefix.
        let mut u: usize = n;
        while u > 1
            invariant
                v@.len() == n,
                u <= n,
                n > 0 ==> u >= 1,
                v@.to_multiset() == old(v)@.to_multiset(),
                heap_prefix(v@, u as int),
                sorted_between(v@, u as int, n as int),
                tail_dominates(v@, u as int, n as int),
                gn == n as int,
            decreases u,
        {
            u = u - 1;
            pop_once(v, u);
        }
        proof {
            if n > 0 {
                assert forall|p: int, q: int|
                    #![trigger v@[p].key(), v@[q].key()]
                    0 <= p <= q < gn implies v@[p].key() <= v@[q].key() by {}
            }
        }
    }
}

} // verus!
