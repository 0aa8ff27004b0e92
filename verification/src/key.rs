use vstd::prelude::*;

verus! {

/// A value the sorting algorithms can order.
///
/// `key` maps the value to the mathematical integer that gives its place in
/// the total order; `le` is the executable comparison the algorithms call,
/// and it must agree with `key`.
pub trait SortKey: Sized + Copy {
    /// The mathematical key that defines the total order.
    spec fn key(self) -> int;

    /// Executable comparison, consistent with `key`.
    fn le(&self, other: &Self) -> (r: bool)
        ensures
            r == (self.key() <= other.key()),
    ;
}

impl SortKey for u8 {
    open spec fn key(self) -> int {
        self as int
    }

    fn le(&self, other: &Self) -> (r: bool) {
        *self <= *other
    }
}

impl SortKey for u32 {
    open spec fn key(self) -> int {
        self as int
    }

    fn le(&self, other: &Self) -> (r: bool) {
        *self <= *other
    }
}

impl SortKey for usize {
    open spec fn key(self) -> int {
        self as int
    }

    fn le(&self, other: &Self) -> (r: bool) {
        *self <= *other
    }
}

impl SortKey for i32 {
    open spec fn key(self) -> int {
        self as int
    }

    fn le(&self, other: &Self) -> (r: bool) {
        *self <= *other
    }
}

/// The elements of `s` at positions `lo..hi` are in non-decreasing key order.
pub open spec fn sorted_between<T: SortKey>(s: Seq<T>, lo: int, hi: int) -> bool {
    forall|i: int, j: int|
        #![trigger s[i].key(), s[j].key()]
        lo <= i <= j < hi ==> s[i].key() <= s[j].key()
}

/// The whole sequence is in non-decreasing key order.
pub open spec fn sorted<T: SortKey>(s: Seq<T>) -> bool {
    sorted_between(s, 0, s.len() as int)
}

/// Exchange the elements at positions `i` and `j`.
pub fn exchange<T: SortKey>(v: &mut Vec<T>, i: usize, j: usize)
    requires
        i < old(v).len(),
        j < old(v).len(),
    ensures
        final(v)@ == old(v)@.update(i as int, old(v)@[j as int]).update(
            j as int,
            old(v)@[i as int],
        ),
        final(v)@.len() == old(v)@.len(),
        final(v)@.to_multiset() == old(v)@.to_multiset(),
{
    let a: T = v[i];
    let b: T = v[j];
    v.set(i, b);
    v.set(j, a);
    proof {
        lemma_swap_preserves_multiset(old(v)@, i as int, j as int);
    }
}

/// Writing `s[j]` to position `i` and `s[i]` to position `j` does not change
/// which elements the sequence holds.
pub proof fn lemma_swap_preserves_multiset<T>(s: Seq<T>, i: int, j: int)
    requires
        0 <= i < s.len(),
        0 <= j < s.len(),
    ensures
        s.update(i, s[j]).update(j, s[i]).to_multiset() == s.to_multiset(),
{
    broadcast use vstd::seq_lib::group_to_multiset_ensures;
    broadcast use vstd::seq_lib::to_multiset_update;
    broadcast use vstd::multiset::group_multiset_axioms;

    let s1 = s.update(i, s[j]);
    let s2 = s1.update(j, s[i]);
    assert(s.to_multiset().count(s[i]) > 0);
    assert(s2.to_multiset() =~= s.to_multiset());
}

/// If two sequences hold the same elements and every element of the first
/// satisfies `p`, then so does every element of the second.
pub proof fn lemma_multiset_all<T>(a: Seq<T>, b: Seq<T>, p: spec_fn(T) -> bool)
    requires
        a.to_multiset() == b.to_multiset(),
        forall|i: int| 0 <= i < a.len() ==> p(#[trigger] a[i]),
    ensures
        forall|i: int| 0 <= i < b.len() ==> p(#[trigger] b[i]),
{
    broadcast use vstd::seq_lib::group_to_multiset_ensures;

    assert forall|i: int| 0 <= i < b.len() implies p(#[trigger] b[i]) by {
        assert(b.to_multiset().count(b[i]) > 0);
        assert(a.to_multiset().count(b[i]) > 0);
        assert(a.contains(b[i]));
        let k = choose|k: int| 0 <= k < a.len() && a[k] == b[i];
        assert(p(a[k]));
    }
}

/// Exchanging two positions inside `[lo, hi)` leaves the multiset of that
/// subrange unchanged.
pub proof fn lemma_exchange_subrange<T>(s: Seq<T>, lo: int, hi: int, a: int, b: int)
    requires
        0 <= lo <= a < hi <= s.len(),
        lo <= b < hi,
    ensures
        s.update(a, s[b]).update(b, s[a]).subrange(lo, hi).to_multiset() == s.subrange(
            lo,
            hi,
        ).to_multiset(),
{
    let t = s.update(a, s[b]).update(b, s[a]);
    let sub = s.subrange(lo, hi);
    assert(t.subrange(lo, hi) =~= sub.update(a - lo, sub[b - lo]).update(b - lo, sub[a - lo]));
    lemma_swap_preserves_multiset(sub, a - lo, b - lo);
}

/// Splitting a subrange in two splits its multiset.
pub proof fn lemma_subrange_split<T>(s: Seq<T>, a: int, b: int, c: int)
    requires
        0 <= a <= b <= c <= s.len(),
    ensures
        s.subrange(a, c).to_multiset() == s.subrange(a, b).to_multiset().add(
            s.subrange(b, c).to_multiset(),
        ),
{
    assert(s.subrange(a, c) =~= s.subrange(a, b) + s.subrange(b, c));
    vstd::seq_lib::lemma_multiset_commutative(s.subrange(a, b), s.subrange(b, c));
}

/// If two sequences of equal length agree outside `[lo, hi)` and hold the
/// same elements overall, they hold the same elements inside `[lo, hi)`.
pub proof fn lemma_middle_multiset<T>(s: Seq<T>, t: Seq<T>, lo: int, hi: int)
    requires
        s.len() == t.len(),
        0 <= lo <= hi <= s.len(),
        forall|p: int| 0 <= p < lo || hi <= p < s.len() ==> s[p] == #[trigger] t[p],
        s.to_multiset() == t.to_multiset(),
    ensures
        s.subrange(lo, hi).to_multiset() == t.subrange(lo, hi).to_multiset(),
{
    broadcast use vstd::multiset::group_multiset_axioms;

    let n = s.len() as int;
    lemma_subrange_split(s, 0, lo, n);
    lemma_subrange_split(s, lo, hi, n);
    lemma_subrange_split(t, 0, lo, n);
    lemma_subrange_split(t, lo, hi, n);
    assert(s.subrange(0, n) =~= s);
    assert(t.subrange(0, n) =~= t);
    assert(s.subrange(0, lo) =~= t.subrange(0, lo));
    assert(s.subrange(hi, n) =~= t.subrange(hi, n));
    assert forall|x: T| s.subrange(lo, hi).to_multiset().count(x) == t.subrange(
        lo,
        hi,
    ).to_multiset().count(x) by {
        assert(s.to_multiset().count(x) == s.subrange(0, lo).to_multiset().count(x) + s.subrange(
            lo,
            hi,
        ).to_multiset().count(x) + s.subrange(hi, n).to_multiset().count(x));
        assert(t.to_multiset().count(x) == t.subrange(0, lo).to_multiset().count(x) + t.subrange(
            lo,
            hi,
        ).to_multiset().count(x) + t.subrange(hi, n).to_multiset().count(x));
    }
    assert(s.subrange(lo, hi).to_multiset() =~= t.subrange(lo, hi).to_multiset());
}

/// Sorting never invents an order among equal contents: two sequences that
/// are both in non-decreasing key order and hold the same elements are the
/// same sequence, as long as elements with equal keys are equal. In
/// particular, sorting an already-sorted sequence gives it back unchanged.
pub proof fn lemma_sorted_permutation_unique<T: SortKey>(a: Seq<T>, b: Seq<T>)
    requires
        sorted(a),
        sorted(b),
        a.to_multiset() == b.to_multiset(),
        forall|x: T, y: T|
            a.contains(x) && a.contains(y) && (#[trigger] x.key()) == (#[trigger] y.key())
                ==> x == y,
    ensures
        a == b,
    decreases a.len(),
{
    broadcast use vstd::seq_lib::group_to_multiset_ensures;

    if a.len() == 0 {
        assert(b.to_multiset().len() == 0);
        assert(a =~= b);
    } else {
        assert(a.to_multiset().count(a[0]) > 0);
        assert(b.to_multiset().count(b[0]) > 0);
        assert(a.contains(b[0]));
        assert(b.contains(a[0]));
        let i = choose|i: int| 0 <= i < a.len() && a[i] == b[0];
        let j = choose|j: int| 0 <= j < b.len() && b[j] == a[0];
        assert(a[0].key() <= a[i].key());
        assert(b[0].key() <= b[j].key());
        assert(a.contains(a[0]));
        assert(a[0] == b[0]);
        assert(a.drop_first() =~= a.remove(0));
        assert(b.drop_first() =~= b.remove(0));
        assert(a.drop_first().to_multiset() =~= a.to_multiset().remove(a[0]));
        assert(b.drop_first().to_multiset() =~= b.to_multiset().remove(b[0]));
        assert forall|x: T| a.drop_first().contains(x) implies a.contains(x) by {
            let m = choose|m: int| 0 <= m < a.drop_first().len() && a.drop_first()[m] == x;
            assert(a[m + 1] == x);
        }
        assert forall|x: T, y: T|
            a.drop_first().contains(x) && a.drop_first().contains(y) && (#[trigger] x.key()) == (
            #[trigger] y.key()) implies x == y by {}
        assert(sorted(a.drop_first())) by {
            assert forall|p: int, q: int|
                #![trigger a.drop_first()[p].key(), a.drop_first()[q].key()]
                0 <= p <= q < a.drop_first().len() implies a.drop_first()[p].key()
                <= a.drop_first()[q].key() by {
                assert(a.drop_first()[p] == a[p + 1]);
                assert(a.drop_first()[q] == a[q + 1]);
            }
        }
        assert(sorted(b.drop_first())) by {
            assert forall|p: int, q: int|
                #![trigger b.drop_first()[p].key(), b.drop_first()[q].key()]
                0 <= p <= q < b.drop_first().len() implies b.drop_first()[p].key()
                <= b.drop_first()[q].key() by {
                assert(b.drop_first()[p] == b[p + 1]);
                assert(b.drop_first()[q] == b[q + 1]);
            }
        }
        lemma_sorted_permutation_unique(a.drop_first(), b.drop_first());
        assert(a =~= seq![a[0]] + a.drop_first());
        assert(b =~= seq![b[0]] + b.drop_first());
        assert(a =~= b);
    }
}

/// Sorting an empty or single-element sequence is a no-op: it is already in
/// order, and any reordering with the same elements is the sequence itself.
pub proof fn lemma_sort_of_short_is_identity<T: SortKey>(a: Seq<T>, b: Seq<T>)
    requires
        a.len() <= 1,
        sorted(b),
        a.to_multiset() == b.to_multiset(),
    ensures
        sorted(a),
        b == a,
{
    broadcast use vstd::seq_lib::group_to_multiset_ensures;

    if a.len() == 0 {
        assert(b.to_multiset().len() == 0);
        assert(b =~= a);
    } else {
        assert(a.to_multiset().count(a[0]) > 0);
        assert(b.contains(a[0]));
        let j = choose|j: int| 0 <= j < b.len() && b[j] == a[0];
        assert(a.to_multiset().len() == a.len());
        assert(b.to_multiset().len() == b.len());
        assert(b.len() == 1);
        assert(b =~= a);
    }
}

} // verus!
