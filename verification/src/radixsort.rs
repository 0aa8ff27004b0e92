//! An in-place byte-distribution sort: the sequence is partitioned into 256
//! contiguous buckets by the most significant byte, and each bucket with more
//! than one element is then partitioned again by the next byte, until the key
//! type runs out of significant bytes.

use vstd::prelude::*;

verus! {

use vstd::multiset::Multiset;
use crate::Sorter;
use crate::key::{SortKey, sorted_between, exchange, lemma_multiset_all, lemma_exchange_subrange, lemma_subrange_split};

pub struct RadixSort;

/// The big-endian byte of `x` at significance level `n` (0 = most
/// significant), as a mathematical integer in `[0, 256)`.
pub open spec fn be_byte64(x: u64, n: int) -> int
    recommends
        0 <= n < 8,
{
    if n == 0 {
        ((x >> 56u64) & 0xffu64) as int
    } else if n == 1 {
        ((x >> 48u64) & 0xffu64) as int
    } else if n == 2 {
        ((x >> 40u64) & 0xffu64) as int
    } else if n == 3 {
        ((x >> 32u64) & 0xffu64) as int
    } else if n == 4 {
        ((x >> 24u64) & 0xffu64) as int
    } else if n == 5 {
        ((x >> 16u64) & 0xffu64) as int
    } else if n == 6 {
        ((x >> 8u64) & 0xffu64) as int
    } else {
        (x & 0xffu64) as int
    }
}

/// The big-endian byte of `x` at significance level `n` (0 = most
/// significant), as a mathematical integer in `[0, 256)`.
pub open spec fn be_byte32(x: u32, n: int) -> int
    recommends
        0 <= n < 4,
{
    if n == 0 {
        ((x >> 24u32) & 0xffu32) as int
    } else if n == 1 {
        ((x >> 16u32) & 0xffu32) as int
    } else if n == 2 {
        ((x >> 8u32) & 0xffu32) as int
    } else {
        (x & 0xffu32) as int
    }
}

/// A key that can be taken apart into `u8` digits of decreasing significance,
/// so that the digit sequences, compared lexicographically, reproduce the
/// key order exactly.
pub trait Bytify: SortKey {
    /// How many significant bytes the type provides.
    spec fn width() -> nat;

    /// The digit at significance level `n` (0 = most significant byte).
    spec fn digit(self, n: int) -> int;

    /// Every key type provides at least one digit.
    proof fn lemma_width_pos()
        ensures
            Self::width() >= 1,
    ;

    /// Digits are bytes.
    proof fn lemma_digit_bounded(self, n: int)
        requires
            0 <= n < Self::width(),
        ensures
            0 <= self.digit(n) < 256,
    ;

    /// Two keys that agree on every digit before level `l` and are strictly
    /// ordered at level `l` are strictly ordered the same way.
    proof fn lemma_digit_lt(self, other: Self, l: int)
        requires
            0 <= l < Self::width(),
            forall|m: int| 0 <= m < l ==> #[trigger] self.digit(m) == other.digit(m),
            self.digit(l) < other.digit(l),
        ensures
            self.key() < other.key(),
    ;

    /// Two keys that agree on every digit are equal.
    proof fn lemma_digit_eq(self, other: Self)
        requires
            forall|m: int| 0 <= m < Self::width() ==> #[trigger] self.digit(m) == other.digit(m),
        ensures
            self.key() == other.key(),
    ;

    /// Returns the `(n+1)`-th most significant byte of `self`, recast to
    /// `usize` because it is used as an index into the bucket tables. A
    /// return of `None` means that `n` goes beyond all the bytes that `self`
    /// can signify.
    fn bytify(&self, n: usize) -> (r: Option<usize>)
        ensures
            n < Self::width() ==> r == Some(self.digit(n as int) as usize),
            n >= Self::width() ==> r.is_none(),
    ;

    /// The number of significant bytes, as a run-time value.
    fn byte_width() -> (w: usize)
        ensures
            w == Self::width(),
    ;
}

impl Bytify for u8 {
    open spec fn width() -> nat {
        1
    }

    open spec fn digit(self, n: int) -> int {
        self as int
    }

    proof fn lemma_width_pos() {
    }

    proof fn lemma_digit_bounded(self, n: int) {
    }

    proof fn lemma_digit_lt(self, other: Self, l: int) {
        assert(self.digit(0) < other.digit(0));
    }

    proof fn lemma_digit_eq(self, other: Self) {
        assert(self.digit(0) == other.digit(0));
    }

    fn bytify(&self, n: usize) -> (r: Option<usize>) {
        if n == 0 {
            Some(*self as usize)
        } else {
            None
        }
    }

    fn byte_width() -> (w: usize) {
        1
    }
}

impl Bytify for usize {
    open spec fn width() -> nat {
        8
    }

    open spec fn digit(self, n: int) -> int {
        be_byte64(self as u64, n)
    }

    proof fn lemma_width_pos() {
    }

    proof fn lemma_digit_bounded(self, n: int) {
        let x = self as u64;
        assert((x >> 56u64) & 0xffu64 < 256 && (x >> 48u64) & 0xffu64 < 256 && (x >> 40u64)
            & 0xffu64 < 256 && (x >> 32u64) & 0xffu64 < 256 && (x >> 24u64) & 0xffu64 < 256 && (x
            >> 16u64) & 0xffu64 < 256 && (x >> 8u64) & 0xffu64 < 256 && x & 0xffu64 < 256)
            by (bit_vector);
    }

    proof fn lemma_digit_lt(self, other: Self, l: int) {
        let a = self as u64;
        let b = other as u64;
        assert forall|m: int| 0 <= m < l implies #[trigger] be_byte64(a, m) == be_byte64(b, m) by {
            assert(self.digit(m) == other.digit(m));
        }
        lemma_be64_lex_lt(a, b, l);
        let x = self;
        let y = other;
        assert((x as u64) < (y as u64) ==> x < y) by (bit_vector);
    }

    proof fn lemma_digit_eq(self, other: Self) {
        let a = self as u64;
        let b = other as u64;
        assert forall|m: int| 0 <= m < 8 implies #[trigger] be_byte64(a, m) == be_byte64(b, m) by {
            assert(self.digit(m) == other.digit(m));
        }
        lemma_be64_lex_eq(a, b);
        let x = self;
        let y = other;
        assert((x as u64) == (y as u64) ==> x == y) by (bit_vector);
    }

    fn bytify(&self, n: usize) -> (r: Option<usize>) {
        if n >= 8 {
            return None;
        }
        let x: u64 = *self as u64;
        let byte: u64 = if n == 0 {
            (x >> 56u64) & 0xffu64
        } else if n == 1 {
            (x >> 48u64) & 0xffu64
        } else if n == 2 {
            (x >> 40u64) & 0xffu64
        } else if n == 3 {
            (x >> 32u64) & 0xffu64
        } else if n == 4 {
            (x >> 24u64) & 0xffu64
        } else if n == 5 {
            (x >> 16u64) & 0xffu64
        } else if n == 6 {
            (x >> 8u64) & 0xffu64
        } else {
            x & 0xffu64
        };
        proof {
            assert((x >> 56u64) & 0xffu64 < 256 && (x >> 48u64) & 0xffu64 < 256 && (x >> 40u64)
                & 0xffu64 < 256 && (x >> 32u64) & 0xffu64 < 256 && (x >> 24u64) & 0xffu64 < 256 && (
            x >> 16u64) & 0xffu64 < 256 && (x >> 8u64) & 0xffu64 < 256 && x & 0xffu64 < 256)
                by (bit_vector);
        }
        Some(byte as usize)
    }

    fn byte_width() -> (w: usize) {
        8
    }
}

/// The sign-bias transform: reinterpret the bits of `x` with the sign bit
/// inverted, so that the unsigned order of the result is the signed order
/// of `x`.
pub open spec fn sign_biased(x: i32) -> u32 {
    (x as u32) ^ 0x8000_0000u32
}

impl Bytify for i32 {
    open spec fn width() -> nat {
        4
    }

    open spec fn digit(self, n: int) -> int {
        be_byte32(sign_biased(self), n)
    }

    proof fn lemma_width_pos() {
    }

    proof fn lemma_digit_bounded(self, n: int) {
        let x = sign_biased(self);
        assert((x >> 24u32) & 0xffu32 < 256 && (x >> 16u32) & 0xffu32 < 256 && (x >> 8u32)
            & 0xffu32 < 256 && x & 0xffu32 < 256) by (bit_vector);
    }

    proof fn lemma_digit_lt(self, other: Self, l: int) {
        let a = sign_biased(self);
        let b = sign_biased(other);
        assert forall|m: int| 0 <= m < l implies #[trigger] be_byte32(a, m) == be_byte32(b, m) by {
            assert(self.digit(m) == other.digit(m));
        }
        lemma_be32_lex_lt(a, b, l);
        let x = self;
        let y = other;
        assert(((x as u32) ^ 0x8000_0000u32) < ((y as u32) ^ 0x8000_0000u32) ==> x < y)
            by (bit_vector);
    }

    proof fn lemma_digit_eq(self, other: Self) {
        let a = sign_biased(self);
        let b = sign_biased(other);
        assert forall|m: int| 0 <= m < 4 implies #[trigger] be_byte32(a, m) == be_byte32(b, m) by {
            assert(self.digit(m) == other.digit(m));
        }
        lemma_be32_lex_eq(a, b);
        let x = self;
        let y = other;
        assert(((x as u32) ^ 0x8000_0000u32) == ((y as u32) ^ 0x8000_0000u32) ==> x == y)
            by (bit_vector);
    }

    fn bytify(&self, n: usize) -> (r: Option<usize>) {
        if n >= 4 {
            return None;
        }
        let x: u32 = (*self as u32) ^ 0x8000_0000u32;
        let byte: u32 = if n == 0 {
            (x >> 24u32) & 0xffu32
        } else if n == 1 {
            (x >> 16u32) & 0xffu32
        } else if n == 2 {
            (x >> 8u32) & 0xffu32
        } else {
            x & 0xffu32
        };
        proof {
            assert((x >> 24u32) & 0xffu32 < 256 && (x >> 16u32) & 0xffu32 < 256 && (x >> 8u32)
                & 0xffu32 < 256 && x & 0xffu32 < 256) by (bit_vector);
        }
        Some(byte as usize)
    }

    fn byte_width() -> (w: usize) {
        4
    }
}

/// Big-endian bytes compared lexicographically reproduce the order of `u64`.
proof fn lemma_be64_lex_lt(a: u64, b: u64, l: int)
    requires
        0 <= l < 8,
        forall|m: int| 0 <= m < l ==> #[trigger] be_byte64(a, m) == be_byte64(b, m),
        be_byte64(a, l) < be_byte64(b, l),
    ensures
        a < b,
{
    if l == 0 {
        assert((a >> 56u64) & 0xffu64 < (b >> 56u64) & 0xffu64 ==> a < b) by (bit_vector);
    } else if l == 1 {
        assert(((a >> 56u64) & 0xffu64 == (b >> 56u64) & 0xffu64 && (a >> 48u64) & 0xffu64 < (b >> 48u64) & 0xffu64)
            ==> a < b) by (bit_vector);
        assert(be_byte64(a, 0) == be_byte64(b, 0));
    } else if l == 2 {
        assert(((a >> 56u64) & 0xffu64 == (b >> 56u64) & 0xffu64 && (a >> 48u64) & 0xffu64 == (b >> 48u64) & 0xffu64
            && (a >> 40u64) & 0xffu64 < (b >> 40u64) & 0xffu64) ==> a < b) by (bit_vector);
        assert(be_byte64(a, 0) == be_byte64(b, 0));
        assert(be_byte64(a, 1) == be_byte64(b, 1));
    } else if l == 3 {
        assert(((a >> 56u64) & 0xffu64 == (b >> 56u64) & 0xffu64 && (a >> 48u64) & 0xffu64 == (b >> 48u64) & 0xffu64
            && (a >> 40u64) & 0xffu64 == (b >> 40u64) & 0xffu64 && (a >> 32u64) & 0xffu64 < (b >> 32u64) & 0xffu64)
            ==> a < b) by (bit_vector);
        assert(be_byte64(a, 0) == be_byte64(b, 0));
        assert(be_byte64(a, 1) == be_byte64(b, 1));
        assert(be_byte64(a, 2) == be_byte64(b, 2));
    } else if l == 4 {
        assert(((a >> 56u64) & 0xffu64 == (b >> 56u64) & 0xffu64 && (a >> 48u64) & 0xffu64 == (b >> 48u64) & 0xffu64
            && (a >> 40u64) & 0xffu64 == (b >> 40u64) & 0xffu64 && (a >> 32u64) & 0xffu64 == (b >> 32u64) & 0xffu64
            && (a >> 24u64) & 0xffu64 < (b >> 24u64) & 0xffu64) ==> a < b) by (bit_vector);
        assert(be_byte64(a, 0) == be_byte64(b, 0));
        assert(be_byte64(a, 1) == be_byte64(b, 1));
        assert(be_byte64(a, 2) == be_byte64(b, 2));
        assert(be_byte64(a, 3) == be_byte64(b, 3));
    } else if l == 5 {
        assert(((a >> 56u64) & 0xffu64 == (b >> 56u64) & 0xffu64 && (a >> 48u64) & 0xffu64 == (b >> 48u64) & 0xffu64
            && (a >> 40u64) & 0xffu64 == (b >> 40u64) & 0xffu64 && (a >> 32u64) & 0xffu64 == (b >> 32u64) & 0xffu64
            && (a >> 24u64) & 0xffu64 == (b >> 24u64) & 0xffu64 && (a >> 16u64) & 0xffu64 < (b >> 16u64) & 0xffu64)
            ==> a < b) by (bit_vector);
        assert(be_byte64(a, 0) == be_byte64(b, 0));
        assert(be_byte64(a, 1) == be_byte64(b, 1));
        assert(be_byte64(a, 2) == be_byte64(b, 2));
        assert(be_byte64(a, 3) == be_byte64(b, 3));
        assert(be_byte64(a, 4) == be_byte64(b, 4));
    } else if l == 6 {
        assert(((a >> 56u64) & 0xffu64 == (b >> 56u64) & 0xffu64 && (a >> 48u64) & 0xffu64 == (b >> 48u64) & 0xffu64
            && (a >> 40u64) & 0xffu64 == (b >> 40u64) & 0xffu64 && (a >> 32u64) & 0xffu64 == (b >> 32u64) & 0xffu64
            && (a >> 24u64) & 0xffu64 == (b >> 24u64) & 0xffu64 && (a >> 16u64) & 0xffu64 == (b >> 16u64) & 0xffu64
            && (a >> 8u64) & 0xffu64 < (b >> 8u64) & 0xffu64) ==> a < b) by (bit_vector);
        assert(be_byte64(a, 0) == be_byte64(b, 0));
        assert(be_byte64(a, 1) == be_byte64(b, 1));
        assert(be_byte64(a, 2) == be_byte64(b, 2));
        assert(be_byte64(a, 3) == be_byte64(b, 3));
        assert(be_byte64(a, 4) == be_byte64(b, 4));
        assert(be_byte64(a, 5) == be_byte64(b, 5));
    } else {
        assert(((a >> 56u64) & 0xffu64 == (b >> 56u64) & 0xffu64 && (a >> 48u64) & 0xffu64 == (b >> 48u64) & 0xffu64
            && (a >> 40u64) & 0xffu64 == (b >> 40u64) & 0xffu64 && (a >> 32u64) & 0xffu64 == (b >> 32u64) & 0xffu64
            && (a >> 24u64) & 0xffu64 == (b >> 24u64) & 0xffu64 && (a >> 16u64) & 0xffu64 == (b >> 16u64) & 0xffu64
            && (a >> 8u64) & 0xffu64 == (b >> 8u64) & 0xffu64 && a & 0xffu64 < b & 0xffu64) ==> a < b)
            by (bit_vector);
        assert(be_byte64(a, 0) == be_byte64(b, 0));
        assert(be_byte64(a, 1) == be_byte64(b, 1));
        assert(be_byte64(a, 2) == be_byte64(b, 2));
        assert(be_byte64(a, 3) == be_byte64(b, 3));
        assert(be_byte64(a, 4) == be_byte64(b, 4));
        assert(be_byte64(a, 5) == be_byte64(b, 5));
        assert(be_byte64(a, 6) == be_byte64(b, 6));
    }
}

/// Two `u64` values with the same big-endian bytes are equal.
proof fn lemma_be64_lex_eq(a: u64, b: u64)
    requires
        forall|m: int| 0 <= m < 8 ==> #[trigger] be_byte64(a, m) == be_byte64(b, m),
    ensures
        a == b,
{
    assert(be_byte64(a, 0) == be_byte64(b, 0));
    assert(be_byte64(a, 1) == be_byte64(b, 1));
    assert(be_byte64(a, 2) == be_byte64(b, 2));
    assert(be_byte64(a, 3) == be_byte64(b, 3));
    assert(be_byte64(a, 4) == be_byte64(b, 4));
    assert(be_byte64(a, 5) == be_byte64(b, 5));
    assert(be_byte64(a, 6) == be_byte64(b, 6));
    assert(be_byte64(a, 7) == be_byte64(b, 7));
    assert(((a >> 56u64) & 0xffu64 == (b >> 56u64) & 0xffu64 && (a >> 48u64) & 0xffu64 == (b >> 48u64) & 0xffu64
        && (a >> 40u64) & 0xffu64 == (b >> 40u64) & 0xffu64 && (a >> 32u64) & 0xffu64 == (b >> 32u64) & 0xffu64
        && (a >> 24u64) & 0xffu64 == (b >> 24u64) & 0xffu64 && (a >> 16u64) & 0xffu64 == (b >> 16u64) & 0xffu64
        && (a >> 8u64) & 0xffu64 == (b >> 8u64) & 0xffu64 && a & 0xffu64 == b & 0xffu64) ==> a == b)
        by (bit_vector);
}

/// Big-endian bytes compared lexicographically reproduce the order of `u32`.
proof fn lemma_be32_lex_lt(a: u32, b: u32, l: int)
    requires
        0 <= l < 4,
        forall|m: int| 0 <= m < l ==> #[trigger] be_byte32(a, m) == be_byte32(b, m),
        be_byte32(a, l) < be_byte32(b, l),
    ensures
        a < b,
{
    if l == 0 {
        assert((a >> 24u32) & 0xffu32 < (b >> 24u32) & 0xffu32 ==> a < b) by (bit_vector);
    } else if l == 1 {
        assert(((a >> 24u32) & 0xffu32 == (b >> 24u32) & 0xffu32 && (a >> 16u32) & 0xffu32 < (b >> 16u32) & 0xffu32)
            ==> a < b) by (bit_vector);
        assert(be_byte32(a, 0) == be_byte32(b, 0));
    } else if l == 2 {
        assert(((a >> 24u32) & 0xffu32 == (b >> 24u32) & 0xffu32 && (a >> 16u32) & 0xffu32 == (b >> 16u32) & 0xffu32
            && (a >> 8u32) & 0xffu32 < (b >> 8u32) & 0xffu32) ==> a < b) by (bit_vector);
        assert(be_byte32(a, 0) == be_byte32(b, 0));
        assert(be_byte32(a, 1) == be_byte32(b, 1));
    } else {
        assert(((a >> 24u32) & 0xffu32 == (b >> 24u32) & 0xffu32 && (a >> 16u32) & 0xffu32 == (b >> 16u32) & 0xffu32
            && (a >> 8u32) & 0xffu32 == (b >> 8u32) & 0xffu32 && a & 0xffu32 < b & 0xffu32) ==> a < b)
            by (bit_vector);
        assert(be_byte32(a, 0) == be_byte32(b, 0));
        assert(be_byte32(a, 1) == be_byte32(b, 1));
        assert(be_byte32(a, 2) == be_byte32(b, 2));
    }
}

/// The predicate selecting keys whose digit at `level` is `d`.
spec fn has_digit<T: Bytify>(level: int, d: int) -> spec_fn(T) -> bool {
    |x: T| x.digit(level) == d
}

/// How many elements of `m` carry digit `d` at significance level `level`.
spec fn digit_count<T: Bytify>(m: Multiset<T>, level: int, d: int) -> nat {
    m.filter(has_digit(level, d)).len()
}

/// Inserting one element raises the count of its own digit by one and leaves
/// every other digit's count alone.
proof fn lemma_digit_count_insert<T: Bytify>(m: Multiset<T>, x: T, level: int)
    ensures
        forall|d: int|
            #[trigger] digit_count(m.insert(x), level, d) == digit_count(m, level, d) + (
            if x.digit(level) == d {
                1nat
            } else {
                0nat
            }),
{
    broadcast use vstd::multiset::group_multiset_axioms;

    assert forall|d: int|
        #[trigger] digit_count(m.insert(x), level, d) == digit_count(m, level, d) + (
        if x.digit(level) == d {
            1nat
        } else {
            0nat
        }) by {
        let f = has_digit::<T>(level, d);
        if f(x) {
            assert(m.insert(x).filter(f) =~= m.filter(f).insert(x));
            vstd::multiset::lemma_insert_len(m.filter(f), x);
        } else {
            assert(m.insert(x).filter(f) =~= m.filter(f));
        }
    }
}

/// No digit is carried by more elements than the multiset holds.
proof fn lemma_digit_count_le<T: Bytify>(m: Multiset<T>, level: int, d: int)
    ensures
        digit_count(m, level, d) <= m.len(),
{
    broadcast use vstd::multiset::group_multiset_axioms;

    let f = has_digit::<T>(level, d);
    let g = |y: T| !(y.digit(level) == d);
    assert(m =~= m.filter(f).add(m.filter(g)));
    assert(m.len() == m.filter(f).len() + m.filter(g).len());
}

/// Digit counts add up over a multiset union.
proof fn lemma_digit_count_add<T: Bytify>(m1: Multiset<T>, m2: Multiset<T>, level: int)
    ensures
        forall|d: int|
            #[trigger] digit_count(m1.add(m2), level, d) == digit_count(m1, level, d)
                + digit_count(m2, level, d),
{
    broadcast use vstd::multiset::group_multiset_axioms;

    assert forall|d: int|
        #[trigger] digit_count(m1.add(m2), level, d) == digit_count(m1, level, d) + digit_count(
        m2,
        level,
        d,
    ) by {
        let f = has_digit::<T>(level, d);
        assert(m1.add(m2).filter(f) =~= m1.filter(f).add(m2.filter(f)));
    }
}

/// A sequence whose elements all carry digit `d` contributes its whole length
/// to `d`'s count and nothing to any other digit.
proof fn lemma_digit_count_all<T: Bytify>(s: Seq<T>, level: int, d: int)
    requires
        forall|p: int| 0 <= p < s.len() ==> #[trigger] s[p].digit(level) == d,
    ensures
        forall|e: int|
            #[trigger] digit_count(s.to_multiset(), level, e) == if e == d {
                s.len()
            } else {
                0nat
            },
{
    broadcast use vstd::multiset::group_multiset_axioms;
    broadcast use vstd::seq_lib::group_to_multiset_ensures;

    let m = s.to_multiset();
    assert forall|e: int|
        #[trigger] digit_count(m, level, e) == if e == d {
            s.len()
        } else {
            0nat
        } by {
        let f = has_digit::<T>(level, e);
        if e == d {
            assert forall|y: T| m.count(y) > 0 implies f(y) by {
                assert(s.contains(y));
            }
            assert(m.filter(f) =~= m);
        } else {
            assert forall|y: T| m.count(y) > 0 implies !f(y) by {
                assert(s.contains(y));
            }
            assert(m.filter(f) =~= Multiset::<T>::empty());
            vstd::multiset::lemma_multiset_empty_len(m.filter(f));
        }
    }
}

/// A sequence holding an element with digit `d` contributes at least one to
/// `d`'s count.
proof fn lemma_digit_count_pos<T: Bytify>(s: Seq<T>, level: int, p: int)
    requires
        0 <= p < s.len(),
    ensures
        digit_count(s.to_multiset(), level, s[p].digit(level)) >= 1,
{
    broadcast use vstd::multiset::group_multiset_axioms;
    broadcast use vstd::seq_lib::group_to_multiset_ensures;

    let m = s.to_multiset();
    let d = s[p].digit(level);
    let f = has_digit::<T>(level, d);
    assert(s.contains(s[p]));
    assert(m.count(s[p]) > 0);
    assert(m.filter(f).count(s[p]) == m.count(s[p]));
}

/// The sum of the first `d` entries of a table of counts.
spec fn sum_prefix(c: Seq<usize>, d: int) -> int
    decreases d,
{
    if d <= 0 {
        0
    } else {
        sum_prefix(c, d - 1) + c[d - 1]
    }
}

/// A table of zeroes sums to zero.
proof fn lemma_sum_prefix_zero(c: Seq<usize>, d: int)
    requires
        forall|k: int| 0 <= k < c.len() ==> #[trigger] c[k] == 0,
        d <= c.len(),
    ensures
        sum_prefix(c, d) == 0,
    decreases d,
{
    if d > 0 {
        lemma_sum_prefix_zero(c, d - 1);
    }
}

/// Prefix sums grow with the prefix.
proof fn lemma_sum_prefix_mono(c: Seq<usize>, d1: int, d2: int)
    requires
        0 <= d1 <= d2,
    ensures
        sum_prefix(c, d1) <= sum_prefix(c, d2),
    decreases d2 - d1,
{
    if d1 < d2 {
        lemma_sum_prefix_mono(c, d1, d2 - 1);
    }
}

/// Raising one entry of the table by one raises every prefix sum that covers
/// it by one.
proof fn lemma_sum_prefix_bump(a: Seq<usize>, b: Seq<usize>, j: int, d: int)
    requires
        a.len() == b.len(),
        0 <= j < a.len(),
        d <= a.len(),
        b[j] == a[j] + 1,
        forall|k: int| 0 <= k < a.len() && k != j ==> a[k] == #[trigger] b[k],
    ensures
        sum_prefix(b, d) == sum_prefix(a, d) + if j < d {
            1int
        } else {
            0int
        },
    decreases d,
{
    if d > 0 {
        lemma_sum_prefix_bump(a, b, j, d - 1);
    }
}

/// How much room is left before each of the first `d` write cursors reaches
/// its bucket boundary.
spec fn sum_slack(next: Seq<usize>, ends: Seq<usize>, d: int) -> int
    decreases d,
{
    if d <= 0 {
        0
    } else {
        sum_slack(next, ends, d - 1) + (ends[d - 1] - next[d - 1])
    }
}

/// The total slack is non-negative while every cursor is within its bucket.
proof fn lemma_sum_slack_nonneg(next: Seq<usize>, ends: Seq<usize>, d: int)
    requires
        forall|k: int| 0 <= k < d ==> #[trigger] next[k] <= ends[k],
    ensures
        sum_slack(next, ends, d) >= 0,
    decreases d,
{
    if d > 0 {
        lemma_sum_slack_nonneg(next, ends, d - 1);
    }
}

/// Advancing one write cursor by one lowers the total slack by one.
proof fn lemma_sum_slack_bump(a: Seq<usize>, b: Seq<usize>, ends: Seq<usize>, j: int, d: int)
    requires
        a.len() == b.len(),
        0 <= j < a.len(),
        d <= a.len(),
        b[j] == a[j] + 1,
        forall|k: int| 0 <= k < a.len() && k != j ==> a[k] == #[trigger] b[k],
    ensures
        sum_slack(b, ends, d) == sum_slack(a, ends, d) - if j < d {
            1int
        } else {
            0int
        },
    decreases d,
{
    if d > 0 {
        lemma_sum_slack_bump(a, b, ends, j, d - 1);
    }
}

/// The lower boundary of bucket `d`: the start of the region for digit 0,
/// the end of the previous bucket otherwise.
spec fn bucket_lo(ends: Seq<usize>, lo: int, d: int) -> int {
    if d <= 0 {
        lo
    } else {
        ends[d - 1] as int
    }
}

/// A well-formed table of bucket end boundaries over the region `[lo, hi)`.
spec fn ends_wf(ends: Seq<usize>, lo: int, hi: int) -> bool {
    &&& ends.len() == 256
    &&& ends[255] == hi
    &&& forall|d: int| 0 <= d < 256 ==> lo <= bucket_lo(ends, lo, d) <= #[trigger] ends[d] <= hi
}

/// Bucket boundaries grow with the digit.
proof fn lemma_ends_chain(ends: Seq<usize>, lo: int, hi: int, d1: int, d2: int)
    requires
        ends_wf(ends, lo, hi),
        0 <= d1 < d2 < 256,
    ensures
        ends[d1] <= bucket_lo(ends, lo, d2),
    decreases d2 - d1,
{
    if d1 + 1 < d2 {
        lemma_ends_chain(ends, lo, hi, d1, d2 - 1);
        assert(bucket_lo(ends, lo, d2 - 1) <= ends[d2 - 1]);
    }
}

/// A position lies in the range of at most one bucket.
proof fn lemma_bucket_distinct(ends: Seq<usize>, lo: int, hi: int, d1: int, d2: int, p: int)
    requires
        ends_wf(ends, lo, hi),
        0 <= d1 < 256,
        0 <= d2 < 256,
        bucket_lo(ends, lo, d1) <= p < ends[d1],
        bucket_lo(ends, lo, d2) <= p < ends[d2],
    ensures
        d1 == d2,
{
    if d1 < d2 {
        lemma_ends_chain(ends, lo, hi, d1, d2);
    }
    if d2 < d1 {
        lemma_ends_chain(ends, lo, hi, d2, d1);
    }
}

/// Every position of `[lo, upto)` lies inside the bucket that its element's
/// digit at `level` selects.
spec fn routed_upto<T: Bytify>(
    s: Seq<T>,
    ends: Seq<usize>,
    lo: int,
    upto: int,
    level: int,
) -> bool {
    forall|p: int|
        lo <= p < upto ==> {
            let d = (#[trigger] s[p]).digit(level);
            bucket_lo(ends, lo, d) <= p && p < ends[d]
        }
}

/// Every already-written part of a bucket holds only that bucket's digit,
/// except possibly at the position `except` under the traversal cursor.
spec fn placed_ok<T: Bytify>(
    s: Seq<T>,
    ends: Seq<usize>,
    next: Seq<usize>,
    lo: int,
    level: int,
    except: int,
) -> bool {
    forall|dd: int, p: int|
        #![trigger s[p].digit(level), next[dd]]
        0 <= dd < 256 && bucket_lo(ends, lo, dd) <= p < next[dd] && p != except ==> s[p].digit(
            level,
        ) == dd
}

/// Partition `v[lo..hi]` in place into 256 contiguous buckets in ascending
/// order of the digit at `level`, and return the bucket end boundaries.
#[verifier::rlimit(50)]
fn distribute<T: Bytify>(v: &mut Vec<T>, lo: usize, hi: usize, level: usize) -> (ends: Vec<usize>)
    requires
        lo <= hi <= old(v).len(),
        level < T::width(),
    ensures
        final(v)@.len() == old(v)@.len(),
        forall|p: int|
            0 <= p < lo || hi <= p < old(v)@.len() ==> final(v)@[p] == #[trigger] old(v)@[p],
        final(v)@.subrange(lo as int, hi as int).to_multiset() == old(v)@.subrange(
            lo as int,
            hi as int,
        ).to_multiset(),
        ends_wf(ends@, lo as int, hi as int),
        routed_upto(final(v)@, ends@, lo as int, hi as int, level as int),
{
    let ghost gl = lo as int;
    let ghost gh = hi as int;
    let ghost glev = level as int;
    let ghost m_all = old(v)@.subrange(gl, gh).to_multiset();

    // Histogram of the digits at `level`.
    let mut counts: Vec<usize> = vec![0; 256];
    proof {
        lemma_sum_prefix_zero(counts@, 256);
        broadcast use vstd::seq_lib::group_to_multiset_ensures;

        assert(v@.subrange(gl, gl) =~= Seq::<T>::empty());
        assert forall|dd: int| 0 <= dd < 256 implies #[trigger] counts@[dd] == digit_count(
            v@.subrange(gl, gl).to_multiset(),
            glev,
            dd,
        ) by {
            lemma_digit_count_le(v@.subrange(gl, gl).to_multiset(), glev, dd);
            assert(v@.subrange(gl, gl).to_multiset().len() == 0);
        }
    }
    let mut i: usize = lo;
    while i < hi
        invariant
            v@ == old(v)@,
            lo <= i <= hi <= v@.len(),
            level < T::width(),
            counts@.len() == 256,
            forall|dd: int|
                0 <= dd < 256 ==> #[trigger] counts@[dd] == digit_count(
                    v@.subrange(gl, i as int).to_multiset(),
                    glev,
                    dd,
                ),
            sum_prefix(counts@, 256) == i - lo,
            gl == lo as int,
            gh == hi as int,
            glev == level as int,
        decreases hi - i,
    {
        broadcast use vstd::seq_lib::group_to_multiset_ensures;

        let x = v[i];
        let dx = x.bytify(level).unwrap();
        proof {
            x.lemma_digit_bounded(glev);
            assert(dx == x.digit(glev));
            let msub = v@.subrange(gl, i as int).to_multiset();
            lemma_digit_count_le(msub, glev, dx as int);
            assert(v@.subrange(gl, i as int).len() == i - lo);
        }
        let c = counts[dx];
        let ghost counts0 = counts@;
        counts.set(dx, c + 1);
        proof {
            assert(v@.subrange(gl, i as int + 1) =~= v@.subrange(gl, i as int).push(
                v@[i as int],
            ));
            let msub = v@.subrange(gl, i as int).to_multiset();
            lemma_digit_count_insert(msub, x, glev);
            lemma_sum_prefix_bump(counts0, counts@, dx as int, 256);
        }
        i = i + 1;
    }

    // Exclusive prefix sums: bucket start offsets and end boundaries.
    let mut ends: Vec<usize> = Vec::new();
    let mut next: Vec<usize> = Vec::new();
    let mut total: usize = lo;
    let mut d: usize = 0;
    while d < 256
        invariant
            v@ == old(v)@,
            lo <= hi <= v@.len(),
            level < T::width(),
            counts@.len() == 256,
            forall|dd: int|
                0 <= dd < 256 ==> #[trigger] counts@[dd] == digit_count(m_all, glev, dd),
            sum_prefix(counts@, 256) == hi - lo,
            d <= 256,
            ends@.len() == d,
            next@.len() == d,
            total == lo + sum_prefix(counts@, d as int),
            total <= hi,
            forall|k: int| 0 <= k < d ==> #[trigger] ends@[k] == lo + sum_prefix(counts@, k + 1),
            forall|k: int| 0 <= k < d ==> #[trigger] next@[k] == lo + sum_prefix(counts@, k),
            gl == lo as int,
            gh == hi as int,
            glev == level as int,
            m_all == v@.subrange(gl, gh).to_multiset(),
        decreases 256 - d,
    {
        let c = counts[d];
        proof {
            lemma_sum_prefix_mono(counts@, d as int + 1, 256);
            assert(sum_prefix(counts@, d as int + 1) == sum_prefix(counts@, d as int)
                + counts@[d as int]);
        }
        next.push(total);
        total = total + c;
        ends.push(total);
        d = d + 1;
    }
    proof {
        assert forall|dd: int| 0 <= dd < 256 implies gl <= bucket_lo(ends@, gl, dd)
            <= #[trigger] ends@[dd] <= gh by {
            lemma_sum_prefix_mono(counts@, 0, dd);
            lemma_sum_prefix_mono(counts@, dd, dd + 1);
            lemma_sum_prefix_mono(counts@, dd + 1, 256);
        }
        assert(ends_wf(ends@, gl, gh));
        assert forall|dd: int| 0 <= dd < 256 implies bucket_lo(ends@, gl, dd)
            == #[trigger] next@[dd] by {
        }
        assert forall|dd: int| 0 <= dd < 256 implies ends@[dd] - bucket_lo(ends@, gl, dd)
            == #[trigger] counts@[dd] by {
            assert(sum_prefix(counts@, dd + 1) == sum_prefix(counts@, dd) + counts@[dd]);
        }
    }

    // In-place permutation pass, following cycles.
    let mut i: usize = lo;
    while i < hi
        invariant
            v@.len() == old(v)@.len(),
            lo <= i <= hi <= v@.len(),
            level < T::width(),
            counts@.len() == 256,
            ends@.len() == 256,
            next@.len() == 256,
            forall|dd: int|
                0 <= dd < 256 ==> #[trigger] counts@[dd] == digit_count(m_all, glev, dd),
            ends_wf(ends@, gl, gh),
            forall|dd: int|
                0 <= dd < 256 ==> bucket_lo(ends@, gl, dd) <= #[trigger] next@[dd] <= ends@[dd],
            forall|dd: int|
                0 <= dd < 256 ==> ends@[dd] - bucket_lo(ends@, gl, dd) == #[trigger] counts@[dd],
            forall|p: int| 0 <= p < lo || hi <= p < v@.len() ==> v@[p] == #[trigger] old(v)@[p],
            v@.subrange(gl, gh).to_multiset() == m_all,
            placed_ok(v@, ends@, next@, gl, glev, i as int),
            routed_upto(v@, ends@, gl, i as int, glev),
            gl == lo as int,
            gh == hi as int,
            glev == level as int,
            m_all == old(v)@.subrange(gl, gh).to_multiset(),
        decreases hi - i + sum_slack(next@, ends@, 256),
    {
        let x = v[i];
        let j = x.bytify(level).unwrap();
        proof {
            x.lemma_digit_bounded(glev);
        }
        let ghost jj = j as int;
        let ghost bl = bucket_lo(ends@, gl, jj);
        let nj = next[j];
        let ej = ends[j];
        if nj == ej {
            proof {
                lemma_sum_slack_nonneg(next@, ends@, 256);
                let cur = v@;
                assert(jj == x.digit(glev));
                assert(x == cur[i as int]);
                if !(bl <= i < ends@[jj]) {
                    // Bucket `jj` is complete, yet the element at `i` carries
                    // digit `jj` and sits outside it: one digit-`jj` element
                    // too many, contradicting the histogram.
                    assert forall|q: int| 0 <= q < cur.subrange(bl, ends@[jj] as int).len()
                        implies #[trigger] cur.subrange(bl, ends@[jj] as int)[q].digit(glev)
                        == jj by {
                        let p = bl + q;
                        assert(cur.subrange(bl, ends@[jj] as int)[q] == cur[p]);
                        assert(bucket_lo(ends@, gl, jj) <= p < next@[jj]);
                        assert(p != i as int);
                        assert(cur[p].digit(glev) == jj);
                    }
                    lemma_digit_count_all(cur.subrange(bl, ends@[jj] as int), glev, jj);
                    lemma_digit_count_pos(cur.subrange(i as int, i as int + 1), glev, 0);
                    assert(cur.subrange(i as int, i as int + 1)[0] == cur[i as int]);
                    assert(digit_count(
                        cur.subrange(i as int, i as int + 1).to_multiset(),
                        glev,
                        jj,
                    ) >= 1);
                    assert(digit_count(
                        cur.subrange(bl, ends@[jj] as int).to_multiset(),
                        glev,
                        jj,
                    ) == ends@[jj] - bl);
                    assert(digit_count(cur.subrange(gl, gh).to_multiset(), glev, jj)
                        == counts@[jj]);
                    assert(counts@[jj] == ends@[jj] - bl);
                    if i < bl {
                        lemma_subrange_split(cur, gl, i as int, gh);
                        lemma_subrange_split(cur, i as int, i as int + 1, gh);
                        lemma_subrange_split(cur, i as int + 1, bl, gh);
                        lemma_subrange_split(cur, bl, ends@[jj] as int, gh);
                        lemma_digit_count_add(
                            cur.subrange(gl, i as int).to_multiset(),
                            cur.subrange(i as int, gh).to_multiset(),
                            glev,
                        );
                        lemma_digit_count_add(
                            cur.subrange(i as int, i as int + 1).to_multiset(),
                            cur.subrange(i as int + 1, gh).to_multiset(),
                            glev,
                        );
                        lemma_digit_count_add(
                            cur.subrange(i as int + 1, bl).to_multiset(),
                            cur.subrange(bl, gh).to_multiset(),
                            glev,
                        );
                        lemma_digit_count_add(
                            cur.subrange(bl, ends@[jj] as int).to_multiset(),
                            cur.subrange(ends@[jj] as int, gh).to_multiset(),
                            glev,
                        );
                    } else {
                        assert(ends@[jj] <= i);
                        lemma_subrange_split(cur, gl, bl, gh);
                        lemma_subrange_split(cur, bl, ends@[jj] as int, gh);
                        lemma_subrange_split(cur, ends@[jj] as int, i as int, gh);
                        lemma_subrange_split(cur, i as int, i as int + 1, gh);
                        lemma_digit_count_add(
                            cur.subrange(gl, bl).to_multiset(),
                            cur.subrange(bl, gh).to_multiset(),
                            glev,
                        );
                        lemma_digit_count_add(
                            cur.subrange(bl, ends@[jj] as int).to_multiset(),
                            cur.subrange(ends@[jj] as int, gh).to_multiset(),
                            glev,
                        );
                        lemma_digit_count_add(
                            cur.subrange(ends@[jj] as int, i as int).to_multiset(),
                            cur.subrange(i as int, gh).to_multiset(),
                            glev,
                        );
                        lemma_digit_count_add(
                            cur.subrange(i as int, i as int + 1).to_multiset(),
                            cur.subrange(i as int + 1, gh).to_multiset(),
                            glev,
                        );
                    }
                    assert(false);
                }
                // The element under the cursor is already inside its own
                // complete bucket, so the cursor may move on.
                assert forall|dd: int, p: int|
                    #![trigger cur[p].digit(glev), next@[dd]]
                    0 <= dd < 256 && bucket_lo(ends@, gl, dd) <= p < next@[dd] && p != i as int
                        + 1 implies cur[p].digit(glev) == dd by {
                    if p == i as int {
                        lemma_bucket_distinct(ends@, gl, gh, dd, jj, p);
                    }
                }
            }
            i = i + 1;
        } else if nj == i {
            // The element is the next one its own bucket expects: commit it.
            let ghost next0 = next@;
            next.set(j, nj + 1);
            proof {
                lemma_sum_slack_nonneg(next@, ends@, 256);
                lemma_sum_slack_bump(next0, next@, ends@, jj, 256);
                let cur = v@;
                assert forall|dd: int, p: int|
                    #![trigger cur[p].digit(glev), next@[dd]]
                    0 <= dd < 256 && bucket_lo(ends@, gl, dd) <= p < next@[dd] && p != i as int
                        + 1 implies cur[p].digit(glev) == dd by {
                    if p == i as int {
                        lemma_bucket_distinct(ends@, gl, gh, dd, jj, p);
                    } else {
                        assert(bucket_lo(ends@, gl, dd) <= p < next0[dd]);
                    }
                }
            }
            i = i + 1;
        } else {
            // Route the element to its bucket's write cursor and re-examine
            // whatever lands under the traversal cursor.
            let ghost pre = v@;
            let ghost next0 = next@;
            exchange(v, i, nj);
            next.set(j, nj + 1);
            proof {
                lemma_sum_slack_nonneg(next@, ends@, 256);
                lemma_sum_slack_bump(next0, next@, ends@, jj, 256);
                lemma_exchange_subrange(pre, gl, gh, i as int, nj as int);
                let cur = v@;
                assert(cur == pre.update(i as int, pre[nj as int]).update(nj as int, pre[i as int]));
                assert forall|dd: int, p: int|
                    #![trigger cur[p].digit(glev), next@[dd]]
                    0 <= dd < 256 && bucket_lo(ends@, gl, dd) <= p < next@[dd] && p != i as int
                        implies cur[p].digit(glev) == dd by {
                    if p == nj as int {
                        lemma_bucket_distinct(ends@, gl, gh, dd, jj, p);
                    } else {
                        assert(cur[p] == pre[p]);
                        assert(bucket_lo(ends@, gl, dd) <= p < next0[dd]);
                    }
                }
                assert forall|p: int| gl <= p < i as int implies bucket_lo(
                    ends@,
                    gl,
                    (#[trigger] cur[p]).digit(glev),
                ) <= p < ends@[cur[p].digit(glev)] by {
                    if p != nj as int {
                        assert(cur[p] == pre[p]);
                    } else {
                        assert(cur[p] == pre[i as int]);
                        assert(cur[p].digit(glev) == jj);
                        assert(bucket_lo(ends@, gl, jj) <= nj < ends@[jj]);
                    }
                }
            }
        }
    }
    ends
}

/// All elements of `s` agree on every digit before `level`.
pub open spec fn uniform_up_to<T: Bytify>(s: Seq<T>, level: int) -> bool {
    forall|i: int, j: int, m: int|
        #![trigger s[i].digit(m), s[j].digit(m)]
        0 <= i < s.len() && 0 <= j < s.len() && 0 <= m < level ==> s[i].digit(m) == s[j].digit(m)
}

/// Agreement on the leading digits depends only on which elements a sequence
/// holds, not on their order.
proof fn lemma_uniform_transfer<T: Bytify>(a: Seq<T>, b: Seq<T>, level: int)
    requires
        a.to_multiset() == b.to_multiset(),
        uniform_up_to(a, level),
    ensures
        uniform_up_to(b, level),
{
    broadcast use vstd::seq_lib::group_to_multiset_ensures;

    assert forall|i: int, j: int, m: int|
        #![trigger b[i].digit(m), b[j].digit(m)]
        0 <= i < b.len() && 0 <= j < b.len() && 0 <= m < level implies b[i].digit(m) == b[j].digit(
        m,
    ) by {
        assert(b.to_multiset().count(b[i]) > 0);
        assert(b.to_multiset().count(b[j]) > 0);
        assert(a.contains(b[i]));
        assert(a.contains(b[j]));
        let ki = choose|ki: int| 0 <= ki < a.len() && a[ki] == b[i];
        let kj = choose|kj: int| 0 <= kj < a.len() && a[kj] == b[j];
        assert(a[ki].digit(m) == a[kj].digit(m));
    }
}

/// Once a region is partitioned at the type's last significance level,
/// it is sorted outright: within a bucket all digits agree, across buckets
/// the final digit decides.
proof fn lemma_last_level_sorted<T: Bytify>(
    s: Seq<T>,
    ends: Seq<usize>,
    lo: int,
    hi: int,
    level: int,
)
    requires
        0 <= lo <= hi <= s.len(),
        ends_wf(ends, lo, hi),
        routed_upto(s, ends, lo, hi, level),
        uniform_up_to(s.subrange(lo, hi), level),
        0 <= level,
        T::width() == level + 1,
    ensures
        sorted_between(s, lo, hi),
{
    assert forall|p: int, q: int|
        #![trigger s[p].key(), s[q].key()]
        lo <= p <= q < hi implies s[p].key() <= s[q].key() by {
        let dp = s[p].digit(level);
        let dq = s[q].digit(level);
        s[p].lemma_digit_bounded(level);
        s[q].lemma_digit_bounded(level);
        assert(bucket_lo(ends, lo, dp) <= p < ends[dp]);
        assert(bucket_lo(ends, lo, dq) <= q < ends[dq]);
        assert forall|m: int| 0 <= m < level implies #[trigger] s[p].digit(m) == s[q].digit(
            m,
        ) by {
            assert(s.subrange(lo, hi)[p - lo] == s[p]);
            assert(s.subrange(lo, hi)[q - lo] == s[q]);
            assert(s.subrange(lo, hi)[p - lo].digit(m) == s.subrange(lo, hi)[q - lo].digit(m));
        }
        if dp == dq {
            s[p].lemma_digit_eq(s[q]);
        } else if dp < dq {
            s[p].lemma_digit_lt(s[q], level);
        } else {
            lemma_ends_chain(ends, lo, hi, dq, dp);
            assert(false);
        }
    }
}

/// Once the buckets up to `k` are each sorted and the whole region is
/// bucketed, the sorted stretch extends across bucket `k`.
proof fn lemma_extend_sorted<T: Bytify>(
    s: Seq<T>,
    ends: Seq<usize>,
    lo: int,
    hi: int,
    level: int,
    k: int,
)
    requires
        0 <= lo <= hi <= s.len(),
        ends_wf(ends, lo, hi),
        routed_upto(s, ends, lo, hi, level),
        uniform_up_to(s.subrange(lo, hi), level),
        0 <= level < T::width(),
        0 <= k < 256,
        sorted_between(s, lo, bucket_lo(ends, lo, k)),
        sorted_between(s, bucket_lo(ends, lo, k), ends[k] as int),
    ensures
        sorted_between(s, lo, ends[k] as int),
{
    let prev = bucket_lo(ends, lo, k);
    assert forall|p: int, q: int|
        #![trigger s[p].key(), s[q].key()]
        lo <= p <= q < ends[k] implies s[p].key() <= s[q].key() by {
        if q < prev || p >= prev {
        } else {
            let dp = s[p].digit(level);
            let dq = s[q].digit(level);
            s[p].lemma_digit_bounded(level);
            s[q].lemma_digit_bounded(level);
            assert(bucket_lo(ends, lo, dp) <= p < ends[dp]);
            assert(bucket_lo(ends, lo, dq) <= q < ends[dq]);
            lemma_bucket_distinct(ends, lo, hi, dq, k, q);
            if dp > k {
                lemma_ends_chain(ends, lo, hi, k, dp);
                assert(false);
            }
            if dp == k {
                assert(false);
            }
            assert forall|m: int| 0 <= m < level implies #[trigger] s[p].digit(m) == s[q].digit(
                m,
            ) by {
                assert(s.subrange(lo, hi)[p - lo] == s[p]);
                assert(s.subrange(lo, hi)[q - lo] == s[q]);
                assert(s.subrange(lo, hi)[p - lo].digit(m) == s.subrange(lo, hi)[q - lo].digit(m));
            }
            s[p].lemma_digit_lt(s[q], level);
        }
    }
}

/// Sort `v[lo..hi]` in place by digit distribution, starting at significance
/// level `level`, assuming all elements of the region already agree on every
/// digit before `level`.
pub fn radix_sort<T: Bytify>(v: &mut Vec<T>, lo: usize, hi: usize, level: usize)
    requires
        lo <= hi <= old(v).len(),
        level < T::width(),
        uniform_up_to(old(v)@.subrange(lo as int, hi as int), level as int),
    ensures
        final(v)@.len() == old(v)@.len(),
        forall|p: int|
            0 <= p < lo || hi <= p < old(v)@.len() ==> final(v)@[p] == #[trigger] old(v)@[p],
        final(v)@.subrange(lo as int, hi as int).to_multiset() == old(v)@.subrange(
            lo as int,
            hi as int,
        ).to_multiset(),
        sorted_between(final(v)@, lo as int, hi as int),
    decreases T::width() - level,
{
    let ghost gl = lo as int;
    let ghost gh = hi as int;
    let ghost glev = level as int;
    let ghost m_all = old(v)@.subrange(gl, gh).to_multiset();

    let ends = distribute(v, lo, hi, level);
    proof {
        lemma_uniform_transfer(old(v)@.subrange(gl, gh), v@.subrange(gl, gh), glev);
    }

    let w = T::byte_width();
    if w <= level + 1 {
        proof {
            lemma_last_level_sorted::<T>(v@, ends@, gl, gh, glev);
        }
        return;
    }

    let mut k: usize = 0;
    let mut prev: usize = lo;
    while k < 256
        invariant
            v@.len() == old(v)@.len(),
            lo <= hi <= v@.len(),
            level as int + 1 < T::width(),
            T::width() <= usize::MAX,
            ends_wf(ends@, gl, gh),
            k <= 256,
            prev == bucket_lo(ends@, gl, k as int),
            lo <= prev <= hi,
            forall|p: int| 0 <= p < lo || hi <= p < v@.len() ==> v@[p] == #[trigger] old(v)@[p],
            v@.subrange(gl, gh).to_multiset() == m_all,
            routed_upto(v@, ends@, gl, gh, glev),
            uniform_up_to(v@.subrange(gl, gh), glev),
            sorted_between(v@, gl, prev as int),
            gl == lo as int,
            gh == hi as int,
            glev == level as int,
            m_all == old(v)@.subrange(gl, gh).to_multiset(),
        decreases 256 - k,
    {
        let ghost gk = k as int;
        let b_end = ends[k];
        proof {
            assert(prev <= b_end);
        }
        if b_end - prev > 1 {
            let ghost s1 = v@;
            proof {
                // Every element of the bucket carries digit `k` at `level`.
                assert forall|a: int| 0 <= a < b_end - prev implies (#[trigger] s1.subrange(
                    prev as int,
                    b_end as int,
                )[a]).digit(glev) == gk by {
                    let p = prev + a;
                    assert(s1.subrange(prev as int, b_end as int)[a] == s1[p]);
                    let dp = s1[p].digit(glev);
                    s1[p].lemma_digit_bounded(glev);
                    assert(bucket_lo(ends@, gl, dp) <= p < ends@[dp]);
                    lemma_bucket_distinct(ends@, gl, gh, dp, gk, p);
                }
                // And they agree on all digits up to `level + 1`.
                assert forall|a: int, b: int, m: int|
                    #![trigger s1.subrange(prev as int, b_end as int)[a].digit(m), s1.subrange(prev as int, b_end as int)[b].digit(m)]
                    0 <= a < b_end - prev && 0 <= b < b_end - prev && 0 <= m < glev
                        + 1 implies s1.subrange(prev as int, b_end as int)[a].digit(m)
                    == s1.subrange(prev as int, b_end as int)[b].digit(m) by {
                    let p = prev + a;
                    let q = prev + b;
                    assert(s1.subrange(prev as int, b_end as int)[a] == s1[p]);
                    assert(s1.subrange(prev as int, b_end as int)[b] == s1[q]);
                    if m < glev {
                        assert(s1.subrange(gl, gh)[p - gl] == s1[p]);
                        assert(s1.subrange(gl, gh)[q - gl] == s1[q]);
                        assert(s1.subrange(gl, gh)[p - gl].digit(m) == s1.subrange(gl, gh)[q
                            - gl].digit(m));
                    } else {
                        assert(s1.subrange(prev as int, b_end as int)[a].digit(glev) == gk);
                        assert(s1.subrange(prev as int, b_end as int)[b].digit(glev) == gk);
                    }
                }
            }
            radix_sort(v, prev, b_end, level + 1);
            let ghost s2 = v@;
            proof {
                // The rest of the region is untouched, so the multiset of the
                // whole region, the bucketing and the digit agreement carry
                // over; the freshly sorted bucket extends the sorted stretch.
                assert(s2.subrange(gl, prev as int) =~= s1.subrange(gl, prev as int));
                assert(s2.subrange(b_end as int, gh) =~= s1.subrange(b_end as int, gh));
                lemma_subrange_split(s1, gl, prev as int, gh);
                lemma_subrange_split(s1, prev as int, b_end as int, gh);
                lemma_subrange_split(s2, gl, prev as int, gh);
                lemma_subrange_split(s2, prev as int, b_end as int, gh);
                assert(s2.subrange(gl, gh).to_multiset() == m_all);
                lemma_multiset_all(
                    s1.subrange(prev as int, b_end as int),
                    s2.subrange(prev as int, b_end as int),
                    has_digit::<T>(glev, gk),
                );
                assert forall|p: int| gl <= p < gh implies {
                    let d = (#[trigger] s2[p]).digit(glev);
                    bucket_lo(ends@, gl, d) <= p && p < ends@[d]
                } by {
                    if p < prev || b_end <= p {
                        assert(s2[p] == s1[p]);
                    } else {
                        assert(s2.subrange(prev as int, b_end as int)[p - prev] == s2[p]);
                        assert(has_digit::<T>(glev, gk)(
                            s2.subrange(prev as int, b_end as int)[p - prev],
                        ));
                        assert(s2[p].digit(glev) == gk);
                    }
                }
                lemma_uniform_transfer(s1.subrange(gl, gh), s2.subrange(gl, gh), glev);
                assert forall|p: int, q: int|
                    #![trigger s2[p].key(), s2[q].key()]
                    gl <= p <= q < prev implies s2[p].key() <= s2[q].key() by {
                    assert(s2[p] == s1[p]);
                    assert(s2[q] == s1[q]);
                }
                lemma_extend_sorted::<T>(s2, ends@, gl, gh, glev, gk);
            }
        } else {
            proof {
                lemma_extend_sorted::<T>(v@, ends@, gl, gh, glev, gk);
            }
        }
        prev = b_end;
        k = k + 1;
    }
}

impl<T: Bytify> Sorter<T> for RadixSort {
    fn sort(&self, v: &mut Vec<T>) {
        proof {
            T::lemma_width_pos();
        }
        let n = v.len();
        radix_sort(v, 0, n, 0);
        proof {
            assert(v@.subrange(0, n as int) =~= v@);
            assert(old(v)@.subrange(0, n as int) =~= old(v)@);
        }
    }
}

/// Two `u32` values with the same big-endian bytes are equal.
proof fn lemma_be32_lex_eq(a: u32, b: u32)
    requires
        forall|m: int| 0 <= m < 4 ==> #[trigger] be_byte32(a, m) == be_byte32(b, m),
    ensures
        a == b,
{
    assert(be_byte32(a, 0) == be_byte32(b, 0));
    assert(be_byte32(a, 1) == be_byte32(b, 1));
    assert(be_byte32(a, 2) == be_byte32(b, 2));
    assert(be_byte32(a, 3) == be_byte32(b, 3));
    assert(((a >> 24u32) & 0xffu32 == (b >> 24u32) & 0xffu32 && (a >> 16u32) & 0xffu32 == (b >> 16u32) & 0xffu32
        && (a >> 8u32) & 0xffu32 == (b >> 8u32) & 0xffu32 && a & 0xffu32 == b & 0xffu32) ==> a == b)
        by (bit_vector);
}

} // verus!
