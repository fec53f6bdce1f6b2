//! Index arithmetic for Fourier analysis

use crate::sort::lemma_swap_multiset;
use vstd::arithmetic::power2::{lemma2_to64, pow2};
use vstd::prelude::*;

verus! {

/// Bit `i` of `a`, counted from the least significant one. Positions outside
/// the eight bits of a `u8` hold no bit.
pub open spec fn bit(a: u8, i: int) -> bool {
    0 <= i < 8 && (a >> (i as u8)) & 1u8 == 1u8
}

/// What one round of the reversal does to the bits of the accumulator:
/// the lowest bit of `n` enters at the bottom and all others move up by one.
proof fn lemma_push_bit(r: u8, n: u8, i: int)
    requires
        0 <= i < 8,
    ensures
        bit((r << 1u8) | (n & 1u8), i) == (if i == 0 {
            bit(n, 0)
        } else {
            bit(r, i - 1)
        }),
{
    let s: u8 = i as u8;
    if i == 0 {
        assert((((r << 1u8) | (n & 1u8)) >> 0u8) & 1u8 == (n >> 0u8) & 1u8) by (bit_vector);
    } else {
        let p: u8 = (i - 1) as u8;
        assert((((r << 1u8) | (n & 1u8)) >> s) & 1u8 == (r >> p) & 1u8) by (bit_vector)
            requires
                1u8 <= s < 8u8,
                p == s - 1u8,
        ;
    }
}

/// Shifting right by one moves every bit down by one and clears the top one.
proof fn lemma_drop_bit(n: u8, i: int)
    requires
        0 <= i < 8,
    ensures
        bit(n >> 1u8, i) == bit(n, i + 1),
{
    let s: u8 = i as u8;
    if i == 7 {
        assert(((n >> 1u8) >> 7u8) & 1u8 == 0u8) by (bit_vector);
    } else {
        let q: u8 = (i + 1) as u8;
        assert(((n >> 1u8) >> s) & 1u8 == (n >> q) & 1u8) by (bit_vector)
            requires
                s < 7u8,
                q == s + 1u8,
        ;
    }
}

proof fn lemma_zero_has_no_bit(i: int)
    ensures
        !bit(0u8, i),
{
    if 0 <= i < 8 {
        let s: u8 = i as u8;
        assert((0u8 >> s) & 1u8 == 0u8) by (bit_vector);
    }
}

/// `r` holds the lowest `bit_size` bits of `a` in reverse order: bit `i` of
/// `r` is bit `bit_size - 1 - i` of `a`, and zero where that position lies
/// outside the eight bits of `a`.
pub open spec fn is_reversal(a: u8, bit_size: u8, r: u8) -> bool {
    forall|i: int| 0 <= i < 8 ==> (#[trigger] bit(r, i) <==> (i < bit_size && bit(a, bit_size - 1 - i)))
}

/// Two numbers with the same eight bits are the same number.
pub proof fn lemma_bits_determine(a: u8, b: u8)
    requires
        forall|i: int| 0 <= i < 8 ==> bit(a, i) == bit(b, i),
    ensures
        a == b,
{
    assert(bit(a, 0) == bit(b, 0));
    assert(bit(a, 1) == bit(b, 1));
    assert(bit(a, 2) == bit(b, 2));
    assert(bit(a, 3) == bit(b, 3));
    assert(bit(a, 4) == bit(b, 4));
    assert(bit(a, 5) == bit(b, 5));
    assert(bit(a, 6) == bit(b, 6));
    assert(bit(a, 7) == bit(b, 7));
    assert(a == b) by (bit_vector)
        requires
            ((a >> 0u8) & 1u8 == 1u8) == ((b >> 0u8) & 1u8 == 1u8),
            ((a >> 1u8) & 1u8 == 1u8) == ((b >> 1u8) & 1u8 == 1u8),
            ((a >> 2u8) & 1u8 == 1u8) == ((b >> 2u8) & 1u8 == 1u8),
            ((a >> 3u8) & 1u8 == 1u8) == ((b >> 3u8) & 1u8 == 1u8),
            ((a >> 4u8) & 1u8 == 1u8) == ((b >> 4u8) & 1u8 == 1u8),
            ((a >> 5u8) & 1u8 == 1u8) == ((b >> 5u8) & 1u8 == 1u8),
            ((a >> 6u8) & 1u8 == 1u8) == ((b >> 6u8) & 1u8 == 1u8),
            ((a >> 7u8) & 1u8 == 1u8) == ((b >> 7u8) & 1u8 == 1u8),
    ;
}

/// A number has one reversal for a given size.
pub proof fn lemma_reversal_is_unique(a: u8, bit_size: u8, r: u8, s: u8)
    requires
        is_reversal(a, bit_size, r),
        is_reversal(a, bit_size, s),
    ensures
        r == s,
{
    assert forall|i: int| 0 <= i < 8 implies bit(r, i) == bit(s, i) by {
        assert(bit(r, i) <==> (i < bit_size && bit(a, bit_size - 1 - i)));
        assert(bit(s, i) <==> (i < bit_size && bit(a, bit_size - 1 - i)));
    }
    lemma_bits_determine(r, s);
}

/// Reversing all eight bits twice gives the number back.
pub proof fn lemma_reversal_is_involution(a: u8, r: u8, back: u8)
    requires
        is_reversal(a, 8, r),
        is_reversal(r, 8, back),
    ensures
        back == a,
{
    assert forall|i: int| 0 <= i < 8 implies bit(back, i) == bit(a, i) by {
        assert(bit(back, i) <==> bit(r, 7 - i));
        assert(bit(r, 7 - i) <==> bit(a, 8 - 1 - (7 - i)));
    }
    lemma_bits_determine(back, a);
}

/// Bit reverse number *a* with a given *bit_size*.
/// This is used in the FFT algorithm.
///
/// The lowest `bit_size` bits of `a` come out in reverse order. With a size
/// above eight the reversed bits are shifted up, out of the result.
pub fn bit_reversed(a: u8, bit_size: u8) -> (result: u8)
    ensures
        is_reversal(a, bit_size, result),
{
    let mut result: u8 = 0;
    let mut n: u8 = a;
    let mut k: u8 = 0;
    proof {
        assert forall|i: int| 0 <= i < 8 implies !#[trigger] bit(result, i) by {
            lemma_zero_has_no_bit(i);
        }
    }
    while k < bit_size
        invariant
            k <= bit_size,
            forall|i: int| 0 <= i < 8 ==> (#[trigger] bit(n, i) <==> bit(a, i + k)),
            forall|i: int| 0 <= i < 8 ==> (#[trigger] bit(result, i) <==> (i < k && bit(a, k - 1 - i))),
        decreases bit_size - k,
    {
        let ghost r0 = result;
        let ghost n0 = n;
        result = (result << 1) | (n & 1);
        n = n >> 1;
        proof {
            assert forall|i: int| 0 <= i < 8 implies (#[trigger] bit(n, i) <==> bit(
                a,
                i + k + 1,
            )) by {
                lemma_drop_bit(n0, i);
                if i + 1 < 8 {
                    assert(bit(n0, i + 1) <==> bit(a, i + 1 + k));
                }
            }
            assert forall|i: int| 0 <= i < 8 implies (#[trigger] bit(result, i) <==> (i < k + 1
                && bit(a, k - i))) by {
                lemma_push_bit(r0, n0, i);
                if i == 0 {
                    assert(bit(n0, 0) <==> bit(a, 0 + k));
                } else {
                    assert(bit(r0, i - 1) <==> (i - 1 < k && bit(a, k - 1 - (i - 1))));
                }
            }
        }
        k = k + 1;
    }
    result
}

/// A power of two up to the eighth is a one shifted up.
proof fn lemma_pow2_is_shift(order: u8)
    requires
        order <= 8,
    ensures
        pow2(order as nat) == (1u16 << (order as u16)),
{
    lemma2_to64();
    assert(1u16 << 0u16 == 1u16) by (bit_vector);
    assert(1u16 << 1u16 == 2u16) by (bit_vector);
    assert(1u16 << 2u16 == 4u16) by (bit_vector);
    assert(1u16 << 3u16 == 8u16) by (bit_vector);
    assert(1u16 << 4u16 == 16u16) by (bit_vector);
    assert(1u16 << 5u16 == 32u16) by (bit_vector);
    assert(1u16 << 6u16 == 64u16) by (bit_vector);
    assert(1u16 << 7u16 == 128u16) by (bit_vector);
    assert(1u16 << 8u16 == 256u16) by (bit_vector);
}

/// A number below `2^order` has no bit at `order` or above.
proof fn lemma_small_has_low_bits(a: u8, order: u8, i: int)
    requires
        order <= i < 8,
        a < pow2(order as nat),
    ensures
        !bit(a, i),
{
    lemma_pow2_is_shift(order);
    let s: u8 = i as u8;
    let wide: u16 = a as u16;
    let o: u16 = order as u16;
    assert((a >> s) & 1u8 == 0u8) by (bit_vector)
        requires
            wide == a as u16,
            o == order as u16,
            order <= s < 8u8,
            wide < (1u16 << o),
    ;
}

/// A number with no bit at `order` or above is below `2^order`.
proof fn lemma_low_bits_are_small(r: u8, order: u8)
    requires
        order <= 8,
        forall|i: int| order <= i < 8 ==> !bit(r, i),
    ensures
        r < pow2(order as nat),
{
    lemma_pow2_is_shift(order);
    let wide: u16 = r as u16;
    let o: u16 = order as u16;
    assert(order <= 0 ==> !bit(r, 0));
    assert(order <= 1 ==> !bit(r, 1));
    assert(order <= 2 ==> !bit(r, 2));
    assert(order <= 3 ==> !bit(r, 3));
    assert(order <= 4 ==> !bit(r, 4));
    assert(order <= 5 ==> !bit(r, 5));
    assert(order <= 6 ==> !bit(r, 6));
    assert(order <= 7 ==> !bit(r, 7));
    assert(wide < (1u16 << o)) by (bit_vector)
        requires
            wide == r as u16,
            o == order as u16,
            order <= 8u8,
            order <= 0u8 ==> (r >> 0u8) & 1u8 != 1u8,
            order <= 1u8 ==> (r >> 1u8) & 1u8 != 1u8,
            order <= 2u8 ==> (r >> 2u8) & 1u8 != 1u8,
            order <= 3u8 ==> (r >> 3u8) & 1u8 != 1u8,
            order <= 4u8 ==> (r >> 4u8) & 1u8 != 1u8,
            order <= 5u8 ==> (r >> 5u8) & 1u8 != 1u8,
            order <= 6u8 ==> (r >> 6u8) & 1u8 != 1u8,
            order <= 7u8 ==> (r >> 7u8) & 1u8 != 1u8,
    ;
}

/// Among the numbers below `2^order`, reversal goes both ways: the reversal
/// of such a number is below `2^order` too, and its reversal is the number.
pub proof fn lemma_reversal_of_index(a: u8, order: u8, r: u8)
    requires
        order <= 8,
        a < pow2(order as nat),
        is_reversal(a, order, r),
    ensures
        r < pow2(order as nat),
        is_reversal(r, order, a),
{
    assert forall|i: int| order <= i < 8 implies !bit(r, i) by {
        assert(bit(r, i) <==> (i < order && bit(a, order - 1 - i)));
    }
    lemma_low_bits_are_small(r, order);
    assert forall|i: int| 0 <= i < 8 implies (#[trigger] bit(a, i) <==> (i < order && bit(
        r,
        order - 1 - i,
    ))) by {
        if i < order {
            let k = order - 1 - i;
            assert(bit(r, k) <==> (k < order && bit(a, order - 1 - k)));
        } else {
            lemma_small_has_low_bits(a, order, i);
        }
    }
}

/// Put the `2^order` elements of *arr* in bit-reversed order: the element at
/// each index moves to the index with the lowest *order* bits reversed.
/// This is the first pass of the FFT algorithm.
pub fn bit_reverse_order<C>(arr: &mut [C], order: u8)
    requires
        order <= 8,
        old(arr)@.len() == pow2(order as nat),
    ensures
        final(arr)@.len() == old(arr)@.len(),
        final(arr)@.to_multiset() == old(arr)@.to_multiset(),
        forall|a: u8, r: u8|
            a < old(arr)@.len() && #[trigger] is_reversal(a, order, r) ==> r < old(arr)@.len()
                && final(arr)@[a as int] == old(arr)@[r as int],
{
    let n = arr.len();
    proof {
        lemma2_to64();
        assert forall|a: u8, r: u8| a < n && #[trigger] is_reversal(a, order, r) implies r < n by {
            lemma_reversal_of_index(a, order, r);
        }
    }
    let mut j: usize = 0;
    while j < n
        invariant
            order <= 8,
            j <= n <= 256,
            n == arr@.len() == old(arr)@.len() == pow2(order as nat),
            arr@.to_multiset() == old(arr)@.to_multiset(),
            forall|a: u8, r: u8|
                a < n && #[trigger] is_reversal(a, order, r) ==> r < n && arr@[a as int] == (if a
                    < j || r < j {
                    old(arr)@[r as int]
                } else {
                    old(arr)@[a as int]
                }),
        decreases n - j,
    {
        let ghost before = arr@;
        let here: u8 = j as u8;
        let there: u8 = bit_reversed(here, order);
        let nj: usize = there as usize;
        proof {
            lemma_reversal_of_index(here, order, there);
        }
        if j < nj {
            proof {
                lemma_swap_multiset(arr@, j as int, nj as int);
            }
            arr.swap(j, nj);
        }
        proof {
            assert forall|a: u8, r: u8| a < n && #[trigger] is_reversal(a, order, r) implies r < n
                && arr@[a as int] == (if a < j + 1 || r < j + 1 {
                old(arr)@[r as int]
            } else {
                old(arr)@[a as int]
            }) by {
                lemma_reversal_of_index(a, order, r);
                assert(before[a as int] == (if a < j || r < j {
                    old(arr)@[r as int]
                } else {
                    old(arr)@[a as int]
                }));
                assert(before[here as int] == (if here < j || there < j {
                    old(arr)@[there as int]
                } else {
                    old(arr)@[here as int]
                }));
                assert(before[there as int] == (if there < j || here < j {
                    old(arr)@[here as int]
                } else {
                    old(arr)@[there as int]
                }));
                if a == here {
                    lemma_reversal_is_unique(a, order, r, there);
                } else if r == here {
                    lemma_reversal_is_unique(here, order, a, there);
                } else if a == there {
                    lemma_reversal_is_unique(there, order, r, here);
                }
            }
        }
        j += 1;
    }
}

} // verus!
