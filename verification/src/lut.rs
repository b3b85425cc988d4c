//! Lookup tables: a table with `2^n` entries is indexed by `n` input bits,
//! input `m` contributing `2^m` to the index. These are the operations that
//! specialize a table on a known input, detect inputs that the output does
//! not depend on, and exchange two inputs.

use vstd::prelude::*;
use vstd::arithmetic::power2::{pow2, lemma2_to64, lemma_pow2_unfold, lemma_pow2_pos};

verus! {

/// Bit `k` of `x` (false outside of `0..64`).
pub open spec fn u64_bit(x: u64, k: int) -> bool {
    0 <= k < 64 && ((x >> (k as u64)) & 1u64) == 1u64
}

/// The entry of the full table that entry `k` of the table reduced on
/// input `i` being `b` comes from: `b` is inserted as bit `i` of `k`.
pub open spec fn insert_index(k: int, i: nat, b: bool) -> int {
    (k / (pow2(i) as int)) * (pow2(i + 1) as int) + (if b { pow2(i) as int } else { 0 }) + k % (
    pow2(i) as int)
}

/// The table that results from fixing input `i` to `b`.
pub open spec fn reduced<T>(lut: Seq<T>, i: nat, b: bool) -> Seq<T> {
    Seq::new(lut.len() / 2, |k: int| lut[insert_index(k, i, b)])
}

/// The output of the table does not depend on input `i`.
pub open spec fn independent_of<T>(lut: Seq<T>, i: nat) -> bool {
    forall|k: int|
        0 <= k < lut.len() / 2 ==> #[trigger] lut[insert_index(k, i, false)] == lut[insert_index(
            k,
            i,
            true,
        )]
}

/// A table length on which input `i` can be operated on: a nonzero multiple
/// of `2^(i + 1)` (every power of two with more than `i` index bits is one).
pub open spec fn lut_shape(len: nat, i: nat) -> bool {
    len > 0 && len % pow2(i + 1) == 0
}

/// Bit `m` of the index `k`.
pub open spec fn index_bit(k: int, m: nat) -> bool {
    (k / (pow2(m) as int)) % 2 == 1
}

/// The index `k` with bits `i` and `j` exchanged.
pub open spec fn swap_index(k: int, i: nat, j: nat) -> int {
    let bi: int = if index_bit(k, i) { 1 } else { 0 };
    let bj: int = if index_bit(k, j) { 1 } else { 0 };
    k + (bj - bi) * (pow2(i) as int) + (bi - bj) * (pow2(j) as int)
}

/// The table whose inputs `i` and `j` are exchanged.
pub open spec fn rotated<T>(lut: Seq<T>, i: nat, j: nat) -> Seq<T> {
    Seq::new(lut.len(), |k: int| lut[swap_index(k, i, j)])
}

pub open spec fn m_mask(i: int) -> u64 {
    if i == 0 {
        0x5555_5555_5555_5555u64
    } else if i == 1 {
        0x3333_3333_3333_3333u64
    } else if i == 2 {
        0x0f0f_0f0f_0f0f_0f0fu64
    } else if i == 3 {
        0x00ff_00ff_00ff_00ffu64
    } else if i == 4 {
        0x0000_ffff_0000_ffffu64
    } else {
        0x0000_0000_ffff_ffffu64
    }
}

pub open spec fn a_mask(i: int) -> u64 {
    if i == 0 {
        0x1111_1111_1111_1111u64
    } else if i == 1 {
        0x0303_0303_0303_0303u64
    } else if i == 2 {
        0x000f_000f_000f_000fu64
    } else if i == 3 {
        0x0000_00ff_0000_00ffu64
    } else {
        0x0000_0000_0000_ffffu64
    }
}

/// `2^i` as a shift amount
pub open spec fn shift_amt(i: int) -> u64 {
    if i == 0 {
        1u64
    } else if i == 1 {
        2u64
    } else if i == 2 {
        4u64
    } else if i == 3 {
        8u64
    } else if i == 4 {
        16u64
    } else {
        32u64
    }
}

/// The compression network that packs the kept entries downward, stages
/// `t..5`.
pub open spec fn compress(x: u64, t: int) -> u64
    decreases 5 - t,
{
    if t >= 5 {
        x
    } else {
        compress((x & a_mask(t)) | ((x & !a_mask(t)) >> shift_amt(t)), t + 1)
    }
}

fn m_mask_exec(i: usize) -> (r: u64)
    requires
        i < 6,
    ensures
        r == m_mask(i as int),
{
    if i == 0 {
        0x5555_5555_5555_5555u64
    } else if i == 1 {
        0x3333_3333_3333_3333u64
    } else if i == 2 {
        0x0f0f_0f0f_0f0f_0f0fu64
    } else if i == 3 {
        0x00ff_00ff_00ff_00ffu64
    } else if i == 4 {
        0x0000_ffff_0000_ffffu64
    } else {
        0x0000_0000_ffff_ffffu64
    }
}

fn a_mask_exec(i: usize) -> (r: u64)
    requires
        i < 5,
    ensures
        r == a_mask(i as int),
{
    if i == 0 {
        0x1111_1111_1111_1111u64
    } else if i == 1 {
        0x0303_0303_0303_0303u64
    } else if i == 2 {
        0x000f_000f_000f_000fu64
    } else if i == 3 {
        0x0000_00ff_0000_00ffu64
    } else {
        0x0000_0000_0000_ffffu64
    }
}

proof fn lemma_shift_amt(i: u64)
    requires
        i < 6,
    ensures
        (1u64 << i) == shift_amt(i as int),
{
    if i == 0 {
        assert((1u64 << 0u64) == 1u64) by (bit_vector);
    } else if i == 1 {
        assert((1u64 << 1u64) == 2u64) by (bit_vector);
    } else if i == 2 {
        assert((1u64 << 2u64) == 4u64) by (bit_vector);
    } else if i == 3 {
        assert((1u64 << 3u64) == 8u64) by (bit_vector);
    } else if i == 4 {
        assert((1u64 << 4u64) == 16u64) by (bit_vector);
    } else {
        assert((1u64 << 5u64) == 32u64) by (bit_vector);
    }
}

/// What `reduce64` computes: the entries of `lut` whose bit `i` is `bit`,
/// packed into the low 32 bits.
pub open spec fn reduce64_ok(r: u64, lut: u64, i: nat, bit: bool) -> bool {
    &&& forall|k: int| 0 <= k < 32 ==> u64_bit(r, k) == u64_bit(lut, insert_index(k, i, bit))
    &&& forall|k: int| 32 <= k < 64 ==> !u64_bit(r, k)
}

/// Reduces a table of at most 64 entries held in the low bits of `lut` on
/// input `i` being `bit`; the reduced table is in the low 32 bits.
pub fn reduce64(lut: u64, i: usize, bit: bool) -> (r: u64)
    requires
        i < 6,
    ensures
        forall|k: int| 0 <= k < 32 ==> u64_bit(r, k) == u64_bit(lut, insert_index(k, i as nat, bit)),
        forall|k: int| 32 <= k < 64 ==> !u64_bit(r, k),
{
    proof {
        lemma_shift_amt(i as u64);
    }
    let sh: u64 = if bit {
        1u64 << (i as u64)
    } else {
        0
    };
    let x0 = (lut >> sh) & m_mask_exec(i);
    let mut x = x0;
    let mut t = i;
    while t < 5
        invariant
            i <= t <= 5,
            compress(x, t as int) == compress(x0, i as int),
        decreases 5 - t,
    {
        proof {
            lemma_shift_amt(t as u64);
        }
        let a = a_mask_exec(t);
        x = (x & a) | ((x & !a) >> (1u64 << (t as u64)));
        t = t + 1;
    }
    proof {
        assert(x == compress(x, 5));
        assert(sh == (if bit { shift_amt(i as int) } else { 0u64 }));
        assert(x0 == (lut >> (if bit { shift_amt(i as int) } else { 0u64 })) & m_mask(i as int));
        assert(x == compress(x0, i as int));
        lemma_reduce64(lut, i as nat, bit);
        assert(reduce64_ok(x, lut, i as nat, bit));
    }
    x
}

/// Entry `k` of a word table reduced on input `i` being `bit` is the entry
/// of the full table whose index has the low `i` bits of `k`, then `bit`,
/// then the rest of `k` shifted up by one.
pub proof fn law_reduce64_index(k: u64, i: u64, bit: bool)
    requires
        k < 32,
        i < 6,
    ensures
        insert_index(k as int, i as nat, bit) == ((k & (((1u64 << i) - 1u64) as u64)) | ((if bit { 1u64 } else { 0u64 })
            << i) | ((k >> i) << ((i + 1) as u64))) as int,
{
    let b: u64 = if bit { 1 } else { 0 };
    assert(((k & (((1u64 << i) - 1u64) as u64)) | (b << i) | ((k >> i) << ((i + 1) as u64))) == (k & (((1u64 << i) - 1u64) as u64)) + (b << i)
        + ((k >> i) << ((i + 1) as u64))) by (bit_vector)
        requires
            k < 32,
            i < 6,
            b < 2,
    ;
    lemma2_to64();
    lemma_pow2_unfold(i as nat + 1);
    vstd::bits::lemma_u64_pow2_no_overflow(i as nat);
    let p = pow2(i as nat);
    assert(p <= 32) by {
        if i < 5 {
            vstd::arithmetic::power2::lemma_pow2_strictly_increases(i as nat, 5);
        }
    }
    vstd::bits::lemma_u64_shl_is_mul(1, i);
    vstd::bits::lemma_u64_shl_is_mul(b, i);
    vstd::bits::lemma_u64_shr_is_div(k, i);
    assert((1u64 << i) - 1u64 == vstd::bits::low_bits_mask(i as nat) as u64);
    vstd::bits::lemma_u64_low_bits_mask_is_mod(k, i as nat);
    let q = k >> i;
    assert(q <= 32) by {
        vstd::arithmetic::div_mod::lemma_div_is_ordered_by_denominator(k as int, 1, p as int);
    }
    assert(q * pow2((i + 1) as nat) <= u64::MAX) by (nonlinear_arith)
        requires
            q <= 32,
            pow2((i + 1) as nat) == 2 * p,
            p <= 32,
    ;
    vstd::bits::lemma_u64_shl_is_mul(q, (i + 1) as u64);
}

/// Bit level behavior of the halving network for input `0`.
proof fn lemma_reduce64_bits_0(lut: u64, b: u64, k: u64)
    by (bit_vector)
    requires
        b < 2,
        k < 64,
    ensures
        ({
            let x0 = (lut >> (b * 1u64)) & 0x5555555555555555u64;
            let x1 = (x0 & 0x1111111111111111u64) | ((x0 & !0x1111111111111111u64) >> 1u64);
            let x2 = (x1 & 0x0303030303030303u64) | ((x1 & !0x0303030303030303u64) >> 2u64);
            let x3 = (x2 & 0x000f000f000f000fu64) | ((x2 & !0x000f000f000f000fu64) >> 4u64);
            let x4 = (x3 & 0x000000ff000000ffu64) | ((x3 & !0x000000ff000000ffu64) >> 8u64);
            let x5 = (x4 & 0x000000000000ffffu64) | ((x4 & !0x000000000000ffffu64) >> 16u64);
            &&& k < 32 ==> ((((x5 >> k) & 1u64) == 1u64) == (((lut >> ((k / 1u64) * 2u64 + b * 1u64 + k % 1u64)) & 1u64) == 1u64))
            &&& k >= 32 ==> ((x5 >> k) & 1u64) == 0u64
        }),
{
}

/// Bit level behavior of the halving network for input `1`.
proof fn lemma_reduce64_bits_1(lut: u64, b: u64, k: u64)
    by (bit_vector)
    requires
        b < 2,
        k < 64,
    ensures
        ({
            let x0 = (lut >> (b * 2u64)) & 0x3333333333333333u64;
            let x1 = (x0 & 0x0303030303030303u64) | ((x0 & !0x0303030303030303u64) >> 2u64);
            let x2 = (x1 & 0x000f000f000f000fu64) | ((x1 & !0x000f000f000f000fu64) >> 4u64);
            let x3 = (x2 & 0x000000ff000000ffu64) | ((x2 & !0x000000ff000000ffu64) >> 8u64);
            let x4 = (x3 & 0x000000000000ffffu64) | ((x3 & !0x000000000000ffffu64) >> 16u64);
            &&& k < 32 ==> ((((x4 >> k) & 1u64) == 1u64) == (((lut >> ((k / 2u64) * 4u64 + b * 2u64 + k % 2u64)) & 1u64) == 1u64))
            &&& k >= 32 ==> ((x4 >> k) & 1u64) == 0u64
        }),
{
}

/// Bit level behavior of the halving network for input `2`.
proof fn lemma_reduce64_bits_2(lut: u64, b: u64, k: u64)
    by (bit_vector)
    requires
        b < 2,
        k < 64,
    ensures
        ({
            let x0 = (lut >> (b * 4u64)) & 0x0f0f0f0f0f0f0f0fu64;
            let x1 = (x0 & 0x000f000f000f000fu64) | ((x0 & !0x000f000f000f000fu64) >> 4u64);
            let x2 = (x1 & 0x000000ff000000ffu64) | ((x1 & !0x000000ff000000ffu64) >> 8u64);
            let x3 = (x2 & 0x000000000000ffffu64) | ((x2 & !0x000000000000ffffu64) >> 16u64);
            &&& k < 32 ==> ((((x3 >> k) & 1u64) == 1u64) == (((lut >> ((k / 4u64) * 8u64 + b * 4u64 + k % 4u64)) & 1u64) == 1u64))
            &&& k >= 32 ==> ((x3 >> k) & 1u64) == 0u64
        }),
{
}

/// Bit level behavior of the halving network for input `3`.
proof fn lemma_reduce64_bits_3(lut: u64, b: u64, k: u64)
    by (bit_vector)
    requires
        b < 2,
        k < 64,
    ensures
        ({
            let x0 = (lut >> (b * 8u64)) & 0x00ff00ff00ff00ffu64;
            let x1 = (x0 & 0x000000ff000000ffu64) | ((x0 & !0x000000ff000000ffu64) >> 8u64);
            let x2 = (x1 & 0x000000000000ffffu64) | ((x1 & !0x000000000000ffffu64) >> 16u64);
            &&& k < 32 ==> ((((x2 >> k) & 1u64) == 1u64) == (((lut >> ((k / 8u64) * 16u64 + b * 8u64 + k % 8u64)) & 1u64) == 1u64))
            &&& k >= 32 ==> ((x2 >> k) & 1u64) == 0u64
        }),
{
}

/// Bit level behavior of the halving network for input `4`.
proof fn lemma_reduce64_bits_4(lut: u64, b: u64, k: u64)
    by (bit_vector)
    requires
        b < 2,
        k < 64,
    ensures
        ({
            let x0 = (lut >> (b * 16u64)) & 0x0000ffff0000ffffu64;
            let x1 = (x0 & 0x000000000000ffffu64) | ((x0 & !0x000000000000ffffu64) >> 16u64);
            &&& k < 32 ==> ((((x1 >> k) & 1u64) == 1u64) == (((lut >> ((k / 16u64) * 32u64 + b * 16u64 + k % 16u64)) & 1u64) == 1u64))
            &&& k >= 32 ==> ((x1 >> k) & 1u64) == 0u64
        }),
{
}

/// Bit level behavior of the halving network for input `5`.
proof fn lemma_reduce64_bits_5(lut: u64, b: u64, k: u64)
    by (bit_vector)
    requires
        b < 2,
        k < 64,
    ensures
        ({
            let x0 = (lut >> (b * 32u64)) & 0x00000000ffffffffu64;

            &&& k < 32 ==> ((((x0 >> k) & 1u64) == 1u64) == (((lut >> ((k / 32u64) * 64u64 + b * 32u64 + k % 32u64)) & 1u64) == 1u64))
            &&& k >= 32 ==> ((x0 >> k) & 1u64) == 0u64
        }),
{
}


proof fn lemma_reduce64(lut: u64, i: nat, bit: bool)
    requires
        0 <= i < 6,
    ensures
        reduce64_ok(compress((lut >> (if bit { shift_amt(i as int) } else { 0u64 })) & m_mask(i as int), i as int), lut, i, bit),
{
    reveal_with_fuel(compress, 6);
    lemma2_to64();
    let b: u64 = if bit { 1 } else { 0 };
    let r = compress((lut >> (if bit { shift_amt(i as int) } else { 0u64 })) & m_mask(i as int), i as int);
    if i == 0 {
        assert forall|k: int| 0 <= k < 64 implies
            (k < 32 ==> (u64_bit(r, k) == u64_bit(lut, insert_index(k, i, bit))))
            && (k >= 32 ==> !u64_bit(r, k)) by {
            lemma_reduce64_bits_0(lut, b, k as u64);
        }
    } else if i == 1 {
        assert forall|k: int| 0 <= k < 64 implies
            (k < 32 ==> (u64_bit(r, k) == u64_bit(lut, insert_index(k, i, bit))))
            && (k >= 32 ==> !u64_bit(r, k)) by {
            lemma_reduce64_bits_1(lut, b, k as u64);
        }
    } else if i == 2 {
        assert forall|k: int| 0 <= k < 64 implies
            (k < 32 ==> (u64_bit(r, k) == u64_bit(lut, insert_index(k, i, bit))))
            && (k >= 32 ==> !u64_bit(r, k)) by {
            lemma_reduce64_bits_2(lut, b, k as u64);
        }
    } else if i == 3 {
        assert forall|k: int| 0 <= k < 64 implies
            (k < 32 ==> (u64_bit(r, k) == u64_bit(lut, insert_index(k, i, bit))))
            && (k >= 32 ==> !u64_bit(r, k)) by {
            lemma_reduce64_bits_3(lut, b, k as u64);
        }
    } else if i == 4 {
        assert forall|k: int| 0 <= k < 64 implies
            (k < 32 ==> (u64_bit(r, k) == u64_bit(lut, insert_index(k, i, bit))))
            && (k >= 32 ==> !u64_bit(r, k)) by {
            lemma_reduce64_bits_4(lut, b, k as u64);
        }
    } else if i == 5 {
        assert forall|k: int| 0 <= k < 64 implies
            (k < 32 ==> (u64_bit(r, k) == u64_bit(lut, insert_index(k, i, bit))))
            && (k >= 32 ==> !u64_bit(r, k)) by {
            lemma_reduce64_bits_5(lut, b, k as u64);
        }
    }
}

proof fn lemma_indep64_bits_0(lut: u64, k: u64, p: u64, q: u64)
    by (bit_vector)
    requires
        q == p + 1u64,
    ensures
        ((k < 32 && (lut & 0x5555555555555555u64) == ((lut & !0x5555555555555555u64) >> 1u64)) ==> ((((lut >> ((k / 1u64) * 2u64 + k % 1u64)) & 1u64) == 1u64) == (((lut >> ((k / 1u64) * 2u64 + 1u64 + k % 1u64)) & 1u64) == 1u64))),
        (p < 64 ==> ((((((lut & 0x5555555555555555u64) >> p) & 1u64) == 1u64) == (((((lut & !0x5555555555555555u64) >> 1u64) >> p) & 1u64) == 1u64)) <==> ((p / 1u64) % 2u64 == 1u64 || ((((lut >> p) & 1u64) == 1u64) == (((lut >> q) & 1u64) == 1u64))))),
        ((p < 64 && (p / 1u64) % 2u64 == 0u64) ==> ((((p / 2u64) * 1u64 + p % 1u64) as u64) < 32u64 && ((((p / 2u64) * 1u64 + p % 1u64) as u64) / 1u64) * 2u64 + (((p / 2u64) * 1u64 + p % 1u64) as u64) % 1u64 == p)),
{
}

proof fn lemma_indep64_bits_1(lut: u64, k: u64, p: u64, q: u64)
    by (bit_vector)
    requires
        q == p + 2u64,
    ensures
        ((k < 32 && (lut & 0x3333333333333333u64) == ((lut & !0x3333333333333333u64) >> 2u64)) ==> ((((lut >> ((k / 2u64) * 4u64 + k % 2u64)) & 1u64) == 1u64) == (((lut >> ((k / 2u64) * 4u64 + 2u64 + k % 2u64)) & 1u64) == 1u64))),
        (p < 64 ==> ((((((lut & 0x3333333333333333u64) >> p) & 1u64) == 1u64) == (((((lut & !0x3333333333333333u64) >> 2u64) >> p) & 1u64) == 1u64)) <==> ((p / 2u64) % 2u64 == 1u64 || ((((lut >> p) & 1u64) == 1u64) == (((lut >> q) & 1u64) == 1u64))))),
        ((p < 64 && (p / 2u64) % 2u64 == 0u64) ==> ((((p / 4u64) * 2u64 + p % 2u64) as u64) < 32u64 && ((((p / 4u64) * 2u64 + p % 2u64) as u64) / 2u64) * 4u64 + (((p / 4u64) * 2u64 + p % 2u64) as u64) % 2u64 == p)),
{
}

proof fn lemma_indep64_bits_2(lut: u64, k: u64, p: u64, q: u64)
    by (bit_vector)
    requires
        q == p + 4u64,
    ensures
        ((k < 32 && (lut & 0x0f0f0f0f0f0f0f0fu64) == ((lut & !0x0f0f0f0f0f0f0f0fu64) >> 4u64)) ==> ((((lut >> ((k / 4u64) * 8u64 + k % 4u64)) & 1u64) == 1u64) == (((lut >> ((k / 4u64) * 8u64 + 4u64 + k % 4u64)) & 1u64) == 1u64))),
        (p < 64 ==> ((((((lut & 0x0f0f0f0f0f0f0f0fu64) >> p) & 1u64) == 1u64) == (((((lut & !0x0f0f0f0f0f0f0f0fu64) >> 4u64) >> p) & 1u64) == 1u64)) <==> ((p / 4u64) % 2u64 == 1u64 || ((((lut >> p) & 1u64) == 1u64) == (((lut >> q) & 1u64) == 1u64))))),
        ((p < 64 && (p / 4u64) % 2u64 == 0u64) ==> ((((p / 8u64) * 4u64 + p % 4u64) as u64) < 32u64 && ((((p / 8u64) * 4u64 + p % 4u64) as u64) / 4u64) * 8u64 + (((p / 8u64) * 4u64 + p % 4u64) as u64) % 4u64 == p)),
{
}

proof fn lemma_indep64_bits_3(lut: u64, k: u64, p: u64, q: u64)
    by (bit_vector)
    requires
        q == p + 8u64,
    ensures
        ((k < 32 && (lut & 0x00ff00ff00ff00ffu64) == ((lut & !0x00ff00ff00ff00ffu64) >> 8u64)) ==> ((((lut >> ((k / 8u64) * 16u64 + k % 8u64)) & 1u64) == 1u64) == (((lut >> ((k / 8u64) * 16u64 + 8u64 + k % 8u64)) & 1u64) == 1u64))),
        (p < 64 ==> ((((((lut & 0x00ff00ff00ff00ffu64) >> p) & 1u64) == 1u64) == (((((lut & !0x00ff00ff00ff00ffu64) >> 8u64) >> p) & 1u64) == 1u64)) <==> ((p / 8u64) % 2u64 == 1u64 || ((((lut >> p) & 1u64) == 1u64) == (((lut >> q) & 1u64) == 1u64))))),
        ((p < 64 && (p / 8u64) % 2u64 == 0u64) ==> ((((p / 16u64) * 8u64 + p % 8u64) as u64) < 32u64 && ((((p / 16u64) * 8u64 + p % 8u64) as u64) / 8u64) * 16u64 + (((p / 16u64) * 8u64 + p % 8u64) as u64) % 8u64 == p)),
{
}

proof fn lemma_indep64_bits_4(lut: u64, k: u64, p: u64, q: u64)
    by (bit_vector)
    requires
        q == p + 16u64,
    ensures
        ((k < 32 && (lut & 0x0000ffff0000ffffu64) == ((lut & !0x0000ffff0000ffffu64) >> 16u64)) ==> ((((lut >> ((k / 16u64) * 32u64 + k % 16u64)) & 1u64) == 1u64) == (((lut >> ((k / 16u64) * 32u64 + 16u64 + k % 16u64)) & 1u64) == 1u64))),
        (p < 64 ==> ((((((lut & 0x0000ffff0000ffffu64) >> p) & 1u64) == 1u64) == (((((lut & !0x0000ffff0000ffffu64) >> 16u64) >> p) & 1u64) == 1u64)) <==> ((p / 16u64) % 2u64 == 1u64 || ((((lut >> p) & 1u64) == 1u64) == (((lut >> q) & 1u64) == 1u64))))),
        ((p < 64 && (p / 16u64) % 2u64 == 0u64) ==> ((((p / 32u64) * 16u64 + p % 16u64) as u64) < 32u64 && ((((p / 32u64) * 16u64 + p % 16u64) as u64) / 16u64) * 32u64 + (((p / 32u64) * 16u64 + p % 16u64) as u64) % 16u64 == p)),
{
}

proof fn lemma_indep64_bits_5(lut: u64, k: u64, p: u64, q: u64)
    by (bit_vector)
    requires
        q == p + 32u64,
    ensures
        ((k < 32 && (lut & 0x00000000ffffffffu64) == ((lut & !0x00000000ffffffffu64) >> 32u64)) ==> ((((lut >> ((k / 32u64) * 64u64 + k % 32u64)) & 1u64) == 1u64) == (((lut >> ((k / 32u64) * 64u64 + 32u64 + k % 32u64)) & 1u64) == 1u64))),
        (p < 64 ==> ((((((lut & 0x00000000ffffffffu64) >> p) & 1u64) == 1u64) == (((((lut & !0x00000000ffffffffu64) >> 32u64) >> p) & 1u64) == 1u64)) <==> ((p / 32u64) % 2u64 == 1u64 || ((((lut >> p) & 1u64) == 1u64) == (((lut >> q) & 1u64) == 1u64))))),
        ((p < 64 && (p / 32u64) % 2u64 == 0u64) ==> ((((p / 64u64) * 32u64 + p % 32u64) as u64) < 32u64 && ((((p / 64u64) * 32u64 + p % 32u64) as u64) / 32u64) * 64u64 + (((p / 64u64) * 32u64 + p % 32u64) as u64) % 32u64 == p)),
{
}

/// Per entry facts behind `reduce_independent64`, for the shift `s == 2^i`.
spec fn indep64_facts(lut: u64, i: nat, k: int, p: int, s: int) -> bool {
    &&& (k < 32 && (lut & m_mask(i as int)) == ((lut & !m_mask(i as int)) >> shift_amt(i as int)))
        ==> (u64_bit(lut, insert_index(k, i, false)) == u64_bit(lut, insert_index(k, i, true)))
    &&& (u64_bit(lut & m_mask(i as int), p) == u64_bit((lut & !m_mask(i as int)) >> shift_amt(i as int), p)
        <==> ((p / s) % 2 == 1 || u64_bit(lut, p) == u64_bit(lut, p + s)))
    &&& ((p / s) % 2 == 0 ==> {
        let k2 = (p / (2 * s)) * s + p % s;
        &&& 0 <= k2 < 32
        &&& insert_index(k2, i, false) == p
        &&& insert_index(k2, i, true) == p + s
    })
}

#[verifier::rlimit(50)]
proof fn lemma_indep64_facts(lut: u64, i: nat)
    requires
        i < 6,
    ensures
        forall|k: int, p: int| 0 <= k < 64 && 0 <= p < 64 ==> #[trigger] indep64_facts(lut, i, k, p, pow2(i) as int),
{
    lemma2_to64();
    if i == 0 {
        assert forall|k: int, p: int| 0 <= k < 64 && 0 <= p < 64 implies
            indep64_facts(lut, i, k, p, 1) by {
            lemma_indep64_bits_0(lut, k as u64, p as u64, (p + 1) as u64);
        }
    } else if i == 1 {
        assert forall|k: int, p: int| 0 <= k < 64 && 0 <= p < 64 implies
            indep64_facts(lut, i, k, p, 2) by {
            lemma_indep64_bits_1(lut, k as u64, p as u64, (p + 2) as u64);
        }
    } else if i == 2 {
        assert forall|k: int, p: int| 0 <= k < 64 && 0 <= p < 64 implies
            indep64_facts(lut, i, k, p, 4) by {
            lemma_indep64_bits_2(lut, k as u64, p as u64, (p + 4) as u64);
        }
    } else if i == 3 {
        assert forall|k: int, p: int| 0 <= k < 64 && 0 <= p < 64 implies
            indep64_facts(lut, i, k, p, 8) by {
            lemma_indep64_bits_3(lut, k as u64, p as u64, (p + 8) as u64);
        }
    } else if i == 4 {
        assert forall|k: int, p: int| 0 <= k < 64 && 0 <= p < 64 implies
            indep64_facts(lut, i, k, p, 16) by {
            lemma_indep64_bits_4(lut, k as u64, p as u64, (p + 16) as u64);
        }
    } else if i == 5 {
        assert forall|k: int, p: int| 0 <= k < 64 && 0 <= p < 64 implies
            indep64_facts(lut, i, k, p, 32) by {
            lemma_indep64_bits_5(lut, k as u64, p as u64, (p + 32) as u64);
        }
    }
}

proof fn lemma_basis_rotate64_bits_1(lut: u64, k: u64)
    by (bit_vector)
    requires
        k < 64,
    ensures
        ((((((lut & 0x2222222222222222u64) << 1u64) | ((lut & 0x4444444444444444u64) >> 1u64) | (lut & 0x9999999999999999u64)) >> k) & 1u64) == 1u64)
            == (((lut >> swap64(k, 0u64, 1u64)) & 1u64) == 1u64),
{
}

proof fn lemma_basis_rotate64_bits_2(lut: u64, k: u64)
    by (bit_vector)
    requires
        k < 64,
    ensures
        ((((((lut & 0x0a0a0a0a0a0a0a0au64) << 3u64) | ((lut & 0x5050505050505050u64) >> 3u64) | (lut & 0xa5a5a5a5a5a5a5a5u64)) >> k) & 1u64) == 1u64)
            == (((lut >> swap64(k, 0u64, 2u64)) & 1u64) == 1u64),
{
}

proof fn lemma_basis_rotate64_bits_3(lut: u64, k: u64)
    by (bit_vector)
    requires
        k < 64,
    ensures
        ((((((lut & 0x00aa00aa00aa00aau64) << 7u64) | ((lut & 0x5500550055005500u64) >> 7u64) | (lut & 0xaa55aa55aa55aa55u64)) >> k) & 1u64) == 1u64)
            == (((lut >> swap64(k, 0u64, 3u64)) & 1u64) == 1u64),
{
}

proof fn lemma_basis_rotate64_bits_4(lut: u64, k: u64)
    by (bit_vector)
    requires
        k < 64,
    ensures
        ((((((lut & 0x0000aaaa0000aaaau64) << 15u64) | ((lut & 0x5555000055550000u64) >> 15u64) | (lut & 0xaaaa5555aaaa5555u64)) >> k) & 1u64) == 1u64)
            == (((lut >> swap64(k, 0u64, 4u64)) & 1u64) == 1u64),
{
}

proof fn lemma_basis_rotate64_bits_5(lut: u64, k: u64)
    by (bit_vector)
    requires
        k < 64,
    ensures
        ((((((lut & 0x00000000aaaaaaaau64) << 31u64) | ((lut & 0x5555555500000000u64) >> 31u64) | (lut & 0xaaaaaaaa55555555u64)) >> k) & 1u64) == 1u64)
            == (((lut >> swap64(k, 0u64, 5u64)) & 1u64) == 1u64),
{
}

proof fn lemma_basis_rotate64_bits(lut: u64, i: u64, k: u64)
    requires
        0 < i < 6,
        k < 64,
    ensures
        u64_bit(basis_rotate64_spec(lut, i), k as int) == (((lut >> swap64(k, 0u64, i)) & 1u64) == 1u64),
{
    if i == 1 {
        lemma_basis_rotate64_bits_1(lut, k);
    } else if i == 2 {
        lemma_basis_rotate64_bits_2(lut, k);
    } else if i == 3 {
        lemma_basis_rotate64_bits_3(lut, k);
    } else if i == 4 {
        lemma_basis_rotate64_bits_4(lut, k);
    } else if i == 5 {
        lemma_basis_rotate64_bits_5(lut, k);
    }
}

pub open spec fn r0_mask(i: int) -> u64 {
    if i == 1 {
        0x2222222222222222u64
    } else if i == 2 {
        0x0a0a0a0a0a0a0a0au64
    } else if i == 3 {
        0x00aa00aa00aa00aau64
    } else if i == 4 {
        0x0000aaaa0000aaaau64
    } else {
        0x00000000aaaaaaaau64
    }
}

pub open spec fn r1_mask(i: int) -> u64 {
    if i == 1 {
        0x4444444444444444u64
    } else if i == 2 {
        0x5050505050505050u64
    } else if i == 3 {
        0x5500550055005500u64
    } else if i == 4 {
        0x5555000055550000u64
    } else {
        0x5555555500000000u64
    }
}

pub open spec fn r2_mask(i: int) -> u64 {
    if i == 1 {
        0x9999999999999999u64
    } else if i == 2 {
        0xa5a5a5a5a5a5a5a5u64
    } else if i == 3 {
        0xaa55aa55aa55aa55u64
    } else if i == 4 {
        0xaaaa5555aaaa5555u64
    } else {
        0xaaaaaaaa55555555u64
    }
}

pub open spec fn rot_shift(i: int) -> u64 {
    if i == 1 {
        1u64
    } else if i == 2 {
        3u64
    } else if i == 3 {
        7u64
    } else if i == 4 {
        15u64
    } else {
        31u64
    }
}

fn r0_mask_exec(i: usize) -> (r: u64)
    requires
        0 < i < 6,
    ensures
        r == r0_mask(i as int),
{
    if i == 1 {
        0x2222222222222222u64
    } else if i == 2 {
        0x0a0a0a0a0a0a0a0au64
    } else if i == 3 {
        0x00aa00aa00aa00aau64
    } else if i == 4 {
        0x0000aaaa0000aaaau64
    } else {
        0x00000000aaaaaaaau64
    }
}

fn r1_mask_exec(i: usize) -> (r: u64)
    requires
        0 < i < 6,
    ensures
        r == r1_mask(i as int),
{
    if i == 1 {
        0x4444444444444444u64
    } else if i == 2 {
        0x5050505050505050u64
    } else if i == 3 {
        0x5500550055005500u64
    } else if i == 4 {
        0x5555000055550000u64
    } else {
        0x5555555500000000u64
    }
}

fn r2_mask_exec(i: usize) -> (r: u64)
    requires
        0 < i < 6,
    ensures
        r == r2_mask(i as int),
{
    if i == 1 {
        0x9999999999999999u64
    } else if i == 2 {
        0xa5a5a5a5a5a5a5a5u64
    } else if i == 3 {
        0xaa55aa55aa55aa55u64
    } else if i == 4 {
        0xaaaa5555aaaa5555u64
    } else {
        0xaaaaaaaa55555555u64
    }
}

proof fn lemma_u64_ext_from(x: u64, y: u64, n: u64)
    requires
        n <= 64,
        forall|p: int| n <= p < 64 ==> u64_bit(x, p) == u64_bit(y, p),
    ensures
        (x >> n) == (y >> n),
    decreases 64 - n,
{
    if n == 64 {
        assert((x >> 64u64) == 0u64 && (y >> 64u64) == 0u64) by (bit_vector);
    } else {
        lemma_u64_ext_from(x, y, (n + 1) as u64);
        assert(u64_bit(x, n as int) == u64_bit(y, n as int));
        let n1 = (n + 1) as u64;
        assert((x >> n) == (y >> n)) by (bit_vector)
            requires
                n < 64,
                n1 == n + 1,
                (x >> n1) == (y >> n1),
                (((x >> n) & 1u64) == 1u64) == (((y >> n) & 1u64) == 1u64),
        ;
    }
}

/// Two words with the same bits are equal.
proof fn lemma_u64_ext(x: u64, y: u64)
    requires
        forall|p: int| 0 <= p < 64 ==> u64_bit(x, p) == u64_bit(y, p),
    ensures
        x == y,
{
    lemma_u64_ext_from(x, y, 0);
    assert((x >> 0u64) == x && (y >> 0u64) == y) by (bit_vector);
}

/// The output of a table of at most 64 entries held in `lut` does not
/// depend on input `i` (entries at and above 64 count as unset).
pub open spec fn independent64(lut: u64, i: nat) -> bool {
    forall|k: int|
        0 <= k < 32 ==> #[trigger] u64_bit(lut, insert_index(k, i, false)) == u64_bit(
            lut,
            insert_index(k, i, true),
        )
}

proof fn lemma_independent64_check(lut: u64, i: nat)
    requires
        i < 6,
    ensures
        ((lut & m_mask(i as int)) == ((lut & !m_mask(i as int)) >> shift_amt(i as int)))
            <==> independent64(lut, i),
{
    lemma_indep64_facts(lut, i);
    lemma2_to64();
    let s = pow2(i) as int;
    let t0 = lut & m_mask(i as int);
    let t1 = (lut & !m_mask(i as int)) >> shift_amt(i as int);
    if t0 == t1 {
        assert forall|k: int| 0 <= k < 32 implies #[trigger] u64_bit(lut, insert_index(k, i, false))
            == u64_bit(lut, insert_index(k, i, true)) by {
            assert(indep64_facts(lut, i, k, 0, s));
        }
    }
    if independent64(lut, i) {
        assert forall|p: int| 0 <= p < 64 implies u64_bit(t0, p) == u64_bit(t1, p) by {
            assert(indep64_facts(lut, i, 0, p, s));
            if (p / s) % 2 == 0 {
                let k2 = (p / (2 * s)) * s + p % s;
                assert(u64_bit(lut, insert_index(k2, i, false)) == u64_bit(
                    lut,
                    insert_index(k2, i, true),
                ));
            }
        }
        lemma_u64_ext(t0, t1);
    }
}

/// Reduces a table of at most 64 entries on input `i` if its output does not
/// depend on that input.
pub fn reduce_independent64(lut: u64, i: usize) -> (r: Option<u64>)
    requires
        i < 6,
    ensures
        r is Some <==> independent64(lut, i as nat),
        r matches Some(v) ==> reduce64_ok(v, lut, i as nat, false),
{
    proof {
        lemma_shift_amt(i as u64);
        lemma_independent64_check(lut, i as nat);
    }
    let m = m_mask_exec(i);
    let tmp0 = lut & m;
    let tmp1 = lut & !m;
    if tmp0 == (tmp1 >> (1u64 << (i as u64))) {
        let mut x = tmp0;
        let mut t = i;
        while t < 5
            invariant
                i <= t <= 5,
                compress(x, t as int) == compress(tmp0, i as int),
            decreases 5 - t,
        {
            proof {
                lemma_shift_amt(t as u64);
            }
            let a = a_mask_exec(t);
            x = (x & a) | ((x & !a) >> (1u64 << (t as u64)));
            t = t + 1;
        }
        proof {
            assert(x == compress(x, 5));
            assert((lut >> 0u64) == lut) by (bit_vector);
            assert(tmp0 == (lut >> (if false { shift_amt(i as int) } else { 0u64 })) & m_mask(
                i as int,
            ));
            lemma_reduce64(lut, i as nat, false);
        }
        Some(x)
    } else {
        None
    }
}

/// `k` with bits `a` and `b` exchanged, on words.
pub open spec fn swap64(k: u64, a: u64, b: u64) -> u64 {
    if ((k >> a) & 1u64) == ((k >> b) & 1u64) {
        k
    } else {
        k ^ ((1u64 << a) | (1u64 << b))
    }
}

pub open spec fn basis_rotate64_spec(lut: u64, i: u64) -> u64 {
    ((lut & r0_mask(i as int)) << rot_shift(i as int)) | ((lut & r1_mask(i as int)) >> rot_shift(
        i as int,
    )) | (lut & r2_mask(i as int))
}

proof fn lemma_bit_is_mod2(x: u64)
    ensures
        ((x & 1u64) == 1u64) == (x % 2 == 1),
{
    assert(((x & 1u64) == 1u64) == (x % 2u64 == 1u64)) by (bit_vector);
}

proof fn lemma_swap64_arith(k: u64, a: u64, b: u64)
    by (bit_vector)
    requires
        k < 64,
        a < 6,
        b < 6,
    ensures
        (((k >> a) & 1u64) == 1u64 && ((k >> b) & 1u64) == 0u64) ==> (k ^ ((1u64 << a) | (1u64
            << b))) == ((k - (1u64 << a)) + (1u64 << b)) as u64,
        (((k >> a) & 1u64) == 0u64 && ((k >> b) & 1u64) == 1u64) ==> (k ^ ((1u64 << a) | (1u64
            << b))) == ((k + (1u64 << a)) - (1u64 << b)) as u64,
        ((k >> a) & 1u64) == 0u64 || ((k >> a) & 1u64) == 1u64,
        ((k >> b) & 1u64) == 0u64 || ((k >> b) & 1u64) == 1u64,
        swap64(k, a, b) < 64,
        ((k >> a) & 1u64) == 1u64 ==> k >= (1u64 << a),
        ((k >> b) & 1u64) == 1u64 ==> k >= (1u64 << b),
        (1u64 << a) <= 32,
        (1u64 << b) <= 32,
        (((k >> a) & 1u64) == 1u64 && ((k >> b) & 1u64) == 0u64) ==> (k - (1u64 << a)) + (1u64
            << b) < 64,
        (((k >> a) & 1u64) == 0u64 && ((k >> b) & 1u64) == 1u64) ==> (k + (1u64 << a)) - (1u64
            << b) < 64,
{
}

/// The word and integer forms of the index exchange agree.
proof fn lemma_swap_index_64(k: u64, a: u64, b: u64)
    requires
        k < 64,
        a < 6,
        b < 6,
    ensures
        swap_index(k as int, a as nat, b as nat) == swap64(k, a, b) as int,
        0 <= swap_index(k as int, a as nat, b as nat) < 64,
{
    vstd::bits::lemma_u64_shr_is_div(k, a);
    vstd::bits::lemma_u64_shr_is_div(k, b);
    vstd::bits::lemma_u64_pow2_no_overflow(a as nat);
    vstd::bits::lemma_u64_pow2_no_overflow(b as nat);
    lemma2_to64();
    vstd::bits::lemma_u64_shl_is_mul(1u64, a);
    vstd::bits::lemma_u64_shl_is_mul(1u64, b);
    lemma_bit_is_mod2(k >> a);
    lemma_bit_is_mod2(k >> b);
    lemma_swap64_arith(k, a, b);
    assert(index_bit(k as int, a as nat) == (((k >> a) & 1u64) == 1u64));
    assert(index_bit(k as int, b as nat) == (((k >> b) & 1u64) == 1u64));
    assert((1u64 << a) == pow2(a as nat));
    assert((1u64 << b) == pow2(b as nat));
    let xa = (k >> a) & 1u64;
    let xb = (k >> b) & 1u64;
    let pa = pow2(a as nat) as int;
    let pb = pow2(b as nat) as int;
    let bi: int = if index_bit(k as int, a as nat) { 1 } else { 0 };
    let bj: int = if index_bit(k as int, b as nat) { 1 } else { 0 };
    assert(swap_index(k as int, a as nat, b as nat) == k as int + (bj - bi) * pa + (bi - bj) * pb);
    if xa == xb {
        assert(swap64(k, a, b) == k);
        assert(bi == bj);
        assert((bj - bi) * pa == 0 && (bi - bj) * pb == 0) by (nonlinear_arith)
            requires
                bi == bj,
        ;
    } else if xa == 1u64 {
        assert(xb == 0u64);
        assert(bi == 1 && bj == 0);
        assert((bj - bi) * pa == -pa);
        assert((bi - bj) * pb == pb);
        assert(swap64(k, a, b) == (k - (1u64 << a) + (1u64 << b)) as u64);
    } else {
        assert(xb == 1u64);
        assert(bi == 0 && bj == 1);
        assert((bj - bi) * pa == pa);
        assert((bi - bj) * pb == -pb);
        assert(swap64(k, a, b) == (k + (1u64 << a) - (1u64 << b)) as u64);
    }
}

/// Exchanges input `i` with input 0 of a table of at most 64 entries.
pub fn basis_rotate64(lut: u64, i: usize) -> (r: u64)
    requires
        0 < i < 6,
    ensures
        forall|k: int| 0 <= k < 64 ==> u64_bit(r, k) == u64_bit(lut, swap_index(k, 0, i as nat)),
{
    proof {
        lemma_shift_amt(i as u64);
    }
    let s: u64 = (1u64 << (i as u64)) - 1;
    assert(s == rot_shift(i as int));
    let r = ((lut & r0_mask_exec(i)) << s) | ((lut & r1_mask_exec(i)) >> s) | (lut & r2_mask_exec(
        i,
    ));
    proof {
        assert(r == basis_rotate64_spec(lut, i as u64));
        assert forall|k: int| 0 <= k < 64 implies u64_bit(r, k) == u64_bit(
            lut,
            swap_index(k, 0, i as nat),
        ) by {
            lemma_basis_rotate64_bits(lut, i as u64, k as u64);
            lemma_swap_index_64(k as u64, 0, i as u64);
        }
    }
    r
}

proof fn lemma_swap64_conjugate(k: u64, i: u64, j: u64)
    by (bit_vector)
    requires
        k < 64,
        0 < i < 6,
        0 < j < 6,
        i != j,
    ensures
        swap64(swap64(swap64(k, 0u64, i), 0u64, j), 0u64, i) == swap64(k, i, j),
        swap64(k, 0u64, i) < 64,
        swap64(swap64(k, 0u64, i), 0u64, j) < 64,
{
}

/// Exchanges inputs `i` and `j` of a table of at most 64 entries.
/// Exchanging an input with itself leaves the table as it is.
pub fn rotate64(lut: u64, i: usize, j: usize) -> (r: u64)
    requires
        i < 6,
        j < 6,
    ensures
        rotated64(lut, i as nat, j as nat, r),
{
    if i == j {
        proof {
            assert forall|k: int| 0 <= k < 64 implies u64_bit(lut, k) == u64_bit(
                lut,
                swap_index(k, i as nat, j as nat),
            ) by {
                lemma_swap_index_64(k as u64, i as u64, j as u64);
            }
        }
        lut
    } else if i == 0 {
        basis_rotate64(lut, j)
    } else if j == 0 {
        let r = basis_rotate64(lut, i);
        proof {
            assert forall|k: int| 0 <= k < 64 implies u64_bit(r, k) == u64_bit(
                lut,
                swap_index(k, i as nat, j as nat),
            ) by {
                lemma_swap_index_64(k as u64, i as u64, 0);
                lemma_swap_index_64(k as u64, 0, i as u64);
                assert(((k as u64 >> i as u64) & 1u64) == ((k as u64 >> 0u64) & 1u64) <==> ((
                k as u64 >> 0u64) & 1u64) == ((k as u64 >> i as u64) & 1u64));
                assert(((1u64 << (i as u64)) | (1u64 << 0u64)) == ((1u64 << 0u64) | (1u64 << (
                i as u64)))) by (bit_vector);
            }
        }
        r
    } else {
        let r1 = basis_rotate64(lut, i);
        let r2 = basis_rotate64(r1, j);
        let r3 = basis_rotate64(r2, i);
        proof {
            assert forall|k: int| 0 <= k < 64 implies u64_bit(r3, k) == u64_bit(
                lut,
                swap_index(k, i as nat, j as nat),
            ) by {
                let ku = k as u64;
                lemma_swap64_conjugate(ku, i as u64, j as u64);
                let k1 = swap64(ku, 0, i as u64);
                let k2 = swap64(k1, 0, j as u64);
                lemma_swap_index_64(ku, 0, i as u64);
                lemma_swap_index_64(k1, 0, j as u64);
                lemma_swap_index_64(k2, 0, i as u64);
                lemma_swap_index_64(ku, i as u64, j as u64);
                assert(u64_bit(r3, k) == u64_bit(r2, k1 as int));
                assert(u64_bit(r2, k1 as int) == u64_bit(r1, k2 as int));
                assert(u64_bit(r1, k2 as int) == u64_bit(lut, swap64(k2, 0, i as u64) as int));
            }
        }
        r3
    }
}

proof fn lemma_block_bounds(k: int, s: int, q: int, r: int, c: int, bv: int)
    by (nonlinear_arith)
    requires
        s > 0,
        0 <= r < s,
        k == q * s + r,
        0 <= bv <= 1,
        c >= 0,
        q >= 0,
    ensures
        q < c ==> q * (2 * s) + bv * s + r < c * (2 * s),
        q >= c ==> q * (2 * s) + bv * s + r >= c * (2 * s),
        (k < c * s) <==> (q < c),
        q * (2 * s) + bv * s + r >= 0,
{
}

/// Where the entries of a reduced table come from lies inside the table, and
/// entries past the reduced table would come from past the full table.
pub proof fn lemma_insert_index_range(k: int, i: nat, b: bool, len: nat)
    requires
        lut_shape(len, i),
        0 <= k,
    ensures
        k < len / 2 ==> 0 <= insert_index(k, i, b) < len,
        k >= len / 2 ==> insert_index(k, i, b) >= len,
        len / 2 == (len / pow2(i + 1)) * pow2(i),
{
    let s = pow2(i) as int;
    lemma_pow2_pos(i);
    lemma_pow2_unfold(i + 1);
    assert(pow2(i + 1) as int == 2 * s);
    let p = 2 * s;
    let c = len as int / p;
    vstd::arithmetic::div_mod::lemma_fundamental_div_mod(len as int, p);
    assert(len as int == p * c);
    assert(len as int == c * (2 * s)) by (nonlinear_arith)
        requires
            len as int == p * c,
            p == 2 * s,
    ;
    assert(len as int / 2 == c * s) by (nonlinear_arith)
        requires
            len as int == c * (2 * s),
    ;
    vstd::arithmetic::div_mod::lemma_fundamental_div_mod(k, s);
    vstd::arithmetic::div_mod::lemma_mod_pos_bound(k, s);
    vstd::arithmetic::div_mod::lemma_div_pos_is_pos(k, s);
    vstd::arithmetic::div_mod::lemma_div_pos_is_pos(len as int, p);
    let q = k / s;
    let r = k % s;
    assert(k == q * s + r) by (nonlinear_arith)
        requires
            k == s * q + r,
    ;
    lemma_block_bounds(k, s, q, r, c, if b { 1 } else { 0 });
    assert(insert_index(k, i, b) == q * (2 * s) + (if b { 1int } else { 0int }) * s + r);
}

/// The first `len` entries of a table held in the low bits of a word.
pub(crate) fn lut_to_u64(lut: &Vec<bool>) -> (r: u64)
    requires
        lut@.len() <= 64,
    ensures
        forall|k: int| 0 <= k < 64 ==> u64_bit(r, k) == (k < lut@.len() && lut@[k]),
{
    let mut r: u64 = 0;
    let mut k: usize = 0;
    proof {
        assert forall|m: int| 0 <= m < 64 implies u64_bit(0u64, m) == false by {
            let mu = m as u64;
            assert(((0u64 >> mu) & 1u64) == 0u64) by (bit_vector);
        }
    }
    while k < lut.len()
        invariant
            k <= lut@.len() <= 64,
            forall|m: int| 0 <= m < 64 ==> u64_bit(r, m) == (m < k && lut@[m]),
        decreases lut@.len() - k,
    {
        if lut[k] {
            let ku = k as u64;
            let r0 = r;
            r = r | (1u64 << ku);
            proof {
                assert forall|m: int| 0 <= m < 64 implies u64_bit(r, m) == (m == k || u64_bit(
                    r0,
                    m,
                )) by {
                    let mu = m as u64;
                    assert((((r0 | (1u64 << ku)) >> mu) & 1u64 == 1u64) == (mu == ku || ((r0
                        >> mu) & 1u64) == 1u64)) by (bit_vector)
                        requires
                            ku < 64,
                            mu < 64,
                    ;
                }
            }
        }
        k = k + 1;
    }
    r
}

/// The table of `w` entries held in the low bits of `x`.
pub(crate) fn u64_to_lut(x: u64, w: usize) -> (r: Vec<bool>)
    requires
        w <= 64,
    ensures
        r@ == Seq::new(w as nat, |k: int| u64_bit(x, k)),
{
    let mut r: Vec<bool> = Vec::new();
    let mut k: usize = 0;
    while k < w
        invariant
            k <= w <= 64,
            r@.len() == k,
            forall|m: int| 0 <= m < k ==> r@[m] == u64_bit(x, m),
        decreases w - k,
    {
        let ku = k as u64;
        let b = ((x >> ku) & 1u64) == 1u64;
        r.push(b);
        k = k + 1;
    }
    assert(r@ =~= Seq::new(w as nat, |k: int| u64_bit(x, k)));
    r
}

proof fn lemma_insert_block(q: int, j: int, i: nat, b: bool)
    requires
        q >= 0,
        0 <= j < pow2(i),
    ensures
        insert_index(q * pow2(i) + j, i, b) == 2 * q * pow2(i) + (if b { pow2(i) as int } else {
            0
        }) + j,
{
    let s = pow2(i) as int;
    lemma_pow2_pos(i);
    lemma_pow2_unfold(i + 1);
    vstd::arithmetic::div_mod::lemma_fundamental_div_mod_converse(q * s + j, s, q, j);
    assert(q * (2 * s) == 2 * q * s) by (nonlinear_arith);
}

/// Reduces a table of any size on input `i` being `bit`, block by block.
pub fn general_reduce_lut<T: Copy>(lut: &Vec<T>, i: usize, bit: bool) -> (r: Vec<T>)
    requires
        lut_shape(lut@.len(), i as nat),
        i < usize::BITS,
    ensures
        r@ == reduced(lut@, i as nat, bit),
{
    let ghost len = lut@.len();
    let ghost s = pow2(i as nat) as int;
    proof {
        lemma_pow2_pos(i as nat);
        lemma_pow2_unfold(i as nat + 1);
        vstd::bits::lemma_usize_pow2_no_overflow(i as nat);
        vstd::bits::lemma_usize_shl_is_mul(1, i);
        lemma_insert_index_range(0, i as nat, bit, len);
    }
    let next_bw = lut.len() / 2;
    assert(len <= usize::MAX);
    let w: usize = 1usize << i;
    assert(w == s);
    let ghost c: int = (len / pow2(i as nat + 1)) as int;
    assert(next_bw == c * s);
    let mut next_lut: Vec<T> = Vec::new();
    let mut from: usize = 0;
    let mut to: usize = 0;
    while to < next_bw
        invariant
            len == lut@.len(),
            len <= usize::MAX,
            next_bw == len / 2,
            next_bw == c * s,
            w == s,
            s > 0,
            s == pow2(i as nat),
            c >= 0,
            lut_shape(len, i as nat),
            to % w == 0,
            to <= next_bw,
            from == 2 * to,
            next_lut@.len() == to,
            forall|m: int| 0 <= m < to ==> next_lut@[m] == lut@[insert_index(m, i as nat, bit)],
        decreases next_bw - to,
    {
        let ghost q: int = (to / w) as int;
        proof {
            vstd::arithmetic::div_mod::lemma_fundamental_div_mod(to as int, w as int);
            assert(to == q * s) by (nonlinear_arith)
                requires
                    to == w * q + 0,
                    w == s,
            ;
            assert(q < c) by (nonlinear_arith)
                requires
                    to == q * s,
                    to < next_bw,
                    next_bw == c * s,
                    s > 0,
            ;
            assert(to + w <= next_bw) by (nonlinear_arith)
                requires
                    to == q * s,
                    q < c,
                    next_bw == c * s,
                    w == s,
            ;
        }
        assert(from + 2 * w <= len);
        let base: usize = if bit {
            from + w
        } else {
            from
        };
        let mut j: usize = 0;
        while j < w
            invariant
                len == lut@.len(),
                w == s,
                s > 0,
                s == pow2(i as nat),
                to == q * s,
                q >= 0,
                to + w <= next_bw,
                next_bw == len / 2,
                from == 2 * to,
                base == from + (if bit { w as int } else { 0 }),
                from + 2 * w <= len,
                len <= usize::MAX,
                lut_shape(len, i as nat),
                j <= w,
                next_lut@.len() == to + j,
                forall|m: int| 0 <= m < to + j ==> next_lut@[m] == lut@[insert_index(m, i as nat, bit)],
            decreases w - j,
        {
            proof {
                lemma_insert_block(q, j as int, i as nat, bit);
                assert(q * s + j == to + j);
                assert(2 * q * s == from) by (nonlinear_arith)
                    requires
                        to == q * s,
                        from == 2 * to,
                ;
                lemma_insert_index_range((to + j) as int, i as nat, bit, len);
            }
            next_lut.push(lut[base + j]);
            j = j + 1;
        }
        from = from + 2 * w;
        to = to + w;
        proof {
            vstd::arithmetic::div_mod::lemma_mod_multiples_vanish(1, (to - w) as int, w as int);
            assert(to % w == 0) by (nonlinear_arith)
                requires
                    to == q * s + w,
                    w == s,
                    s > 0,
            {
                vstd::arithmetic::div_mod::lemma_fundamental_div_mod_converse(to as int, s, q + 1, 0);
            }
        }
    }
    assert(next_lut@ =~= reduced(lut@, i as nat, bit));
    next_lut
}

/// Whether two tables are equal, entry by entry.
fn tables_equal(a: &Vec<bool>, b: &Vec<bool>) -> (r: bool)
    ensures
        r == (a@ == b@),
{
    if a.len() != b.len() {
        return false;
    }
    let mut k: usize = 0;
    while k < a.len()
        invariant
            a@.len() == b@.len(),
            k <= a@.len(),
            forall|m: int| 0 <= m < k ==> a@[m] == b@[m],
        decreases a@.len() - k,
    {
        if a[k] != b[k] {
            return false;
        }
        k = k + 1;
    }
    assert(a@ =~= b@);
    true
}

/// If the output of the table does not depend on input `i`, reduces the
/// table on that input and returns true; otherwise leaves it and returns
/// false.
pub fn general_reduce_independent_lut(lut: &mut Vec<bool>, i: usize) -> (r: bool)
    requires
        lut_shape(old(lut)@.len(), i as nat),
        i < usize::BITS,
    ensures
        r == independent_of(old(lut)@, i as nat),
        r ==> final(lut)@ == reduced(old(lut)@, i as nat, false),
        !r ==> final(lut)@ == old(lut)@,
{
    let tmp0 = general_reduce_lut(lut, i, false);
    let tmp1 = general_reduce_lut(lut, i, true);
    let eq = tables_equal(&tmp0, &tmp1);
    proof {
        let l = old(lut)@;
        if eq {
            assert forall|k: int| 0 <= k < l.len() / 2 implies #[trigger] l[insert_index(
                k,
                i as nat,
                false,
            )] == l[insert_index(k, i as nat, true)] by {
                assert(tmp0@[k] == tmp1@[k]);
            }
        } else {
            if independent_of(l, i as nat) {
                assert(tmp0@ =~= tmp1@);
            }
        }
    }
    if eq {
        *lut = tmp0;
        true
    } else {
        false
    }
}

pub open spec fn max_nat(a: nat, b: nat) -> nat {
    if a > b {
        a
    } else {
        b
    }
}

proof fn lemma_swap64_arith_gen(k: u64, a: u64, b: u64, m: u64)
    by (bit_vector)
    requires
        a < 64,
        b < 64,
        a <= m,
        b <= m,
        m < 63,
    ensures
        (((k >> a) & 1u64) == 1u64 && ((k >> b) & 1u64) == 0u64) ==> (k ^ ((1u64 << a) | (1u64
            << b))) == ((k - (1u64 << a)) + (1u64 << b)) as u64,
        (((k >> a) & 1u64) == 0u64 && ((k >> b) & 1u64) == 1u64) ==> (k ^ ((1u64 << a) | (1u64
            << b))) == ((k + (1u64 << a)) - (1u64 << b)) as u64,
        ((k >> a) & 1u64) == 0u64 || ((k >> a) & 1u64) == 1u64,
        ((k >> b) & 1u64) == 0u64 || ((k >> b) & 1u64) == 1u64,
        ((k >> a) & 1u64) == 1u64 ==> k >= (1u64 << a),
        ((k >> b) & 1u64) == 1u64 ==> k >= (1u64 << b),
        (((k >> a) & 1u64) == 1u64 && ((k >> b) & 1u64) == 0u64) ==> (k - (1u64 << a)) + (1u64
            << b) <= 0xffff_ffff_ffff_ffffu64,
        (((k >> a) & 1u64) == 0u64 && ((k >> b) & 1u64) == 1u64) ==> (k + (1u64 << a)) - (1u64
            << b) <= 0xffff_ffff_ffff_ffffu64,
        (swap64(k, a, b) >> ((m + 1) as u64)) == (k >> ((m + 1) as u64)),
{
}

pub(crate) proof fn lemma_swap_index_gen(k: u64, a: u64, b: u64, m: u64)
    requires
        a <= m,
        b <= m,
        m < 63,
    ensures
        swap_index(k as int, a as nat, b as nat) == swap64(k, a, b) as int,
        swap64(k, a, b) as int / (pow2(m as nat + 1) as int) == k as int / (pow2(m as nat + 1) as int),
{
    vstd::bits::lemma_u64_shr_is_div(k, a);
    vstd::bits::lemma_u64_shr_is_div(k, b);
    vstd::bits::lemma_u64_shr_is_div(k, (m + 1) as u64);
    vstd::bits::lemma_u64_shr_is_div(swap64(k, a, b), (m + 1) as u64);
    vstd::bits::lemma_u64_pow2_no_overflow(a as nat);
    vstd::bits::lemma_u64_pow2_no_overflow(b as nat);
    vstd::bits::lemma_u64_shl_is_mul(1u64, a);
    vstd::bits::lemma_u64_shl_is_mul(1u64, b);
    lemma_bit_is_mod2(k >> a);
    lemma_bit_is_mod2(k >> b);
    lemma_swap64_arith_gen(k, a, b, m);
    assert(index_bit(k as int, a as nat) == (((k >> a) & 1u64) == 1u64));
    assert(index_bit(k as int, b as nat) == (((k >> b) & 1u64) == 1u64));
    let xa = (k >> a) & 1u64;
    let xb = (k >> b) & 1u64;
    let pa = pow2(a as nat) as int;
    let pb = pow2(b as nat) as int;
    let bi: int = if index_bit(k as int, a as nat) { 1 } else { 0 };
    let bj: int = if index_bit(k as int, b as nat) { 1 } else { 0 };
    assert(swap_index(k as int, a as nat, b as nat) == k as int + (bj - bi) * pa + (bi - bj) * pb);
    if xa == xb {
        assert(swap64(k, a, b) == k);
        assert(bi == bj);
        assert((bj - bi) * pa == 0 && (bi - bj) * pb == 0) by (nonlinear_arith)
            requires
                bi == bj,
        ;
    } else if xa == 1u64 {
        assert(bi == 1 && bj == 0);
        assert((bj - bi) * pa == -pa);
        assert((bi - bj) * pb == pb);
        assert(swap64(k, a, b) == (k - (1u64 << a) + (1u64 << b)) as u64);
    } else {
        assert(bi == 0 && bj == 1);
        assert((bj - bi) * pa == pa);
        assert((bi - bj) * pb == -pb);
        assert(swap64(k, a, b) == (k + (1u64 << a) - (1u64 << b)) as u64);
    }
}

/// A shape-conforming length is at least one block long.
pub(crate) proof fn lemma_shape_block(len: nat, i: nat)
    requires
        lut_shape(len, i),
    ensures
        pow2(i + 1) <= len,
        i + 1 < 64 ==> pow2(i + 1) <= u64::MAX,
{
    lemma_pow2_pos(i + 1);
    let p = pow2(i + 1) as int;
    vstd::arithmetic::div_mod::lemma_fundamental_div_mod(len as int, p);
    vstd::arithmetic::div_mod::lemma_div_pos_is_pos(len as int, p);
    let c = len as int / p;
    assert(c >= 1) by (nonlinear_arith)
        requires
            len as int == p * c + 0,
            len > 0,
            c >= 0,
            p > 0,
    ;
    assert(p <= len) by (nonlinear_arith)
        requires
            len as int == p * c,
            c >= 1,
            p > 0,
    ;
    if i + 1 < 64 {
        vstd::bits::lemma_u64_pow2_no_overflow(i + 1);
    }
}

/// Exchanging bits at or below `m` keeps an index inside a table whose
/// length is a multiple of `2^(m + 1)`.
pub(crate) proof fn lemma_swap_in_block(k: int, r: int, m: nat, len: nat)
    requires
        lut_shape(len, m),
        0 <= k < len,
        0 <= r,
        r / (pow2(m + 1) as int) == k / (pow2(m + 1) as int),
    ensures
        r < len,
{
    lemma_pow2_pos(m + 1);
    let p = pow2(m + 1) as int;
    vstd::arithmetic::div_mod::lemma_fundamental_div_mod(len as int, p);
    vstd::arithmetic::div_mod::lemma_fundamental_div_mod(k, p);
    vstd::arithmetic::div_mod::lemma_fundamental_div_mod(r, p);
    vstd::arithmetic::div_mod::lemma_mod_pos_bound(r, p);
    vstd::arithmetic::div_mod::lemma_mod_pos_bound(k, p);
    let c = len as int / p;
    let q = k / p;
    assert(q < c) by (nonlinear_arith)
        requires
            len as int == p * c + 0,
            k == p * q + k % p,
            0 <= k % p,
            k < len,
            p > 0,
    ;
    assert(r < len) by (nonlinear_arith)
        requires
            len as int == p * c + 0,
            r == p * q + r % p,
            r % p < p,
            q < c,
            p > 0,
    ;
}

/// Where entry `k` of a table with inputs `i` and `j` exchanged comes from.
pub(crate) fn swap_index_exec(k: usize, i: usize, j: usize, Ghost(len): Ghost<nat>) -> (r: usize)
    requires
        lut_shape(len, max_nat(i as nat, j as nat)),
        k < len,
        len <= usize::MAX,
    ensures
        r == swap_index(k as int, i as nat, j as nat),
        r < len,
{
    let ghost m = max_nat(i as nat, j as nat);
    proof {
        lemma_shape_block(len, m);
        if m + 1 >= 64 {
            vstd::arithmetic::power2::lemma2_to64_rest();
            if m + 1 > 64 {
                vstd::arithmetic::power2::lemma_pow2_strictly_increases(64, m + 1);
            }
            assert(false);
        }
        lemma_swap_index_gen(k as u64, i as u64, j as u64, m as u64);
        lemma_swap_in_block(k as int, swap64(k as u64, i as u64, j as u64) as int, m, len);
    }
    let ku = k as u64;
    let iu = i as u64;
    let ju = j as u64;
    let r = if ((ku >> iu) & 1u64) == ((ku >> ju) & 1u64) {
        ku
    } else {
        ku ^ ((1u64 << iu) | (1u64 << ju))
    };
    r as usize
}

proof fn lemma_swap64_twice(k: u64, a: u64, b: u64)
    by (bit_vector)
    requires
        a < 64,
        b < 64,
    ensures
        swap64(swap64(k, a, b), a, b) == k,
{
}

/// `r` is the word table `lut` with inputs `i` and `j` exchanged, as
/// `rotate64` returns it.
pub open spec fn rotated64(lut: u64, i: nat, j: nat, r: u64) -> bool {
    forall|k: int| 0 <= k < 64 ==> u64_bit(r, k) == u64_bit(lut, swap_index(k, i, j))
}

/// On word tables, exchanging inputs `i` and `j` is the same as exchanging
/// `j` and `i`, the result is determined, and exchanging them again gives
/// the table back.
pub proof fn law_rotate64(lut: u64, i: nat, j: nat, r: u64, r2: u64, q: u64)
    requires
        i < 6,
        j < 6,
        rotated64(lut, i, j, r),
        rotated64(r, i, j, r2),
        rotated64(lut, j, i, q),
    ensures
        r2 == lut,
        q == r,
{
    assert forall|k: int| 0 <= k < 64 implies u64_bit(r2, k) == u64_bit(lut, k) by {
        lemma_swap_index_64(k as u64, i as u64, j as u64);
        let s = swap64(k as u64, i as u64, j as u64);
        lemma_swap_index_64(s, i as u64, j as u64);
        lemma_swap64_twice(k as u64, i as u64, j as u64);
    }
    lemma_u64_ext(r2, lut);
    assert forall|k: int| 0 <= k < 64 implies u64_bit(q, k) == u64_bit(r, k) by {
        assert(swap_index(k, i, j) == swap_index(k, j, i));
    }
    lemma_u64_ext(q, r);
}

/// Exchanging the same two inputs twice gives back the table.
pub proof fn law_rotate_twice<T>(lut: Seq<T>, i: nat, j: nat)
    requires
        lut_shape(lut.len(), max_nat(i, j)),
        lut.len() <= usize::MAX,
    ensures
        rotated(rotated(lut, i, j), i, j) == lut,
{
    let m = max_nat(i, j);
    lemma_shape_small(lut.len(), m);
    assert forall|k: int| 0 <= k < lut.len() implies #[trigger] rotated(rotated(lut, i, j), i, j)[k] == lut[k] by {
        lemma_swap_index_gen(k as u64, i as u64, j as u64, m as u64);
        let s = swap64(k as u64, i as u64, j as u64);
        lemma_swap_index_gen(s, i as u64, j as u64, m as u64);
        lemma_swap64_twice(k as u64, i as u64, j as u64);
        lemma_swap_in_block(k, s as int, m, lut.len());
    }
    assert(rotated(rotated(lut, i, j), i, j) =~= lut);
}

/// Exchanges inputs `i` and `j` of a table of any size.
pub fn general_rotate_lut<T: Copy>(lut: &mut Vec<T>, i: usize, j: usize)
    requires
        lut_shape(old(lut)@.len(), max_nat(i as nat, j as nat)),
    ensures
        final(lut)@ == rotated(old(lut)@, i as nat, j as nat),
{
    let ghost len = lut@.len();
    let mut out: Vec<T> = Vec::new();
    let mut k: usize = 0;
    while k < lut.len()
        invariant
            len == lut@.len(),
            lut_shape(len, max_nat(i as nat, j as nat)),
            k <= len,
            out@.len() == k,
            forall|m: int| 0 <= m < k ==> out@[m] == lut@[swap_index(m, i as nat, j as nat)],
        decreases len - k,
    {
        let s = swap_index_exec(k, i, j, Ghost(len));
        out.push(lut[s]);
        k = k + 1;
    }
    assert(out@ =~= rotated(lut@, i as nat, j as nat));
    *lut = out;
}

/// A shape-conforming length fits the index arithmetic of the machine, and
/// a table of at most 64 entries has fewer than 6 inputs.
pub(crate) proof fn lemma_shape_small(len: nat, i: nat)
    requires
        lut_shape(len, i),
        len <= usize::MAX,
    ensures
        i + 1 < usize::BITS,
        i + 1 < 64,
        len <= 64 ==> i < 6,
{
    lemma_shape_block(len, i);
    vstd::arithmetic::power2::lemma2_to64();
    vstd::arithmetic::power2::lemma2_to64_rest();
    if i + 1 >= usize::BITS {
        if i + 1 > usize::BITS {
            vstd::arithmetic::power2::lemma_pow2_strictly_increases(usize::BITS as nat, i + 1);
        }
        assert(false);
    }
    if len <= 64 && i >= 6 {
        if i + 1 > 7 {
            vstd::arithmetic::power2::lemma_pow2_strictly_increases(7, i + 1);
        }
        assert(false);
    }
}


/// The table index selected by the input bits, input `m` weighing `2^m`.
pub open spec fn input_index(inputs: Seq<bool>) -> int
    decreases inputs.len(),
{
    if inputs.len() == 0 {
        0
    } else {
        (if inputs[0] {
            1int
        } else {
            0int
        }) + 2 * input_index(inputs.drop_first())
    }
}

/// The output of a table for the given input bits.
pub open spec fn lut_eval(lut: Seq<bool>, inputs: Seq<bool>) -> bool {
    lut[input_index(inputs)]
}

/// A table for `n` inputs.
pub open spec fn is_lut(lut: Seq<bool>, n: nat) -> bool {
    lut.len() == pow2(n)
}

pub proof fn lemma_input_index_range(inputs: Seq<bool>)
    ensures
        0 <= input_index(inputs) < pow2(inputs.len()),
    decreases inputs.len(),
{
    if inputs.len() == 0 {
        vstd::arithmetic::power2::lemma2_to64();
    } else {
        lemma_input_index_range(inputs.drop_first());
        lemma_pow2_unfold(inputs.len());
    }
}

proof fn lemma_insert_index_shift(kk: int, x0: int, i: nat, b: bool)
    requires
        i > 0,
        kk >= 0,
        0 <= x0 <= 1,
    ensures
        insert_index(x0 + 2 * kk, i, b) == x0 + 2 * insert_index(kk, (i - 1) as nat, b),
{
    let s = pow2((i - 1) as nat) as int;
    lemma_pow2_pos((i - 1) as nat);
    lemma_pow2_unfold(i);
    lemma_pow2_unfold(i + 1);
    assert(pow2(i) as int == 2 * s);
    assert(pow2(i + 1) as int == 4 * s);
    vstd::arithmetic::div_mod::lemma_fundamental_div_mod(kk, s);
    vstd::arithmetic::div_mod::lemma_mod_pos_bound(kk, s);
    let q = kk / s;
    let r = kk % s;
    assert(x0 + 2 * kk == q * (2 * s) + (x0 + 2 * r)) by (nonlinear_arith)
        requires
            kk == s * q + r,
    ;
    vstd::arithmetic::div_mod::lemma_fundamental_div_mod_converse(x0 + 2 * kk, 2 * s, q, x0 + 2 * r);
    assert(q * (4 * s) == 2 * (q * (2 * s))) by (nonlinear_arith);
}

/// Fixing input `i` to `b` and evaluating agrees with evaluating the table
/// reduced on that input at the remaining inputs.
pub proof fn lemma_input_index_update_remove(inputs: Seq<bool>, i: nat, b: bool)
    requires
        i < inputs.len(),
    ensures
        input_index(inputs.update(i as int, b)) == insert_index(
            input_index(inputs.remove(i as int)),
            i,
            b,
        ),
    decreases i,
{
    let up = inputs.update(i as int, b);
    let rm = inputs.remove(i as int);
    if i == 0 {
        vstd::arithmetic::power2::lemma2_to64();
        assert(up.drop_first() =~= inputs.drop_first());
        assert(rm =~= inputs.drop_first());
        lemma_input_index_range(rm);
        let kk = input_index(rm);
        vstd::arithmetic::div_mod::lemma_fundamental_div_mod_converse(kk, 1, kk, 0);
        assert(insert_index(kk, 0, b) == kk * 2 + (if b { 1int } else { 0int }));
        assert(input_index(up) == (if b { 1int } else { 0int }) + 2 * input_index(up.drop_first()));
    } else {
        let rest = inputs.drop_first();
        lemma_input_index_update_remove(rest, (i - 1) as nat, b);
        assert(up.drop_first() =~= rest.update(i - 1, b));
        assert(rm.drop_first() =~= rest.remove(i - 1));
        assert(rm[0] == inputs[0]);
        lemma_input_index_range(rest.remove(i - 1));
        lemma_insert_index_shift(
            input_index(rest.remove(i - 1)),
            if inputs[0] { 1 } else { 0 },
            i,
            b,
        );
        assert(input_index(up) == (if inputs[0] { 1int } else { 0int }) + 2 * input_index(up.drop_first()));
        assert(input_index(rm) == (if inputs[0] { 1int } else { 0int }) + 2 * input_index(rm.drop_first()));
    }
}

/// A power-of-two table can be operated on at any of its inputs.
pub proof fn lemma_lut_shape_of_inputs(n: nat, i: nat)
    requires
        i < n,
    ensures
        lut_shape(pow2(n), i),
{
    lemma_pow2_pos(n);
    vstd::arithmetic::power2::lemma_pow2_adds((n - (i + 1)) as nat, i + 1);
    lemma_pow2_pos((n - (i + 1)) as nat);
    vstd::arithmetic::div_mod::lemma_mod_multiples_basic(
        pow2((n - (i + 1)) as nat) as int,
        pow2(i + 1) as int,
    );
}

/// Reducing a table on input `i` being `b` gives the table of the remaining
/// inputs: evaluating it agrees with evaluating the full table with input `i`
/// set to `b`.
pub proof fn law_reduce_lut_eval(lut: Seq<bool>, inputs: Seq<bool>, i: nat, b: bool)
    requires
        is_lut(lut, inputs.len()),
        i < inputs.len(),
    ensures
        is_lut(reduced(lut, i, b), (inputs.len() - 1) as nat),
        lut_eval(reduced(lut, i, b), inputs.remove(i as int)) == lut_eval(
            lut,
            inputs.update(i as int, b),
        ),
{
    let n = inputs.len();
    lemma_pow2_unfold(n);
    lemma_input_index_update_remove(inputs, i, b);
    lemma_input_index_range(inputs.remove(i as int));
}

/// A table that does not depend on input `i` gives the same output whatever
/// that input is, and its reduction evaluates like it at the remaining inputs.
pub proof fn law_independent_lut_eval(lut: Seq<bool>, inputs: Seq<bool>, i: nat)
    requires
        is_lut(lut, inputs.len()),
        i < inputs.len(),
        independent_of(lut, i),
    ensures
        lut_eval(lut, inputs) == lut_eval(reduced(lut, i, false), inputs.remove(i as int)),
        lut_eval(lut, inputs.update(i as int, true)) == lut_eval(lut, inputs.update(i as int, false)),
{
    let n = inputs.len();
    lemma_pow2_unfold(n);
    lemma_lut_shape_of_inputs(n, i);
    let rm = inputs.remove(i as int);
    lemma_input_index_update_remove(inputs, i, false);
    lemma_input_index_update_remove(inputs, i, true);
    lemma_input_index_range(rm);
    let kk = input_index(rm);
    assert(kk < lut.len() / 2);
    assert(lut[insert_index(kk, i, false)] == lut[insert_index(kk, i, true)]);
    assert(inputs.update(i as int, inputs[i as int]) =~= inputs);
}

} // verus!
