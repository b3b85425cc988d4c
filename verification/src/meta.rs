//! Lowering of bit vector operations into lookup table networks, evaluated
//! on known bits. A bit vector is held least significant bit first; each
//! bit of a result is what the lookup tables built by the lowering output
//! for the given input bits.

use vstd::prelude::*;
use vstd::arithmetic::power2::{pow2, lemma2_to64, lemma_pow2_unfold, lemma_pow2_pos};
use crate::lut::{input_index, index_bit, lemma_input_index_range, lut_eval, is_lut, independent_of, reduced, insert_index, law_reduce_lut_eval, law_independent_lut_eval, lemma_lut_shape_of_inputs, lemma_input_index_update_remove};
use crate::lnode::LNode;
use crate::ptr::PState;

verus! {

/// The unsigned value of a bit vector.
pub open spec fn uval(s: Seq<bool>) -> int {
    input_index(s)
}

proof fn lemma_mod2_cases(x: int)
    ensures
        x % 2 == 0 || x % 2 == 1,
{
}

/// The low `n` bits of a vector hold its value modulo `2^n`.
pub proof fn lemma_uval_take(s: Seq<bool>, n: nat)
    requires
        n <= s.len(),
    ensures
        uval(s.take(n as int)) == uval(s) % (pow2(n) as int),
    decreases n,
{
    lemma_input_index_range(s);
    if n == 0 {
        lemma2_to64();
        assert(s.take(0) =~= Seq::<bool>::empty());
    } else {
        let r = s.drop_first();
        lemma_uval_take(r, (n - 1) as nat);
        assert(s.take(n as int).drop_first() =~= r.take(n - 1));
        lemma_pow2_unfold(n);
        lemma_pow2_pos((n - 1) as nat);
        lemma_input_index_range(r);
        let b: int = if s[0] { 1 } else { 0 };
        let p = pow2((n - 1) as nat) as int;
        let v = uval(r);
        vstd::arithmetic::div_mod::lemma_fundamental_div_mod(v, p);
        vstd::arithmetic::div_mod::lemma_mod_pos_bound(v, p);
        let q = v / p;
        let m = v % p;
        assert(b + 2 * v == q * (2 * p) + (b + 2 * m)) by (nonlinear_arith)
            requires
                v == p * q + m,
        ;
        vstd::arithmetic::div_mod::lemma_fundamental_div_mod_converse(b + 2 * v, 2 * p, q, b + 2 * m);
    }
}

/// Bit `j` of the value of a vector is its entry `j`.
pub proof fn lemma_uval_bit(s: Seq<bool>, j: nat)
    requires
        j < s.len(),
    ensures
        index_bit(uval(s), j) == s[j as int],
    decreases j,
{
    lemma_input_index_range(s);
    let r = s.drop_first();
    lemma_input_index_range(r);
    let b: int = if s[0] { 1 } else { 0 };
    let v = uval(r);
    if j == 0 {
        lemma2_to64();
        vstd::arithmetic::div_mod::lemma_fundamental_div_mod_converse(b + 2 * v, 2, v, b);
    } else {
        lemma_uval_bit(r, (j - 1) as nat);
        lemma_pow2_unfold(j);
        lemma_pow2_pos((j - 1) as nat);
        let p = pow2((j - 1) as nat) as int;
        vstd::arithmetic::div_mod::lemma_div_denominator(b + 2 * v, 2, p);
        vstd::arithmetic::div_mod::lemma_fundamental_div_mod_converse(b + 2 * v, 2, v, b);
    }
}

/// Vectors of one length whose bits agree have the same value, and the
/// other way around.
pub proof fn lemma_uval_eq(a: Seq<bool>, b: Seq<bool>)
    requires
        a.len() == b.len(),
    ensures
        (uval(a) == uval(b)) <==> (a == b),
    decreases a.len(),
{
    if a.len() == 0 {
        assert(a =~= b);
    } else {
        lemma_uval_eq(a.drop_first(), b.drop_first());
        lemma_input_index_range(a.drop_first());
        lemma_input_index_range(b.drop_first());
        if a == b {
        } else if uval(a) == uval(b) {
            let ba: int = if a[0] { 1 } else { 0 };
            let bb: int = if b[0] { 1 } else { 0 };
            assert(ba == bb);
            assert(a[0] == b[0]);
            assert(a =~= seq![a[0]] + a.drop_first());
            assert(b =~= seq![b[0]] + b.drop_first());
        }
    }
}

/// The value of the bits of `s`, most significant first down to `k`.
spec fn uval_from(s: Seq<bool>, k: int) -> int {
    uval(s.subrange(k, s.len() as int))
}

/// The value of a vector, for vectors that fit in a `usize`.
pub fn bits_to_usize(s: &Vec<bool>) -> (r: usize)
    requires
        s@.len() < usize::BITS,
    ensures
        r == uval(s@),
{
    let mut v: usize = 0;
    let mut k: usize = s.len();
    proof {
        lemma2_to64();
        assert(s@.subrange(k as int, s@.len() as int) =~= Seq::<bool>::empty());
    }
    while k > 0
        invariant
            k <= s@.len() < usize::BITS,
            v == uval_from(s@, k as int),
            0 <= v < pow2((s@.len() - k) as nat),
        decreases k,
    {
        k = k - 1;
        proof {
            let sub = s@.subrange(k as int, s@.len() as int);
            assert(sub.drop_first() =~= s@.subrange(k + 1, s@.len() as int));
            lemma_pow2_unfold((s@.len() - k) as nat);
            vstd::bits::lemma_usize_pow2_no_overflow((s@.len() - k) as nat);
        }
        v = 2 * v + (if s[k] { 1 } else { 0 });
    }
    assert(s@.subrange(0, s@.len() as int) =~= s@);
    v
}

/// The number of bits needed to write `x` (so that `x < 2^w`, with bit
/// `w - 1` set), `None` if `x` is zero.
pub fn nontrivial_bits(x: usize) -> (r: Option<usize>)
    ensures
        x == 0 <==> r is None,
        r matches Some(w) ==> 1 <= w <= usize::BITS && pow2((w - 1) as nat) <= x < pow2(w as nat),
{
    if x == 0 {
        return None;
    }
    let mut w: usize = 0;
    let mut y: usize = x;
    proof {
        lemma2_to64();
        vstd::bits::lemma_usize_shr_is_div(x, 0);
    }
    while y != 0
        invariant
            w <= usize::BITS,
            y == (x as int) / (pow2(w as nat) as int),
            x > 0,
            w > 0 ==> pow2((w - 1) as nat) <= x,
            x < pow2(w as nat) ==> y == 0,
        decreases y,
    {
        proof {
            lemma_pow2_unfold(w as nat + 1);
            lemma_pow2_pos(w as nat);
            vstd::arithmetic::div_mod::lemma_div_denominator(x as int, pow2(w as nat) as int, 2);
            vstd::arithmetic::div_mod::lemma_div_pos_is_pos(x as int, pow2(w as nat) as int);
            if y != 0 {
                vstd::arithmetic::div_mod::lemma_fundamental_div_mod(x as int, pow2(w as nat) as int);
                vstd::arithmetic::div_mod::lemma_mod_pos_bound(x as int, pow2(w as nat) as int);
                assert(pow2(w as nat) <= x) by (nonlinear_arith)
                    requires
                        x == pow2(w as nat) * y + (x as int) % (pow2(w as nat) as int),
                        y >= 1,
                        (x as int) % (pow2(w as nat) as int) >= 0,
                ;
                if w >= usize::BITS {
                    vstd::arithmetic::power2::lemma2_to64_rest();
                    if w > usize::BITS {
                        vstd::arithmetic::power2::lemma_pow2_strictly_increases(usize::BITS as nat, w as nat);
                    }
                    assert(false);
                }
            }
        }
        y = y / 2;
        w = w + 1;
        proof {
            if x < pow2(w as nat) {
                vstd::arithmetic::div_mod::lemma_basic_div(x as int, pow2(w as nat) as int);
            }
        }
    }
    proof {
        lemma_pow2_pos(w as nat);
        vstd::arithmetic::div_mod::lemma_fundamental_div_mod(x as int, pow2(w as nat) as int);
        vstd::arithmetic::div_mod::lemma_mod_pos_bound(x as int, pow2(w as nat) as int);
    }
    Some(w)
}


/// `2^n`
pub(crate) fn pow2_usize(n: usize) -> (r: usize)
    requires
        n < usize::BITS,
    ensures
        r == pow2(n as nat),
{
    proof {
        vstd::bits::lemma_usize_pow2_no_overflow(n as nat);
        vstd::bits::lemma_usize_shl_is_mul(1, n);
    }
    1usize << n
}

/// Appending zeros above a vector keeps its value.
pub proof fn lemma_uval_zero_extend(s: Seq<bool>, z: Seq<bool>)
    requires
        forall|k: int| 0 <= k < z.len() ==> !z[k],
    ensures
        uval(s + z) == uval(s),
    decreases s.len() + z.len(),
{
    if s.len() == 0 {
        assert(s + z =~= z);
        if z.len() > 0 {
            lemma_uval_zero_extend(s, z.drop_first());
            assert(s + z.drop_first() =~= z.drop_first());
        }
    } else {
        lemma_uval_zero_extend(s.drop_first(), z);
        assert((s + z).drop_first() =~= s.drop_first() + z);
    }
}

/// The vector of width `w` holding `x`: truncated, or extended with copies of
/// the most significant bit when `signed`, zeros otherwise.
pub fn resize(x: &Vec<bool>, w: usize, signed: bool) -> (r: Vec<bool>)
    requires
        x@.len() > 0,
        w > 0,
    ensures
        r@.len() == w,
        forall|k: int|
            0 <= k < w ==> #[trigger] r@[k] == if k < x@.len() {
                x@[k]
            } else {
                signed && x@[x@.len() - 1]
            },
{
    let msb = x[x.len() - 1];
    let mut r: Vec<bool> = Vec::new();
    let mut k: usize = 0;
    while k < w
        invariant
            x@.len() > 0,
            msb == x@[x@.len() - 1],
            k <= w,
            r@.len() == k,
            forall|m: int|
                0 <= m < k ==> #[trigger] r@[m] == if m < x@.len() {
                    x@[m]
                } else {
                    signed && msb
                },
        decreases w - k,
    {
        if k < x.len() {
            r.push(x[k]);
        } else {
            r.push(signed && msb);
        }
        k = k + 1;
    }
    r
}

/// The vector with its bits in reverse order.
pub fn reverse(x: &Vec<bool>) -> (r: Vec<bool>)
    ensures
        r@ == x@.reverse(),
{
    let n = x.len();
    let mut r: Vec<bool> = Vec::new();
    let mut i: usize = 0;
    while i < n
        invariant
            n == x@.len(),
            i <= n,
            r@.len() == i,
            forall|m: int| 0 <= m < i ==> #[trigger] r@[m] == x@[n - 1 - m],
        decreases n - i,
    {
        r.push(x[n - 1 - i]);
        i = i + 1;
    }
    assert(r@ =~= x@.reverse());
    r
}

/// Output `j` selects entry `j + s` of `x`: a window of half the width of
/// `x` shifted down by the value of `s`.
pub fn funnel(x: &Vec<bool>, s: &Vec<bool>) -> (r: Vec<bool>)
    requires
        s@.len() < usize::BITS - 1,
        x@.len() == 2 * pow2(s@.len()),
    ensures
        r@.len() == pow2(s@.len()),
        forall|j: int| 0 <= j < r@.len() ==> #[trigger] r@[j] == x@[j + uval(s@)],
{
    let out_w = pow2_usize(s.len());
    let sv = bits_to_usize(s);
    let n = x.len();
    proof {
        lemma_input_index_range(s@);
    }
    let mut r: Vec<bool> = Vec::new();
    let mut j: usize = 0;
    while j < out_w
        invariant
            out_w == pow2(s@.len()),
            sv == uval(s@),
            0 <= sv < out_w,
            x@.len() == n,
            n == 2 * out_w,
            j <= out_w,
            r@.len() == j,
            forall|m: int| 0 <= m < j ==> #[trigger] r@[m] == x@[m + sv],
        decreases out_w - j,
    {
        r.push(x[j + sv]);
        j = j + 1;
    }
    r
}

/// Output `j` is entry `j + s` of `x` followed by `ext`: the shifting network
/// shared by the shifts and rotations, built from a funnel over as many shift
/// bits as `x.len() - 1` needs.
fn shift_window(x: &Vec<bool>, ext: &Vec<bool>, s: &Vec<bool>) -> (r: Vec<bool>)
    requires
        1 <= x@.len() <= pow2((usize::BITS - 2) as nat),
        ext@.len() == x@.len() - 1,
        uval(s@) < x@.len(),
    ensures
        r@.len() == x@.len(),
        forall|j: int| 0 <= j < x@.len() ==> #[trigger] r@[j] == (x@ + ext@)[j + uval(s@)],
{
    let bw = x.len();
    proof {
        lemma_input_index_range(s@);
    }
    match nontrivial_bits(bw - 1) {
        Some(small_s_w) => {
            proof {
                if small_s_w >= usize::BITS - 1 {
                    if small_s_w - 1 > usize::BITS - 2 {
                        vstd::arithmetic::power2::lemma_pow2_strictly_increases((usize::BITS - 2) as nat, (small_s_w - 1) as nat);
                    }
                    assert(false);
                }
                if small_s_w < usize::BITS - 2 {
                    vstd::arithmetic::power2::lemma_pow2_strictly_increases((small_s_w) as nat, (usize::BITS - 2) as nat);
                }
                vstd::bits::lemma_usize_pow2_no_overflow((usize::BITS - 1) as nat);
                lemma_pow2_unfold((usize::BITS - 1) as nat);
            }
            // the low `small_s_w` bits of `s`
            let mut small_s: Vec<bool> = Vec::new();
            let mut k: usize = 0;
            while k < small_s_w
                invariant
                    k <= small_s_w,
                    small_s@.len() == k,
                    forall|m: int| 0 <= m < k ==> #[trigger] small_s@[m] == (m < s@.len() && s@[m]),
                decreases small_s_w - k,
            {
                small_s.push(k < s.len() && s[k]);
                k = k + 1;
            }
            proof {
                lemma_pow2_unfold(small_s_w as nat);
                if s@.len() >= small_s_w {
                    lemma_uval_take(s@, small_s_w as nat);
                    assert(small_s@ =~= s@.take(small_s_w as int));
                    vstd::arithmetic::div_mod::lemma_small_mod(uval(s@) as nat, pow2(small_s_w as nat));
                } else {
                    let z = Seq::new((small_s_w - s@.len()) as nat, |m: int| false);
                    assert(small_s@ =~= s@ + z);
                    lemma_uval_zero_extend(s@, z);
                }
                assert(uval(small_s@) == uval(s@));
            }
            let wide_w = 2 * pow2_usize(small_s_w);
            let mut wide_x: Vec<bool> = Vec::new();
            let mut k: usize = 0;
            while k < wide_w
                invariant
                    x@.len() == bw,
                    bw <= pow2((usize::BITS - 2) as nat),
                    2 * pow2((usize::BITS - 2) as nat) <= usize::MAX,
                    ext@.len() == bw - 1,
                    k <= wide_w,
                    wide_x@.len() == k,
                    forall|m: int|
                        0 <= m < k ==> #[trigger] wide_x@[m] == if m < 2 * bw - 1 {
                            (x@ + ext@)[m]
                        } else {
                            false
                        },
                decreases wide_w - k,
            {
                if k < bw {
                    wide_x.push(x[k]);
                } else if k < 2 * bw - 1 {
                    wide_x.push(ext[k - bw]);
                } else {
                    wide_x.push(false);
                }
                k = k + 1;
            }
            let tmp = funnel(&wide_x, &small_s);
            let mut out: Vec<bool> = Vec::new();
            let mut j: usize = 0;
            while j < bw
                invariant
                    bw == x@.len(),
                    bw - 1 < tmp@.len(),
                    j <= bw,
                    out@.len() == j,
                    forall|m: int| 0 <= m < j ==> #[trigger] out@[m] == tmp@[m],
                decreases bw - j,
            {
                out.push(tmp[j]);
                j = j + 1;
            }
            proof {
                assert forall|j: int| 0 <= j < x@.len() implies #[trigger] out@[j] == (x@ + ext@)[j
                    + uval(s@)] by {
                    assert(tmp@[j] == wide_x@[j + uval(small_s@)]);
                }
            }
            out
        },
        None => {
            proof {
                assert forall|j: int| 0 <= j < x@.len() implies #[trigger] x@[j] == (x@ + ext@)[j
                    + uval(s@)] by {
                }
            }
            x.clone()
        },
    }
}

/// Logical right shift by the value of `s`, which must be less than the
/// width of `x`.
pub fn lshr(x: &Vec<bool>, s: &Vec<bool>) -> (r: Vec<bool>)
    requires
        1 <= x@.len() <= pow2((usize::BITS - 2) as nat),
        uval(s@) < x@.len(),
    ensures
        r@.len() == x@.len(),
        forall|j: int|
            0 <= j < x@.len() ==> #[trigger] r@[j] == (j + uval(s@) < x@.len() && x@[j + uval(
                s@,
            )]),
{
    let ext = vec_of(false, x.len() - 1);
    let r = shift_window(x, &ext, s);
    proof {
        lemma_input_index_range(s@);
        assert forall|j: int| 0 <= j < x@.len() implies #[trigger] r@[j] == (j + uval(s@) < x@.len() && x@[j + uval(s@)]) by {
            assert(r@[j] == (x@ + ext@)[j + uval(s@)]);
            if j + uval(s@) >= x@.len() {
                assert((x@ + ext@)[j + uval(s@)] == ext@[j + uval(s@) - x@.len()]);
            }
        }
    }
    r
}

/// Arithmetic right shift by the value of `s`, which must be less than the
/// width of `x`.
pub fn ashr(x: &Vec<bool>, s: &Vec<bool>) -> (r: Vec<bool>)
    requires
        1 <= x@.len() <= pow2((usize::BITS - 2) as nat),
        uval(s@) < x@.len(),
    ensures
        r@.len() == x@.len(),
        forall|j: int|
            0 <= j < x@.len() ==> #[trigger] r@[j] == if j + uval(s@) < x@.len() {
                x@[j + uval(s@)]
            } else {
                x@[x@.len() - 1]
            },
{
    let ext = vec_of(x[x.len() - 1], x.len() - 1);
    let r = shift_window(x, &ext, s);
    proof {
        lemma_input_index_range(s@);
        assert forall|j: int| 0 <= j < x@.len() implies #[trigger] r@[j] == if j + uval(s@) < x@.len() {
                x@[j + uval(s@)]
            } else {
                x@[x@.len() - 1]
            } by {
            assert(r@[j] == (x@ + ext@)[j + uval(s@)]);
            if j + uval(s@) >= x@.len() {
                assert((x@ + ext@)[j + uval(s@)] == ext@[j + uval(s@) - x@.len()]);
            }
        }
    }
    r
}

/// Right rotation by the value of `s`, which must be less than the width of
/// `x`.
pub fn rotr(x: &Vec<bool>, s: &Vec<bool>) -> (r: Vec<bool>)
    requires
        1 <= x@.len() <= pow2((usize::BITS - 2) as nat),
        uval(s@) < x@.len(),
    ensures
        r@.len() == x@.len(),
        forall|j: int|
            0 <= j < x@.len() ==> #[trigger] r@[j] == x@[(j + uval(s@)) % (x@.len() as int)],
{
    let mut ext: Vec<bool> = Vec::new();
    let mut k: usize = 0;
    while k < x.len() - 1
        invariant
            x@.len() >= 1,
            k <= x@.len() - 1,
            ext@.len() == k,
            forall|m: int| 0 <= m < k ==> #[trigger] ext@[m] == x@[m],
        decreases x@.len() - 1 - k,
    {
        ext.push(x[k]);
        k = k + 1;
    }
    let r = shift_window(x, &ext, s);
    proof {
        lemma_input_index_range(s@);
        assert forall|j: int| 0 <= j < x@.len() implies #[trigger] r@[j] == x@[(j + uval(s@)) % (
        x@.len() as int)] by {
            let n = x@.len() as int;
            lemma_mod_wrap(j + uval(s@), n);
            assert(r@[j] == (x@ + ext@)[j + uval(s@)]);
            if j + uval(s@) >= x@.len() {
                assert((x@ + ext@)[j + uval(s@)] == ext@[j + uval(s@) - x@.len()]);
            }
        }
    }
    r
}

/// Left shift by the value of `s`, which must be less than the width of `x`:
/// the reversed vector shifted right, reversed back.
pub fn shl(x: &Vec<bool>, s: &Vec<bool>) -> (r: Vec<bool>)
    requires
        1 <= x@.len() <= pow2((usize::BITS - 2) as nat),
        uval(s@) < x@.len(),
    ensures
        r@.len() == x@.len(),
        forall|j: int|
            0 <= j < x@.len() ==> #[trigger] r@[j] == (j >= uval(s@) && x@[j - uval(s@)]),
{
    let rev_x = reverse(x);
    let tmp = lshr(&rev_x, s);
    let r = reverse(&tmp);
    proof {
        lemma_input_index_range(s@);
        assert forall|j: int| 0 <= j < x@.len() implies #[trigger] r@[j] == (j >= uval(s@) && x@[j - uval(s@)]) by {
            let n = x@.len() as int;
            assert(r@[j] == tmp@[n - 1 - j]);
        }
    }
    r
}

/// Left rotation by the value of `s`, which must be less than the width of
/// `x`: the reversed vector rotated right, reversed back.
pub fn rotl(x: &Vec<bool>, s: &Vec<bool>) -> (r: Vec<bool>)
    requires
        1 <= x@.len() <= pow2((usize::BITS - 2) as nat),
        uval(s@) < x@.len(),
    ensures
        r@.len() == x@.len(),
        forall|j: int|
            0 <= j < x@.len() ==> #[trigger] r@[j] == x@[(j - uval(s@) + x@.len()) % (x@.len() as int)],
{
    let rev_x = reverse(x);
    let tmp = rotr(&rev_x, s);
    let r = reverse(&tmp);
    proof {
        lemma_input_index_range(s@);
        assert forall|j: int| 0 <= j < x@.len() implies #[trigger] r@[j] == x@[(j - uval(s@) + x@.len()) % (x@.len() as int)] by {
            let n = x@.len() as int;
            let v = uval(s@);
            let a = n - 1 - j;
            lemma_mod_wrap(a + v, n);
            lemma_mod_wrap(j - v + n, n);
            assert(r@[j] == tmp@[a]);
            assert(tmp@[a] == rev_x@[(a + v) % n]);
        }
    }
    r
}

proof fn lemma_mod_wrap(a: int, n: int)
    requires
        n > 0,
        0 <= a < 2 * n,
    ensures
        a % n == if a < n { a } else { a - n },
{
    if a < n {
        vstd::arithmetic::div_mod::lemma_fundamental_div_mod_converse(a, n, 0, a);
    } else {
        vstd::arithmetic::div_mod::lemma_fundamental_div_mod_converse(a, n, 1, a - n);
    }
}

/// `n` copies of `b`.
pub(crate) fn vec_of(b: bool, n: usize) -> (r: Vec<bool>)
    ensures
        r@.len() == n,
        forall|k: int| 0 <= k < n ==> #[trigger] r@[k] == b,
{
    let mut r: Vec<bool> = Vec::new();
    let mut k: usize = 0;
    while k < n
        invariant
            k <= n,
            r@.len() == k,
            forall|m: int| 0 <= m < k ==> #[trigger] r@[m] == b,
        decreases n - k,
    {
        r.push(b);
        k = k + 1;
    }
    r
}


/// Bit `j` of `i`.
pub(crate) fn usize_bit(i: usize, j: usize) -> (r: bool)
    requires
        j < usize::BITS,
    ensures
        r == index_bit(i as int, j as nat),
{
    proof {
        vstd::bits::lemma_usize_shr_is_div(i, j);
        let y = i >> j;
        assert(((y & 1usize) == 1usize) == (y % 2 == 1)) by (bit_vector);
    }
    ((i >> j) & 1usize) == 1usize
}

/// The bits of `i`, `n` of them.
pub open spec fn bits_of(i: int, n: nat) -> Seq<bool> {
    Seq::new(n, |j: int| index_bit(i, j as nat))
}

/// The low `n` bits of a value below `2^n` give it back.
pub proof fn lemma_uval_bits_of(i: int, n: nat)
    requires
        0 <= i < pow2(n),
    ensures
        uval(bits_of(i, n)) == i,
    decreases n,
{
    if n == 0 {
        lemma2_to64();
    } else {
        lemma_pow2_unfold(n);
        let h = i / 2;
        lemma_uval_bits_of(h, (n - 1) as nat);
        let s = bits_of(i, n);
        assert forall|j: int| 0 <= j < n - 1 implies #[trigger] s.drop_first()[j] == bits_of(h, (n - 1) as nat)[j] by {
            lemma_pow2_pos(j as nat);
            lemma_pow2_unfold(j as nat + 1);
            vstd::arithmetic::div_mod::lemma_div_denominator(i, 2, pow2(j as nat) as int);
        }
        assert(s.drop_first() =~= bits_of(h, (n - 1) as nat));
        lemma2_to64();
        vstd::arithmetic::div_mod::lemma_fundamental_div_mod(i, 2);
    }
}

/// A vector of `n` bits has value `i < 2^n` exactly when its bits are those
/// of `i`.
pub proof fn lemma_uval_is(s: Seq<bool>, i: int)
    requires
        0 <= i < pow2(s.len()),
    ensures
        (uval(s) == i) <==> (forall|j: int| 0 <= j < s.len() ==> s[j] == #[trigger] index_bit(i, j as nat)),
{
    lemma_uval_bits_of(i, s.len());
    lemma_uval_eq(s, bits_of(i, s.len()));
    if uval(s) == i {
        assert forall|j: int| 0 <= j < s.len() implies s[j] == #[trigger] index_bit(i, j as nat) by {
            lemma_uval_bit(s, j as nat);
        }
    }
    if forall|j: int| 0 <= j < s.len() ==> s[j] == #[trigger] index_bit(i, j as nat) {
        assert(s =~= bits_of(i, s.len()));
    }
}

/// The number of selector bits for `num` signals: the least `lb` with
/// `2^lb >= num`.
pub(crate) fn lb_ceil(num: usize) -> (r: usize)
    requires
        1 <= num <= pow2((usize::BITS - 1) as nat),
    ensures
        r < usize::BITS,
        num <= pow2(r as nat),
        r > 0 ==> pow2((r - 1) as nat) < num,
{
    let mut r: usize = 0;
    let mut p: usize = 1;
    proof {
        lemma2_to64();
    }
    while p < num
        invariant
            1 <= num <= pow2((usize::BITS - 1) as nat),
            r < usize::BITS,
            p == pow2(r as nat),
            r > 0 ==> pow2((r - 1) as nat) < num,
        decreases usize::BITS - r,
    {
        proof {
            lemma_pow2_unfold(r as nat + 1);
            if r >= usize::BITS - 1 {
                if r > usize::BITS - 1 {
                    vstd::arithmetic::power2::lemma_pow2_strictly_increases((usize::BITS - 1) as nat, r as nat);
                }
                assert(false);
            }
            vstd::bits::lemma_usize_pow2_no_overflow(r as nat + 1);
        }
        p = 2 * p;
        r = r + 1;
    }
    r
}

/// `lb` is the least with `2^lb >= num`.
pub open spec fn is_lb_ceil(lb: nat, num: int) -> bool {
    pow2(lb) >= num && (lb == 0 || pow2((lb - 1) as nat) < num)
}

/// One signal per index `i < num`, set exactly when the low `lb` bits of
/// `inx` hold `i`, where `lb` is the least with `2^lb >= num`; `num` is
/// `cap`, or `2^inx.len()` without one.
pub fn selector(inx: &Vec<bool>, cap: Option<usize>) -> (r: Vec<bool>)
    requires
        cap is None ==> inx@.len() < usize::BITS - 1,
        cap matches Some(c) ==> 1 <= c <= pow2((usize::BITS - 1) as nat),
        cap matches Some(c) ==> (c <= 1 || c <= pow2(inx@.len())),
    ensures
        r@.len() == match cap {
            Some(c) => c as int,
            None => pow2(inx@.len()) as int,
        },
        forall|lb: nat|
            #[trigger] is_lb_ceil(lb, r@.len() as int) ==> lb <= inx@.len() && forall|i: int|
                0 <= i < r@.len() ==> #[trigger] r@[i] == (uval(inx@.take(lb as int)) == i),
{
    let num = match cap {
        Some(c) => c,
        None => pow2_usize(inx.len()),
    };
    proof {
        if cap is None {
            lemma_pow2_pos(inx@.len());
            if inx@.len() < usize::BITS - 1 {
                vstd::arithmetic::power2::lemma_pow2_strictly_increases(inx@.len(), (usize::BITS - 1) as nat);
            }
        }
    }
    let lb_num = lb_ceil(num);
    proof {
        // the selector bits all exist
        if lb_num > inx@.len() {
            if lb_num - 1 > inx@.len() {
                vstd::arithmetic::power2::lemma_pow2_strictly_increases(inx@.len(), (lb_num - 1) as nat);
            }
            lemma2_to64();
            lemma_pow2_pos((lb_num - 1) as nat);
            assert(false);
        }
    }
    let ghost v = uval(inx@.take(lb_num as int));
    proof {
        lemma_input_index_range(inx@.take(lb_num as int));
    }
    let mut signals: Vec<bool> = Vec::new();
    let mut i: usize = 0;
    while i < num
        invariant
            lb_num <= inx@.len(),
            lb_num < usize::BITS,
            num <= pow2(lb_num as nat),
            v == uval(inx@.take(lb_num as int)),
            i <= num,
            signals@.len() == i,
            forall|m: int| 0 <= m < i ==> #[trigger] signals@[m] == (v == m),
        decreases num - i,
    {
        let mut signal = true;
        let mut j: usize = 0;
        while j < lb_num
            invariant
                lb_num <= inx@.len(),
                lb_num < usize::BITS,
                j <= lb_num,
                signal == (forall|m: int| 0 <= m < j ==> #[trigger] inx@[m] == index_bit(i as int, m as nat)),
            decreases lb_num - j,
        {
            // depending on the `j`th bit of `i`, keep the signal line true
            let ghost prev = signal;
            let bj = usize_bit(i, j);
            if !bj {
                signal = !inx[j] && signal;
            } else {
                signal = inx[j] && signal;
            }
            proof {
                assert(signal == (prev && inx@[j as int] == index_bit(i as int, j as nat)));
                if signal {
                    assert forall|m: int| 0 <= m < j + 1 implies #[trigger] inx@[m] == index_bit(i as int, m as nat) by {
                    }
                } else {
                    if forall|m: int| 0 <= m < j + 1 ==> #[trigger] inx@[m] == index_bit(i as int, m as nat) {
                        assert(inx@[j as int] == index_bit(i as int, j as nat));
                        assert(prev);
                    }
                }
            }
            j = j + 1;
        }
        proof {
            let t = inx@.take(lb_num as int);
            lemma_uval_is(t, i as int);
            assert((forall|m: int| 0 <= m < lb_num ==> #[trigger] inx@[m] == index_bit(i as int, m as nat))
                == (forall|m: int| 0 <= m < t.len() ==> #[trigger] t[m] == index_bit(i as int, m as nat)));
        }
        signals.push(signal);
        i = i + 1;
    }
    proof {
        assert forall|lb: nat| #[trigger] is_lb_ceil(lb, signals@.len() as int) implies lb <= inx@.len() && forall|i: int|
            0 <= i < signals@.len() ==> #[trigger] signals@[i] == (uval(inx@.take(lb as int)) == i) by {
            lemma_least_pow2_unique(lb, lb_num as nat, num as int);
        }
    }
    signals
}

/// There is one least `lb` with `2^lb >= num`.
proof fn lemma_least_pow2_unique(a: nat, b: nat, num: int)
    requires
        pow2(a) >= num,
        a == 0 || pow2((a - 1) as nat) < num,
        pow2(b) >= num,
        b == 0 || pow2((b - 1) as nat) < num,
    ensures
        a == b,
{
    if a < b {
        if a < b - 1 {
            vstd::arithmetic::power2::lemma_pow2_strictly_increases(a, (b - 1) as nat);
        }
        assert(false);
    } else if b < a {
        if b < a - 1 {
            vstd::arithmetic::power2::lemma_pow2_strictly_increases(b, (a - 1) as nat);
        }
        assert(false);
    }
}


/// `lb` bits are exactly enough to write `x`.
pub open spec fn is_bit_width(lb: nat, x: int) -> bool {
    x < pow2(lb) && (lb == 0 || pow2((lb - 1) as nat) <= x)
}

proof fn lemma_bit_width_unique(a: nat, b: nat, x: int)
    requires
        is_bit_width(a, x),
        is_bit_width(b, x),
    ensures
        a == b,
{
    if a < b {
        if a < b - 1 {
            vstd::arithmetic::power2::lemma_pow2_strictly_increases(a, (b - 1) as nat);
        }
        assert(false);
    } else if b < a {
        if b < a - 1 {
            vstd::arithmetic::power2::lemma_pow2_strictly_increases(b, (a - 1) as nat);
        }
        assert(false);
    }
}

/// The number of bits needed to write every value `0..=num`.
pub(crate) fn smear_width(num: usize) -> (r: usize)
    ensures
        is_bit_width(r as nat, num as int),
        r <= usize::BITS,
{
    match nontrivial_bits(num) {
        Some(w) => w,
        None => {
            proof {
                lemma2_to64();
            }
            0
        },
    }
}

proof fn lemma_div_step(x: int, j: nat)
    requires
        x >= 0,
    ensures
        x / (pow2(j) as int) == 2 * (x / (pow2(j + 1) as int)) + (x / (pow2(j) as int)) % 2,
{
    lemma_pow2_pos(j);
    lemma_pow2_unfold(j + 1);
    vstd::arithmetic::div_mod::lemma_div_denominator(x, pow2(j) as int, 2);
    vstd::arithmetic::div_mod::lemma_fundamental_div_mod(x / (pow2(j) as int), 2);
}

/// Trailing smear of an index: signal `i` is set exactly when `i` is less
/// than the value of `inx`, read over as many bits as it takes to write
/// `num_signals`. A value of zero sets no signals, and `num_signals` sets
/// all of them.
pub fn tsmear_inx(inx: &Vec<bool>, num_signals: usize) -> (r: Vec<bool>)
    requires
        num_signals < pow2(inx@.len()),
    ensures
        r@.len() == num_signals,
        forall|lb: nat|
            is_bit_width(lb, num_signals as int) ==> forall|i: int|
                0 <= i < num_signals ==> #[trigger] r@[i] == (uval(inx@.take(lb as int)) > i),
{
    let lb_num = smear_width(num_signals);
    proof {
        if lb_num > inx@.len() {
            if lb_num - 1 > inx@.len() {
                vstd::arithmetic::power2::lemma_pow2_strictly_increases(inx@.len(), (lb_num - 1) as nat);
            }
            assert(false);
        }
    }
    let ghost t = inx@.take(lb_num as int);
    let ghost v = uval(t);
    proof {
        lemma_input_index_range(t);
    }
    let mut signals: Vec<bool> = Vec::new();
    let mut i: usize = 0;
    while i < num_signals
        invariant
            lb_num <= inx@.len(),
            lb_num <= usize::BITS,
            is_bit_width(lb_num as nat, num_signals as int),
            t == inx@.take(lb_num as int),
            v == uval(t),
            0 <= v < pow2(lb_num as nat),
            i <= num_signals,
            signals@.len() == i,
            forall|m: int| 0 <= m < i ==> #[trigger] signals@[m] == (v > m),
        decreases num_signals - i,
    {
        // `inx > i` so far, comparing from the most significant bit down
        let mut signal = false;
        // the prefix so far is equal
        let mut prefix_equal = true;
        let mut j: usize = lb_num;
        proof {
            vstd::arithmetic::div_mod::lemma_basic_div(v, pow2(lb_num as nat) as int);
            vstd::arithmetic::div_mod::lemma_basic_div(i as int, pow2(lb_num as nat) as int);
        }
        while j > 0
            invariant
                lb_num <= inx@.len(),
                lb_num <= usize::BITS,
                t == inx@.take(lb_num as int),
                v == uval(t),
                v >= 0,
                i >= 0,
                j <= lb_num,
                prefix_equal == (v / (pow2(j as nat) as int) == (i as int) / (pow2(j as nat) as int)),
                signal == (v / (pow2(j as nat) as int) > (i as int) / (pow2(j as nat) as int)),
            decreases j,
        {
            j = j - 1;
            let inx_j = inx[j];
            let i_j = usize_bit(i, j);
            proof {
                lemma_uval_bit(t, j as nat);
                assert(t[j as int] == inx_j);
                lemma_div_step(v, j as nat);
                lemma_div_step(i as int, j as nat);
                lemma_mod2_cases(v / (pow2(j as nat) as int));
                lemma_mod2_cases((i as int) / (pow2(j as nat) as int));
            }
            if !i_j {
                // the signal is set if the prefix is equal and `inx` has a 1
                // where `i` has a 0
                signal = (inx_j && prefix_equal) || signal;
                prefix_equal = !inx_j && prefix_equal;
            } else {
                // `i` has a 1 here, so only the equality is updated
                prefix_equal = inx_j && prefix_equal;
            }
        }
        proof {
            lemma2_to64();
            assert(v / 1 == v);
            assert((i as int) / 1 == i as int);
            assert(signal == (v > i));
        }
        signals.push(signal);
        i = i + 1;
    }
    proof {
        assert forall|lb: nat| is_bit_width(lb, num_signals as int) implies forall|i: int|
            0 <= i < num_signals ==> #[trigger] signals@[i] == (uval(inx@.take(lb as int)) > i) by {
            lemma_bit_width_unique(lb, lb_num as nat, num_signals as int);
        }
    }
    signals
}


pub open spec fn bit_val(b: bool) -> int {
    if b {
        1
    } else {
        0
    }
}

/// Appending a bit on top adds it at its weight.
pub proof fn lemma_uval_push(s: Seq<bool>, b: bool)
    ensures
        uval(s.push(b)) == uval(s) + bit_val(b) * pow2(s.len()),
    decreases s.len(),
{
    if s.len() == 0 {
        lemma2_to64();
        assert(s.push(b).drop_first() =~= Seq::<bool>::empty());
        assert(s.push(b)[0] == b);
        assert(uval(s.push(b)) == bit_val(b) + 2 * uval(Seq::<bool>::empty()));
        assert(uval(s) == 0);
    } else {
        lemma_uval_push(s.drop_first(), b);
        assert(s.push(b).drop_first() =~= s.drop_first().push(b));
        assert(s.push(b)[0] == s[0]);
        lemma_pow2_unfold(s.len());
        let p = pow2((s.len() - 1) as nat) as int;
        assert(2 * (bit_val(b) * p) == bit_val(b) * (2 * p)) by (nonlinear_arith);
        assert(uval(s.push(b)) == bit_val(s[0]) + 2 * uval(s.drop_first().push(b)));
        assert(uval(s) == bit_val(s[0]) + 2 * uval(s.drop_first()));
    }
}

proof fn lemma_take_push(s: Seq<bool>, i: int)
    requires
        0 <= i < s.len(),
    ensures
        s.take(i + 1) == s.take(i).push(s[i]),
        uval(s.take(i + 1)) == uval(s.take(i)) + bit_val(s[i]) * pow2(i as nat),
{
    assert(s.take(i + 1) =~= s.take(i).push(s[i]));
    lemma_uval_push(s.take(i), s[i]);
}

proof fn lemma_adder_step(p: int, out: int, c: int, c2: int, sum: int, a: int, b: int, va: int, vb: int, cin: int)
    by (nonlinear_arith)
    requires
        out + p * c == va + vb + cin,
        sum + 2 * c2 == c + a + b,
    ensures
        (out + sum * p) + (2 * p) * c2 == (va + a * p) + (vb + b * p) + cin,
{
}

/// Whether the two vectors agree on every bit of `lhs`: the bitwise
/// equalities reduced by a binary tree of ANDs.
pub fn equal(lhs: &Vec<bool>, rhs: &Vec<bool>) -> (r: bool)
    requires
        lhs@.len() >= 1,
        rhs@.len() >= lhs@.len(),
    ensures
        r == (forall|i: int| 0 <= i < lhs@.len() ==> #[trigger] lhs@[i] == rhs@[i]),
{
    let ghost all_eq = forall|i: int| 0 <= i < lhs@.len() ==> #[trigger] lhs@[i] == rhs@[i];
    let mut rank: Vec<bool> = Vec::new();
    let mut i: usize = 0;
    while i < lhs.len()
        invariant
            rhs@.len() >= lhs@.len(),
            i <= lhs@.len(),
            rank@.len() == i,
            forall|m: int| 0 <= m < i ==> #[trigger] rank@[m] == (lhs@[m] == rhs@[m]),
        decreases lhs@.len() - i,
    {
        rank.push(lhs[i] == rhs[i]);
        i = i + 1;
    }
    proof {
        if all_eq {
            assert forall|m: int| 0 <= m < rank@.len() implies #[trigger] rank@[m] by {
                assert(lhs@[m] == rhs@[m]);
            }
        }
        if forall|m: int| 0 <= m < rank@.len() ==> #[trigger] rank@[m] {
            assert forall|m: int| 0 <= m < lhs@.len() implies #[trigger] lhs@[m] == rhs@[m] by {
                assert(rank@[m]);
            }
        }
    }
    // binary tree reduce
    proof {
        lemma2_to64();
    }
    while rank.len() != 1
        invariant
            rank@.len() >= 1,
            all_eq == (forall|m: int| 0 <= m < rank@.len() ==> #[trigger] rank@[m]),
        decreases rank@.len(),
    {
        let rank_len = rank.len();
        let mut next_rank: Vec<bool> = Vec::new();
        let mut k: usize = 0;
        while k < rank_len / 2
            invariant
                rank_len == rank@.len(),
                k <= rank_len / 2,
                next_rank@.len() == k,
                forall|m: int| 0 <= m < k ==> #[trigger] next_rank@[m] == (rank@[2 * m] && rank@[2 * m + 1]),
            decreases rank_len / 2 - k,
        {
            next_rank.push(rank[2 * k] && rank[2 * k + 1]);
            k = k + 1;
        }
        if rank_len % 2 != 0 {
            next_rank.push(rank[rank_len - 1]);
        }
        proof {
            let a = forall|m: int| 0 <= m < rank@.len() ==> #[trigger] rank@[m];
            let b = forall|m: int| 0 <= m < next_rank@.len() ==> #[trigger] next_rank@[m];
            if a {
                assert forall|m: int| 0 <= m < next_rank@.len() implies #[trigger] next_rank@[m] by {
                    if m < rank_len / 2 {
                        assert(rank@[2 * m] && rank@[2 * m + 1]);
                    }
                }
            }
            if b {
                assert forall|m: int| 0 <= m < rank@.len() implies #[trigger] rank@[m] by {
                    if m / 2 < rank_len / 2 {
                        assert(next_rank@[m / 2]);
                        if m % 2 == 0 {
                            assert(2 * (m / 2) == m);
                        } else {
                            assert(2 * (m / 2) + 1 == m);
                        }
                    } else {
                        assert(next_rank@[(rank_len / 2) as int]);
                        assert(m == rank_len - 1);
                    }
                }
            }
        }
        rank = next_rank;
    }
    rank[0]
}

/// For each bit, `x0`'s when `inx` is unset and `x1`'s when it is set.
pub fn static_mux(x0: &Vec<bool>, x1: &Vec<bool>, inx: &Vec<bool>) -> (r: Vec<bool>)
    requires
        x1@.len() >= x0@.len(),
        inx@.len() >= 1,
    ensures
        r@.len() == x0@.len(),
        forall|i: int| 0 <= i < x0@.len() ==> #[trigger] r@[i] == if inx@[0] { x1@[i] } else { x0@[i] },
{
    let mut r: Vec<bool> = Vec::new();
    let mut i: usize = 0;
    while i < x0.len()
        invariant
            x1@.len() >= x0@.len(),
            inx@.len() >= 1,
            i <= x0@.len(),
            r@.len() == i,
            forall|m: int| 0 <= m < i ==> #[trigger] r@[m] == if inx@[0] { x1@[m] } else { x0@[m] },
        decreases x0@.len() - i,
    {
        // table 1100_1010 over (x0, x1, inx)
        r.push(if inx[0] { x1[i] } else { x0[i] });
        i = i + 1;
    }
    r
}

/// Each bit inverted.
pub fn bitwise_not(x: &Vec<bool>) -> (r: Vec<bool>)
    ensures
        r@.len() == x@.len(),
        forall|i: int| 0 <= i < x@.len() ==> #[trigger] r@[i] == !x@[i],
{
    let mut r: Vec<bool> = Vec::new();
    let mut i: usize = 0;
    while i < x.len()
        invariant
            i <= x@.len(),
            r@.len() == i,
            forall|m: int| 0 <= m < i ==> #[trigger] r@[m] == !x@[m],
        decreases x@.len() - i,
    {
        r.push(!x[i]);
        i = i + 1;
    }
    r
}

/// Each bit pair put through the 4 entry table `lut`, `lhs` being the low
/// input.
pub fn bitwise(lhs: &Vec<bool>, rhs: &Vec<bool>, lut: &Vec<bool>) -> (r: Vec<bool>)
    requires
        rhs@.len() >= lhs@.len(),
        lut@.len() == 4,
    ensures
        r@.len() == lhs@.len(),
        forall|i: int|
            0 <= i < lhs@.len() ==> #[trigger] r@[i] == lut@[bit_val(lhs@[i]) + 2 * bit_val(rhs@[i])],
{
    let mut r: Vec<bool> = Vec::new();
    let mut i: usize = 0;
    while i < lhs.len()
        invariant
            rhs@.len() >= lhs@.len(),
            lut@.len() == 4,
            i <= lhs@.len(),
            r@.len() == i,
            forall|m: int|
                0 <= m < i ==> #[trigger] r@[m] == lut@[bit_val(lhs@[m]) + 2 * bit_val(rhs@[m])],
        decreases lhs@.len() - i,
    {
        let inx: usize = (if lhs[i] { 1 } else { 0 }) + 2 * (if rhs[i] { 1 } else { 0 });
        r.push(lut[inx]);
        i = i + 1;
    }
    r
}

/// Adds the carry `cin` to `x`, or when `dec` adds all ones (subtracting one)
/// and the carry: a chain of half adders, or of half subtractors whose carry
/// means "no borrow". Returns the sum and the carry out.
pub fn incrementer(x: &Vec<bool>, cin: &Vec<bool>, dec: bool) -> (r: (Vec<bool>, bool))
    requires
        cin@.len() >= 1,
    ensures
        r.0@.len() == x@.len(),
        uval(r.0@) + pow2(x@.len()) * bit_val(r.1) == uval(x@) + (if dec {
            pow2(x@.len()) - 1
        } else {
            0
        }) + bit_val(cin@[0]),
{
    let mut out: Vec<bool> = Vec::new();
    let mut carry = cin[0];
    let mut i: usize = 0;
    proof {
        lemma2_to64();
        assert(x@.take(0) =~= Seq::<bool>::empty());
    }
    while i < x.len()
        invariant
            i <= x@.len(),
            out@.len() == i,
            uval(out@) + pow2(i as nat) * bit_val(carry) == uval(x@.take(i as int)) + (if dec {
                pow2(i as nat) - 1
            } else {
                0
            }) + bit_val(cin@[0]),
        decreases x@.len() - i,
    {
        let b = x[i];
        let sum;
        let next;
        if dec {
            // half subtractor: tables 1001 and 1110 over (carry, b)
            sum = carry == b;
            next = carry || b;
        } else {
            // half adder: tables 0110 and 1000 over (carry, b)
            sum = carry != b;
            next = carry && b;
        }
        proof {
            lemma_take_push(x@, i as int);
            lemma_uval_push(out@, sum);
            lemma_pow2_unfold(i as nat + 1);
            let p = pow2(i as nat) as int;
            let d = if dec { 1int } else { 0int };
            assert(bit_val(sum) + 2 * bit_val(next) == bit_val(carry) + bit_val(b) + d);
            lemma_adder_step(p, uval(out@), bit_val(carry), bit_val(next), bit_val(sum), bit_val(b), d,
                uval(x@.take(i as int)), if dec { p - 1 } else { 0 }, bit_val(cin@[0]));
        }
        out.push(sum);
        carry = next;
        i = i + 1;
    }
    proof {
        assert(x@.take(x@.len() as int) =~= x@);
    }
    (out, carry)
}

/// Ripple carry addition of `lhs`, `rhs` and the carry `cin`: the sum, the
/// carry out, and whether the sum overflowed as a signed number (the operands
/// agree in sign and the sum does not).
pub fn cin_sum(cin: &Vec<bool>, lhs: &Vec<bool>, rhs: &Vec<bool>) -> (r: (Vec<bool>, bool, bool))
    requires
        cin@.len() >= 1,
        lhs@.len() >= 1,
        rhs@.len() == lhs@.len(),
    ensures
        r.0@.len() == lhs@.len(),
        uval(r.0@) + pow2(lhs@.len()) * bit_val(r.1) == uval(lhs@) + uval(rhs@) + bit_val(cin@[0]),
        ({
            let w = lhs@.len() - 1;
            let a = lhs@[w];
            let b = rhs@[w];
            let c = r.0@[w];
            r.2 == ((a && b && !c) || (!a && !b && c))
        }),
{
    let w = lhs.len();
    let mut out: Vec<bool> = Vec::new();
    let mut carry = cin[0];
    let mut i: usize = 0;
    proof {
        lemma2_to64();
        assert(lhs@.take(0) =~= Seq::<bool>::empty());
        assert(rhs@.take(0) =~= Seq::<bool>::empty());
    }
    while i < w
        invariant
            w == lhs@.len(),
            rhs@.len() == w,
            i <= w,
            out@.len() == i,
            uval(out@) + pow2(i as nat) * bit_val(carry) == uval(lhs@.take(i as int)) + uval(
                rhs@.take(i as int),
            ) + bit_val(cin@[0]),
        decreases w - i,
    {
        let a = lhs[i];
        let b = rhs[i];
        // full adder: tables 1001_0110 and 1110_1000 over (carry, a, b)
        let sum = (carry != a) != b;
        let next_carry = (carry && a) || (carry && b) || (a && b);
        proof {
            lemma_take_push(lhs@, i as int);
            lemma_take_push(rhs@, i as int);
            lemma_uval_push(out@, sum);
            lemma_pow2_unfold(i as nat + 1);
            let p = pow2(i as nat) as int;
            assert(bit_val(sum) + 2 * bit_val(next_carry) == bit_val(carry) + bit_val(a) + bit_val(b));
            lemma_adder_step(p, uval(out@), bit_val(carry), bit_val(next_carry), bit_val(sum), bit_val(a), bit_val(b),
                uval(lhs@.take(i as int)), uval(rhs@.take(i as int)), bit_val(cin@[0]));
        }
        out.push(sum);
        carry = next_carry;
        i = i + 1;
    }
    proof {
        assert(lhs@.take(w as int) =~= lhs@);
        assert(rhs@.take(w as int) =~= rhs@);
    }
    let a = lhs[w - 1];
    let b = rhs[w - 1];
    let c = out[w - 1];
    // table 0001_1000 over (a, b, c)
    let signed_overflow = (a && b && !c) || (!a && !b && c);
    (out, carry, signed_overflow)
}

/// The two's complement negation of `x` when `neg` is set, `x` otherwise: a
/// chain of half adders over the bits of `x` inverted by `neg`, with `neg` as
/// the first carry.
pub fn negator(x: &Vec<bool>, neg: &Vec<bool>) -> (r: Vec<bool>)
    requires
        neg@.len() >= 1,
    ensures
        r@.len() == x@.len(),
        uval(r@) == if neg@[0] {
            (pow2(x@.len()) - uval(x@)) % (pow2(x@.len()) as int)
        } else {
            uval(x@)
        },
{
    let n = neg[0];
    let mut out: Vec<bool> = Vec::new();
    let mut carry = n;
    let mut i: usize = 0;
    let ghost mut inv_val: int = 0;
    proof {
        lemma2_to64();
        assert(x@.take(0) =~= Seq::<bool>::empty());
    }
    while i < x.len()
        invariant
            n == neg@[0],
            i <= x@.len(),
            out@.len() == i,
            uval(out@) + pow2(i as nat) * bit_val(carry) == (if n {
                pow2(i as nat) - 1 - uval(x@.take(i as int))
            } else {
                uval(x@.take(i as int))
            }) + bit_val(n),
        decreases x@.len() - i,
    {
        let b = x[i];
        // tables 1001_0110 and 0010_1000 over (carry, b, neg)
        let sum = (carry != b) != n;
        let next_carry = carry && (b != n);
        proof {
            lemma_take_push(x@, i as int);
            lemma_uval_push(out@, sum);
            lemma_pow2_unfold(i as nat + 1);
            let p = pow2(i as nat) as int;
            let bb = if n { 1 - bit_val(b) } else { bit_val(b) };
            assert(bit_val(sum) + 2 * bit_val(next_carry) == bit_val(carry) + bb);
            let vx = if n { p - 1 - uval(x@.take(i as int)) } else { uval(x@.take(i as int)) };
            lemma_adder_step(p, uval(out@), bit_val(carry), bit_val(next_carry), bit_val(sum), bb, 0,
                vx, 0, bit_val(n));
        }
        out.push(sum);
        carry = next_carry;
        i = i + 1;
    }
    proof {
        assert(x@.take(x@.len() as int) =~= x@);
        let p = pow2(x@.len()) as int;
        lemma_input_index_range(x@);
        lemma_input_index_range(out@);
        if n {
            if uval(x@) == 0 {
                vstd::arithmetic::div_mod::lemma_fundamental_div_mod_converse(p, p, 1, 0);
            } else {
                vstd::arithmetic::div_mod::lemma_small_mod((p - uval(x@)) as nat, p as nat);
            }
        }
    }
    out
}


/// `start <= i < end`, reading `start` and `end` over `lb` bits.
pub open spec fn in_range(start: Seq<bool>, end: Seq<bool>, lb: nat, i: int) -> bool {
    uval(start.take(lb as int)) <= i < uval(end.take(lb as int))
}

/// The three range operations: 0 for OR, 1 for AND, 2 for XOR.
fn range_op(x: &Vec<bool>, start: &Vec<bool>, end: &Vec<bool>, op: u8) -> (r: Vec<bool>)
    requires
        x@.len() < pow2(start@.len()),
        x@.len() < pow2(end@.len()),
        op < 3,
    ensures
        r@.len() == x@.len(),
        forall|lb: nat|
            is_bit_width(lb, x@.len() as int) ==> forall|i: int|
                0 <= i < x@.len() ==> #[trigger] r@[i] == if op == 0 {
                    x@[i] || in_range(start@, end@, lb, i)
                } else if op == 1 {
                    x@[i] && in_range(start@, end@, lb, i)
                } else {
                    x@[i] != in_range(start@, end@, lb, i)
                },
{
    // trailing mask that trails `start`, exclusive
    let tmask0 = tsmear_inx(start, x.len());
    // trailing mask that trails `end`, exclusive
    let tmask1 = tsmear_inx(end, x.len());
    let mut out: Vec<bool> = Vec::new();
    let mut i: usize = 0;
    while i < x.len()
        invariant
            tmask0@.len() == x@.len(),
            tmask1@.len() == x@.len(),
            op < 3,
            i <= x@.len(),
            out@.len() == i,
            forall|m: int|
                0 <= m < i ==> #[trigger] out@[m] == if op == 0 {
                    x@[m] || (!tmask0@[m] && tmask1@[m])
                } else if op == 1 {
                    x@[m] && (!tmask0@[m] && tmask1@[m])
                } else {
                    x@[m] != (!tmask0@[m] && tmask1@[m])
                },
        decreases x@.len() - i,
    {
        let t0 = tmask0[i];
        let t1 = tmask1[i];
        let xi = x[i];
        // tables 1111_0100, 0100_0000 and 1011_0100 over (tmask0, tmask1, x)
        let b = if op == 0 {
            xi || (!t0 && t1)
        } else if op == 1 {
            xi && (!t0 && t1)
        } else {
            xi != (!t0 && t1)
        };
        out.push(b);
        i = i + 1;
    }
    out
}

/// Sets the bits of `x` in `start..end`. Setting `end` to 0 guarantees a
/// no-op.
pub fn range_or(x: &Vec<bool>, start: &Vec<bool>, end: &Vec<bool>) -> (r: Vec<bool>)
    requires
        x@.len() < pow2(start@.len()),
        x@.len() < pow2(end@.len()),
    ensures
        r@.len() == x@.len(),
        forall|lb: nat|
            is_bit_width(lb, x@.len() as int) ==> forall|i: int|
                0 <= i < x@.len() ==> #[trigger] r@[i] == (x@[i] || in_range(start@, end@, lb, i)),
{
    range_op(x, start, end, 0)
}

/// Keeps only the bits of `x` in `start..end`. A full range is a no-op.
pub fn range_and(x: &Vec<bool>, start: &Vec<bool>, end: &Vec<bool>) -> (r: Vec<bool>)
    requires
        x@.len() < pow2(start@.len()),
        x@.len() < pow2(end@.len()),
    ensures
        r@.len() == x@.len(),
        forall|lb: nat|
            is_bit_width(lb, x@.len() as int) ==> forall|i: int|
                0 <= i < x@.len() ==> #[trigger] r@[i] == (x@[i] && in_range(start@, end@, lb, i)),
{
    range_op(x, start, end, 1)
}

/// Inverts the bits of `x` in `start..end`. Setting `end` to 0 guarantees a
/// no-op.
pub fn range_xor(x: &Vec<bool>, start: &Vec<bool>, end: &Vec<bool>) -> (r: Vec<bool>)
    requires
        x@.len() < pow2(start@.len()),
        x@.len() < pow2(end@.len()),
    ensures
        r@.len() == x@.len(),
        forall|lb: nat|
            is_bit_width(lb, x@.len() as int) ==> forall|i: int|
                0 <= i < x@.len() ==> #[trigger] r@[i] == (x@[i] != in_range(start@, end@, lb, i)),
{
    range_op(x, start, end, 2)
}

pub open spec fn min_int(a: int, b: int) -> int {
    if a < b {
        a
    } else {
        b
    }
}

/// `lhs` with its low bits below the value of `width` (read over as many bits
/// as it takes to write the lesser width) replaced by those of `rhs`. A width
/// of zero is a no-op.
pub fn field_width(lhs: &Vec<bool>, rhs: &Vec<bool>, width: &Vec<bool>) -> (r: Vec<bool>)
    requires
        lhs@.len() >= 1,
        rhs@.len() >= 1,
        lhs@.len() < pow2(width@.len()) || rhs@.len() < pow2(width@.len()),
    ensures
        r@.len() == lhs@.len(),
        forall|lb: nat|
            #[trigger] is_bit_width(lb, min_int(lhs@.len() as int, rhs@.len() as int)) ==> forall|i: int|
                0 <= i < lhs@.len() ==> #[trigger] r@[i] == if i < rhs@.len() && uval(width@.take(lb as int)) > i {
                    rhs@[i]
                } else {
                    lhs@[i]
                },
{
    let min_w = if lhs.len() < rhs.len() { lhs.len() } else { rhs.len() };
    let signals = tsmear_inx(width, min_w);
    let mut out: Vec<bool> = Vec::new();
    let mut i: usize = 0;
    while i < lhs.len()
        invariant
            min_w <= lhs@.len(),
            min_w <= rhs@.len(),
            min_w == lhs@.len() || min_w == rhs@.len(),
            signals@.len() == min_w,
            i <= lhs@.len(),
            out@.len() == i,
            forall|m: int|
                0 <= m < i ==> #[trigger] out@[m] == if m < min_w && signals@[m] {
                    rhs@[m]
                } else {
                    lhs@[m]
                },
        decreases lhs@.len() - i,
    {
        if i < min_w {
            // mux between `lhs` and `rhs` on the signal: table 1100_1010
            out.push(if signals[i] { rhs[i] } else { lhs[i] });
        } else {
            out.push(lhs[i]);
        }
        i = i + 1;
    }
    out
}

/// Copies the low `w` bits of `src` to the low bits of `out` if `w` is within
/// both, and otherwise leaves `out` as it is.
fn copy_low_bits(out: &mut Vec<bool>, src: &Vec<bool>, w: usize)
    ensures
        final(out)@.len() == old(out)@.len(),
        forall|k: int|
            0 <= k < old(out)@.len() ==> #[trigger] final(out)@[k] == if w <= old(out)@.len() && w
                <= src@.len() && k < w {
                src@[k]
            } else {
                old(out)@[k]
            },
{
    if w <= out.len() && w <= src.len() {
        let mut k: usize = 0;
        while k < w
            invariant
                w <= out@.len(),
                w <= src@.len(),
                out@.len() == old(out)@.len(),
                k <= w,
                forall|m: int|
                    0 <= m < old(out)@.len() ==> #[trigger] out@[m] == if m < k {
                        src@[m]
                    } else {
                        old(out)@[m]
                    },
            decreases w - k,
        {
            out.set(k, src[k]);
            k = k + 1;
        }
    }
}

/// Resizing without sign extension keeps the value modulo `2^w`.
proof fn lemma_resize_value(x: Seq<bool>, r: Seq<bool>, w: nat)
    requires
        r.len() == w,
        forall|k: int| 0 <= k < w ==> #[trigger] r[k] == (k < x.len() && x[k]),
    ensures
        uval(r) == uval(x) % (pow2(w) as int),
{
    lemma_input_index_range(x);
    lemma_pow2_pos(w);
    if x.len() >= w {
        lemma_uval_take(x, w);
        assert(r =~= x.take(w as int));
    } else {
        let z = Seq::new((w - x.len()) as nat, |m: int| false);
        assert(r =~= x + z);
        lemma_uval_zero_extend(x, z);
        if x.len() < w {
            vstd::arithmetic::power2::lemma_pow2_strictly_increases(x.len(), w);
        }
        vstd::arithmetic::div_mod::lemma_small_mod(uval(x) as nat, pow2(w));
    }
}

/// `lhs` with its low `width` bits replaced by the bits of `rhs` starting at
/// `from`. A width of zero leaves `lhs` as it is whatever `from` is.
pub fn field_from(lhs: &Vec<bool>, rhs: &Vec<bool>, from: &Vec<bool>, width: &Vec<bool>) -> (r: Vec<bool>)
    requires
        lhs@.len() >= 1,
        1 <= rhs@.len() <= pow2((usize::BITS - 2) as nat),
        width@.len() >= 1,
        uval(width@) <= lhs@.len(),
        uval(width@) <= rhs@.len(),
        uval(width@) > 0 ==> uval(from@) + uval(width@) <= rhs@.len(),
    ensures
        r@.len() == lhs@.len(),
        forall|k: int|
            0 <= k < lhs@.len() ==> #[trigger] r@[k] == if k < uval(width@) {
                rhs@[uval(from@) + k]
            } else {
                lhs@[k]
            },
{
    let mut out = lhs.clone();
    proof {
        lemma_input_index_range(width@);
        lemma_input_index_range(from@);
    }
    match nontrivial_bits(rhs.len() - 1) {
        Some(s_w) => {
            proof {
                if s_w >= usize::BITS - 1 {
                    if s_w - 1 > usize::BITS - 2 {
                        vstd::arithmetic::power2::lemma_pow2_strictly_increases((usize::BITS - 2) as nat, (s_w - 1) as nat);
                    }
                    assert(false);
                }
                if s_w < usize::BITS - 2 {
                    vstd::arithmetic::power2::lemma_pow2_strictly_increases(s_w as nat, (usize::BITS - 2) as nat);
                }
                vstd::bits::lemma_usize_pow2_no_overflow((usize::BITS - 1) as nat);
                lemma_pow2_unfold((usize::BITS - 1) as nat);
            }
            let s = resize_zero(from, s_w);
            let xw = 2 * pow2_usize(s_w);
            // the bits of `rhs`, the rest are never selected
            let x = resize_zero(rhs, xw);
            let tmp = funnel(&x, &s);
            let max_width = if lhs.len() < rhs.len() { lhs.len() } else { rhs.len() };
            let sw_w = match nontrivial_bits(max_width) {
                Some(w) => w,
                None => 1,
            };
            let small_width = resize_zero(width, sw_w);
            proof {
                lemma_resize_value(width@, small_width@, sw_w as nat);
                vstd::arithmetic::div_mod::lemma_small_mod(uval(width@) as nat, pow2(sw_w as nat));
                vstd::bits::lemma_usize_pow2_no_overflow((usize::BITS - 1) as nat);
                if sw_w >= usize::BITS {
                    vstd::arithmetic::power2::lemma2_to64_rest();
                    if sw_w - 1 > usize::BITS - 1 {
                        vstd::arithmetic::power2::lemma_pow2_strictly_increases((usize::BITS - 1) as nat, (sw_w - 1) as nat);
                    }
                    lemma_pow2_unfold(usize::BITS as nat);
                    assert(false);
                }
            }
            let swv = bits_to_usize(&small_width);
            proof {
                lemma_resize_value(from@, s@, s_w as nat);
                if uval(width@) > 0 {
                    vstd::arithmetic::div_mod::lemma_small_mod(uval(from@) as nat, pow2(s_w as nat));
                }
                lemma_pow2_unfold(s_w as nat + 1);
                assert forall|k: int| 0 <= k < swv implies #[trigger] tmp@[k] == rhs@[uval(from@) + k] by {
                    assert(tmp@[k] == x@[k + uval(s@)]);
                }
            }
            copy_low_bits(&mut out, &tmp, swv);
        },
        None => {
            let small_width: usize = if width[0] { 1 } else { 0 };
            proof {
                if uval(width@) > 0 {
                    lemma_uval_bit(width@, 0);
                    lemma2_to64();
                }
            }
            copy_low_bits(&mut out, rhs, small_width);
        },
    }
    out
}

/// `x` truncated or extended with zeros to `w` bits.
pub(crate) fn resize_zero(x: &Vec<bool>, w: usize) -> (r: Vec<bool>)
    ensures
        r@.len() == w,
        forall|k: int| 0 <= k < w ==> #[trigger] r@[k] == (k < x@.len() && x@[k]),
{
    let mut r: Vec<bool> = Vec::new();
    let mut k: usize = 0;
    while k < w
        invariant
            k <= w,
            r@.len() == k,
            forall|m: int| 0 <= m < k ==> #[trigger] r@[m] == (m < x@.len() && x@[m]),
        decreases w - k,
    {
        r.push(k < x.len() && x[k]);
        k = k + 1;
    }
    r
}


proof fn lemma_lb_ceil_of_pow2(n: nat)
    ensures
        is_lb_ceil(n, pow2(n) as int),
{
    if n > 0 {
        vstd::arithmetic::power2::lemma_pow2_strictly_increases((n - 1) as nat, n);
    }
}

/// `bits` with the entry indexed by `inx` (over the least number of bits
/// that index every entry) replaced by `bit`.
pub fn dynamic_to_static_set(bits: &Vec<bool>, inx: &Vec<bool>, bit: &Vec<bool>) -> (r: Vec<bool>)
    requires
        1 <= bits@.len() <= pow2((usize::BITS - 1) as nat),
        bits@.len() <= 1 || bits@.len() <= pow2(inx@.len()),
        bit@.len() == 1,
    ensures
        r@.len() == bits@.len(),
        forall|lb: nat|
            #[trigger] is_lb_ceil(lb, bits@.len() as int) ==> forall|i: int|
                0 <= i < bits@.len() ==> #[trigger] r@[i] == if uval(inx@.take(lb as int)) == i {
                    bit@[0]
                } else {
                    bits@[i]
                },
{
    if bits.len() == 1 {
        proof {
            lemma2_to64();
            assert forall|lb: nat| #[trigger] is_lb_ceil(lb, bits@.len() as int) implies forall|i: int|
                0 <= i < bits@.len() ==> #[trigger] bit@[i] == if uval(inx@.take(lb as int)) == i {
                    bit@[0]
                } else {
                    bits@[i]
                } by {
                if lb > 0 {
                    lemma_pow2_pos((lb - 1) as nat);
                }
                assert(inx@.take(0) =~= Seq::<bool>::empty());
            }
        }
        return bit.clone();
    }
    let signals = selector(inx, Some(bits.len()));
    let mut out: Vec<bool> = Vec::new();
    let mut i: usize = 0;
    while i < bits.len()
        invariant
            signals@.len() == bits@.len(),
            bit@.len() == 1,
            i <= bits@.len(),
            out@.len() == i,
            forall|m: int| 0 <= m < i ==> #[trigger] out@[m] == if signals@[m] { bit@[0] } else { bits@[m] },
        decreases bits@.len() - i,
    {
        // multiplex between `bits` and `bit` on the signal: table 1101_1000
        out.push(if signals[i] { bit[0] } else { bits[i] });
        i = i + 1;
    }
    out
}

/// The entry of `bits` indexed by `inx`, read over the least number of bits
/// that index every entry; the index must be an entry.
pub fn dynamic_to_static_get(bits: &Vec<bool>, inx: &Vec<bool>) -> (r: bool)
    requires
        1 <= bits@.len() <= pow2((usize::BITS - 1) as nat),
        bits@.len() <= pow2(inx@.len()),
        forall|lb: nat| #[trigger] is_lb_ceil(lb, bits@.len() as int) ==> uval(inx@.take(lb as int)) < bits@.len(),
    ensures
        forall|lb: nat| #[trigger] is_lb_ceil(lb, bits@.len() as int) ==> r == bits@[uval(inx@.take(lb as int))],
{
    let inx_w = lb_ceil(bits.len());
    proof {
        if inx_w > 0 {
            lemma_pow2_pos((inx_w - 1) as nat);
        }
        assert(is_lb_ceil(inx_w as nat, bits@.len() as int));
        if inx_w > inx@.len() {
            if inx_w - 1 > inx@.len() {
                vstd::arithmetic::power2::lemma_pow2_strictly_increases(inx@.len(), (inx_w - 1) as nat);
            }
            assert(false);
        }
    }
    if bits.len() == 1 {
        proof {
            lemma2_to64();
            assert forall|lb: nat| #[trigger] is_lb_ceil(lb, bits@.len() as int) implies bits@[0] == bits@[uval(inx@.take(lb as int))] by {
                lemma_least_pow2_unique(lb, inx_w as nat, bits@.len() as int);
                assert(inx@.take(0) =~= Seq::<bool>::empty());
            }
        }
        return bits[0];
    }
    let true_inx = resize_zero(inx, inx_w);
    proof {
        assert(true_inx@ =~= inx@.take(inx_w as int));
    }
    let k = bits_to_usize(&true_inx);
    proof {
        assert forall|lb: nat| #[trigger] is_lb_ceil(lb, bits@.len() as int) implies bits@[k as int] == bits@[uval(inx@.take(lb as int))] by {
            lemma_least_pow2_unique(lb, inx_w as nat, bits@.len() as int);
        }
    }
    bits[k]
}

/// `out` set to the `out.len()` wide entry of `table` indexed by `inx`.
pub fn dynamic_to_static_lut(out: &mut Vec<bool>, table: &Vec<bool>, inx: &Vec<bool>)
    requires
        inx@.len() < usize::BITS - 1,
        old(out)@.len() >= 1,
        table@.len() == old(out)@.len() * pow2(inx@.len()),
    ensures
        final(out)@.len() == old(out)@.len(),
        forall|j: int|
            0 <= j < old(out)@.len() ==> #[trigger] final(out)@[j] == table@[uval(inx@) * old(out)@.len() + j],
{
    let signals = selector(inx, None);
    let w = out.len();
    let tl = table.len();
    proof {
        lemma_lb_ceil_of_pow2(inx@.len());
        assert(inx@.take(inx@.len() as int) =~= inx@);
        lemma_input_index_range(inx@);
    }
    let ghost v = uval(inx@);
    let mut tmp_output: Vec<bool> = Vec::new();
    let mut j: usize = 0;
    while j < w
        invariant
            w == old(out)@.len(),
            w >= 1,
            tl == table@.len(),
            signals@.len() == pow2(inx@.len()),
            table@.len() == w * pow2(inx@.len()),
            0 <= v < pow2(inx@.len()),
            forall|i: int| 0 <= i < signals@.len() ==> #[trigger] signals@[i] == (v == i),
            j <= w,
            tmp_output@.len() == j,
            forall|m: int| 0 <= m < j ==> #[trigger] tmp_output@[m] == table@[v * w + m],
        decreases w - j,
    {
        let mut column = false;
        let mut i: usize = 0;
        while i < signals.len()
            invariant
                w >= 1,
                j < w,
                tl == table@.len(),
                signals@.len() == pow2(inx@.len()),
                table@.len() == w * pow2(inx@.len()),
                0 <= v < pow2(inx@.len()),
                forall|i2: int| 0 <= i2 < signals@.len() ==> #[trigger] signals@[i2] == (v == i2),
                i <= signals@.len(),
                column == (v < i && table@[v * w + j]),
            decreases signals@.len() - i,
        {
            proof {
                assert(i * w + j < table@.len()) by (nonlinear_arith)
                    requires
                        i < signals@.len(),
                        j < w,
                        table@.len() == w * signals@.len(),
                ;
            }
            // table 1111_1000 over (signal, entry bit, column)
            column = (signals[i] && table[i * w + j]) || column;
            i = i + 1;
        }
        tmp_output.push(column);
        j = j + 1;
    }
    *out = tmp_output;
}

/// `table` with its `entry.len()` wide entry indexed by `inx` replaced by
/// `entry`.
pub fn lut_set(table: &Vec<bool>, entry: &Vec<bool>, inx: &Vec<bool>) -> (r: Vec<bool>)
    requires
        inx@.len() < usize::BITS - 1,
        entry@.len() >= 1,
        table@.len() == entry@.len() * pow2(inx@.len()),
    ensures
        r@.len() == table@.len(),
        forall|k: int|
            0 <= k < table@.len() ==> #[trigger] r@[k] == if k / (entry@.len() as int) == uval(inx@) {
                entry@[k % (entry@.len() as int)]
            } else {
                table@[k]
            },
{
    let num_entries = pow2_usize(inx.len());
    proof {
        vstd::arithmetic::power2::lemma_pow2_strictly_increases(inx@.len(), (usize::BITS - 1) as nat);
        lemma_pow2_pos(inx@.len());
    }
    let signals = selector(inx, Some(num_entries));
    proof {
        lemma_lb_ceil_of_pow2(inx@.len());
        assert(inx@.take(inx@.len() as int) =~= inx@);
    }
    let ew = entry.len();
    let tl = table.len();
    let mut out = table.clone();
    let mut j: usize = 0;
    while j < num_entries
        invariant
            ew == entry@.len(),
            ew >= 1,
            tl == table@.len(),
            num_entries == pow2(inx@.len()),
            signals@.len() == num_entries,
            forall|i: int| 0 <= i < signals@.len() ==> #[trigger] signals@[i] == (uval(inx@) == i),
            table@.len() == ew * num_entries,
            out@.len() == table@.len(),
            j <= num_entries,
            forall|k: int|
                0 <= k < table@.len() ==> #[trigger] out@[k] == if k / (ew as int) < j && k / (ew as int) == uval(inx@) {
                    entry@[k % (ew as int)]
                } else {
                    table@[k]
                },
        decreases num_entries - j,
    {
        let mut i: usize = 0;
        while i < ew
            invariant
                ew == entry@.len(),
                ew >= 1,
                tl == table@.len(),
                j < num_entries,
                signals@.len() == num_entries,
                forall|i2: int| 0 <= i2 < signals@.len() ==> #[trigger] signals@[i2] == (uval(inx@) == i2),
                table@.len() == ew * num_entries,
                out@.len() == table@.len(),
                i <= ew,
                forall|k: int|
                    0 <= k < table@.len() ==> #[trigger] out@[k] == if (k / (ew as int) < j || (k / (ew as int) == j && k % (ew as int) < i)) && k / (ew as int) == uval(inx@) {
                        entry@[k % (ew as int)]
                    } else {
                        table@[k]
                    },
            decreases ew - i,
        {
            proof {
                assert(i + j * ew < table@.len()) by (nonlinear_arith)
                    requires
                        i < ew,
                        j < num_entries,
                        table@.len() == ew * num_entries,
                ;
            }
            let lut_inx = i + (j * ew);
            // mux between the table and `entry` on the signal: table 1100_1010
            let b = if signals[j] { entry[i] } else { table[lut_inx] };
            out.set(lut_inx, b);
            proof {
                vstd::arithmetic::div_mod::lemma_fundamental_div_mod_converse(lut_inx as int, ew as int, j as int, i as int);
                assert forall|k: int|
                    0 <= k < table@.len() implies #[trigger] out@[k] == if (k / (ew as int) < j || (k / (ew as int) == j && k % (ew as int) < i + 1)) && k / (ew as int) == uval(inx@) {
                        entry@[k % (ew as int)]
                    } else {
                        table@[k]
                    } by {
                    if k != lut_inx {
                        vstd::arithmetic::div_mod::lemma_fundamental_div_mod(k, ew as int);
                        if k / (ew as int) == j && k % (ew as int) == i {
                            assert(k == (ew as int) * (j as int) + (i as int));
                            assert((ew as int) * (j as int) == (j as int) * (ew as int)) by (nonlinear_arith);
                            assert(false);
                        }
                    }
                }
            }
            i = i + 1;
        }
        proof {
            assert forall|k: int|
                0 <= k < table@.len() implies #[trigger] out@[k] == if k / (ew as int) < j + 1 && k / (ew as int) == uval(inx@) {
                    entry@[k % (ew as int)]
                } else {
                    table@[k]
                } by {
                vstd::arithmetic::div_mod::lemma_mod_pos_bound(k, ew as int);
            }
        }
        j = j + 1;
    }
    proof {
        assert forall|k: int| 0 <= k < table@.len() implies #[trigger] out@[k] == if k / (entry@.len() as int) == uval(inx@) {
                entry@[k % (entry@.len() as int)]
            } else {
                table@[k]
            } by {
            vstd::arithmetic::div_mod::lemma_multiply_divide_lt(k, ew as int, num_entries as int);
        }
    }
    out
}


/// The number of set bits.
pub open spec fn popcount(s: Seq<bool>) -> int
    decreases s.len(),
{
    if s.len() == 0 {
        0
    } else {
        popcount(s.drop_last()) + bit_val(s.last())
    }
}

pub proof fn lemma_popcount_bounds(s: Seq<bool>)
    ensures
        0 <= popcount(s) <= s.len(),
    decreases s.len(),
{
    if s.len() > 0 {
        lemma_popcount_bounds(s.drop_last());
    }
}

pub proof fn lemma_popcount_concat(a: Seq<bool>, b: Seq<bool>)
    ensures
        popcount(a + b) == popcount(a) + popcount(b),
    decreases b.len(),
{
    if b.len() == 0 {
        assert(a + b =~= a);
    } else {
        lemma_popcount_concat(a, b.drop_last());
        assert((a + b).drop_last() =~= a + b.drop_last());
    }
}

proof fn lemma_popcount_split(x: Seq<bool>, a: int, b: int, c: int)
    requires
        0 <= a <= b <= c <= x.len(),
    ensures
        popcount(x.subrange(a, c)) == popcount(x.subrange(a, b)) + popcount(x.subrange(b, c)),
{
    assert(x.subrange(a, c) =~= x.subrange(a, b) + x.subrange(b, c));
    lemma_popcount_concat(x.subrange(a, b), x.subrange(b, c));
}

/// The count so far of one group of a rank, and the count's largest value.
spec fn group_ok(x: Seq<bool>, sum: Seq<bool>, max: int, lo: int, hi: int, w: nat) -> bool {
    &&& 0 <= lo < hi <= x.len()
    &&& sum.len() == w
    &&& max == hi - lo
    &&& max < pow2(w)
    &&& uval(sum) == popcount(x.subrange(lo, hi))
}

/// Entry `k` of a rank counts the range `bounds[k]..bounds[k + 1]`.
spec fn entry_ok(x: Seq<bool>, rank: Seq<(Vec<bool>, usize)>, bounds: Seq<int>, k: int, w: nat) -> bool {
    group_ok(x, rank[k].0@, rank[k].1 as int, bounds[k], bounds[k + 1], w)
}

/// A rank of partial counts over consecutive ranges of `x`, all `w` bits
/// wide.
spec fn rank_ok(x: Seq<bool>, rank: Seq<(Vec<bool>, usize)>, bounds: Seq<int>, w: nat) -> bool {
    &&& bounds.len() == rank.len() + 1
    &&& rank.len() >= 1
    &&& bounds[0] == 0
    &&& bounds[rank.len() as int] == x.len()
    &&& forall|k: int| 0 <= k < rank.len() ==> #[trigger] entry_ok(x, rank, bounds, k, w)
}

/// Counts the set bits by summing ever wider partial counts, each sum taking
/// in as many neighbors as its width holds without overflow. Returns the
/// count in as many bits as this takes.
pub fn count_ones(x: &Vec<bool>) -> (r: Vec<bool>)
    requires
        x@.len() >= 1,
    ensures
        r@.len() >= 1,
        uval(r@) == popcount(x@),
        is_bit_width(r@.len() as nat, x@.len() as int),
{
    let n = x.len();
    let mut rank: Vec<(Vec<bool>, usize)> = Vec::new();
    let ghost mut bounds: Seq<int> = seq![0];
    let ghost mut rw: nat = 1;
    let mut i: usize = 0;
    while i < n
        invariant
            n == x@.len(),
            i <= n,
            rw == 1,
            rank@.len() == i,
            bounds.len() == i + 1,
            bounds[0] == 0,
            forall|k: int| 0 <= k <= i ==> #[trigger] bounds[k] == k,
            forall|k: int| 0 <= k < i ==> #[trigger] entry_ok(x@, rank@, bounds, k, rw),
        decreases n - i,
    {
        let b = x[i];
        proof {
            lemma2_to64();
            assert(x@.subrange(i as int, i + 1) =~= seq![b]);
            assert(seq![b].drop_last() =~= Seq::<bool>::empty());
            assert(uval(seq![b]) == bit_val(b) + 2 * uval(seq![b].drop_first()));
            assert(seq![b].drop_first() =~= Seq::<bool>::empty());
        }
        let single = vec![b];
        proof {
            assert(single@ =~= seq![b]);
        }
        let ghost old_rank = rank@;
        let ghost old_bounds = bounds;
        rank.push((single, 1));
        proof {
            bounds = bounds.push(i + 1);
            assert forall|k: int| 0 <= k < i + 1 implies #[trigger] entry_ok(x@, rank@, bounds, k, rw) by {
                if k < i {
                    assert(entry_ok(x@, old_rank, old_bounds, k, rw));
                    assert(rank@[k] == old_rank[k]);
                    assert(bounds[k] == old_bounds[k]);
                    assert(bounds[k + 1] == old_bounds[k + 1]);
                } else {
                    assert(rank@[k] == (single, 1usize));
                    assert(popcount(Seq::<bool>::empty()) == 0);
                    assert(seq![b].drop_last() =~= Seq::<bool>::empty());
                    assert(seq![b].last() == b);
                    assert(popcount(seq![b]) == bit_val(b));
                    assert(uval(single@) == popcount(x@.subrange(k, k + 1)));
                    assert(bounds[k] == k);
                    assert(bounds[k + 1] == k + 1);
                }
            }
        }
        i = i + 1;
    }
    proof {
        lemma2_to64();
    }
    while rank.len() != 1
        invariant
            n == x@.len(),
            n >= 1,
            rw >= 1,
            rank_ok(x@, rank@, bounds, rw),
            rank@.len() >= 2 ==> n >= pow2(rw),
            rw >= 2 ==> n >= pow2((rw - 1) as nat),
        decreases rank@.len(),
    {
        let rank_len = rank.len();
        let mut next_rank: Vec<(Vec<bool>, usize)> = Vec::new();
        let ghost mut next_bounds: Seq<int> = seq![0];
        let ghost w: nat = rw + 1;
        let mut i: usize = 0;
        proof {
            lemma_pow2_unfold(w);
        }
        while i < rank_len
            invariant
                n == x@.len(),
                rank_len == rank@.len(),
                rank_len >= 2,
                rank_ok(x@, rank@, bounds, rw),
                w == rw + 1,
                pow2(w) == 2 * pow2(rw),
                i <= rank_len,
                next_bounds.len() == next_rank@.len() + 1,
                next_bounds[0] == 0,
                next_bounds[next_rank@.len() as int] == bounds[i as int],
                forall|k: int| 0 <= k < next_rank@.len() ==> #[trigger] entry_ok(x@, next_rank@, next_bounds, k, w),
                2 * next_rank@.len() <= i || (i == rank_len && 2 * next_rank@.len() <= rank_len + 1),
                next_rank@.len() >= 2 ==> n >= pow2(w),
                next_rank@.len() >= 1 && i < rank_len ==> n >= pow2(w),
            decreases rank_len - i,
        {
            let start = i;
            let ghost lo = bounds[start as int];
            proof {
                assert(entry_ok(x@, rank@, bounds, start as int, rw));
            }
            // each group's sum is one bit wider than the rank's
            let mut next_sum = rank[i].0.clone();
            next_sum.push(false);
            let mut next_max = rank[i].1;
            proof {
                lemma_uval_push(rank@[start as int].0@, false);
                assert(next_sum@ =~= rank@[start as int].0@.push(false));
            }
            i = i + 1;
            while i < rank_len
                invariant
                    n == x@.len(),
                    rank_len == rank@.len(),
                    rank_ok(x@, rank@, bounds, rw),
                    w == rw + 1,
                    pow2(w) == 2 * pow2(rw),
                    start < i <= rank_len,
                    lo == bounds[start as int],
                    group_ok(x@, next_sum@, next_max as int, lo, bounds[i as int], w),
                    i == start + 1 ==> next_max == rank@[start as int].1,
                ensures
                    start < i <= rank_len,
                    group_ok(x@, next_sum@, next_max as int, lo, bounds[i as int], w),
                    i < rank_len ==> i >= start + 2,
                    i < rank_len ==> bounds[i + 1] - lo >= pow2(w),
                decreases rank_len - i,
            {
                let mi = rank[i].1;
                proof {
                    assert(entry_ok(x@, rank@, bounds, i as int, rw));
                    assert(entry_ok(x@, rank@, bounds, start as int, rw));
                    assert(next_max + mi <= n);
                }
                let wu = next_sum.len();
                let fits = if wu >= usize::BITS as usize {
                    true
                } else {
                    next_max + mi < pow2_usize(wu)
                };
                proof {
                    assert(wu == w);
                    if wu >= usize::BITS {
                        vstd::arithmetic::power2::lemma2_to64();
                        vstd::arithmetic::power2::lemma2_to64_rest();
                        if wu > usize::BITS {
                            vstd::arithmetic::power2::lemma_pow2_strictly_increases(usize::BITS as nat, wu as nat);
                        }
                        assert(next_max + mi < pow2(w));
                    }
                    assert(fits == (next_max + mi < pow2(w)));
                    if i == start + 1 {
                        assert(next_max + mi < pow2(w));
                    }
                }
                if !fits {
                    proof {
                        assert(bounds[i + 1] - lo >= pow2(w));
                    }
                    // do not add another previous sum to this sum because of overflow
                    break;
                }
                let addend = resize_zero(&rank[i].0, wu);
                let no_carry = vec![false];
                let (sum, carry, _) = cin_sum(&no_carry, &next_sum, &addend);
                proof {
                    let lo2 = bounds[i as int];
                    let hi2 = bounds[i + 1];
                    lemma_resize_value(rank@[i as int].0@, addend@, w);
                    lemma_pow2_strictly_increases_rw(rw);
                    lemma_input_index_range(rank@[i as int].0@);
                    vstd::arithmetic::div_mod::lemma_small_mod(uval(rank@[i as int].0@) as nat, pow2(w));
                    lemma_popcount_bounds(x@.subrange(lo, lo2));
                    lemma_popcount_bounds(x@.subrange(lo2, hi2));
                    lemma_popcount_split(x@, lo, lo2, hi2);
                    lemma_input_index_range(sum@);
                    assert(no_carry@[0] == false);
                    assert(uval(addend@) == uval(rank@[i as int].0@));
                    assert(uval(next_sum@) + uval(addend@) < pow2(w));
                    if carry {
                        assert(false);
                    }
                    assert(pow2(w) * bit_val(carry) == 0) by (nonlinear_arith)
                        requires
                            bit_val(carry) == 0,
                    ;
                    assert(uval(sum@) == popcount(x@.subrange(lo, hi2)));
                    assert(sum@.len() == w);
                    assert(next_max + mi == hi2 - lo);
                    assert(group_ok(x@, sum@, next_max + mi, lo, hi2, w));
                }
                next_sum = sum;
                next_max = next_max + mi;
                i = i + 1;
            }
            let ghost old_next = next_rank@;
            let ghost old_next_bounds = next_bounds;
            proof {
                next_bounds = next_bounds.push(bounds[i as int]);
            }
            next_rank.push((next_sum, next_max));
            proof {
                if i < rank_len {
                    assert(entry_ok(x@, rank@, bounds, i as int, rw));
                    assert(n >= pow2(w));
                }
                assert forall|k: int| 0 <= k < next_rank@.len() implies #[trigger] entry_ok(x@, next_rank@, next_bounds, k, w) by {
                    if k < old_next.len() {
                        assert(entry_ok(x@, old_next, old_next_bounds, k, w));
                        assert(next_rank@[k] == old_next[k]);
                        assert(next_bounds[k] == old_next_bounds[k]);
                        assert(next_bounds[k + 1] == old_next_bounds[k + 1]);
                    }
                }
            }
        }
        proof {
            assert(next_rank@.len() < rank_len);
        }
        rank = next_rank;
        proof {
            bounds = next_bounds;
            rw = w;
        }
    }
    proof {
        assert(entry_ok(x@, rank@, bounds, 0, rw));
        assert(x@.subrange(0, n as int) =~= x@);
        lemma2_to64();
    }
    let (r, _) = rank.remove(0);
    r
}

proof fn lemma_pow2_strictly_increases_rw(rw: nat)
    ensures
        pow2(rw) < pow2(rw + 1),
{
    vstd::arithmetic::power2::lemma_pow2_strictly_increases(rw, rw + 1);
}

/// `x % 2^lb` read back out of `x % 2^mw`, for `lb <= mw`.
proof fn lemma_mod_pow2_nested(x: int, lb: nat, mw: nat)
    requires
        x >= 0,
        lb <= mw,
    ensures
        (x % (pow2(mw) as int)) % (pow2(lb) as int) == x % (pow2(lb) as int),
{
    lemma_pow2_pos(lb);
    lemma_pow2_pos((mw - lb) as nat);
    vstd::arithmetic::power2::lemma_pow2_adds(lb, (mw - lb) as nat);
    vstd::arithmetic::div_mod::lemma_mod_mod(x, pow2(lb) as int, pow2((mw - lb) as nat) as int);
}

/// Each bit of `lhs` inside the window from `to` up to `to + width` replaced
/// by the bit of `image` at the same place; the window's bounds are read over
/// `mw` bits. A width of zero leaves `lhs` as it is whatever `to` is.
fn window_mux(lhs: &Vec<bool>, image: &Vec<bool>, to: &Vec<bool>, width: &Vec<bool>, mw: usize) -> (r: Vec<bool>)
    requires
        image@.len() == lhs@.len(),
        1 <= mw,
        lhs@.len() < pow2(mw as nat),
        uval(width@) > 0 ==> uval(to@) + uval(width@) <= lhs@.len(),
    ensures
        r@.len() == lhs@.len(),
        forall|i: int|
            0 <= i < lhs@.len() ==> #[trigger] r@[i] == if uval(to@) <= i < uval(to@) + uval(width@) {
                image@[i]
            } else {
                lhs@[i]
            },
{
    let n = lhs.len();
    let small_to = resize_zero(to, mw);
    let small_width = resize_zero(width, mw);
    let no_carry = vec![false];
    let (to_plus_width, _, _) = cin_sum(&no_carry, &small_width, &small_to);
    // trailing mask that trails `to + width`, exclusive
    let tmask = tsmear_inx(&to_plus_width, n);
    // leading mask that leads `to`, inclusive, as the negation of a trailing mask
    let lmask = tsmear_inx(&small_to, n);
    let lb = smear_width(n);
    let ghost vt = uval(to@);
    let ghost vw = uval(width@);
    proof {
        lemma_input_index_range(to@);
        lemma_input_index_range(width@);
        lemma_pow2_pos(mw as nat);
        lemma_pow2_pos(lb as nat);
        if lb > mw {
            if lb - 1 > mw {
                vstd::arithmetic::power2::lemma_pow2_strictly_increases(mw as nat, (lb - 1) as nat);
            }
            assert(false);
        }
        lemma_resize_value(to@, small_to@, mw as nat);
        lemma_resize_value(width@, small_width@, mw as nat);
        lemma_input_index_range(small_to@);
        lemma_input_index_range(small_width@);
        lemma_input_index_range(to_plus_width@);
        lemma_uval_take(small_to@, lb as nat);
        lemma_uval_take(to_plus_width@, lb as nat);
        lemma_mod_pow2_nested(vt, lb as nat, mw as nat);
        assert(no_carry@[0] == false);
        if vw > 0 {
            if lb < mw {
                vstd::arithmetic::power2::lemma_pow2_strictly_increases(lb as nat, mw as nat);
            }
            vstd::arithmetic::div_mod::lemma_small_mod(vt as nat, pow2(mw as nat));
            vstd::arithmetic::div_mod::lemma_small_mod(vw as nat, pow2(mw as nat));
            vstd::arithmetic::div_mod::lemma_small_mod(vt as nat, pow2(lb as nat));
            vstd::arithmetic::div_mod::lemma_small_mod((vt + vw) as nat, pow2(lb as nat));
            assert(uval(to_plus_width@) == vt + vw);
            assert(uval(to_plus_width@.take(lb as int)) == vt + vw);
            assert(uval(small_to@.take(lb as int)) == vt);
        } else {
            vstd::arithmetic::div_mod::lemma_small_mod(0, pow2(mw as nat));
            assert(uval(small_width@) == 0);
            assert(uval(to_plus_width@) == uval(small_to@));
            lemma_uval_eq(to_plus_width@, small_to@);
        }
    }
    let mut out: Vec<bool> = Vec::new();
    let mut i: usize = 0;
    while i < n
        invariant
            n == lhs@.len(),
            image@.len() == n,
            tmask@.len() == n,
            lmask@.len() == n,
            is_bit_width(lb as nat, n as int),
            forall|m: int| 0 <= m < n ==> #[trigger] tmask@[m] == (uval(to_plus_width@.take(lb as int)) > m),
            forall|m: int| 0 <= m < n ==> #[trigger] lmask@[m] == (uval(small_to@.take(lb as int)) > m),
            vw > 0 ==> uval(to_plus_width@.take(lb as int)) == vt + vw,
            vw > 0 ==> uval(small_to@.take(lb as int)) == vt,
            vw <= 0 ==> to_plus_width@ == small_to@,
            vt == uval(to@),
            vw == uval(width@),
            vw >= 0,
            i <= n,
            out@.len() == i,
            forall|m: int|
                0 <= m < i ==> #[trigger] out@[m] == if vt <= m < vt + vw {
                    image@[m]
                } else {
                    lhs@[m]
                },
        decreases n - i,
    {
        // table 1111_1011_0100_0000 over the leading mask, the trailing mask,
        // the image and `lhs`
        out.push(if !lmask[i] && tmask[i] { image[i] } else { lhs[i] });
        i = i + 1;
    }
    out
}

/// The low `w` bits of `v`.
pub(crate) fn usize_to_bits(v: usize, w: usize) -> (r: Vec<bool>)
    requires
        w <= usize::BITS,
        v < pow2(w as nat),
    ensures
        r@.len() == w,
        uval(r@) == v,
{
    let mut r: Vec<bool> = Vec::new();
    let mut k: usize = 0;
    while k < w
        invariant
            k <= w <= usize::BITS,
            r@.len() == k,
            forall|m: int| 0 <= m < k ==> #[trigger] r@[m] == index_bit(v as int, m as nat),
        decreases w - k,
    {
        r.push(usize_bit(v, k));
        k = k + 1;
    }
    proof {
        assert(r@ =~= bits_of(v as int, w as nat));
        lemma_uval_bits_of(v as int, w as nat);
    }
    r
}

/// `n` bits, all clear but for the `cnt` bits of `src` starting at `from`,
/// placed starting at `at`.
fn place_bits(src: &Vec<bool>, from: usize, at: usize, cnt: usize, n: usize) -> (r: Vec<bool>)
    requires
        from + cnt <= src@.len(),
        at + cnt <= n,
    ensures
        r@.len() == n,
        forall|p: int|
            0 <= p < n ==> #[trigger] r@[p] == if at <= p < at + cnt {
                src@[p - at + from]
            } else {
                false
            },
{
    let sl = src.len();
    let mut r: Vec<bool> = Vec::new();
    let mut p: usize = 0;
    while p < n
        invariant
            sl == src@.len(),
            from + cnt <= src@.len(),
            at + cnt <= n,
            p <= n,
            r@.len() == p,
            forall|m: int|
                0 <= m < p ==> #[trigger] r@[m] == if at <= m < at + cnt {
                    src@[m - at + from]
                } else {
                    false
                },
        decreases n - p,
    {
        if at <= p && p < at + cnt {
            r.push(src[from + (p - at)]);
        } else {
            r.push(false);
        }
        p = p + 1;
    }
    r
}

/// `lhs` with the bits from `to` up to `to + width` replaced by the low
/// `width` bits of `rhs`. A width of zero leaves `lhs` as it is whatever `to`
/// is.
pub fn field_to(lhs: &Vec<bool>, to: &Vec<bool>, rhs: &Vec<bool>, width: &Vec<bool>) -> (r: Vec<bool>)
    requires
        1 <= lhs@.len() <= pow2((usize::BITS - 2) as nat),
        rhs@.len() >= 1,
        width@.len() >= 1,
        uval(width@) > 0 ==> uval(to@) + uval(width@) <= lhs@.len() && uval(width@) <= rhs@.len(),
    ensures
        r@.len() == lhs@.len(),
        forall|i: int|
            0 <= i < lhs@.len() ==> #[trigger] r@[i] == if uval(to@) <= i < uval(to@) + uval(width@) {
                rhs@[i - uval(to@)]
            } else {
                lhs@[i]
            },
{
    let n = lhs.len();
    let m = rhs.len();
    proof {
        lemma_input_index_range(to@);
        lemma_input_index_range(width@);
    }
    // the largest shift that can be anything but an effective no-op
    match nontrivial_bits(n - 1) {
        Some(s_w) => {
            proof {
                if s_w > usize::BITS - 2 {
                    if s_w - 1 > usize::BITS - 2 {
                        vstd::arithmetic::power2::lemma_pow2_strictly_increases((usize::BITS - 2) as nat, (s_w - 1) as nat);
                    }
                    assert(false);
                }
                vstd::bits::lemma_usize_pow2_no_overflow((usize::BITS - 1) as nat);
                if s_w < usize::BITS - 2 {
                    vstd::arithmetic::power2::lemma_pow2_strictly_increases(s_w as nat, (usize::BITS - 2) as nat);
                }
                lemma_pow2_unfold((usize::BITS - 1) as nat);
                lemma_pow2_unfold(s_w as nat + 1);
            }
            // first, the image of `rhs` shifted up by `to`, built reversed so
            // that the funnel's downward shift moves it up
            let s = resize_zero(to, s_w);
            let rev_rhs = reverse(rhs);
            let wn = 2 * pow2_usize(s_w);
            let wide = if m <= n {
                place_bits(&rev_rhs, 0, n - m, m, wn)
            } else {
                place_bits(&rev_rhs, m - n, 0, n, wn)
            };
            let tmp = funnel(&wide, &s);
            let image = reverse(&resize_zero(&tmp, n));
            proof {
                lemma_resize_value(to@, s@, s_w as nat);
                assert forall|i: int|
                    0 <= i < n && uval(to@) <= i < uval(to@) + uval(width@) implies #[trigger] image@[i] == rhs@[i - uval(to@)] by {
                    vstd::arithmetic::div_mod::lemma_small_mod(uval(to@) as nat, pow2(s_w as nat));
                    let p = n - 1 - i + uval(to@);
                    assert(image@[i] == tmp@[n - 1 - i]);
                    assert(tmp@[n - 1 - i] == wide@[p]);
                }
            }
            window_mux(lhs, &image, to, width, s_w + 1)
        },
        None => {
            let mut out = lhs.clone();
            let small_width: usize = if width[0] { 1 } else { 0 };
            proof {
                lemma_uval_bit(width@, 0);
                lemma2_to64();
            }
            copy_low_bits(&mut out, rhs, small_width);
            out
        },
    }
}

/// `lhs` with the bits from `to` up to `to + width` replaced by the bits of
/// `rhs` from `from` up to `from + width`. A width of zero leaves `lhs` as it
/// is whatever `to` and `from` are.
pub fn field(lhs: &Vec<bool>, to: &Vec<bool>, rhs: &Vec<bool>, from: &Vec<bool>, width: &Vec<bool>) -> (r: Vec<bool>)
    requires
        lhs@.len() >= 1,
        rhs@.len() >= 1,
        lhs@.len() + rhs@.len() <= pow2((usize::BITS - 2) as nat),
        width@.len() >= 1,
        uval(width@) > 0 ==> uval(to@) + uval(width@) <= lhs@.len() && uval(from@) + uval(width@) <= rhs@.len(),
    ensures
        r@.len() == lhs@.len(),
        forall|i: int|
            0 <= i < lhs@.len() ==> #[trigger] r@[i] == if uval(to@) <= i < uval(to@) + uval(width@) {
                rhs@[uval(from@) + i - uval(to@)]
            } else {
                lhs@[i]
            },
{
    let n = lhs.len();
    let m = rhs.len();
    proof {
        lemma_input_index_range(to@);
        lemma_input_index_range(from@);
        lemma_input_index_range(width@);
        vstd::bits::lemma_usize_pow2_no_overflow((usize::BITS - 1) as nat);
        vstd::arithmetic::power2::lemma_pow2_strictly_increases((usize::BITS - 2) as nat, (usize::BITS - 1) as nat);
    }
    // shifting both ways, from the msb of `rhs` to the lsb of `lhs` and from the
    // lsb of `rhs` to the msb of `lhs`, with a single shift construct
    match nontrivial_bits(n + m - 2) {
        Some(s_w) => {
            proof {
                if s_w > usize::BITS - 2 {
                    if s_w - 1 > usize::BITS - 2 {
                        vstd::arithmetic::power2::lemma_pow2_strictly_increases((usize::BITS - 2) as nat, (s_w - 1) as nat);
                    }
                    assert(false);
                }
                vstd::bits::lemma_usize_pow2_no_overflow((usize::BITS - 1) as nat);
                if s_w < usize::BITS - 2 {
                    vstd::arithmetic::power2::lemma_pow2_strictly_increases(s_w as nat, (usize::BITS - 2) as nat);
                }
                lemma_pow2_unfold((usize::BITS - 1) as nat);
                lemma_pow2_unfold(s_w as nat + 1);
                lemma_pow2_pos(s_w as nat);
            }
            // `to - from` offset by `rhs.len() - 1` to keep it positive
            let small_from = resize_zero(from, s_w);
            let small_to = resize_zero(to, s_w);
            let fv = bits_to_usize(&small_from);
            let tv = bits_to_usize(&small_to);
            let p = pow2_usize(s_w);
            proof {
                lemma_resize_value(from@, small_from@, s_w as nat);
                lemma_resize_value(to@, small_to@, s_w as nat);
                lemma_input_index_range(small_from@);
                lemma_input_index_range(small_to@);
            }
            proof {
                lemma_pow2_unfold((usize::BITS - 1) as nat);
                lemma_pow2_unfold(usize::BITS as nat);
                vstd::arithmetic::power2::lemma2_to64();
                vstd::arithmetic::power2::lemma2_to64_rest();
                assert(3 * p < pow2(usize::BITS as nat));
            }
            let sv = ((m - 1) + tv + (p - fv)) % p;
            let s = usize_to_bits(sv, s_w);
            // first, the image of `rhs`, built reversed so that the funnel's
            // downward shift moves it up
            let rev_rhs = reverse(rhs);
            let wn = 2 * p;
            let wide = place_bits(&rev_rhs, 0, n - 1, m, wn);
            let tmp = funnel(&wide, &s);
            let image = reverse(&resize_zero(&tmp, n));
            proof {
                assert forall|i: int|
                    0 <= i < n && uval(to@) <= i < uval(to@) + uval(width@) implies #[trigger] image@[i]
                        == rhs@[uval(from@) + i - uval(to@)] by {
                    vstd::arithmetic::div_mod::lemma_small_mod(uval(to@) as nat, pow2(s_w as nat));
                    vstd::arithmetic::div_mod::lemma_small_mod(uval(from@) as nat, pow2(s_w as nat));
                    let v = (m - 1) + uval(to@) - uval(from@);
                    vstd::arithmetic::div_mod::lemma_fundamental_div_mod_converse(v + p, p as int, 1, v);
                    assert(sv == v);
                    assert(image@[i] == tmp@[n - 1 - i]);
                    assert(tmp@[n - 1 - i] == wide@[n - 1 - i + v]);
                }
            }
            window_mux(lhs, &image, to, width, s_w + 1)
        },
        None => {
            let mut out = lhs.clone();
            let small_width: usize = if width[0] { 1 } else { 0 };
            proof {
                lemma_uval_bit(width@, 0);
                lemma2_to64();
            }
            copy_low_bits(&mut out, rhs, small_width);
            out
        },
    }
}

/// Whether any bit of `x` from `lo` up to `hi` is set.
pub open spec fn any_set(x: Seq<bool>, lo: int, hi: int) -> bool {
    exists|j: int| lo <= j < hi && 0 <= j < x.len() && #[trigger] x[j]
}

/// The number of significant bits: one more than the place of the most
/// significant set bit, zero if none is set.
pub open spec fn sig_bits(x: Seq<bool>) -> nat
    decreases x.len(),
{
    if x.len() == 0 {
        0
    } else if x.last() {
        x.len()
    } else {
        sig_bits(x.drop_last())
    }
}

/// The number of clear bits below the least significant set bit, all of
/// them if none is set.
pub open spec fn trailing_zero_count(x: Seq<bool>) -> nat
    decreases x.len(),
{
    if x.len() == 0 {
        0
    } else if x[0] {
        0
    } else {
        1 + trailing_zero_count(x.drop_first())
    }
}

/// Trailing smear: where there is a set bit, it and every bit less
/// significant than it are set.
pub fn tsmear(x: &Vec<bool>) -> (r: Vec<bool>)
    ensures
        r@.len() == x@.len(),
        forall|i: int| 0 <= i < x@.len() ==> #[trigger] r@[i] == any_set(x@, i, x@.len() as int),
{
    let n = x.len();
    let mut tmp0 = x.clone();
    let mut s: usize = 1;
    proof {
        assert forall|i: int| 0 <= i < n implies #[trigger] tmp0@[i] == any_set(x@, i, i + 1) by {
            if tmp0@[i] {
                assert(x@[i]);
            }
        }
    }
    // exponentially OR cascade the smear
    while s < n
        invariant
            n == x@.len(),
            1 <= s,
            tmp0@.len() == n,
            forall|i: int| 0 <= i < n ==> #[trigger] tmp0@[i] == any_set(x@, i, i + s),
        decreases n - s,
    {
        let mut tmp1: Vec<bool> = Vec::new();
        let mut i: usize = 0;
        while i < n
            invariant
                n == x@.len(),
                1 <= s < n,
                tmp0@.len() == n,
                forall|k: int| 0 <= k < n ==> #[trigger] tmp0@[k] == any_set(x@, k, k + s),
                i <= n,
                tmp1@.len() == i,
                forall|k: int| 0 <= k < i ==> #[trigger] tmp1@[k] == any_set(x@, k, k + 2 * s),
            decreases n - i,
        {
            // `tmp0` or `tmp0` shifted down by `s`
            let hi = if i < n - s { tmp0[i + s] } else { false };
            let b = tmp0[i] || hi;
            proof {
                let k = i as int;
                if i < n - s {
                    assert(tmp0@[k + s] == any_set(x@, k + s, k + s + s));
                }
                if b {
                    if tmp0@[k] {
                        let j = choose|j: int| k <= j < k + s && 0 <= j < x@.len() && #[trigger] x@[j];
                        assert(k <= j < k + 2 * s);
                    } else {
                        let j = choose|j: int| k + s <= j < k + s + s && 0 <= j < x@.len() && #[trigger] x@[j];
                        assert(k <= j < k + 2 * s);
                    }
                }
                if any_set(x@, k, k + 2 * s) {
                    let j = choose|j: int| k <= j < k + 2 * s && 0 <= j < x@.len() && #[trigger] x@[j];
                    if j < k + s {
                        assert(tmp0@[k]);
                    } else {
                        assert(tmp0@[k + s]);
                    }
                }
            }
            tmp1.push(b);
            i = i + 1;
        }
        tmp0 = tmp1;
        if s >= n - s {
            s = n;
        } else {
            s = 2 * s;
        }
        proof {
            assert forall|k: int| 0 <= k < n implies #[trigger] tmp0@[k] == any_set(x@, k, k + s) by {
                if any_set(x@, k, k + s) {
                    let j = choose|j: int| k <= j < k + s && 0 <= j < x@.len() && #[trigger] x@[j];
                    assert(k <= j < n);
                }
                if tmp0@[k] {
                    let j = choose|j: int| k <= j < k + 2 * (s as int) && 0 <= j < x@.len() && #[trigger] x@[j];
                }
            }
        }
    }
    proof {
        assert forall|i: int| 0 <= i < n implies #[trigger] tmp0@[i] == any_set(x@, i, n as int) by {
            if any_set(x@, i, n as int) {
                let j = choose|j: int| i <= j < n && 0 <= j < x@.len() && #[trigger] x@[j];
                assert(i <= j < i + s);
            }
        }
    }
    tmp0
}

/// A vector whose bit `i` tells whether any bit of `x` from `i` up is set
/// has as many set bits as `x` has significant bits.
proof fn lemma_popcount_smear(x: Seq<bool>, s: Seq<bool>)
    requires
        s.len() == x.len(),
        forall|i: int| 0 <= i < x.len() ==> #[trigger] s[i] == any_set(x, i, x.len() as int),
    ensures
        popcount(s) == sig_bits(x),
    decreases x.len(),
{
    if x.len() > 0 {
        let n = x.len() as int;
        if x.last() {
            assert forall|i: int| 0 <= i < n implies #[trigger] s[i] by {
                assert(x[n - 1]);
            }
            lemma_popcount_all_set(s);
        } else {
            let x2 = x.drop_last();
            let s2 = s.drop_last();
            assert forall|i: int| 0 <= i < x2.len() implies #[trigger] s2[i] == any_set(x2, i, x2.len() as int) by {
                assert(s2[i] == s[i]);
                if any_set(x, i, n) {
                    let j = choose|j: int| i <= j < n && 0 <= j < x.len() && #[trigger] x[j];
                    assert(j < n - 1);
                    assert(x2[j]);
                }
                if any_set(x2, i, n - 1) {
                    let j = choose|j: int| i <= j < n - 1 && 0 <= j < x2.len() && #[trigger] x2[j];
                    assert(x[j]);
                }
            }
            lemma_popcount_smear(x2, s2);
            assert(!s[n - 1]) by {
                if any_set(x, n - 1, n) {
                    let j = choose|j: int| n - 1 <= j < n && 0 <= j < x.len() && #[trigger] x[j];
                }
            }
        }
    }
}

proof fn lemma_popcount_all_set(s: Seq<bool>)
    requires
        forall|i: int| 0 <= i < s.len() ==> #[trigger] s[i],
    ensures
        popcount(s) == s.len(),
    decreases s.len(),
{
    if s.len() > 0 {
        lemma_popcount_all_set(s.drop_last());
    }
}

/// Inverting every bit turns the count of set bits into the count of clear
/// bits.
proof fn lemma_popcount_not(s: Seq<bool>, t: Seq<bool>)
    requires
        t.len() == s.len(),
        forall|i: int| 0 <= i < s.len() ==> #[trigger] t[i] == !s[i],
    ensures
        popcount(t) == s.len() - popcount(s),
    decreases s.len(),
{
    if s.len() > 0 {
        lemma_popcount_not(s.drop_last(), t.drop_last());
    }
}

/// The significant bits of the reversed vector are those above the trailing
/// zeros.
proof fn lemma_sig_bits_reverse(x: Seq<bool>)
    ensures
        sig_bits(x.reverse()) == x.len() - trailing_zero_count(x),
    decreases x.len(),
{
    if x.len() > 0 {
        let y = x.drop_first();
        lemma_sig_bits_reverse(y);
        assert(x.reverse().drop_last() =~= y.reverse());
        assert(x.reverse().last() == x[0]);
    }
}

/// The number of clear bits above the most significant set bit.
pub fn leading_zeros(x: &Vec<bool>) -> (r: Vec<bool>)
    requires
        x@.len() >= 1,
    ensures
        r@.len() >= 1,
        x@.len() < pow2(r@.len()),
        is_bit_width(r@.len() as nat, x@.len() as int),
        uval(r@) == x@.len() - sig_bits(x@),
{
    let tmp = tsmear(x);
    let tmp = bitwise_not(&tmp);
    let r = count_ones(&tmp);
    proof {
        let s = Seq::new(x@.len(), |i: int| any_set(x@, i, x@.len() as int));
        assert(s.len() == x@.len());
        lemma_popcount_smear(x@, s);
        lemma_popcount_not(s, tmp@);
    }
    r
}

/// The number of clear bits below the least significant set bit.
pub fn trailing_zeros(x: &Vec<bool>) -> (r: Vec<bool>)
    requires
        x@.len() >= 1,
    ensures
        r@.len() >= 1,
        x@.len() < pow2(r@.len()),
        is_bit_width(r@.len() as nat, x@.len() as int),
        uval(r@) == trailing_zero_count(x@),
{
    let tmp = reverse(x);
    let tmp = tsmear(&tmp);
    let tmp = bitwise_not(&tmp);
    let r = count_ones(&tmp);
    proof {
        let xr = x@.reverse();
        let s = Seq::new(xr.len(), |i: int| any_set(xr, i, xr.len() as int));
        lemma_popcount_smear(xr, s);
        lemma_popcount_not(s, tmp@);
        lemma_sig_bits_reverse(x@);
    }
    r
}

/// The number of significant bits.
pub fn significant_bits(x: &Vec<bool>) -> (r: Vec<bool>)
    requires
        x@.len() >= 1,
    ensures
        r@.len() >= 1,
        x@.len() < pow2(r@.len()),
        is_bit_width(r@.len() as nat, x@.len() as int),
        uval(r@) == sig_bits(x@),
{
    let tmp = tsmear(x);
    let r = count_ones(&tmp);
    proof {
        lemma_popcount_smear(x@, tmp@);
    }
    r
}

/// An input of a static lookup table: a bit whose value is known, or the
/// state of a bit whose value is not.
#[derive(Clone, Copy, Debug, PartialEq, Eq, Structural)]
pub enum LutInput {
    Known(bool),
    State(PState),
}

/// What a static lookup table comes down to once its known inputs are
/// folded in.
#[derive(Clone, Debug)]
pub enum StaticLut {
    /// A constant bit
    Literal(bool),
    /// A copy of one state
    Copy(PState),
    /// A table over the states, least significant input first
    Lut(Vec<PState>, Vec<bool>),
}

/// The input bits, with the states valued by `env`.
pub open spec fn input_values(inxs: Seq<LutInput>, env: spec_fn(PState) -> bool) -> Seq<bool> {
    Seq::new(
        inxs.len(),
        |k: int|
            match inxs[k] {
                LutInput::Known(b) => b,
                LutInput::State(p) => env(p),
            },
    )
}

/// The bit that `r` gives with the states valued by `env`.
pub open spec fn static_lut_eval(r: StaticLut, env: spec_fn(PState) -> bool) -> bool {
    match r {
        StaticLut::Literal(b) => b,
        StaticLut::Copy(p) => env(p),
        StaticLut::Lut(ps, t) => lut_eval(t@, Seq::new(ps@.len(), |k: int| env(ps@[k]))),
    }
}

/// Some setting of `n` inputs where flipping input `j` flips the output.
pub open spec fn depends_on(lut: Seq<bool>, n: nat, j: int) -> bool {
    exists|vals: Seq<bool>|
        vals.len() == n && #[trigger] lut_eval(lut, vals.update(j, true)) != lut_eval(lut, vals.update(j, false))
}

/// `lut` over `inxs` gives what `lut0` over `inxs0` gives, whatever the states
/// hold.
spec fn keeps_function(lut0: Seq<bool>, inxs0: Seq<LutInput>, lut: Seq<bool>, inxs: Seq<LutInput>) -> bool {
    forall|env: spec_fn(PState) -> bool|
        #[trigger] lut_eval(lut, input_values(inxs, env)) == lut_eval(lut0, input_values(inxs0, env))
}

/// A table that is not independent of input `i` depends on it.
pub(crate) proof fn lemma_depends_of_dependent(lut: Seq<bool>, n: nat, i: nat)
    requires
        is_lut(lut, n),
        i < n,
        !independent_of(lut, i),
    ensures
        depends_on(lut, n, i as int),
{
    lemma_pow2_unfold(n);
    lemma_pow2_adds_one_less(n, i);
    let k = choose|k: int|
        0 <= k < lut.len() / 2 && #[trigger] lut[insert_index(k, i, false)] != lut[insert_index(k, i, true)];
    let rest = bits_of(k, (n - 1) as nat);
    lemma_uval_bits_of(k, (n - 1) as nat);
    let vals = rest.insert(i as int, false);
    assert(vals.remove(i as int) =~= rest);
    lemma_input_index_update_remove(vals, i, true);
    lemma_input_index_update_remove(vals, i, false);
    assert(lut_eval(lut, vals.update(i as int, true)) != lut_eval(lut, vals.update(i as int, false)));
}

proof fn lemma_pow2_adds_one_less(n: nat, i: nat)
    requires
        i < n,
    ensures
        pow2(n) / 2 == pow2((n - 1) as nat),
{
    lemma_pow2_unfold(n);
}

/// Folding in an input that the table does not depend on keeps its
/// dependence on a later input.
pub(crate) proof fn lemma_depends_after_reduce(lut: Seq<bool>, n: nat, i: nat, j: int)
    requires
        is_lut(lut, n),
        i < j < n,
        independent_of(lut, i),
        depends_on(lut, n, j),
    ensures
        depends_on(reduced(lut, i, false), (n - 1) as nat, j - 1),
{
    let vals = choose|vals: Seq<bool>|
        vals.len() == n && #[trigger] lut_eval(lut, vals.update(j, true)) != lut_eval(lut, vals.update(j, false));
    let red = reduced(lut, i, false);
    let v2 = vals.remove(i as int);
    assert forall|b: bool| #[trigger] lut_eval(red, v2.update(j - 1, b)) == lut_eval(lut, vals.update(j, b)) by {
        law_independent_lut_eval(lut, vals.update(j, b), i);
        assert(vals.update(j, b).remove(i as int) =~= v2.update(j - 1, b));
    }
    assert(lut_eval(red, v2.update(j - 1, true)) != lut_eval(red, v2.update(j - 1, false)));
}

/// Builds a static lookup table: folds every known input into the table,
/// then drops the inputs that the table does not depend on. What is left is
/// a constant, a copy of one state, or a table that depends on each of its
/// states; whatever the states hold, it gives what the table gave over the
/// inputs.
pub fn create_static_lut(inxs: Vec<LutInput>, lut: Vec<bool>) -> (r: StaticLut)
    requires
        inxs@.len() <= 255,
        is_lut(lut@, inxs@.len()),
    ensures
        forall|env: spec_fn(PState) -> bool| #[trigger] static_lut_eval(r, env) == lut_eval(lut@, input_values(inxs@, env)),
        r matches StaticLut::Lut(ps, t) ==> ps@.len() >= 1 && is_lut(t@, ps@.len()) && !(ps@.len() == 1 && t@[1] && !t@[0])
            && forall|k: int| 0 <= k < ps@.len() ==> #[trigger] depends_on(t@, ps@.len(), k),
{
    let ghost lut0 = lut@;
    let ghost inxs0 = inxs@;
    let mut inxs = inxs;
    let mut lut = lut;
    // fold in every known input
    let mut i: usize = inxs.len();
    while i > 0
        invariant
            is_lut(lut@, inxs@.len()),
            i <= inxs@.len() <= 255,
            keeps_function(lut0, inxs0, lut@, inxs@),
            forall|k: int| i <= k < inxs@.len() ==> #[trigger] inxs@[k] is State,
        decreases i,
    {
        i = i - 1;
        if let LutInput::Known(bit) = inxs[i] {
            let ghost n = inxs@.len();
            let ghost l = lut@;
            let ghost old_inxs = inxs@;
            proof {
                lemma_lut_shape_of_inputs(n, i as nat);
            }
            inxs.remove(i);
            LNode::reduce_lut(&mut lut, i, bit);
            proof {
                assert forall|env: spec_fn(PState) -> bool|
                    #[trigger] lut_eval(lut@, input_values(inxs@, env)) == lut_eval(lut0, input_values(inxs0, env)) by {
                    let vals = input_values(old_inxs, env);
                    law_reduce_lut_eval(l, vals, i as nat, bit);
                    assert(input_values(inxs@, env) =~= vals.remove(i as int));
                    assert(vals.update(i as int, bit) =~= vals);
                    assert(lut_eval(l, input_values(old_inxs, env)) == lut_eval(lut0, input_values(inxs0, env)));
                }
                let bogus = |p: PState| false;
                law_reduce_lut_eval(l, input_values(old_inxs, bogus), i as nat, bit);
            }
        }
    }
    // drop the inputs that the table does not depend on, which also takes all
    // zero and all one tables down to a constant
    let mut i: usize = inxs.len();
    while i > 0
        invariant
            is_lut(lut@, inxs@.len()),
            i <= inxs@.len() <= 255,
            keeps_function(lut0, inxs0, lut@, inxs@),
            forall|k: int| 0 <= k < inxs@.len() ==> #[trigger] inxs@[k] is State,
            forall|k: int| i <= k < inxs@.len() ==> #[trigger] depends_on(lut@, inxs@.len() as nat, k),
        decreases i,
    {
        i = i - 1;
        let ghost n = inxs@.len();
        let ghost l = lut@;
        let ghost old_inxs = inxs@;
        proof {
            lemma_lut_shape_of_inputs(n, i as nat);
            lemma_pow2_unfold(n);
            lemma_pow2_pos((n - 1) as nat);
        }
        if lut.len() > 1 && LNode::reduce_independent_lut(&mut lut, i) {
            inxs.remove(i);
            proof {
                let bogus = |p: PState| false;
                law_independent_lut_eval(l, input_values(old_inxs, bogus), i as nat);
                law_reduce_lut_eval(l, input_values(old_inxs, bogus), i as nat, false);
                assert forall|env: spec_fn(PState) -> bool|
                    #[trigger] lut_eval(lut@, input_values(inxs@, env)) == lut_eval(lut0, input_values(inxs0, env)) by {
                    let vals = input_values(old_inxs, env);
                    law_independent_lut_eval(l, vals, i as nat);
                    assert(input_values(inxs@, env) =~= vals.remove(i as int));
                    assert(lut_eval(l, input_values(old_inxs, env)) == lut_eval(lut0, input_values(inxs0, env)));
                }
                assert forall|k: int| i <= k < inxs@.len() implies #[trigger] depends_on(lut@, inxs@.len() as nat, k) by {
                    assert(depends_on(l, n, k + 1));
                    lemma_depends_after_reduce(l, n, i as nat, k + 1);
                }
                assert forall|k: int| 0 <= k < inxs@.len() implies #[trigger] inxs@[k] is State by {
                    if k < i {
                        assert(inxs@[k] == old_inxs[k]);
                    } else {
                        assert(inxs@[k] == old_inxs[k + 1]);
                    }
                }
            }
        } else {
            proof {
                if l.len() > 1 {
                    lemma_depends_of_dependent(l, n, i as nat);
                }
            }
        }
    }
    let n = inxs.len();
    proof {
        lemma2_to64();
        if n > 0 {
            lemma_pow2_unfold(n as nat);
            lemma_pow2_pos((n - 1) as nat);
        }
        if n > 1 {
            lemma_pow2_unfold((n - 1) as nat);
            lemma_pow2_pos((n - 2) as nat);
        }
    }
    if lut.len() == 1 {
        proof {
            assert forall|env: spec_fn(PState) -> bool| #[trigger] static_lut_eval(StaticLut::Literal(lut@[0]), env)
                == lut_eval(lut0, input_values(inxs0, env)) by {
                assert(input_values(inxs@, env) =~= Seq::<bool>::empty());
                assert(lut_eval(lut@, input_values(inxs@, env)) == lut_eval(lut0, input_values(inxs0, env)));
            }
        }
        StaticLut::Literal(lut[0])
    } else if lut.len() == 2 && lut[1] {
        // a table that copies its one input
        let p = match inxs[0] {
            LutInput::State(p) => p,
            LutInput::Known(b) => {
                proof {
                    assert(inxs@[0] is State);
                }
                PState { inx: 0, gen: 0 }
            },
        };
        proof {
            assert(depends_on(lut@, 1, 0));
            let vals = choose|vals: Seq<bool>|
                vals.len() == 1 && #[trigger] lut_eval(lut@, vals.update(0, true)) != lut_eval(lut@, vals.update(0, false));
            assert(vals.update(0, true) =~= seq![true]);
            assert(vals.update(0, false) =~= seq![false]);
            assert(seq![true].drop_first() =~= Seq::<bool>::empty());
            assert(seq![false].drop_first() =~= Seq::<bool>::empty());
            assert(input_index(Seq::<bool>::empty()) == 0);
            assert(input_index(seq![true]) == 1);
            assert(input_index(seq![false]) == 0);
            assert(!lut@[0]);
            assert forall|env: spec_fn(PState) -> bool| #[trigger] static_lut_eval(StaticLut::Copy(p), env)
                == lut_eval(lut0, input_values(inxs0, env)) by {
                let v = input_values(inxs@, env);
                assert(v =~= seq![env(p)]);
                assert(v.drop_first() =~= Seq::<bool>::empty());
                assert(lut_eval(lut@, input_values(inxs@, env)) == lut_eval(lut0, input_values(inxs0, env)));
            }
        }
        StaticLut::Copy(p)
    } else {
        let mut ps: Vec<PState> = Vec::new();
        let mut k: usize = 0;
        while k < n
            invariant
                n == inxs@.len(),
                forall|m: int| 0 <= m < n ==> #[trigger] inxs@[m] is State,
                k <= n,
                ps@.len() == k,
                forall|m: int| 0 <= m < k ==> inxs@[m] == LutInput::State(#[trigger] ps@[m]),
            decreases n - k,
        {
            match inxs[k] {
                LutInput::State(p) => ps.push(p),
                LutInput::Known(_) => {
                    proof {
                        assert(inxs@[k as int] is State);
                    }
                    ps.push(PState { inx: 0, gen: 0 });
                },
            }
            k = k + 1;
        }
        proof {
            assert forall|env: spec_fn(PState) -> bool| #[trigger] static_lut_eval(StaticLut::Lut(ps, lut), env)
                == lut_eval(lut0, input_values(inxs0, env)) by {
                assert(Seq::new(ps@.len(), |m: int| env(ps@[m])) =~= input_values(inxs@, env));
                assert(lut_eval(lut@, input_values(inxs@, env)) == lut_eval(lut0, input_values(inxs0, env)));
            }
        }
        StaticLut::Lut(ps, lut)
    }
}

/// The vector of width `w` holding `x`: truncated, or extended with copies of
/// the bit `signed`.
pub fn resize_cond(x: &Vec<bool>, w: usize, signed: &Vec<bool>) -> (r: Vec<bool>)
    requires
        x@.len() > 0,
        w > 0,
        signed@.len() == 1,
    ensures
        r@.len() == w,
        forall|k: int|
            0 <= k < w ==> #[trigger] r@[k] == if k < x@.len() {
                x@[k]
            } else {
                signed@[0]
            },
{
    let ext = signed[0];
    let mut r: Vec<bool> = Vec::new();
    let mut k: usize = 0;
    while k < w
        invariant
            signed@.len() == 1,
            ext == signed@[0],
            k <= w,
            r@.len() == k,
            forall|m: int|
                0 <= m < k ==> #[trigger] r@[m] == if m < x@.len() {
                    x@[m]
                } else {
                    ext
                },
        decreases w - k,
    {
        if k < x.len() {
            r.push(x[k]);
        } else {
            r.push(ext);
        }
        k = k + 1;
    }
    r
}

/// The selector's signals in one vector.
pub fn selector_awi(inx: &Vec<bool>, cap: Option<usize>) -> (r: Vec<bool>)
    requires
        cap is None ==> inx@.len() < usize::BITS - 1,
        cap matches Some(c) ==> 1 <= c <= pow2((usize::BITS - 1) as nat),
        cap matches Some(c) ==> (c <= 1 || c <= pow2(inx@.len())),
    ensures
        r@.len() == match cap {
            Some(c) => c as int,
            None => pow2(inx@.len()) as int,
        },
        forall|lb: nat|
            #[trigger] is_lb_ceil(lb, r@.len() as int) ==> lb <= inx@.len() && forall|i: int|
                0 <= i < r@.len() ==> #[trigger] r@[i] == (uval(inx@.take(lb as int)) == i),
{
    selector(inx, cap)
}

/// The trailing smear of an index in one vector.
pub fn tsmear_awi(inx: &Vec<bool>, num_signals: usize) -> (r: Vec<bool>)
    requires
        num_signals < pow2(inx@.len()),
    ensures
        r@.len() == num_signals,
        forall|lb: nat|
            is_bit_width(lb, num_signals as int) ==> forall|i: int|
                0 <= i < num_signals ==> #[trigger] r@[i] == (uval(inx@.take(lb as int)) > i),
{
    tsmear_inx(inx, num_signals)
}

/// Multiplexes whole inputs: output bit `i` is bit `i` of the input that
/// `inx` selects. The table behind each output bit has a power of two
/// entries, the least one that holds all the inputs; an index past the last
/// input selects a bit of unknown value.
pub fn general_mux(inputs: &Vec<Vec<bool>>, inx: &Vec<bool>) -> (r: Vec<bool>)
    requires
        1 <= inputs@.len() <= pow2((usize::BITS - 1) as nat),
        is_lb_ceil(inx@.len() as nat, inputs@.len() as int),
        forall|k: int| 0 <= k < inputs@.len() ==> #[trigger] inputs@[k]@.len() >= inputs@[0]@.len(),
        inputs@[0]@.len() >= 1,
    ensures
        r@.len() == inputs@[0]@.len(),
        uval(inx@) < inputs@.len() ==> forall|i: int| 0 <= i < r@.len() ==> #[trigger] r@[i] == inputs@[uval(inx@)]@[i],
{
    let num = inputs.len();
    let nzbw = inputs[0].len();
    proof {
        // the index fits in a `usize`
        lemma_pow2_pos(inx@.len() as nat);
        if inx@.len() >= usize::BITS {
            if inx@.len() > usize::BITS {
                vstd::arithmetic::power2::lemma_pow2_strictly_increases((usize::BITS - 1) as nat, (inx@.len() - 1) as nat);
            }
            assert(false);
        }
    }
    let v = bits_to_usize(inx);
    let mut r: Vec<bool> = Vec::new();
    let mut out_i: usize = 0;
    while out_i < nzbw
        invariant
            num == inputs@.len(),
            nzbw == inputs@[0]@.len(),
            forall|k: int| 0 <= k < inputs@.len() ==> #[trigger] inputs@[k]@.len() >= inputs@[0]@.len(),
            v == uval(inx@),
            out_i <= nzbw,
            r@.len() == out_i,
            v < num ==> forall|i: int| 0 <= i < out_i ==> #[trigger] r@[i] == inputs@[v as int]@[i],
        decreases nzbw - out_i,
    {
        // entry `v` of the table made of bit `out_i` of each input
        if v < num {
            r.push(inputs[v][out_i]);
        } else {
            r.push(false);
        }
        out_i = out_i + 1;
    }
    r
}

/// The weighted count of the bits in columns: each set bit of column `k`
/// counts `2^k`.
pub open spec fn column_value(m: Seq<Vec<bool>>) -> int
    decreases m.len(),
{
    if m.len() == 0 {
        0
    } else {
        column_value(m.drop_last()) + popcount(m.last()@) * pow2((m.len() - 1) as nat)
    }
}

/// The number of bits in the columns.
pub open spec fn column_bits(m: Seq<Vec<bool>>) -> nat
    decreases m.len(),
{
    if m.len() == 0 {
        0
    } else {
        column_bits(m.drop_last()) + m.last()@.len()
    }
}

/// Pushing a bit onto column `c` adds its weight.
proof fn lemma_column_push(m: Seq<Vec<bool>>, c: int, v: Vec<bool>, b: bool)
    requires
        0 <= c < m.len(),
        v@ == m[c]@.push(b),
    ensures
        column_value(m.update(c, v)) == column_value(m) + bit_val(b) * pow2(c as nat),
        column_bits(m.update(c, v)) == column_bits(m) + 1,
    decreases m.len(),
{
    let m2 = m.update(c, v);
    assert(v@.drop_last() =~= m[c]@);
    if c == m.len() - 1 {
        assert(m2.drop_last() =~= m.drop_last());
        assert(m2.last() == v);
        assert(v@.last() == b);
        assert(popcount(v@) == popcount(m[c]@) + bit_val(b));
        let p = pow2(c as nat) as int;
        assert((popcount(m[c]@) + bit_val(b)) * p == popcount(m[c]@) * p + bit_val(b) * p) by (nonlinear_arith);
    } else {
        lemma_column_push(m.drop_last(), c, v, b);
        assert(m2.drop_last() =~= m.drop_last().update(c, v));
    }
}

/// Columns that are all empty count nothing.
proof fn lemma_columns_empty(m: Seq<Vec<bool>>)
    requires
        forall|k: int| 0 <= k < m.len() ==> #[trigger] m[k]@.len() == 0,
    ensures
        column_value(m) == 0,
        column_bits(m) == 0,
    decreases m.len(),
{
    if m.len() > 0 {
        lemma_columns_empty(m.drop_last());
        assert(m.last()@ =~= Seq::<bool>::empty());
    }
}

/// The first `c + 1` columns are the first `c` and column `c`.
proof fn lemma_columns_take(m: Seq<Vec<bool>>, c: int)
    requires
        0 <= c < m.len(),
    ensures
        column_value(m.take(c + 1)) == column_value(m.take(c)) + popcount(m[c]@) * pow2(c as nat),
        column_bits(m.take(c + 1)) == column_bits(m.take(c)) + m[c]@.len(),
{
    assert(m.take(c + 1).drop_last() =~= m.take(c));
}

proof fn lemma_pow2_ge(k: nat)
    ensures
        pow2(k) >= k + 1,
        k >= 2 ==> pow2(k) >= k + 2,
    decreases k,
{
    lemma2_to64();
    if k > 0 {
        lemma_pow2_ge((k - 1) as nat);
        lemma_pow2_unfold(k);
    }
}

/// The count of `h >= 1` bits takes no more bits than it counts, and fewer
/// once there are three.
proof fn lemma_count_width(h: nat, w: nat)
    requires
        h >= 1,
        is_bit_width(w, h as int),
    ensures
        1 <= w <= h,
        h >= 3 ==> w < h,
{
    lemma2_to64();
    if w == 0 {
        assert(false);
    }
    lemma_pow2_ge((w - 1) as nat);
}

/// The value of a vector grows by the weight of a bit pushed on top.
pub(crate) proof fn lemma_uval_take_step(s: Seq<bool>, i: int)
    requires
        0 <= i < s.len(),
    ensures
        uval(s.take(i + 1)) == uval(s.take(i)) + bit_val(s[i]) * pow2(i as nat),
{
    assert(s.take(i + 1) =~= s.take(i).push(s[i]));
    lemma_uval_push(s.take(i), s[i]);
}

/// One partial product step of the multiplication: the bit `a * bj` of
/// weight `pi * pj` joins the columns.
proof fn lemma_partial_product_step(
    v_old: int,
    v_new: int,
    q_old: int,
    q_new: int,
    big_p: int,
    u: int,
    bj_sum: int,
    a_sum: int,
    a_sum_next: int,
    a: int,
    bj: int,
    pi: int,
    pj: int,
    bitv: int,
    pij: int,
)
    requires
        v_new + big_p * q_new == v_old + big_p * q_old + bitv * pij,
        bitv == a * bj,
        pij == pi * pj,
        a_sum_next == a_sum + a * pi,
        v_old + big_p * q_old == u * bj_sum + a_sum * bj * pj,
    ensures
        v_new + big_p * q_new == u * bj_sum + a_sum_next * bj * pj,
{
    assert(a_sum_next * bj * pj == a_sum * bj * pj + (a * bj) * (pi * pj)) by (nonlinear_arith)
        requires
            a_sum_next == a_sum + a * pi,
    ;
}

/// A bit of weight `2^e` past `2^w` counts `2^(e - w)` multiples of `2^w`.
proof fn lemma_drop_bit(q: int, bitv: int, w: nat, e: nat)
    requires
        w <= e,
    ensures
        pow2(w) * (q + bitv * pow2((e - w) as nat)) == pow2(w) * q + bitv * pow2(e),
{
    vstd::arithmetic::power2::lemma_pow2_adds(w, (e - w) as nat);
    let p = pow2(w) as int;
    let x = pow2((e - w) as nat) as int;
    assert(p * (q + bitv * x) == p * q + bitv * (p * x)) by (nonlinear_arith);
}

proof fn lemma_partial_row_done(u: int, bj: int, bjv: int, pj: int)
    ensures
        u * bj + u * bjv * pj == u * (bj + bjv * pj),
{
    assert(u * bj + u * bjv * pj == u * (bj + bjv * pj)) by (nonlinear_arith);
}

/// Pushes bit `b` onto column `c`.
fn push_column(m: &mut Vec<Vec<bool>>, c: usize, b: bool)
    requires
        c < old(m)@.len(),
    ensures
        final(m)@ == old(m)@.update(c as int, final(m)@[c as int]),
        final(m)@[c as int]@ == old(m)@[c as int]@.push(b),
{
    let mut col = m[c].clone();
    col.push(b);
    m.set(c, col);
}

/// `n` empty columns.
fn empty_columns(n: usize) -> (r: Vec<Vec<bool>>)
    ensures
        r@.len() == n,
        column_value(r@) == 0,
        column_bits(r@) == 0,
{
    let mut r: Vec<Vec<bool>> = Vec::new();
    let mut k: usize = 0;
    while k < n
        invariant
            k <= n,
            r@.len() == k,
            forall|m: int| 0 <= m < k ==> #[trigger] r@[m]@.len() == 0,
        decreases n - k,
    {
        r.push(Vec::new());
        k = k + 1;
    }
    proof {
        lemma_columns_empty(r@);
    }
    r
}

/// `add + lhs * rhs` in `out_w` bits, wrapping. Every partial product bit is
/// placed in the column of its weight, then each column's bits are counted
/// into the columns above it, over and over, until no column holds more than
/// two bits; the two rows left are summed with an adder.
pub fn mul_add(out_w: usize, add: Option<&Vec<bool>>, lhs: &Vec<bool>, rhs: &Vec<bool>) -> (r: Vec<bool>)
    requires
        out_w >= 1,
        lhs@.len() >= 1,
        rhs@.len() >= 1,
    ensures
        r@.len() == out_w,
        uval(r@) == (match add {
            Some(a) => uval(a@),
            None => 0,
        } + uval(lhs@) * uval(rhs@)) % (pow2(out_w as nat) as int),
{
    let ghost big_p = pow2(out_w as nat) as int;
    let ghost aval: int = match add {
        Some(a) => uval(a@),
        None => 0,
    };
    // make `rhs` the smaller side, so the columns are as short as can be
    let (lhs, rhs) = if lhs.len() < rhs.len() {
        (rhs, lhs)
    } else {
        (lhs, rhs)
    };
    let ghost target = aval + uval(lhs@) * uval(rhs@);
    proof {
        assert(uval(rhs@) * uval(lhs@) == uval(lhs@) * uval(rhs@)) by (nonlinear_arith);
        lemma_pow2_pos(out_w as nat);
    }
    let mut map0 = empty_columns(out_w);
    let ghost mut q: int = 0;
    // every partial product bit in the column of its weight
    let mut j: usize = 0;
    proof {
        lemma2_to64();
        assert(rhs@.take(0) =~= Seq::<bool>::empty());
    }
    while j < rhs.len()
        invariant
            map0@.len() == out_w,
            big_p == pow2(out_w as nat),
            column_value(map0@) + big_p * q == uval(lhs@) * uval(rhs@.take(j as int)),
            j <= rhs@.len(),
        decreases rhs@.len() - j,
    {
        let rhs_j = rhs[j];
        let mut i: usize = 0;
        proof {
            assert(lhs@.take(0) =~= Seq::<bool>::empty());
            assert(uval(lhs@.take(0)) == 0);
            assert(uval(lhs@.take(0)) * bit_val(rhs_j) * pow2(j as nat) == 0) by (nonlinear_arith)
                requires
                    uval(lhs@.take(0)) == 0,
            ;
        }
        while i < lhs.len()
            invariant
                map0@.len() == out_w,
                big_p == pow2(out_w as nat),
                j < rhs@.len(),
                rhs_j == rhs@[j as int],
                i <= lhs@.len(),
                column_value(map0@) + big_p * q == uval(lhs@) * uval(rhs@.take(j as int)) + uval(
                    lhs@.take(i as int),
                ) * bit_val(rhs_j) * pow2(j as nat),
            decreases lhs@.len() - i,
        {
            let bit = rhs_j && lhs[i];
            let ghost v_old = column_value(map0@);
            let ghost q_old = q;
            if j < out_w && i < out_w - j {
                let ghost old_m = map0@;
                push_column(&mut map0, i + j, bit);
                proof {
                    lemma_column_push(old_m, i + j, map0@[i + j], bit);
                }
            } else {
                // past the output width, the bit counts a multiple of `2^out_w`
                proof {
                    lemma_drop_bit(q, bit_val(bit), out_w as nat, (i + j) as nat);
                    q = q + bit_val(bit) * pow2((i + j - out_w) as nat);
                }
            }
            proof {
                lemma_uval_take_step(lhs@, i as int);
                vstd::arithmetic::power2::lemma_pow2_adds(i as nat, j as nat);
                assert(bit_val(bit) == bit_val(lhs@[i as int]) * bit_val(rhs_j));
                lemma_partial_product_step(
                    v_old,
                    column_value(map0@),
                    q_old,
                    q,
                    big_p,
                    uval(lhs@),
                    uval(rhs@.take(j as int)),
                    uval(lhs@.take(i as int)),
                    uval(lhs@.take(i + 1)),
                    bit_val(lhs@[i as int]),
                    bit_val(rhs_j),
                    pow2(i as nat) as int,
                    pow2(j as nat) as int,
                    bit_val(bit),
                    pow2((i + j) as nat) as int,
                );
            }
            i = i + 1;
        }
        proof {
            assert(lhs@.take(lhs@.len() as int) =~= lhs@);
            lemma_uval_take_step(rhs@, j as int);
            lemma_partial_row_done(uval(lhs@), uval(rhs@.take(j as int)), bit_val(rhs_j), pow2(j as nat) as int);
        }
        j = j + 1;
    }
    proof {
        assert(rhs@.take(rhs@.len() as int) =~= rhs@);
    }
    // the addend's bits in their columns
    match add {
        Some(a) => {
            let mut i: usize = 0;
            proof {
                assert(a@.take(0) =~= Seq::<bool>::empty());
            }
            while i < a.len()
                invariant
                    map0@.len() == out_w,
                    big_p == pow2(out_w as nat),
                    i <= a@.len(),
                    column_value(map0@) + big_p * q == uval(lhs@) * uval(rhs@) + uval(a@.take(i as int)),
                decreases a@.len() - i,
            {
                let bit = a[i];
                proof {
                    lemma_uval_take_step(a@, i as int);
                }
                if i < out_w {
                    let ghost old_m = map0@;
                    push_column(&mut map0, i, bit);
                    proof {
                        lemma_column_push(old_m, i as int, map0@[i as int], bit);
                    }
                } else {
                    proof {
                        lemma_drop_bit(q, bit_val(bit), out_w as nat, i as nat);
                        q = q + bit_val(bit) * pow2((i - out_w) as nat);
                    }
                }
                i = i + 1;
            }
            proof {
                assert(a@.take(a@.len() as int) =~= a@);
            }
        },
        None => {},
    }
    // Count the bits of every column into the columns above it, over and over.
    // This reduces very quickly, e.g. 65 -> 7 -> 3 -> 2.
    loop
        invariant
            map0@.len() == out_w,
            big_p == pow2(out_w as nat),
            big_p > 0,
            column_value(map0@) + big_p * q == target,
        ensures
            map0@.len() == out_w,
            column_value(map0@) + big_p * q == target,
            forall|k: int| 0 <= k < out_w ==> #[trigger] map0@[k]@.len() <= 2,
        decreases column_bits(map0@),
    {
        let mut gt2 = false;
        let ghost mut big: int = 0;
        let mut i: usize = 0;
        while i < out_w
            invariant
                map0@.len() == out_w,
                i <= out_w,
                !gt2 ==> forall|k: int| 0 <= k < i ==> #[trigger] map0@[k]@.len() <= 2,
                gt2 ==> 0 <= big < out_w && map0@[big]@.len() > 2,
            decreases out_w - i,
        {
            if map0[i].len() > 2 {
                gt2 = true;
                proof {
                    big = i as int;
                }
            }
            i = i + 1;
        }
        if !gt2 {
            // every column holds two bits or fewer: sum them with an adder
            break;
        }
        let mut map1 = empty_columns(out_w);
        let ghost mut q1: int = 0;
        let mut c: usize = 0;
        proof {
            assert(map0@.take(0) =~= Seq::<Vec<bool>>::empty());
        }
        while c < out_w
            invariant
                map0@.len() == out_w,
                map1@.len() == out_w,
                big_p == pow2(out_w as nat),
                0 <= big < out_w,
                map0@[big]@.len() > 2,
                c <= out_w,
                column_value(map1@) + big_p * q1 == column_value(map0@.take(c as int)),
                column_bits(map1@) <= column_bits(map0@.take(c as int)),
                c > big ==> column_bits(map1@) < column_bits(map0@.take(c as int)),
            decreases out_w - c,
        {
            let h = map0[c].len();
            proof {
                lemma_columns_take(map0@, c as int);
            }
            if h > 0 {
                let row = count_ones(&map0[c]);
                proof {
                    lemma_count_width(h as nat, row@.len() as nat);
                    assert(row@.take(0) =~= Seq::<bool>::empty());
                    lemma2_to64();
                }
                let ghost base_v = column_value(map0@.take(c as int));
                let ghost base_b = column_bits(map1@);
                let mut k: usize = 0;
                while k < row.len()
                    invariant
                        map1@.len() == out_w,
                        big_p == pow2(out_w as nat),
                        c < out_w,
                        k <= row@.len(),
                        column_value(map1@) + big_p * q1 == base_v + pow2(c as nat) * uval(row@.take(k as int)),
                        column_bits(map1@) <= base_b + k,
                    decreases row@.len() - k,
                {
                    let bit = row[k];
                    proof {
                        lemma_uval_take_step(row@, k as int);
                        vstd::arithmetic::power2::lemma_pow2_adds(c as nat, k as nat);
                        let pc = pow2(c as nat) as int;
                        let u = uval(row@.take(k as int));
                        assert(pc * (u + bit_val(bit) * pow2(k as nat)) == pc * u + bit_val(bit) * (pc * pow2(k as nat))) by (nonlinear_arith);
                    }
                    if k < out_w - c {
                        let ghost old_m = map1@;
                        push_column(&mut map1, c + k, bit);
                        proof {
                            lemma_column_push(old_m, c + k, map1@[c + k], bit);
                        }
                    } else {
                        proof {
                            lemma_drop_bit(q1, bit_val(bit), out_w as nat, (c + k) as nat);
                            q1 = q1 + bit_val(bit) * pow2((c + k - out_w) as nat);
                        }
                    }
                    k = k + 1;
                }
                proof {
                    assert(row@.take(row@.len() as int) =~= row@);
                    let pc = pow2(c as nat) as int;
                    assert(pc * popcount(map0@[c as int]@) == popcount(map0@[c as int]@) * pc) by (nonlinear_arith);
                }
            } else {
                proof {
                    assert(map0@[c as int]@ =~= Seq::<bool>::empty());
                    assert(popcount(map0@[c as int]@) == 0);
                    assert(popcount(map0@[c as int]@) * pow2(c as nat) == 0) by (nonlinear_arith)
                        requires
                            popcount(map0@[c as int]@) == 0,
                    ;
                }
            }
            c = c + 1;
        }
        proof {
            assert(map0@.take(out_w as int) =~= map0@);
            q = q + q1;
            assert(big_p * (q - q1) + big_p * q1 == big_p * q) by (nonlinear_arith);
            assert(column_bits(map1@) < column_bits(map0@));
        }
        map0 = map1;
    }
    // the two rows left, summed with a fast adder
    let mut out: Vec<bool> = Vec::new();
    let mut tmp: Vec<bool> = Vec::new();
    let mut i: usize = 0;
    proof {
        assert(map0@.take(0) =~= Seq::<Vec<bool>>::empty());
        lemma2_to64();
    }
    while i < out_w
        invariant
            map0@.len() == out_w,
            forall|k: int| 0 <= k < out_w ==> #[trigger] map0@[k]@.len() <= 2,
            i <= out_w,
            out@.len() == i,
            tmp@.len() == i,
            uval(out@) + uval(tmp@) == column_value(map0@.take(i as int)),
        decreases out_w - i,
    {
        let h = map0[i].len();
        let b0 = h >= 1 && map0[i][0];
        let b1 = h >= 2 && map0[i][1];
        proof {
            lemma_columns_take(map0@, i as int);
            lemma_uval_push(out@, b0);
            lemma_uval_push(tmp@, b1);
            let col = map0@[i as int]@;
            assert(popcount(Seq::<bool>::empty()) == 0);
            if h == 0 {
                assert(col =~= Seq::<bool>::empty());
            } else if h == 1 {
                assert(col.drop_last() =~= Seq::<bool>::empty());
            } else {
                assert(col.drop_last().drop_last() =~= Seq::<bool>::empty());
                assert(col.drop_last() =~= seq![col[0]]);
                assert(popcount(col.drop_last()) == bit_val(col[0]));
            }
            assert(popcount(col) == bit_val(b0) + bit_val(b1));
            let p = pow2(i as nat) as int;
            assert((bit_val(b0) + bit_val(b1)) * p == bit_val(b0) * p + bit_val(b1) * p) by (nonlinear_arith);
        }
        out.push(b0);
        tmp.push(b1);
        i = i + 1;
    }
    let no_carry = vec![false];
    let (sum, carry, _) = cin_sum(&no_carry, &out, &tmp);
    proof {
        assert(map0@.take(out_w as int) =~= map0@);
        assert(no_carry@[0] == false);
        lemma_input_index_range(sum@);
        let qq = q + bit_val(carry);
        assert(uval(out@) + uval(tmp@) == column_value(map0@));
        assert(column_value(map0@) + big_p * q == target);
        assert(bit_val(no_carry@[0]) == 0);
        assert(pow2(out@.len()) == big_p);
        assert(uval(sum@) + big_p * bit_val(carry) == uval(out@) + uval(tmp@));
        assert(uval(sum@) + big_p * bit_val(carry) + big_p * q == target);
        let c = bit_val(carry);
        let sv = uval(sum@);
        assert(target == qq * big_p + sv) by (nonlinear_arith)
            requires
                sv + big_p * c + big_p * q == target,
                qq == q + c,
        ;
        vstd::arithmetic::div_mod::lemma_fundamental_div_mod_converse(target, big_p, qq, uval(sum@));
    }
    sum
}

/// A vector of clear bits has value zero.
proof fn lemma_uval_zeros(s: Seq<bool>)
    requires
        forall|i: int| 0 <= i < s.len() ==> !(#[trigger] s[i]),
    ensures
        uval(s) == 0,
    decreases s.len(),
{
    if s.len() > 0 {
        lemma_uval_zeros(s.drop_first());
    }
}

/// Setting a clear bit `j` adds `2^j` to the value.
proof fn lemma_uval_set_bit(s: Seq<bool>, j: nat)
    requires
        j < s.len(),
        !s[j as int],
    ensures
        uval(s.update(j as int, true)) == uval(s) + pow2(j),
    decreases j,
{
    let u = s.update(j as int, true);
    lemma2_to64();
    if j == 0 {
        assert(u.drop_first() =~= s.drop_first());
    } else {
        lemma_uval_set_bit(s.drop_first(), (j - 1) as nat);
        assert(u.drop_first() =~= s.drop_first().update(j - 1, true));
        lemma_pow2_unfold(j);
    }
}

/// The value of the bitwise complement.
pub(crate) proof fn lemma_uval_not(s: Seq<bool>, t: Seq<bool>)
    requires
        t.len() == s.len(),
        forall|i: int| 0 <= i < s.len() ==> #[trigger] t[i] == !s[i],
    ensures
        uval(t) == pow2(s.len()) - 1 - uval(s),
    decreases s.len(),
{
    lemma2_to64();
    if s.len() > 0 {
        lemma_uval_not(s.drop_first(), t.drop_first());
        lemma_pow2_unfold(s.len());
    }
}

/// One step of long division: the remainder so far, shifted up, takes in the
/// next bit of the dividend.
proof fn lemma_division_step(p: int, d: int, v: int)
    requires
        p >= 0,
        v > 0,
        0 <= d <= 1,
    ensures
        (2 * p + d) / v == 2 * (p / v) + (if 2 * (p % v) + d >= v { 1int } else { 0int }),
        (2 * p + d) % v == 2 * (p % v) + d - (if 2 * (p % v) + d >= v { v } else { 0 }),
{
    vstd::arithmetic::div_mod::lemma_fundamental_div_mod(p, v);
    vstd::arithmetic::div_mod::lemma_mod_pos_bound(p, v);
    let q = p / v;
    let r = p % v;
    let c: int = if 2 * r + d >= v { 1 } else { 0 };
    assert(2 * p + d == (2 * q + c) * v + (2 * r + d - c * v)) by (nonlinear_arith)
        requires
            p == v * q + r,
    ;
    vstd::arithmetic::div_mod::lemma_fundamental_div_mod_converse(2 * p + d, v, 2 * q + c, 2 * r + d - c * v);
}

/// Unsigned division of two vectors of one width: the quotient and the
/// remainder, by shifting each bit of the dividend into a remainder and
/// subtracting the divisor wherever it fits. The divisor must not be zero.
pub fn division(duo: &Vec<bool>, div: &Vec<bool>) -> (r: (Vec<bool>, Vec<bool>))
    requires
        duo@.len() >= 1,
        div@.len() == duo@.len(),
        duo@.len() < usize::MAX,
    ensures
        r.0@.len() == duo@.len(),
        r.1@.len() == duo@.len(),
        uval(div@) != 0 ==> uval(r.0@) == uval(duo@) / uval(div@),
        uval(div@) != 0 ==> uval(r.1@) == uval(duo@) % uval(div@),
{
    let n = duo.len();
    let w = n + 1;
    let ghost dv = uval(duo@);
    let ghost v = uval(div@);
    // the divisor, one bit wider, and its complement for subtraction
    let wide_div = resize_zero(div, w);
    let not_div = bitwise_not(&wide_div);
    let carry_in = vec![true];
    proof {
        lemma_resize_value(div@, wide_div@, w as nat);
        lemma_input_index_range(div@);
        lemma_pow2_unfold(w as nat);
        lemma_pow2_pos(n as nat);
        vstd::arithmetic::div_mod::lemma_small_mod(v as nat, pow2(w as nat));
        lemma_uval_not(wide_div@, not_div@);
        lemma_input_index_range(duo@);
    }
    let mut quo = vec_of(false, n);
    let mut rem = vec_of(false, w);
    let mut k: usize = n;
    proof {
        lemma2_to64();
        lemma_uval_zeros(rem@);
        lemma_uval_zeros(quo@);
        vstd::arithmetic::div_mod::lemma_basic_div(dv, pow2(n as nat) as int);
        if v != 0 {
            vstd::arithmetic::div_mod::lemma_small_mod(0, v as nat);
            vstd::arithmetic::div_mod::lemma_basic_div(0, v);
            assert(0 * pow2(n as nat) == 0) by (nonlinear_arith);
        }
    }
    while k > 0
        invariant
            n == duo@.len(),
            w == n + 1,
            dv == uval(duo@),
            dv >= 0,
            v == uval(div@),
            uval(wide_div@) == v,
            uval(not_div@) == pow2(w as nat) - 1 - v,
            not_div@.len() == w,
            carry_in@.len() == 1,
            carry_in@[0],
            quo@.len() == n,
            rem@.len() == w,
            0 <= v < pow2(n as nat),
            pow2(w as nat) == 2 * pow2(n as nat),
            k <= n,
            forall|j: int| 0 <= j < k ==> !(#[trigger] quo@[j]),
            v != 0 ==> uval(rem@) == (dv / (pow2(k as nat) as int)) % v,
            v != 0 ==> uval(quo@) == (dv / (pow2(k as nat) as int)) / v * pow2(k as nat),
        decreases k,
    {
        k = k - 1;
        let ghost p = dv / (pow2(k as nat + 1) as int);
        let ghost d = bit_val(duo@[k as int]);
        // shift the remainder up, taking in the next bit of the dividend
        let mut shifted: Vec<bool> = Vec::new();
        shifted.push(duo[k]);
        let mut m: usize = 0;
        while m < n
            invariant
                w == n + 1,
                rem@.len() == w,
                m <= n,
                shifted@.len() == m + 1,
                shifted@[0] == duo@[k as int],
                forall|t: int| 1 <= t <= m ==> #[trigger] shifted@[t] == rem@[t - 1],
            decreases n - m,
        {
            shifted.push(rem[m]);
            m = m + 1;
        }
        let (diff, fits, _) = cin_sum(&carry_in, &shifted, &not_div);
        proof {
            lemma_pow2_pos(k as nat);
            lemma_pow2_pos(k as nat + 1);
            vstd::arithmetic::div_mod::lemma_div_pos_is_pos(dv, pow2(k as nat + 1) as int);
            lemma_div_step(dv, k as nat);
            assert(shifted@ =~= seq![duo@[k as int]] + rem@.take(n as int));
            assert(shifted@.drop_first() =~= rem@.take(n as int));
            lemma_uval_take(rem@, n as nat);
            if v != 0 {
                vstd::arithmetic::div_mod::lemma_mod_pos_bound(p, v);
                vstd::arithmetic::div_mod::lemma_small_mod(uval(rem@) as nat, pow2(n as nat));
                assert(uval(shifted@) == d + 2 * uval(rem@));
                lemma_division_step(p, d, v);
                lemma_uval_bit(duo@, k as nat);
                lemma_mod2_cases(dv / (pow2(k as nat) as int));
                assert(dv / (pow2(k as nat) as int) == 2 * p + d);
                lemma_input_index_range(diff@);
            }
        }
        if fits {
            rem = diff;
            proof {
                lemma_uval_set_bit(quo@, k as nat);
            }
            quo.set(k, true);
        } else {
            rem = shifted;
        }
        proof {
            if v != 0 {
                let q0 = p / v;
                let c: int = if 2 * (p % v) + d >= v { 1 } else { 0 };
                assert(fits == (c == 1)) by {
                    lemma_input_index_range(diff@);
                    lemma_input_index_range(shifted@);
                    assert(pow2(w as nat) * bit_val(fits) == if fits { pow2(w as nat) as int } else { 0 }) by (nonlinear_arith);
                    if fits {
                        assert(uval(diff@) + pow2(w as nat) == uval(shifted@) + pow2(w as nat) - v);
                    } else {
                        assert(uval(diff@) == uval(shifted@) + pow2(w as nat) - v);
                    }
                }
                assert((dv / (pow2(k as nat) as int)) % v == 2 * (p % v) + d - (if c == 1 { v } else { 0 }));
                if fits {
                    assert(uval(rem@) == uval(diff@));
                    assert(uval(diff@) == uval(shifted@) - v) by {
                        assert(pow2(w as nat) * bit_val(fits) == pow2(w as nat) as int) by (nonlinear_arith)
                            requires
                                bit_val(fits) == 1,
                        ;
                    }
                } else {
                    assert(uval(rem@) == uval(shifted@));
                }
                assert(uval(rem@) == (dv / (pow2(k as nat) as int)) % v);
                let old_quo = (p / v) * pow2(k as nat + 1);
                lemma_pow2_unfold(k as nat + 1);
                assert(old_quo == (2 * q0) * pow2(k as nat)) by (nonlinear_arith)
                    requires
                        old_quo == q0 * pow2(k as nat + 1),
                        pow2(k as nat + 1) == 2 * pow2(k as nat),
                ;
                assert((2 * q0 + c) * pow2(k as nat) == (2 * q0) * pow2(k as nat) + c * pow2(k as nat)) by (nonlinear_arith);
            }
        }
    }
    proof {
        lemma2_to64();
        if v != 0 {
            vstd::arithmetic::div_mod::lemma_mod_pos_bound(dv, v);
            assert(dv / (pow2(0) as int) == dv);
            assert((dv / v) * pow2(0) == dv / v);
            vstd::arithmetic::div_mod::lemma_small_mod(uval(rem@) as nat, pow2(n as nat));
        }
    }
    let small_rem = resize_zero(&rem, n);
    proof {
        lemma_resize_value(rem@, small_rem@, n as nat);
    }
    (quo, small_rem)
}

} // verus!
