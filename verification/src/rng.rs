//! A deterministic pseudo random number generator that hands out its output
//! down to single bits.

use vstd::prelude::*;
use vstd::arithmetic::power2::{pow2, lemma2_to64, lemma2_to64_rest, lemma_pow2_unfold};
use crate::lut::{index_bit, lemma_input_index_range};
use crate::meta::uval;
use crate::stream::{XoshiroStream, xoshiro_word, stream_new, stream_next};

verus! {

/// Bit `p` of the stream of the generator seeded with `seed`: its words one
/// after another, each from its least significant bit up.
pub open spec fn stream_bit(seed: u64, p: nat) -> bool {
    index_bit(xoshiro_word(seed, p / 64) as int, p % 64)
}

/// The `w` bits of the stream from bit `p` on.
pub open spec fn stream_bits(seed: u64, p: nat, w: nat) -> Seq<bool> {
    Seq::new(w, |k: int| stream_bit(seed, (p + k) as nat))
}

/// The value of the `w` bits of the stream from bit `p` on, the first of
/// them least significant.
pub open spec fn stream_value(seed: u64, p: nat, w: nat) -> int {
    uval(stream_bits(seed, p, w))
}

/// How many random bits `StarRng::index` draws for an index below `len`.
pub open spec fn index_width(len: usize) -> nat {
    if len <= 255 {
        16
    } else if len <= 65535 {
        32
    } else {
        64
    }
}

/// The index below `len` that `StarRng::index` makes of the stream from bit
/// `p` on.
pub open spec fn stream_index(seed: u64, p: nat, len: usize) -> int {
    ((stream_value(seed, p, index_width(len)) as usize) as int) % (len as int)
}

/// `x` with `pad` XORed into it if `b0`, else ORed into it if `b1`, else
/// ANDed into it.
pub open spec fn fuzz_apply(x: Seq<bool>, pad: Seq<bool>, b0: bool, b1: bool) -> Seq<bool> {
    Seq::new(
        x.len(),
        |k: int|
            if b0 {
                x[k] != pad[k]
            } else if b1 {
                x[k] || pad[k]
            } else {
                x[k] && pad[k]
            },
    )
}

/// Bit `k` of a run of ones from `r0` up in `w` bits, rotated up by `r1`.
pub open spec fn fuzz_pad(w: int, r0: int, r1: int, k: int) -> bool {
    (k + (w - r1)) % w >= r0
}

/// `pad` is the run of ones from `r0` up, rotated up by `r1`.
pub open spec fn is_fuzz_pad(pad: Seq<bool>, r0: int, r1: int) -> bool {
    forall|k: int| 0 <= k < pad.len() ==> #[trigger] pad[k] == fuzz_pad(pad.len() as int, r0, r1, k)
}

/// The value of `s`, for at most 64 bits.
fn bits_to_u64(s: &Vec<bool>) -> (r: u64)
    requires
        s@.len() <= 64,
    ensures
        r == uval(s@),
{
    let mut v: u64 = 0;
    let mut k: usize = s.len();
    proof {
        lemma2_to64();
        lemma2_to64_rest();
        assert(s@.subrange(k as int, s@.len() as int) =~= Seq::<bool>::empty());
    }
    while k > 0
        invariant
            k <= s@.len() <= 64,
            v == uval(s@.subrange(k as int, s@.len() as int)),
            0 <= v < pow2((s@.len() - k) as nat),
        decreases k,
    {
        k = k - 1;
        proof {
            let sub = s@.subrange(k as int, s@.len() as int);
            assert(sub.drop_first() =~= s@.subrange(k + 1, s@.len() as int));
            lemma_pow2_unfold((s@.len() - k) as nat);
            lemma2_to64_rest();
            if s@.len() - k < 64 {
                vstd::arithmetic::power2::lemma_pow2_strictly_increases((s@.len() - k) as nat, 64);
            }
        }
        v = 2 * v + (if s[k] { 1 } else { 0 });
    }
    assert(s@.subrange(0, s@.len() as int) =~= s@);
    v
}

/// The value of `s`, for at most 128 bits.
fn bits_to_u128(s: &Vec<bool>) -> (r: u128)
    requires
        s@.len() <= 128,
    ensures
        r == uval(s@),
{
    let mut v: u128 = 0;
    let mut k: usize = s.len();
    proof {
        lemma2_to64();
        assert(s@.subrange(k as int, s@.len() as int) =~= Seq::<bool>::empty());
    }
    while k > 0
        invariant
            k <= s@.len() <= 128,
            v == uval(s@.subrange(k as int, s@.len() as int)),
            0 <= v < pow2((s@.len() - k) as nat),
        decreases k,
    {
        k = k - 1;
        proof {
            let sub = s@.subrange(k as int, s@.len() as int);
            assert(sub.drop_first() =~= s@.subrange(k + 1, s@.len() as int));
            lemma_pow2_unfold((s@.len() - k) as nat);
            vstd::arithmetic::power2::lemma_pow2_adds(64, 64);
            lemma2_to64_rest();
            assert(pow2(128) == 0x1_0000_0000_0000_0000 * 0x1_0000_0000_0000_0000) by (nonlinear_arith)
                requires
                    pow2(128) == pow2(64) * pow2(64),
                    pow2(64) == 0x1_0000_0000_0000_0000,
            ;
            if s@.len() - k < 128 {
                vstd::arithmetic::power2::lemma_pow2_strictly_increases((s@.len() - k) as nat, 128);
            }
        }
        v = 2 * v + (if s[k] { 1 } else { 0 });
    }
    assert(s@.subrange(0, s@.len() as int) =~= s@);
    v
}

/// A generator and the word of it being handed out.
struct Buffered {
    rng: XoshiroStream,
    buf: u64,
}

impl Buffered {
    /// The buffer holds the last word drawn.
    spec fn holds_last(&self) -> bool {
        &&& self.rng.count() >= 1
        &&& self.buf == xoshiro_word(self.rng.seed(), (self.rng.count() - 1) as nat)
    }
}

/// Draws the next word into the buffer.
fn refill(b: &mut Buffered)
    ensures
        final(b).holds_last(),
        final(b).rng.seed() == old(b).rng.seed(),
        final(b).rng.count() == old(b).rng.count() + 1,
    no_unwind
{
    b.buf = stream_next(&mut b.rng);
}

/// Wraps a `Xoshiro128StarStar`, buffering its output down to the bit level.
/// It hands out the stream of the seeded generator bit by bit, each bit
/// once, in order.
pub struct StarRng {
    src: Buffered,
    used: u8,
}

impl StarRng {
    /// Fewer than all 64 bits of the buffer, the last word drawn, have been
    /// handed out.
    #[verifier::type_invariant]
    spec fn wf(&self) -> bool {
        &&& self.used < 64
        &&& self.src.holds_last()
    }

    /// The seed.
    pub closed spec fn seed(&self) -> u64 {
        self.src.rng.seed()
    }

    /// How many bits of the stream have been handed out.
    pub closed spec fn pos(&self) -> nat {
        (64 * (self.src.rng.count() - 1) + self.used) as nat
    }

    /// Creates a new `StarRng` with the given seed.
    pub fn new(seed: u64) -> (r: Self)
        ensures
            r.seed() == seed,
            r.pos() == 0,
    {
        let mut rng = stream_new(seed);
        let buf = stream_next(&mut rng);
        StarRng { src: Buffered { rng, buf }, used: 0 }
    }

    /// Returns a random boolean: the next bit of the stream.
    pub fn next_bool(&mut self) -> (r: bool)
        ensures
            r == stream_bit(old(self).seed(), old(self).pos()),
            final(self).seed() == old(self).seed(),
            final(self).pos() == old(self).pos() + 1,
    {
        proof {
            use_type_invariant(&*self);
        }
        let used = self.used;
        let b = self.src.buf;
        proof {
            vstd::bits::lemma_u64_shr_is_div(b, used as u64);
            let y = b >> (used as u64);
            assert(((y & 1u64) == 1u64) == (y % 2 == 1)) by (bit_vector);
            vstd::bits::lemma_u64_pow2_no_overflow(used as nat);
            let c = (self.src.rng.count() - 1) as nat;
            vstd::arithmetic::div_mod::lemma_fundamental_div_mod_converse(
                (64 * c + used) as int,
                64,
                c as int,
                used as int,
            );
        }
        let res = ((b >> (used as u64)) & 1u64) == 1u64;
        if used + 1 >= 64 {
            refill(&mut self.src);
            self.used = 0;
        } else {
            self.used = used + 1;
        }
        proof {
            use_type_invariant(&*self);
        }
        res
    }

    /// Assigns random bits to all of `bits`, the next ones of the stream.
    pub fn next_bits(&mut self, bits: &mut Vec<bool>)
        ensures
            final(bits)@ == stream_bits(old(self).seed(), old(self).pos(), old(bits)@.len()),
            final(self).seed() == old(self).seed(),
            final(self).pos() == old(self).pos() + old(bits)@.len(),
    {
        let n = bits.len();
        let ghost seed = self.seed();
        let ghost p = self.pos();
        let mut i: usize = 0;
        while i < n
            invariant
                n == bits@.len(),
                i <= n,
                self.seed() == seed,
                self.pos() == p + i,
                forall|k: int| 0 <= k < i ==> #[trigger] bits@[k] == stream_bit(seed, (p + k) as nat),
            decreases n - i,
        {
            let b = self.next_bool();
            bits.set(i, b);
            i = i + 1;
        }
        proof {
            assert(bits@ =~= stream_bits(seed, p, n as nat));
        }
    }

    /// `w` random bits, the next ones of the stream, as a value below `2^w`.
    fn next_word(&mut self, w: usize) -> (r: u64)
        requires
            1 <= w <= 64,
        ensures
            r == stream_value(old(self).seed(), old(self).pos(), w as nat),
            r < pow2(w as nat),
            final(self).seed() == old(self).seed(),
            final(self).pos() == old(self).pos() + w,
    {
        let mut bits: Vec<bool> = Vec::new();
        let mut k: usize = 0;
        while k < w
            invariant
                k <= w,
                bits@.len() == k,
            decreases w - k,
        {
            bits.push(false);
            k = k + 1;
        }
        self.next_bits(&mut bits);
        proof {
            lemma_input_index_range(bits@);
        }
        bits_to_u64(&bits)
    }

    /// Returns a random `u8`, the next 8 bits of the stream.
    pub fn next_u8(&mut self) -> (r: u8)
        ensures
            r == stream_value(old(self).seed(), old(self).pos(), 8),
            final(self).seed() == old(self).seed(),
            final(self).pos() == old(self).pos() + 8,
    {
        proof {
            lemma2_to64();
        }
        self.next_word(8) as u8
    }

    /// Returns a random `u16`, the next 16 bits of the stream.
    pub fn next_u16(&mut self) -> (r: u16)
        ensures
            r == stream_value(old(self).seed(), old(self).pos(), 16),
            final(self).seed() == old(self).seed(),
            final(self).pos() == old(self).pos() + 16,
    {
        proof {
            lemma2_to64();
        }
        self.next_word(16) as u16
    }

    /// Returns a random `u32`, the next 32 bits of the stream.
    pub fn next_u32(&mut self) -> (r: u32)
        ensures
            r == stream_value(old(self).seed(), old(self).pos(), 32),
            final(self).seed() == old(self).seed(),
            final(self).pos() == old(self).pos() + 32,
    {
        proof {
            lemma2_to64();
        }
        self.next_word(32) as u32
    }

    /// Returns a random `u64`, the next 64 bits of the stream.
    pub fn next_u64(&mut self) -> (r: u64)
        ensures
            r == stream_value(old(self).seed(), old(self).pos(), 64),
            final(self).seed() == old(self).seed(),
            final(self).pos() == old(self).pos() + 64,
    {
        self.next_word(64)
    }

    /// Returns a random `u128`, the next 128 bits of the stream.
    pub fn next_u128(&mut self) -> (r: u128)
        ensures
            r == stream_value(old(self).seed(), old(self).pos(), 128),
            final(self).seed() == old(self).seed(),
            final(self).pos() == old(self).pos() + 128,
    {
        let mut bits: Vec<bool> = Vec::new();
        let mut k: usize = 0;
        while k < 128
            invariant
                k <= 128,
                bits@.len() == k,
            decreases 128 - k,
        {
            bits.push(false);
            k = k + 1;
        }
        self.next_bits(&mut bits);
        bits_to_u128(&bits)
    }

    /// Fills `dest` with random bytes, one `next_u8` after another.
    pub fn fill_bytes(&mut self, dest: &mut [u8])
        ensures
            final(dest)@.len() == old(dest)@.len(),
            forall|k: int|
                0 <= k < old(dest)@.len() ==> #[trigger] final(dest)@[k] == stream_value(
                    old(self).seed(),
                    (old(self).pos() + 8 * k) as nat,
                    8,
                ),
            final(self).seed() == old(self).seed(),
            final(self).pos() == old(self).pos() + 8 * old(dest)@.len(),
    {
        let n = dest.len();
        let ghost seed = self.seed();
        let ghost p = self.pos();
        let mut i: usize = 0;
        while i < n
            invariant
                i <= n == dest@.len(),
                self.seed() == seed,
                self.pos() == p + 8 * i,
                forall|k: int| 0 <= k < i ==> #[trigger] dest@[k] == stream_value(seed, (p + 8 * k) as nat, 8),
            decreases n - i,
        {
            let b = self.next_u8();
            dest[i] = b;
            i = i + 1;
        }
    }

    /// A chance of `num` out of `max = 2^bw`: false for zero, true from `max`
    /// up (drawing nothing), and otherwise whether `num` exceeds the next
    /// `bw` bits.
    fn out_of(&mut self, num: u8, max: u8, bw: usize) -> (r: bool)
        requires
            1 <= bw <= 7,
            max == pow2(bw as nat),
        ensures
            r == chance(num as int, max as int, stream_value(old(self).seed(), old(self).pos(), bw as nat)),
            final(self).seed() == old(self).seed(),
            final(self).pos() == old(self).pos() + if 0 < num < max { bw as nat } else { 0 },
    {
        if num == 0 {
            false
        } else if num >= max {
            true
        } else {
            let v = self.next_word(bw);
            num as u64 > v
        }
    }

    /// A chance of `num` out of 4. If `num` is zero, it always returns
    /// `false`; from 4 up, it always returns `true`.
    pub fn out_of_4(&mut self, num: u8) -> (r: bool)
        ensures
            r == chance(num as int, 4, stream_value(old(self).seed(), old(self).pos(), 2)),
            final(self).seed() == old(self).seed(),
            final(self).pos() == old(self).pos() + if 0 < num < 4 { 2nat } else { 0 },
    {
        proof {
            lemma2_to64();
        }
        self.out_of(num, 4, 2)
    }

    /// A chance of `num` out of 8. If `num` is zero, it always returns
    /// `false`; from 8 up, it always returns `true`.
    pub fn out_of_8(&mut self, num: u8) -> (r: bool)
        ensures
            r == chance(num as int, 8, stream_value(old(self).seed(), old(self).pos(), 3)),
            final(self).seed() == old(self).seed(),
            final(self).pos() == old(self).pos() + if 0 < num < 8 { 3nat } else { 0 },
    {
        proof {
            lemma2_to64();
        }
        self.out_of(num, 8, 3)
    }

    /// A chance of `num` out of 16. If `num` is zero, it always returns
    /// `false`; from 16 up, it always returns `true`.
    pub fn out_of_16(&mut self, num: u8) -> (r: bool)
        ensures
            r == chance(num as int, 16, stream_value(old(self).seed(), old(self).pos(), 4)),
            final(self).seed() == old(self).seed(),
            final(self).pos() == old(self).pos() + if 0 < num < 16 { 4nat } else { 0 },
    {
        proof {
            lemma2_to64();
        }
        self.out_of(num, 16, 4)
    }

    /// A chance of `num` out of 32. If `num` is zero, it always returns
    /// `false`; from 32 up, it always returns `true`.
    pub fn out_of_32(&mut self, num: u8) -> (r: bool)
        ensures
            r == chance(num as int, 32, stream_value(old(self).seed(), old(self).pos(), 5)),
            final(self).seed() == old(self).seed(),
            final(self).pos() == old(self).pos() + if 0 < num < 32 { 5nat } else { 0 },
    {
        proof {
            lemma2_to64();
        }
        self.out_of(num, 32, 5)
    }

    /// A chance of `num` out of 64. If `num` is zero, it always returns
    /// `false`; from 64 up, it always returns `true`.
    pub fn out_of_64(&mut self, num: u8) -> (r: bool)
        ensures
            r == chance(num as int, 64, stream_value(old(self).seed(), old(self).pos(), 6)),
            final(self).seed() == old(self).seed(),
            final(self).pos() == old(self).pos() + if 0 < num < 64 { 6nat } else { 0 },
    {
        proof {
            lemma2_to64();
        }
        self.out_of(num, 64, 6)
    }

    /// A chance of `num` out of 128. If `num` is zero, it always returns
    /// `false`; from 128 up, it always returns `true`.
    pub fn out_of_128(&mut self, num: u8) -> (r: bool)
        ensures
            r == chance(num as int, 128, stream_value(old(self).seed(), old(self).pos(), 7)),
            final(self).seed() == old(self).seed(),
            final(self).pos() == old(self).pos() + if 0 < num < 128 { 7nat } else { 0 },
    {
        proof {
            lemma2_to64();
        }
        self.out_of(num, 128, 7)
    }

    /// A chance of `num` out of 256. If `num` is zero, it always returns
    /// `false`.
    pub fn out_of_256(&mut self, num: u8) -> (r: bool)
        ensures
            r == chance(num as int, 256, stream_value(old(self).seed(), old(self).pos(), 8)),
            final(self).seed() == old(self).seed(),
            final(self).pos() == old(self).pos() + if 0 < num { 8nat } else { 0 },
    {
        if num == 0 {
            false
        } else {
            let v = self.next_u8();
            num > v
        }
    }

    /// Returns a random index below `len`, `None` if `len == 0`.
    pub fn index(&mut self, len: usize) -> (r: Option<usize>)
        ensures
            len == 0 <==> r is None,
            r matches Some(i) ==> i < len && i == stream_index(old(self).seed(), old(self).pos(), len),
            final(self).seed() == old(self).seed(),
            final(self).pos() == old(self).pos() + if len == 0 { 0 } else { index_width(len) },
    {
        if len == 0 {
            None
        } else if len <= 255 {
            let inx = self.next_u16();
            Some((inx as usize) % len)
        } else if len <= 65535 {
            let inx = self.next_u32();
            Some((inx as usize) % len)
        } else {
            let inx = self.next_u64();
            Some((inx as usize) % len)
        }
    }

    /// A random entry of `slice`, `None` if it is empty.
    pub fn index_slice<'a, T>(&mut self, slice: &'a [T]) -> (r: Option<&'a T>)
        ensures
            slice@.len() == 0 <==> r is None,
            r matches Some(x) ==> *x == slice@[stream_index(old(self).seed(), old(self).pos(), slice@.len() as usize)],
            final(self).seed() == old(self).seed(),
            final(self).pos() == old(self).pos() + if slice@.len() == 0 { 0 } else { index_width(slice@.len() as usize) },
    {
        match self.index(slice.len()) {
            None => None,
            Some(inx) => Some(&slice[inx]),
        }
    }

    /// A random entry of `slice` to change, `None` if it is empty.
    pub fn index_slice_mut<'a, T>(&mut self, slice: &'a mut [T]) -> (r: Option<&'a mut T>)
        ensures
            old(slice)@.len() == 0 <==> r is None,
            r is None ==> final(slice)@ == old(slice)@,
            r matches Some(x) ==> {
                let i = stream_index(old(self).seed(), old(self).pos(), old(slice)@.len() as usize);
                *x == old(slice)@[i] && final(slice)@ == old(slice)@.update(i, *final(x))
            },
            final(self).seed() == old(self).seed(),
            final(self).pos() == old(self).pos() + if old(slice)@.len() == 0 {
                0
            } else {
                index_width(old(slice)@.len() as usize)
            },
    {
        match self.index(slice.len()) {
            None => None,
            Some(inx) => Some(&mut slice[inx]),
        }
    }

    /// One step of a fuzzer: a run of ones of random width, rotated by a
    /// random amount, is XORed (half the time), ORed or ANDed (a quarter of
    /// the time each) into `x`; `pad` is left holding the run. Random length
    /// strings of ones and zeros probe a structured space quickly even for
    /// wide `x`. The run starts at the first index drawn and is rotated up by
    /// the second; then a first bit drawn set means XOR, else a second bit
    /// drawn set means OR, else AND.
    pub fn linear_fuzz_step(&mut self, x: &mut Vec<bool>, pad: &mut Vec<bool>)
        requires
            old(x)@.len() >= 1,
            old(pad)@.len() == old(x)@.len(),
        ensures
            ({
                let seed = old(self).seed();
                let p = old(self).pos();
                let w = old(x)@.len() as usize;
                let iw = index_width(w);
                let r0 = stream_index(seed, p, w);
                let r1 = stream_index(seed, p + iw, w);
                let b0 = stream_bit(seed, p + 2 * iw);
                let b1 = stream_bit(seed, p + 2 * iw + 1);
                &&& final(pad)@.len() == w
                &&& is_fuzz_pad(final(pad)@, r0, r1)
                &&& final(x)@ == fuzz_apply(old(x)@, final(pad)@, b0, b1)
                &&& final(self).seed() == seed
                &&& final(self).pos() == p + 2 * iw + if b0 { 1nat } else { 2nat }
            }),
    {
        let w = x.len();
        let ghost seed = self.seed();
        let ghost p = self.pos();
        let r0 = match self.index(w) {
            Some(i) => i,
            None => 0,
        };
        let r1 = match self.index(w) {
            Some(i) => i,
            None => 0,
        };
        // all ones, shifted up by `r0`, rotated up by `r1`
        let mut k: usize = 0;
        while k < w
            invariant
                w == x@.len(),
                pad@.len() == w,
                r0 < w,
                r1 < w,
                k <= w,
                forall|m: int| 0 <= m < k ==> #[trigger] pad@[m] == fuzz_pad(w as int, r0 as int, r1 as int, m),
            decreases w - k,
        {
            let t = if k >= r1 {
                k - r1
            } else {
                k + (w - r1)
            };
            proof {
                if k >= r1 {
                    vstd::arithmetic::div_mod::lemma_fundamental_div_mod_converse(k + (w - r1), w as int, 1, t as int);
                } else {
                    vstd::arithmetic::div_mod::lemma_fundamental_div_mod_converse(k + (w - r1), w as int, 0, t as int);
                }
            }
            pad.set(k, t >= r0);
            k = k + 1;
        }
        proof {
            assert(is_fuzz_pad(pad@, r0 as int, r1 as int));
        }
        let ghost x0 = x@;
        let b0 = self.next_bool();
        let b1 = if b0 {
            false
        } else {
            self.next_bool()
        };
        let mut k: usize = 0;
        while k < w
            invariant
                w == x@.len(),
                x0.len() == w,
                pad@.len() == w,
                k <= w,
                forall|m: int| k <= m < w ==> #[trigger] x@[m] == x0[m],
                forall|m: int| 0 <= m < k ==> #[trigger] x@[m] == fuzz_apply(x0, pad@, b0, b1)[m],
            decreases w - k,
        {
            let a = x[k];
            let b = pad[k];
            x.set(k, if b0 { a != b } else if b1 { a || b } else { a && b });
            k = k + 1;
        }
        proof {
            assert(x@ =~= fuzz_apply(x0, pad@, b0, b1));
            if b0 {
                assert(fuzz_apply(x0, pad@, b0, b1) =~= fuzz_apply(x0, pad@, b0, stream_bit(seed, p + 2 * index_width(w) + 1)));
            }
        }
    }
}

/// For `0 < num < max`, a chance hits exactly when `num` exceeds the value
/// of the bits drawn; it never hits for zero, always from `max` up, and a
/// larger `num` hits whenever a smaller one does.
pub proof fn law_chance_exceeds_draw(num: int, max: int, v: int)
    requires
        0 <= num,
        0 < max,
        0 <= v < max,
    ensures
        0 < num < max ==> (chance(num, max, v) <==> num > v),
        num == 0 ==> !chance(num, max, v),
        num >= max ==> chance(num, max, v),
        chance(num, max, v) ==> chance(num + 1, max, v),
{
}

/// Of the `max` values the drawn bits can take, a chance of `num` hits on
/// exactly the `min(num, max)` smallest: a chance of `num / max`.
pub proof fn law_chance_hits(num: int, max: int)
    requires
        0 <= num,
        0 < max,
    ensures
        Set::new(|v: int| 0 <= v < max && chance(num, max, v)) == vstd::set_lib::set_int_range(0, if num < max { num } else { max }),
        Set::new(|v: int| 0 <= v < max && chance(num, max, v)).len() == if num < max { num } else { max },
{
    let hits = Set::new(|v: int| 0 <= v < max && chance(num, max, v));
    let lim = if num < max { num } else { max };
    assert(hits =~= vstd::set_lib::set_int_range(0, lim));
    vstd::set_lib::lemma_int_range(0, lim);
}

/// Whether a chance of `num` out of `max` hits, given the value `v` of the
/// bits drawn: never for zero, always from `max` up, else when `num > v`.
pub open spec fn chance(num: int, max: int, v: int) -> bool {
    if num == 0 {
        false
    } else if num >= max {
        true
    } else {
        num > v
    }
}

} // verus!
