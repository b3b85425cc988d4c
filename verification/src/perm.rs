//! Permutation lookup tables.

use vstd::prelude::*;
use vstd::arithmetic::power2::{pow2, lemma_pow2_pos, lemma_pow2_unfold};
use crate::lut::{index_bit, insert_index, lemma_input_index_range};
use crate::meta::{uval, bits_to_usize, pow2_usize, usize_bit};
use crate::rng::{StarRng, stream_value};

verus! {

/// Entries of `t` are pairwise different.
pub open spec fn distinct_entries(t: Seq<usize>) -> bool {
    forall|i: int, j: int| 0 <= i < t.len() && 0 <= j < t.len() && i != j ==> t[i] != t[j]
}

/// `t` holds every value below its length exactly once.
pub open spec fn is_perm_table(t: Seq<usize>) -> bool {
    &&& forall|i: int| 0 <= i < t.len() ==> #[trigger] t[i] < t.len()
    &&& distinct_entries(t)
}

/// `k` with bit `i` taken out, the bits above it moving down.
pub open spec fn remove_bit(k: int, i: nat) -> int {
    (k / (pow2(i + 1) as int)) * (pow2(i) as int) + k % (pow2(i) as int)
}

/// A permutation lookup table.
///
/// A permutation lookup table has the properties that:
/// - There is a nonzero integer `n` for the number of input bits
/// - The number of input or index bits is equal to the number of output bits
/// - There are `l = 2^n` entries, one for each possible input
/// - The entries include all `2^n` integers `0..2^n` exactly once
#[derive(Clone, PartialEq, Eq)]
pub struct Perm {
    nz_n: usize,
    lut: Vec<usize>,
}

impl Perm {
    /// The number of index bits.
    pub closed spec fn index_bits(&self) -> nat {
        self.nz_n as nat
    }

    /// The entries, one per index.
    pub closed spec fn table(&self) -> Seq<usize> {
        self.lut@
    }

    /// The number of entries.
    pub open spec fn len_spec(&self) -> nat {
        pow2(self.index_bits())
    }

    /// The table has an entry below `2^n` for each of the `2^n` indexes.
    pub open spec fn wf(&self) -> bool {
        &&& 1 <= self.index_bits() < usize::BITS
        &&& self.index_bits() * self.len_spec() <= usize::MAX
        &&& self.table().len() == self.len_spec()
        &&& forall|i: int| 0 <= i < self.table().len() ==> #[trigger] self.table()[i] < self.len_spec()
    }

    /// Each value appears exactly once.
    pub open spec fn is_perm(&self) -> bool {
        is_perm_table(self.table())
    }

    /// Identity permutation. Returns `None` if the table would not fit.
    pub fn ident(n: usize) -> (r: Option<Self>)
        requires
            n >= 1,
        ensures
            r is None <==> n >= usize::BITS || n * pow2(n as nat) > usize::MAX,
            r matches Some(p) ==> p.wf() && p.index_bits() == n && forall|i: int| 0 <= i < p.len_spec() ==> #[trigger] p.table()[i] == i,
    {
        if n >= usize::BITS as usize {
            return None;
        }
        let l = pow2_usize(n);
        match n.checked_mul(l) {
            None => None,
            Some(_) => {
                let mut res = Perm { nz_n: n, lut: Vec::new() };
                let mut i: usize = 0;
                while i < l
                    invariant
                        l == pow2(n as nat),
                        res.nz_n == n,
                        i <= l,
                        res.lut@.len() == i,
                        forall|k: int| 0 <= k < i ==> #[trigger] res.lut@[k] == k,
                    decreases l - i,
                {
                    res.lut.push(i);
                    i = i + 1;
                }
                Some(res)
            },
        }
    }

    /// A table of `n` index bits read from its raw bits: entry `i` is held in
    /// bits `i * n` up to `(i + 1) * n`.
    pub fn from_raw(nz_n: usize, lut: &Vec<bool>) -> (r: Self)
        requires
            1 <= nz_n < usize::BITS - 1,
            lut@.len() == nz_n * pow2(nz_n as nat),
        ensures
            r.wf(),
            r.index_bits() == nz_n,
            forall|i: int| 0 <= i < r.len_spec() ==> #[trigger] r.table()[i] == uval(lut@.subrange(i * nz_n, (i + 1) * nz_n)),
    {
        let n = nz_n;
        let l = pow2_usize(n);
        let ll = lut.len();
        let mut res = Perm { nz_n: n, lut: Vec::new() };
        let mut i: usize = 0;
        while i < l
            invariant
                l == pow2(n as nat),
                1 <= n < usize::BITS - 1,
                lut@.len() == n * l,
                ll == lut@.len(),
                res.nz_n == n,
                i <= l,
                res.lut@.len() == i,
                forall|k: int| 0 <= k < i ==> #[trigger] res.lut@[k] == uval(lut@.subrange(k * n, (k + 1) * n)),
                forall|k: int| 0 <= k < i ==> #[trigger] res.lut@[k] < l,
            decreases l - i,
        {
            proof {
                assert((i + 1) * n <= l * n) by (nonlinear_arith)
                    requires
                        i < l,
                ;
                assert(i * n + n == (i + 1) * n) by (nonlinear_arith);
                assert(n * l == l * n) by (nonlinear_arith);
            }
            let mut field: Vec<bool> = Vec::new();
            let mut k: usize = 0;
            while k < n
                invariant
                    1 <= n < usize::BITS - 1,
                    lut@.len() == n * l,
                    ll == lut@.len(),
                    (i + 1) * n <= lut@.len(),
                    i * n + n == (i + 1) * n,
                    k <= n,
                    field@ == lut@.subrange(i * n, i * n + k),
                decreases n - k,
            {
                field.push(lut[i * n + k]);
                k = k + 1;
            }
            let v = bits_to_usize(&field);
            proof {
                lemma_input_index_range(field@);
            }
            res.lut.push(v);
            i = i + 1;
        }
        res
    }

    /// Whether the table is well formed, as every constructor leaves it:
    /// for callers that cannot carry the fact along.
    pub fn is_wf(&self) -> (r: bool)
        ensures
            r == self.wf(),
    {
        let n = self.nz_n;
        if n < 1 || n >= usize::BITS as usize {
            return false;
        }
        let l = pow2_usize(n);
        if n.checked_mul(l).is_none() || self.lut.len() != l {
            return false;
        }
        let mut i: usize = 0;
        while i < l
            invariant
                l == self.len_spec() == self.table().len(),
                i <= l,
                forall|k: int| 0 <= k < i ==> #[trigger] self.table()[k] < l,
            decreases l - i,
        {
            if self.lut[i] >= l {
                return false;
            }
            i = i + 1;
        }
        true
    }

    /// The index bitwidth.
    pub fn nz_n(&self) -> (r: usize)
        ensures
            r == self.index_bits(),
    {
        self.nz_n
    }

    /// The index bitwidth.
    pub fn n(&self) -> (r: usize)
        ensures
            r == self.index_bits(),
    {
        self.nz_n
    }

    /// The number of entries.
    pub fn nz_l(&self) -> (r: usize)
        requires
            self.wf(),
        ensures
            r == self.len_spec(),
    {
        pow2_usize(self.nz_n)
    }

    /// The number of entries.
    pub fn l(&self) -> (r: usize)
        requires
            self.wf(),
        ensures
            r == self.len_spec(),
    {
        pow2_usize(self.nz_n)
    }

    /// Assigns to `out` the bits of the entry that `inx` indexes. Returns
    /// `None` if `inx` or `out` does not have `n` bits.
    pub fn lut(out: &mut Vec<bool>, this: &Self, inx: &Vec<bool>) -> (r: Option<()>)
        requires
            this.wf(),
        ensures
            r is None <==> inx@.len() != this.index_bits() || old(out)@.len() != this.index_bits(),
            r is None ==> final(out)@ == old(out)@,
            r is Some ==> final(out)@.len() == this.index_bits() && uval(final(out)@) == this.table()[uval(inx@)],
    {
        let n = this.nz_n;
        if inx.len() != n || out.len() != n {
            return None;
        }
        let i = bits_to_usize(inx);
        proof {
            lemma_input_index_range(inx@);
        }
        let e = this.lut[i];
        let mut k: usize = 0;
        while k < n
            invariant
                out@.len() == n,
                n < usize::BITS,
                k <= n,
                forall|m: int| 0 <= m < k ==> #[trigger] out@[m] == index_bit(e as int, m as nat),
            decreases n - k,
        {
            out.set(k, usize_bit(e, k));
            k = k + 1;
        }
        proof {
            lemma_uval_of_bits(out@, e as int);
        }
        Some(())
    }

    /// Gets the `i`th entry. Returns `None` if `i >= self.l()`.
    pub fn get(&self, i: usize) -> (r: Option<usize>)
        requires
            self.wf(),
        ensures
            r is None <==> i >= self.len_spec(),
            r matches Some(e) ==> e == self.table()[i as int],
    {
        if i >= self.l() {
            None
        } else {
            Some(self.lut[i])
        }
    }

    /// Sets entry `i` to `x` as far as `n` bits hold it.
    fn set(&mut self, i: usize, x: usize)
        requires
            old(self).wf(),
            i < old(self).len_spec(),
        ensures
            final(self).wf(),
            final(self).index_bits() == old(self).index_bits(),
            final(self).table() == old(self).table().update(i as int, (x % old(self).len_spec() as usize) as usize),
    {
        let l = self.l();
        proof {
            lemma_pow2_pos(self.index_bits());
        }
        self.lut.set(i, x % l);
    }

    /// Sets the `i`th entry to `x`, as far as `n` bits hold it. Returns `None`
    /// if `i >= self.l()`. This can break the permutation property if not
    /// used properly.
    pub fn unstable_set(&mut self, i: usize, x: usize) -> (r: Option<()>)
        requires
            old(self).wf(),
        ensures
            final(self).wf(),
            final(self).index_bits() == old(self).index_bits(),
            r is None <==> i >= old(self).len_spec(),
            r is None ==> final(self).table() == old(self).table(),
            r is Some ==> final(self).table() == old(self).table().update(i as int, (x % old(self).len_spec() as usize) as usize),
    {
        if i >= self.l() {
            None
        } else {
            self.set(i, x);
            Some(())
        }
    }

    /// Assigns the identity permutation to `self`.
    pub fn ident_assign(&mut self)
        requires
            old(self).wf(),
        ensures
            final(self).wf(),
            final(self).index_bits() == old(self).index_bits(),
            forall|i: int| 0 <= i < final(self).len_spec() ==> #[trigger] final(self).table()[i] == i,
    {
        let l = self.l();
        let mut i: usize = 0;
        while i < l
            invariant
                self.wf(),
                self.index_bits() == old(self).index_bits(),
                l == self.len_spec(),
                i <= l,
                forall|k: int| 0 <= k < i ==> #[trigger] self.table()[k] == k,
            decreases l - i,
        {
            proof {
                vstd::arithmetic::div_mod::lemma_small_mod(i as nat, l as nat);
            }
            self.set(i, i);
            i = i + 1;
        }
    }

    /// Swaps entries `i0` and `i1`. Returns `None` if `i0 != i1` and one of
    /// them is not below `self.l()`. Equivalent to swapping rows of the matrix
    /// form.
    pub fn swap(&mut self, i0: usize, i1: usize) -> (r: Option<()>)
        requires
            old(self).wf(),
        ensures
            final(self).wf(),
            final(self).index_bits() == old(self).index_bits(),
            r is None <==> i0 != i1 && (i0 >= old(self).len_spec() || i1 >= old(self).len_spec()),
            r is None || i0 == i1 ==> final(self).table() == old(self).table(),
            r is Some && i0 != i1 ==> final(self).table() == old(self).table().update(i0 as int, old(self).table()[i1 as int]).update(
                i1 as int,
                old(self).table()[i0 as int],
            ),
    {
        if i0 == i1 {
            return Some(());
        }
        let l = self.l();
        let tmp0 = match self.get(i0) {
            Some(e) => e,
            None => return None,
        };
        let tmp1 = match self.get(i1) {
            Some(e) => e,
            None => return None,
        };
        proof {
            vstd::arithmetic::div_mod::lemma_small_mod(tmp0 as nat, self.len_spec());
            vstd::arithmetic::div_mod::lemma_small_mod(tmp1 as nat, self.len_spec());
        }
        self.set(i0, tmp1);
        self.set(i1, tmp0);
        proof {
            assert(self.table() =~= old(self).table().update(i0 as int, old(self).table()[i1 as int]).update(
                i1 as int,
                old(self).table()[i0 as int],
            ));
        }
        Some(())
    }

    /// Copies the permutation of `rhs` to `self`. Returns `None` if the index
    /// bitwidths differ.
    pub fn copy_assign(&mut self, rhs: &Self) -> (r: Option<()>)
        requires
            old(self).wf(),
            rhs.wf(),
        ensures
            final(self).wf(),
            final(self).index_bits() == old(self).index_bits(),
            r is None <==> old(self).index_bits() != rhs.index_bits(),
            r is None ==> final(self).table() == old(self).table(),
            r is Some ==> final(self).table() == rhs.table(),
    {
        if self.nz_n != rhs.nz_n {
            None
        } else {
            self.lut = rhs.lut.clone();
            proof {
                assert(self.lut@ =~= rhs.lut@);
            }
            Some(())
        }
    }

    /// Assigns the inverse of `rhs`, equivalent to a matrix transpose: each
    /// entry `rhs[i]` becomes `i`. Returns `None` if the index bitwidths
    /// differ.
    pub fn inv_assign(&mut self, rhs: &Self) -> (r: Option<()>)
        requires
            old(self).wf(),
            rhs.wf(),
        ensures
            final(self).wf(),
            final(self).index_bits() == old(self).index_bits(),
            r is None <==> old(self).index_bits() != rhs.index_bits(),
            r is None ==> final(self).table() == old(self).table(),
            r is Some ==> final(self).table() == inverted(old(self).table(), rhs.table(), rhs.len_spec()),
            r is Some && rhs.is_perm() ==> forall|i: int| 0 <= i < rhs.len_spec() ==> #[trigger] final(self).table()[rhs.table()[i] as int] == i,
    {
        if self.nz_n != rhs.nz_n {
            return None;
        }
        let l = self.l();
        let mut i: usize = 0;
        while i < l
            invariant
                self.wf(),
                rhs.wf(),
                self.index_bits() == old(self).index_bits(),
                self.index_bits() == rhs.index_bits(),
                l == self.len_spec(),
                i <= l,
                self.table() == inverted(old(self).table(), rhs.table(), i as nat),
                rhs.is_perm() ==> forall|k: int| 0 <= k < i ==> #[trigger] self.table()[rhs.table()[k] as int] == k,
            decreases l - i,
        {
            let e = rhs.lut[i];
            proof {
                vstd::arithmetic::div_mod::lemma_small_mod(i as nat, l as nat);
                if rhs.is_perm() {
                    assert forall|k: int| 0 <= k < i implies rhs.table()[k] != e by {
                        assert(rhs.table()[k] != rhs.table()[i as int]);
                    }
                }
            }
            self.set(e, i);
            i = i + 1;
        }
        Some(())
    }

    /// The inverse, equivalent to a matrix transpose.
    pub fn inv(&self) -> (r: Self)
        requires
            self.wf(),
        ensures
            r.wf(),
            r.index_bits() == self.index_bits(),
            r.table() == inverted(self.table(), self.table(), self.len_spec()),
            self.is_perm() ==> forall|i: int| 0 <= i < self.len_spec() ==> #[trigger] r.table()[self.table()[i] as int] == i,
    {
        let mut res = Perm { nz_n: self.nz_n, lut: self.lut.clone() };
        proof {
            assert(res.lut@ =~= self.lut@);
        }
        let _ = res.inv_assign(self);
        res
    }

    /// Swaps the entries that have values `e0` and `e1`, equivalent to
    /// swapping columns of the matrix form. Returns `None` if `e0` or `e1` is
    /// not below `self.l()`, or if the two values are not both found.
    pub fn t_swap(&mut self, e0: usize, e1: usize) -> (r: Option<()>)
        requires
            old(self).wf(),
        ensures
            final(self).wf(),
            final(self).index_bits() == old(self).index_bits(),
            e0 >= old(self).len_spec() || e1 >= old(self).len_spec() ==> r is None,
            old(self).is_perm() && e0 < old(self).len_spec() && e1 < old(self).len_spec() ==> r is Some,
            r is None || e0 == e1 ==> final(self).table() == old(self).table(),
            r is Some && e0 != e1 ==> exists|i0: int, i1: int|
                0 <= i0 < i1 < old(self).len_spec() && #[trigger] swapped_values(old(self).table(), i0, i1, e0 as int, e1 as int)
                    && final(self).table() == old(self).table().update(i0, old(self).table()[i1]).update(i1, old(self).table()[i0]),
    {
        let l = self.l();
        if e0 >= l || e1 >= l {
            return None;
        }
        if e0 == e1 {
            return Some(());
        }
        let ghost t = self.table();
        let mut i0: usize = 0;
        while i0 < l
            invariant
                self.wf(),
                self.table() == t,
                self.index_bits() == old(self).index_bits(),
                t == old(self).table(),
                l == self.len_spec(),
                e0 < l,
                e1 < l,
                e0 != e1,
                i0 <= l,
                forall|k: int| 0 <= k < i0 ==> t[k] != e0 && t[k] != e1,
            decreases l - i0,
        {
            let e = self.lut[i0];
            if e == e0 || e == e1 {
                let other = if e == e0 { e1 } else { e0 };
                let mut i1: usize = i0 + 1;
                while i1 < l
                    invariant
                        self.wf(),
                        self.table() == t,
                        t == old(self).table(),
                        self.index_bits() == old(self).index_bits(),
                        l == self.len_spec(),
                        i0 < i1 <= l,
                        t[i0 as int] == e,
                        (e == e0 && other == e1) || (e == e1 && other == e0),
                        e0 != e1,
                        forall|k: int| i0 < k < i1 ==> t[k] != other,
                    decreases l - i1,
                {
                    if self.lut[i1] == other {
                        let _ = self.swap(i0, i1);
                        proof {
                            assert(swapped_values(t, i0 as int, i1 as int, e0 as int, e1 as int));
                        }
                        return Some(());
                    }
                    i1 = i1 + 1;
                }
                proof {
                    if old(self).is_perm() {
                        lemma_perm_surjective(t, other as int);
                        let k = choose|k: int| 0 <= k < t.len() && t[k] == other;
                        assert(k != i0);
                    }
                }
                return None;
            }
            i0 = i0 + 1;
        }
        proof {
            if old(self).is_perm() {
                lemma_perm_surjective(t, e0 as int);
            }
        }
        None
    }

    /// Swaps entry `k` with entry `words[k] % self.l()` for each `k` in
    /// order, the steps of a Fisher-Yates style shuffle. Returns `None`, and
    /// changes nothing, if `words` does not hold one word per entry.
    pub fn shuffle_with(&mut self, words: &Vec<u64>) -> (r: Option<()>)
        requires
            old(self).wf(),
        ensures
            final(self).wf(),
            final(self).index_bits() == old(self).index_bits(),
            r is None <==> words@.len() != old(self).len_spec(),
            r is None ==> final(self).table() == old(self).table(),
            r is Some ==> final(self).table() == shuffled(old(self).table(), words@, words@.len()),
            r is Some && old(self).is_perm() ==> final(self).is_perm(),
    {
        let l = self.l();
        if words.len() != l {
            return None;
        }
        proof {
            lemma_pow2_pos(self.index_bits());
        }
        let ghost t0 = self.table();
        let mut i: usize = 0;
        while i < l
            invariant
                self.wf(),
                self.index_bits() == old(self).index_bits(),
                t0 == old(self).table(),
                l == self.len_spec() == t0.len() == words@.len(),
                l > 0,
                i <= l,
                self.table() == shuffled(t0, words@, i as nat),
                old(self).is_perm() ==> self.is_perm(),
            decreases l - i,
        {
            let j = (words[i] as usize) % l;
            let ghost t = self.table();
            let _ = self.swap(i, j);
            proof {
                assert(j as int == ((words@[i as int] as usize) as int) % (t0.len() as int));
                if i != j && old(self).is_perm() {
                    lemma_swap_keeps_perm(t, i as int, j as int);
                }
                if i == j {
                    assert(t.update(i as int, t[j as int]).update(j as int, t[i as int]) =~= t);
                }
            }
            i = i + 1;
        }
        Some(())
    }

    /// Assigns an unbiased random permutation from `rng`, starting over from
    /// the identity: one word is drawn per entry, and the identity is
    /// shuffled with them.
    pub fn rand_assign_with(&mut self, rng: &mut StarRng)
        requires
            old(self).wf(),
        ensures
            final(self).wf(),
            final(self).index_bits() == old(self).index_bits(),
            final(self).is_perm(),
            final(self).table() == shuffled(
                ident_table(old(self).len_spec()),
                drawn_words(old(rng).seed(), old(rng).pos(), old(self).len_spec()),
                old(self).len_spec(),
            ),
            final(rng).seed() == old(rng).seed(),
            final(rng).pos() == old(rng).pos() + 64 * old(self).len_spec(),
    {
        let l = self.l();
        let ghost seed = rng.seed();
        let ghost p = rng.pos();
        let mut words: Vec<u64> = Vec::new();
        while words.len() < l
            invariant
                words@.len() <= l,
                rng.seed() == seed,
                rng.pos() == p + 64 * words@.len(),
                forall|k: int| 0 <= k < words@.len() ==> #[trigger] words@[k] == drawn_words(seed, p, l as nat)[k],
            decreases l - words@.len(),
        {
            let x = rng.next_u64();
            proof {
                assert(x == drawn_words(seed, p, l as nat)[words@.len() as int]);
            }
            words.push(x);
        }
        proof {
            assert(words@ =~= drawn_words(seed, p, l as nat));
        }
        self.ident_assign();
        let ghost t = self.table();
        proof {
            assert(t =~= ident_table(l as nat));
            assert forall|a: int, b: int| 0 <= a < t.len() && 0 <= b < t.len() && a != b implies t[a] != t[b] by {
                assert(t[a] == a);
                assert(t[b] == b);
            }
        }
        let _ = self.shuffle_with(&words);
    }

    /// Assigns `rhs` with an index bit added at place `i`: the new bit does not
    /// change what the table does to the other index bits, and the new output
    /// bit is a copy of it. Returns `None` if `i > rhs.n()` or if
    /// `self.n() != rhs.n() + 1`.
    pub fn double_assign(&mut self, rhs: &Self, i: usize) -> (r: Option<()>)
        requires
            old(self).wf(),
            rhs.wf(),
        ensures
            final(self).wf(),
            final(self).index_bits() == old(self).index_bits(),
            r is None <==> i > rhs.index_bits() || old(self).index_bits() != rhs.index_bits() + 1,
            r is None ==> final(self).table() == old(self).table(),
            r is Some ==> final(self).table() == doubled(rhs.table(), i as nat),
    {
        if i > rhs.nz_n || self.nz_n != rhs.nz_n + 1 {
            return None;
        }
        let l = self.l();
        let n = self.nz_n;
        let s_lo = pow2_usize(i);
        let s_hi = pow2_usize(i + 1);
        let ghost rl = rhs.len_spec();
        proof {
            lemma_pow2_unfold(n as nat);
            lemma_pow2_pos(i as nat);
            lemma_pow2_unfold(i as nat + 1);
            crate::lut::lemma_lut_shape_of_inputs(n as nat, i as nat);
        }
        let mut j: usize = 0;
        while j < l
            invariant
                self.wf(),
                rhs.wf(),
                self.index_bits() == old(self).index_bits(),
                self.index_bits() == rhs.index_bits() + 1,
                n == self.index_bits(),
                l == self.len_spec(),
                l == 2 * rl,
                rl == rhs.len_spec(),
                i <= rhs.index_bits(),
                s_lo == pow2(i as nat),
                s_hi == pow2(i as nat + 1),
                s_hi == 2 * s_lo,
                s_lo > 0,
                crate::lut::lut_shape(l as nat, i as nat),
                j <= l,
                self.table().len() == l,
                forall|k: int| 0 <= k < j ==> #[trigger] self.table()[k] == doubled(rhs.table(), i as nat)[k],
            decreases l - j,
        {
            proof {
                lemma_remove_bit_range(j as int, i as nat, l as nat);
                vstd::arithmetic::div_mod::lemma_mod_pos_bound(j as int, s_lo as int);
            }
            // take bit `i` out of `j`
            let projected_j = (j / s_hi) * s_lo + j % s_lo;
            let e = rhs.lut[projected_j];
            // put bit `i` of `j` into the entry
            let b = usize_bit(j, i);
            let projected_e = crate::optimize::insert_index_exec(e, i, b, Ghost(l as nat));
            proof {
                vstd::arithmetic::div_mod::lemma_small_mod(projected_e as nat, l as nat);
            }
            self.set(j, projected_e);
            j = j + 1;
        }
        proof {
            assert(self.table() =~= doubled(rhs.table(), i as nat));
        }
        Some(())
    }

    /// Returns `rhs` with an index bit added at place `i` (see
    /// `double_assign`). Returns `None` if `i > self.n()` or if the table
    /// would not fit.
    pub fn double(&self, i: usize) -> (r: Option<Self>)
        requires
            self.wf(),
        ensures
            r is None <==> i > self.index_bits() || self.index_bits() + 1 >= usize::BITS || (self.index_bits() + 1) * pow2(
                self.index_bits() + 1,
            ) > usize::MAX,
            r matches Some(p) ==> p.wf() && p.index_bits() == self.index_bits() + 1 && p.table() == doubled(self.table(), i as nat),
    {
        if i > self.nz_n {
            return None;
        }
        match Self::ident(self.nz_n + 1) {
            None => None,
            Some(mut res) => {
                let _ = res.double_assign(self, i);
                Some(res)
            },
        }
    }

    /// Assigns `rhs` with index bit `i` taken out, keeping the entries whose
    /// bit `i` is `b` in order and taking bit `i` out of them. Returns `None` if
    /// `i >= rhs.n()` or `self.n() + 1 != rhs.n()`.
    pub fn halve_assign(&mut self, rhs: &Self, i: usize, b: bool) -> (r: Option<()>)
        requires
            old(self).wf(),
            rhs.wf(),
            i < rhs.index_bits() && old(self).index_bits() + 1 == rhs.index_bits() ==> bit_matches(rhs.table(), i as nat, b).len()
                <= old(self).len_spec(),
        ensures
            final(self).wf(),
            final(self).index_bits() == old(self).index_bits(),
            r is None <==> i >= rhs.index_bits() || old(self).index_bits() + 1 != rhs.index_bits(),
            r is None ==> final(self).table() == old(self).table(),
            r is Some ==> forall|k: int|
                0 <= k < final(self).len_spec() ==> #[trigger] final(self).table()[k] == if k < bit_matches(rhs.table(), i as nat, b).len() {
                    remove_bit(bit_matches(rhs.table(), i as nat, b)[k] as int, i as nat) as usize
                } else {
                    old(self).table()[k]
                },
    {
        if i >= rhs.nz_n || self.nz_n + 1 != rhs.nz_n {
            return None;
        }
        let rl = rhs.l();
        let l = self.l();
        let ghost t = rhs.table();
        let ghost all = bit_matches(t, i as nat, b);
        proof {
            lemma_pow2_unfold(rhs.index_bits());
            crate::lut::lemma_lut_shape_of_inputs(rhs.index_bits(), i as nat);
            assert(t.take(0) =~= Seq::<usize>::empty());
            lemma_pow2_pos(i as nat);
            lemma_pow2_unfold(i as nat + 1);
        }
        let s_lo = pow2_usize(i);
        let s_hi = pow2_usize(i + 1);
        let mut k: usize = 0;
        let mut j: usize = 0;
        while j < rl
            invariant
                self.wf(),
                rhs.wf(),
                t == rhs.table(),
                all == bit_matches(t, i as nat, b),
                self.index_bits() == old(self).index_bits(),
                self.index_bits() + 1 == rhs.index_bits(),
                all.len() <= l,
                l == self.len_spec(),
                rl == rhs.len_spec(),
                rl == 2 * l,
                i < rhs.index_bits(),
                s_lo == pow2(i as nat),
                s_hi == pow2(i as nat + 1),
                s_hi == 2 * s_lo,
                s_lo > 0,
                crate::lut::lut_shape(rl as nat, i as nat),
                j <= rl,
                k == bit_matches(t.take(j as int), i as nat, b).len(),
                forall|m: int| 0 <= m < l ==> #[trigger] self.table()[m] == if m < k {
                    remove_bit(bit_matches(t.take(j as int), i as nat, b)[m] as int, i as nat) as usize
                } else {
                    old(self).table()[m]
                },
            decreases rl - j,
        {
            // see if bit `i` of the entry is `b`
            let e = rhs.lut[j];
            let ghost pre = bit_matches(t.take(j as int), i as nat, b);
            proof {
                assert(t.take(j + 1).drop_last() =~= t.take(j as int));
                lemma_bit_matches_prefix(t, (j + 1) as int, i as nat, b);
            }
            if usize_bit(e, i) == b {
                proof {
                    assert(rhs.table()[j as int] == e);
                    lemma_remove_bit_range(e as int, i as nat, rl as nat);
                    vstd::arithmetic::div_mod::lemma_mod_pos_bound(e as int, s_lo as int);
                    vstd::arithmetic::div_mod::lemma_small_mod(remove_bit(e as int, i as nat) as nat, l as nat);
                }
                // take bit `i` out of the entry
                let projected_e = (e / s_hi) * s_lo + e % s_lo;
                self.set(k, projected_e);
                k = k + 1;
            }
            j = j + 1;
        }
        proof {
            assert(t.take(rl as int) =~= t);
        }
        Some(())
    }

    /// Returns `self` with index bit `i` taken out, using the entries whose bit
    /// `i` is `b` (see `halve_assign`). Returns `None` if `i >= self.n()` or
    /// `self.n() < 2`.
    pub fn halve(&self, i: usize, b: bool) -> (r: Option<Self>)
        requires
            self.wf(),
            i < self.index_bits() && self.index_bits() >= 2 ==> bit_matches(self.table(), i as nat, b).len() <= pow2(
                (self.index_bits() - 1) as nat,
            ),
        ensures
            r is None <==> i >= self.index_bits() || self.index_bits() < 2,
            r matches Some(p) ==> p.wf() && p.index_bits() + 1 == self.index_bits() && forall|k: int|
                0 <= k < p.len_spec() ==> #[trigger] p.table()[k] == if k < bit_matches(self.table(), i as nat, b).len() {
                    remove_bit(bit_matches(self.table(), i as nat, b)[k] as int, i as nat) as usize
                } else {
                    k as usize
                },
    {
        if i >= self.nz_n || self.nz_n < 2 {
            return None;
        }
        proof {
            let n = self.index_bits();
            lemma_pow2_unfold(n);
            lemma_pow2_pos((n - 1) as nat);
            assert((n - 1) * pow2((n - 1) as nat) <= n * pow2(n)) by (nonlinear_arith)
                requires
                    pow2(n) == 2 * pow2((n - 1) as nat),
                    pow2((n - 1) as nat) > 0,
                    n >= 2,
            ;
        }
        match Self::ident(self.nz_n - 1) {
            None => None,
            Some(mut res) => {
                let _ = res.halve_assign(self, i, b);
                Some(res)
            },
        }
    }

    /// The table as text: for each index, a line break, the index in `n`
    /// binary digits, `|`, and the entry in `n` binary digits; then a line
    /// break.
    pub fn to_string_table(&self) -> (r: String)
        requires
            self.wf(),
        ensures
            r@ == table_text(self.index_bits(), self.table()),
    {
        let n = self.nz_n;
        let l = self.l();
        let mut s: Vec<char> = Vec::new();
        let mut i: usize = 0;
        while i < l
            invariant
                self.wf(),
                n == self.index_bits(),
                l == self.len_spec(),
                i <= l,
                s@ == table_rows(n as nat, self.table(), i as int),
            decreases l - i,
        {
            let e = self.lut[i];
            s.push('\n');
            push_digits(&mut s, i, n);
            s.push('|');
            push_digits(&mut s, e, n);
            proof {
                assert(s@ =~= table_rows(n as nat, self.table(), i as int) + table_row(n as nat, i as int, self.table()[i as int] as int));
            }
            i = i + 1;
        }
        s.push('\n');
        chars_to_string(&s)
    }

    /// The matrix form as text: a header row of the indexes (as hexadecimal
    /// digits), then for each index a row led by it with `1` in the column of
    /// its entry and `·` elsewhere.
    pub fn to_mat_string(&self) -> (r: String)
        requires
            self.wf(),
        ensures
            r@ == mat_text(self.table()),
    {
        let l = self.l();
        let mut s: Vec<char> = Vec::new();
        s.push(' ');
        let mut c: usize = 0;
        while c < l
            invariant
                l == self.table().len(),
                c <= l,
                s@ == seq![' '] + Seq::new(c as nat, |k: int| hex_char(k)),
            decreases l - c,
        {
            s.push(hex_digit(c));
            proof {
                assert(s@ =~= seq![' '] + Seq::new((c + 1) as nat, |k: int| hex_char(k)));
            }
            c = c + 1;
        }
        s.push('\n');
        proof {
            assert(s@ =~= mat_rows(self.table(), 0));
        }
        let mut j: usize = 0;
        while j < l
            invariant
                self.wf(),
                l == self.table().len(),
                j <= l,
                s@ == mat_rows(self.table(), j as int),
            decreases l - j,
        {
            let e = self.lut[j];
            let ghost before = s@;
            s.push(hex_digit(j));
            let mut c: usize = 0;
            while c < l
                invariant
                    l == self.table().len(),
                    e == self.table()[j as int],
                    c <= l,
                    s@ == before + seq![hex_char(j as int)] + Seq::new(c as nat, |k: int| if k == e { '1' } else { '\u{00B7}' }),
                decreases l - c,
            {
                s.push(if c == e { '1' } else { '\u{00B7}' });
                proof {
                    assert(s@ =~= before + seq![hex_char(j as int)] + Seq::new((c + 1) as nat, |k: int| if k == e { '1' } else { '\u{00B7}' }));
                }
                c = c + 1;
            }
            s.push('\n');
            proof {
                assert(s@ =~= mat_rows(self.table(), j as int) + mat_row(self.table(), j as int));
            }
            j = j + 1;
        }
        chars_to_string(&s)
    }

    /// Assigns the composition of permutation `lhs` followed by `rhs`.
    /// Returns `None` if the index bitwidths differ.
    pub fn mul_copy_assign(&mut self, lhs: &Self, rhs: &Self) -> (r: Option<()>)
        requires
            old(self).wf(),
            lhs.wf(),
            rhs.wf(),
        ensures
            final(self).wf(),
            final(self).index_bits() == old(self).index_bits(),
            r is None <==> old(self).index_bits() != lhs.index_bits() || old(self).index_bits() != rhs.index_bits(),
            r is None ==> final(self).table() == old(self).table(),
            r is Some ==> forall|i: int| 0 <= i < final(self).len_spec() ==> #[trigger] final(self).table()[i] == rhs.table()[lhs.table()[i] as int],
    {
        let n = self.nz_n;
        if n != lhs.nz_n || n != rhs.nz_n {
            return None;
        }
        let l = self.l();
        let mut i: usize = 0;
        while i < l
            invariant
                self.wf(),
                lhs.wf(),
                rhs.wf(),
                self.index_bits() == old(self).index_bits(),
                self.index_bits() == lhs.index_bits(),
                self.index_bits() == rhs.index_bits(),
                l == self.len_spec(),
                i <= l,
                forall|k: int| 0 <= k < i ==> #[trigger] self.table()[k] == rhs.table()[lhs.table()[k] as int],
            decreases l - i,
        {
            let e = rhs.lut[lhs.lut[i]];
            proof {
                vstd::arithmetic::div_mod::lemma_small_mod(e as nat, l as nat);
            }
            self.set(i, e);
            i = i + 1;
        }
        Some(())
    }

    /// The composition of permutation `self` followed by `rhs`. Returns `None`
    /// if the index bitwidths differ.
    pub fn mul(&self, rhs: &Self) -> (r: Option<Self>)
        requires
            self.wf(),
            rhs.wf(),
        ensures
            r is None <==> self.index_bits() != rhs.index_bits(),
            r matches Some(p) ==> p.wf() && p.index_bits() == self.index_bits() && forall|i: int|
                0 <= i < p.len_spec() ==> #[trigger] p.table()[i] == rhs.table()[self.table()[i] as int],
    {
        if self.nz_n != rhs.nz_n {
            return None;
        }
        let mut res = Perm { nz_n: self.nz_n, lut: self.lut.clone() };
        proof {
            assert(res.lut@ =~= self.lut@);
        }
        let _ = res.mul_copy_assign(self, rhs);
        Some(res)
    }
}

/// The entries of `t` whose bit `i` is `b`, in order.
pub open spec fn bit_matches(t: Seq<usize>, i: nat, b: bool) -> Seq<usize>
    decreases t.len(),
{
    if t.len() == 0 {
        Seq::empty()
    } else {
        let sub = bit_matches(t.drop_last(), i, b);
        if index_bit(t.last() as int, i) == b {
            sub.push(t.last())
        } else {
            sub
        }
    }
}

/// The matches of a prefix are a prefix of the matches.
proof fn lemma_bit_matches_prefix(t: Seq<usize>, j: int, i: nat, b: bool)
    requires
        0 <= j <= t.len(),
    ensures
        bit_matches(t.take(j), i, b).len() <= bit_matches(t, i, b).len(),
        forall|m: int| 0 <= m < bit_matches(t.take(j), i, b).len() ==> #[trigger] bit_matches(t.take(j), i, b)[m] == bit_matches(t, i, b)[m],
    decreases t.len() - j,
{
    if j < t.len() {
        lemma_bit_matches_prefix(t, j + 1, i, b);
        assert(t.take(j + 1).drop_last() =~= t.take(j));
        let a = bit_matches(t.take(j), i, b);
        let c = bit_matches(t.take(j + 1), i, b);
        assert(c == a || c == a.push(t[j]));
        assert forall|m: int| 0 <= m < a.len() implies #[trigger] a[m] == bit_matches(t, i, b)[m] by {
            assert(a[m] == c[m]);
        }
    } else {
        assert(t.take(j) =~= t);
    }
}

/// The entries that `bit_matches` keeps are entries of `t` with bit `i`
/// equal to `b`, and pairwise different if those of `t` are.
proof fn lemma_bit_matches_from(t: Seq<usize>, i: nat, b: bool)
    ensures
        forall|m: int| 0 <= m < bit_matches(t, i, b).len() ==> t.contains(#[trigger] bit_matches(t, i, b)[m])
            && index_bit(bit_matches(t, i, b)[m] as int, i) == b,
        distinct_entries(t) ==> bit_matches(t, i, b).no_duplicates(),
    decreases t.len(),
{
    if t.len() > 0 {
        let u = t.drop_last();
        lemma_bit_matches_from(u, i, b);
        let sub = bit_matches(u, i, b);
        assert forall|m: int| 0 <= m < sub.len() implies t.contains(#[trigger] sub[m]) by {
            let k = choose|k: int| 0 <= k < u.len() && u[k] == sub[m];
            assert(t[k] == sub[m]);
        }
        assert(t[t.len() - 1] == t.last());
        if distinct_entries(t) {
            assert(distinct_entries(u)) by {
                assert forall|a: int, c: int| 0 <= a < u.len() && 0 <= c < u.len() && a != c implies u[a] != u[c] by {
                    assert(u[a] == t[a] && u[c] == t[c]);
                }
            }
            assert forall|m: int| 0 <= m < sub.len() implies sub[m] != t.last() by {
                let k = choose|k: int| 0 <= k < u.len() && u[k] == sub[m];
                assert(t[k] != t[t.len() - 1]);
            }
        }
    }
}

/// At most half of the entries of a permutation table of `2^n` entries have
/// bit `i` equal to `b`, as `Perm::halve` and `Perm::halve_assign` need.
pub proof fn lemma_perm_bit_matches_half(t: Seq<usize>, n: nat, i: nat, b: bool)
    requires
        is_perm_table(t),
        t.len() == pow2(n),
        i < n,
    ensures
        bit_matches(t, i, b).len() <= pow2((n - 1) as nat),
{
    let bm = bit_matches(t, i, b);
    lemma_bit_matches_from(t, i, b);
    crate::lut::lemma_lut_shape_of_inputs(n, i);
    lemma_pow2_unfold(n);
    let m = Seq::new(bm.len(), |k: int| remove_bit(bm[k] as int, i));
    assert forall|k: int| 0 <= k < m.len() implies 0 <= #[trigger] m[k] < pow2((n - 1) as nat) by {
        let q = choose|q: int| 0 <= q < t.len() && t[q] == bm[k];
        assert(t[q] < t.len());
        lemma_remove_bit_range(bm[k] as int, i, pow2(n));
    }
    assert(m.no_duplicates()) by {
        assert forall|a: int, c: int| 0 <= a < m.len() && 0 <= c < m.len() && a != c implies m[a] != m[c] by {
            let qa = choose|q: int| 0 <= q < t.len() && t[q] == bm[a];
            let qc = choose|q: int| 0 <= q < t.len() && t[q] == bm[c];
            assert(t[qa] < t.len() && t[qc] < t.len());
            lemma_remove_bit_range(bm[a] as int, i, pow2(n));
            lemma_remove_bit_range(bm[c] as int, i, pow2(n));
            assert(bm[a] != bm[c]);
        }
    }
    m.unique_seq_to_set();
    let r = vstd::set_lib::set_int_range(0, pow2((n - 1) as nat) as int);
    vstd::set_lib::lemma_int_range(0, pow2((n - 1) as nat) as int);
    assert(m.to_set().subset_of(r)) by {
        assert forall|x: int| m.to_set().contains(x) implies r.contains(x) by {
            let k = choose|k: int| 0 <= k < m.len() && m[k] == x;
        }
    }
    vstd::set_lib::lemma_len_subset(m.to_set(), r);
}

/// Values `e0` and `e1` sit at places `i0` and `i1`, one way or the other.
pub open spec fn swapped_values(t: Seq<usize>, i0: int, i1: int, e0: int, e1: int) -> bool {
    (t[i0] == e0 && t[i1] == e1) || (t[i0] == e1 && t[i1] == e0)
}

/// `t` after swapping entry `k` with entry `words[k] % t.len()` for each
/// `k` below `i`, in order.
pub open spec fn shuffled(t: Seq<usize>, words: Seq<u64>, i: nat) -> Seq<usize>
    decreases i,
{
    if i == 0 {
        t
    } else {
        let prev = shuffled(t, words, (i - 1) as nat);
        let a = i - 1;
        let b = ((words[a] as usize) as int) % (t.len() as int);
        prev.update(a, prev[b]).update(b, prev[a])
    }
}

/// `t` after writing `k` to entry `rhs[k]` for each `k` below `i`, in order.
pub open spec fn inverted(t: Seq<usize>, rhs: Seq<usize>, i: nat) -> Seq<usize>
    decreases i,
{
    if i == 0 {
        t
    } else {
        inverted(t, rhs, (i - 1) as nat).update(rhs[i - 1] as int, (i - 1) as usize)
    }
}

/// The `l` words drawn one after another from bit `p` of the stream of
/// `seed`.
pub open spec fn drawn_words(seed: u64, p: nat, l: nat) -> Seq<u64> {
    Seq::new(l, |k: int| stream_value(seed, (p + 64 * k) as nat, 64) as u64)
}

/// The identity table with `l` entries.
pub open spec fn ident_table(l: nat) -> Seq<usize> {
    Seq::new(l, |k: int| k as usize)
}

/// The table with an index bit added at place `i`, copied to the output.
pub open spec fn doubled(t: Seq<usize>, i: nat) -> Seq<usize> {
    Seq::new(2 * t.len(), |j: int| insert_index(t[remove_bit(j, i)] as int, i, index_bit(j, i)) as usize)
}

/// A permutation table takes every value below its length.
pub proof fn lemma_perm_surjective(t: Seq<usize>, v: int)
    requires
        is_perm_table(t),
        0 <= v < t.len(),
    ensures
        exists|i: int| 0 <= i < t.len() && t[i] == v,
{
    let s = Seq::new(t.len(), |i: int| t[i] as int);
    assert(s.no_duplicates()) by {
        assert forall|a: int, b: int| 0 <= a < s.len() && 0 <= b < s.len() && a != b implies s[a] != s[b] by {
            assert(t[a] != t[b]);
        }
    }
    s.unique_seq_to_set();
    vstd::set_lib::lemma_int_range(0, t.len() as int);
    let r = vstd::set_lib::set_int_range(0, t.len() as int);
    assert(s.to_set().subset_of(r)) by {
        assert forall|x: int| s.to_set().contains(x) implies r.contains(x) by {
            let k = choose|k: int| 0 <= k < s.len() && s[k] == x;
            assert(t[k] < t.len());
        }
    }
    vstd::set_lib::lemma_subset_equality(s.to_set(), r);
    assert(r.contains(v));
    assert(s.to_set().contains(v));
    let k = choose|k: int| 0 <= k < s.len() && s[k] == v;
    assert(t[k] == v);
}

/// Swapping two entries keeps a permutation table one.
pub proof fn lemma_swap_keeps_perm(t: Seq<usize>, a: int, b: int)
    requires
        is_perm_table(t),
        0 <= a < t.len(),
        0 <= b < t.len(),
    ensures
        is_perm_table(t.update(a, t[b]).update(b, t[a])),
{
    let u = t.update(a, t[b]).update(b, t[a]);
    assert forall|x: int, y: int| 0 <= x < u.len() && 0 <= y < u.len() && x != y implies u[x] != u[y] by {
        let fx = if x == b { a } else if x == a { b } else { x };
        let fy = if y == b { a } else if y == a { b } else { y };
        assert(u[x] == t[fx]);
        assert(u[y] == t[fy]);
    }
}

/// Taking bit `i` out of an index below `len` gives one below `len / 2`, and
/// putting it back in gives the index again.
proof fn lemma_remove_bit_range(j: int, i: nat, len: nat)
    requires
        crate::lut::lut_shape(len, i),
        0 <= j < len,
    ensures
        0 <= remove_bit(j, i) < len / 2,
        insert_index(remove_bit(j, i), i, index_bit(j, i)) == j,
{
    let s = pow2(i) as int;
    lemma_pow2_pos(i);
    lemma_pow2_unfold(i + 1);
    let q = j / (2 * s);
    let m = j % (2 * s);
    vstd::arithmetic::div_mod::lemma_fundamental_div_mod(j, 2 * s);
    vstd::arithmetic::div_mod::lemma_mod_pos_bound(j, 2 * s);
    vstd::arithmetic::div_mod::lemma_div_pos_is_pos(j, 2 * s);
    // j = q * 2s + m, with m = bit * s + m % s
    vstd::arithmetic::div_mod::lemma_mod_mod(j, s, 2);
    vstd::arithmetic::div_mod::lemma_fundamental_div_mod(m, s);
    vstd::arithmetic::div_mod::lemma_mod_pos_bound(m, s);
    let bit = m / s;
    assert(0 <= bit < 2) by {
        vstd::arithmetic::div_mod::lemma_div_pos_is_pos(m, s);
        vstd::arithmetic::div_mod::lemma_div_by_multiple_is_strongly_ordered(m, 2 * s, 2, s);
        if bit >= 2 {
            assert(m >= 2 * s) by (nonlinear_arith)
                requires
                    m == s * bit + m % s,
                    bit >= 2,
                    m % s >= 0,
                    s > 0,
            ;
        }
    }
    // j / s == 2q + bit, and j % s == m % s
    assert(j == (2 * q + bit) * s + m % s) by (nonlinear_arith)
        requires
            j == (2 * s) * q + m,
            m == s * bit + m % s,
    ;
    vstd::arithmetic::div_mod::lemma_fundamental_div_mod_converse(j, s, 2 * q + bit, m % s);
    vstd::arithmetic::div_mod::lemma_fundamental_div_mod_converse(j / s, 2, q, bit);
    assert(index_bit(j, i) == (bit == 1));
    let rb = remove_bit(j, i);
    assert(rb == q * s + m % s);
    crate::lut::lemma_insert_index_range(0, i, false, len);
    vstd::arithmetic::div_mod::lemma_fundamental_div_mod(len as int, 2 * s);
    assert((len as int) % (2 * s) == 0);
    let c = (len as int) / (2 * s);
    assert(q < c) by {
        if q >= c {
            assert(j >= len) by (nonlinear_arith)
                requires
                    j == (2 * s) * q + m,
                    m >= 0,
                    q >= c,
                    len == (2 * s) * c,
                    s > 0,
            ;
        }
    }
    assert(rb < len / 2) by (nonlinear_arith)
        requires
            rb == q * s + m % s,
            m % s < s,
            q < c,
            len == (2 * s) * c,
            q >= 0,
    ;
    assert(rb >= 0) by (nonlinear_arith)
        requires
            rb == q * s + m % s,
            m % s >= 0,
            q >= 0,
            s > 0,
    ;
    vstd::arithmetic::div_mod::lemma_fundamental_div_mod_converse(rb, s, q, m % s);
    assert(insert_index(rb, i, index_bit(j, i)) == q * (2 * s) + (if bit == 1 { s } else { 0 }) + m % s);
    assert(q * (2 * s) + (if bit == 1 { s } else { 0 }) + m % s == j) by (nonlinear_arith)
        requires
            j == (2 * s) * q + m,
            m == s * bit + m % s,
            0 <= bit < 2,
    ;
}

/// The `n` binary digits of `v`, most significant first.
pub open spec fn binary_digits(v: int, n: nat) -> Seq<char> {
    Seq::new(n, |k: int| if index_bit(v, (n - 1 - k) as nat) { '1' } else { '0' })
}

/// The text row of index `i` with entry `e`.
pub open spec fn table_row(n: nat, i: int, e: int) -> Seq<char> {
    seq!['\n'] + binary_digits(i, n) + seq!['|'] + binary_digits(e, n)
}

/// The text rows of the first `m` indexes.
pub open spec fn table_rows(n: nat, t: Seq<usize>, m: int) -> Seq<char>
    decreases m,
{
    if m <= 0 {
        Seq::empty()
    } else {
        table_rows(n, t, m - 1) + table_row(n, m - 1, t[m - 1] as int)
    }
}

/// The table as text.
pub open spec fn table_text(n: nat, t: Seq<usize>) -> Seq<char> {
    table_rows(n, t, t.len() as int) + seq!['\n']
}

/// The hexadecimal digit of `i % 16`.
pub open spec fn hex_char(i: int) -> char {
    let x = i % 16;
    if x < 10 {
        ((48 + x) as u8) as char
    } else {
        ((97 + x - 10) as u8) as char
    }
}

/// The row of the matrix form for index `j`.
pub open spec fn mat_row(t: Seq<usize>, j: int) -> Seq<char> {
    seq![hex_char(j)] + Seq::new(t.len(), |k: int| if k == t[j] { '1' } else { '\u{00B7}' }) + seq!['\n']
}

/// The header row and the rows of the first `m` indexes of the matrix form.
pub open spec fn mat_rows(t: Seq<usize>, m: int) -> Seq<char>
    decreases m,
{
    if m <= 0 {
        seq![' '] + Seq::new(t.len(), |k: int| hex_char(k)) + seq!['\n']
    } else {
        mat_rows(t, m - 1) + mat_row(t, m - 1)
    }
}

/// The matrix form as text.
pub open spec fn mat_text(t: Seq<usize>) -> Seq<char> {
    mat_rows(t, t.len() as int)
}

fn hex_digit(i: usize) -> (r: char)
    ensures
        r == hex_char(i as int),
{
    let x = (i % 16) as u8;
    if x < 10 {
        (48u8 + x) as char
    } else {
        (97u8 + (x - 10)) as char
    }
}

/// Pushes the `n` binary digits of `v`, most significant first.
fn push_digits(s: &mut Vec<char>, v: usize, n: usize)
    requires
        n < usize::BITS,
    ensures
        final(s)@ == old(s)@ + binary_digits(v as int, n as nat),
{
    let ghost start = s@;
    let mut k: usize = 0;
    while k < n
        invariant
            n < usize::BITS,
            k <= n,
            s@ == start + binary_digits(v as int, n as nat).take(k as int),
        decreases n - k,
    {
        let b = usize_bit(v, n - 1 - k);
        s.push(if b { '1' } else { '0' });
        proof {
            assert(s@ =~= start + binary_digits(v as int, n as nat).take(k + 1));
        }
        k = k + 1;
    }
    proof {
        assert(binary_digits(v as int, n as nat).take(n as int) =~= binary_digits(v as int, n as nat));
    }
}

/// Calls `String::from_iter` on the characters, which per its documentation
/// collects them in order.
#[verifier::external_body]
fn chars_to_string(v: &Vec<char>) -> (r: String)
    ensures
        r@ == v@,
{
    String::from_iter(v.iter())
}

/// The inverse undoes a permutation from both sides: if `q` sends each entry
/// of `p` back to its index, then `p` sends each entry of `q` back to its
/// index too, and `q` is a permutation as well.
pub proof fn law_inverse_both_sides(p: Seq<usize>, q: Seq<usize>)
    requires
        is_perm_table(p),
        q.len() == p.len(),
        forall|i: int| 0 <= i < p.len() ==> #[trigger] q[p[i] as int] == i,
    ensures
        is_perm_table(q),
        forall|k: int| 0 <= k < p.len() ==> #[trigger] p[q[k] as int] == k,
{
    assert forall|k: int| 0 <= k < p.len() implies p[#[trigger] q[k] as int] == k && q[k] < q.len() by {
        lemma_perm_surjective(p, k);
        let i = choose|i: int| 0 <= i < p.len() && p[i] == k;
        assert(q[p[i] as int] == i);
    }
    assert forall|a: int, b: int| 0 <= a < q.len() && 0 <= b < q.len() && a != b implies q[a] != q[b] by {
        assert(p[q[a] as int] == a);
        assert(p[q[b] as int] == b);
    }
}

/// Swapping the same two entries twice gives back the table.
pub proof fn law_swap_twice(t: Seq<usize>, a: int, b: int)
    requires
        0 <= a < t.len(),
        0 <= b < t.len(),
    ensures
        ({
            let s = t.update(a, t[b]).update(b, t[a]);
            s.update(a, s[b]).update(b, s[a]) == t
        }),
{
    let s = t.update(a, t[b]).update(b, t[a]);
    assert(s.update(a, s[b]).update(b, s[a]) =~= t);
}

/// Following one permutation by another gives a permutation.
pub proof fn law_composition_is_perm(p: Seq<usize>, q: Seq<usize>)
    requires
        is_perm_table(p),
        is_perm_table(q),
        p.len() == q.len(),
    ensures
        is_perm_table(Seq::new(p.len(), |i: int| q[p[i] as int])),
{
    let c = Seq::new(p.len(), |i: int| q[p[i] as int]);
    assert forall|i: int| 0 <= i < c.len() implies #[trigger] c[i] < c.len() by {
        assert(p[i] < p.len());
        assert(q[p[i] as int] < q.len());
    }
    assert forall|a: int, b: int| 0 <= a < c.len() && 0 <= b < c.len() && a != b implies c[a] != c[b] by {
        assert(p[a] != p[b]);
        assert(q[p[a] as int] != q[p[b] as int]);
    }
}

/// The identity table is a permutation.
pub proof fn law_identity_is_perm(t: Seq<usize>)
    requires
        forall|i: int| 0 <= i < t.len() ==> #[trigger] t[i] == i,
    ensures
        is_perm_table(t),
{
}

/// Putting bit `c` in at place `i` makes bit `i` be `c`, and taking it out
/// again gives back what it was put into.
proof fn lemma_insert_then_remove(x: int, i: nat, c: bool)
    requires
        x >= 0,
    ensures
        index_bit(insert_index(x, i, c), i) == c,
        remove_bit(insert_index(x, i, c), i) == x,
        insert_index(x, i, c) >= 0,
{
    let s = pow2(i) as int;
    lemma_pow2_pos(i);
    lemma_pow2_unfold(i + 1);
    let q = x / s;
    let r = x % s;
    vstd::arithmetic::div_mod::lemma_fundamental_div_mod(x, s);
    vstd::arithmetic::div_mod::lemma_mod_pos_bound(x, s);
    vstd::arithmetic::div_mod::lemma_div_pos_is_pos(x, s);
    let cv: int = if c { 1 } else { 0 };
    let y = insert_index(x, i, c);
    assert(y == q * (2 * s) + cv * s + r);
    // y / s == 2q + c, y % s == r
    assert(y == (2 * q + cv) * s + r) by (nonlinear_arith)
        requires
            y == q * (2 * s) + cv * s + r,
    ;
    vstd::arithmetic::div_mod::lemma_fundamental_div_mod_converse(y, s, 2 * q + cv, r);
    vstd::arithmetic::div_mod::lemma_fundamental_div_mod_converse(2 * q + cv, 2, q, cv);
    // y / 2s == q
    assert(y == q * (2 * s) + (cv * s + r)) by (nonlinear_arith)
        requires
            y == q * (2 * s) + cv * s + r,
    ;
    assert(0 <= cv * s + r < 2 * s) by (nonlinear_arith)
        requires
            0 <= cv <= 1,
            0 <= r < s,
    ;
    vstd::arithmetic::div_mod::lemma_fundamental_div_mod_converse(y, 2 * s, q, cv * s + r);
    assert(remove_bit(y, i) == q * s + r);
    assert(y >= 0) by (nonlinear_arith)
        requires
            y == q * (2 * s) + cv * s + r,
            q >= 0,
            cv >= 0,
            r >= 0,
            s > 0,
    ;
}

/// How many indexes below `j` have bit `i` equal to `b`.
spec fn count_below(j: int, i: nat, b: bool) -> int {
    let s = pow2(i) as int;
    let q = j / (2 * s);
    let r = j % (2 * s);
    q * s + if b {
        if r > s {
            r - s
        } else {
            0
        }
    } else {
        if r < s {
            r
        } else {
            s
        }
    }
}

/// Counting one index further, and the count at an index with bit `i` equal
/// to `b` is that index with the bit taken out.
proof fn lemma_count_step(j: int, i: nat, b: bool)
    requires
        j >= 0,
    ensures
        count_below(j + 1, i, b) == count_below(j, i, b) + if index_bit(j, i) == b {
            1int
        } else {
            0int
        },
        index_bit(j, i) == b ==> count_below(j, i, b) == remove_bit(j, i),
{
    let s = pow2(i) as int;
    lemma_pow2_pos(i);
    lemma_pow2_unfold(i + 1);
    let q = j / (2 * s);
    let r = j % (2 * s);
    vstd::arithmetic::div_mod::lemma_fundamental_div_mod(j, 2 * s);
    vstd::arithmetic::div_mod::lemma_mod_pos_bound(j, 2 * s);
    // bit `i` of `j` and `j % s`
    let bit: int = if r >= s { 1 } else { 0 };
    let rr = if r >= s { r - s } else { r };
    assert(j == (2 * q + bit) * s + rr) by (nonlinear_arith)
        requires
            j == (2 * s) * q + r,
            rr == r - bit * s,
    ;
    vstd::arithmetic::div_mod::lemma_fundamental_div_mod_converse(j, s, 2 * q + bit, rr);
    vstd::arithmetic::div_mod::lemma_fundamental_div_mod_converse(2 * q + bit, 2, q, bit);
    assert(index_bit(j, i) == (bit == 1));
    assert(remove_bit(j, i) == q * s + rr);
    if r + 1 < 2 * s {
        assert(j + 1 == q * (2 * s) + (r + 1)) by (nonlinear_arith)
            requires
                j == (2 * s) * q + r,
        ;
        vstd::arithmetic::div_mod::lemma_fundamental_div_mod_converse(j + 1, 2 * s, q, r + 1);
    } else {
        assert(j + 1 == (q + 1) * (2 * s) + 0) by (nonlinear_arith)
            requires
                j == (2 * s) * q + r,
                r + 1 == 2 * s,
        ;
        vstd::arithmetic::div_mod::lemma_fundamental_div_mod_converse(j + 1, 2 * s, q + 1, 0);
        assert((q + 1) * s == q * s + s) by (nonlinear_arith);
    }
}

/// The entries of the first `j` entries of a doubled table whose bit `i` is
/// `b` are the entries of the table with `b` put in at place `i`, as many as
/// there are indexes below `j` with bit `i` equal to `b`.
proof fn lemma_doubled_matches(t: Seq<usize>, i: nat, b: bool, m: nat, j: int)
    requires
        t.len() == pow2(m),
        i <= m,
        2 * t.len() <= usize::MAX,
        forall|k: int| 0 <= k < t.len() ==> #[trigger] t[k] < t.len(),
        0 <= j <= 2 * t.len(),
    ensures
        bit_matches(doubled(t, i).take(j), i, b).len() == count_below(j, i, b),
        forall|k: int|
            0 <= k < count_below(j, i, b) ==> #[trigger] bit_matches(doubled(t, i).take(j), i, b)[k] == insert_index(
                t[k] as int,
                i,
                b,
            ) as usize,
    decreases j,
{
    let d = doubled(t, i);
    lemma_pow2_unfold(m + 1);
    crate::lut::lemma_lut_shape_of_inputs(m + 1, i);
    if j == 0 {
        assert(d.take(0) =~= Seq::<usize>::empty());
        lemma_pow2_pos(i);
        vstd::arithmetic::div_mod::lemma_fundamental_div_mod_converse(0, 2 * pow2(i) as int, 0, 0);
        assert(0 * (pow2(i) as int) == 0) by (nonlinear_arith);
        assert(count_below(0, i, b) == 0);
    } else {
        let j0 = j - 1;
        lemma_doubled_matches(t, i, b, m, j0);
        lemma_count_step(j0, i, b);
        assert(d.take(j).drop_last() =~= d.take(j0));
        lemma_remove_bit_range(j0, i, (2 * t.len()) as nat);
        let rb = remove_bit(j0, i);
        lemma_insert_then_remove(t[rb] as int, i, index_bit(j0, i));
        crate::lut::lemma_insert_index_range(t[rb] as int, i, index_bit(j0, i), (2 * t.len()) as nat);
        assert(t[rb] < t.len());
        assert(d[j0] as int == insert_index(t[rb] as int, i, index_bit(j0, i)));
        assert(d.take(j).last() == d[j0]);
        let pre = bit_matches(d.take(j0), i, b);
        if index_bit(j0, i) == b {
            assert(bit_matches(d.take(j), i, b) == pre.push(d[j0]));
        } else {
            assert(bit_matches(d.take(j), i, b) == pre);
        }
        assert forall|k: int| 0 <= k < count_below(j, i, b) implies #[trigger] bit_matches(d.take(j), i, b)[k] == insert_index(
            t[k] as int,
            i,
            b,
        ) as usize by {
            if k < count_below(j0, i, b) {
                assert(bit_matches(d.take(j), i, b)[k] == pre[k]);
            } else {
                assert(k == rb);
            }
        }
    }
}

/// Halving a doubled table on the bit it was doubled on gives back the
/// table, whichever half is kept: the new index bit did not change what the
/// table does.
pub proof fn law_halve_undoes_double(t: Seq<usize>, i: nat, b: bool, m: nat)
    requires
        t.len() == pow2(m),
        i <= m,
        2 * t.len() <= usize::MAX,
        forall|k: int| 0 <= k < t.len() ==> #[trigger] t[k] < t.len(),
    ensures
        bit_matches(doubled(t, i), i, b).len() == t.len(),
        forall|k: int| 0 <= k < t.len() ==> remove_bit(#[trigger] bit_matches(doubled(t, i), i, b)[k] as int, i) == t[k],
{
    let d = doubled(t, i);
    let len2: int = 2 * (t.len() as int);
    lemma_doubled_matches(t, i, b, m, len2);
    assert(d.take(len2) =~= d);
    assert(count_below(len2, i, b) == t.len()) by {
        lemma_pow2_pos(i);
        lemma_pow2_unfold(i + 1);
        lemma_pow2_unfold(m + 1);
        crate::lut::lemma_lut_shape_of_inputs(m + 1, i);
        vstd::arithmetic::div_mod::lemma_fundamental_div_mod(len2, 2 * pow2(i) as int);
        assert(pow2(m + 1) == len2);
        assert(len2 % (pow2(i + 1) as int) == 0);
        assert(len2 % (2 * pow2(i) as int) == 0);
        assert(count_below(len2, i, b) == (len2 / (2 * pow2(i) as int)) * pow2(i));
        assert(2 * ((len2 / (2 * pow2(i) as int)) * pow2(i)) == len2) by (nonlinear_arith)
            requires
                len2 == (2 * pow2(i) as int) * (len2 / (2 * pow2(i) as int)) + len2 % (2 * pow2(i) as int),
                len2 % (2 * pow2(i) as int) == 0,
        ;
    }
    assert forall|k: int| 0 <= k < t.len() implies remove_bit(#[trigger] bit_matches(d, i, b)[k] as int, i) == t[k] by {
        lemma_insert_then_remove(t[k] as int, i, b);
        lemma_pow2_unfold(m + 1);
        crate::lut::lemma_lut_shape_of_inputs(m + 1, i);
        crate::lut::lemma_insert_index_range(t[k] as int, i, b, (2 * t.len()) as nat);
        assert(bit_matches(d, i, b)[k] as int == insert_index(t[k] as int, i, b));
    }
}

/// The value of bits that hold the bits of `e` is `e`.
proof fn lemma_uval_of_bits(s: Seq<bool>, e: int)
    requires
        0 <= e < pow2(s.len()),
        forall|m: int| 0 <= m < s.len() ==> #[trigger] s[m] == index_bit(e, m as nat),
    ensures
        uval(s) == e,
{
    crate::meta::lemma_uval_bits_of(e, s.len());
    assert(s =~= crate::meta::bits_of(e, s.len()));
}

} // verus!
