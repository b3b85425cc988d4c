//! Lookup table nodes and the operations that simplify their tables.

use vstd::prelude::*;
use crate::lut::{lut_shape, reduced, independent_of, rotated, insert_index, swap_index, max_nat, general_reduce_lut, general_reduce_independent_lut, general_rotate_lut, lut_to_u64, u64_to_lut, u64_bit, swap64, reduce64, reduce_independent64, rotate64, independent64, lemma_shape_small, lemma_insert_index_range, lemma_swap_index_gen, lemma_swap_in_block};
use crate::ptr::{PBack, PState};
use crate::value::DynamicValue;

verus! {

/// The pointers bound by the entries of a dynamic table, in entry order.
pub open spec fn dynam_ptrs(s: Seq<DynamicValue>) -> Seq<PBack>
    decreases s.len(),
{
    if s.len() == 0 {
        Seq::empty()
    } else {
        let r = dynam_ptrs(s.drop_last());
        match s.last() {
            DynamicValue::Dynam(p) => r.push(p),
            _ => r,
        }
    }
}

/// The pointers of the dynamic entries of `s`.
fn collect_dynam(s: &Vec<DynamicValue>) -> (r: Vec<PBack>)
    ensures
        r@ == dynam_ptrs(s@),
{
    let mut r: Vec<PBack> = Vec::new();
    let mut k: usize = 0;
    while k < s.len()
        invariant
            k <= s@.len(),
            r@ == dynam_ptrs(s@.take(k as int)),
        decreases s@.len() - k,
    {
        proof {
            assert(s@.take(k as int + 1).drop_last() =~= s@.take(k as int));
        }
        if let DynamicValue::Dynam(p) = s[k] {
            r.push(p);
        }
        k = k + 1;
    }
    assert(s@.take(s@.len() as int) =~= s@);
    r
}

#[derive(Clone, Debug)]
pub enum LNodeKind {
    /// Copy a single input bit
    Copy(PBack),
    /// Static Lookup Table that outputs one bit, with its inputs and table
    Lut(Vec<PBack>, Vec<bool>),
    /// A Dynamic Lookup Table with the inputs and then the table
    DynamicLut(Vec<PBack>, Vec<DynamicValue>),
}

/// The inputs of a node: its index inputs, then the pointers bound in a
/// dynamic table.
pub open spec fn kind_inputs(kind: LNodeKind) -> Seq<PBack> {
    match kind {
        LNodeKind::Copy(p) => seq![p],
        LNodeKind::Lut(inp, _) => inp@,
        LNodeKind::DynamicLut(inp, lut) => inp@ + dynam_ptrs(lut@),
    }
}

/// A lookup table node
#[derive(Clone, Debug)]
pub struct LNode {
    pub p_self: PBack,
    pub kind: LNodeKind,
    pub lowered_from: Option<PState>,
}

/// An index pair that leaves a dynamic table unchanged when its input is
/// dropped: equal constants, or two pointers in the same equivalence.
pub open spec fn dyn_pair_constant_ok(a: DynamicValue, b: DynamicValue) -> bool {
    match (a, b) {
        (DynamicValue::Const(b0), DynamicValue::Const(b1)) => b0 == b1,
        _ => false,
    }
}

impl LNode {
    pub fn new(p_self: PBack, kind: LNodeKind, lowered_from: Option<PState>) -> (r: Self)
        ensures
            r.p_self == p_self,
            r.kind == kind,
            r.lowered_from == lowered_from,
    {
        Self { p_self, kind, lowered_from }
    }

    /// The inputs of this node, in order.
    pub fn inputs(&self) -> (r: Vec<PBack>)
        ensures
            r@ == kind_inputs(self.kind),
    {
        match &self.kind {
            LNodeKind::Copy(inp) => vec![*inp],
            LNodeKind::Lut(inp, _) => inp.clone(),
            LNodeKind::DynamicLut(inp, lut) => {
                let mut r = inp.clone();
                let mut d = collect_dynam(lut);
                r.append(&mut d);
                r
            },
        }
    }

    /// The same as `reduce_lut`, except for a dynamic table, and it also
    /// returns the pointers of the dropped entries.
    pub fn reduce_dynamic_lut(lut: &Vec<DynamicValue>, i: usize, bit: bool) -> (r: (
        Vec<DynamicValue>,
        Vec<PBack>,
    ))
        requires
            lut_shape(lut@.len(), i as nat),
        ensures
            r.0@ == reduced(lut@, i as nat, bit),
            r.1@ == dynam_ptrs(reduced(lut@, i as nat, !bit)),
    {
        let n = lut.len();
        proof {
            lemma_shape_small(n as nat, i as nat);
        }
        let next_lut = general_reduce_lut(lut, i, bit);
        let dropped = general_reduce_lut(lut, i, !bit);
        let removed = collect_dynam(&dropped);
        (next_lut, removed)
    }

    /// If dropping input `i` does not change a dynamic table (the entries it
    /// selects between are equal constants or pointers that `same_set` puts in
    /// one equivalence), returns the reduced table and the dropped pointers.
    pub fn reduce_independent_dynamic_lut<F: Fn(PBack, PBack) -> bool>(
        same_set: &F,
        lut: &Vec<DynamicValue>,
        i: usize,
    ) -> (r: Option<(Vec<DynamicValue>, Vec<PBack>)>)
        requires
            lut_shape(lut@.len(), i as nat),
            forall|p0: PBack, p1: PBack| same_set.requires((p0, p1)),
        ensures
            r matches Some(v) ==> {
                &&& v.0@ == reduced(lut@, i as nat, false)
                &&& v.1@ == dynam_ptrs(reduced(lut@, i as nat, true))
                &&& forall|k: int|
                    0 <= k < lut@.len() / 2 ==> {
                        let a = #[trigger] lut@[insert_index(k, i as nat, false)];
                        let b = lut@[insert_index(k, i as nat, true)];
                        dyn_pair_constant_ok(a, b) || (a is Dynam && b is Dynam && same_set.ensures(
                            (a->Dynam_0, b->Dynam_0),
                            true,
                        ))
                    }
            },
            r is None ==> exists|k: int|
                0 <= k < lut@.len() / 2 && {
                    let a = #[trigger] lut@[insert_index(k, i as nat, false)];
                    let b = lut@[insert_index(k, i as nat, true)];
                    if a is Dynam && b is Dynam {
                        same_set.ensures((a->Dynam_0, b->Dynam_0), false)
                    } else {
                        !dyn_pair_constant_ok(a, b)
                    }
                },
    {
        let n = lut.len();
        proof {
            lemma_shape_small(n as nat, i as nat);
        }
        let tmp0 = general_reduce_lut(lut, i, false);
        let tmp1 = general_reduce_lut(lut, i, true);
        let mut k: usize = 0;
        while k < tmp0.len()
            invariant
                tmp0@ == reduced(lut@, i as nat, false),
                tmp1@ == reduced(lut@, i as nat, true),
                k <= tmp0@.len(),
                forall|p0: PBack, p1: PBack| same_set.requires((p0, p1)),
                forall|m: int|
                    0 <= m < k ==> {
                        let a = #[trigger] tmp0@[m];
                        let b = tmp1@[m];
                        dyn_pair_constant_ok(a, b) || (a is Dynam && b is Dynam && same_set.ensures(
                            (a->Dynam_0, b->Dynam_0),
                            true,
                        ))
                    },
            decreases tmp0@.len() - k,
        {
            let a = tmp0[k];
            let b = tmp1[k];
            match a {
                DynamicValue::ConstUnknown => {
                    assert(lut@[insert_index(k as int, i as nat, false)] == a);
                    return None;
                },
                DynamicValue::Const(b0) => match b {
                    DynamicValue::Const(b1) => {
                        if b0 != b1 {
                            assert(lut@[insert_index(k as int, i as nat, false)] == a);
                            return None;
                        }
                    },
                    _ => {
                        assert(lut@[insert_index(k as int, i as nat, false)] == a);
                        return None;
                    },
                },
                DynamicValue::Dynam(p0) => match b {
                    DynamicValue::Dynam(p1) => {
                        if !same_set(p0, p1) {
                            assert(lut@[insert_index(k as int, i as nat, false)] == a);
                            return None;
                        }
                    },
                    _ => {
                        assert(lut@[insert_index(k as int, i as nat, false)] == a);
                        return None;
                    },
                },
            }
            k = k + 1;
        }
        proof {
            assert forall|m: int| 0 <= m < lut@.len() / 2 implies {
                let a = #[trigger] lut@[insert_index(m, i as nat, false)];
                let b = lut@[insert_index(m, i as nat, true)];
                dyn_pair_constant_ok(a, b) || (a is Dynam && b is Dynam && same_set.ensures(
                    (a->Dynam_0, b->Dynam_0),
                    true,
                ))
            } by {
                assert(tmp0@[m] == lut@[insert_index(m, i as nat, false)]);
            }
        }
        let removed = collect_dynam(&tmp1);
        Some((tmp0, removed))
    }

    /// Reduces the table in half by keeping the entries whose index has input
    /// `i` equal to `bit`.
    pub fn reduce_lut(lut: &mut Vec<bool>, i: usize, bit: bool)
        requires
            lut_shape(old(lut)@.len(), i as nat),
        ensures
            final(lut)@ == reduced(old(lut)@, i as nat, bit),
    {
        let n = lut.len();
        proof {
            lemma_shape_small(n as nat, i as nat);
        }
        if lut.len() > 64 {
            *lut = general_reduce_lut(lut, i, bit);
        } else {
            let ghost l = lut@;
            let half = lut.len() / 2;
            let halved = reduce64(lut_to_u64(lut), i, bit);
            let res = u64_to_lut(halved, half);
            proof {
                assert forall|k: int| 0 <= k < half implies res@[k] == l[insert_index(
                    k,
                    i as nat,
                    bit,
                )] by {
                    lemma_insert_index_range(k, i as nat, bit, l.len());
                }
                assert(res@ =~= reduced(l, i as nat, bit));
            }
            *lut = res;
        }
    }

    /// If the table's output does not depend on input `i`, reduces the table on
    /// that input and returns true; otherwise leaves it unchanged and returns
    /// false.
    pub fn reduce_independent_lut(lut: &mut Vec<bool>, i: usize) -> (r: bool)
        requires
            lut_shape(old(lut)@.len(), i as nat),
        ensures
            r == independent_of(old(lut)@, i as nat),
            r ==> final(lut)@ == reduced(old(lut)@, i as nat, false),
            !r ==> final(lut)@ == old(lut)@,
    {
        let n = lut.len();
        proof {
            lemma_shape_small(n as nat, i as nat);
        }
        if lut.len() > 64 {
            general_reduce_independent_lut(lut, i)
        } else {
            let ghost l = lut@;
            let half = lut.len() / 2;
            let x = lut_to_u64(lut);
            let res = reduce_independent64(x, i);
            proof {
                assert forall|k: int| 0 <= k < 32 implies (u64_bit(x, insert_index(k, i as nat, false))
                    == (k < l.len() / 2 && l[insert_index(k, i as nat, false)]) && u64_bit(
                    x,
                    insert_index(k, i as nat, true),
                ) == (k < l.len() / 2 && l[insert_index(k, i as nat, true)])) by {
                    lemma_insert_index_range(k, i as nat, false, l.len());
                    lemma_insert_index_range(k, i as nat, true, l.len());
                }
                if independent64(x, i as nat) {
                    assert forall|k: int| 0 <= k < l.len() / 2 implies #[trigger] l[insert_index(
                        k,
                        i as nat,
                        false,
                    )] == l[insert_index(k, i as nat, true)] by {
                        assert(u64_bit(x, insert_index(k, i as nat, false)) == u64_bit(
                            x,
                            insert_index(k, i as nat, true),
                        ));
                    }
                }
                if independent_of(l, i as nat) {
                    assert forall|k: int| 0 <= k < 32 implies #[trigger] u64_bit(
                        x,
                        insert_index(k, i as nat, false),
                    ) == u64_bit(x, insert_index(k, i as nat, true)) by {
                        if k < l.len() / 2 {
                            assert(l[insert_index(k, i as nat, false)] == l[insert_index(
                                k,
                                i as nat,
                                true,
                            )]);
                        }
                    }
                }
            }
            match res {
                Some(halved) => {
                    let out = u64_to_lut(halved, half);
                    proof {
                        assert forall|k: int| 0 <= k < half implies out@[k] == l[insert_index(
                            k,
                            i as nat,
                            false,
                        )] by {
                            lemma_insert_index_range(k, i as nat, false, l.len());
                        }
                        assert(out@ =~= reduced(l, i as nat, false));
                    }
                    *lut = out;
                    true
                },
                None => false,
            }
        }
    }

    /// Exchanges inputs `i` and `j` of the table. Exchanging an input with itself
    /// leaves the table as it is.
    pub fn rotate_lut(lut: &mut Vec<bool>, i: usize, j: usize)
        requires
            lut_shape(old(lut)@.len(), max_nat(i as nat, j as nat)),
        ensures
            final(lut)@ == rotated(old(lut)@, i as nat, j as nat),
    {
        let ghost m = max_nat(i as nat, j as nat);
        let n = lut.len();
        proof {
            lemma_shape_small(n as nat, m);
        }
        if lut.len() > 64 {
            general_rotate_lut(lut, i, j);
        } else {
            let ghost l = lut@;
            let w = lut.len();
            let x = lut_to_u64(lut);
            let rot = rotate64(x, i, j);
            let res = u64_to_lut(rot, w);
            proof {
                assert forall|k: int| 0 <= k < w implies res@[k] == l[swap_index(
                    k,
                    i as nat,
                    j as nat,
                )] by {
                    lemma_swap_index_gen(k as u64, i as u64, j as u64, m as u64);
                    lemma_swap_in_block(
                        k,
                        swap64(k as u64, i as u64, j as u64) as int,
                        m,
                        l.len(),
                    );
                }
                assert(res@ =~= rotated(l, i as nat, j as nat));
            }
            *lut = res;
        }
    }
}

} // verus!
