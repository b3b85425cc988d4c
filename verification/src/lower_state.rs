//! Before an operation is lowered, one whose index or table operand is a
//! literal becomes a static operation instead: a `Get` or `Set` at a known
//! index becomes a concatenation of fields, a `Lut` with a known table a
//! static table. The rest of the operations are either elementary already or
//! go to `lower_op`.

use vstd::prelude::*;
use vstd::arithmetic::power2::pow2;
use crate::meta::uval;
use crate::lower_op::value_below;
use crate::lut::lemma_input_index_range;

verus! {

/// What the rewrite reads of an operation: the widths of its operands, and
/// the bits of the operand that decides the rewrite where it is a literal.
pub enum StateOp {
    /// An operation that is already elementary
    Elementary,
    /// `Lut(table, inx)` of output width `out_w`, with the table's bits if
    /// it is a literal
    Lut { out_w: usize, inx_w: usize, table: Option<Vec<bool>> },
    /// `Get(bits, inx)` with the index's bits if it is a literal
    Get { bits_w: usize, inx: Option<Vec<bool>> },
    /// `Set(bits, inx, bit)` with the index's bits if it is a literal
    SetBit { bits_w: usize, inx: Option<Vec<bool>> },
    /// Any other operation
    Other,
}

/// What becomes of the operation.
#[derive(Debug, PartialEq)]
pub enum Rewrite {
    /// It is left as it is, and is elementary
    Keep,
    /// It is left as it is, and is lowered by `lower_op`
    NeedsLower,
    /// It becomes an opaque operation without operands: its value is unknown
    Opaque,
    /// It becomes a static table over its index operand
    StaticLut(Vec<bool>),
    /// It becomes a concatenation of fields, each `(operand, from, width)`
    ConcatFields(Vec<(usize, usize, usize)>),
    /// It becomes a copy of this operand
    Copy(usize),
}

/// What becomes of the operation, as specifications read it.
pub enum RewriteView {
    Keep,
    NeedsLower,
    Opaque,
    StaticLut(Seq<bool>),
    ConcatFields(Seq<(usize, usize, usize)>),
    Copy(usize),
}

impl View for Rewrite {
    type V = RewriteView;

    open spec fn view(&self) -> RewriteView {
        match self {
            Rewrite::Keep => RewriteView::Keep,
            Rewrite::NeedsLower => RewriteView::NeedsLower,
            Rewrite::Opaque => RewriteView::Opaque,
            Rewrite::StaticLut(t) => RewriteView::StaticLut(t@),
            Rewrite::ConcatFields(f) => RewriteView::ConcatFields(f@),
            Rewrite::Copy(o) => RewriteView::Copy(*o),
        }
    }
}

/// A `Set` at the known index `lit` of `bits_w` bits (operand 0), setting
/// it to operand 2: the bits below, the new bit, and the bits above; at an
/// index out of range, the bits unchanged.
pub open spec fn set_rewrite(bits_w: int, lit: int) -> RewriteView {
    if lit >= bits_w {
        RewriteView::Copy(0)
    } else if lit > 0 {
        if bits_w - 1 - lit > 0 {
            RewriteView::ConcatFields(
                seq![
                    (0usize, 0usize, lit as usize),
                    (2usize, 0usize, 1usize),
                    (0usize, (lit + 1) as usize, (bits_w - 1 - lit) as usize),
                ],
            )
        } else {
            RewriteView::ConcatFields(seq![(0usize, 0usize, lit as usize), (2usize, 0usize, 1usize)])
        }
    } else if bits_w - 1 > 0 {
        RewriteView::ConcatFields(seq![(2usize, 0usize, 1usize), (0usize, 1usize, (bits_w - 1) as usize)])
    } else {
        RewriteView::Copy(2)
    }
}

/// The rewrite of each operation.
pub open spec fn rewrite_of(op: StateOp) -> RewriteView {
    match op {
        StateOp::Elementary => RewriteView::Keep,
        StateOp::Lut { out_w, inx_w, table } => match table {
            Some(t) => if inx_w < usize::BITS && out_w * pow2(inx_w as nat) == t@.len() {
                RewriteView::StaticLut(t@)
            } else {
                RewriteView::Opaque
            },
            // a dynamic table is lowered on the lookup table node side
            None => RewriteView::Keep,
        },
        StateOp::Get { bits_w, inx } => match inx {
            Some(i) => if uval(i@) < bits_w {
                RewriteView::ConcatFields(seq![(0usize, uval(i@) as usize, 1usize)])
            } else {
                RewriteView::Opaque
            },
            None => RewriteView::NeedsLower,
        },
        StateOp::SetBit { bits_w, inx } => match inx {
            Some(i) => set_rewrite(bits_w as int, uval(i@)),
            None => RewriteView::NeedsLower,
        },
        StateOp::Other => RewriteView::NeedsLower,
    }
}

/// The bits of the fields, in order.
pub open spec fn fields_value(fields: Seq<(usize, usize, usize)>, operands: Seq<Seq<bool>>) -> Seq<bool>
    decreases fields.len(),
{
    if fields.len() == 0 {
        Seq::empty()
    } else {
        let f = fields[0];
        operands[f.0 as int].subrange(f.1 as int, f.1 + f.2) + fields_value(fields.drop_first(), operands)
    }
}

/// Decides what becomes of an operation before lowering: one whose index or
/// table is a literal becomes static, a literal index out of range makes a
/// `Get` unknown and a `Set` a copy, and a literal table of the wrong size
/// makes a `Lut` unknown.
pub fn static_rewrite(op: &StateOp) -> (r: Rewrite)
    requires
        op matches StateOp::Get { inx: Some(i), .. } ==> i@.len() <= usize::BITS,
        op matches StateOp::SetBit { inx: Some(i), .. } ==> i@.len() <= usize::BITS,
    ensures
        r@ == rewrite_of(*op),
{
    proof {
        lemma_usize_range();
    }
    match op {
        StateOp::Elementary => Rewrite::Keep,
        StateOp::Lut { out_w, inx_w, table } => match table {
            Some(t) => {
                // the table's size decides; one too large to compute cannot match
                let fits = if *inx_w < usize::BITS as usize {
                    let num_entries = crate::meta::pow2_usize(*inx_w);
                    match out_w.checked_mul(num_entries) {
                        Some(n) => n == t.len(),
                        None => false,
                    }
                } else {
                    false
                };
                if fits {
                    let tc = t.clone();
                    proof {
                        assert(tc@ =~= t@);
                    }
                    Rewrite::StaticLut(tc)
                } else {
                    Rewrite::Opaque
                }
            },
            None => Rewrite::Keep,
        },
        StateOp::Get { bits_w, inx } => match inx {
            Some(i) => match value_below(i, usize::MAX) {
                Some(lit) => {
                    if lit < *bits_w {
                        let fields = vec![(0usize, lit, 1usize)];
                        proof {
                            assert(fields@ =~= seq![(0usize, uval(i@) as usize, 1usize)]);
                        }
                        Rewrite::ConcatFields(fields)
                    } else {
                        Rewrite::Opaque
                    }
                },
                None => {
                    proof {
                        lemma_input_index_range(i@);
                        lemma_pow2_mono(i@.len(), usize::BITS as nat);
                    }
                    Rewrite::Opaque
                },
            },
            None => Rewrite::NeedsLower,
        },
        StateOp::SetBit { bits_w, inx } => match inx {
            Some(i) => {
                let lit = match value_below(i, usize::MAX) {
                    Some(lit) => lit,
                    None => {
                        proof {
                            lemma_input_index_range(i@);
                            lemma_pow2_mono(i@.len(), usize::BITS as nat);
                        }
                        return Rewrite::Copy(0);
                    },
                };
                let bits_w = *bits_w;
                if lit >= bits_w {
                    // a no-op
                    Rewrite::Copy(0)
                } else if lit > 0 {
                    let hi = bits_w - 1 - lit;
                    let above = lit + 1;
                    if hi > 0 {
                        let fields = vec![(0usize, 0usize, lit), (2usize, 0usize, 1usize), (0usize, above, hi)];
                        proof {
                            assert(fields@ =~= seq![
                                (0usize, 0usize, lit as usize),
                                (2usize, 0usize, 1usize),
                                (0usize, (lit + 1) as usize, (bits_w - 1 - lit) as usize),
                            ]);
                        }
                        Rewrite::ConcatFields(fields)
                    } else {
                        // setting the last bit
                        let fields = vec![(0usize, 0usize, lit), (2usize, 0usize, 1usize)];
                        proof {
                            assert(fields@ =~= seq![(0usize, 0usize, lit as usize), (2usize, 0usize, 1usize)]);
                        }
                        Rewrite::ConcatFields(fields)
                    }
                } else if bits_w - 1 > 0 {
                    // setting the first bit
                    let rest = bits_w - 1;
                    let fields = vec![(2usize, 0usize, 1usize), (0usize, 1usize, rest)];
                    proof {
                        assert(fields@ =~= seq![(2usize, 0usize, 1usize), (0usize, 1usize, (bits_w - 1) as usize)]);
                    }
                    Rewrite::ConcatFields(fields)
                } else {
                    // setting a single bit
                    Rewrite::Copy(2)
                }
            },
            None => Rewrite::NeedsLower,
        },
        StateOp::Other => Rewrite::NeedsLower,
    }
}

proof fn lemma_usize_range()
    ensures
        pow2(usize::BITS as nat) == usize::MAX + 1,
{
    vstd::arithmetic::power2::lemma2_to64();
}

proof fn lemma_pow2_mono(a: nat, b: nat)
    requires
        a <= b,
    ensures
        pow2(a) <= pow2(b),
{
    if a < b {
        vstd::arithmetic::power2::lemma_pow2_strictly_increases(a, b);
    }
}

/// A literal table of `out_w * 2^inx_w` entries (for any number `out_w` of
/// output bits) over an index of `inx_w < usize::BITS` bits becomes a static
/// table holding exactly those entries; a literal table of any other size
/// makes the value unknown.
pub proof fn law_static_lut_of_literal_table(out_w: usize, inx_w: usize, t: Vec<bool>)
    requires
        inx_w < usize::BITS,
    ensures
        t@.len() == out_w * pow2(inx_w as nat) ==> rewrite_of(StateOp::Lut { out_w, inx_w, table: Some(t) })
            == RewriteView::StaticLut(t@),
        t@.len() != out_w * pow2(inx_w as nat) ==> rewrite_of(StateOp::Lut { out_w, inx_w, table: Some(t) })
            == RewriteView::Opaque,
        rewrite_of(StateOp::Lut { out_w, inx_w, table: None }) == RewriteView::Keep,
{
}

/// The value a static rewrite gives from the operands' values, where it is
/// a concatenation or a copy.
pub open spec fn rewrite_value(rw: RewriteView, operands: Seq<Seq<bool>>) -> Option<Seq<bool>> {
    match rw {
        RewriteView::ConcatFields(f) => Some(fields_value(f, operands)),
        RewriteView::Copy(o) => Some(operands[o as int]),
        _ => None,
    }
}

/// The static form of a `Get` at a literal index reads the bit it names,
/// and that of a `Set` writes it (or, at an index out of range, leaves the
/// bits as they are): what the operations themselves do.
pub proof fn law_static_get_set_keep_value(bits: Seq<bool>, inx: Vec<bool>, bit: Seq<bool>)
    requires
        1 <= bits.len() <= usize::MAX,
        bit.len() == 1,
    ensures
        rewrite_value(
            rewrite_of(StateOp::Get { bits_w: bits.len() as usize, inx: Some(inx) }),
            seq![bits, inx@],
        ) == if uval(inx@) < bits.len() {
            Some(seq![bits[uval(inx@)]])
        } else {
            None::<Seq<bool>>
        },
        rewrite_value(
            rewrite_of(StateOp::SetBit { bits_w: bits.len() as usize, inx: Some(inx) }),
            seq![bits, inx@, bit],
        ) == Some(
            if uval(inx@) < bits.len() {
                bits.update(uval(inx@), bit[0])
            } else {
                bits
            },
        ),
{
    let n = bits.len() as int;
    let lit = uval(inx@);
    lemma_input_index_range(inx@);
    let ops2 = seq![bits, inx@];
    let ops3 = seq![bits, inx@, bit];
    if lit < n {
        assert((lit as usize) as int == lit);
        assert(((lit + 1) as usize) as int == lit + 1);
        assert(((n - 1 - lit) as usize) as int == n - 1 - lit);
        assert(((n - 1) as usize) as int == n - 1);
        let f = seq![(0usize, lit as usize, 1usize)];
        assert(f.drop_first() =~= Seq::<(usize, usize, usize)>::empty());
        assert(ops2[0] == bits);
        assert(fields_value(f.drop_first(), ops2) == Seq::<bool>::empty());
        assert(fields_value(f, ops2) == bits.subrange(lit, lit + 1) + fields_value(f.drop_first(), ops2));
        assert(fields_value(f, ops2) =~= seq![bits[lit]]);
        if lit > 0 {
            if n - 1 - lit > 0 {
                let g = seq![
                    (0usize, 0usize, lit as usize),
                    (2usize, 0usize, 1usize),
                    (0usize, (lit + 1) as usize, (n - 1 - lit) as usize),
                ];
                let g2 = g.drop_first().drop_first();
                assert(g2.drop_first() =~= Seq::<(usize, usize, usize)>::empty());
                assert(ops3[0] == bits && ops3[2] == bit);
                assert(g2[0] == (0usize, (lit + 1) as usize, (n - 1 - lit) as usize));
                assert(fields_value(g2.drop_first(), ops3) == Seq::<bool>::empty());
                assert(fields_value(g2, ops3) == bits.subrange(lit + 1, n) + fields_value(g2.drop_first(), ops3));
                assert(fields_value(g2, ops3) =~= bits.subrange(lit + 1, n));
                assert(fields_value(g.drop_first(), ops3) =~= bit + bits.subrange(lit + 1, n));
                assert(fields_value(g, ops3) =~= bits.update(lit, bit[0]));
            } else {
                let g = seq![(0usize, 0usize, lit as usize), (2usize, 0usize, 1usize)];
                let g1 = g.drop_first();
                assert(g1.drop_first() =~= Seq::<(usize, usize, usize)>::empty());
                assert(ops3[0] == bits && ops3[2] == bit);
                assert(g1[0] == (2usize, 0usize, 1usize));
                assert(fields_value(g1.drop_first(), ops3) == Seq::<bool>::empty());
                assert(fields_value(g1, ops3) == bit.subrange(0, 1) + fields_value(g1.drop_first(), ops3));
                assert(fields_value(g1, ops3) =~= bit);
                assert(fields_value(g, ops3) =~= bits.update(lit, bit[0]));
            }
        } else if n - 1 > 0 {
            let g = seq![(2usize, 0usize, 1usize), (0usize, 1usize, (n - 1) as usize)];
            let g1 = g.drop_first();
            assert(g1.drop_first() =~= Seq::<(usize, usize, usize)>::empty());
            assert(ops3[0] == bits && ops3[2] == bit);
            assert(g1[0] == (0usize, 1usize, (n - 1) as usize));
            assert(fields_value(g1.drop_first(), ops3) == Seq::<bool>::empty());
            assert(fields_value(g1, ops3) == bits.subrange(1, n) + fields_value(g1.drop_first(), ops3));
            assert(fields_value(g1, ops3) =~= bits.subrange(1, n));
            assert(fields_value(g, ops3) =~= bits.update(lit, bit[0]));
        } else {
            assert(bit =~= bits.update(lit, bit[0]));
        }
    }
}

} // verus!
