//! Lowering of elementary operations into lookup table nodes: which output
//! bit becomes the same equivalence as which operand bit, which output bits
//! become new static or dynamic tables, and which become temporal nodes.

use vstd::prelude::*;
use vstd::arithmetic::power2::{pow2, lemma2_to64, lemma_pow2_unfold};
use crate::error::EvalError;
use crate::meta::uval;
use crate::tnode::Delay;
use crate::value::Value;

verus! {

/// Bit `bit` of operand `operand`.
#[derive(Clone, Copy, Debug, PartialEq, Eq, Structural)]
pub struct OperandBit {
    pub operand: usize,
    pub bit: usize,
}

/// The name an opaque operation carries.
#[derive(Clone, Copy, Debug, PartialEq, Eq, Structural)]
pub enum OpaqueName {
    Delay,
    UndrivenLoopSource,
    LoopSource,
    DelayedLoopSource,
    /// A name lowering does not know
    Other,
}

/// An operand of an opaque operation: its width, its bits if it is an
/// argument literal, and the current value of each of its bits.
#[derive(Clone, Debug)]
pub struct OpaqueArg {
    pub width: usize,
    pub argument: Option<Vec<bool>>,
    pub values: Vec<Value>,
}

/// An elementary operation with what lowering reads of its operands.
pub enum ElementaryOp {
    /// `Assert(x_width)`
    Assert(usize),
    /// `Copy(x_width)`
    Copy(usize),
    /// `StaticGet(bits_width, inx)`
    StaticGet(usize, usize),
    /// `Concat(widths)`
    Concat(Vec<usize>),
    /// `ConcatFields(fields)`, each `(operand_width, from, width)`
    ConcatFields(Vec<(usize, usize, usize)>),
    /// `Repeat(x_width)`
    Repeat(usize),
    /// `StaticLut(widths, table)`: the index is all the operands' bits
    /// together, the first operand least significant
    StaticLut(Vec<usize>, Vec<bool>),
    /// `Lut(table_bits_present, inx_width)`: which bits of the table operand
    /// exist
    Lut(Vec<bool>, usize),
    /// `Mux(lhs_width, rhs_width, b_width)`
    Mux(usize, usize, usize),
    /// `Opaque(args, name)`, `None` for an unnamed one
    Opaque(Vec<OpaqueArg>, Option<OpaqueName>),
    /// Any operation that is not elementary
    Other,
}

/// What happens to one output bit.
#[derive(Clone, Debug, PartialEq)]
pub enum BitAction {
    /// Output bit `.0` is the same equivalence as the operand bit
    Unify(usize, OperandBit),
    /// Output bit `.0` is a new table over these bits
    StaticLut(usize, Vec<OperandBit>, Vec<bool>),
    /// Output bit `.0` is a new table over these bits whose entries are these
    /// operand bits, `None` for an entry of permanently unknown value
    DynamicLut(usize, Vec<OperandBit>, Vec<Option<OperandBit>>),
    /// Output bit `source` is driven by `driver` after `delay`; `eval_now`
    /// sets up the drive at once, `backup_event` adds an event of least
    /// priority for it, and `initial` is the value to start from
    Temporal {
        source: usize,
        driver: OperandBit,
        delay: Delay,
        eval_now: bool,
        backup_event: bool,
        initial: Option<Value>,
    },
}

/// What happens to one output bit, as specifications read it.
pub enum ActionView {
    Unify(usize, OperandBit),
    StaticLut(usize, Seq<OperandBit>, Seq<bool>),
    DynamicLut(usize, Seq<OperandBit>, Seq<Option<OperandBit>>),
    Temporal {
        source: usize,
        driver: OperandBit,
        delay: u128,
        eval_now: bool,
        backup_event: bool,
        initial: Option<Value>,
    },
}

impl View for BitAction {
    type V = ActionView;

    open spec fn view(&self) -> ActionView {
        match self {
            BitAction::Unify(o, b) => ActionView::Unify(*o, *b),
            BitAction::StaticLut(o, inx, t) => ActionView::StaticLut(*o, inx@, t@),
            BitAction::DynamicLut(o, inx, t) => ActionView::DynamicLut(*o, inx@, t@),
            BitAction::Temporal { source, driver, delay, eval_now, backup_event, initial } => {
                ActionView::Temporal {
                    source: *source,
                    driver: *driver,
                    delay: delay@,
                    eval_now: *eval_now,
                    backup_event: *backup_event,
                    initial: *initial,
                }
            },
        }
    }
}

pub open spec fn obit(operand: int, bit: int) -> OperandBit {
    OperandBit { operand: operand as usize, bit: bit as usize }
}

/// The sum of the first `c` widths.
pub open spec fn prefix_sum(widths: Seq<usize>, c: int) -> int
    decreases c,
{
    if c <= 0 {
        0
    } else {
        prefix_sum(widths, c - 1) + widths[c - 1]
    }
}

/// Output bits from `to` on unified with the bits of operands `c` and on,
/// in order.
pub open spec fn concat_actions(widths: Seq<usize>, c: int, to: int) -> Seq<ActionView>
    decreases widths.len() - c,
{
    if c < 0 || c >= widths.len() {
        Seq::empty()
    } else {
        Seq::new(widths[c] as nat, |i: int| ActionView::Unify((to + i) as usize, obit(c, i)))
            + concat_actions(widths, c + 1, to + widths[c])
    }
}

/// Output bits from `to` on unified with the fields of operands `c` and on.
pub open spec fn field_actions(fields: Seq<(usize, usize, usize)>, c: int, to: int) -> Seq<ActionView>
    decreases fields.len() - c,
{
    if c < 0 || c >= fields.len() {
        Seq::empty()
    } else {
        Seq::new(
            fields[c].2 as nat,
            |i: int| ActionView::Unify((to + i) as usize, obit(c, fields[c].1 + i)),
        ) + field_actions(fields, c + 1, to + fields[c].2)
    }
}

/// Every bit of operands `c` and on, in order.
pub open spec fn all_bits(widths: Seq<usize>, c: int) -> Seq<OperandBit>
    decreases widths.len() - c,
{
    if c < 0 || c >= widths.len() {
        Seq::empty()
    } else {
        Seq::new(widths[c] as nat, |i: int| obit(c, i)) + all_bits(widths, c + 1)
    }
}

/// The delay an argument gives: it must be a literal of at most 128 bits
/// that is not zero.
pub open spec fn delay_of(arg: Option<Vec<bool>>) -> Option<u128> {
    match arg {
        Some(bits) => if bits@.len() <= 128 && uval(bits@) != 0 {
            Some(uval(bits@) as u128)
        } else {
            None
        },
        None => None,
    }
}

/// The value a loop starts from, for an initial value that is constant.
pub open spec fn loop_initial(v: Value) -> Option<Value> {
    match v {
        Value::ConstUnknown => Some(Value::Unknown),
        Value::Const(b) => Some(Value::Dynam(b)),
        _ => None,
    }
}

/// Every initial value of a loop is constant.
pub open spec fn initials_constant(values: Seq<Value>, w: nat) -> bool {
    forall|i: int| 0 <= i < w ==> (#[trigger] loop_initial(values[i])) is Some
}

/// Operands of consistent widths, as lowering finds them.
pub open spec fn elementary_wf(op: ElementaryOp, out_w: nat) -> bool {
    match op {
        ElementaryOp::Assert(x_w) => x_w == out_w,
        ElementaryOp::Copy(x_w) => x_w == out_w,
        ElementaryOp::StaticGet(bits_w, inx) => inx < bits_w && out_w == 1,
        ElementaryOp::Concat(widths) => prefix_sum(widths@, widths@.len() as int) == out_w,
        ElementaryOp::ConcatFields(fields) => {
            &&& prefix_sum(fields@.map_values(|f: (usize, usize, usize)| f.2), fields@.len() as int) == out_w
            &&& forall|c: int| 0 <= c < fields@.len() ==> #[trigger] fields@[c].1 + fields@[c].2 <= fields@[c].0
        },
        ElementaryOp::Repeat(x_w) => x_w >= 1,
        ElementaryOp::StaticLut(widths, lut) => {
            &&& all_bits(widths@, 0).len() < usize::BITS
            &&& lut@.len() == out_w * pow2(all_bits(widths@, 0).len())
        },
        ElementaryOp::Lut(present, inx_w) => {
            &&& inx_w < usize::BITS
            &&& present@.len() == out_w * pow2(inx_w as nat)
        },
        ElementaryOp::Mux(lhs_w, rhs_w, b_w) => lhs_w == out_w && rhs_w == out_w && b_w == 1,
        ElementaryOp::Opaque(args, name) => {
            &&& forall|k: int| 0 <= k < args@.len() ==> (#[trigger] args@[k]).values@.len() == args@[k].width
            &&& (name == Some(OpaqueName::Delay) && args@.len() == 2 ==> args@[0].width >= out_w)
        },
        ElementaryOp::Other => true,
    }
}

/// Lowering fails on this operation.
pub open spec fn elementary_refused(op: ElementaryOp, out_w: nat) -> bool {
    match op {
        ElementaryOp::Opaque(args, name) => match name {
            None => false,
            Some(OpaqueName::Delay) => args@.len() != 2 || delay_of(args@[1].argument) is None,
            Some(OpaqueName::LoopSource) => {
                ||| args@.len() != 2
                ||| args@[0].width != out_w
                ||| args@[1].width != out_w
                ||| !initials_constant(args@[0].values@, out_w)
            },
            Some(OpaqueName::DelayedLoopSource) => {
                ||| args@.len() != 3
                ||| args@[0].width != out_w
                ||| args@[1].width != out_w
                ||| delay_of(args@[2].argument) is None
                ||| !initials_constant(args@[0].values@, out_w)
            },
            _ => true,
        },
        ElementaryOp::Other => true,
        _ => false,
    }
}

proof fn lemma_all_bits_len(widths: Seq<usize>, c0: int)
    requires
        0 <= c0 <= widths.len(),
    ensures
        all_bits(widths, c0).len() == prefix_sum(widths, widths.len() as int) - prefix_sum(widths, c0),
    decreases widths.len() - c0,
{
    if c0 < widths.len() {
        lemma_all_bits_len(widths, c0 + 1);
    }
}

proof fn lemma_all_bits_at(widths: Seq<usize>, c0: int, c: int, k: int)
    requires
        0 <= c0 <= c < widths.len(),
        0 <= k < widths[c],
    ensures
        all_bits(widths, c0)[prefix_sum(widths, c) - prefix_sum(widths, c0) + k] == obit(c, k),
    decreases c - c0,
{
    let first = Seq::new(widths[c0] as nat, |i: int| obit(c0, i));
    let rest = all_bits(widths, c0 + 1);
    assert(all_bits(widths, c0) == first + rest);
    if c0 < c {
        lemma_all_bits_at(widths, c0 + 1, c, k);
        lemma_prefix_sum_mono(widths, c0 + 1, c);
        lemma_all_bits_len(widths, c0 + 1);
        lemma_prefix_sum_mono(widths, c + 1, widths.len() as int);
    }
}

/// Lowering a static table: each output bit gets a table whose index is the
/// operands' bits in order, the first operand's bit 0 least significant, bit
/// `k` of operand `c` at place `prefix_sum(widths, c) + k`; and whose entry at
/// each index is the table's entry for that index and output bit.
pub proof fn law_static_lut_index_order(widths: Vec<usize>, lut: Vec<bool>, out_w: usize, b: int, c: int, k: int)
    requires
        0 <= b < out_w,
        0 <= c < widths@.len(),
        0 <= k < widths@[c],
    ensures
        elementary_actions(ElementaryOp::StaticLut(widths, lut), out_w as nat)[b] matches ActionView::StaticLut(o, bits, t) && o == b
            && bits.len() == prefix_sum(widths@, widths@.len() as int)
            && bits[prefix_sum(widths@, c) + k] == obit(c, k)
            && forall|i: int| 0 <= i < t.len() ==> #[trigger] t[i] == lut@[i * out_w + b],
{
    lemma_all_bits_at(widths@, 0, c, k);
    lemma_all_bits_len(widths@, 0);
    assert(elementary_actions(ElementaryOp::StaticLut(widths, lut), out_w as nat) == static_lut_actions(widths@, lut@, out_w as nat));
}

/// A static table per output bit over every operand bit, holding the
/// entries of `lut` for that output.
pub open spec fn static_lut_actions(widths: Seq<usize>, lut: Seq<bool>, out_w: nat) -> Seq<ActionView> {
    Seq::new(
        out_w,
        |b: int|
            ActionView::StaticLut(
                b as usize,
                all_bits(widths, 0),
                Seq::new(pow2(all_bits(widths, 0).len()), |i: int| lut[i * out_w + b]),
            ),
    )
}

/// A dynamic table per output bit over the index operand (operand 1), whose
/// entries are the bits of the table operand (operand 0) for that output,
/// those that do not exist being unknown.
pub open spec fn dynamic_lut_actions(present: Seq<bool>, inx_w: nat, out_w: nat) -> Seq<ActionView> {
    Seq::new(
        out_w,
        |b: int|
            ActionView::DynamicLut(
                b as usize,
                Seq::new(inx_w, |i: int| obit(1, i)),
                Seq::new(
                    pow2(inx_w),
                    |i: int|
                        if present[i * out_w + b] {
                            Some(obit(0, i * out_w + b))
                        } else {
                            None
                        },
                ),
            ),
    )
}

/// A two entry table per output bit: operand 0's bit or operand 1's,
/// selected by operand 2.
pub open spec fn mux_actions(out_w: nat) -> Seq<ActionView> {
    Seq::new(
        out_w,
        |b: int| ActionView::DynamicLut(b as usize, seq![obit(2, 0)], seq![Some(obit(0, b)), Some(obit(1, b))]),
    )
}

/// Output bit `i` driven by bit `i` of operand 0 after `delay`, the drive
/// set up at once unless the driver is still unknown.
pub open spec fn delay_actions(values: Seq<Value>, delay: u128, out_w: nat) -> Seq<ActionView> {
    Seq::new(
        out_w,
        |i: int|
            ActionView::Temporal {
                source: i as usize,
                driver: obit(0, i),
                delay: delay,
                eval_now: values[i] != Value::Unknown,
                backup_event: false,
                initial: None,
            },
    )
}

/// Output bit `i` of a loop driven by bit `i` of operand 1 after `delay`,
/// starting from the initial value of operand 0's bit `i`. A delayed loop
/// sets up its drive at once, one without delay gets an event of least
/// priority instead.
pub open spec fn loop_actions(initial: Seq<Value>, delay: u128, delayed: bool, out_w: nat) -> Seq<ActionView> {
    Seq::new(
        out_w,
        |i: int|
            ActionView::Temporal {
                source: i as usize,
                driver: obit(1, i),
                delay: delay,
                eval_now: delayed,
                backup_event: !delayed,
                initial: loop_initial(initial[i]),
            },
    )
}

/// What lowering does to each output bit, in order.
pub open spec fn elementary_actions(op: ElementaryOp, out_w: nat) -> Seq<ActionView> {
    match op {
        ElementaryOp::Assert(x_w) => Seq::new(out_w, |i: int| ActionView::Unify(i as usize, obit(0, i))),
        ElementaryOp::Copy(x_w) => Seq::new(out_w, |i: int| ActionView::Unify(i as usize, obit(0, i))),
        ElementaryOp::StaticGet(bits_w, inx) => seq![ActionView::Unify(0, obit(0, inx as int))],
        ElementaryOp::Concat(widths) => concat_actions(widths@, 0, 0),
        ElementaryOp::ConcatFields(fields) => field_actions(fields@, 0, 0),
        ElementaryOp::Repeat(x_w) => Seq::new(
            out_w,
            |i: int| ActionView::Unify(i as usize, obit(0, i % (x_w as int))),
        ),
        ElementaryOp::StaticLut(widths, lut) => static_lut_actions(widths@, lut@, out_w),
        ElementaryOp::Lut(present, inx_w) => dynamic_lut_actions(present@, inx_w as nat, out_w),
        ElementaryOp::Mux(lhs_w, rhs_w, b_w) => mux_actions(out_w),
        ElementaryOp::Opaque(args, name) => match name {
            Some(OpaqueName::Delay) => delay_actions(args@[0].values@, delay_of(args@[1].argument)->0, out_w),
            Some(OpaqueName::LoopSource) => loop_actions(args@[0].values@, 0, false, out_w),
            Some(OpaqueName::DelayedLoopSource) => loop_actions(
                args@[0].values@,
                delay_of(args@[2].argument)->0,
                true,
                out_w,
            ),
            _ => Seq::empty(),
        },
        ElementaryOp::Other => Seq::empty(),
    }
}

proof fn lemma_prefix_sum_mono(widths: Seq<usize>, a: int, b: int)
    requires
        0 <= a <= b <= widths.len(),
    ensures
        prefix_sum(widths, a) <= prefix_sum(widths, b),
    decreases b - a,
{
    if a < b {
        lemma_prefix_sum_mono(widths, a, b - 1);
    }
}

/// Unifies the output bits with the operands' bits one after another.
fn concat_plan(widths: &Vec<usize>) -> (r: Vec<BitAction>)
    requires
        prefix_sum(widths@, widths@.len() as int) <= usize::MAX,
    ensures
        r@.map_values(|a: BitAction| a@) == concat_actions(widths@, 0, 0),
{
    let ghost total = concat_actions(widths@, 0, 0);
    let mut out: Vec<BitAction> = Vec::new();
    let mut to: usize = 0;
    let mut c: usize = 0;
    proof {
        assert(out@.map_values(|a: BitAction| a@) =~= Seq::<ActionView>::empty());
        assert(Seq::<ActionView>::empty() + total =~= total);
    }
    while c < widths.len()
        invariant
            c <= widths@.len(),
            to == prefix_sum(widths@, c as int),
            prefix_sum(widths@, widths@.len() as int) <= usize::MAX,
            out@.map_values(|a: BitAction| a@) + concat_actions(widths@, c as int, to as int) == total,
        decreases widths@.len() - c,
    {
        let w = widths[c];
        proof {
            lemma_prefix_sum_mono(widths@, c as int + 1, widths@.len() as int);
        }
        let mut i: usize = 0;
        while i < w
            invariant
                c < widths@.len(),
                w == widths@[c as int],
                i <= w,
                to + w <= usize::MAX,
                out@.map_values(|a: BitAction| a@) + Seq::new(
                    (w - i) as nat,
                    |t: int| ActionView::Unify((to + i + t) as usize, obit(c as int, i + t)),
                ) + concat_actions(widths@, c + 1, to + w) == total,
            decreases w - i,
        {
            let a = BitAction::Unify(to + i, OperandBit { operand: c, bit: i });
            let ghost before = out@.map_values(|a: BitAction| a@);
            let ghost rest = concat_actions(widths@, c + 1, to + w);
            out.push(a);
            proof {
                let old_s = Seq::new(
                    (w - i) as nat,
                    |t: int| ActionView::Unify((to + i + t) as usize, obit(c as int, i + t)),
                );
                let new_s = Seq::new(
                    (w - (i + 1)) as nat,
                    |t: int| ActionView::Unify((to + (i + 1) + t) as usize, obit(c as int, (i + 1) + t)),
                );
                assert(old_s =~= seq![a@] + new_s);
                assert(out@.map_values(|a: BitAction| a@) =~= before.push(a@));
                assert(before + old_s + rest =~= before.push(a@) + new_s + rest);
            }
            i = i + 1;
        }
        proof {
            let s0 = Seq::new(
                (w - i) as nat,
                |t: int| ActionView::Unify((to + i + t) as usize, obit(c as int, i + t)),
            );
            assert(s0 =~= Seq::<ActionView>::empty());
            let here = Seq::new(w as nat, |t: int| ActionView::Unify((to + t) as usize, obit(c as int, t)));
            assert(concat_actions(widths@, c as int, to as int) == here + concat_actions(widths@, c + 1, to + w));
            let m = out@.map_values(|a: BitAction| a@);
            assert(m + s0 + concat_actions(widths@, c + 1, to + w) =~= m + concat_actions(widths@, c + 1, to + w));
        }
        to = to + w;
        c = c + 1;
    }
    proof {
        let m = out@.map_values(|a: BitAction| a@);
        assert(m + concat_actions(widths@, c as int, to as int) =~= m);
    }
    out
}

/// Unifies the output bits with the operands' fields one after another.
fn field_plan(fields: &Vec<(usize, usize, usize)>) -> (r: Vec<BitAction>)
    requires
        prefix_sum(fields@.map_values(|f: (usize, usize, usize)| f.2), fields@.len() as int) <= usize::MAX,
        forall|c: int| 0 <= c < fields@.len() ==> #[trigger] fields@[c].1 + fields@[c].2 <= fields@[c].0,
    ensures
        r@.map_values(|a: BitAction| a@) == field_actions(fields@, 0, 0),
{
    let ghost widths = fields@.map_values(|f: (usize, usize, usize)| f.2);
    let ghost total = field_actions(fields@, 0, 0);
    let mut out: Vec<BitAction> = Vec::new();
    let mut to: usize = 0;
    let mut c: usize = 0;
    proof {
        assert(out@.map_values(|a: BitAction| a@) =~= Seq::<ActionView>::empty());
        assert(Seq::<ActionView>::empty() + total =~= total);
    }
    while c < fields.len()
        invariant
            c <= fields@.len(),
            widths == fields@.map_values(|f: (usize, usize, usize)| f.2),
            to == prefix_sum(widths, c as int),
            prefix_sum(widths, fields@.len() as int) <= usize::MAX,
            forall|k: int| 0 <= k < fields@.len() ==> #[trigger] fields@[k].1 + fields@[k].2 <= fields@[k].0,
            out@.map_values(|a: BitAction| a@) + field_actions(fields@, c as int, to as int) == total,
        decreases fields@.len() - c,
    {
        let (_, from, w) = fields[c];
        proof {
            lemma_prefix_sum_mono(widths, c as int + 1, fields@.len() as int);
            assert(widths[c as int] == w);
            assert(from + w <= fields@[c as int].0);
        }
        let mut i: usize = 0;
        while i < w
            invariant
                c < fields@.len(),
                w == fields@[c as int].2,
                from == fields@[c as int].1,
                from + w <= usize::MAX,
                i <= w,
                to + w <= usize::MAX,
                out@.map_values(|a: BitAction| a@) + Seq::new(
                    (w - i) as nat,
                    |t: int| ActionView::Unify((to + i + t) as usize, obit(c as int, from + i + t)),
                ) + field_actions(fields@, c + 1, to + w) == total,
            decreases w - i,
        {
            let a = BitAction::Unify(to + i, OperandBit { operand: c, bit: from + i });
            let ghost before = out@.map_values(|a: BitAction| a@);
            let ghost rest = field_actions(fields@, c + 1, to + w);
            out.push(a);
            proof {
                let old_s = Seq::new(
                    (w - i) as nat,
                    |t: int| ActionView::Unify((to + i + t) as usize, obit(c as int, from + i + t)),
                );
                let new_s = Seq::new(
                    (w - (i + 1)) as nat,
                    |t: int| ActionView::Unify((to + (i + 1) + t) as usize, obit(c as int, from + (i + 1) + t)),
                );
                assert(old_s =~= seq![a@] + new_s);
                assert(out@.map_values(|a: BitAction| a@) =~= before.push(a@));
                assert(before + old_s + rest =~= before.push(a@) + new_s + rest);
            }
            i = i + 1;
        }
        proof {
            let s0 = Seq::new(
                (w - i) as nat,
                |t: int| ActionView::Unify((to + i + t) as usize, obit(c as int, from + i + t)),
            );
            assert(s0 =~= Seq::<ActionView>::empty());
            let here = Seq::new(w as nat, |t: int| ActionView::Unify((to + t) as usize, obit(c as int, from + t)));
            assert(here =~= Seq::new(
                fields@[c as int].2 as nat,
                |t: int| ActionView::Unify((to + t) as usize, obit(c as int, fields@[c as int].1 + t)),
            ));
            assert(field_actions(fields@, c as int, to as int) == here + field_actions(fields@, c + 1, to + w));
            let m = out@.map_values(|a: BitAction| a@);
            assert(m + s0 + field_actions(fields@, c + 1, to + w) =~= m + field_actions(fields@, c + 1, to + w));
        }
        to = to + w;
        c = c + 1;
    }
    proof {
        let m = out@.map_values(|a: BitAction| a@);
        assert(m + field_actions(fields@, c as int, to as int) =~= m);
    }
    out
}

/// Every bit of every operand, the first operand's first.
fn operand_bits(widths: &Vec<usize>) -> (r: Vec<OperandBit>)
    requires
        all_bits(widths@, 0).len() <= usize::MAX,
    ensures
        r@ == all_bits(widths@, 0),
{
    let ghost total = all_bits(widths@, 0);
    let mut out: Vec<OperandBit> = Vec::new();
    let mut c: usize = 0;
    proof {
        assert(Seq::<OperandBit>::empty() + total =~= total);
    }
    while c < widths.len()
        invariant
            c <= widths@.len(),
            out@ + all_bits(widths@, c as int) == total,
        decreases widths@.len() - c,
    {
        let w = widths[c];
        let mut i: usize = 0;
        while i < w
            invariant
                c < widths@.len(),
                w == widths@[c as int],
                i <= w,
                out@ + Seq::new((w - i) as nat, |t: int| obit(c as int, i + t)) + all_bits(widths@, c + 1) == total,
            decreases w - i,
        {
            let ghost before = out@;
            out.push(OperandBit { operand: c, bit: i });
            proof {
                let old_s = Seq::new((w - i) as nat, |t: int| obit(c as int, i + t));
                let new_s = Seq::new((w - (i + 1)) as nat, |t: int| obit(c as int, (i + 1) + t));
                assert(old_s =~= seq![obit(c as int, i as int)] + new_s);
                assert(before + old_s + all_bits(widths@, c + 1) =~= out@ + new_s + all_bits(widths@, c + 1));
            }
            i = i + 1;
        }
        proof {
            let s0 = Seq::new((w - i) as nat, |t: int| obit(c as int, i + t));
            assert(s0 =~= Seq::<OperandBit>::empty());
            let here = Seq::new(w as nat, |t: int| obit(c as int, t));
            assert(all_bits(widths@, c as int) == here + all_bits(widths@, c + 1));
            assert(out@ + s0 + all_bits(widths@, c + 1) =~= out@ + all_bits(widths@, c + 1));
        }
        c = c + 1;
    }
    proof {
        assert(out@ + all_bits(widths@, c as int) =~= out@);
    }
    out
}

proof fn lemma_pow2_128()
    ensures
        pow2(128) == u128::MAX + 1,
{
    lemma2_to64();
    vstd::arithmetic::power2::lemma_pow2_adds(64, 64);
    assert(0x10000000000000000int * 0x10000000000000000int == 0x100000000000000000000000000000000int);
}

/// The value of at most 128 bits.
fn bits_to_u128(x: &Vec<bool>) -> (r: u128)
    requires
        x@.len() <= 128,
    ensures
        r == uval(x@),
{
    let n = x.len();
    let mut acc: u128 = 0;
    let mut i: usize = n;
    proof {
        lemma2_to64();
        assert(x@.subrange(n as int, n as int) =~= Seq::<bool>::empty());
    }
    while i > 0
        invariant
            i <= n == x@.len() <= 128,
            acc == uval(x@.subrange(i as int, n as int)),
            acc < pow2((n - i) as nat),
        decreases i,
    {
        i = i - 1;
        proof {
            let s = x@.subrange(i as int, n as int);
            assert(s.drop_first() =~= x@.subrange(i + 1, n as int));
            assert(s[0] == x@[i as int]);
            lemma_pow2_unfold((n - i) as nat);
            lemma_pow2_128();
            if n - i < 128 {
                vstd::arithmetic::power2::lemma_pow2_strictly_increases((n - i) as nat, 128);
            }
        }
        let b: u128 = if x[i] {
            1
        } else {
            0
        };
        acc = 2 * acc + b;
    }
    proof {
        assert(x@.subrange(0, n as int) =~= x@);
    }
    acc
}

/// The delay given by a delay argument.
fn delay_from(arg: &Option<Vec<bool>>) -> (r: Result<Delay, EvalError>)
    ensures
        r is Ok <==> delay_of(*arg) is Some,
        r matches Ok(d) ==> d@ == delay_of(*arg)->0,
        r matches Err(e) ==> e is OtherStr,
{
    match arg {
        Some(bits) => {
            // the delay should have had its leading zeros cut off
            if bits.len() > 128 {
                return Err(EvalError::OtherStr("`Delay` delay amount is unexpectedly large"));
            }
            let amount = bits_to_u128(bits);
            if amount == 0 {
                // the function that creates `Delay` is supposed to do a no-op or
                // copy instead
                return Err(EvalError::OtherStr("`Delay` delay amount is zero"));
            }
            Ok(Delay::from_amount(amount))
        },
        None => Err(EvalError::OtherStr("`Delay` does not use the correct `Op::Argument`")),
    }
}

/// The starting values of a loop's bits, an error if one is not constant.
fn loop_initials(values: &Vec<Value>, w: usize) -> (r: Result<Vec<Value>, EvalError>)
    requires
        values@.len() == w,
    ensures
        r is Ok <==> initials_constant(values@, w as nat),
        r matches Ok(v) ==> v@.len() == w && forall|i: int| 0 <= i < w ==> Some(#[trigger] v@[i]) == loop_initial(values@[i]),
        r matches Err(e) ==> e is OtherStr,
{
    let mut out: Vec<Value> = Vec::new();
    let mut i: usize = 0;
    while i < w
        invariant
            values@.len() == w,
            i <= w,
            out@.len() == i,
            forall|k: int| 0 <= k < i ==> Some(#[trigger] out@[k]) == loop_initial(values@[k]),
        decreases w - i,
    {
        // a constant value becomes a dynamic one
        let v = match values[i] {
            Value::ConstUnknown => Value::Unknown,
            Value::Const(b) => Value::Dynam(b),
            Value::Unknown | Value::Dynam(_) => {
                proof {
                    assert(loop_initial(values@[i as int]) is None);
                }
                return Err(
                    EvalError::OtherStr(
                        "A `Loop`'s initial value could not be calculated as a constant known or constant unknown in lowering, the argument to `Loop::from_*` needs to evaluate to a constant",
                    ),
                );
            },
        };
        out.push(v);
        i = i + 1;
    }
    proof {
        assert forall|k: int| 0 <= k < w implies (#[trigger] loop_initial(values@[k])) is Some by {
            assert(Some(out@[k]) == loop_initial(values@[k]));
        }
    }
    Ok(out)
}

/// Output bit `i` unified with bit `i` of the operand.
fn copy_plan(out_w: usize) -> (r: Vec<BitAction>)
    ensures
        r@.map_values(|a: BitAction| a@) == Seq::new(out_w as nat, |i: int| ActionView::Unify(i as usize, obit(0, i))),
{
    let mut out: Vec<BitAction> = Vec::new();
    let mut i: usize = 0;
    while i < out_w
        invariant
            i <= out_w,
            out@.map_values(|a: BitAction| a@) == Seq::new(i as nat, |k: int| ActionView::Unify(k as usize, obit(0, k))),
        decreases out_w - i,
    {
        let a = BitAction::Unify(i, OperandBit { operand: 0, bit: i });
        let ghost before = out@.map_values(|a: BitAction| a@);
        out.push(a);
        i = i + 1;
        proof {
            assert(out@.map_values(|a: BitAction| a@) =~= before.push(a@));
            assert(out@.map_values(|a: BitAction| a@) =~= Seq::new(i as nat, |k: int| ActionView::Unify(k as usize, obit(0, k))));
        }
    }
    out
}

proof fn lemma_mod_succ(t: int, m: int)
    requires
        t >= 0,
        m >= 1,
    ensures
        (t + 1) % m == if t % m + 1 == m {
            0
        } else {
            t % m + 1
        },
{
    vstd::arithmetic::div_mod::lemma_fundamental_div_mod(t, m);
    vstd::arithmetic::div_mod::lemma_mod_pos_bound(t, m);
    let q = t / m;
    let r = t % m;
    if r + 1 == m {
        assert(t + 1 == (q + 1) * m) by (nonlinear_arith)
            requires
                t == m * q + r,
                r + 1 == m,
        ;
        vstd::arithmetic::div_mod::lemma_fundamental_div_mod_converse(t + 1, m, q + 1, 0);
    } else {
        assert(t + 1 == q * m + (r + 1)) by (nonlinear_arith)
            requires
                t == m * q + r,
        ;
        vstd::arithmetic::div_mod::lemma_fundamental_div_mod_converse(t + 1, m, q, r + 1);
    }
}

/// Output bit `i` unified with bit `i` modulo the width of the operand.
fn repeat_plan(out_w: usize, x_w: usize) -> (r: Vec<BitAction>)
    requires
        x_w >= 1,
    ensures
        r@.map_values(|a: BitAction| a@) == Seq::new(
            out_w as nat,
            |i: int| ActionView::Unify(i as usize, obit(0, i % (x_w as int))),
        ),
{
    let mut out: Vec<BitAction> = Vec::new();
    let mut from: usize = 0;
    let mut to: usize = 0;
    while to < out_w
        invariant
            x_w >= 1,
            to <= out_w,
            from == to % x_w,
            out@.map_values(|a: BitAction| a@) == Seq::new(
                to as nat,
                |k: int| ActionView::Unify(k as usize, obit(0, k % (x_w as int))),
            ),
        decreases out_w - to,
    {
        let a = BitAction::Unify(to, OperandBit { operand: 0, bit: from });
        let ghost before = out@.map_values(|a: BitAction| a@);
        out.push(a);
        proof {
            lemma_mod_succ(to as int, x_w as int);
        }
        from = from + 1;
        if from >= x_w {
            from = 0;
        }
        to = to + 1;
        proof {
            assert(out@.map_values(|a: BitAction| a@) =~= before.push(a@));
            assert(out@.map_values(|a: BitAction| a@) =~= Seq::new(
                to as nat,
                |k: int| ActionView::Unify(k as usize, obit(0, k % (x_w as int))),
            ));
        }
    }
    out
}

/// The entries of a table of `out_w` outputs that give output `b`.
fn single_bit_lut(lut: &Vec<bool>, num_entries: usize, out_w: usize, b: usize) -> (r: Vec<bool>)
    requires
        b < out_w,
        lut@.len() == out_w * num_entries,
    ensures
        r@ == Seq::new(num_entries as nat, |i: int| lut@[i * out_w + b]),
{
    if out_w == 1 {
        proof {
            assert(lut@ =~= Seq::new(num_entries as nat, |i: int| lut@[i * out_w + b]));
        }
        return lut.clone();
    }
    let n = lut.len();
    let mut val: Vec<bool> = Vec::new();
    let mut i: usize = 0;
    while i < num_entries
        invariant
            b < out_w,
            n == lut@.len(),
            lut@.len() == out_w * num_entries,
            i <= num_entries,
            val@ == Seq::new(i as nat, |k: int| lut@[k * out_w + b]),
        decreases num_entries - i,
    {
        proof {
            assert(i * out_w + b < out_w * num_entries) by (nonlinear_arith)
                requires
                    i < num_entries,
                    b < out_w,
            ;
        }
        val.push(lut[i * out_w + b]);
        i = i + 1;
        proof {
            assert(val@ =~= Seq::new(i as nat, |k: int| lut@[k * out_w + b]));
        }
    }
    val
}

/// A static table per output bit, over every operand bit.
fn static_lut_plan(widths: &Vec<usize>, lut: &Vec<bool>, out_w: usize) -> (r: Vec<BitAction>)
    requires
        all_bits(widths@, 0).len() < usize::BITS,
        lut@.len() == out_w * pow2(all_bits(widths@, 0).len()),
    ensures
        r@.map_values(|a: BitAction| a@) == static_lut_actions(widths@, lut@, out_w as nat),
{
    let inx_bits = operand_bits(widths);
    let num_entries = crate::meta::pow2_usize(inx_bits.len());
    let mut out: Vec<BitAction> = Vec::new();
    let mut b: usize = 0;
    while b < out_w
        invariant
            b <= out_w,
            inx_bits@ == all_bits(widths@, 0),
            num_entries == pow2(all_bits(widths@, 0).len()),
            lut@.len() == out_w * num_entries,
            out@.map_values(|a: BitAction| a@) == static_lut_actions(widths@, lut@, out_w as nat).take(b as int),
        decreases out_w - b,
    {
        let single = single_bit_lut(lut, num_entries, out_w, b);
        let inx_copy = inx_bits.clone();
        proof {
            assert(inx_copy@ =~= inx_bits@);
        }
        let a = BitAction::StaticLut(b, inx_copy, single);
        proof {
            assert(a@ =~~= static_lut_actions(widths@, lut@, out_w as nat)[b as int]);
        }
        let ghost before = out@.map_values(|a: BitAction| a@);
        out.push(a);
        b = b + 1;
        proof {
            assert(out@.map_values(|a: BitAction| a@) =~= before.push(a@));
            assert(out@.map_values(|a: BitAction| a@) =~= static_lut_actions(widths@, lut@, out_w as nat).take(b as int));
        }
    }
    proof {
        assert(static_lut_actions(widths@, lut@, out_w as nat).take(out_w as int) =~= static_lut_actions(widths@, lut@, out_w as nat));
    }
    out
}

/// A dynamic table per output bit over the index operand, whose entries are
/// the bits of the table operand that exist.
fn dynamic_lut_plan(present: &Vec<bool>, inx_w: usize, out_w: usize) -> (r: Vec<BitAction>)
    requires
        inx_w < usize::BITS,
        present@.len() == out_w * pow2(inx_w as nat),
    ensures
        r@.map_values(|a: BitAction| a@) == dynamic_lut_actions(present@, inx_w as nat, out_w as nat),
{
    let num_entries = crate::meta::pow2_usize(inx_w);
    let mut inx_bits: Vec<OperandBit> = Vec::new();
    let mut i: usize = 0;
    while i < inx_w
        invariant
            i <= inx_w,
            inx_bits@ == Seq::new(i as nat, |k: int| obit(1, k)),
        decreases inx_w - i,
    {
        inx_bits.push(OperandBit { operand: 1, bit: i });
        i = i + 1;
        proof {
            assert(inx_bits@ =~= Seq::new(i as nat, |k: int| obit(1, k)));
        }
    }
    let n = present.len();
    let mut out: Vec<BitAction> = Vec::new();
    let mut b: usize = 0;
    while b < out_w
        invariant
            b <= out_w,
            n == present@.len(),
            inx_bits@ == Seq::new(inx_w as nat, |k: int| obit(1, k)),
            num_entries == pow2(inx_w as nat),
            present@.len() == out_w * num_entries,
            out@.map_values(|a: BitAction| a@) == dynamic_lut_actions(present@, inx_w as nat, out_w as nat).take(b as int),
        decreases out_w - b,
    {
        let mut entries: Vec<Option<OperandBit>> = Vec::new();
        let mut i: usize = 0;
        while i < num_entries
            invariant
                b < out_w,
                n == present@.len(),
                present@.len() == out_w * num_entries,
                i <= num_entries,
                entries@ == Seq::new(
                    i as nat,
                    |k: int|
                        if present@[k * out_w + b] {
                            Some(obit(0, k * out_w + b))
                        } else {
                            None
                        },
                ),
            decreases num_entries - i,
        {
            proof {
                assert(i * out_w + b < out_w * num_entries) by (nonlinear_arith)
                    requires
                        i < num_entries,
                        b < out_w,
                ;
            }
            let k = i * out_w + b;
            if present[k] {
                entries.push(Some(OperandBit { operand: 0, bit: k }));
            } else {
                entries.push(None);
            }
            i = i + 1;
            proof {
                assert(entries@ =~= Seq::new(
                    i as nat,
                    |k: int|
                        if present@[k * out_w + b] {
                            Some(obit(0, k * out_w + b))
                        } else {
                            None
                        },
                ));
            }
        }
        let inx_copy = inx_bits.clone();
        proof {
            assert(inx_copy@ =~= inx_bits@);
        }
        let a = BitAction::DynamicLut(b, inx_copy, entries);
        proof {
            assert(a@ =~~= dynamic_lut_actions(present@, inx_w as nat, out_w as nat)[b as int]);
        }
        let ghost before = out@.map_values(|a: BitAction| a@);
        out.push(a);
        b = b + 1;
        proof {
            assert(out@.map_values(|a: BitAction| a@) =~= before.push(a@));
            assert(out@.map_values(|a: BitAction| a@) =~= dynamic_lut_actions(present@, inx_w as nat, out_w as nat).take(b as int));
        }
    }
    proof {
        assert(dynamic_lut_actions(present@, inx_w as nat, out_w as nat).take(out_w as int) =~= dynamic_lut_actions(present@, inx_w as nat, out_w as nat));
    }
    out
}

/// A two entry dynamic table per output bit, selected by the third operand.
fn mux_plan(out_w: usize) -> (r: Vec<BitAction>)
    ensures
        r@.map_values(|a: BitAction| a@) == mux_actions(out_w as nat),
{
    let mut out: Vec<BitAction> = Vec::new();
    let mut b: usize = 0;
    while b < out_w
        invariant
            b <= out_w,
            out@.map_values(|a: BitAction| a@) == mux_actions(out_w as nat).take(b as int),
        decreases out_w - b,
    {
        let inx = vec![OperandBit { operand: 2, bit: 0 }];
        let entries = vec![Some(OperandBit { operand: 0, bit: b }), Some(OperandBit { operand: 1, bit: b })];
        proof {
            assert(inx@ =~= seq![obit(2, 0)]);
            assert(entries@ =~= seq![Some(obit(0, b as int)), Some(obit(1, b as int))]);
        }
        let a = BitAction::DynamicLut(b, inx, entries);
        proof {
            assert(a@ =~~= mux_actions(out_w as nat)[b as int]);
        }
        let ghost before = out@.map_values(|a: BitAction| a@);
        out.push(a);
        b = b + 1;
        proof {
            assert(out@.map_values(|a: BitAction| a@) =~= before.push(a@));
            assert(out@.map_values(|a: BitAction| a@) =~= mux_actions(out_w as nat).take(b as int));
        }
    }
    proof {
        assert(mux_actions(out_w as nat).take(out_w as int) =~= mux_actions(out_w as nat));
    }
    out
}
/// Temporal nodes for a delay.
fn delay_plan(values: &Vec<Value>, delay: Delay, out_w: usize) -> (r: Vec<BitAction>)
    requires
        values@.len() >= out_w,
    ensures
        r@.map_values(|a: BitAction| a@) == delay_actions(values@, delay@, out_w as nat),
{
    let mut out: Vec<BitAction> = Vec::new();
    let mut i: usize = 0;
    while i < out_w
        invariant
            i <= out_w <= values@.len(),
            out@.map_values(|a: BitAction| a@) == delay_actions(values@, delay@, out_w as nat).take(i as int),
        decreases out_w - i,
    {
        // the drive is set up at once unless the driver is still unknown, so
        // that an unknown driver is seen as quiescent
        let a = BitAction::Temporal {
            source: i,
            driver: OperandBit { operand: 0, bit: i },
            delay,
            eval_now: values[i] != Value::Unknown,
            backup_event: false,
            initial: None,
        };
        let ghost before = out@.map_values(|a: BitAction| a@);
        out.push(a);
        i = i + 1;
        proof {
            assert(out@.map_values(|a: BitAction| a@) =~= before.push(a@));
            assert(out@.map_values(|a: BitAction| a@) =~= delay_actions(values@, delay@, out_w as nat).take(i as int));
        }
    }
    proof {
        assert(delay_actions(values@, delay@, out_w as nat).take(out_w as int) =~= delay_actions(values@, delay@, out_w as nat));
    }
    out
}

/// Temporal nodes for a loop, from the starting values of its bits.
fn loop_plan(values: &Vec<Value>, initials: &Vec<Value>, delay: Delay, delayed: bool, out_w: usize) -> (r: Vec<BitAction>)
    requires
        values@.len() == out_w,
        initials@.len() == out_w,
        forall|i: int| 0 <= i < out_w ==> Some(#[trigger] initials@[i]) == loop_initial(values@[i]),
    ensures
        r@.map_values(|a: BitAction| a@) == loop_actions(values@, delay@, delayed, out_w as nat),
{
    let mut out: Vec<BitAction> = Vec::new();
    let mut i: usize = 0;
    while i < out_w
        invariant
            i <= out_w,
            values@.len() == out_w,
            initials@.len() == out_w,
            forall|k: int| 0 <= k < out_w ==> Some(#[trigger] initials@[k]) == loop_initial(values@[k]),
            out@.map_values(|a: BitAction| a@) == loop_actions(values@, delay@, delayed, out_w as nat).take(i as int),
        decreases out_w - i,
    {
        // a loop without delay gets an event of least priority for its drive,
        // in case the initial value does not loop around to overwrite it
        let a = BitAction::Temporal {
            source: i,
            driver: OperandBit { operand: 1, bit: i },
            delay,
            eval_now: delayed,
            backup_event: !delayed,
            initial: Some(initials[i]),
        };
        proof {
            assert(Some(initials@[i as int]) == loop_initial(values@[i as int]));
        }
        let ghost before = out@.map_values(|a: BitAction| a@);
        out.push(a);
        i = i + 1;
        proof {
            assert(out@.map_values(|a: BitAction| a@) =~= before.push(a@));
            assert(out@.map_values(|a: BitAction| a@) =~= loop_actions(values@, delay@, delayed, out_w as nat).take(i as int));
        }
    }
    proof {
        assert(loop_actions(values@, delay@, delayed, out_w as nat).take(out_w as int) =~= loop_actions(values@, delay@, delayed, out_w as nat));
    }
    out
}

/// Lowers an elementary operation into lookup table nodes: what happens to
/// each of its `out_w` output bits, in order. Errors on an operation that is
/// not elementary, and on an opaque operation whose name or arguments are
/// not as lowering expects.
pub fn lower_elementary_to_lnodes_intermediate(op: ElementaryOp, out_w: usize) -> (r: Result<Vec<BitAction>, EvalError>)
    requires
        elementary_wf(op, out_w as nat),
    ensures
        r is Err <==> elementary_refused(op, out_w as nat),
        r matches Ok(v) ==> v@.map_values(|a: BitAction| a@) == elementary_actions(op, out_w as nat),
{
    match op {
        // both make the output the same equivalences as the operand
        ElementaryOp::Assert(_) => Ok(copy_plan(out_w)),
        ElementaryOp::Copy(_) => Ok(copy_plan(out_w)),
        ElementaryOp::StaticGet(_, inx) => {
            let v = vec![BitAction::Unify(0, OperandBit { operand: 0, bit: inx })];
            proof {
                assert(v@.map_values(|a: BitAction| a@) =~= seq![ActionView::Unify(0, obit(0, inx as int))]);
            }
            Ok(v)
        },
        ElementaryOp::Concat(widths) => Ok(concat_plan(&widths)),
        ElementaryOp::ConcatFields(fields) => Ok(field_plan(&fields)),
        ElementaryOp::Repeat(x_w) => Ok(repeat_plan(out_w, x_w)),
        ElementaryOp::StaticLut(widths, lut) => Ok(static_lut_plan(&widths, &lut, out_w)),
        ElementaryOp::Lut(present, inx_w) => Ok(dynamic_lut_plan(&present, inx_w, out_w)),
        ElementaryOp::Mux(_, _, _) => Ok(mux_plan(out_w)),
        ElementaryOp::Opaque(args, name) => match name {
            None => {
                proof {
                    assert(Seq::<BitAction>::empty().map_values(|a: BitAction| a@) =~= Seq::<ActionView>::empty());
                }
                Ok(Vec::new())
            },
            Some(OpaqueName::Delay) => {
                if args.len() != 2 {
                    return Err(EvalError::OtherStr("`Delay` has an unexpected number of arguments"));
                }
                let delay = match delay_from(&args[1].argument) {
                    Ok(d) => d,
                    Err(e) => return Err(e),
                };
                Ok(delay_plan(&args[0].values, delay, out_w))
            },
            Some(OpaqueName::UndrivenLoopSource) => {
                if args.len() != 1 {
                    return Err(
                        EvalError::OtherStr("undriven loop source has an unexpected number of arguments"),
                    );
                }
                Err(
                    EvalError::OtherStr(
                        "cannot lower an undriven `Loop` or `Net`, some `drive_*` function has not been called on a loop source",
                    ),
                )
            },
            Some(OpaqueName::LoopSource) => {
                if args.len() != 2 {
                    return Err(EvalError::OtherStr("loop source has an unexpected number of arguments"));
                }
                if out_w != args[0].width {
                    return Err(EvalError::OtherStr("`Loop` has a bitwidth mismatch of looper and initial state"));
                }
                if out_w != args[1].width {
                    return Err(EvalError::OtherStr("`Loop` has a bitwidth mismatch of looper and driver"));
                }
                let initials = match loop_initials(&args[0].values, out_w) {
                    Ok(v) => v,
                    Err(e) => return Err(e),
                };
                Ok(loop_plan(&args[0].values, &initials, Delay::zero(), false, out_w))
            },
            Some(OpaqueName::DelayedLoopSource) => {
                if args.len() != 3 {
                    return Err(
                        EvalError::OtherStr("delayed loop source has an unexpected number of arguments"),
                    );
                }
                if out_w != args[0].width {
                    return Err(EvalError::OtherStr("`Loop` has a bitwidth mismatch of looper and initial state"));
                }
                if out_w != args[1].width {
                    return Err(EvalError::OtherStr("`Loop` has a bitwidth mismatch of looper and driver"));
                }
                let delay = match delay_from(&args[2].argument) {
                    Ok(d) => d,
                    Err(e) => return Err(e),
                };
                let initials = match loop_initials(&args[0].values, out_w) {
                    Ok(v) => v,
                    Err(e) => return Err(e),
                };
                Ok(loop_plan(&args[0].values, &initials, delay, true, out_w))
            },
            Some(OpaqueName::Other) => Err(EvalError::OtherStr("cannot lower an opaque operation with this name")),
        },
        ElementaryOp::Other => Err(EvalError::OtherStr("cannot lower an operation that is not elementary")),
    }
}

} // verus!
