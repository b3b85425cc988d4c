//! Lowering of every operation into LUT-level circuits.
//!
//! An operation is given with the values of its operands. Lowering it builds
//! a circuit out of the primitives of `meta`; the value that circuit gives
//! is returned, and each contract states it against the meaning of the
//! operation itself.

use vstd::prelude::*;
use vstd::arithmetic::power2::{pow2, lemma2_to64, lemma_pow2_unfold, lemma_pow2_pos};
use crate::error::EvalError;
use crate::meta::{
    uval, bit_val, popcount, sig_bits, trailing_zero_count, any_set, is_bit_width, is_lb_ceil,
    lemma_uval_take, lemma_uval_take_step, lemma_uval_zero_extend,
    lemma_uval_not, smear_width, usize_to_bits, resize_zero, vec_of,
    resize, resize_cond, dynamic_to_static_lut, dynamic_to_static_get, dynamic_to_static_set,
    min_int, field_width, field_from, funnel, shl, lshr, ashr, rotl, rotr, bitwise_not, bitwise,
    incrementer, cin_sum, negator, field_to, field, reverse, equal, count_ones, leading_zeros,
    trailing_zeros, significant_bits, lemma_popcount_bounds, lut_set, mul_add, static_mux, division,
};
use crate::lut::lemma_input_index_range;

verus! {

/// Operands are at most this wide.
pub open spec fn width_ok(s: Seq<bool>) -> bool {
    1 <= s.len() <= pow2((usize::BITS - 3) as nat)
}

/// The most significant bit.
pub open spec fn msb(x: Seq<bool>) -> bool {
    x[x.len() - 1]
}

/// `v` modulo `2^w`.
pub open spec fn wrap(v: int, w: nat) -> int {
    v % (pow2(w) as int)
}

/// The two's complement negation of `v` on `w` bits when `neg` is set.
pub open spec fn negated(v: int, w: nat, neg: bool) -> int {
    if neg {
        wrap(pow2(w) - v, w)
    } else {
        v
    }
}

/// The magnitude of a signed vector, as an unsigned number.
pub open spec fn uabs(x: Seq<bool>) -> int {
    negated(uval(x), x.len(), msb(x))
}

/// `x` cut or extended to `w` bits, new bits taking `fill`.
pub open spec fn resized(x: Seq<bool>, w: nat, fill: bool) -> Seq<bool> {
    Seq::new(w, |k: int| if k < x.len() { x[k] } else { fill })
}

/// Operation with the values of its operands. The variants follow the
/// operations of the DAG; those already at LUT level are `Elementary`.
pub enum LowerOp {
    Invalid,
    /// Opaque, literal, assert, copy, static get, concatenation (of whole
    /// operands or of fields), repeat and static LUT nodes, which need no
    /// lowering
    Elementary,
    /// `Lut(table, inx, table_is_literal)`
    Lut(Vec<bool>, Vec<bool>, bool),
    /// `Get(bits, inx, inx_is_literal)`: the low bits of `inx` that address
    /// `bits` pick the bit, the bits above them are ignored
    Get(Vec<bool>, Vec<bool>, bool),
    /// `SetBit(bits, inx, bit, inx_is_literal)`: the `Set` operation, on the
    /// bit that the low bits of `inx` address; no bit is set where they
    /// address none
    SetBit(Vec<bool>, Vec<bool>, Vec<bool>, bool),
    /// `FieldBit(lhs, to, rhs, from)`
    FieldBit(Vec<bool>, Vec<bool>, Vec<bool>, Vec<bool>),
    ZeroResize(Vec<bool>),
    SignResize(Vec<bool>),
    /// `Resize(x, signed)`
    Resize(Vec<bool>, Vec<bool>),
    Lsb(Vec<bool>),
    Msb(Vec<bool>),
    /// `FieldWidth(lhs, rhs, width)`
    FieldWidth(Vec<bool>, Vec<bool>, Vec<bool>),
    /// `Funnel(x, s)`
    Funnel(Vec<bool>, Vec<bool>),
    /// `FieldFrom(lhs, rhs, from, width)`
    FieldFrom(Vec<bool>, Vec<bool>, Vec<bool>, Vec<bool>),
    /// `Shl(x, s)`
    Shl(Vec<bool>, Vec<bool>),
    /// `Lshr(x, s)`
    Lshr(Vec<bool>, Vec<bool>),
    /// `Ashr(x, s)`
    Ashr(Vec<bool>, Vec<bool>),
    /// `Rotl(x, s)`
    Rotl(Vec<bool>, Vec<bool>),
    /// `Rotr(x, s)`
    Rotr(Vec<bool>, Vec<bool>),
    Not(Vec<bool>),
    Or(Vec<bool>, Vec<bool>),
    And(Vec<bool>, Vec<bool>),
    Xor(Vec<bool>, Vec<bool>),
    /// `Inc(x, cin)`
    Inc(Vec<bool>, Vec<bool>),
    /// `IncCout(x, cin)`
    IncCout(Vec<bool>, Vec<bool>),
    /// `Dec(x, cin)`
    Dec(Vec<bool>, Vec<bool>),
    /// `DecCout(x, cin)`
    DecCout(Vec<bool>, Vec<bool>),
    /// `CinSum(cin, lhs, rhs)`
    CinSum(Vec<bool>, Vec<bool>, Vec<bool>),
    /// `UnsignedOverflow(cin, lhs, rhs)`
    UnsignedOverflow(Vec<bool>, Vec<bool>, Vec<bool>),
    /// `SignedOverflow(cin, lhs, rhs)`
    SignedOverflow(Vec<bool>, Vec<bool>, Vec<bool>),
    /// `Neg(x, neg)`
    Neg(Vec<bool>, Vec<bool>),
    Abs(Vec<bool>),
    Add(Vec<bool>, Vec<bool>),
    Sub(Vec<bool>, Vec<bool>),
    /// `Rsb(lhs, rhs)`: `rhs - lhs`
    Rsb(Vec<bool>, Vec<bool>),
    /// `FieldTo(lhs, to, rhs, width)`
    FieldTo(Vec<bool>, Vec<bool>, Vec<bool>, Vec<bool>),
    /// `Field(lhs, to, rhs, from, width)`
    Field(Vec<bool>, Vec<bool>, Vec<bool>, Vec<bool>, Vec<bool>),
    Rev(Vec<bool>),
    Eq(Vec<bool>, Vec<bool>),
    Ne(Vec<bool>, Vec<bool>),
    Ult(Vec<bool>, Vec<bool>),
    Ule(Vec<bool>, Vec<bool>),
    Ilt(Vec<bool>, Vec<bool>),
    Ile(Vec<bool>, Vec<bool>),
    IsZero(Vec<bool>),
    IsUmax(Vec<bool>),
    IsImax(Vec<bool>),
    IsImin(Vec<bool>),
    IsUone(Vec<bool>),
    CountOnes(Vec<bool>),
    Lz(Vec<bool>),
    Tz(Vec<bool>),
    Sig(Vec<bool>),
    /// `LutSet(table, entry, inx)`
    LutSet(Vec<bool>, Vec<bool>, Vec<bool>),
    /// `ZeroResizeOverflow(x, w)`: would resizing `x` to `w` bits lose bits
    ZeroResizeOverflow(Vec<bool>, usize),
    /// `SignResizeOverflow(x, w)`: would sign resizing `x` to `w` bits change
    /// its signed value
    SignResizeOverflow(Vec<bool>, usize),
    /// `ArbMulAdd(add, lhs, rhs)`
    ArbMulAdd(Vec<bool>, Vec<bool>, Vec<bool>),
    /// `Mux(x0, x1, inx)`
    Mux(Vec<bool>, Vec<bool>, Vec<bool>),
    /// `UQuo(duo, div)`
    UQuo(Vec<bool>, Vec<bool>),
    /// `URem(duo, div)`
    URem(Vec<bool>, Vec<bool>),
    /// `IQuo(duo, div)`
    IQuo(Vec<bool>, Vec<bool>),
    /// `IRem(duo, div)`
    IRem(Vec<bool>, Vec<bool>),
}

/// What lowering did.
pub enum LowerOutcome {
    /// The operation is already at LUT level
    Done,
    /// The operation was replaced by a circuit that gives this value
    Grafted(Vec<bool>),
}

/// `out_w` is the width of the operation's result, as the DAG gives every
/// node the width of its operation.
pub open spec fn out_fits(op: LowerOp, out_w: nat) -> bool {
    match op {
        LowerOp::Invalid => true,
        LowerOp::Elementary => true,
        LowerOp::Lut(..) => true,
        LowerOp::Get(..) => out_w == 1,
        LowerOp::SetBit(bits, _, _, _) => out_w == bits@.len(),
        LowerOp::FieldBit(lhs, _, _, _) => out_w == lhs@.len(),
        LowerOp::ZeroResize(_) => true,
        LowerOp::SignResize(_) => true,
        LowerOp::Resize(..) => true,
        LowerOp::Lsb(_) => out_w == 1,
        LowerOp::Msb(_) => out_w == 1,
        LowerOp::FieldWidth(lhs, _, _) => out_w == lhs@.len(),
        LowerOp::Funnel(_, s) => out_w == pow2(s@.len()),
        LowerOp::FieldFrom(lhs, _, _, _) => out_w == lhs@.len(),
        LowerOp::Shl(x, _) => out_w == x@.len(),
        LowerOp::Lshr(x, _) => out_w == x@.len(),
        LowerOp::Ashr(x, _) => out_w == x@.len(),
        LowerOp::Rotl(x, _) => out_w == x@.len(),
        LowerOp::Rotr(x, _) => out_w == x@.len(),
        LowerOp::Not(x) => out_w == x@.len(),
        LowerOp::Or(lhs, _) => out_w == lhs@.len(),
        LowerOp::And(lhs, _) => out_w == lhs@.len(),
        LowerOp::Xor(lhs, _) => out_w == lhs@.len(),
        LowerOp::Inc(x, _) => out_w == x@.len(),
        LowerOp::IncCout(..) => out_w == 1,
        LowerOp::Dec(x, _) => out_w == x@.len(),
        LowerOp::DecCout(..) => out_w == 1,
        LowerOp::CinSum(_, lhs, _) => out_w == lhs@.len(),
        LowerOp::UnsignedOverflow(..) => out_w == 1,
        LowerOp::SignedOverflow(..) => out_w == 1,
        LowerOp::Neg(x, _) => out_w == x@.len(),
        LowerOp::Abs(x) => out_w == x@.len(),
        LowerOp::Add(lhs, _) => out_w == lhs@.len(),
        LowerOp::Sub(lhs, _) => out_w == lhs@.len(),
        LowerOp::Rsb(lhs, _) => out_w == lhs@.len(),
        LowerOp::FieldTo(lhs, _, _, _) => out_w == lhs@.len(),
        LowerOp::Field(lhs, _, _, _, _) => out_w == lhs@.len(),
        LowerOp::Rev(x) => out_w == x@.len(),
        LowerOp::Eq(..) => out_w == 1,
        LowerOp::Ne(..) => out_w == 1,
        LowerOp::Ult(..) => out_w == 1,
        LowerOp::Ule(..) => out_w == 1,
        LowerOp::Ilt(..) => out_w == 1,
        LowerOp::Ile(..) => out_w == 1,
        LowerOp::IsZero(_) => out_w == 1,
        LowerOp::IsUmax(_) => out_w == 1,
        LowerOp::IsImax(_) => out_w == 1,
        LowerOp::IsImin(_) => out_w == 1,
        LowerOp::IsUone(_) => out_w == 1,
        LowerOp::CountOnes(_) => out_w == usize::BITS,
        LowerOp::Lz(_) => out_w == usize::BITS,
        LowerOp::Tz(_) => out_w == usize::BITS,
        LowerOp::Sig(_) => out_w == usize::BITS,
        LowerOp::LutSet(table, _, _) => out_w == table@.len(),
        LowerOp::ZeroResizeOverflow(..) => out_w == 1,
        LowerOp::SignResizeOverflow(..) => out_w == 1,
        LowerOp::ArbMulAdd(add, _, _) => out_w == add@.len(),
        LowerOp::Mux(x0, _, _) => out_w == x0@.len(),
        LowerOp::UQuo(duo, _) => out_w == duo@.len(),
        LowerOp::URem(duo, _) => out_w == duo@.len(),
        LowerOp::IQuo(duo, _) => out_w == duo@.len(),
        LowerOp::IRem(duo, _) => out_w == duo@.len(),
    }
}

/// The least `lb` with `2^lb >= len`: how many index bits address `len`
/// entries.
pub open spec fn index_bits_for(len: nat) -> nat {
    choose|lb: nat| is_lb_ceil(lb, len as int)
}

/// The index that the low bits of `inx` give into `len` entries, the bits
/// above them ignored.
pub open spec fn low_index(inx: Seq<bool>, len: nat) -> int {
    uval(inx.take(index_bits_for(len) as int))
}

proof fn lemma_lb_ceil_unique(a: nat, b: nat, num: int)
    requires
        is_lb_ceil(a, num),
        is_lb_ceil(b, num),
    ensures
        a == b,
{
    if a < b {
        if a < (b - 1) as nat {
            vstd::arithmetic::power2::lemma_pow2_strictly_increases(a, (b - 1) as nat);
        }
    } else if b < a {
        if b < (a - 1) as nat {
            vstd::arithmetic::power2::lemma_pow2_strictly_increases(b, (a - 1) as nat);
        }
    }
}

/// Operands of consistent widths, and indexes in range.
pub open spec fn op_wf(op: LowerOp, out_w: nat) -> bool {
    match op {
        LowerOp::Invalid => true,
        LowerOp::Elementary => true,
        LowerOp::Lut(table, inx, _) => {
            &&& 1 <= out_w
            &&& inx@.len() < usize::BITS - 1
            &&& table@.len() == out_w * pow2(inx@.len())
        },
        LowerOp::Get(bits, inx, _) => {
            &&& width_ok(bits@)
            &&& bits@.len() <= pow2(inx@.len())
            &&& low_index(inx@, bits@.len()) < bits@.len()
        },
        LowerOp::SetBit(bits, inx, bit, _) => {
            &&& width_ok(bits@)
            &&& bits@.len() <= pow2(inx@.len())
            &&& bit@.len() == 1
        },
        LowerOp::FieldBit(lhs, to, rhs, from) => {
            &&& width_ok(lhs@)
            &&& width_ok(rhs@)
            &&& uval(to@) < lhs@.len()
            &&& uval(from@) < rhs@.len()
        },
        LowerOp::ZeroResize(x) => width_ok(x@) && 1 <= out_w <= usize::MAX,
        LowerOp::SignResize(x) => width_ok(x@) && 1 <= out_w <= usize::MAX,
        LowerOp::Resize(x, b) => width_ok(x@) && b@.len() == 1 && 1 <= out_w <= usize::MAX,
        LowerOp::Lsb(x) => width_ok(x@),
        LowerOp::Msb(x) => width_ok(x@),
        LowerOp::FieldWidth(lhs, rhs, width) => width_ok(lhs@) && width_ok(rhs@) && width_ok(width@),
        LowerOp::Funnel(x, s) => {
            &&& s@.len() < usize::BITS - 1
            &&& x@.len() == 2 * pow2(s@.len())
        },
        LowerOp::FieldFrom(lhs, rhs, from, width) => {
            &&& width_ok(lhs@)
            &&& width_ok(rhs@)
            &&& width_ok(from@)
            &&& width_ok(width@)
        },
        LowerOp::Shl(x, s) => width_ok(x@),
        LowerOp::Lshr(x, s) => width_ok(x@),
        LowerOp::Ashr(x, s) => width_ok(x@),
        LowerOp::Rotl(x, s) => width_ok(x@),
        LowerOp::Rotr(x, s) => width_ok(x@),
        LowerOp::Not(x) => true,
        LowerOp::Or(lhs, rhs) => lhs@.len() == rhs@.len(),
        LowerOp::And(lhs, rhs) => lhs@.len() == rhs@.len(),
        LowerOp::Xor(lhs, rhs) => lhs@.len() == rhs@.len(),
        LowerOp::Inc(x, cin) => cin@.len() == 1,
        LowerOp::IncCout(x, cin) => cin@.len() == 1,
        LowerOp::Dec(x, cin) => cin@.len() == 1,
        LowerOp::DecCout(x, cin) => cin@.len() == 1,
        LowerOp::CinSum(cin, lhs, rhs) => cin@.len() == 1 && width_ok(lhs@) && lhs@.len() == rhs@.len(),
        LowerOp::UnsignedOverflow(cin, lhs, rhs) => {
            cin@.len() == 1 && width_ok(lhs@) && lhs@.len() == rhs@.len()
        },
        LowerOp::SignedOverflow(cin, lhs, rhs) => {
            cin@.len() == 1 && width_ok(lhs@) && lhs@.len() == rhs@.len()
        },
        LowerOp::Neg(x, neg) => neg@.len() == 1,
        LowerOp::Abs(x) => width_ok(x@),
        LowerOp::Add(lhs, rhs) => width_ok(lhs@) && lhs@.len() == rhs@.len(),
        LowerOp::Sub(lhs, rhs) => width_ok(lhs@) && lhs@.len() == rhs@.len(),
        LowerOp::Rsb(lhs, rhs) => width_ok(lhs@) && lhs@.len() == rhs@.len(),
        LowerOp::FieldTo(lhs, to, rhs, width) => {
            &&& width_ok(lhs@)
            &&& width_ok(rhs@)
            &&& width_ok(width@)
        },
        LowerOp::Field(lhs, to, rhs, from, width) => {
            &&& width_ok(lhs@)
            &&& width_ok(rhs@)
            &&& width_ok(width@)
        },
        LowerOp::Rev(x) => true,
        LowerOp::Eq(lhs, rhs) => width_ok(lhs@) && lhs@.len() == rhs@.len(),
        LowerOp::Ne(lhs, rhs) => width_ok(lhs@) && lhs@.len() == rhs@.len(),
        LowerOp::Ult(lhs, rhs) => width_ok(lhs@) && lhs@.len() == rhs@.len(),
        LowerOp::Ule(lhs, rhs) => width_ok(lhs@) && lhs@.len() == rhs@.len(),
        LowerOp::Ilt(lhs, rhs) => width_ok(lhs@) && lhs@.len() == rhs@.len(),
        LowerOp::Ile(lhs, rhs) => width_ok(lhs@) && lhs@.len() == rhs@.len(),
        LowerOp::IsZero(x) => width_ok(x@),
        LowerOp::IsUmax(x) => width_ok(x@),
        LowerOp::IsImax(x) => width_ok(x@),
        LowerOp::IsImin(x) => width_ok(x@),
        LowerOp::IsUone(x) => width_ok(x@),
        LowerOp::CountOnes(x) => width_ok(x@),
        LowerOp::Lz(x) => width_ok(x@),
        LowerOp::Tz(x) => width_ok(x@),
        LowerOp::Sig(x) => width_ok(x@),
        LowerOp::LutSet(table, entry, inx) => {
            &&& inx@.len() < usize::BITS - 1
            &&& entry@.len() >= 1
            &&& table@.len() == entry@.len() * pow2(inx@.len())
        },
        LowerOp::ZeroResizeOverflow(x, w) => w >= 1,
        LowerOp::SignResizeOverflow(x, w) => w >= 1,
        LowerOp::ArbMulAdd(add, lhs, rhs) => width_ok(add@) && width_ok(lhs@) && width_ok(rhs@),
        LowerOp::Mux(x0, x1, inx) => x0@.len() == x1@.len() && inx@.len() == 1,
        LowerOp::UQuo(duo, div) => width_ok(duo@) && duo@.len() == div@.len(),
        LowerOp::URem(duo, div) => width_ok(duo@) && duo@.len() == div@.len(),
        LowerOp::IQuo(duo, div) => width_ok(duo@) && duo@.len() == div@.len(),
        LowerOp::IRem(duo, div) => width_ok(duo@) && duo@.len() == div@.len(),
    }
}

/// Lowering refuses this operation.
pub open spec fn op_refused(op: LowerOp) -> bool {
    match op {
        LowerOp::Invalid => true,
        LowerOp::Lut(_, _, lit) => lit,
        LowerOp::Get(_, _, lit) => lit,
        LowerOp::SetBit(_, _, _, lit) => lit,
        _ => false,
    }
}

/// `v` is the value of the operation.
pub open spec fn lowered(op: LowerOp, out_w: nat, v: Seq<bool>) -> bool {
    match op {
        LowerOp::Invalid => false,
        LowerOp::Elementary => false,
        LowerOp::Lut(table, inx, _) => v == table@.subrange(
            uval(inx@) * out_w,
            uval(inx@) * out_w + out_w,
        ),
        LowerOp::Get(bits, inx, _) => v == seq![bits@[low_index(inx@, bits@.len())]],
        LowerOp::SetBit(bits, inx, bit, _) => v == Seq::new(
            bits@.len(),
            |i: int| if low_index(inx@, bits@.len()) == i { bit@[0] } else { bits@[i] },
        ),
        LowerOp::FieldBit(lhs, to, rhs, from) => v == lhs@.update(uval(to@), rhs@[uval(from@)]),
        LowerOp::ZeroResize(x) => v == resized(x@, out_w, false),
        LowerOp::SignResize(x) => v == resized(x@, out_w, msb(x@)),
        LowerOp::Resize(x, b) => v == resized(x@, out_w, b@[0]),
        LowerOp::Lsb(x) => v == seq![x@[0]],
        LowerOp::Msb(x) => v == seq![msb(x@)],
        LowerOp::FieldWidth(lhs, rhs, width) => v == field_width_of(lhs@, rhs@, uval(width@)),
        LowerOp::Funnel(x, s) => v == x@.subrange(uval(s@), uval(s@) + pow2(s@.len())),
        LowerOp::FieldFrom(lhs, rhs, from, width) => v == field_from_of(
            lhs@,
            rhs@,
            uval(from@),
            uval(width@),
        ),
        LowerOp::Shl(x, s) => v == shl_of(x@, uval(s@)),
        LowerOp::Lshr(x, s) => v == lshr_of(x@, uval(s@)),
        LowerOp::Ashr(x, s) => v == ashr_of(x@, uval(s@)),
        LowerOp::Rotl(x, s) => v == rotl_of(x@, uval(s@)),
        LowerOp::Rotr(x, s) => v == rotr_of(x@, uval(s@)),
        LowerOp::Not(x) => v == Seq::new(x@.len(), |i: int| !x@[i]),
        LowerOp::Or(lhs, rhs) => v == Seq::new(lhs@.len(), |i: int| lhs@[i] || rhs@[i]),
        LowerOp::And(lhs, rhs) => v == Seq::new(lhs@.len(), |i: int| lhs@[i] && rhs@[i]),
        LowerOp::Xor(lhs, rhs) => v == Seq::new(lhs@.len(), |i: int| lhs@[i] != rhs@[i]),
        LowerOp::Inc(x, cin) => {
            v.len() == x@.len() && uval(v) == wrap(uval(x@) + bit_val(cin@[0]), x@.len())
        },
        LowerOp::IncCout(x, cin) => v == seq![uval(x@) + bit_val(cin@[0]) >= pow2(x@.len())],
        LowerOp::Dec(x, cin) => {
            &&& v.len() == x@.len()
            &&& uval(v) == wrap(uval(x@) + pow2(x@.len()) - 1 + bit_val(cin@[0]), x@.len())
        },
        LowerOp::DecCout(x, cin) => v == seq![uval(x@) + bit_val(cin@[0]) >= 1],
        LowerOp::CinSum(cin, lhs, rhs) => {
            &&& v.len() == lhs@.len()
            &&& uval(v) == wrap(uval(lhs@) + uval(rhs@) + bit_val(cin@[0]), lhs@.len())
        },
        LowerOp::UnsignedOverflow(cin, lhs, rhs) => v == seq![
            uval(lhs@) + uval(rhs@) + bit_val(cin@[0]) >= pow2(lhs@.len()),
        ],
        LowerOp::SignedOverflow(cin, lhs, rhs) => v == seq![
            msb(lhs@) == msb(rhs@) && (wrap(
                uval(lhs@) + uval(rhs@) + bit_val(cin@[0]),
                lhs@.len(),
            ) >= pow2((lhs@.len() - 1) as nat)) != msb(lhs@),
        ],
        LowerOp::Neg(x, neg) => v.len() == x@.len() && uval(v) == negated(uval(x@), x@.len(), neg@[0]),
        LowerOp::Abs(x) => v.len() == x@.len() && uval(v) == uabs(x@),
        LowerOp::Add(lhs, rhs) => {
            v.len() == lhs@.len() && uval(v) == wrap(uval(lhs@) + uval(rhs@), lhs@.len())
        },
        LowerOp::Sub(lhs, rhs) => {
            v.len() == lhs@.len() && uval(v) == wrap(uval(lhs@) - uval(rhs@), lhs@.len())
        },
        LowerOp::Rsb(lhs, rhs) => {
            v.len() == lhs@.len() && uval(v) == wrap(uval(rhs@) - uval(lhs@), lhs@.len())
        },
        LowerOp::FieldTo(lhs, to, rhs, width) => v == field_to_of(lhs@, uval(to@), rhs@, uval(width@)),
        LowerOp::Field(lhs, to, rhs, from, width) => v == field_of(
            lhs@,
            uval(to@),
            rhs@,
            uval(from@),
            uval(width@),
        ),
        LowerOp::Rev(x) => v == x@.reverse(),
        LowerOp::Eq(lhs, rhs) => v == seq![lhs@ == rhs@],
        LowerOp::Ne(lhs, rhs) => v == seq![lhs@ != rhs@],
        LowerOp::Ult(lhs, rhs) => v == seq![uval(lhs@) < uval(rhs@)],
        LowerOp::Ule(lhs, rhs) => v == seq![uval(lhs@) <= uval(rhs@)],
        LowerOp::Ilt(lhs, rhs) => v == seq![sval(lhs@) < sval(rhs@)],
        LowerOp::Ile(lhs, rhs) => v == seq![sval(lhs@) <= sval(rhs@)],
        LowerOp::IsZero(x) => v == seq![x@ == Seq::new(x@.len(), |i: int| false)],
        LowerOp::IsUmax(x) => v == seq![x@ == Seq::new(x@.len(), |i: int| true)],
        LowerOp::IsImax(x) => v == seq![x@ == Seq::new(x@.len(), |i: int| i < x@.len() - 1)],
        LowerOp::IsImin(x) => v == seq![x@ == Seq::new(x@.len(), |i: int| i == x@.len() - 1)],
        LowerOp::IsUone(x) => v == seq![x@ == Seq::new(x@.len(), |i: int| i == 0)],
        LowerOp::CountOnes(x) => v.len() == usize::BITS && uval(v) == popcount(x@),
        LowerOp::Lz(x) => v.len() == usize::BITS && uval(v) == x@.len() - sig_bits(x@),
        LowerOp::Tz(x) => v.len() == usize::BITS && uval(v) == trailing_zero_count(x@),
        LowerOp::Sig(x) => v.len() == usize::BITS && uval(v) == sig_bits(x@),
        LowerOp::LutSet(table, entry, inx) => v == Seq::new(
            table@.len(),
            |k: int|
                if k / (entry@.len() as int) == uval(inx@) {
                    entry@[k % (entry@.len() as int)]
                } else {
                    table@[k]
                },
        ),
        LowerOp::ZeroResizeOverflow(x, w) => v == seq![w < x@.len() && any_set(x@, w as int, x@.len() as int)],
        LowerOp::SignResizeOverflow(x, w) => v == seq![
            w < x@.len() && !(forall|i: int| w - 1 <= i < x@.len() ==> x@[i] == msb(x@)),
        ],
        LowerOp::ArbMulAdd(add, lhs, rhs) => {
            &&& v.len() == add@.len()
            &&& uval(v) == wrap(uval(add@) + uval(lhs@) * uval(rhs@), add@.len())
        },
        LowerOp::Mux(x0, x1, inx) => v == if inx@[0] {
            x1@
        } else {
            x0@
        },
        LowerOp::UQuo(duo, div) => {
            &&& v.len() == duo@.len()
            &&& uval(div@) != 0 ==> uval(v) == uval(duo@) / uval(div@)
        },
        LowerOp::URem(duo, div) => {
            &&& v.len() == duo@.len()
            &&& uval(div@) != 0 ==> uval(v) == uval(duo@) % uval(div@)
        },
        LowerOp::IQuo(duo, div) => {
            &&& v.len() == duo@.len()
            &&& uval(div@) != 0 ==> uval(v) == negated(
                uabs(duo@) / uabs(div@),
                duo@.len(),
                msb(duo@) != msb(div@),
            )
        },
        LowerOp::IRem(duo, div) => {
            &&& v.len() == duo@.len()
            &&& uval(div@) != 0 ==> uval(v) == negated(uabs(duo@) % uabs(div@), duo@.len(), msb(duo@))
        },
    }
}

/// The two's complement value of a vector.
pub open spec fn sval(x: Seq<bool>) -> int {
    uval(x) - if msb(x) {
        pow2(x.len()) as int
    } else {
        0
    }
}

/// The bits of `lhs` from `to` on replaced by `w` bits of `rhs`; no change
/// where that window does not fit.
pub open spec fn field_to_of(lhs: Seq<bool>, to: int, rhs: Seq<bool>, w: int) -> Seq<bool> {
    if to + w <= lhs.len() && w <= rhs.len() {
        Seq::new(lhs.len(), |i: int| if to <= i < to + w { rhs[i - to] } else { lhs[i] })
    } else {
        lhs
    }
}

/// The bits of `lhs` from `to` on replaced by `w` bits of `rhs` from `from`
/// on; no change where either window does not fit.
pub open spec fn field_of(lhs: Seq<bool>, to: int, rhs: Seq<bool>, from: int, w: int) -> Seq<bool> {
    if to + w <= lhs.len() && from + w <= rhs.len() {
        Seq::new(lhs.len(), |i: int| if to <= i < to + w { rhs[from + i - to] } else { lhs[i] })
    } else {
        lhs
    }
}

/// The low `w` bits of `lhs` replaced by those of `rhs`; no change where `w`
/// is wider than either.
pub open spec fn field_width_of(lhs: Seq<bool>, rhs: Seq<bool>, w: int) -> Seq<bool> {
    if w <= lhs.len() && w <= rhs.len() {
        Seq::new(lhs.len(), |i: int| if i < w { rhs[i] } else { lhs[i] })
    } else {
        lhs
    }
}

/// The low `w` bits of `lhs` replaced by `w` bits of `rhs` from `from` on;
/// no change where that window does not fit.
pub open spec fn field_from_of(lhs: Seq<bool>, rhs: Seq<bool>, from: int, w: int) -> Seq<bool> {
    if from + w <= rhs.len() && w <= lhs.len() {
        Seq::new(lhs.len(), |k: int| if k < w { rhs[from + k] } else { lhs[k] })
    } else {
        lhs
    }
}

/// Shift toward the most significant end; no change for `s` at or past
/// the width.
pub open spec fn shl_of(x: Seq<bool>, s: int) -> Seq<bool> {
    if s < x.len() {
        Seq::new(x.len(), |j: int| j >= s && x[j - s])
    } else {
        x
    }
}

/// Logical shift toward the least significant end.
pub open spec fn lshr_of(x: Seq<bool>, s: int) -> Seq<bool> {
    if s < x.len() {
        Seq::new(x.len(), |j: int| j + s < x.len() && x[j + s])
    } else {
        x
    }
}

/// Arithmetic shift toward the least significant end.
pub open spec fn ashr_of(x: Seq<bool>, s: int) -> Seq<bool> {
    if s < x.len() {
        Seq::new(x.len(), |j: int| if j + s < x.len() { x[j + s] } else { msb(x) })
    } else {
        x
    }
}

/// Rotation toward the most significant end.
pub open spec fn rotl_of(x: Seq<bool>, s: int) -> Seq<bool> {
    if s < x.len() {
        Seq::new(x.len(), |j: int| x[(j - s + x.len()) % (x.len() as int)])
    } else {
        x
    }
}

/// Rotation toward the least significant end.
pub open spec fn rotr_of(x: Seq<bool>, s: int) -> Seq<bool> {
    if s < x.len() {
        Seq::new(x.len(), |j: int| x[(j + s) % (x.len() as int)])
    } else {
        x
    }
}

/// The value of `x` when it is at most `bound`.
pub(crate) fn value_below(x: &Vec<bool>, bound: usize) -> (r: Option<usize>)
    ensures
        r is None <==> uval(x@) > bound,
        r matches Some(v) ==> v == uval(x@),
{
    let mut acc: usize = 0;
    let mut p: usize = 1;
    let mut big = false;
    let mut i: usize = 0;
    proof {
        lemma2_to64();
        assert(x@.take(0) =~= Seq::<bool>::empty());
    }
    while i < x.len()
        invariant
            i <= x@.len(),
            acc == uval(x@.take(i as int)),
            acc <= bound,
            !big ==> p == pow2(i as nat),
            big ==> pow2(i as nat) > bound,
        decreases x@.len() - i,
    {
        proof {
            lemma_uval_take_step(x@, i as int);
            lemma_uval_take(x@, (i + 1) as nat);
            lemma_input_index_range(x@);
            lemma_pow2_pos((i + 1) as nat);
            vstd::arithmetic::div_mod::lemma_mod_bound(uval(x@), pow2((i + 1) as nat) as int);
            vstd::arithmetic::div_mod::lemma_mod_self_0(pow2((i + 1) as nat) as int);
            if uval(x@) < pow2((i + 1) as nat) {
                vstd::arithmetic::div_mod::lemma_small_mod(uval(x@) as nat, pow2((i + 1) as nat));
            }
            lemma_mod_le(uval(x@), pow2((i + 1) as nat) as int);
        }
        if x[i] {
            if big || p > bound - acc {
                return None;
            }
            acc = acc + p;
        }
        proof {
            lemma_pow2_unfold((i + 1) as nat);
        }
        if !big {
            if p > bound / 2 {
                big = true;
            } else {
                p = p * 2;
            }
        }
        i = i + 1;
    }
    proof {
        assert(x@.take(x@.len() as int) =~= x@);
    }
    Some(acc)
}

proof fn lemma_mod_le(a: int, m: int)
    requires
        a >= 0,
        m > 0,
    ensures
        a % m <= a,
{
    vstd::arithmetic::div_mod::lemma_fundamental_div_mod(a, m);
    vstd::arithmetic::div_mod::lemma_div_pos_is_pos(a, m);
    vstd::arithmetic::mul::lemma_mul_nonnegative(m, a / m);
}

/// Lowers one operation: `Done` where it is already elementary, an error
/// where it cannot be lowered here, and otherwise the value of the circuit
/// that replaces it.
pub fn lower_op(op: LowerOp, out_w: usize) -> (r: Result<LowerOutcome, EvalError>)
    requires
        op_wf(op, out_w as nat),
        out_fits(op, out_w as nat),
    ensures
        r is Err <==> op_refused(op),
        op is Invalid ==> r == Err::<LowerOutcome, EvalError>(
            EvalError::OtherStr("encountered `Invalid` in lowering"),
        ),
        op_refused(op) && !(op is Invalid) ==> r == Err::<LowerOutcome, EvalError>(
            EvalError::OtherStr("this needs to be handled before this function"),
        ),
        r matches Ok(LowerOutcome::Done) <==> op is Elementary,
        r matches Ok(LowerOutcome::Grafted(v)) ==> lowered(op, out_w as nat, v@) && v@.len() == out_w,
{
    match op {
        LowerOp::Invalid => Err(EvalError::OtherStr("encountered `Invalid` in lowering")),
        LowerOp::Elementary => Ok(LowerOutcome::Done),
        LowerOp::Lut(table, inx, lit) => {
            if lit {
                return Err(EvalError::OtherStr("this needs to be handled before this function"));
            }
            let mut out = vec_of(false, out_w);
            dynamic_to_static_lut(&mut out, &table, &inx);
            proof {
                lemma_input_index_range(inx@);
                vstd::arithmetic::mul::lemma_mul_inequality(uval(inx@) + 1, pow2(inx@.len()) as int, out_w as int);
                assert((uval(inx@) + 1) * out_w == uval(inx@) * out_w + out_w) by (nonlinear_arith);
                assert(out@ =~= table@.subrange(
                    uval(inx@) * out_w,
                    uval(inx@) * out_w + out_w,
                ));
            }
            Ok(LowerOutcome::Grafted(out))
        },
        LowerOp::Get(bits, inx, lit) => {
            if lit {
                return Err(EvalError::OtherStr("this needs to be handled before this function"));
            }
            proof {
                lemma_limits();
                let lb = lemma_lb_ceil_exists(bits@.len() as nat, inx@.len());
                lemma_lb_ceil_unique(lb, index_bits_for(bits@.len() as nat), bits@.len() as int);
                assert forall|l: nat| #[trigger] is_lb_ceil(l, bits@.len() as int) implies uval(inx@.take(l as int))
                    < bits@.len() by {
                    lemma_lb_ceil_unique(l, lb, bits@.len() as int);
                }
            }
            let b = dynamic_to_static_get(&bits, &inx);
            let out = vec![b];
            proof {
                let lb = index_bits_for(bits@.len() as nat);
                assert(is_lb_ceil(lb, bits@.len() as int));
                assert(out@ =~= seq![bits@[low_index(inx@, bits@.len() as nat)]]);
            }
            Ok(LowerOutcome::Grafted(out))
        },
        LowerOp::SetBit(bits, inx, bit, lit) => {
            if lit {
                return Err(EvalError::OtherStr("this needs to be handled before this function"));
            }
            proof {
                lemma_limits();
            }
            let out = dynamic_to_static_set(&bits, &inx, &bit);
            proof {
                let lb = lemma_lb_ceil_exists(bits@.len() as nat, inx@.len());
                lemma_lb_ceil_unique(lb, index_bits_for(bits@.len() as nat), bits@.len() as int);
                let want = Seq::new(
                    bits@.len(),
                    |i: int| if low_index(inx@, bits@.len() as nat) == i { bit@[0] } else { bits@[i] },
                );
                assert forall|i: int| 0 <= i < bits@.len() implies out@[i] == want[i] by {
                    assert(out@[i] == if uval(inx@.take(lb as int)) == i {
                        bit@[0]
                    } else {
                        bits@[i]
                    });
                }
                assert(out@ =~= want);
            }
            Ok(LowerOutcome::Grafted(out))
        },
        LowerOp::FieldBit(lhs, to, rhs, from) => {
            let f = value_below(&from, rhs.len() - 1);
            let t = value_below(&to, lhs.len() - 1);
            match (f, t) {
                (Some(f), Some(t)) => {
                    let bit = rhs[f];
                    let mut out = lhs.clone();
                    out.set(t, bit);
                    proof {
                        assert(out@ =~= lhs@.update(uval(to@), rhs@[uval(from@)]));
                    }
                    Ok(LowerOutcome::Grafted(out))
                },
                _ => {
                    proof {
                        assert(false);
                    }
                    Ok(LowerOutcome::Grafted(lhs))
                },
            }
        },
        LowerOp::ZeroResize(x) => {
            let out = resize(&x, out_w, false);
            proof {
                assert(out@ =~= resized(x@, out_w as nat, false));
            }
            Ok(LowerOutcome::Grafted(out))
        },
        LowerOp::SignResize(x) => {
            let out = resize(&x, out_w, true);
            proof {
                assert(out@ =~= resized(x@, out_w as nat, msb(x@)));
            }
            Ok(LowerOutcome::Grafted(out))
        },
        LowerOp::Resize(x, b) => {
            let out = resize_cond(&x, out_w, &b);
            proof {
                assert(out@ =~= resized(x@, out_w as nat, b@[0]));
            }
            Ok(LowerOutcome::Grafted(out))
        },
        LowerOp::Lsb(x) => {
            let out = vec![x[0]];
            proof {
                assert(out@ =~= seq![x@[0]]);
            }
            Ok(LowerOutcome::Grafted(out))
        },
        LowerOp::Msb(x) => {
            let out = vec![x[x.len() - 1]];
            proof {
                assert(out@ =~= seq![msb(x@)]);
            }
            Ok(LowerOutcome::Grafted(out))
        },
        LowerOp::FieldWidth(lhs, rhs, width) => Ok(LowerOutcome::Grafted(lower_field_width(&lhs, &rhs, &width))),
        LowerOp::Funnel(x, s) => {
            let out = funnel(&x, &s);
            proof {
                lemma_input_index_range(s@);
                assert(out@ =~= x@.subrange(uval(s@), uval(s@) + pow2(s@.len())));
            }
            Ok(LowerOutcome::Grafted(out))
        },
        LowerOp::FieldFrom(lhs, rhs, from, width) => Ok(LowerOutcome::Grafted(lower_field_from(&lhs, &rhs, &from, &width))),
        LowerOp::Shl(x, s) => {
            proof {
                lemma_limits();
            }
            if value_below(&s, x.len() - 1).is_some() {
                let out = shl(&x, &s);
                proof {
                    assert(out@ =~= shl_of(x@, uval(s@)));
                }
                Ok(LowerOutcome::Grafted(out))
            } else {
                Ok(LowerOutcome::Grafted(x))
            }
        },
        LowerOp::Lshr(x, s) => {
            proof {
                lemma_limits();
            }
            if value_below(&s, x.len() - 1).is_some() {
                let out = lshr(&x, &s);
                proof {
                    assert(out@ =~= lshr_of(x@, uval(s@)));
                }
                Ok(LowerOutcome::Grafted(out))
            } else {
                Ok(LowerOutcome::Grafted(x))
            }
        },
        LowerOp::Ashr(x, s) => {
            proof {
                lemma_limits();
            }
            if value_below(&s, x.len() - 1).is_some() {
                let out = ashr(&x, &s);
                proof {
                    assert(out@ =~= ashr_of(x@, uval(s@)));
                }
                Ok(LowerOutcome::Grafted(out))
            } else {
                Ok(LowerOutcome::Grafted(x))
            }
        },
        LowerOp::Rotl(x, s) => {
            proof {
                lemma_limits();
            }
            if value_below(&s, x.len() - 1).is_some() {
                let out = rotl(&x, &s);
                proof {
                    assert(out@ =~= rotl_of(x@, uval(s@)));
                }
                Ok(LowerOutcome::Grafted(out))
            } else {
                Ok(LowerOutcome::Grafted(x))
            }
        },
        LowerOp::Rotr(x, s) => {
            proof {
                lemma_limits();
            }
            if value_below(&s, x.len() - 1).is_some() {
                let out = rotr(&x, &s);
                proof {
                    assert(out@ =~= rotr_of(x@, uval(s@)));
                }
                Ok(LowerOutcome::Grafted(out))
            } else {
                Ok(LowerOutcome::Grafted(x))
            }
        },
        LowerOp::Not(x) => {
            let out = bitwise_not(&x);
            proof {
                assert(out@ =~= Seq::new(x@.len(), |i: int| !x@[i]));
            }
            Ok(LowerOutcome::Grafted(out))
        },
        LowerOp::Or(lhs, rhs) => {
            let out = bitwise(&lhs, &rhs, &vec![false, true, true, true]);
            proof {
                assert(out@ =~= Seq::new(lhs@.len(), |i: int| lhs@[i] || rhs@[i]));
            }
            Ok(LowerOutcome::Grafted(out))
        },
        LowerOp::And(lhs, rhs) => {
            let out = bitwise(&lhs, &rhs, &vec![false, false, false, true]);
            proof {
                assert(out@ =~= Seq::new(lhs@.len(), |i: int| lhs@[i] && rhs@[i]));
            }
            Ok(LowerOutcome::Grafted(out))
        },
        LowerOp::Xor(lhs, rhs) => {
            let out = bitwise(&lhs, &rhs, &vec![false, true, true, false]);
            proof {
                assert(out@ =~= Seq::new(lhs@.len(), |i: int| lhs@[i] != rhs@[i]));
            }
            Ok(LowerOutcome::Grafted(out))
        },
        LowerOp::Inc(x, cin) => {
            let (out, c) = incrementer(&x, &cin, false);
            proof {
                lemma_input_index_range(out@);
                lemma_split_carry(uval(out@), c, uval(x@) + bit_val(cin@[0]), pow2(x@.len()) as int);
            }
            Ok(LowerOutcome::Grafted(out))
        },
        LowerOp::IncCout(x, cin) => {
            let (out, c) = incrementer(&x, &cin, false);
            proof {
                lemma_input_index_range(out@);
                lemma_split_carry(uval(out@), c, uval(x@) + bit_val(cin@[0]), pow2(x@.len()) as int);
            }
            let bit = vec![c];
            proof {
                assert(bit@ =~= seq![c]);
            }
            Ok(LowerOutcome::Grafted(bit))
        },
        LowerOp::Dec(x, cin) => {
            let (out, c) = incrementer(&x, &cin, true);
            proof {
                lemma_input_index_range(out@);
                lemma_split_carry(
                    uval(out@),
                    c,
                    uval(x@) + pow2(x@.len()) - 1 + bit_val(cin@[0]),
                    pow2(x@.len()) as int,
                );
            }
            Ok(LowerOutcome::Grafted(out))
        },
        LowerOp::DecCout(x, cin) => {
            let (out, c) = incrementer(&x, &cin, true);
            proof {
                lemma_input_index_range(out@);
                lemma_split_carry(
                    uval(out@),
                    c,
                    uval(x@) + pow2(x@.len()) - 1 + bit_val(cin@[0]),
                    pow2(x@.len()) as int,
                );
            }
            let bit = vec![c];
            proof {
                assert(bit@ =~= seq![c]);
            }
            Ok(LowerOutcome::Grafted(bit))
        },
        LowerOp::CinSum(cin, lhs, rhs) => {
            let (out, c, o) = cin_sum(&cin, &lhs, &rhs);
            proof {
                lemma_sum_parts(out@, c, uval(lhs@) + uval(rhs@) + bit_val(cin@[0]));
            }
            Ok(LowerOutcome::Grafted(out))
        },
        LowerOp::UnsignedOverflow(cin, lhs, rhs) => {
            let (out, c, o) = cin_sum(&cin, &lhs, &rhs);
            proof {
                lemma_sum_parts(out@, c, uval(lhs@) + uval(rhs@) + bit_val(cin@[0]));
            }
            let bit = vec![c];
            proof {
                assert(bit@ =~= seq![c]);
            }
            Ok(LowerOutcome::Grafted(bit))
        },
        LowerOp::SignedOverflow(cin, lhs, rhs) => {
            let (out, c, o) = cin_sum(&cin, &lhs, &rhs);
            proof {
                lemma_sum_parts(out@, c, uval(lhs@) + uval(rhs@) + bit_val(cin@[0]));
                lemma_uval_msb(out@);
            }
            let bit = vec![o];
            proof {
                assert(bit@ =~= seq![o]);
            }
            Ok(LowerOutcome::Grafted(bit))
        },
        LowerOp::Neg(x, neg) => {
            let out = negator(&x, &neg);
            Ok(LowerOutcome::Grafted(out))
        },
        LowerOp::Abs(x) => {
            let out = negator(&x, &vec![x[x.len() - 1]]);
            Ok(LowerOutcome::Grafted(out))
        },
        LowerOp::Add(lhs, rhs) => {
            let (out, c, o) = cin_sum(&vec![false], &lhs, &rhs);
            proof {
                lemma_sum_parts(out@, c, uval(lhs@) + uval(rhs@));
            }
            Ok(LowerOutcome::Grafted(out))
        },
        LowerOp::Sub(lhs, rhs) => {
            let neg = negator(&rhs, &vec![true]);
            let (out, c, o) = cin_sum(&vec![false], &lhs, &neg);
            proof {
                lemma_sum_parts(out@, c, uval(lhs@) + uval(neg@));
                lemma_input_index_range(rhs@);
                lemma_add_negated(uval(lhs@), uval(rhs@), pow2(lhs@.len()) as int);
            }
            Ok(LowerOutcome::Grafted(out))
        },
        LowerOp::Rsb(lhs, rhs) => {
            let neg = negator(&lhs, &vec![true]);
            let (out, c, o) = cin_sum(&vec![false], &neg, &rhs);
            proof {
                lemma_sum_parts(out@, c, uval(neg@) + uval(rhs@));
                lemma_input_index_range(lhs@);
                lemma_add_negated(uval(rhs@), uval(lhs@), pow2(lhs@.len()) as int);
            }
            Ok(LowerOutcome::Grafted(out))
        },
        LowerOp::FieldTo(lhs, to, rhs, width) => Ok(LowerOutcome::Grafted(lower_field_to(&lhs, &to, &rhs, &width))),
        LowerOp::Field(lhs, to, rhs, from, width) => Ok(LowerOutcome::Grafted(lower_field(&lhs, &to, &rhs, &from, &width))),
        LowerOp::Rev(x) => Ok(LowerOutcome::Grafted(reverse(&x))),
        LowerOp::Eq(lhs, rhs) => Ok(LowerOutcome::Grafted(single(lower_is_const(&lhs, rhs)))),
        LowerOp::Ne(lhs, rhs) => Ok(LowerOutcome::Grafted(single(!lower_is_const(&lhs, rhs)))),
        LowerOp::Ult(lhs, rhs) => Ok(LowerOutcome::Grafted(single(lower_ult(&lhs, &rhs, false)))),
        LowerOp::Ule(lhs, rhs) => Ok(LowerOutcome::Grafted(single(lower_ult(&lhs, &rhs, true)))),
        LowerOp::Ilt(lhs, rhs) => Ok(LowerOutcome::Grafted(single(lower_ilt(&lhs, &rhs, false)))),
        LowerOp::Ile(lhs, rhs) => Ok(LowerOutcome::Grafted(single(lower_ilt(&lhs, &rhs, true)))),
        LowerOp::IsZero(x) => {
            let c = vec_of(false, x.len());
            proof {
                assert(c@ =~= Seq::new(x@.len(), |i: int| false));
            }
            Ok(LowerOutcome::Grafted(single(lower_is_const(&x, c))))
        },
        LowerOp::IsUmax(x) => {
            let c = vec_of(true, x.len());
            proof {
                assert(c@ =~= Seq::new(x@.len(), |i: int| true));
            }
            Ok(LowerOutcome::Grafted(single(lower_is_const(&x, c))))
        },
        LowerOp::IsImax(x) => {
            let mut c = vec_of(true, x.len());
            c.set(x.len() - 1, false);
            proof {
                assert(c@ =~= Seq::new(x@.len(), |i: int| i < x@.len() - 1));
            }
            Ok(LowerOutcome::Grafted(single(lower_is_const(&x, c))))
        },
        LowerOp::IsImin(x) => {
            let mut c = vec_of(false, x.len());
            c.set(x.len() - 1, true);
            proof {
                assert(c@ =~= Seq::new(x@.len(), |i: int| i == x@.len() - 1));
            }
            Ok(LowerOutcome::Grafted(single(lower_is_const(&x, c))))
        },
        LowerOp::IsUone(x) => {
            let mut c = vec_of(false, x.len());
            c.set(0, true);
            proof {
                assert(c@ =~= Seq::new(x@.len(), |i: int| i == 0));
            }
            Ok(LowerOutcome::Grafted(single(lower_is_const(&x, c))))
        },
        LowerOp::CountOnes(x) => {
            let n = count_ones(&x);
            proof {
                lemma_limits();
                lemma_popcount_bounds(x@);
            }
            Ok(LowerOutcome::Grafted(to_word(n)))
        },
        LowerOp::Lz(x) => {
            let n = leading_zeros(&x);
            proof {
                lemma_limits();
                lemma_sig_bits_bound(x@);
            }
            Ok(LowerOutcome::Grafted(to_word(n)))
        },
        LowerOp::Tz(x) => {
            let n = trailing_zeros(&x);
            proof {
                lemma_limits();
                lemma_trailing_zero_count_bound(x@);
            }
            Ok(LowerOutcome::Grafted(to_word(n)))
        },
        LowerOp::Sig(x) => {
            let n = significant_bits(&x);
            proof {
                lemma_limits();
                lemma_sig_bits_bound(x@);
            }
            Ok(LowerOutcome::Grafted(to_word(n)))
        },
        LowerOp::LutSet(table, entry, inx) => {
            let out = lut_set(&table, &entry, &inx);
            proof {
                assert(out@ =~= Seq::new(
                    table@.len(),
                    |k: int|
                        if k / (entry@.len() as int) == uval(inx@) {
                            entry@[k % (entry@.len() as int)]
                        } else {
                            table@[k]
                        },
                ));
            }
            Ok(LowerOutcome::Grafted(out))
        },
        LowerOp::ZeroResizeOverflow(x, w) => Ok(LowerOutcome::Grafted(single(zero_resize_overflow(&x, w)))),
        LowerOp::SignResizeOverflow(x, w) => Ok(LowerOutcome::Grafted(single(sign_resize_overflow(&x, w)))),
        LowerOp::ArbMulAdd(add, lhs, rhs) => Ok(LowerOutcome::Grafted(mul_add(add.len(), Some(&add), &lhs, &rhs))),
        LowerOp::Mux(x0, x1, inx) => {
            let out = static_mux(&x0, &x1, &inx);
            proof {
                assert(out@ =~= if inx@[0] {
                    x1@
                } else {
                    x0@
                });
            }
            Ok(LowerOutcome::Grafted(out))
        },
        LowerOp::UQuo(duo, div) => {
            proof {
                lemma_limits();
            }
            Ok(LowerOutcome::Grafted(division(&duo, &div).0))
        },
        LowerOp::URem(duo, div) => {
            proof {
                lemma_limits();
            }
            Ok(LowerOutcome::Grafted(division(&duo, &div).1))
        },
        LowerOp::IQuo(duo, div) => Ok(LowerOutcome::Grafted(lower_signed_division(&duo, &div).0)),
        LowerOp::IRem(duo, div) => Ok(LowerOutcome::Grafted(lower_signed_division(&duo, &div).1)),
    }
}

/// A one bit vector.
fn single(b: bool) -> (r: Vec<bool>)
    ensures
        r@ == seq![b],
{
    let r = vec![b];
    proof {
        assert(r@ =~= seq![b]);
    }
    r
}

/// `FieldTo`: a no-op unless the window fits.
fn lower_field_to(lhs: &Vec<bool>, to: &Vec<bool>, rhs: &Vec<bool>, width: &Vec<bool>) -> (r: Vec<bool>)
    requires
        width_ok(lhs@),
        width_ok(rhs@),
        width_ok(width@),
    ensures
        r@ == field_to_of(lhs@, uval(to@), rhs@, uval(width@)),
{
    proof {
        lemma_limits();
        lemma_input_index_range(to@);
        lemma_input_index_range(width@);
    }
    match (value_below(to, lhs.len()), value_below(width, lhs.len())) {
        (Some(t), Some(w)) => {
            if t <= lhs.len() - w && w <= rhs.len() {
                let out = field_to(lhs, to, rhs, width);
                proof {
                    assert(out@ =~= field_to_of(lhs@, uval(to@), rhs@, uval(width@)));
                }
                out
            } else {
                lhs.clone()
            }
        },
        _ => lhs.clone(),
    }
}

/// `Field`: a no-op unless both windows fit.
fn lower_field(lhs: &Vec<bool>, to: &Vec<bool>, rhs: &Vec<bool>, from: &Vec<bool>, width: &Vec<bool>) -> (r: Vec<bool>)
    requires
        width_ok(lhs@),
        width_ok(rhs@),
        width_ok(width@),
    ensures
        r@ == field_of(lhs@, uval(to@), rhs@, uval(from@), uval(width@)),
{
    proof {
        lemma_limits();
        lemma_input_index_range(to@);
        lemma_input_index_range(from@);
        lemma_input_index_range(width@);
    }
    match (value_below(to, lhs.len()), value_below(from, rhs.len()), value_below(width, lhs.len())) {
        (Some(t), Some(f), Some(w)) => {
            if w <= rhs.len() && t <= lhs.len() - w && f <= rhs.len() - w {
                let out = field(lhs, to, rhs, from, width);
                proof {
                    assert(out@ =~= field_of(lhs@, uval(to@), rhs@, uval(from@), uval(width@)));
                }
                out
            } else {
                lhs.clone()
            }
        },
        _ => lhs.clone(),
    }
}

/// Whether `x` equals the constant `c`.
fn lower_is_const(x: &Vec<bool>, c: Vec<bool>) -> (r: bool)
    requires
        x@.len() >= 1,
        c@.len() == x@.len(),
    ensures
        r == (x@ == c@),
{
    let r = equal(x, &c);
    proof {
        if r {
            assert(x@ =~= c@);
        }
    }
    r
}

/// Unsigned less than (or equal): the carry out of `!lhs + rhs` with a
/// carry in for the equal case.
fn lower_ult(lhs: &Vec<bool>, rhs: &Vec<bool>, or_equal: bool) -> (r: bool)
    requires
        lhs@.len() >= 1,
        rhs@.len() == lhs@.len(),
    ensures
        r == if or_equal {
            uval(lhs@) <= uval(rhs@)
        } else {
            uval(lhs@) < uval(rhs@)
        },
{
    let not_lhs = bitwise_not(lhs);
    let cin = vec![or_equal];
    let (sum, c, o) = cin_sum(&cin, &not_lhs, rhs);
    proof {
        assert(cin@[0] == or_equal);
        lemma_uval_not(lhs@, not_lhs@);
        lemma_sum_parts(sum@, c, uval(not_lhs@) + uval(rhs@) + bit_val(or_equal));
    }
    c
}

/// Signed less than (or equal): the sign bits decide where they differ,
/// the rest compared unsigned where they agree.
fn lower_ilt(lhs: &Vec<bool>, rhs: &Vec<bool>, or_equal: bool) -> (r: bool)
    requires
        lhs@.len() >= 1,
        rhs@.len() == lhs@.len(),
    ensures
        r == if or_equal {
            sval(lhs@) <= sval(rhs@)
        } else {
            sval(lhs@) < sval(rhs@)
        },
{
    let w = lhs.len();
    let lm = lhs[w - 1];
    let rm = rhs[w - 1];
    proof {
        lemma_sval_split(lhs@);
        lemma_sval_split(rhs@);
    }
    if w == 1 {
        proof {
            assert(lhs@.take(0) =~= Seq::<bool>::empty());
            assert(rhs@.take(0) =~= Seq::<bool>::empty());
        }
        if or_equal {
            lm || !rm
        } else {
            lm && !rm
        }
    } else {
        let lhs_lo = resize_zero(lhs, w - 1);
        let rhs_lo = resize_zero(rhs, w - 1);
        proof {
            assert(lhs_lo@ =~= lhs@.take(w - 1));
            assert(rhs_lo@ =~= rhs@.take(w - 1));
        }
        let lo = lower_ult(&lhs_lo, &rhs_lo, or_equal);
        if lm != rm {
            lm
        } else {
            lo
        }
    }
}

/// A vector's value in terms of its low bits and its most significant bit.
proof fn lemma_sval_split(x: Seq<bool>)
    requires
        x.len() >= 1,
    ensures
        0 <= uval(x.take(x.len() - 1)) < pow2((x.len() - 1) as nat),
        pow2(x.len()) == 2 * pow2((x.len() - 1) as nat),
        sval(x) == uval(x.take(x.len() - 1)) - bit_val(msb(x)) * pow2((x.len() - 1) as nat),
{
    let n = x.len() - 1;
    lemma_uval_take_step(x, n);
    assert(x.take(n + 1) =~= x);
    lemma_input_index_range(x.take(n));
    lemma_pow2_unfold(x.len());
}

/// A count word, as wide as a `usize`.
fn to_word(n: Vec<bool>) -> (r: Vec<bool>)
    requires
        uval(n@) < pow2(usize::BITS as nat),
    ensures
        r@.len() == usize::BITS,
        uval(r@) == uval(n@),
{
    let out = resize_zero(&n, usize::BITS as usize);
    proof {
        lemma_input_index_range(n@);
        if n@.len() >= usize::BITS {
            assert(out@ =~= n@.take(usize::BITS as int));
            lemma_uval_take(n@, usize::BITS as nat);
            vstd::arithmetic::div_mod::lemma_small_mod(uval(n@) as nat, pow2(usize::BITS as nat));
        } else {
            let z = Seq::new((usize::BITS - n@.len()) as nat, |i: int| false);
            assert(out@ =~= n@ + z);
            lemma_uval_zero_extend(n@, z);
        }
    }
    out
}

proof fn lemma_sig_bits_bound(x: Seq<bool>)
    ensures
        sig_bits(x) <= x.len(),
    decreases x.len(),
{
    if x.len() > 0 && !x.last() {
        lemma_sig_bits_bound(x.drop_last());
    }
}

proof fn lemma_trailing_zero_count_bound(x: Seq<bool>)
    ensures
        trailing_zero_count(x) <= x.len(),
    decreases x.len(),
{
    if x.len() > 0 && !x[0] {
        lemma_trailing_zero_count_bound(x.drop_first());
    }
}

/// Whether a bit at or above `w` is set.
fn zero_resize_overflow(x: &Vec<bool>, w: usize) -> (r: bool)
    ensures
        r == (w < x@.len() && any_set(x@, w as int, x@.len() as int)),
{
    let mut i = w;
    let mut found = false;
    while i < x.len()
        invariant
            w <= i || x@.len() <= i,
            found == (w < x@.len() && any_set(x@, w as int, i as int)),
        decreases x@.len() - i,
    {
        if x[i] {
            found = true;
        }
        i = i + 1;
    }
    found
}

/// Whether some bit from `w - 1` up differs from the sign bit.
fn sign_resize_overflow(x: &Vec<bool>, w: usize) -> (r: bool)
    requires
        w >= 1,
    ensures
        r == (w < x@.len() && !(forall|i: int| w - 1 <= i < x@.len() ==> x@[i] == msb(x@))),
{
    if w >= x.len() {
        return false;
    }
    let m = x[x.len() - 1];
    let mut i = w - 1;
    while i < x.len()
        invariant
            w - 1 <= i <= x@.len(),
            w < x@.len(),
            m == msb(x@),
            forall|k: int| w - 1 <= k < i ==> x@[k] == m,
        decreases x@.len() - i,
    {
        if x[i] != m {
            return true;
        }
        i = i + 1;
    }
    false
}

/// Signed division: the magnitudes divided unsigned, then the signs put
/// back, the quotient's from both operands and the remainder's from the
/// dividend.
fn lower_signed_division(duo: &Vec<bool>, div: &Vec<bool>) -> (r: (Vec<bool>, Vec<bool>))
    requires
        width_ok(duo@),
        div@.len() == duo@.len(),
    ensures
        r.0@.len() == duo@.len(),
        r.1@.len() == duo@.len(),
        uval(div@) != 0 ==> uval(r.0@) == negated(
            uabs(duo@) / uabs(div@),
            duo@.len(),
            msb(duo@) != msb(div@),
        ),
        uval(div@) != 0 ==> uval(r.1@) == negated(uabs(duo@) % uabs(div@), duo@.len(), msb(duo@)),
{
    let w = duo.len();
    let duo_msb = duo[w - 1];
    let div_msb = div[w - 1];
    let tmp_duo = negator(duo, &vec![duo_msb]);
    let tmp_div = negator(div, &vec![div_msb]);
    proof {
        lemma_limits();
        lemma_uabs_nonzero(div@);
    }
    let (quo, rem) = division(&tmp_duo, &tmp_div);
    let quo = negator(&quo, &vec![duo_msb != div_msb]);
    let rem = negator(&rem, &vec![duo_msb]);
    (quo, rem)
}

/// A nonzero vector has a nonzero magnitude.
proof fn lemma_uabs_nonzero(x: Seq<bool>)
    requires
        x.len() >= 1,
    ensures
        uval(x) != 0 ==> uabs(x) != 0,
{
    lemma_input_index_range(x);
    if msb(x) && uval(x) != 0 {
        vstd::arithmetic::div_mod::lemma_small_mod((pow2(x.len()) - uval(x)) as nat, pow2(x.len()));
    }
}

/// A value below `m` with a carry worth `m` that add up to `s` are `s`
/// modulo `m` and whether `s` reaches `m`.
proof fn lemma_split_carry(v: int, c: bool, s: int, m: int)
    requires
        m > 0,
        0 <= v < m,
        v + m * bit_val(c) == s,
    ensures
        v == s % m,
        c == (s >= m),
{
    if c {
        vstd::arithmetic::div_mod::lemma_mod_add_multiples_vanish(v, m);
    }
    vstd::arithmetic::div_mod::lemma_small_mod(v as nat, m as nat);
}

/// The parts of an addition: the sum modulo `2^w` and the carry out.
proof fn lemma_sum_parts(out: Seq<bool>, c: bool, s: int)
    requires
        uval(out) + pow2(out.len()) * bit_val(c) == s,
    ensures
        uval(out) == wrap(s, out.len()),
        c == (s >= pow2(out.len())),
{
    lemma_input_index_range(out);
    lemma_pow2_pos(out.len());
    lemma_split_carry(uval(out), c, s, pow2(out.len()) as int);
}

/// The most significant bit of a vector tells whether its value reaches
/// half its range.
proof fn lemma_uval_msb(s: Seq<bool>)
    requires
        s.len() >= 1,
    ensures
        msb(s) == (uval(s) >= pow2((s.len() - 1) as nat)),
{
    let n = (s.len() - 1) as int;
    lemma_uval_take_step(s, n);
    assert(s.take(n + 1) =~= s);
    lemma_input_index_range(s.take(n));
}

/// Adding the negation of `r` subtracts it.
proof fn lemma_add_negated(l: int, r: int, m: int)
    requires
        m > 0,
        0 <= r < m,
    ensures
        (l + (m - r) % m) % m == (l - r) % m,
{
    if r == 0 {
        vstd::arithmetic::div_mod::lemma_mod_self_0(m);
    } else {
        vstd::arithmetic::div_mod::lemma_small_mod((m - r) as nat, m as nat);
        vstd::arithmetic::div_mod::lemma_mod_add_multiples_vanish(l - r, m);
    }
}

/// `FieldWidth`: the width is read over as many bits as it takes to write
/// the narrower operand's width, or the field is a no-op.
fn lower_field_width(lhs: &Vec<bool>, rhs: &Vec<bool>, width: &Vec<bool>) -> (r: Vec<bool>)
    requires
        width_ok(lhs@),
        width_ok(rhs@),
    ensures
        r@ == field_width_of(lhs@, rhs@, uval(width@)),
{
    let min = if lhs.len() < rhs.len() {
        lhs.len()
    } else {
        rhs.len()
    };
    match value_below(width, min) {
        Some(v) => {
            let k = smear_width(min);
            let small = usize_to_bits(v, k);
            let out = field_width(lhs, rhs, &small);
            proof {
                assert(min_int(lhs@.len() as int, rhs@.len() as int) == min);
                assert(small@.take(k as int) =~= small@);
                assert(is_bit_width(k as nat, min_int(lhs@.len() as int, rhs@.len() as int)));
                assert(out@ =~= field_width_of(lhs@, rhs@, uval(width@)));
            }
            out
        },
        None => lhs.clone(),
    }
}

/// `FieldFrom`: a no-op unless the window fits in both operands.
fn lower_field_from(lhs: &Vec<bool>, rhs: &Vec<bool>, from: &Vec<bool>, width: &Vec<bool>) -> (r: Vec<bool>)
    requires
        width_ok(lhs@),
        width_ok(rhs@),
        width_ok(width@),
    ensures
        r@ == field_from_of(lhs@, rhs@, uval(from@), uval(width@)),
{
    proof {
        lemma_limits();
    }
    match (value_below(from, rhs.len()), value_below(width, rhs.len())) {
        (Some(f), Some(w)) => {
            if f <= rhs.len() - w && w <= lhs.len() {
                let out = field_from(lhs, rhs, from, width);
                proof {
                    assert(out@ =~= field_from_of(lhs@, rhs@, uval(from@), uval(width@)));
                }
                out
            } else {
                lhs.clone()
            }
        },
        _ => {
            proof {
                lemma_input_index_range(from@);
                lemma_input_index_range(width@);
            }
            lhs.clone()
        },
    }
}

/// The operand limit against the machine's.
proof fn lemma_limits()
    ensures
        2 * pow2((usize::BITS - 3) as nat) == pow2((usize::BITS - 2) as nat),
        4 * pow2((usize::BITS - 3) as nat) == pow2((usize::BITS - 1) as nat),
        8 * pow2((usize::BITS - 3) as nat) == usize::MAX + 1,
        pow2(usize::BITS as nat) == usize::MAX + 1,
{
    lemma2_to64();
    lemma_pow2_unfold((usize::BITS - 2) as nat);
    lemma_pow2_unfold((usize::BITS - 1) as nat);
    lemma_pow2_unfold(usize::BITS as nat);
}

proof fn lemma_lb_ceil_exists(num: nat, n: nat) -> (lb: nat)
    requires
        1 <= num <= pow2(n),
    ensures
        is_lb_ceil(lb, num as int),
    decreases n,
{
    if n == 0 {
        lemma2_to64();
        0
    } else if num <= pow2((n - 1) as nat) {
        lemma_lb_ceil_exists(num, (n - 1) as nat)
    } else {
        n
    }
}

proof fn lemma_lb_ceil_le(lb: nat, len: nat, n: nat)
    requires
        is_lb_ceil(lb, len as int),
        1 <= len <= pow2(n),
    ensures
        lb <= n,
        len <= pow2(lb),
{
    if lb > n {
        if n < lb - 1 {
            vstd::arithmetic::power2::lemma_pow2_strictly_increases(n, (lb - 1) as nat);
        }
        assert(false);
    }
}


/// `s` false bits below `y` multiply its value by `2^s`.
proof fn lemma_uval_low_zeros(s: nat, y: Seq<bool>)
    ensures
        uval(Seq::new(s, |k: int| false) + y) == pow2(s) * uval(y),
    decreases s,
{
    let z = Seq::new(s, |k: int| false);
    if s == 0 {
        lemma2_to64();
        assert(z + y =~= y);
    } else {
        let z1 = Seq::new((s - 1) as nat, |k: int| false);
        lemma_uval_low_zeros((s - 1) as nat, y);
        assert((z + y).drop_first() =~= z1 + y);
        assert(!(z + y)[0]);
        lemma_pow2_unfold(s);
        assert(pow2(s) * uval(y) == 2 * (pow2((s - 1) as nat) * uval(y))) by (nonlinear_arith)
            requires
                pow2(s) == 2 * pow2((s - 1) as nat),
        ;
    }
}

/// The value of `x` is that of its low `s` bits plus `2^s` times that of
/// the rest.
proof fn lemma_uval_split(x: Seq<bool>, s: nat)
    requires
        s <= x.len(),
    ensures
        uval(x) == uval(x.take(s as int)) + pow2(s) * uval(x.skip(s as int)),
    decreases s,
{
    if s == 0 {
        lemma2_to64();
        assert(x.take(0) =~= Seq::<bool>::empty());
        assert(x.skip(0) =~= x);
    } else {
        let t = x.drop_first();
        lemma_uval_split(t, (s - 1) as nat);
        assert(x.take(s as int).drop_first() =~= t.take(s - 1));
        assert(x.skip(s as int) =~= t.skip(s - 1));
        assert(x.take(s as int)[0] == x[0]);
        lemma_pow2_unfold(s);
        assert(2 * (pow2((s - 1) as nat) * uval(t.skip(s - 1))) == pow2(s) * uval(t.skip(s - 1))) by (nonlinear_arith)
            requires
                pow2(s) == 2 * pow2((s - 1) as nat),
        ;
    }
}

/// Shifting toward the most significant end by `s` below the width
/// multiplies the value by `2^s`, modulo `2^w`.
pub proof fn law_shl_value(x: Seq<bool>, s: nat)
    requires
        s < x.len(),
    ensures
        shl_of(x, s as int).len() == x.len(),
        uval(shl_of(x, s as int)) == (uval(x) * pow2(s)) % (pow2(x.len()) as int),
{
    let n = x.len();
    let y = x.take((n - s) as int);
    assert(shl_of(x, s as int) =~= Seq::new(s, |k: int| false) + y);
    lemma_uval_low_zeros(s, y);
    crate::meta::lemma_uval_take(x, (n - s) as nat);
    lemma_pow2_pos(s);
    lemma_pow2_pos((n - s) as nat);
    lemma_input_index_range(x);
    vstd::arithmetic::power2::lemma_pow2_adds(s, (n - s) as nat);
    vstd::arithmetic::div_mod::lemma_truncate_middle(uval(x), pow2(s) as int, pow2((n - s) as nat) as int);
    assert(uval(x) * pow2(s) == pow2(s) * uval(x)) by (nonlinear_arith);
}

/// Logically shifting toward the least significant end by `s` below the
/// width divides the value by `2^s`, rounding down.
pub proof fn law_lshr_value(x: Seq<bool>, s: nat)
    requires
        s < x.len(),
    ensures
        lshr_of(x, s as int).len() == x.len(),
        uval(lshr_of(x, s as int)) == uval(x) / (pow2(s) as int),
{
    let n = x.len();
    let z = Seq::new(s, |k: int| false);
    assert(lshr_of(x, s as int) =~= x.skip(s as int) + z);
    lemma_uval_zero_extend(x.skip(s as int), z);
    lemma_uval_split(x, s);
    lemma_input_index_range(x.take(s as int));
    lemma_input_index_range(x.skip(s as int));
    lemma_pow2_pos(s);
    vstd::arithmetic::div_mod::lemma_fundamental_div_mod_converse(
        uval(x),
        pow2(s) as int,
        uval(x.skip(s as int)),
        uval(x.take(s as int)),
    );
}

/// Taking a field of zero width leaves `lhs` as it is, wherever `from`
/// points.
pub proof fn law_field_from_zero_width(lhs: Seq<bool>, rhs: Seq<bool>, from: int)
    ensures
        field_from_of(lhs, rhs, from, 0) == lhs,
{
    assert(field_from_of(lhs, rhs, from, 0) =~= lhs);
}

/// The quotient and remainder of a division by a nonzero divisor put the
/// dividend back together, the remainder below the divisor.
pub proof fn law_division(d: int, v: int, quo: int, rem: int)
    requires
        d >= 0,
        v > 0,
        quo == d / v,
        rem == d % v,
    ensures
        quo * v + rem == d,
        0 <= rem < v,
{
    vstd::arithmetic::div_mod::lemma_fundamental_div_mod(d, v);
    vstd::arithmetic::div_mod::lemma_mod_pos_bound(d, v);
    assert(quo * v == v * quo) by (nonlinear_arith);
}

} // verus!
