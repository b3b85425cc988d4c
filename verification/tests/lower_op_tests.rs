use starlight::error::EvalError;
use starlight::lower_op::{lower_op, LowerOp, LowerOutcome};

fn bits(v: u64, w: usize) -> Vec<bool> {
    (0..w).map(|i| (v >> i) & 1 == 1).collect()
}

fn value(b: &[bool]) -> u64 {
    b.iter().enumerate().map(|(i, x)| (*x as u64) << i).sum()
}

fn grafted(op: LowerOp, out_w: usize) -> Vec<bool> {
    match lower_op(op, out_w) {
        Ok(LowerOutcome::Grafted(v)) => v,
        Ok(LowerOutcome::Done) => panic!("unexpectedly elementary"),
        Err(e) => panic!("unexpected error {:?}", e),
    }
}

#[test]
fn refused_and_elementary_ops() {
    assert!(lower_op(LowerOp::Invalid, 1).is_err());
    assert!(matches!(lower_op(LowerOp::Elementary, 1), Ok(LowerOutcome::Done)));
    assert!(lower_op(LowerOp::Lut(bits(0b0110, 4), bits(1, 2), true), 1).is_err());
    assert!(lower_op(LowerOp::Get(bits(0b0110, 4), bits(1, 2), true), 1).is_err());
    assert!(lower_op(LowerOp::SetBit(bits(0, 4), bits(1, 2), bits(1, 1), true), 4).is_err());
}

#[test]
fn dynamic_lut_get_and_set() {
    // a two bit wide table of four entries, entry 2 is 0b10
    let table = bits(0b01_10_11_00, 8);
    assert_eq!(value(&grafted(LowerOp::Lut(table, bits(2, 2), false), 2)), 0b10);
    assert_eq!(grafted(LowerOp::Get(bits(0b0100, 4), bits(2, 3), false), 1), vec![true]);
    let set = grafted(LowerOp::SetBit(bits(0b0000, 4), bits(3, 3), bits(1, 1), false), 4);
    assert_eq!(value(&set), 0b1000);
    let fb = grafted(LowerOp::FieldBit(bits(0, 4), bits(1, 2), bits(0b100, 3), bits(2, 2)), 4);
    assert_eq!(value(&fb), 0b0010);
}

#[test]
fn resizes_and_ends() {
    assert_eq!(value(&grafted(LowerOp::ZeroResize(bits(0b1010, 4)), 6)), 0b00_1010);
    assert_eq!(value(&grafted(LowerOp::SignResize(bits(0b1010, 4)), 6)), 0b11_1010);
    assert_eq!(value(&grafted(LowerOp::SignResize(bits(0b1010, 4)), 2)), 0b10);
    assert_eq!(value(&grafted(LowerOp::Resize(bits(0b0010, 4), bits(1, 1)), 6)), 0b11_0010);
    assert_eq!(grafted(LowerOp::Lsb(bits(0b0110, 4)), 1), vec![false]);
    assert_eq!(grafted(LowerOp::Msb(bits(0b1000, 4)), 1), vec![true]);
}

#[test]
fn shifts_and_rotations() {
    let x = bits(0b1001_0110, 8);
    assert_eq!(value(&grafted(LowerOp::Shl(x.clone(), bits(3, 64)), 8)), 0b1011_0000);
    assert_eq!(value(&grafted(LowerOp::Lshr(x.clone(), bits(3, 64)), 8)), 0b0001_0010);
    assert_eq!(value(&grafted(LowerOp::Ashr(x.clone(), bits(3, 64)), 8)), 0b1111_0010);
    assert_eq!(value(&grafted(LowerOp::Rotl(x.clone(), bits(3, 64)), 8)), 0b1011_0100);
    assert_eq!(value(&grafted(LowerOp::Rotr(x.clone(), bits(3, 64)), 8)), 0b1101_0010);
    // a shift at or past the width leaves the value unchanged
    assert_eq!(value(&grafted(LowerOp::Shl(x.clone(), bits(8, 64)), 8)), 0b1001_0110);
    assert_eq!(value(&grafted(LowerOp::Rotr(x, bits(200, 64)), 8)), 0b1001_0110);
}

#[test]
fn bitwise_ops() {
    let a = bits(0b1100, 4);
    let b = bits(0b1010, 4);
    assert_eq!(value(&grafted(LowerOp::Not(a.clone()), 4)), 0b0011);
    assert_eq!(value(&grafted(LowerOp::Or(a.clone(), b.clone()), 4)), 0b1110);
    assert_eq!(value(&grafted(LowerOp::And(a.clone(), b.clone()), 4)), 0b1000);
    assert_eq!(value(&grafted(LowerOp::Xor(a, b), 4)), 0b0110);
    assert_eq!(value(&grafted(LowerOp::Rev(bits(0b0001, 4)), 4)), 0b1000);
}

#[test]
fn additions() {
    assert_eq!(value(&grafted(LowerOp::Add(bits(13, 4), bits(7, 4)), 4)), 4);
    assert_eq!(value(&grafted(LowerOp::Sub(bits(3, 4), bits(5, 4)), 4)), 14);
    assert_eq!(value(&grafted(LowerOp::Rsb(bits(3, 4), bits(5, 4)), 4)), 2);
    assert_eq!(value(&grafted(LowerOp::Inc(bits(15, 4), bits(1, 1)), 4)), 0);
    assert_eq!(grafted(LowerOp::IncCout(bits(15, 4), bits(1, 1)), 1), vec![true]);
    assert_eq!(value(&grafted(LowerOp::Dec(bits(0, 4), bits(0, 1)), 4)), 15);
    assert_eq!(grafted(LowerOp::DecCout(bits(0, 4), bits(0, 1)), 1), vec![false]);
    let sum = grafted(LowerOp::CinSum(bits(1, 1), bits(9, 4), bits(8, 4)), 4);
    assert_eq!(value(&sum), 2);
    assert_eq!(grafted(LowerOp::UnsignedOverflow(bits(1, 1), bits(9, 4), bits(8, 4)), 1), vec![true]);
    // 7 + 1 overflows signed 4 bit numbers, -8 + -1 too, 7 + -1 does not
    assert_eq!(grafted(LowerOp::SignedOverflow(bits(0, 1), bits(7, 4), bits(1, 4)), 1), vec![true]);
    assert_eq!(grafted(LowerOp::SignedOverflow(bits(0, 1), bits(8, 4), bits(15, 4)), 1), vec![true]);
    assert_eq!(grafted(LowerOp::SignedOverflow(bits(0, 1), bits(7, 4), bits(15, 4)), 1), vec![false]);
    assert_eq!(value(&grafted(LowerOp::Neg(bits(3, 4), bits(1, 1)), 4)), 13);
    assert_eq!(value(&grafted(LowerOp::Neg(bits(3, 4), bits(0, 1)), 4)), 3);
    assert_eq!(value(&grafted(LowerOp::Abs(bits(13, 4)), 4)), 3);
    assert_eq!(value(&grafted(LowerOp::Abs(bits(8, 4)), 4)), 8);
}

#[test]
fn fields() {
    let lhs = bits(0b0000_0000, 8);
    let rhs = bits(0b1111_0110, 8);
    let fw = grafted(LowerOp::FieldWidth(lhs.clone(), rhs.clone(), bits(3, 64)), 8);
    assert_eq!(value(&fw), 0b110);
    let ff = grafted(LowerOp::FieldFrom(lhs.clone(), rhs.clone(), bits(1, 64), bits(4, 64)), 8);
    assert_eq!(value(&ff), 0b1011);
    let ft = grafted(LowerOp::FieldTo(lhs.clone(), bits(5, 64), rhs.clone(), bits(3, 64)), 8);
    assert_eq!(value(&ft), 0b1100_0000);
    let f = grafted(LowerOp::Field(lhs.clone(), bits(2, 64), rhs.clone(), bits(4, 64), bits(4, 64)), 8);
    assert_eq!(value(&f), 0b0011_1100);
    // windows that do not fit leave `lhs` as it is
    let bad = grafted(LowerOp::FieldTo(lhs.clone(), bits(6, 64), rhs.clone(), bits(3, 64)), 8);
    assert_eq!(value(&bad), 0);
    let bad = grafted(LowerOp::Field(lhs.clone(), bits(0, 64), rhs.clone(), bits(6, 64), bits(3, 64)), 8);
    assert_eq!(value(&bad), 0);
    let bad = grafted(LowerOp::FieldWidth(lhs, bits(0b11, 2), bits(3, 64)), 8);
    assert_eq!(value(&bad), 0);
    let funnel = grafted(LowerOp::Funnel(bits(0b0110_1001, 8), bits(3, 2)), 4);
    assert_eq!(value(&funnel), 0b1101);
}

#[test]
fn comparisons() {
    let m1 = bits(15, 4);
    let one = bits(1, 4);
    assert_eq!(grafted(LowerOp::Eq(one.clone(), one.clone()), 1), vec![true]);
    assert_eq!(grafted(LowerOp::Ne(one.clone(), m1.clone()), 1), vec![true]);
    assert_eq!(grafted(LowerOp::Ult(m1.clone(), one.clone()), 1), vec![false]);
    assert_eq!(grafted(LowerOp::Ule(one.clone(), one.clone()), 1), vec![true]);
    assert_eq!(grafted(LowerOp::Ilt(m1.clone(), one.clone()), 1), vec![true]);
    assert_eq!(grafted(LowerOp::Ile(one.clone(), m1.clone()), 1), vec![false]);
    assert_eq!(grafted(LowerOp::Ile(m1.clone(), m1.clone()), 1), vec![true]);
    assert_eq!(grafted(LowerOp::Ilt(bits(1, 1), bits(0, 1)), 1), vec![true]);
    assert_eq!(grafted(LowerOp::IsZero(bits(0, 4)), 1), vec![true]);
    assert_eq!(grafted(LowerOp::IsUmax(m1.clone()), 1), vec![true]);
    assert_eq!(grafted(LowerOp::IsImax(bits(7, 4)), 1), vec![true]);
    assert_eq!(grafted(LowerOp::IsImin(bits(8, 4)), 1), vec![true]);
    assert_eq!(grafted(LowerOp::IsUone(m1), 1), vec![false]);
}

#[test]
fn counts_are_words() {
    let x = bits(0b0010_1100, 8);
    let c = grafted(LowerOp::CountOnes(x.clone()), 64);
    assert_eq!(c.len(), usize::BITS as usize);
    assert_eq!(value(&c), 3);
    assert_eq!(value(&grafted(LowerOp::Lz(x.clone()), 64)), 2);
    assert_eq!(value(&grafted(LowerOp::Tz(x.clone()), 64)), 2);
    assert_eq!(value(&grafted(LowerOp::Sig(x), 64)), 6);
}

#[test]
fn table_set_overflow_checks_and_mux() {
    let t = grafted(LowerOp::LutSet(bits(0, 8), bits(0b11, 2), bits(2, 2)), 8);
    assert_eq!(value(&t), 0b0011_0000);
    assert_eq!(grafted(LowerOp::ZeroResizeOverflow(bits(0b0100, 4), 2), 1), vec![true]);
    assert_eq!(grafted(LowerOp::ZeroResizeOverflow(bits(0b0100, 4), 3), 1), vec![false]);
    assert_eq!(grafted(LowerOp::SignResizeOverflow(bits(0b0110, 4), 3), 1), vec![true]);
    assert_eq!(grafted(LowerOp::SignResizeOverflow(bits(0b1110, 4), 3), 1), vec![false]);
    assert_eq!(grafted(LowerOp::SignResizeOverflow(bits(0b0110, 4), 4), 1), vec![false]);
    let mux = grafted(LowerOp::Mux(bits(3, 4), bits(12, 4), bits(1, 1)), 4);
    assert_eq!(value(&mux), 12);
    let ma = grafted(LowerOp::ArbMulAdd(bits(5, 8), bits(12, 4), bits(11, 4)), 8);
    assert_eq!(value(&ma), (5 + 12 * 11) % 256);
}

#[test]
fn divisions() {
    assert_eq!(value(&grafted(LowerOp::UQuo(bits(13, 4), bits(4, 4)), 4)), 3);
    assert_eq!(value(&grafted(LowerOp::URem(bits(13, 4), bits(4, 4)), 4)), 1);
    // -7 / 2 == -3 and -7 % 2 == -1 on four bits
    assert_eq!(value(&grafted(LowerOp::IQuo(bits(9, 4), bits(2, 4)), 4)), 13);
    assert_eq!(value(&grafted(LowerOp::IRem(bits(9, 4), bits(2, 4)), 4)), 15);
    // 7 / -2 == -3, 7 % -2 == 1
    assert_eq!(value(&grafted(LowerOp::IQuo(bits(7, 4), bits(14, 4)), 4)), 13);
    assert_eq!(value(&grafted(LowerOp::IRem(bits(7, 4), bits(14, 4)), 4)), 1);
}

#[test]
fn refusals_say_why() {
    assert!(matches!(
        lower_op(LowerOp::Invalid, 1),
        Err(EvalError::OtherStr(m)) if m == "encountered `Invalid` in lowering"
    ));
    assert!(matches!(
        lower_op(LowerOp::Lut(bits(0b0110, 4), bits(1, 2), true), 1),
        Err(EvalError::OtherStr(m)) if m == "this needs to be handled before this function"
    ));
    assert!(matches!(
        lower_op(LowerOp::Get(bits(0b0110, 4), bits(1, 2), true), 1),
        Err(EvalError::OtherStr(m)) if m == "this needs to be handled before this function"
    ));
    assert!(matches!(
        lower_op(LowerOp::SetBit(bits(0, 4), bits(1, 2), bits(1, 1), true), 4),
        Err(EvalError::OtherStr(m)) if m == "this needs to be handled before this function"
    ));
}
