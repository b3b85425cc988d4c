use starlight::state::{
    lower_elementary_to_lnodes_intermediate, BitAction, ElementaryOp, OpaqueArg, OpaqueName,
    OperandBit,
};
use starlight::tnode::Delay;
use starlight::value::Value;

fn ob(operand: usize, bit: usize) -> OperandBit {
    OperandBit { operand, bit }
}

fn unify(o: usize, operand: usize, bit: usize) -> BitAction {
    BitAction::Unify(o, ob(operand, bit))
}

fn bits(v: u64, w: usize) -> Vec<bool> {
    (0..w).map(|i| (v >> i) & 1 == 1).collect()
}

fn arg(width: usize, values: Vec<Value>) -> OpaqueArg {
    OpaqueArg { width, argument: None, values }
}

fn delay_arg(b: Vec<bool>) -> OpaqueArg {
    OpaqueArg { width: b.len(), argument: Some(b.clone()), values: b.iter().map(|x| Value::Const(*x)).collect() }
}

#[test]
fn copies_concats_and_repeats() {
    let r = lower_elementary_to_lnodes_intermediate(ElementaryOp::Copy(3), 3).unwrap();
    assert_eq!(r, vec![unify(0, 0, 0), unify(1, 0, 1), unify(2, 0, 2)]);
    let r = lower_elementary_to_lnodes_intermediate(ElementaryOp::Assert(1), 1).unwrap();
    assert_eq!(r, vec![unify(0, 0, 0)]);
    let r = lower_elementary_to_lnodes_intermediate(ElementaryOp::StaticGet(4, 2), 1).unwrap();
    assert_eq!(r, vec![unify(0, 0, 2)]);
    let r = lower_elementary_to_lnodes_intermediate(ElementaryOp::Concat(vec![2, 1]), 3).unwrap();
    assert_eq!(r, vec![unify(0, 0, 0), unify(1, 0, 1), unify(2, 1, 0)]);
    let r = lower_elementary_to_lnodes_intermediate(
        ElementaryOp::ConcatFields(vec![(4, 1, 2), (3, 0, 1)]),
        3,
    )
    .unwrap();
    assert_eq!(r, vec![unify(0, 0, 1), unify(1, 0, 2), unify(2, 1, 0)]);
    let r = lower_elementary_to_lnodes_intermediate(ElementaryOp::Repeat(2), 5).unwrap();
    assert_eq!(r, vec![unify(0, 0, 0), unify(1, 0, 1), unify(2, 0, 0), unify(3, 0, 1), unify(4, 0, 0)]);
}

#[test]
fn tables_split_per_output_bit() {
    // two outputs of a two bit index, entry i holding output b at 2 * i + b
    let lut = bits(0b10_01_11_00, 8);
    let r = lower_elementary_to_lnodes_intermediate(ElementaryOp::StaticLut(vec![1, 1], lut), 2).unwrap();
    let inx = vec![ob(0, 0), ob(1, 0)];
    assert_eq!(r, vec![
        BitAction::StaticLut(0, inx.clone(), vec![false, true, true, false]),
        BitAction::StaticLut(1, inx, vec![false, true, false, true]),
    ]);
    let present = vec![true, false, true, true];
    let r = lower_elementary_to_lnodes_intermediate(ElementaryOp::Lut(present, 1), 2).unwrap();
    assert_eq!(r, vec![
        BitAction::DynamicLut(0, vec![ob(1, 0)], vec![Some(ob(0, 0)), Some(ob(0, 2))]),
        BitAction::DynamicLut(1, vec![ob(1, 0)], vec![None, Some(ob(0, 3))]),
    ]);
    let r = lower_elementary_to_lnodes_intermediate(ElementaryOp::Mux(2, 2, 1), 2).unwrap();
    assert_eq!(r, vec![
        BitAction::DynamicLut(0, vec![ob(2, 0)], vec![Some(ob(0, 0)), Some(ob(1, 0))]),
        BitAction::DynamicLut(1, vec![ob(2, 0)], vec![Some(ob(0, 1)), Some(ob(1, 1))]),
    ]);
}

#[test]
fn delays_become_temporal_nodes() {
    let op = ElementaryOp::Opaque(
        vec![arg(2, vec![Value::Unknown, Value::Dynam(true)]), delay_arg(bits(5, 3))],
        Some(OpaqueName::Delay),
    );
    let r = lower_elementary_to_lnodes_intermediate(op, 2).unwrap();
    assert_eq!(r, vec![
        BitAction::Temporal {
            source: 0,
            driver: ob(0, 0),
            delay: Delay::from_amount(5),
            eval_now: false,
            backup_event: false,
            initial: None,
        },
        BitAction::Temporal {
            source: 1,
            driver: ob(0, 1),
            delay: Delay::from_amount(5),
            eval_now: true,
            backup_event: false,
            initial: None,
        },
    ]);
    // a zero delay, an overlong one, a missing argument and a wrong count are refused
    for a in [delay_arg(bits(0, 3)), delay_arg(vec![true; 129]), arg(3, vec![Value::Unknown; 3])] {
        let op = ElementaryOp::Opaque(vec![arg(1, vec![Value::Unknown]), a], Some(OpaqueName::Delay));
        assert!(lower_elementary_to_lnodes_intermediate(op, 1).is_err());
    }
    let op = ElementaryOp::Opaque(vec![arg(1, vec![Value::Unknown])], Some(OpaqueName::Delay));
    assert!(lower_elementary_to_lnodes_intermediate(op, 1).is_err());
}

#[test]
fn loops_start_from_constant_initial_values() {
    let init = arg(2, vec![Value::Const(true), Value::ConstUnknown]);
    let driver = arg(2, vec![Value::Unknown, Value::Unknown]);
    let op = ElementaryOp::Opaque(vec![init.clone(), driver.clone()], Some(OpaqueName::LoopSource));
    let r = lower_elementary_to_lnodes_intermediate(op, 2).unwrap();
    assert_eq!(r, vec![
        BitAction::Temporal {
            source: 0,
            driver: ob(1, 0),
            delay: Delay::zero(),
            eval_now: false,
            backup_event: true,
            initial: Some(Value::Dynam(true)),
        },
        BitAction::Temporal {
            source: 1,
            driver: ob(1, 1),
            delay: Delay::zero(),
            eval_now: false,
            backup_event: true,
            initial: Some(Value::Unknown),
        },
    ]);
    let op = ElementaryOp::Opaque(
        vec![init.clone(), driver.clone(), delay_arg(bits(3, 2))],
        Some(OpaqueName::DelayedLoopSource),
    );
    let r = lower_elementary_to_lnodes_intermediate(op, 2).unwrap();
    assert_eq!(r[1], BitAction::Temporal {
        source: 1,
        driver: ob(1, 1),
        delay: Delay::from_amount(3),
        eval_now: true,
        backup_event: false,
        initial: Some(Value::Unknown),
    });
    // an initial value that is not constant, or a width mismatch, is refused
    let bad_init = arg(2, vec![Value::Dynam(true), Value::ConstUnknown]);
    let op = ElementaryOp::Opaque(vec![bad_init, driver.clone()], Some(OpaqueName::LoopSource));
    assert!(lower_elementary_to_lnodes_intermediate(op, 2).is_err());
    let op = ElementaryOp::Opaque(vec![init, arg(3, vec![Value::Unknown; 3])], Some(OpaqueName::LoopSource));
    assert!(lower_elementary_to_lnodes_intermediate(op, 2).is_err());
}

#[test]
fn what_cannot_be_lowered() {
    assert!(lower_elementary_to_lnodes_intermediate(ElementaryOp::Other, 1).is_err());
    let undriven = ElementaryOp::Opaque(vec![arg(1, vec![Value::Unknown])], Some(OpaqueName::UndrivenLoopSource));
    assert!(lower_elementary_to_lnodes_intermediate(undriven, 1).is_err());
    let other = ElementaryOp::Opaque(vec![], Some(OpaqueName::Other));
    assert!(lower_elementary_to_lnodes_intermediate(other, 1).is_err());
    let plain = ElementaryOp::Opaque(vec![], None);
    assert_eq!(lower_elementary_to_lnodes_intermediate(plain, 4).unwrap(), vec![]);
}
