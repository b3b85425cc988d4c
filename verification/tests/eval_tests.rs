use starlight::eval::{calculate_lnode_value, LNodeInputs};
use starlight::value::Value;

const AND: [bool; 4] = [false, false, false, true];
const OR: [bool; 4] = [false, true, true, true];
const XOR: [bool; 4] = [false, true, true, false];

#[test]
fn copies_take_their_input() {
    assert_eq!(calculate_lnode_value(&LNodeInputs::Copy(Value::Dynam(true), 7)), (Value::Dynam(true), 7));
}

#[test]
fn tables_are_known_when_the_unknown_inputs_cannot_matter() {
    let and = AND.to_vec();
    let r = calculate_lnode_value(&LNodeInputs::Lut(vec![(Value::Dynam(false), 3), (Value::Unknown, 5)], and.clone()));
    assert_eq!(r, (Value::Dynam(false), 5));
    let r = calculate_lnode_value(&LNodeInputs::Lut(vec![(Value::Dynam(true), 2), (Value::Unknown, 1)], and));
    assert_eq!(r, (Value::Unknown, 2));
    let r = calculate_lnode_value(&LNodeInputs::Lut(vec![(Value::Unknown, 1), (Value::Const(true), 9)], OR.to_vec()));
    assert_eq!(r, (Value::Dynam(true), 9));
    let r = calculate_lnode_value(&LNodeInputs::Lut(vec![(Value::Const(true), 1), (Value::Dynam(true), 1)], XOR.to_vec()));
    assert_eq!(r, (Value::Dynam(false), 1));
    let r = calculate_lnode_value(&LNodeInputs::Lut(vec![(Value::ConstUnknown, 4), (Value::Dynam(false), 2)], XOR.to_vec()));
    assert_eq!(r, (Value::Unknown, 4));
    // a table that ignores its inputs is known either way
    let r = calculate_lnode_value(&LNodeInputs::Lut(vec![(Value::Unknown, 1)], vec![true, true]));
    assert_eq!(r, (Value::Dynam(true), 1));
    let r = calculate_lnode_value(&LNodeInputs::Lut(vec![], vec![false]));
    assert_eq!(r, (Value::Dynam(false), 1));
}

#[test]
fn dynamic_tables_need_their_entries_known_too() {
    let r = calculate_lnode_value(&LNodeInputs::DynamicLut(vec![(Value::Dynam(true), 4)], vec![None, Some(false)]));
    assert_eq!(r, (Value::Dynam(false), 4));
    let r = calculate_lnode_value(&LNodeInputs::DynamicLut(vec![(Value::Dynam(false), 4)], vec![None, Some(false)]));
    assert_eq!(r, (Value::Unknown, 4));
    let r = calculate_lnode_value(&LNodeInputs::DynamicLut(vec![(Value::Unknown, 1)], vec![Some(true), Some(true)]));
    assert_eq!(r, (Value::Dynam(true), 1));
    let r = calculate_lnode_value(&LNodeInputs::DynamicLut(vec![(Value::Unknown, 1)], vec![Some(true), None]));
    assert_eq!(r, (Value::Unknown, 1));
    let r = calculate_lnode_value(&LNodeInputs::DynamicLut(vec![(Value::Unknown, 1)], vec![Some(true), Some(false)]));
    assert_eq!(r, (Value::Unknown, 1));
}

#[test]
fn known_inputs_read_the_table() {
    let lut: Vec<bool> = (0..8usize).map(|k| (k * 5 + 1) % 3 == 0).collect();
    for k in 0..8usize {
        let inputs: Vec<(Value, u64)> = (0..3).map(|m| (Value::Const((k >> m) & 1 == 1), 1)).collect();
        let r = calculate_lnode_value(&LNodeInputs::Lut(inputs, lut.clone()));
        assert_eq!(r, (Value::Dynam(lut[k]), 1));
    }
}
