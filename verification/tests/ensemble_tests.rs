use starlight::ensemble::Ensemble;
use starlight::error::EvalError;
use starlight::optimize::Optimization;
use starlight::ptr::{PBack, PLNode, PState, PTNode};
use starlight::tnode::Delay;
use starlight::stator::NodeOp;
use starlight::value::Value;

fn run_all(e: &mut Ensemble) {
    while let Some(o) = e.pop_optimization() {
        assert!(e.optimize(o).is_ok());
    }
}

#[test]
fn constant_input_reduces_an_and_to_a_forwarded_copy() {
    let mut e = Ensemble::new();
    let a = e.make_equiv(Value::Const(true));
    let b = e.make_equiv(Value::Dynam(true));
    let out = e.make_lnode(&vec![a, b], Some(vec![false, false, false, true]), Value::Unknown).unwrap();
    let r = e.make_rnode(&vec![out]).unwrap();
    let l = e.lnode_of(out).unwrap();
    assert_eq!(e.get_external(r, 0), Some(Value::Unknown));
    assert!(e.optimize(Optimization::InvestigateConst(PLNode::new(l, 0))).is_ok());
    run_all(&mut e);
    // the node is gone, the external bit reads the input it copied
    assert!(!e.lnode_exists(l));
    assert!(!e.contains(out));
    assert_eq!(e.get_external(r, 0), Some(Value::Dynam(true)));
    // the constant that nothing reads any more is gone
    assert!(!e.contains(a));
    assert!(e.contains(b));
}

#[test]
fn constant_inputs_make_a_constant_equivalence() {
    let mut e = Ensemble::new();
    let a = e.make_equiv(Value::Const(true));
    let b = e.make_equiv(Value::Const(false));
    let out = e.make_lnode(&vec![a, b], Some(vec![false, false, false, true]), Value::Unknown).unwrap();
    let r = e.make_rnode(&vec![out]).unwrap();
    let l = e.lnode_of(out).unwrap();
    assert!(e.optimize(Optimization::InvestigateConst(PLNode::new(l, 0))).is_ok());
    assert_eq!(e.equiv_val(out), Some(Value::Const(false)));
    run_all(&mut e);
    assert!(!e.lnode_exists(l));
    assert_eq!(e.get_external(r, 0), Some(Value::Const(false)));
}

#[test]
fn an_equivalence_that_is_read_is_not_removed() {
    let mut e = Ensemble::new();
    let a = e.make_equiv(Value::Dynam(false));
    let r = e.make_rnode(&vec![a]).unwrap();
    match e.optimize(Optimization::RemoveEquiv(PBack::new(a, 0))) {
        Err(EvalError::OtherStr(_)) => {},
        _ => panic!(),
    }
    assert!(e.contains(a));
    assert_eq!(e.get_external(r, 0), Some(Value::Dynam(false)));
}

#[test]
fn an_unused_equivalence_is_removed_after_preinvestigation() {
    let mut e = Ensemble::new();
    let a = e.make_equiv(Value::Unknown);
    let b = e.make_equiv(Value::Unknown);
    let out = e.make_lnode(&vec![b], None, Value::Unknown).unwrap();
    assert!(e.optimize(Optimization::Preinvestigate(PBack::new(a, 0))).is_ok());
    assert_eq!(e.pop_optimization(), Some(Optimization::RemoveEquiv(PBack::new(a, 0))));
    assert!(e.optimize(Optimization::RemoveEquiv(PBack::new(a, 0))).is_ok());
    assert!(!e.contains(a));
    // removing the copy's equivalence takes the copy and its input reference
    let l = e.lnode_of(out).unwrap();
    assert!(e.optimize(Optimization::RemoveEquiv(PBack::new(out, 0))).is_ok());
    assert!(!e.lnode_exists(l));
    assert!(e.contains(b));
}

#[test]
fn forwarding_needs_a_copy() {
    let mut e = Ensemble::new();
    let a = e.make_equiv(Value::Unknown);
    let b = e.make_equiv(Value::Unknown);
    let out = e.make_lnode(&vec![a, b], Some(vec![false, true, true, false]), Value::Unknown).unwrap();
    assert!(e.optimize(Optimization::ForwardEquiv(PBack::new(out, 0))).is_err());
    assert!(e.optimize(Optimization::ForwardEquiv(PBack::new(a, 0))).is_err());
    assert!(e.optimize(Optimization::RemoveLNode(PBack::new(out, 0))).is_err());
    // a reference that is not there is left alone
    assert!(e.optimize(Optimization::ForwardEquiv(PBack::new(1000, 0))).is_ok());
}

#[test]
fn malformed_nodes_are_not_made() {
    let mut e = Ensemble::new();
    let a = e.make_equiv(Value::Unknown);
    assert_eq!(e.make_lnode(&vec![a, 77], Some(vec![false; 4]), Value::Unknown), None);
    assert_eq!(e.make_lnode(&vec![a], Some(vec![false; 3]), Value::Unknown), None);
    assert_eq!(e.make_lnode(&vec![a, a], None, Value::Unknown), None);
    assert_eq!(e.make_rnode(&vec![a, 9]), None);
    assert!(e.make_lnode(&vec![a, a], Some(vec![false; 4]), Value::Unknown).is_some());
}

#[test]
fn lowering_makes_literal_get_and_set_static() {
    let mut e = Ensemble::new();
    let bits = e.make_state(NodeOp::Opaque(vec![]), 4).unwrap();
    // index 2, least significant bit first
    let inx = e.make_state(NodeOp::Literal(vec![false, true, false, false, false, false, false, false]), 8).unwrap();
    let get = e.make_state(NodeOp::Get(bits, inx), 1).unwrap();
    let set = e.make_state(NodeOp::SetBit(bits, inx, get), 4).unwrap();
    let root = e.make_state(NodeOp::Elementary(vec![set]), 4).unwrap();
    let needs = e.dfs_lower_states_to_elementary(PState::new(root, 0)).unwrap();
    assert!(needs.is_empty());
    assert_eq!(e.state_op(get), Some(&NodeOp::ConcatFields(vec![(bits, 2, 1)])));
    assert_eq!(e.state_op(set), Some(&NodeOp::ConcatFields(vec![(bits, 0, 2), (get, 0, 1), (bits, 3, 1)])));
    for s in [bits, get, set, root] {
        assert_eq!(e.state_lowered(s), Some(true));
    }
    // the literal index is no longer read
    assert_eq!(e.state_lowered(inx), Some(false));
    // a second lowering finds nothing to do
    assert!(e.dfs_lower_states_to_elementary(PState::new(root, 0)).unwrap().is_empty());
}

#[test]
fn lowering_reports_what_lower_op_has_to_do() {
    let mut e = Ensemble::new();
    let bits = e.make_state(NodeOp::Opaque(vec![]), 4).unwrap();
    let inx = e.make_state(NodeOp::Opaque(vec![]), 2).unwrap();
    let get = e.make_state(NodeOp::Get(bits, inx), 1).unwrap();
    let out = e.make_state(NodeOp::Literal(vec![true]), 1).unwrap();
    let bad = e.make_state(NodeOp::Literal(vec![true, true, true, true, true]), 5).unwrap();
    let far = e.make_state(NodeOp::SetBit(bits, bad, out), 4).unwrap();
    let lut = e.make_state(NodeOp::Lut(out, inx), 1).unwrap();
    let root = e.make_state(NodeOp::Other(vec![get, far, lut]), 4).unwrap();
    let mut needs = e.dfs_lower_states_to_elementary(PState::new(root, 0)).unwrap();
    needs.sort();
    let mut expect = vec![root, get];
    expect.sort();
    assert_eq!(needs, expect);
    // a set out of range copies the bits
    assert_eq!(e.state_op(far), Some(&NodeOp::Copy(bits)));
    // a one bit table cannot be indexed by two bits: the value is unknown
    assert_eq!(e.state_op(lut), Some(&NodeOp::Opaque(vec![])));
    assert!(matches!(e.dfs_lower_states_to_elementary(PState::new(99, 0)), Err(EvalError::InvalidPtr)));
}

#[test]
fn optimize_all_settles_the_ensemble() {
    let mut e = Ensemble::new();
    let a = e.make_equiv(Value::Const(true));
    let b = e.make_equiv(Value::Dynam(true));
    let out = e.make_lnode(&vec![a, b], Some(vec![false, false, false, true]), Value::Unknown).unwrap();
    let r = e.make_rnode(&vec![out]).unwrap();
    let l = e.lnode_of(out).unwrap();
    assert!(e.verify_integrity().is_ok());
    assert_eq!(e.optimize_all(1000).unwrap(), true);
    assert!(e.verify_integrity().is_ok());
    assert!(!e.lnode_exists(l));
    assert!(!e.contains(a));
    assert_eq!(e.get_external(r, 0), Some(Value::Dynam(true)));
    assert_eq!(e.pop_optimization(), None);
}

#[test]
fn a_constant_driver_makes_a_temporal_node_constant() {
    let mut e = Ensemble::new();
    let d = e.make_equiv(Value::Const(true));
    let out = e.make_tnode(d, Delay::from_amount(3), Value::Unknown).unwrap();
    let r = e.make_rnode(&vec![out]).unwrap();
    assert_eq!(e.make_tnode(555, Delay::zero(), Value::Unknown), None);
    // the temporal node is the first one made
    assert!(e.optimize(Optimization::InvestigateLoopDriverConst(PTNode::new(0, 0))).is_ok());
    assert_eq!(e.get_external(r, 0), Some(Value::Const(true)));
    assert_eq!(e.pop_optimization(), Some(Optimization::ConstifyEquiv(PBack::new(out, 0))));
    assert!(e.optimize(Optimization::ConstifyEquiv(PBack::new(out, 0))).is_ok());
    // the node went with its output reference; its driver is looked at
    assert!(!e.contains(out));
    assert_eq!(e.get_external(r, 0), Some(Value::Const(true)));
    assert!(e.optimize(Optimization::InvestigateUsed(PBack::new(d, 0))).is_ok());
    assert_eq!(e.pop_optimization(), Some(Optimization::RemoveEquiv(PBack::new(d, 0))));
}

#[test]
fn forwarding_moves_what_a_temporal_node_is_driven_by() {
    let mut e = Ensemble::new();
    let a = e.make_equiv(Value::Dynam(false));
    let copy = e.make_lnode(&vec![a], None, Value::Unknown).unwrap();
    let out = e.make_tnode(copy, Delay::zero(), Value::Unknown).unwrap();
    let r = e.make_rnode(&vec![out]).unwrap();
    // something outside the copy's equivalence reads it: it is not removed
    assert!(e.optimize(Optimization::RemoveEquiv(PBack::new(copy, 0))).is_err());
    assert!(e.optimize(Optimization::ForwardEquiv(PBack::new(copy, 0))).is_ok());
    assert!(!e.contains(copy));
    assert!(e.verify_integrity().is_ok());
    // the temporal node now reads `a`, which is therefore in use
    assert!(e.optimize(Optimization::RemoveEquiv(PBack::new(a, 0))).is_err());
    assert_eq!(e.get_external(r, 0), Some(Value::Unknown));
}
