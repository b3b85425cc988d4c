use starlight::optimize::{
    const_eval_lut, equiv_is_used, preinvestigate_equiv, EquivFate, LNodeOutcome, LutInputRef, Optimization,
    Optimizer, ReferentUse,
};
use starlight::ptr::{PBack, PLNode};

fn input(i: usize, constant: Option<bool>) -> LutInputRef {
    LutInputRef { p_inp: PBack::new(100 + i, 1), p_equiv: PBack::new(i, 1), constant }
}

#[test]
fn optimizer_runs_least_first_and_once() {
    let mut o = Optimizer::new();
    assert!(o.check_clear().is_ok());
    o.insert(Optimization::InvestigateConst(PLNode::new(4, 0)));
    o.insert(Optimization::RemoveEquiv(PBack::new(7, 0)));
    o.insert(Optimization::Preinvestigate(PBack::new(9, 0)));
    o.insert(Optimization::RemoveEquiv(PBack::new(7, 0)));
    o.insert(Optimization::RemoveEquiv(PBack::new(2, 3)));
    assert!(o.check_clear().is_err());
    assert_eq!(o.pop_min(), Some(Optimization::Preinvestigate(PBack::new(9, 0))));
    assert_eq!(o.pop_min(), Some(Optimization::RemoveEquiv(PBack::new(2, 3))));
    assert_eq!(o.pop_min(), Some(Optimization::RemoveEquiv(PBack::new(7, 0))));
    assert_eq!(o.pop_min(), Some(Optimization::InvestigateConst(PLNode::new(4, 0))));
    assert_eq!(o.pop_min(), None);
    assert!(o.check_clear().is_ok());
}

#[test]
fn constant_inputs_fold_into_the_table() {
    // an AND gate with one input known true copies the other input
    let and = vec![false, false, false, true];
    let (out, removed) = const_eval_lut(vec![input(0, Some(true)), input(1, None)], and.clone());
    assert!(matches!(out, LNodeOutcome::Copy(x) if x == input(1, None)));
    assert_eq!(removed, vec![input(0, Some(true))]);
    // with one input known false it is a constant
    let (out, removed) = const_eval_lut(vec![input(0, None), input(1, Some(false))], and);
    assert!(matches!(out, LNodeOutcome::Const(false)));
    assert_eq!(removed.len(), 2);
}

#[test]
fn repeated_and_unused_inputs_go() {
    // XOR of one equivalence with itself is always false
    let xor = vec![false, true, true, false];
    let (out, _) = const_eval_lut(vec![input(3, None), input(3, None)], xor);
    assert!(matches!(out, LNodeOutcome::Const(false)));
    // a table that ignores input 1 copies input 0
    let copy0 = vec![false, true, false, true];
    let (out, removed) = const_eval_lut(vec![input(0, None), input(1, None)], copy0);
    assert!(matches!(out, LNodeOutcome::Copy(x) if x == input(0, None)));
    assert_eq!(removed, vec![input(1, None)]);
}

#[test]
fn a_table_that_needs_every_input_stays() {
    // majority of three
    let maj: Vec<bool> = (0..8usize).map(|k| k.count_ones() >= 2).collect();
    let inputs = vec![input(0, None), input(1, None), input(2, None)];
    let (out, removed) = const_eval_lut(inputs.clone(), maj.clone());
    match out {
        LNodeOutcome::Lut(ps, t) => {
            assert_eq!(ps, inputs);
            assert_eq!(t, maj);
        }
        _ => panic!("expected a table"),
    }
    assert!(removed.is_empty());
    // an inverter stays a table of one input
    let (out, _) = const_eval_lut(vec![input(5, None)], vec![true, false]);
    assert!(matches!(out, LNodeOutcome::Lut(ps, t) if ps == vec![input(5, None)] && t == vec![true, false]));
}

#[test]
fn unused_equivalences_go_and_constant_ones_are_constified() {
    let only_self = vec![ReferentUse::ThisEquiv, ReferentUse::ThisLNode(false), ReferentUse::ThisStateBit(false), ReferentUse::LoopDriver(true)];
    assert!(!equiv_is_used(&only_self));
    assert_eq!(preinvestigate_equiv(&only_self, true), EquivFate::Remove);
    let used = vec![ReferentUse::ThisEquiv, ReferentUse::ThisLNode(false), ReferentUse::Input];
    assert!(equiv_is_used(&used));
    assert_eq!(preinvestigate_equiv(&used, false), EquivFate::Investigate);
    assert_eq!(preinvestigate_equiv(&used, true), EquivFate::Constify);
    let const_node = vec![ReferentUse::ThisEquiv, ReferentUse::ThisTNode(true), ReferentUse::ThisStateBit(true)];
    assert_eq!(preinvestigate_equiv(&const_node, false), EquivFate::Constify);
    assert!(equiv_is_used(&vec![ReferentUse::LoopDriver(false)]));
    assert!(equiv_is_used(&vec![ReferentUse::ThisRNode]));
    assert!(!equiv_is_used(&vec![]));
}

#[test]
fn merging_keeps_the_later_duplicate_and_the_order() {
    let x0 = LutInputRef { p_inp: PBack::new(100, 1), p_equiv: PBack::new(7, 1), constant: None };
    let x1 = LutInputRef { p_inp: PBack::new(101, 1), p_equiv: PBack::new(8, 1), constant: None };
    let x2 = LutInputRef { p_inp: PBack::new(102, 1), p_equiv: PBack::new(7, 1), constant: None };
    // in1 xor (in0 and in2)
    let mut lut = Vec::new();
    for t in 0..8usize {
        let (a, b, c) = (t & 1 == 1, (t >> 1) & 1 == 1, (t >> 2) & 1 == 1);
        lut.push(b ^ (a & c));
    }
    let (outcome, removed) = const_eval_lut(vec![x0, x1, x2], lut);
    assert_eq!(removed, vec![x0]);
    match outcome {
        LNodeOutcome::Lut(ps, t) => {
            assert_eq!(ps, vec![x1, x2]);
            assert_eq!(t, vec![false, true, true, false]);
        },
        _ => panic!(),
    }
}
