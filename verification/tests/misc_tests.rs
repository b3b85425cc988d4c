use starlight::optimize::Optimization;
use starlight::ptr::{PBack, PCNode, PConfig, PLNode, PTNode};
use starlight::route::cedge::{ArbitraryLut, ConfigBit, SelectorLut, Sink};
use starlight::route::path::{Edge, EdgeKind, HyperPath, Path};
use starlight::small_map::SmallMap;
use starlight::tnode::{Delay, Delayer, Evaluator};
use starlight::value::{BasicValue, BasicValueKind, ChangeKind, CommonValue, Event, Value};

#[test]
fn delays_add_without_overflow() {
    let a = Delay::from_amount(5);
    assert_eq!(a.checked_add(Delay::from_amount(7)).map(|d| d.amount()), Some(12));
    assert!(Delay::from_amount(u128::MAX).checked_add(Delay::from_amount(1)).is_none());
    assert!(Delay::zero().is_zero());
    assert!(!a.is_zero());
    assert_eq!(Delay::from(9u128).amount(), 9);
    assert!(Delay::from_amount(3) < Delay::from_amount(5));
}

#[test]
fn delayer_gives_events_earliest_first() {
    let mut d = Delayer::new();
    assert!(d.are_delayed_events_empty());
    assert_eq!(d.peek_next_event_time(), None);
    d.insert_delayed_tnode_event(PTNode::new(1, 0), Delay::from_amount(10));
    d.insert_delayed_tnode_event(PTNode::new(2, 0), Delay::from_amount(3));
    d.insert_delayed_tnode_event(PTNode::new(3, 0), Delay::from_amount(10));
    assert!(!d.are_delayed_events_empty());
    assert_eq!(d.peek_next_event_time(), Some(Delay::from_amount(3)));
    let (t, ev) = d.pop_next_simultaneous_events().unwrap();
    assert_eq!(t, Delay::from_amount(3));
    assert_eq!(ev.tnode_drives, vec![PTNode::new(2, 0)]);
    let (t, ev) = d.pop_next_simultaneous_events().unwrap();
    assert_eq!(t, Delay::from_amount(10));
    assert_eq!(ev.tnode_drives, vec![PTNode::new(1, 0), PTNode::new(3, 0)]);
    assert!(d.pop_next_simultaneous_events().is_none());
    d.compress();
    assert!(d.are_delayed_events_empty());
}

#[test]
fn delays_count_from_the_current_time() {
    let mut d = Delayer::new();
    d.current_time = Delay::from_amount(100);
    d.insert_delayed_tnode_event(PTNode::new(4, 1), Delay::from_amount(5));
    assert_eq!(d.peek_next_event_time(), Some(Delay::from_amount(105)));
}

#[test]
fn evaluator_takes_least_events_first() {
    let mut e = Evaluator::new();
    assert!(e.are_events_empty());
    assert!(e.check_clear().is_ok());
    e.push_event(Event { partial_ord_num: 7, change_kind: ChangeKind::LNode(PLNode::new(0, 0)) });
    e.push_event(Event { partial_ord_num: 2, change_kind: ChangeKind::TNode(PTNode::new(1, 0)) });
    e.push_event(Event { partial_ord_num: 5, change_kind: ChangeKind::LNode(PLNode::new(2, 0)) });
    assert!(e.check_clear().is_err());
    assert_eq!(e.pop_event().unwrap().partial_ord_num, 2);
    assert_eq!(e.pop_event().unwrap().partial_ord_num, 5);
    assert_eq!(e.pop_event().unwrap().partial_ord_num, 7);
    assert!(e.pop_event().is_none());
}

#[test]
fn values() {
    assert_eq!(Value::Const(true).known_value(), Some(true));
    assert_eq!(Value::Dynam(false).known_value(), Some(false));
    assert_eq!(Value::Unknown.known_value(), None);
    assert!(Value::ConstUnknown.is_const());
    assert!(!Value::ConstUnknown.is_known());
    assert!(!Value::Dynam(true).is_const());
    assert_eq!(Value::Dynam(true).constified(), Value::Const(true));
    assert_eq!(Value::Unknown.constified(), Value::ConstUnknown);
    let imax = BasicValue { kind: BasicValueKind::Imax, nzbw: 4 };
    assert_eq!(imax.get(3), Some(Some(false)));
    assert_eq!(imax.get(0), Some(Some(true)));
    assert_eq!(imax.get(4), None);
    let opaque = BasicValue { kind: BasicValueKind::Opaque, nzbw: 2 };
    assert_eq!(opaque.get(1), Some(None));
    let bits = vec![true, false];
    assert_eq!(CommonValue::Bits(&bits).get(1), Some(Some(false)));
    assert_eq!(CommonValue::Bits(&bits).bw(), 2);
    assert_eq!(CommonValue::Basic(imax).nzbw(), 4);
}

#[test]
fn small_map_keeps_one_entry_per_key() {
    let mut m: SmallMap<u64, char> = SmallMap::new();
    assert_eq!(m.insert(1, 'a'), Ok(()));
    assert_eq!(m.insert(2, 'b'), Ok(()));
    assert_eq!(m.insert(1, 'c'), Err('a'));
    assert_eq!(m.insert(1, 'd'), Err('c'));
    assert_eq!(m.insert(2, 'e'), Err('b'));
}

#[test]
fn configurations_check_their_sizes() {
    let bit = |i| ConfigBit::new(PConfig::new(i, 0), 0);
    let sel = SelectorLut::new(vec![bit(0), bit(1)]);
    assert!(sel.verify_integrity(4).is_ok());
    assert!(sel.verify_integrity(3).is_err());
    assert_eq!(sel.inx_config().len(), 2);
    let arb = ArbitraryLut::new((0..8).map(bit).collect());
    assert!(arb.verify_integrity(3).is_ok());
    assert!(arb.verify_integrity(2).is_err());
    assert!(Sink::new(PCNode::new(0, 0), 0).is_none());
    assert_eq!(Sink::new(PCNode::new(0, 0), 3).unwrap().delay_weight, 3);
}

#[test]
fn paths_end_at_their_last_edge() {
    let mut p = Path::new(Some(PBack::new(1, 0)), vec![]);
    assert_eq!(p.target_sink(), None);
    p.push(Edge::new(EdgeKind::Concentrate, PCNode::new(5, 0)));
    p.push(Edge::new(EdgeKind::Dilute, PCNode::new(6, 0)));
    assert_eq!(p.target_sink(), Some(PCNode::new(6, 0)));
    assert_eq!(p.edges().len(), 2);
    let mut h = HyperPath::new(None, PCNode::new(5, 0), vec![]);
    h.push(p.clone());
    assert_eq!(h.paths().len(), 1);
    h.paths_mut()[0].push(Edge::new(EdgeKind::Concentrate, PCNode::new(9, 0)));
    assert_eq!(h.paths()[0].target_sink(), Some(PCNode::new(9, 0)));
}

#[test]
fn optimizations_compare_by_kind_first() {
    assert!(Optimization::Preinvestigate(PBack::new(9, 9)) < Optimization::RemoveEquiv(PBack::new(0, 0)));
}

#[test]
fn events_compare_by_number_alone() {
    let a = Event { partial_ord_num: 7, change_kind: ChangeKind::LNode(PLNode::new(0, 0)) };
    let b = Event { partial_ord_num: 7, change_kind: ChangeKind::TNode(PTNode::new(3, 1)) };
    let c = Event { partial_ord_num: 9, change_kind: ChangeKind::LNode(PLNode::new(0, 0)) };
    assert!(a == b);
    assert!(a != c);
    assert!(a < c);
    assert!(c > b);
    assert_eq!(a.partial_cmp(&b), Some(std::cmp::Ordering::Equal));
}

#[test]
fn delays_are_ordered_by_amount() {
    assert!(Delay::from(3) < Delay::from(5));
    assert!(Delay::from_amount(5) > Delay::from(3));
    assert!(Delay::zero() <= Delay::from(0));
    assert_eq!(Delay::from(4).partial_cmp(&Delay::from(4)), Some(std::cmp::Ordering::Equal));
}
