use starlight::ptr::{PBack, PLNode};
use starlight::render::{debug_web, RenderNodeKind};

#[test]
fn the_web_between_two_fixed_equivalences() {
    let p0 = RenderNodeKind::Equiv(PBack::new(0, 1));
    let p1 = RenderNodeKind::Equiv(PBack::new(1, 1));
    let l0 = RenderNodeKind::LNode(PLNode::new(0, 1));
    let web = vec![(p0, vec![l0]), (p1, vec![l0]), (l0, vec![p0, p1])];
    let r = debug_web(&web, &vec![(p0, (0, 0)), (p1, (10, -7))]);
    assert_eq!(r.len(), 3);
    assert_eq!(r[0].0, p0);
    assert_eq!((r[0].1.position, r[0].1.fixed), ((0, 0), true));
    assert_eq!(r[0].1.incidents, vec![l0]);
    assert_eq!(r[1].0, p1);
    assert_eq!((r[1].1.position, r[1].1.fixed), ((10, -7), true));
    assert_eq!(r[1].1.incidents, vec![l0]);
    // the table node sits at the mean of its two neighbors, rounded toward zero
    assert_eq!(r[2].0, l0);
    assert_eq!((r[2].1.position, r[2].1.fixed), ((5, -3), false));
    assert_eq!(r[2].1.incidents, vec![p0, p1]);
}

#[test]
fn nodes_out_of_reach_are_left_out() {
    let p0 = RenderNodeKind::Equiv(PBack::new(0, 1));
    let p1 = RenderNodeKind::Equiv(PBack::new(1, 1));
    let l0 = RenderNodeKind::LNode(PLNode::new(0, 1));
    let l1 = RenderNodeKind::LNode(PLNode::new(1, 1));
    let web = vec![(p0, vec![l0]), (l0, vec![p0]), (p1, vec![l1]), (l1, vec![p1])];
    let r = debug_web(&web, &vec![(p0, (3, 4))]);
    let kinds: Vec<RenderNodeKind> = r.iter().map(|e| e.0).collect();
    assert_eq!(kinds, vec![p0, l0]);
    assert_eq!(r[1].1.position, (3, 4));
    assert!(debug_web(&web, &vec![]).is_empty());
}

#[test]
fn nodes_are_met_breadth_first() {
    let p0 = RenderNodeKind::Equiv(PBack::new(0, 1));
    let a = RenderNodeKind::LNode(PLNode::new(0, 1));
    let b = RenderNodeKind::LNode(PLNode::new(1, 1));
    let c = RenderNodeKind::Equiv(PBack::new(2, 1));
    let d = RenderNodeKind::Equiv(PBack::new(3, 1));
    // c is reachable through a and through b; it is met from a, the first
    let web = vec![(p0, vec![a, b]), (a, vec![c]), (b, vec![d, c]), (c, vec![]), (d, vec![])];
    let r = debug_web(&web, &vec![(p0, (0, 0))]);
    let kinds: Vec<RenderNodeKind> = r.iter().map(|e| e.0).collect();
    assert_eq!(kinds, vec![p0, a, b, c, d]);
    assert_eq!(r[3].1.incidents, vec![a, b]);
}
