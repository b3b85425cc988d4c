use starlight::lower_state::{static_rewrite, Rewrite, StateOp};

fn bits(v: u64, w: usize) -> Vec<bool> {
    (0..w).map(|i| (v >> i) & 1 == 1).collect()
}

#[test]
fn literal_tables_become_static() {
    let t = bits(0b0110, 4);
    assert_eq!(static_rewrite(&StateOp::Lut { out_w: 1, inx_w: 2, table: Some(t.clone()) }), Rewrite::StaticLut(t.clone()));
    assert_eq!(static_rewrite(&StateOp::Lut { out_w: 2, inx_w: 2, table: Some(t.clone()) }), Rewrite::Opaque);
    assert_eq!(static_rewrite(&StateOp::Lut { out_w: 1, inx_w: 200, table: Some(t) }), Rewrite::Opaque);
    assert_eq!(static_rewrite(&StateOp::Lut { out_w: 1, inx_w: 2, table: None }), Rewrite::Keep);
}

#[test]
fn literal_gets_become_fields() {
    assert_eq!(static_rewrite(&StateOp::Get { bits_w: 8, inx: Some(bits(5, 64)) }), Rewrite::ConcatFields(vec![(0, 5, 1)]));
    assert_eq!(static_rewrite(&StateOp::Get { bits_w: 8, inx: Some(bits(8, 64)) }), Rewrite::Opaque);
    assert_eq!(static_rewrite(&StateOp::Get { bits_w: 8, inx: None }), Rewrite::NeedsLower);
}

#[test]
fn literal_sets_become_fields() {
    let set = |w: usize, i: u64| static_rewrite(&StateOp::SetBit { bits_w: w, inx: Some(bits(i, 64)) });
    assert_eq!(set(8, 3), Rewrite::ConcatFields(vec![(0, 0, 3), (2, 0, 1), (0, 4, 4)]));
    assert_eq!(set(8, 7), Rewrite::ConcatFields(vec![(0, 0, 7), (2, 0, 1)]));
    assert_eq!(set(8, 0), Rewrite::ConcatFields(vec![(2, 0, 1), (0, 1, 7)]));
    assert_eq!(set(1, 0), Rewrite::Copy(2));
    assert_eq!(set(8, 9), Rewrite::Copy(0));
    assert_eq!(static_rewrite(&StateOp::SetBit { bits_w: 8, inx: None }), Rewrite::NeedsLower);
}

#[test]
fn other_operations() {
    assert_eq!(static_rewrite(&StateOp::Elementary), Rewrite::Keep);
    assert_eq!(static_rewrite(&StateOp::Other), Rewrite::NeedsLower);
}
