use starlight::perm::Perm;
use starlight::rng::StarRng;

fn table(p: &Perm) -> Vec<usize> {
    (0..p.l()).map(|i| p.get(i).unwrap()).collect()
}

#[test]
fn ident_and_bounds() {
    let p = Perm::ident(3).unwrap();
    assert_eq!(p.n(), 3);
    assert_eq!(p.l(), 8);
    assert_eq!(table(&p), vec![0, 1, 2, 3, 4, 5, 6, 7]);
    assert_eq!(p.get(8), None);
    assert!(Perm::ident(usize::BITS as usize).is_none());
}

#[test]
fn swaps_and_inverse() {
    let mut p = Perm::ident(2).unwrap();
    p.swap(0, 3).unwrap();
    p.swap(1, 3).unwrap();
    assert_eq!(table(&p), vec![3, 0, 2, 1]);
    assert_eq!(p.swap(0, 4), None);
    assert_eq!(p.swap(5, 5), Some(()));
    let q = p.inv();
    assert_eq!(table(&q), vec![1, 3, 2, 0]);
    let id = p.mul(&q).unwrap();
    assert_eq!(table(&id), vec![0, 1, 2, 3]);
    let id = q.mul(&p).unwrap();
    assert_eq!(table(&id), vec![0, 1, 2, 3]);
    // swapping the entries of value 0 and 2 is swapping their columns
    p.t_swap(0, 2).unwrap();
    assert_eq!(table(&p), vec![3, 2, 0, 1]);
    assert_eq!(p.t_swap(0, 9), None);
}

#[test]
fn unstable_set_masks() {
    let mut p = Perm::ident(2).unwrap();
    p.unstable_set(1, 6).unwrap();
    assert_eq!(p.get(1), Some(2));
    assert_eq!(p.unstable_set(4, 0), None);
}

#[test]
fn double_then_halve() {
    let mut rng = StarRng::new(3);
    let mut p = Perm::ident(3).unwrap();
    p.rand_assign_with(&mut rng);
    let mut seen = table(&p);
    seen.sort();
    assert_eq!(seen, vec![0, 1, 2, 3, 4, 5, 6, 7]);
    for i in 0..=3 {
        let d = p.double(i).unwrap();
        assert_eq!(d.n(), 4);
        for j in 0..16 {
            let e = d.get(j).unwrap();
            // the new output bit copies the new input bit
            assert_eq!((e >> i) & 1, (j >> i) & 1);
        }
        for b in [false, true] {
            let h = d.halve(i, b).unwrap();
            assert_eq!(table(&h), table(&p));
        }
    }
    assert!(p.double(4).is_none());
    assert!(p.halve(3, false).is_none());
}

#[test]
fn lut_and_raw() {
    let mut p = Perm::ident(2).unwrap();
    p.swap(0, 1).unwrap();
    let mut out = vec![false, false];
    Perm::lut(&mut out, &p, &vec![false, false]).unwrap();
    assert_eq!(out, vec![true, false]);
    assert_eq!(Perm::lut(&mut out, &p, &vec![false]), None);
    // entries 1, 0, 2, 3 in two bits each
    let raw = vec![true, false, false, false, false, true, true, true];
    let q = Perm::from_raw(2, &raw);
    assert_eq!(table(&q), vec![1, 0, 2, 3]);
}

#[test]
fn text_forms() {
    let mut p = Perm::ident(1).unwrap();
    p.swap(0, 1).unwrap();
    assert_eq!(p.to_string_table(), "\n0|1\n1|0\n");
    assert_eq!(p.to_mat_string(), " 01\n0\u{00B7}1\n11\u{00B7}\n");
}

#[test]
fn swapping_twice_restores() {
    let mut p = Perm::ident(3).unwrap();
    p.swap(1, 6).unwrap();
    p.swap(2, 5).unwrap();
    let before = table(&p);
    p.swap(0, 7).unwrap();
    assert_ne!(table(&p), before);
    p.swap(0, 7).unwrap();
    assert_eq!(table(&p), before);
}

#[test]
fn shuffle_with_swaps_in_order() {
    let mut p = Perm::ident(2).unwrap();
    assert_eq!(p.shuffle_with(&vec![2, 2, 2]), None);
    assert_eq!(table(&p), vec![0, 1, 2, 3]);
    // entry k swaps with entry words[k] % 4
    assert_eq!(p.shuffle_with(&vec![2, 6, 2, 10]), Some(()));
    assert_eq!(table(&p), vec![2, 0, 3, 1]);
}

#[test]
fn random_permutations_shuffle_the_identity_with_drawn_words() {
    let mut p = Perm::ident(3).unwrap();
    let mut rng = StarRng::new(7);
    p.rand_assign_with(&mut rng);
    let mut same = StarRng::new(7);
    let words: Vec<u64> = (0..8).map(|_| same.next_u64()).collect();
    let mut q = Perm::ident(3).unwrap();
    q.shuffle_with(&words).unwrap();
    assert_eq!(table(&p), table(&q));
    assert_eq!(rng.next_u64(), same.next_u64());
}

#[test]
fn inverse_of_a_table_that_is_not_a_permutation() {
    // entries 0, 0, 1, 1: each entry k is written with the last index that
    // maps to it, and the others keep the table's own entries
    let raw = vec![false, false, false, false, true, false, true, false];
    let p = Perm::from_raw(2, &raw);
    assert_eq!(table(&p), vec![0, 0, 1, 1]);
    assert_eq!(table(&p.inv()), vec![1, 3, 1, 1]);
    assert!(p.is_wf());
}
