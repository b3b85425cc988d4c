use starlight::lnode::LNode;
use starlight::lut::{
    basis_rotate64, general_reduce_independent_lut, general_reduce_lut, general_rotate_lut,
    reduce64, reduce_independent64, rotate64,
};

fn table(n_inputs: usize, f: impl Fn(usize) -> bool) -> Vec<bool> {
    (0..(1usize << n_inputs)).map(f).collect()
}

#[test]
fn reduce_an_and_gate() {
    // entry 3 of a two input table is the AND of both inputs
    assert_eq!(reduce64(0b1000, 0, true), 0b10);
    assert_eq!(reduce64(0b1000, 0, false), 0);
    assert_eq!(reduce64(0b1000, 1, true), 0b10);
}

#[test]
fn reduce_independent_inputs() {
    // this table copies input 1, so input 0 can go
    assert_eq!(reduce_independent64(0b1100, 0), Some(0b10));
    assert_eq!(reduce_independent64(0b1100, 1), None);
    assert_eq!(reduce_independent64(0b1000, 0), None);
}

#[test]
fn rotate_inputs() {
    assert_eq!(rotate64(0b0100, 0, 1), 0b0010);
    assert_eq!(rotate64(0b0100, 1, 0), 0b0010);
    assert_eq!(rotate64(0xdead_beef, 3, 3), 0xdead_beef);
    assert_eq!(basis_rotate64(0b0100, 1), 0b0010);
    // input 0 and input 2 exchanged moves entry 1 to entry 4
    assert_eq!(rotate64(0b0000_0010, 0, 2), 0b0001_0000);
}

#[test]
fn general_reduce_on_a_large_table() {
    // seven inputs, the output is input 6
    let lut = table(7, |k| (k >> 6) & 1 == 1);
    assert_eq!(general_reduce_lut(&lut, 6, true), vec![true; 64]);
    assert_eq!(general_reduce_lut(&lut, 6, false), vec![false; 64]);
    let r = general_reduce_lut(&lut, 0, true);
    assert_eq!(r, table(6, |m| (m >> 5) & 1 == 1));
}

#[test]
fn general_reduce_independent_on_a_large_table() {
    // seven inputs, the output is input 3
    let lut = table(7, |k| (k >> 3) & 1 == 1);
    let mut a = lut.clone();
    assert!(general_reduce_independent_lut(&mut a, 0));
    assert_eq!(a, table(6, |m| (m >> 2) & 1 == 1));
    let mut b = lut.clone();
    assert!(!general_reduce_independent_lut(&mut b, 3));
    assert_eq!(b, lut);
}

#[test]
fn lnode_reductions_agree_on_both_paths() {
    for n in [3usize, 6, 7] {
        let lut = table(n, |k| (k * 37 + 11) % 5 < 2);
        for i in 0..n {
            for bit in [false, true] {
                let mut a = lut.clone();
                LNode::reduce_lut(&mut a, i, bit);
                assert_eq!(a, general_reduce_lut(&lut, i, bit));
            }
            let mut a = lut.clone();
            let mut b = lut.clone();
            assert_eq!(LNode::reduce_independent_lut(&mut a, i), general_reduce_independent_lut(&mut b, i));
            assert_eq!(a, b);
        }
    }
}

#[test]
fn rotation_of_a_table() {
    // three inputs, output is input 0 and not input 2
    let lut = table(3, |k| k & 1 == 1 && (k >> 2) & 1 == 0);
    let mut a = lut.clone();
    general_rotate_lut(&mut a, 0, 2);
    assert_eq!(a, table(3, |k| (k >> 2) & 1 == 1 && k & 1 == 0));
    let mut b = lut.clone();
    LNode::rotate_lut(&mut b, 2, 0);
    assert_eq!(b, a);
    let mut c = a.clone();
    general_rotate_lut(&mut c, 2, 0);
    assert_eq!(c, lut);
}

fn eval(lut: &[bool], inputs: &[bool]) -> bool {
    let k: usize = inputs.iter().enumerate().map(|(i, b)| (*b as usize) << i).sum();
    lut[k]
}

#[test]
fn reduced_tables_evaluate_like_the_full_table() {
    let lut = table(4, |k| (k * 7 + 3) % 5 < 2);
    for i in 0..4 {
        for bit in [false, true] {
            let r = general_reduce_lut(&lut, i, bit);
            for k in 0..8usize {
                let rest: Vec<bool> = (0..3).map(|m| (k >> m) & 1 == 1).collect();
                let mut full = rest.clone();
                full.insert(i, bit);
                assert_eq!(eval(&r, &rest), eval(&lut, &full));
            }
        }
    }
}

#[test]
fn rotating_twice_restores() {
    let lut = table(5, |k| (k * 13 + 5) % 7 < 3);
    for (i, j) in [(0, 4), (1, 3), (2, 2), (4, 1)] {
        let mut a = lut.clone();
        general_rotate_lut(&mut a, i, j);
        general_rotate_lut(&mut a, i, j);
        assert_eq!(a, lut);
    }
}

#[test]
fn rotating_words_is_symmetric_and_undone() {
    assert_eq!(rotate64(0b0010, 0, 1), 0b0100);
    let x = 0x0123_4567_89ab_cdefu64;
    for i in 0..6 {
        for j in 0..6 {
            assert_eq!(rotate64(x, i, j), rotate64(x, j, i));
            assert_eq!(rotate64(rotate64(x, i, j), i, j), x);
        }
    }
}

#[test]
fn reducing_words_reads_the_inserted_index() {
    let lut = 0x0123_4567_89ab_cdefu64;
    for i in 0..6u64 {
        for bit in [false, true] {
            let r = reduce64(lut, i as usize, bit);
            assert!(r < 1 << 32);
            for k in 0..32u64 {
                let t = (k & ((1 << i) - 1)) | ((bit as u64) << i) | ((k >> i) << (i + 1));
                assert_eq!((r >> k) & 1, (lut >> t) & 1);
            }
        }
    }
}
