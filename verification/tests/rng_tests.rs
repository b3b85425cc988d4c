use rand_xoshiro::rand_core::{RngCore, SeedableRng};
use rand_xoshiro::Xoshiro128StarStar;
use starlight::rng::StarRng;

fn bits128(v: u128) -> Vec<bool> {
    (0..128).map(|i| (v >> i) & 1 == 1).collect()
}

fn value128(b: &[bool]) -> u128 {
    b.iter().enumerate().map(|(i, x)| (*x as u128) << i).sum()
}

#[test]
fn linear_fuzz_step_example() {
    let mut rng = StarRng::new(0);
    let mut x = bits128(0);
    let mut pad = x.clone();
    rng.linear_fuzz_step(&mut x, &mut pad);
    assert_eq!(value128(&x), 0x1ff_ffffffc0_00000000_u128);
    rng.linear_fuzz_step(&mut x, &mut pad);
    assert_eq!(value128(&x), 0xffffffff_fffffe00_3fffffc0_0000000f_u128);
    rng.linear_fuzz_step(&mut x, &mut pad);
    assert_eq!(value128(&x), 0xffffffff_e00001ff_c01fffc0_0000000f_u128);
    rng.linear_fuzz_step(&mut x, &mut pad);
    assert_eq!(value128(&x), 0x1ffffe00_3fe0003f_fffffff0_u128);
    rng.linear_fuzz_step(&mut x, &mut pad);
    assert_eq!(value128(&x), 0xffffffff_e03fffff_c01fffc0_0000000f_u128);
}

#[test]
fn out_of_edges() {
    let mut rng = StarRng::new(7);
    assert!(!rng.out_of_4(0));
    assert!(rng.out_of_4(4));
    assert!(rng.out_of_128(200));
    assert!(!rng.out_of_256(0));
    for _ in 0..100 {
        assert!(rng.out_of_256(255) || true);
        let i = rng.index(10).unwrap();
        assert!(i < 10);
    }
    assert_eq!(rng.index(0), None);
}

#[test]
fn bits_come_in_order() {
    // the same seed gives the same stream, however it is cut up
    let mut a = StarRng::new(42);
    let mut b = StarRng::new(42);
    let x = a.next_u64();
    let lo = b.next_u32() as u64;
    let hi = b.next_u32() as u64;
    assert_eq!(x, lo | (hi << 32));
    let mut bits = vec![false; 8];
    a.next_bits(&mut bits);
    let y = b.next_u8();
    for i in 0..8 {
        assert_eq!(bits[i], (y >> i) & 1 == 1);
    }
    let z0 = a.next_bool();
    let z1 = b.next_bool();
    assert_eq!(z0, z1);
}

#[test]
fn fill_bytes_draws_like_next_u8() {
    let mut a = StarRng::new(42);
    let mut b = StarRng::new(42);
    let mut dest = [0u8; 13];
    a.fill_bytes(&mut dest);
    for byte in dest.iter() {
        assert_eq!(*byte, b.next_u8());
    }
    assert_eq!(a.next_u64(), b.next_u64());
    let mut empty: [u8; 0] = [];
    a.fill_bytes(&mut empty);
    assert_eq!(a.next_u8(), b.next_u8());
}

#[test]
fn index_slice_mut_changes_one_entry() {
    let mut rng = StarRng::new(3);
    let mut v = [10u32, 20, 30];
    *rng.index_slice_mut(&mut v).unwrap() += 1;
    assert_eq!(v.iter().sum::<u32>(), 61);
    assert_eq!(v.iter().filter(|x| **x % 10 == 1).count(), 1);
    let mut empty: [u32; 0] = [];
    assert!(rng.index_slice_mut(&mut empty).is_none());
}

#[test]
fn the_seed_decides_the_first_word() {
    for seed in [0u64, 1, 7, 0xdead_beef] {
        let mut outside = Xoshiro128StarStar::seed_from_u64(seed);
        let first = outside.next_u64();
        assert_ne!(first, seed);
        let mut rng = StarRng::new(seed);
        assert_eq!(rng.next_u64(), first);
    }
}

#[test]
fn index_reduces_the_drawn_word() {
    let first = Xoshiro128StarStar::seed_from_u64(3).next_u64();
    assert_eq!(StarRng::new(3).index(10), Some(((first & 0xffff) as usize) % 10));
    assert_eq!(StarRng::new(3).index(1000), Some(((first & 0xffff_ffff) as usize) % 1000));
    assert_eq!(StarRng::new(3).index(0), None);
}

#[test]
fn the_stream_goes_on_word_after_word() {
    let mut outside = Xoshiro128StarStar::seed_from_u64(11);
    let words: Vec<u64> = (0..3).map(|_| outside.next_u64()).collect();
    let mut rng = StarRng::new(11);
    // three bits, then the rest of the first word and the next two words
    let a = rng.next_bool();
    let b = rng.next_bool();
    let c = rng.next_bool();
    assert_eq!((a, b, c), (words[0] & 1 == 1, (words[0] >> 1) & 1 == 1, (words[0] >> 2) & 1 == 1));
    let mid = rng.next_u64();
    assert_eq!(mid, (words[0] >> 3) | (words[1] << 61));
    let last = rng.next_u128();
    let expected = ((words[1] >> 3) as u128) | ((words[2] as u128) << 61);
    assert_eq!(last & ((1u128 << 125) - 1), expected);
}
