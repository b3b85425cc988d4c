use starlight::meta::{count_ones, division, leading_zeros, mul_add, significant_bits, trailing_zeros, tsmear};

fn bits(v: u64, w: usize) -> Vec<bool> {
    (0..w).map(|i| (v >> i) & 1 == 1).collect()
}

fn value(b: &[bool]) -> u64 {
    b.iter().enumerate().map(|(i, x)| (*x as u64) << i).sum()
}

#[test]
fn count_ones_counts() {
    let r = count_ones(&bits(0b1011_0110, 8));
    assert_eq!(value(&r), 5);
    assert_eq!(r.len(), 4);
}

#[test]
fn smear_and_zero_counts() {
    let x = bits(0b0010_1000, 8);
    assert_eq!(tsmear(&x), bits(0b0011_1111, 8));
    assert_eq!(value(&leading_zeros(&x)), 2);
    assert_eq!(value(&trailing_zeros(&x)), 3);
    assert_eq!(value(&significant_bits(&x)), 6);
    let z = bits(0, 5);
    assert_eq!(value(&leading_zeros(&z)), 5);
    assert_eq!(value(&trailing_zeros(&z)), 5);
    assert_eq!(value(&significant_bits(&z)), 0);
}

#[test]
fn mul_add_wraps() {
    let add = bits(7, 8);
    let r = mul_add(8, Some(&add), &bits(23, 6), &bits(19, 5));
    assert_eq!(value(&r), (7 + 23 * 19) % 256);
    let r = mul_add(12, None, &bits(200, 8), &bits(3, 2));
    assert_eq!(value(&r), 600);
}

#[test]
fn division_quotient_and_remainder() {
    for (a, b) in [(200u64, 7u64), (255, 1), (3, 200), (128, 128), (0, 5), (77, 255)] {
        let (q, r) = division(&bits(a, 8), &bits(b, 8));
        assert_eq!(q.len(), 8);
        assert_eq!(r.len(), 8);
        assert_eq!(value(&q), a / b);
        assert_eq!(value(&r), a % b);
    }
}

#[test]
fn zero_counts_are_as_wide_as_a_count_of_ones() {
    for w in [1usize, 2, 5, 8, 9, 64] {
        let x = bits(0, w);
        let width = count_ones(&x).len();
        assert_eq!(width, (usize::BITS - w.leading_zeros()) as usize);
        assert_eq!(leading_zeros(&x).len(), width);
        assert_eq!(trailing_zeros(&x).len(), width);
        assert_eq!(significant_bits(&x).len(), width);
    }
}
