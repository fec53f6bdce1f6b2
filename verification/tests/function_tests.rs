use scialg::fourier::{bit_reverse_order, bit_reversed};
use scialg::function::{binomial, factorial};

#[test]
fn bit_reversed_examples() {
    assert_eq!(bit_reversed(0b100, 3), 0b001);
    assert_eq!(bit_reversed(0b110, 3), 0b011);
    assert_eq!(bit_reversed(0b11000101, 8), 0b10100011);
    assert_eq!(bit_reversed(0b1, 8), 0b10000000);
}

#[test]
fn bit_reversed_of_no_bits() {
    assert_eq!(bit_reversed(0b1111_1111, 0), 0);
}

#[test]
fn bit_reversed_drops_bits_above_the_size() {
    assert_eq!(bit_reversed(0b1111_0001, 4), 0b1000);
}

#[test]
fn bit_reversed_beyond_eight_bits_shifts_out() {
    assert_eq!(bit_reversed(0b0000_0001, 9), 0);
    assert_eq!(bit_reversed(0b1000_0000, 9), 0b10);
    assert_eq!(bit_reversed(0b1111_1111, 16), 0);
}

#[test]
fn bit_reversed_twice_is_identity() {
    for a in 0..=255u8 {
        assert_eq!(bit_reversed(bit_reversed(a, 8), 8), a);
    }
}

#[test]
fn factorial_examples() {
    assert_eq!(factorial(0), 1);
    assert_eq!(factorial(1), 1);
    assert_eq!(factorial(2), 2);
    assert_eq!(factorial(3), 6);
    assert_eq!(factorial(4), 24);
    assert_eq!(factorial(5), 120);
    assert_eq!(factorial(6), 720);
}

#[test]
fn factorial_of_twenty() {
    assert_eq!(factorial(20), 2432902008176640000);
}

#[test]
fn binomial_examples() {
    assert_eq!(binomial(0, 0), 1);
    assert_eq!(binomial(0, 1), 0);
    assert_eq!(binomial(1, 0), 1);
    assert_eq!(binomial(12, 6), 924);
    assert_eq!(binomial(3, 5), 0);
    assert_eq!(binomial(5, 3), 10);
}

#[test]
fn binomial_follows_pascal() {
    for n in 1..=20i64 {
        for k in 1..=n {
            assert_eq!(binomial(n, k), binomial(n - 1, k - 1) + binomial(n - 1, k));
        }
    }
}

#[test]
fn binomial_at_the_limit() {
    assert_eq!(binomial(20, 10), 184756);
    assert_eq!(binomial(20, 20), 1);
}

#[test]
fn binomial_above_is_zero_for_any_n() {
    assert_eq!(binomial(-5, -1), 0);
    assert_eq!(binomial(100, 101), 0);
}

#[test]
fn bit_reverse_order_of_eight() {
    let mut input = vec![0, 1, 2, 3, 4, 5, 6, 7];
    bit_reverse_order(&mut input, 3);
    assert_eq!(input, vec![0, 4, 2, 6, 1, 5, 3, 7]);
}

#[test]
fn bit_reverse_order_of_one_and_two() {
    let mut one = vec!['a'];
    bit_reverse_order(&mut one, 0);
    assert_eq!(one, vec!['a']);
    let mut two = vec!['a', 'b'];
    bit_reverse_order(&mut two, 1);
    assert_eq!(two, vec!['a', 'b']);
}

#[test]
fn bit_reverse_order_of_all_bytes() {
    let mut input: Vec<usize> = (0..256).collect();
    bit_reverse_order(&mut input, 8);
    for j in 0..256usize {
        assert_eq!(input[j], bit_reversed(j as u8, 8) as usize);
    }
}

#[test]
fn bit_reverse_order_twice_restores() {
    let mut input: Vec<f64> = (0..64).map(|i| i as f64 * 0.5).collect();
    let expected = input.clone();
    bit_reverse_order(&mut input, 6);
    assert_eq!(input[1], 16.0);
    bit_reverse_order(&mut input, 6);
    assert_eq!(input, expected);
}
