//! Order keys and rank statistics.

use ft8mon::order::{nth_key, signed_bits, signed_key, INF_KEY};

#[test]
fn infinity_has_its_key() {
    assert_eq!(INF_KEY, f32::INFINITY.to_bits());
}

#[test]
fn signed_keys_order_as_numbers_do() {
    let numbers = [f32::NEG_INFINITY, -3.5, -1.0e-9, 0.0, 1.0e-9, 2.0, f32::INFINITY];
    for w in numbers.windows(2) {
        assert!(signed_key(w[0].to_bits()) < signed_key(w[1].to_bits()));
    }
    for x in numbers {
        assert_eq!(f32::from_bits(signed_bits(signed_key(x.to_bits()))), x);
    }
}

#[test]
fn nth_element_of_the_sorted_order() {
    let keys = [9u32, 2, 2, 7, 0, u32::MAX, 2];
    let mut sorted = keys.to_vec();
    sorted.sort();
    for k in 0..keys.len() {
        assert_eq!(nth_key(&keys, k), sorted[k]);
    }
}
