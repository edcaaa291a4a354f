use reduct_kernels::sorting::comparison::{
    choose_numeric_method, choose_specialized_method, insertion_sort, merge_sort,
    numeric_sort_f64, sort_by_method, specialized_sort_f64, SortMethod,
};
use reduct_kernels::sorting::counting::counting_sort_u8;
use reduct_kernels::sorting::keys::{key_bits, order_key};
use reduct_kernels::sorting::radix::radix_sort_u32;

fn keys_of(values: &[f64]) -> Vec<u64> {
    values.iter().map(|v| order_key(v.to_bits())).collect()
}

fn values_of(keys: &[u64]) -> Vec<f64> {
    keys.iter().map(|k| f64::from_bits(key_bits(*k))).collect()
}

fn scrambled(n: usize) -> Vec<u64> {
    let mut state: u64 = 0x2545_f491_4f6c_dd1d;
    let mut out = Vec::with_capacity(n);
    for _ in 0..n {
        state ^= state << 13;
        state ^= state >> 7;
        state ^= state << 17;
        out.push(state % 1000);
    }
    out
}

#[test]
fn specialized_sort_example() {
    let sorted = specialized_sort_f64(&keys_of(&[5.0, 3.0, 1.0, 4.0, 2.0]));
    assert_eq!(values_of(&sorted), vec![1.0, 2.0, 3.0, 4.0, 5.0]);
}

#[test]
fn specialized_sort_negative_and_fractional_values() {
    let sorted = specialized_sort_f64(&keys_of(&[0.5, -2.25, 1e300, -1e-300, 0.0, -7.0]));
    assert_eq!(values_of(&sorted), vec![-7.0, -2.25, -1e-300, 0.0, 0.5, 1e300]);
}

#[test]
fn order_key_round_trips_and_orders() {
    let values = [-f64::INFINITY, -1.5, -0.0, 0.0, 1e-310, 2.0, f64::INFINITY];
    for pair in values.windows(2) {
        assert!(order_key(pair[0].to_bits()) < order_key(pair[1].to_bits()));
    }
    for v in values {
        assert_eq!(key_bits(order_key(v.to_bits())), v.to_bits());
    }
    assert_eq!(order_key(0), 0x8000_0000_0000_0000);
    assert_eq!(order_key(0x8000_0000_0000_0000), 0x7fff_ffff_ffff_ffff);
}

#[test]
fn specialized_sort_at_the_thresholds() {
    for n in [0usize, 1, 2, 19, 20, 21, 999, 1000, 1001, 2500] {
        let input = scrambled(n);
        let mut expected = input.clone();
        expected.sort();
        assert_eq!(specialized_sort_f64(&input), expected);
    }
}

#[test]
fn numeric_sort_at_the_threshold() {
    for n in [0usize, 1, 2, 9999, 10000, 10001] {
        let input = scrambled(n);
        let mut expected = input.clone();
        expected.sort();
        assert_eq!(numeric_sort_f64(&input), expected);
    }
}

#[test]
fn insertion_sort_sorts_in_place() {
    let mut keys = vec![9, 3, 3, 7, 0, 1];
    insertion_sort(&mut keys);
    assert_eq!(keys, vec![0, 1, 3, 3, 7, 9]);
}

#[test]
fn merge_sort_sorts_in_place() {
    let mut keys = scrambled(1500);
    let mut expected = keys.clone();
    expected.sort();
    merge_sort(&mut keys);
    assert_eq!(keys, expected);
}

#[test]
fn radix_sort_orders_by_every_byte() {
    let input: Vec<u32> = vec![0x0100_0000, 0x0001_0000, 0x0000_0100, 0x0000_0001, 0xffff_ffff, 0];
    assert_eq!(
        radix_sort_u32(&input),
        vec![0, 0x0000_0001, 0x0000_0100, 0x0001_0000, 0x0100_0000, 0xffff_ffff]
    );
}

#[test]
fn radix_sort_keeps_every_key() {
    let input: Vec<u32> = scrambled(3000).iter().map(|k| (*k as u32).wrapping_mul(2654435761)).collect();
    let mut expected = input.clone();
    expected.sort();
    assert_eq!(radix_sort_u32(&input), expected);
    assert_eq!(radix_sort_u32(&vec![7]), vec![7]);
    assert_eq!(radix_sort_u32(&Vec::new()), Vec::<u32>::new());
}

#[test]
fn counting_sort_sorts_bytes() {
    assert_eq!(counting_sort_u8(&vec![3, 255, 0, 3, 1, 0]), vec![0, 0, 1, 3, 3, 255]);
    assert_eq!(counting_sort_u8(&Vec::new()), Vec::<u8>::new());
    let input: Vec<u8> = scrambled(2000).iter().map(|k| (*k % 256) as u8).collect();
    let mut expected = input.clone();
    expected.sort();
    assert_eq!(counting_sort_u8(&input), expected);
}

#[test]
fn method_changes_at_the_thresholds() {
    assert_eq!(choose_specialized_method(0), SortMethod::AsIs);
    assert_eq!(choose_specialized_method(1), SortMethod::AsIs);
    assert_eq!(choose_specialized_method(2), SortMethod::Insertion);
    assert_eq!(choose_specialized_method(19), SortMethod::Insertion);
    assert_eq!(choose_specialized_method(20), SortMethod::Stable);
    assert_eq!(choose_specialized_method(999), SortMethod::Stable);
    assert_eq!(choose_specialized_method(1000), SortMethod::Merge);
    assert_eq!(choose_numeric_method(1), SortMethod::AsIs);
    assert_eq!(choose_numeric_method(9999), SortMethod::Stable);
    assert_eq!(choose_numeric_method(10000), SortMethod::Unstable);
}

#[test]
fn every_method_sorts() {
    for method in [
        SortMethod::AsIs,
        SortMethod::Insertion,
        SortMethod::Stable,
        SortMethod::Unstable,
        SortMethod::Merge,
    ] {
        let mut keys = scrambled(300);
        let mut expected = keys.clone();
        expected.sort();
        sort_by_method(&mut keys, method);
        assert_eq!(keys, expected);
    }
}
