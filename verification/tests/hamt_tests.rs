use reduct_kernels::error::KernelError;
use reduct_kernels::hamt::{
    hamt_append, hamt_append_multiple, hamt_clear_bit, hamt_concat, hamt_find_path,
    hamt_get_index, hamt_insert, hamt_prepend, hamt_prepend_multiple, hamt_remove, hamt_set_bit,
};

#[test]
fn find_path_example() {
    assert_eq!(hamt_find_path(40, 1, 64), vec![1, 8]);
}

#[test]
fn find_path_has_a_digit_for_each_level() {
    assert_eq!(hamt_find_path(0, 0, 0), vec![0]);
    assert_eq!(hamt_find_path(31, 0, 32), vec![31]);
    assert_eq!(hamt_find_path(32 * 32 * 3 + 32 * 7 + 9, 2, 0), vec![3, 7, 9]);
    assert_eq!(hamt_find_path(5, 3, 0), vec![0, 0, 0, 5]);
    let deep = hamt_find_path(usize::MAX, 14, 0);
    assert_eq!(deep.len(), 15);
    assert_eq!(deep[0], 0);
    assert_eq!(deep[14], 31);
}

#[test]
fn get_index_counts_the_bits_below() {
    assert_eq!(hamt_get_index(0b1011, 0), 0);
    assert_eq!(hamt_get_index(0b1011, 1), 1);
    assert_eq!(hamt_get_index(0b1011, 2), 2);
    assert_eq!(hamt_get_index(0b1011, 3), 2);
    assert_eq!(hamt_get_index(0b1011, 4), 3);
    assert_eq!(hamt_get_index(u32::MAX, 31), 31);
}

#[test]
fn set_and_clear_bit() {
    assert_eq!(hamt_set_bit(0, 0), 1);
    assert_eq!(hamt_set_bit(0b100, 31), 0x8000_0004);
    assert_eq!(hamt_set_bit(0b100, 2), 0b100);
    assert_eq!(hamt_clear_bit(0b111, 1), 0b101);
    assert_eq!(hamt_clear_bit(0b101, 1), 0b101);
    assert_eq!(hamt_clear_bit(hamt_set_bit(0b1000, 5), 5), 0b1000);
}

#[test]
fn buffer_copies() {
    let data = vec![1.5, 2.5, 3.5];
    assert_eq!(hamt_append(&data, 9.0), vec![1.5, 2.5, 3.5, 9.0]);
    assert_eq!(hamt_prepend(&data, 9.0), vec![9.0, 1.5, 2.5, 3.5]);
    assert_eq!(hamt_insert(&data, 1, 9.0), Ok(vec![1.5, 9.0, 2.5, 3.5]));
    assert_eq!(hamt_insert(&data, 3, 9.0), Ok(vec![1.5, 2.5, 3.5, 9.0]));
    assert_eq!(hamt_insert(&data, 4, 9.0), Err(KernelError::InsertOutOfBounds));
    assert_eq!(hamt_remove(&data, 0), Ok(vec![2.5, 3.5]));
    assert_eq!(hamt_remove(&data, 2), Ok(vec![1.5, 2.5]));
    assert_eq!(hamt_remove(&data, 3), Err(KernelError::IndexOutOfBounds));
    assert_eq!(hamt_concat(&data, &vec![7.0, 8.0]), vec![1.5, 2.5, 3.5, 7.0, 8.0]);
    assert_eq!(hamt_append_multiple(&data, &vec![7.0]), vec![1.5, 2.5, 3.5, 7.0]);
    assert_eq!(hamt_prepend_multiple(&data, &vec![7.0]), vec![7.0, 1.5, 2.5, 3.5]);
}
