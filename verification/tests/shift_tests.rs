use bst::shift::shift_all;

#[test]
fn shift_all_exact_values() {
    let mut v: Vec<u64> = vec![0x10000000_00000001, 0b1000, 7, u64::MAX];
    shift_all(&mut v, 3);
    assert_eq!(v, vec![0x02000000_00000000, 1, 0, u64::MAX >> 3]);
}

#[test]
fn shift_all_by_zero_keeps_values() {
    let mut v: Vec<u64> = vec![5, 0, 123456789];
    shift_all(&mut v, 0);
    assert_eq!(v, vec![5, 0, 123456789]);
}

#[test]
fn shift_all_empty_buffer() {
    let mut v: Vec<u64> = vec![];
    shift_all(&mut v, 13);
    assert!(v.is_empty());
}
