use light_curve_dmdt::{nonzero_divisors, saturate_u8, transpose, DmDtNorm, NormSet};

#[test]
fn counts_saturate_at_255() {
    assert_eq!(saturate_u8(&[0, 1, 254, 255, 256, 1000]), vec![0, 1, 254, 255, 255, 255]);
}

#[test]
fn empty_rows_divide_by_one() {
    assert_eq!(nonzero_divisors(&[0, 3, 0, 7]), vec![1, 3, 1, 7]);
}

#[test]
fn transpose_puts_dm_along_rows() {
    // two dt rows of three dm cells
    let a = [1, 2, 3, 4, 5, 6];
    assert_eq!(transpose(&a, 2, 3), vec![1, 4, 2, 5, 3, 6]);
    assert_eq!(transpose(&[], 0, 5), Vec::<u8>::new());
}

#[test]
fn norm_order_does_not_matter() {
    let a = NormSet::from_norms(&[DmDtNorm::Max, DmDtNorm::LgDt]);
    let b = NormSet::from_norms(&[DmDtNorm::LgDt, DmDtNorm::Max, DmDtNorm::LgDt]);
    assert_eq!(a, b);
    assert!(a.lgdt && a.max);
    assert!(NormSet::from_norms(&[]).is_empty());
    let only_max = NormSet::from_norms(&[DmDtNorm::Max]);
    assert!(!only_max.lgdt && only_max.max && !only_max.is_empty());
}
