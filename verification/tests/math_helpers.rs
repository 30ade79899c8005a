use cmt_software::field::{Zp, PRIME};
use cmt_software::math_helper::{
    bic, get_bit, interpolate, interpolate_next_gates, into_bit_arr, mle_interpolate,
};

fn zps(v: &[u32]) -> Vec<Zp> {
    v.iter().map(|&x| Zp::new(x)).collect()
}

#[test]
fn bic_clears_mask_bits() {
    assert_eq!(bic(0b1111, 0b0101), 0b1010);
}

#[test]
fn get_bit_reads_single_bits() {
    assert_eq!(get_bit(6, 0), 0);
    assert_eq!(get_bit(6, 1), 1);
    assert_eq!(get_bit(6, 2), 1);
    assert_eq!(get_bit(6, 3), 0);
}

#[test]
fn into_bit_arr_is_little_endian() {
    let bits: Vec<u32> = into_bit_arr(11, 5).iter().map(|z| z.val()).collect();
    assert_eq!(bits, vec![1, 1, 0, 1, 0]);
}

#[test]
fn mle_interpolate_is_equality_on_bits() {
    let a = into_bit_arr(5, 3);
    let b = into_bit_arr(5, 3);
    let c = into_bit_arr(6, 3);
    assert_eq!(mle_interpolate(&a, &b).val(), 1);
    assert_eq!(mle_interpolate(&a, &c).val(), 0);
}

#[test]
fn mle_interpolate_off_the_hypercube() {
    // w = [1], x = [3]: 3 * 1 + (1 - 3) * 0 == 3
    assert_eq!(mle_interpolate(&zps(&[1]), &zps(&[3])).val(), 3);
    // w = [0], x = [3]: 0 + (1 - 3) * 1 == -2
    assert_eq!(mle_interpolate(&zps(&[0]), &zps(&[3])).val(), PRIME - 2);
}

#[test]
fn interpolate_passes_through_sample_points() {
    let pts = vec![
        (Zp::new(0), Zp::new(4)),
        (Zp::new(1), Zp::new(9)),
        (Zp::new(2), Zp::new(20)),
    ];
    assert_eq!(interpolate(&pts, Zp::new(0)).val(), 4);
    assert_eq!(interpolate(&pts, Zp::new(1)).val(), 9);
    assert_eq!(interpolate(&pts, Zp::new(2)).val(), 20);
    // the points lie on 3x^2 + 2x + 4
    assert_eq!(interpolate(&pts, Zp::new(5)).val(), 89);
}

#[test]
fn interpolate_next_gates_walks_the_line() {
    let lbls = zps(&[1, 2, 5, 10]);
    let at0: Vec<u32> = interpolate_next_gates(&lbls, Zp::new(0), 2).iter().map(|z| z.val()).collect();
    let at1: Vec<u32> = interpolate_next_gates(&lbls, Zp::new(1), 2).iter().map(|z| z.val()).collect();
    let at2: Vec<u32> = interpolate_next_gates(&lbls, Zp::new(2), 2).iter().map(|z| z.val()).collect();
    assert_eq!(at0, vec![1, 2]);
    assert_eq!(at1, vec![5, 10]);
    assert_eq!(at2, vec![9, 18]);
}
