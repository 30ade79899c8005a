use cmt_software::field::{Zp, Zpe, PRIME};

#[test]
fn zp_new_reduces_modulo_prime() {
    assert_eq!(Zp::new(5).val(), 5);
    assert_eq!(Zp::new(PRIME).val(), 0);
    assert_eq!(Zp::new(u32::MAX).val(), 1);
    assert_eq!(Zp::new(PRIME + 7).val(), 7);
}

#[test]
fn zp_add_wraps_around() {
    let a = Zp::new(PRIME - 1);
    let b = Zp::new(5);
    assert_eq!((a + b).val(), 4);
    assert!(a + b == 4u32);
}

#[test]
fn zp_sub_borrows_the_modulus() {
    let a = Zp::new(3);
    let b = Zp::new(10);
    assert_eq!((a - b).val(), PRIME - 7);
    assert_eq!((b - a).val(), 7);
}

#[test]
fn zp_mul_reduces_the_product() {
    let a = Zp::new(1 << 20);
    let b = Zp::new(1 << 20);
    // 2^40 mod (2^31 - 1) == 2^9
    assert_eq!((a * b).val(), 512);
}

#[test]
fn zp_div_inverts_mul() {
    let a = Zp::new(123456);
    let b = Zp::new(987654);
    let q = a / b;
    assert!(q * b == a);
    // 2 * 1073741824 == 2^31 == 1 (mod 2^31 - 1)
    assert_eq!((Zp::new(1) / Zp::new(2)).val(), 1073741824);
}

#[test]
fn zp_div_by_zero_gives_zero() {
    assert_eq!((Zp::new(7) / Zp::new(0)).val(), 0);
}

#[test]
fn zp_neg_and_add_cancel() {
    let a = Zp::new(42);
    assert_eq!((-a).val(), PRIME - 42);
    assert_eq!((-a + a).val(), 0);
    // negating zero keeps the unreduced representative
    assert_eq!((-Zp::new(0)).val(), PRIME);
}

#[test]
fn zp_assign_operators() {
    let mut a = Zp::new(10);
    a += Zp::new(5);
    assert_eq!(a.val(), 15);
    a *= Zp::new(3);
    assert_eq!(a.val(), 45);
}

#[test]
fn zp_equality_compares_representatives() {
    assert!(Zp::new(3) == Zp::new(3));
    assert!(Zp::new(3) != Zp::new(4));
    assert!(Zp::new(3) == 3u32);
}

#[test]
fn zp_random_is_reduced() {
    for _ in 0..50 {
        assert!(Zp::new_rand().val() < PRIME);
    }
}

#[test]
fn zpe_arithmetic_modulo_two() {
    let one = Zpe::new(3);
    let zero = Zpe::new(4);
    assert_eq!(one + one, zero);
    assert_eq!(zero - one, one);
    assert_eq!(one * one, one);
    assert_eq!(one * zero, zero);
    assert_eq!(-one, one);
    let mut x = one;
    x += one;
    assert_eq!(x, zero);
    x *= one;
    assert_eq!(x, zero);
    assert!(zero < one);
    assert!(Zpe::new_rand() <= one);
}

#[test]
fn zpe_of_a_draw_reduces_twice() {
    assert_eq!(Zpe::of_draw(3) , Zpe::new(1));
    assert_eq!(Zpe::of_draw(2147483648), Zpe::new(1));
    assert_eq!(Zpe::of_draw(2147483647), Zpe::new(0));
    assert_eq!(Zpe::of_draw(4294967295), Zpe::new(1));
}

#[test]
fn gate_values_are_canonical() {
    let c = cmt_software::arith_circuit::ArithCircuit::new(b"0,0,*\n2147483646").unwrap();
    assert_eq!(c.get_layer(0)[0].val().val(), 1);
    assert!(c.get_inputs()[0].val().val() < PRIME);
}
