use cmt_software::arith_circuit::ArithCircuit;
use cmt_software::circuit_gen::random_circuit_text;
use cmt_software::math_helper::{interpolate, interpolate_next_gates};
use cmt_software::field::Zp;
use cmt_software::prover::Prover;
use cmt_software::sumcheck_verifier::Verifier;

const SMALL: &str = "0,1,+ 2,3,*\n0,1,* 1,2,+ 2,3,+ 0,3,*\n3 5 7 11";

#[test]
fn honest_prover_is_accepted() {
    for _ in 0..5 {
        let c = ArithCircuit::new(SMALL.as_bytes()).unwrap();
        let mut v = Verifier::new(c);
        assert!(v.verify());
    }
}

#[test]
fn honest_prover_is_accepted_with_fixed_randomness() {
    let c = ArithCircuit::new(SMALL.as_bytes()).unwrap();
    let start = vec![Zp::new(3), Zp::new(8)];
    let mut v = Verifier::with_start(c, start);
    let rnd: Vec<Zp> = (0..10u32).map(|i| Zp::new(7 * i + 2)).collect();
    assert!(v.verify_with(&rnd));
}

#[test]
fn circuit_of_inputs_only_is_accepted() {
    let c = ArithCircuit::new(b"4 5").unwrap();
    let mut v = Verifier::new(c);
    assert!(v.verify());
}

#[test]
fn deeper_circuit_is_accepted() {
    let text = "0,1,+ 1,2,*\n0,0,* 1,2,+ 2,0,*\n1,0,+ 0,1,* 2,2,+\n2 3 4";
    let c = ArithCircuit::new(text.as_bytes()).unwrap();
    let mut v = Verifier::new(c);
    assert!(v.verify());
}

#[test]
fn prover_round_polynomial_sums_to_claim() {
    let c = ArithCircuit::new(SMALL.as_bytes()).unwrap();
    let start = vec![Zp::new(4), Zp::new(6)];
    let claim = c.mle_gate_val(&start);
    let mut p = Prover::new(c, start);
    let poly = p.sum_check(0, Zp::new(5));
    assert!(poly[0] + poly[1] == claim);
}

#[test]
fn prover_line_values_start_at_the_halves() {
    let c = ArithCircuit::new(SMALL.as_bytes()).unwrap();
    let start = vec![Zp::new(1), Zp::new(0)];
    let mut p = Prover::new(c, start);
    for (i, r) in [2u32, 9, 4, 1].iter().enumerate() {
        p.sum_check(i, Zp::new(*r));
    }
    let vals = p.get_all_vals();
    assert_eq!(vals.len(), 3);
    let lbl_l = vec![Zp::new(2), Zp::new(9)];
    let lbl_r = vec![Zp::new(4), Zp::new(1)];
    assert!(vals[0].1 == p.circuit().mle_gate_val(&lbl_l));
    assert!(vals[1].1 == p.circuit().mle_gate_val(&lbl_r));
    assert!(vals[2].0 == 2u32);
    p.next_layer(Zp::new(0));
    assert!(p.circuit().num_gate_at_layer() == 4);
}

#[test]
fn line_values_interpolate_to_the_next_claim() {
    let c = ArithCircuit::new(SMALL.as_bytes()).unwrap();
    let start = vec![Zp::new(6), Zp::new(13)];
    let mut p = Prover::new(c, start);
    let rs: Vec<Zp> = [2u32, 9, 4, 1].iter().map(|&r| Zp::new(r)).collect();
    for (i, r) in rs.iter().enumerate() {
        p.sum_check(i, *r);
    }
    let vals = p.get_all_vals();
    let r = Zp::new(77);
    let next = interpolate_next_gates(&rs, r, 2);
    assert!(interpolate(&vals, r) == p.circuit().mle_gate_val(&next));
}

#[test]
fn random_circuits_that_fit_their_labels_are_accepted() {
    for _ in 0..5 {
        let text = random_circuit_text(3, 4);
        let c = ArithCircuit::new(&text).unwrap();
        assert_eq!(c.num_all_layers(), 4);
        let mut v = Verifier::new(c);
        assert!(v.verify());
    }
}

#[test]
fn each_round_agrees_with_the_previous_one() {
    let c = ArithCircuit::new(SMALL.as_bytes()).unwrap();
    let start = vec![Zp::new(12), Zp::new(31)];
    let mut p = Prover::new(c, start);
    let rs = [Zp::new(5), Zp::new(17), Zp::new(2), Zp::new(40)];
    let mut prev = p.sum_check(0, rs[0]);
    for i in 1..4 {
        let poly = p.sum_check(i, rs[i]);
        let pts = [(Zp::new(0), prev[0]), (Zp::new(1), prev[1]), (Zp::new(2), prev[2])];
        assert!(poly[0] + poly[1] == interpolate(&pts, rs[i - 1]));
        prev = poly;
    }
}

#[test]
fn last_rounds_sum_the_check_over_the_hypercube() {
    let c = ArithCircuit::new(SMALL.as_bytes()).unwrap();
    let z = vec![Zp::new(9), Zp::new(4)];
    let mut p = Prover::new(c, z.clone());
    let r0 = Zp::new(3);
    let r1 = Zp::new(8);
    p.sum_check(0, r0);
    p.sum_check(1, r1);
    let check = |q: [Zp; 4], circ: &ArithCircuit| -> Zp {
        let x = [q[0], q[1]];
        let y = [q[2], q[3]];
        let h0 = circ.mle_gate_val(&x);
        let h1 = circ.mle_gate_val(&y);
        circ.mle_wiring(&z, &x, &y, true) * (h0 + h1) + circ.mle_wiring(&z, &x, &y, false) * h0 * h1
    };
    let r2 = Zp::new(6);
    let poly2 = p.sum_check(2, r2);
    for k in 0..3u32 {
        let kz = Zp::new(k);
        let expected = check([r0, r1, kz, Zp::new(0)], p.circuit()) + check([r0, r1, kz, Zp::new(1)], p.circuit());
        assert!(poly2[k as usize] == expected);
    }
    let poly3 = p.sum_check(3, Zp::new(11));
    for k in 0..3u32 {
        assert!(poly3[k as usize] == check([r0, r1, r2, Zp::new(k)], p.circuit()));
    }
}
