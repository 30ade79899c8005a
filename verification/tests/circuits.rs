use cmt_software::arith_circuit::{ArithCircuit, GateLbl};
use cmt_software::circuit_text::CircuitError;
use cmt_software::field::Zp;
use cmt_software::math_helper::into_bit_arr;

const SMALL: &str = "0,1,+ 2,3,*\n0,1,* 1,2,+ 2,3,+ 0,3,*\n3 5 7 11";

fn values(layer: &Vec<cmt_software::arith_circuit::Gate>) -> Vec<u32> {
    layer.iter().map(|g| g.val().val()).collect()
}

#[test]
fn parse_evaluates_every_layer() {
    let c = ArithCircuit::new(SMALL.as_bytes()).unwrap();
    assert_eq!(c.num_all_layers(), 3);
    assert_eq!(c.num_layers(), 2);
    assert_eq!(c.num_bits(), 2);
    assert_eq!(values(c.get_layer(2)), vec![3, 5, 7, 11]);
    assert_eq!(values(c.get_layer(1)), vec![15, 12, 18, 33]);
    assert_eq!(values(c.get_layer(0)), vec![27, 594]);
    assert_eq!(values(c.get_inputs()), vec![3, 5, 7, 11]);
}

#[test]
fn parse_reads_wiring_and_operations() {
    let c = ArithCircuit::new(SMALL.as_bytes()).unwrap();
    let l0 = c.get_layer(0);
    assert_eq!(l0[0].get_wiring(), (0, 1));
    assert!(l0[0].is_add());
    assert_eq!(l0[1].get_wiring(), (2, 3));
    assert!(!l0[1].is_add());
}

#[test]
fn parse_accepts_trailing_newline_and_plus_signs() {
    let c = ArithCircuit::new(b"0,+1,+\n+4 9\n").unwrap();
    assert_eq!(c.num_all_layers(), 2);
    assert_eq!(values(c.get_layer(0)), vec![13]);
}

#[test]
fn parse_stops_at_the_input_line() {
    let c = ArithCircuit::new(b"0,0,*\n6\n1,1,+\n").unwrap();
    assert_eq!(c.num_all_layers(), 2);
    assert_eq!(values(c.get_layer(0)), vec![36]);
}

#[test]
fn parse_reduces_inputs_into_the_field() {
    let c = ArithCircuit::new(b"4294967295").unwrap();
    assert_eq!(values(c.get_inputs()), vec![1]);
}

#[test]
fn parse_rejects_wrong_gate_format() {
    assert_eq!(
        ArithCircuit::new(b"0,1,+\n0,1\n1 2").err(),
        Some(CircuitError::WrongFormat(1))
    );
    assert_eq!(
        ArithCircuit::new(b"0,1,-\n1 2").err(),
        Some(CircuitError::WrongFormat(0))
    );
}

#[test]
fn parse_rejects_bad_numbers() {
    assert_eq!(
        ArithCircuit::new(b"a,1,+\n1 2").err(),
        Some(CircuitError::InvalidNumber)
    );
    assert_eq!(
        ArithCircuit::new(b"0,1,+\n1 -2").err(),
        Some(CircuitError::InvalidNumber)
    );
    assert_eq!(
        ArithCircuit::new(b"0,1,+\n1 4294967296").err(),
        Some(CircuitError::InvalidNumber)
    );
}

#[test]
fn parse_rejects_empty_text() {
    assert_eq!(ArithCircuit::new(b"").err(), Some(CircuitError::NoLayers));
}

#[test]
fn parse_rejects_wires_out_of_range() {
    assert_eq!(
        ArithCircuit::new(b"0,2,+\n1 2").err(),
        Some(CircuitError::WireOutOfRange)
    );
}

#[test]
fn cursor_moves_and_wraps() {
    let mut c = ArithCircuit::new(SMALL.as_bytes()).unwrap();
    assert_eq!(c.num_gate_at_layer(), 2);
    c.next_layer();
    assert_eq!(c.num_gate_at_layer(), 4);
    assert_eq!(c.num_gate_at_last_layer(), 2);
    assert_eq!(values(c.get_this_layer()), vec![15, 12, 18, 33]);
    assert_eq!(values(c.get_last_layer()), vec![27, 594]);
    assert_eq!(c.get_gate_val(3).val(), 33);
    assert_eq!(c.get_gate_val(4).val(), 0);
    assert_eq!(c.get_gate_wiring(5), (1, 2));
    assert!(!c.is_gate_add(3));
    c.set_curr_layer(5);
    assert_eq!(c.num_gate_at_layer(), 4);
    c.next_layer();
    assert_eq!(c.num_gate_at_layer(), 2);
    c.next_layer();
    assert_eq!(c.num_gate_at_layer(), 4);
}

#[test]
fn mle_agrees_with_gate_values_on_labels() {
    let c = ArithCircuit::new(SMALL.as_bytes()).unwrap();
    assert_eq!(c.mle_gate_val(&into_bit_arr(0, 2)).val(), 27);
    assert_eq!(c.mle_gate_val(&into_bit_arr(1, 2)).val(), 594);
    assert_eq!(c.mle_gate_val(&into_bit_arr(2, 2)).val(), 0);
    assert_eq!(c.mle_input_val(&into_bit_arr(3, 2)).val(), 11);
}

#[test]
fn mle_wiring_is_indicator_on_labels() {
    let mut c = ArithCircuit::new(SMALL.as_bytes()).unwrap();
    c.next_layer();
    let g0 = into_bit_arr(0, 2);
    let g1 = into_bit_arr(1, 2);
    let w0 = into_bit_arr(0, 2);
    let w1 = into_bit_arr(1, 2);
    assert_eq!(c.mle_wiring(&g0, &w0, &w1, true).val(), 1);
    assert_eq!(c.mle_wiring(&g0, &w0, &w1, false).val(), 0);
    assert_eq!(c.mle_wiring(&g1, &w0, &w1, true).val(), 0);
}

#[test]
fn gate_label_push_and_deref() {
    let mut g = GateLbl::new_rand(3);
    assert_eq!(g.len(), 3);
    g.push(Zp::new(9));
    assert_eq!(g.as_slice().len(), 4);
    assert_eq!(g[3].val(), 9);
    assert_eq!(g.into_vec().len(), 4);
}

#[test]
fn parse_splits_at_unicode_whitespace() {
    let text = "0,1,+\u{a0}2,3,*\n0,1,*\u{2003}1,2,+ 2,3,+\u{3000}0,3,*\n3\u{85}5 7\u{202f}11";
    let c = ArithCircuit::new(text.as_bytes()).unwrap();
    let s = ArithCircuit::new(SMALL.as_bytes()).unwrap();
    assert_eq!(c.num_all_layers(), 3);
    for l in 0..3 {
        assert_eq!(values(c.get_layer(l)), values(s.get_layer(l)));
    }
}

#[test]
fn text_after_the_input_line_is_ignored() {
    let a = ArithCircuit::new(b"0,1,+\n3 5").unwrap();
    let b = ArithCircuit::new(b"0,1,+\n3 5\n7,8,*\nnot a layer\n").unwrap();
    assert_eq!(a.num_all_layers(), b.num_all_layers());
    for l in 0..a.num_all_layers() {
        assert_eq!(values(a.get_layer(l)), values(b.get_layer(l)));
    }
}

#[test]
fn cursor_returns_after_one_move_per_layer() {
    let mut c = ArithCircuit::new(SMALL.as_bytes()).unwrap();
    c.set_curr_layer(1);
    let before = values(c.get_this_layer());
    for _ in 0..c.num_all_layers() {
        c.next_layer();
    }
    assert_eq!(values(c.get_this_layer()), before);
    assert_eq!(c.num_gate_at_layer(), 4);
}
