use cmt_software::arith_circuit::ArithCircuit;
use cmt_software::circuit_gen::{
    gate_of_draws, input_of_draw, random_circuit, random_circuit_text, render_circuit, INPUT_BOUND,
};

#[test]
fn render_writes_the_generator_format() {
    let layers = vec![vec![(0, 1, true), (12, 3, false)]];
    let inputs = vec![7, 250, 0];
    let text = render_circuit(&layers, &inputs);
    assert_eq!(text, b"0,1,+ 12,3,* \n7 250 0 ".to_vec());
}

#[test]
fn rendered_circuit_reads_back() {
    let layers = vec![vec![(0, 1, true), (1, 2, false)], vec![(0, 0, false), (1, 2, true), (2, 3, false)]];
    let inputs = vec![3, 5, 7, 11];
    let text = render_circuit(&layers, &inputs);
    let c = ArithCircuit::new(&text).unwrap();
    assert_eq!(c.num_all_layers(), 3);
    for (i, layer) in layers.iter().enumerate() {
        let got = c.get_layer(i);
        assert_eq!(got.len(), layer.len());
        for (g, &(w0, w1, add)) in got.iter().zip(layer.iter()) {
            assert_eq!(g.get_wiring(), (w0, w1));
            assert_eq!(g.is_add(), add);
        }
    }
    let ins: Vec<u32> = c.get_inputs().iter().map(|g| g.val().val()).collect();
    assert_eq!(ins, inputs);
    // gate 0 of layer 1 multiplies input 0 by itself: 3 * 3 = 9
    assert_eq!(c.get_layer(1)[0].val().val(), 9);
}

#[test]
fn random_circuit_has_the_requested_shape() {
    let (layers, inputs) = random_circuit(6, 10);
    assert_eq!(layers.len(), 6);
    for layer in &layers {
        assert_eq!(layer.len(), 10);
        for &(w0, w1, _) in layer {
            assert!(w0 < 10 && w1 < 10);
        }
    }
    assert_eq!(inputs.len(), 20);
    assert!(inputs.iter().all(|&v| (v as usize) < INPUT_BOUND));
}

#[test]
fn random_circuit_text_parses() {
    let text = random_circuit_text(50, 100);
    let c = ArithCircuit::new(&text).unwrap();
    assert_eq!(c.num_all_layers(), 51);
    assert_eq!(c.get_inputs().len(), 200);
    assert_eq!(c.get_layer(0).len(), 100);
}

#[test]
fn draws_become_gates_and_inputs() {
    assert_eq!(gate_of_draws(17, 4, true, 5), (2, 4, true));
    assert_eq!(gate_of_draws(usize::MAX, 9, false, 10), (usize::MAX % 10, 9, false));
    assert_eq!(input_of_draw(300), 45);
    assert_eq!(input_of_draw(254), 254);
}
