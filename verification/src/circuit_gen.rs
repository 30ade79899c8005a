//! Random circuits and their text: layers of gates with random wiring and
//! operations over random inputs, written in the format that
//! `ArithCircuit::new` reads.
use crate::circuit_text::{
    ascii_spaced, circuit_spec, decimal, descs_wired, lemma_ascii_spaced_ascii, lemma_split_on_concat,
    lemma_split_on_nonempty, digits_of, gate_token_spec, gate_tokens_spec, has_comma,
    input_tokens_spec, is_digit, is_ws, lines_spec, nonempty, parse_uint_spec, split_on, text_lines,
    words, ws_pieces, GateDesc,
};
use vstd::prelude::*;

verus! {

/// A gate as the generator makes it: its two wires, and whether it adds.
pub type GateSpec = (usize, usize, bool);

// ---------------------------------------------------------------------------
// The text of a circuit
// ---------------------------------------------------------------------------

/// The decimal digits of `n`, most significant first.
pub open spec fn dec(n: nat) -> Seq<u8>
    decreases n,
{
    if n < 10 {
        seq![(48 + n) as u8]
    } else {
        dec(n / 10).push((48 + n % 10) as u8)
    }
}

/// `w0,w1,+` for an adding gate, `w0,w1,*` for a multiplying one.
pub open spec fn gate_text(g: GateSpec) -> Seq<u8> {
    dec(g.0 as nat) + seq![44u8] + dec(g.1 as nat) + seq![44u8] + seq![
        if g.2 {
            43u8
        } else {
            42u8
        },
    ]
}

/// A layer's gates, each followed by a space.
pub open spec fn layer_text(gs: Seq<GateSpec>) -> Seq<u8>
    decreases gs.len(),
{
    if gs.len() == 0 {
        Seq::empty()
    } else {
        layer_text(gs.drop_last()) + gate_text(gs.last()) + seq![32u8]
    }
}

/// The layers of gates, each on a line of its own.
pub open spec fn gates_text(ls: Seq<Seq<GateSpec>>) -> Seq<u8>
    decreases ls.len(),
{
    if ls.len() == 0 {
        Seq::empty()
    } else {
        gates_text(ls.drop_last()) + layer_text(ls.last()) + seq![10u8]
    }
}

/// The input values, each followed by a space.
pub open spec fn inputs_text(vs: Seq<u32>) -> Seq<u8>
    decreases vs.len(),
{
    if vs.len() == 0 {
        Seq::empty()
    } else {
        inputs_text(vs.drop_last()) + dec(vs.last() as nat) + seq![32u8]
    }
}

/// The text of a circuit: its layers of gates, then the line of inputs.
pub open spec fn circuit_text(ls: Seq<Seq<GateSpec>>, vs: Seq<u32>) -> Seq<u8> {
    gates_text(ls) + inputs_text(vs)
}

/// The views of a sequence of layers.
pub open spec fn layer_views(ls: Seq<Vec<GateSpec>>) -> Seq<Seq<GateSpec>> {
    ls.map_values(|l: Vec<GateSpec>| l@)
}

// ---------------------------------------------------------------------------
// Writing the text
// ---------------------------------------------------------------------------

/// Appends the decimal digits of `n`.
fn push_decimal(out: &mut Vec<u8>, n: u64)
    ensures
        final(out)@ == old(out)@ + dec(n as nat),
    decreases n,
{
    if n >= 10 {
        push_decimal(out, n / 10);
    }
    let d = (n % 10) as u8;
    out.push(48 + d);
    proof {
        if n >= 10 {
            assert(dec(n as nat) == dec((n / 10) as nat).push((48 + n % 10) as u8));
        }
    }
}

/// Appends the text of a gate.
fn push_gate(out: &mut Vec<u8>, g: GateSpec)
    ensures
        final(out)@ == old(out)@ + gate_text(g),
{
    push_decimal(out, g.0 as u64);
    out.push(44);
    push_decimal(out, g.1 as u64);
    out.push(44);
    out.push(if g.2 {
        43
    } else {
        42
    });
    proof {
        assert(final(out)@ =~= old(out)@ + gate_text(g));
    }
}

/// The text of a circuit with the layers of gates `layers` over the inputs
/// `inputs`.
pub fn render_circuit(layers: &[Vec<GateSpec>], inputs: &[u32]) -> (text: Vec<u8>)
    ensures
        text@ == circuit_text(layer_views(layers@), inputs@),
{
    let mut text: Vec<u8> = Vec::new();
    let ghost ls = layer_views(layers@);
    for i in 0..layers.len()
        invariant
            ls == layer_views(layers@),
            text@ == gates_text(ls.take(i as int)),
    {
        let layer = &layers[i];
        let ghost before = text@;
        for j in 0..layer.len()
            invariant
                text@ == before + layer_text(layer@.take(j as int)),
        {
            push_gate(&mut text, layer[j]);
            text.push(32);
            proof {
                assert(layer@.take(j + 1).last() == layer@[j as int]);
                assert(layer@.take(j + 1).drop_last() =~= layer@.take(j as int));
                assert(text@ =~= before + layer_text(layer@.take(j + 1)));
            }
        }
        text.push(10);
        proof {
            assert(layer@.take(layer@.len() as int) =~= layer@);
            assert(ls.take(i + 1).drop_last() =~= ls.take(i as int));
            assert(ls.take(i + 1).last() == layer@);
            assert(text@ =~= gates_text(ls.take(i + 1)));
        }
    }
    let ghost gates = text@;
    for i in 0..inputs.len()
        invariant
            text@ == gates + inputs_text(inputs@.take(i as int)),
    {
        push_decimal(&mut text, inputs[i] as u64);
        text.push(32);
        proof {
            assert(inputs@.take(i + 1).drop_last() =~= inputs@.take(i as int));
            assert(text@ =~= gates + inputs_text(inputs@.take(i + 1)));
        }
    }
    proof {
        assert(ls.take(layers@.len() as int) =~= ls);
        assert(inputs@.take(inputs@.len() as int) =~= inputs@);
    }
    text
}


// ---------------------------------------------------------------------------
// Random circuits
// ---------------------------------------------------------------------------

/// Draws a value with `rand::random::<usize>()`. Any `usize` may come back;
/// the thread-local generator that it uses panics only if the operating
/// system offers no entropy, which no clause here can rule out.
#[verifier::external_body]
fn random_usize() -> (r: usize) {
    rand::random::<usize>()
}

/// Draws a value with `rand::random::<bool>()`. Either value may come back;
/// the thread-local generator that it uses panics only if the operating
/// system offers no entropy, which no clause here can rule out.
#[verifier::external_body]
fn random_bool() -> (r: bool) {
    rand::random::<bool>()
}

/// Input values of random circuits lie below this bound.
pub const INPUT_BOUND: usize = 255;

/// A gate from random draws: the draws for its wires reduced modulo
/// the number of gates of the next layer, and the draw for its operation.
pub fn gate_of_draws(x0: usize, x1: usize, adds: bool, num_gate: usize) -> (g: GateSpec)
    requires
        num_gate > 0,
    ensures
        g == (x0 % num_gate, x1 % num_gate, adds),
{
    (x0 % num_gate, x1 % num_gate, adds)
}

/// The input value that a random draw makes: the draw reduced modulo
/// `INPUT_BOUND`.
pub fn input_of_draw(x: usize) -> (v: u32)
    ensures
        v as int == x as int % INPUT_BOUND as int,
{
    (x % INPUT_BOUND) as u32
}

/// A random circuit: `num_layer` layers of `num_gate` gates, each reading
/// two random gates of the next layer with a random operation, over
/// `2 * num_gate` random input values below `INPUT_BOUND`.
pub fn random_circuit(num_layer: usize, num_gate: usize) -> (r: (Vec<Vec<GateSpec>>, Vec<u32>))
    requires
        num_gate > 0,
        num_gate <= usize::MAX / 2,
    ensures
        r.0@.len() == num_layer,
        forall|i: int| 0 <= i < num_layer ==> (#[trigger] r.0@[i])@.len() == num_gate,
        forall|i: int, j: int|
            0 <= i < num_layer && 0 <= j < num_gate ==> (#[trigger] r.0@[i]@[j]).0 < num_gate
                && r.0@[i]@[j].1 < num_gate,
        r.1@.len() == 2 * num_gate,
        forall|j: int| 0 <= j < r.1@.len() ==> #[trigger] r.1@[j] < INPUT_BOUND,
{
    let mut layers: Vec<Vec<GateSpec>> = Vec::new();
    for i in 0..num_layer
        invariant
            num_gate > 0,
            layers@.len() == i,
            forall|a: int| 0 <= a < i ==> (#[trigger] layers@[a])@.len() == num_gate,
            forall|a: int, b: int|
                0 <= a < i && 0 <= b < num_gate ==> (#[trigger] layers@[a]@[b]).0 < num_gate
                    && layers@[a]@[b].1 < num_gate,
    {
        let mut layer: Vec<GateSpec> = Vec::new();
        for j in 0..num_gate
            invariant
                num_gate > 0,
                layer@.len() == j,
                forall|b: int| 0 <= b < j ==> (#[trigger] layer@[b]).0 < num_gate && layer@[b].1 < num_gate,
        {
            let x0 = random_usize();
            let x1 = random_usize();
            let adds = random_bool();
            layer.push(gate_of_draws(x0, x1, adds, num_gate));
        }
        layers.push(layer);
    }
    let mut inputs: Vec<u32> = Vec::new();
    for j in 0..num_gate * 2
        invariant
            inputs@.len() == j,
            forall|b: int| 0 <= b < j ==> #[trigger] inputs@[b] < INPUT_BOUND,
    {
        let v = input_of_draw(random_usize());
        inputs.push(v);
    }
    (layers, inputs)
}


// ---------------------------------------------------------------------------
// Reading the text back
// ---------------------------------------------------------------------------

/// What the parser makes of a generated gate.
pub open spec fn gate_desc(g: GateSpec) -> GateDesc {
    (g.0 as int, g.1 as int, g.2, 0)
}

/// What the parser makes of a generated input value.
pub open spec fn input_desc(v: u32) -> GateDesc {
    (0, 0, false, v as int)
}

/// What the parser makes of a generated circuit.
pub open spec fn circuit_descs(ls: Seq<Seq<GateSpec>>, vs: Seq<u32>) -> Seq<Seq<GateDesc>> {
    ls.map_values(|gs: Seq<GateSpec>| gs.map_values(|g: GateSpec| gate_desc(g))) + seq![
        vs.map_values(|v: u32| input_desc(v)),
    ]
}

proof fn lemma_dec(n: nat)
    ensures
        dec(n).len() >= 1,
        forall|i: int| 0 <= i < dec(n).len() ==> is_digit(#[trigger] dec(n)[i]),
        decimal(dec(n)) == n,
    decreases n,
{
    if n >= 10 {
        lemma_dec(n / 10);
        let d = dec(n / 10);
        assert(dec(n).drop_last() =~= d);
        let c = (48 + n % 10) as u8;
        assert(c as int == 48 + n % 10);
        assert(dec(n).last() == c);
        assert(decimal(dec(n)) == decimal(d) * 10 + (c - 48) as nat);
        assert forall|i: int| 0 <= i < dec(n).len() implies is_digit(#[trigger] dec(n)[i]) by {
            if i < d.len() {
                assert(dec(n)[i] == d[i]);
            }
        }
    } else {
        assert(dec(n).drop_last() =~= Seq::<u8>::empty());
        let c = (48 + n) as u8;
        assert(c as int == 48 + n);
        assert(dec(n).last() == c);
        assert(decimal(Seq::<u8>::empty()) == 0);
        assert(decimal(dec(n)) == decimal(dec(n).drop_last()) * 10 + (c - 48) as nat);
    }
}

proof fn lemma_parse_dec(n: nat, max: nat)
    requires
        n <= max,
    ensures
        parse_uint_spec(dec(n), max) == Some(n),
{
    lemma_dec(n);
    assert(is_digit(dec(n)[0]));
    assert(digits_of(dec(n)) == dec(n));
}

/// A piece without the separator is not split.
proof fn lemma_split_on_none(s: Seq<u8>, sep: u8)
    requires
        forall|i: int| 0 <= i < s.len() ==> #[trigger] s[i] != sep,
    ensures
        split_on(s, sep) == seq![s],
    decreases s.len(),
{
    if s.len() > 0 {
        let s2 = s.drop_last();
        assert forall|i: int| 0 <= i < s2.len() implies #[trigger] s2[i] != sep by {
            assert(s2[i] == s[i]);
        }
        lemma_split_on_none(s2, sep);
        assert(s2.push(s.last()) =~= s);
        assert(seq![s2].update(0, s2.push(s.last())) =~= seq![s]);
    } else {
        assert(s =~= Seq::<u8>::empty());
    }
}

proof fn lemma_ws_pieces_len(s: Seq<u8>)
    ensures
        ws_pieces(s).len() >= 1,
    decreases s.len(),
{
    if s.len() > 0 {
        lemma_ws_pieces_len(s.drop_last());
    }
}

/// Splitting at whitespace splits the two sides apart.
proof fn lemma_ws_pieces_concat(a: Seq<u8>, c: u8, b: Seq<u8>)
    requires
        is_ws(c),
    ensures
        ws_pieces(a + seq![c] + b) == ws_pieces(a) + ws_pieces(b),
    decreases b.len(),
{
    let s = a + seq![c] + b;
    if b.len() == 0 {
        assert(s.drop_last() =~= a);
        assert(ws_pieces(a).push(Seq::empty()) =~= ws_pieces(a) + ws_pieces(b));
    } else {
        let b2 = b.drop_last();
        lemma_ws_pieces_concat(a, c, b2);
        assert(s.drop_last() =~= a + seq![c] + b2);
        let x = ws_pieces(a);
        let y = ws_pieces(b2);
        lemma_ws_pieces_len(b2);
        if is_ws(b.last()) {
            assert((x + y).push(Seq::empty()) =~= x + y.push(Seq::empty()));
        } else {
            assert((x + y).update((x + y).len() - 1, (x + y).last().push(b.last())) =~= x + y.update(
                y.len() - 1,
                y.last().push(b.last()),
            ));
        }
    }
}

/// A piece without whitespace is not split.
proof fn lemma_ws_pieces_none(s: Seq<u8>)
    requires
        forall|i: int| 0 <= i < s.len() ==> !is_ws(#[trigger] s[i]),
    ensures
        ws_pieces(s) == seq![s],
    decreases s.len(),
{
    if s.len() > 0 {
        let s2 = s.drop_last();
        assert forall|i: int| 0 <= i < s2.len() implies !is_ws(#[trigger] s2[i]) by {
            assert(s2[i] == s[i]);
        }
        lemma_ws_pieces_none(s2);
        assert(s2.push(s.last()) =~= s);
        assert(seq![s2].update(0, s2.push(s.last())) =~= seq![s]);
    } else {
        assert(s =~= Seq::<u8>::empty());
    }
}

proof fn lemma_nonempty_concat(x: Seq<Seq<u8>>, y: Seq<Seq<u8>>)
    ensures
        nonempty(x + y) == nonempty(x) + nonempty(y),
    decreases y.len(),
{
    if y.len() == 0 {
        assert(x + y =~= x);
        assert(nonempty(x) + nonempty(y) =~= nonempty(x));
    } else {
        lemma_nonempty_concat(x, y.drop_last());
        assert((x + y).drop_last() =~= x + y.drop_last());
        assert((x + y).last() == y.last());
        if y.last().len() > 0 {
            assert((nonempty(x) + nonempty(y.drop_last())).push(y.last()) =~= nonempty(x) + nonempty(
                y.drop_last(),
            ).push(y.last()));
        }
    }
}

proof fn lemma_nonempty_blank()
    ensures
        nonempty(seq![Seq::<u8>::empty()]) == Seq::<Seq<u8>>::empty(),
{
    let e = seq![Seq::<u8>::empty()];
    assert(e.drop_last() =~= Seq::<Seq<u8>>::empty());
    assert(nonempty(e.drop_last()) == e.drop_last());
    assert(e.last().len() == 0);
}

proof fn lemma_nonempty_all(x: Seq<Seq<u8>>)
    requires
        forall|i: int| 0 <= i < x.len() ==> (#[trigger] x[i]).len() > 0,
    ensures
        nonempty(x) == x,
    decreases x.len(),
{
    if x.len() > 0 {
        lemma_nonempty_all(x.drop_last());
        assert(x.drop_last().push(x.last()) =~= x);
    }
}

/// The bytes of a generated gate: digits, commas and an operation sign.
proof fn lemma_gate_text(g: GateSpec)
    ensures
        gate_text(g).len() > 0,
        forall|i: int|
            0 <= i < gate_text(g).len() ==> !is_ws(#[trigger] gate_text(g)[i]) && gate_text(g)[i] != 10
                && gate_text(g)[i] < 128,
        has_comma(gate_text(g)),
        split_on(gate_text(g), 44) == seq![dec(g.0 as nat), dec(g.1 as nat), seq![if g.2 { 43u8 } else { 42u8 }]],
{
    let d0 = dec(g.0 as nat);
    let d1 = dec(g.1 as nat);
    let op = seq![if g.2 {
        43u8
    } else {
        42u8
    }];
    lemma_dec(g.0 as nat);
    lemma_dec(g.1 as nat);
    let t = gate_text(g);
    assert forall|i: int| 0 <= i < t.len() implies !is_ws(#[trigger] t[i]) && t[i] != 10 && t[i] < 128 by {
        if i < d0.len() {
            assert(t[i] == d0[i]);
            assert(is_digit(d0[i]));
        } else if i == d0.len() {
        } else if i < d0.len() + 1 + d1.len() {
            assert(t[i] == d1[i - d0.len() - 1]);
            assert(is_digit(d1[i - d0.len() - 1]));
        }
    }
    assert(t[d0.len() as int] == 44);
    assert forall|i: int| 0 <= i < d0.len() implies #[trigger] d0[i] != 44 by {
        assert(is_digit(d0[i]));
    }
    assert forall|i: int| 0 <= i < d1.len() implies #[trigger] d1[i] != 44 by {
        assert(is_digit(d1[i]));
    }
    assert forall|i: int| 0 <= i < op.len() implies #[trigger] op[i] != 44 by {}
    lemma_split_on_none(d0, 44);
    lemma_split_on_none(d1, 44);
    lemma_split_on_none(op, 44);
    assert(t =~= d0 + seq![44u8] + (d1 + seq![44u8] + op));
    lemma_split_on_concat(d0, d1 + seq![44u8] + op, 44);
    lemma_split_on_concat(d1, op, 44);
    assert(split_on(t, 44) =~= seq![d0, d1, op]);
}

/// Splitting a generated layer at whitespace gives its gates' texts.
proof fn lemma_layer_pieces(gs: Seq<GateSpec>, y: Seq<u8>)
    ensures
        ws_pieces(layer_text(gs) + y) == gs.map_values(|g: GateSpec| gate_text(g)) + ws_pieces(y),
    decreases gs.len(),
{
    let m = gs.map_values(|g: GateSpec| gate_text(g));
    if gs.len() == 0 {
        assert(layer_text(gs) + y =~= y);
        assert(m + ws_pieces(y) =~= ws_pieces(y));
    } else {
        let gs2 = gs.drop_last();
        let gt = gate_text(gs.last());
        lemma_layer_pieces(gs2, gt);
        lemma_gate_text(gs.last());
        lemma_ws_pieces_none(gt);
        assert(layer_text(gs) + y =~= (layer_text(gs2) + gt) + seq![32u8] + y);
        lemma_ws_pieces_concat(layer_text(gs2) + gt, 32, y);
        assert(m =~= gs2.map_values(|g: GateSpec| gate_text(g)) + seq![gt]);
    }
}

proof fn lemma_layer_words(gs: Seq<GateSpec>)
    ensures
        words(layer_text(gs)) == gs.map_values(|g: GateSpec| gate_text(g)),
{
    let m = gs.map_values(|g: GateSpec| gate_text(g));
    lemma_layer_pieces(gs, Seq::empty());
    assert(layer_text(gs) + Seq::<u8>::empty() =~= layer_text(gs));
    assert(ws_pieces(Seq::<u8>::empty()) == seq![Seq::<u8>::empty()]);
    lemma_nonempty_concat(m, seq![Seq::<u8>::empty()]);
    lemma_nonempty_blank();
    assert forall|i: int| 0 <= i < m.len() implies (#[trigger] m[i]).len() > 0 by {
        lemma_gate_text(gs[i]);
    }
    lemma_nonempty_all(m);
    assert(m + Seq::<Seq<u8>>::empty() =~= m);
}

/// Splitting the generated inputs at whitespace gives their digits.
proof fn lemma_input_pieces(vs: Seq<u32>, y: Seq<u8>)
    ensures
        ws_pieces(inputs_text(vs) + y) == vs.map_values(|v: u32| dec(v as nat)) + ws_pieces(y),
    decreases vs.len(),
{
    let m = vs.map_values(|v: u32| dec(v as nat));
    if vs.len() == 0 {
        assert(inputs_text(vs) + y =~= y);
        assert(m + ws_pieces(y) =~= ws_pieces(y));
    } else {
        let vs2 = vs.drop_last();
        let d = dec(vs.last() as nat);
        lemma_input_pieces(vs2, d);
        lemma_dec(vs.last() as nat);
        assert forall|i: int| 0 <= i < d.len() implies !is_ws(#[trigger] d[i]) by {
            assert(is_digit(d[i]));
        }
        lemma_ws_pieces_none(d);
        assert(inputs_text(vs) + y =~= (inputs_text(vs2) + d) + seq![32u8] + y);
        lemma_ws_pieces_concat(inputs_text(vs2) + d, 32, y);
        assert(m =~= vs2.map_values(|v: u32| dec(v as nat)) + seq![d]);
    }
}

proof fn lemma_input_words(vs: Seq<u32>)
    ensures
        words(inputs_text(vs)) == vs.map_values(|v: u32| dec(v as nat)),
{
    let m = vs.map_values(|v: u32| dec(v as nat));
    lemma_input_pieces(vs, Seq::empty());
    assert(inputs_text(vs) + Seq::<u8>::empty() =~= inputs_text(vs));
    lemma_nonempty_concat(m, seq![Seq::<u8>::empty()]);
    lemma_nonempty_blank();
    assert forall|i: int| 0 <= i < m.len() implies (#[trigger] m[i]).len() > 0 by {
        lemma_dec(vs[i] as nat);
    }
    lemma_nonempty_all(m);
    assert(m + Seq::<Seq<u8>>::empty() =~= m);
}

/// The bytes of the generated inputs: digits and spaces.
proof fn lemma_inputs_bytes(vs: Seq<u32>)
    ensures
        forall|i: int| 0 <= i < inputs_text(vs).len() ==> (is_digit(#[trigger] inputs_text(vs)[i]) || inputs_text(vs)[i] == 32),
        vs.len() > 0 ==> inputs_text(vs).len() > 0,
    decreases vs.len(),
{
    if vs.len() > 0 {
        let vs2 = vs.drop_last();
        lemma_inputs_bytes(vs2);
        let d = dec(vs.last() as nat);
        lemma_dec(vs.last() as nat);
        let t = inputs_text(vs);
        assert forall|i: int| 0 <= i < t.len() implies (is_digit(#[trigger] t[i]) || t[i] == 32) by {
            let a = inputs_text(vs2);
            if i < a.len() {
                assert(t[i] == a[i]);
            } else if i < a.len() + d.len() {
                assert(t[i] == d[i - a.len()]);
            }
        }
    }
}

/// The bytes of a generated layer: none is a line feed, and a layer with a
/// gate has a comma.
proof fn lemma_layer_bytes(gs: Seq<GateSpec>)
    ensures
        forall|i: int| 0 <= i < layer_text(gs).len() ==> #[trigger] layer_text(gs)[i] != 10 && layer_text(gs)[i] < 128,
        gs.len() > 0 ==> has_comma(layer_text(gs)),
    decreases gs.len(),
{
    if gs.len() > 0 {
        let gs2 = gs.drop_last();
        lemma_layer_bytes(gs2);
        let a = layer_text(gs2);
        let gt = gate_text(gs.last());
        lemma_gate_text(gs.last());
        let t = layer_text(gs);
        assert forall|i: int| 0 <= i < t.len() implies #[trigger] t[i] != 10 && t[i] < 128 by {
            if i < a.len() {
                assert(t[i] == a[i]);
            } else if i < a.len() + gt.len() {
                assert(t[i] == gt[i - a.len()]);
            }
        }
        let j = choose|j: int| 0 <= j < gt.len() && gt[j] == 44;
        assert(t[a.len() + j] == 44);
    }
}

/// Splitting the generated gate lines at line feeds gives the layers' texts.
proof fn lemma_gates_lines(ls: Seq<Seq<GateSpec>>, y: Seq<u8>)
    ensures
        split_on(gates_text(ls) + y, 10) == ls.map_values(|gs: Seq<GateSpec>| layer_text(gs)) + split_on(y, 10),
    decreases ls.len(),
{
    let m = ls.map_values(|gs: Seq<GateSpec>| layer_text(gs));
    if ls.len() == 0 {
        assert(gates_text(ls) + y =~= y);
        assert(m + split_on(y, 10) =~= split_on(y, 10));
    } else {
        let ls2 = ls.drop_last();
        let lt = layer_text(ls.last());
        lemma_gates_lines(ls2, lt);
        lemma_layer_bytes(ls.last());
        lemma_split_on_none(lt, 10);
        assert(gates_text(ls) + y =~= (gates_text(ls2) + lt) + seq![10u8] + y);
        lemma_split_on_concat(gates_text(ls2) + lt, y, 10);
        assert(m =~= ls2.map_values(|gs: Seq<GateSpec>| layer_text(gs)) + seq![lt]);
    }
}

proof fn lemma_gate_tokens(gs: Seq<GateSpec>, layer: int)
    ensures
        gate_tokens_spec(gs.map_values(|g: GateSpec| gate_text(g)), layer) == Ok::<Seq<GateDesc>, crate::circuit_text::CircuitError>(
            gs.map_values(|g: GateSpec| gate_desc(g)),
        ),
    decreases gs.len(),
{
    let m = gs.map_values(|g: GateSpec| gate_text(g));
    if gs.len() > 0 {
        let gs2 = gs.drop_last();
        lemma_gate_tokens(gs2, layer);
        assert(m.drop_last() =~= gs2.map_values(|g: GateSpec| gate_text(g)));
        let g = gs.last();
        lemma_gate_text(g);
        lemma_parse_dec(g.0 as nat, usize::MAX as nat);
        lemma_parse_dec(g.1 as nat, usize::MAX as nat);
        assert(seq![43u8] != seq![42u8]) by {
            assert(seq![43u8][0] != seq![42u8][0]);
        }
        assert(gate_token_spec(m.last(), layer) == Ok::<GateDesc, crate::circuit_text::CircuitError>(gate_desc(g)));
        assert(gs2.map_values(|g: GateSpec| gate_desc(g)).push(gate_desc(g)) =~= gs.map_values(
            |g: GateSpec| gate_desc(g),
        ));
    } else {
        assert(gs.map_values(|g: GateSpec| gate_desc(g)) =~= Seq::<GateDesc>::empty());
    }
}

proof fn lemma_input_tokens(vs: Seq<u32>)
    ensures
        input_tokens_spec(vs.map_values(|v: u32| dec(v as nat))) == Ok::<Seq<GateDesc>, crate::circuit_text::CircuitError>(
            vs.map_values(|v: u32| input_desc(v)),
        ),
    decreases vs.len(),
{
    let m = vs.map_values(|v: u32| dec(v as nat));
    if vs.len() > 0 {
        let vs2 = vs.drop_last();
        lemma_input_tokens(vs2);
        assert(m.drop_last() =~= vs2.map_values(|v: u32| dec(v as nat)));
        lemma_parse_dec(vs.last() as nat, u32::MAX as nat);
        assert(vs2.map_values(|v: u32| input_desc(v)).push(input_desc(vs.last())) =~= vs.map_values(
            |v: u32| input_desc(v),
        ));
    } else {
        assert(vs.map_values(|v: u32| input_desc(v)) =~= Seq::<GateDesc>::empty());
    }
}

proof fn lemma_lines(ls: Seq<Seq<GateSpec>>, vs: Seq<u32>, layer: int)
    requires
        forall|i: int| 0 <= i < ls.len() ==> (#[trigger] ls[i]).len() > 0,
        vs.len() > 0,
    ensures
        lines_spec(ls.map_values(|gs: Seq<GateSpec>| layer_text(gs)) + seq![inputs_text(vs)], layer)
            == Ok::<Seq<Seq<GateDesc>>, crate::circuit_text::CircuitError>(circuit_descs(ls, vs)),
    decreases ls.len(),
{
    let m = ls.map_values(|gs: Seq<GateSpec>| layer_text(gs));
    let lines = m + seq![inputs_text(vs)];
    if ls.len() == 0 {
        assert(lines[0] == inputs_text(vs));
        lemma_inputs_bytes(vs);
        assert(!has_comma(inputs_text(vs))) by {
            if has_comma(inputs_text(vs)) {
                let j = choose|j: int| 0 <= j < inputs_text(vs).len() && inputs_text(vs)[j] == 44;
                assert(is_digit(inputs_text(vs)[j]) || inputs_text(vs)[j] == 32);
            }
        }
        lemma_input_words(vs);
        lemma_input_tokens(vs);
        assert(circuit_descs(ls, vs) =~= seq![vs.map_values(|v: u32| input_desc(v))]);
    } else {
        let ls2 = ls.drop_first();
        assert forall|i: int| 0 <= i < ls2.len() implies (#[trigger] ls2[i]).len() > 0 by {
            assert(ls2[i] == ls[i + 1]);
        }
        lemma_lines(ls2, vs, layer + 1);
        assert(lines[0] == layer_text(ls[0]));
        assert(lines.skip(1) =~= ls2.map_values(|gs: Seq<GateSpec>| layer_text(gs)) + seq![inputs_text(vs)]);
        lemma_layer_bytes(ls[0]);
        lemma_layer_words(ls[0]);
        lemma_gate_tokens(ls[0], layer);
        assert(circuit_descs(ls, vs) =~= seq![ls[0].map_values(|g: GateSpec| gate_desc(g))] + circuit_descs(
            ls2,
            vs,
        ));
    }
}

/// A generated text is ASCII.
proof fn lemma_text_ascii(ls: Seq<Seq<GateSpec>>, vs: Seq<u32>)
    ensures
        forall|i: int| 0 <= i < circuit_text(ls, vs).len() ==> #[trigger] circuit_text(ls, vs)[i] < 128,
    decreases ls.len(),
{
    let t = circuit_text(ls, vs);
    if ls.len() == 0 {
        lemma_inputs_bytes(vs);
        assert(t =~= inputs_text(vs));
        assert forall|i: int| 0 <= i < t.len() implies #[trigger] t[i] < 128 by {
            assert(is_digit(inputs_text(vs)[i]) || inputs_text(vs)[i] == 32);
        }
    } else {
        let ls2 = ls.drop_last();
        lemma_text_ascii(ls2, vs);
        lemma_layer_bytes(ls.last());
        lemma_inputs_bytes(vs);
        let a = gates_text(ls2);
        let lt = layer_text(ls.last());
        let it = inputs_text(vs);
        assert(t =~= a + lt + seq![10u8] + it);
        assert forall|i: int| 0 <= i < t.len() implies #[trigger] t[i] < 128 by {
            if i < a.len() {
                assert(t[i] == circuit_text(ls2, vs)[i]);
            } else if i < a.len() + lt.len() {
                assert(t[i] == lt[i - a.len()]);
            } else if i == a.len() + lt.len() {
            } else {
                assert(t[i] == it[i - a.len() - lt.len() - 1]);
                assert(is_digit(it[i - a.len() - lt.len() - 1]) || it[i - a.len() - lt.len() - 1] == 32);
            }
        }
    }
}

/// A generated text reads back as the circuit it was generated from, where
/// every layer has a gate and there is an input.
pub proof fn law_render_parse(ls: Seq<Seq<GateSpec>>, vs: Seq<u32>)
    requires
        forall|i: int| 0 <= i < ls.len() ==> (#[trigger] ls[i]).len() > 0,
        vs.len() > 0,
    ensures
        circuit_spec(circuit_text(ls, vs)) == Ok::<Seq<Seq<GateDesc>>, crate::circuit_text::CircuitError>(
            circuit_descs(ls, vs),
        ),
{
    let t = circuit_text(ls, vs);
    lemma_text_ascii(ls, vs);
    lemma_ascii_spaced_ascii(t);
    lemma_gates_lines(ls, inputs_text(vs));
    lemma_inputs_bytes(vs);
    assert forall|i: int| 0 <= i < inputs_text(vs).len() implies #[trigger] inputs_text(vs)[i] != 10 by {
        assert(is_digit(inputs_text(vs)[i]) || inputs_text(vs)[i] == 32);
    }
    lemma_split_on_none(inputs_text(vs), 10);
    let lines = ls.map_values(|gs: Seq<GateSpec>| layer_text(gs)) + seq![inputs_text(vs)];
    assert(split_on(t, 10) == lines);
    assert(text_lines(t) == lines);
    lemma_lines(ls, vs, 0);
}


/// The text of a random circuit (see `random_circuit`): it reads back as
/// `num_layer` layers of gates and a layer of inputs, every wire pointing
/// into the next layer.
pub fn random_circuit_text(num_layer: usize, num_gate: usize) -> (text: Vec<u8>)
    requires
        num_gate > 0,
        num_gate <= usize::MAX / 2,
    ensures
        exists|ls: Seq<Seq<GateSpec>>, vs: Seq<u32>|
            {
                &&& text@ == circuit_text(ls, vs)
                &&& ls.len() == num_layer
                &&& forall|i: int| 0 <= i < num_layer ==> (#[trigger] ls[i]).len() == num_gate
                &&& vs.len() == 2 * num_gate
                &&& forall|j: int| 0 <= j < vs.len() ==> #[trigger] vs[j] < INPUT_BOUND
            },
        circuit_spec(text@) matches Ok(ds) && ds.len() == num_layer + 1 && descs_wired(ds),
{
    let (layers, inputs) = random_circuit(num_layer, num_gate);
    let text = render_circuit(layers.as_slice(), inputs.as_slice());
    proof {
        let ls = layer_views(layers@);
        let vs = inputs@;
        assert forall|i: int| 0 <= i < ls.len() implies (#[trigger] ls[i]).len() > 0 by {
            assert(ls[i] == layers@[i]@);
        }
        law_render_parse(ls, vs);
        let ds = circuit_descs(ls, vs);
        assert forall|i: int, j: int|
            0 <= i < ds.len() - 1 && 0 <= j < ds[i].len() implies 0 <= (#[trigger] ds[i][j]).0 < ds[i
            + 1].len() && 0 <= ds[i][j].1 < ds[i + 1].len() by {
            assert(ls[i] == layers@[i]@);
            assert(ds[i] == ls[i].map_values(|g: GateSpec| gate_desc(g)));
            assert(ds[i][j] == gate_desc(layers@[i]@[j]));
            if i + 1 < num_layer {
                assert(ds[i + 1] == ls[i + 1].map_values(|g: GateSpec| gate_desc(g)));
                assert(ls[i + 1] == layers@[i + 1]@);
            } else {
                assert(ds[i + 1] == vs.map_values(|v: u32| input_desc(v)));
            }
        }
        assert(descs_wired(ds));
        assert(text@ == circuit_text(ls, vs));
        assert forall|i: int| 0 <= i < num_layer implies (#[trigger] ls[i]).len() == num_gate by {
            assert(ls[i] == layers@[i]@);
        }
    }
    text
}

} // verus!
