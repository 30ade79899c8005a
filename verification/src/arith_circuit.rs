//! Layered arithmetic circuits: gates, their evaluation, and the multilinear
//! extensions of gate values and of wiring.
use crate::field::{fadd, fmul, group_zp_ops, law_mul, lemma_raw_injective, p, Zp};
use crate::math_helper::{
    bits, elts, eq_term, get_bit, into_bit_arr, law_mle_eq_on_bits, mle_eq, mle_interpolate,
};
use vstd::arithmetic::power2::pow2;
use vstd::arithmetic::div_mod::*;
use vstd::prelude::*;

verus! {

broadcast use group_zp_ops;

// ---------------------------------------------------------------------------
// Gates
// ---------------------------------------------------------------------------

/// A gate: the indices of its two inputs in the next layer, whether it adds
/// or multiplies them, and its value.
#[derive(Copy, Clone)]
pub struct Gate {
    // Input gates
    w0: usize,
    w1: usize,
    is_add: bool,
    value: Zp,
}

impl Gate {
    pub closed spec fn wire0(self) -> usize {
        self.w0
    }

    pub closed spec fn wire1(self) -> usize {
        self.w1
    }

    pub closed spec fn adds(self) -> bool {
        self.is_add
    }

    pub closed spec fn value(self) -> Zp {
        self.value
    }

    /// A gate's value is a canonical representative of a field element.
    #[verifier::type_invariant]
    closed spec fn value_canonical(self) -> bool {
        0 <= self.value.raw() < p()
    }

    /// This gate, holding `v` in place of its value.
    pub closed spec fn with_value(self, v: Zp) -> Gate {
        Gate { value: v, ..self }
    }

    pub(crate) fn new(w0: usize, w1: usize, is_add: bool, value: u32) -> (g: Gate)
        ensures
            g.wire0() == w0,
            g.wire1() == w1,
            g.adds() == is_add,
            g.value().raw() == value as int % p(),
    {
        Gate { w0: w0, w1: w1, is_add: is_add, value: Zp::new(value) }
    }

    pub fn get_wiring(&self) -> (r: (usize, usize))
        ensures
            r == (self.wire0(), self.wire1()),
    {
        (self.w0, self.w1)
    }

    pub fn is_add(&self) -> (r: bool)
        ensures
            r == self.adds(),
    {
        self.is_add
    }

    pub fn val(&self) -> (r: Zp)
        ensures
            r == self.value(),
            0 <= r.raw() < p(),
    {
        proof {
            use_type_invariant(self);
        }
        self.value
    }

    fn set_value(self, v: Zp) -> (g: Gate)
        requires
            0 <= v.raw() < p(),
        ensures
            g == self.with_value(v),
    {
        Gate { value: v, ..self }
    }
}

// ---------------------------------------------------------------------------
// Gate labels
// ---------------------------------------------------------------------------

/// A point at which to evaluate a multilinear extension: one field element
/// per label bit.
pub struct GateLbl {
    lbl: Vec<Zp>,
}

impl View for GateLbl {
    type V = Seq<Zp>;

    closed spec fn view(&self) -> Seq<Zp> {
        self.lbl@
    }
}

impl GateLbl {
    /// A label of `num_bits` random field elements.
    pub fn new_rand(num_bits: usize) -> (g: GateLbl)
        ensures
            g@.len() == num_bits,
            forall|i: int| 0 <= i < num_bits ==> 0 <= #[trigger] g@[i].raw() < p(),
    {
        let mut new_gate = GateLbl { lbl: Vec::new() };
        for i in 0..num_bits
            invariant
                new_gate@.len() == i,
                forall|k: int| 0 <= k < i ==> 0 <= #[trigger] new_gate@[k].raw() < p(),
        {
            new_gate.lbl.push(Zp::new_rand());
        }
        new_gate
    }

    pub fn push(&mut self, val: Zp)
        ensures
            final(self)@ == old(self)@.push(val),
    {
        self.lbl.push(val);
    }

    /// The label's entries.
    pub fn as_slice(&self) -> (r: &[Zp])
        ensures
            r@ == self@,
    {
        self.lbl.as_slice()
    }

    /// The label's entries, owned.
    pub fn into_vec(self) -> (r: Vec<Zp>)
        ensures
            r@ == self@,
    {
        self.lbl
    }
}

impl core::ops::Deref for GateLbl {
    type Target = Vec<Zp>;

    fn deref(&self) -> (r: &Vec<Zp>)
        ensures
            r@ == self@,
    {
        &self.lbl
    }
}

// ---------------------------------------------------------------------------
// Specifications of circuits
// ---------------------------------------------------------------------------

/// The field values of a layer's gates.
pub open spec fn values(layer: Seq<Gate>) -> Seq<int> {
    layer.map_values(|g: Gate| g.value().elt())
}

/// Every gate of every layer but the last reads two gates of the next layer.
#[verifier::opaque]
pub open spec fn wired(layers: Seq<Seq<Gate>>) -> bool {
    forall|i: int, j: int|
        0 <= i < layers.len() - 1 && 0 <= j < layers[i].len() ==> (#[trigger] layers[i][j]).wire0()
            < layers[i + 1].len() && layers[i][j].wire1() < layers[i + 1].len()
}

/// What a gate computes from the values of the next layer.
pub open spec fn gate_output(g: Gate, next: Seq<Gate>) -> int {
    let a = next[g.wire0() as int].value().elt();
    let b = next[g.wire1() as int].value().elt();
    if g.adds() {
        fadd(a, b)
    } else {
        fmul(a, b)
    }
}

/// Every gate of every layer but the last holds what it computes from the
/// next layer, as a canonical representative.
#[verifier::opaque]
pub open spec fn evaluated(layers: Seq<Seq<Gate>>) -> bool {
    forall|i: int, j: int|
        0 <= i < layers.len() - 1 && 0 <= j < layers[i].len() ==> (#[trigger] layers[i][j]).value().raw()
            == gate_output(layers[i][j], layers[i + 1])
}

/// Two circuits have the same layer sizes, wiring and operations.
pub open spec fn same_shape(a: Seq<Seq<Gate>>, b: Seq<Seq<Gate>>) -> bool {
    &&& a.len() == b.len()
    &&& forall|i: int| 0 <= i < a.len() ==> (#[trigger] a[i]).len() == b[i].len()
    &&& forall|i: int, j: int|
        0 <= i < a.len() && 0 <= j < a[i].len() ==> {
            &&& (#[trigger] a[i][j]).wire0() == b[i][j].wire0()
            &&& a[i][j].wire1() == b[i][j].wire1()
            &&& a[i][j].adds() == b[i][j].adds()
        }
}

/// The multilinear extension of a layer's values, with `num_bits`-bit gate
/// labels, at `lbl`: the sum over gates `i` of `vals[i]` times the
/// multilinear extension of equality between the bits of `i` and `lbl`.
pub open spec fn mle_value(vals: Seq<int>, num_bits: nat, lbl: Seq<int>) -> int
    decreases vals.len(),
{
    if vals.len() == 0 {
        0
    } else {
        fadd(
            mle_value(vals.drop_last(), num_bits, lbl),
            fmul(vals.last(), mle_eq(bits(vals.len() - 1, num_bits), lbl)),
        )
    }
}

/// Label of gate `i`: its own index bits followed by those of both inputs.
pub open spec fn wiring_label(i: int, g: Gate, num_bits: nat) -> Seq<int> {
    bits(i, num_bits) + bits(g.wire0() as int, num_bits) + bits(g.wire1() as int, num_bits)
}

/// The multilinear extension of the wiring predicate of the adding (or of
/// the multiplying) gates of a layer, at `query`.
pub open spec fn mle_wiring_value(layer: Seq<Gate>, num_bits: nat, query: Seq<int>, add: bool) -> int
    decreases layer.len(),
{
    if layer.len() == 0 {
        0
    } else {
        let prev = mle_wiring_value(layer.drop_last(), num_bits, query, add);
        if layer.last().adds() == add {
            fadd(prev, mle_eq(wiring_label(layer.len() - 1, layer.last(), num_bits), query))
        } else {
            prev
        }
    }
}

pub proof fn lemma_mle_value_range(vals: Seq<int>, num_bits: nat, lbl: Seq<int>)
    ensures
        0 <= mle_value(vals, num_bits, lbl) < p(),
    decreases vals.len(),
{
    if vals.len() > 0 {
        lemma_mle_value_range(vals.drop_last(), num_bits, lbl);
    }
}

/// At the bits of a gate index below `2^n`, the multilinear extension of a
/// layer's canonical values is that gate's value, and 0 past the layer's end.
pub proof fn law_mle_value_on_bits(vals: Seq<int>, n: nat, j: int)
    requires
        vals.len() <= pow2(n),
        0 <= j < pow2(n),
        forall|i: int| 0 <= i < vals.len() ==> 0 <= #[trigger] vals[i] < p(),
    ensures
        mle_value(vals, n, bits(j, n)) == if j < vals.len() {
            vals[j]
        } else {
            0
        },
    decreases vals.len(),
{
    if vals.len() > 0 {
        let m = vals.len() - 1;
        let prev = vals.drop_last();
        assert forall|i: int| 0 <= i < prev.len() implies 0 <= #[trigger] prev[i] < p() by {
            assert(prev[i] == vals[i]);
        }
        law_mle_value_on_bits(prev, n, j);
        law_mle_eq_on_bits(m, j, n);
        lemma_mle_value_range(prev, n, bits(j, n));
        lemma_small_mod(0, p() as nat);
        assert(0 <= vals[m] < p());
        lemma_small_mod(vals.last() as nat, p() as nat);
        lemma_small_mod(mle_value(prev, n, bits(j, n)) as nat, p() as nat);
    }
}

/// Where the cursor of a circuit of `n` layers stands after `j` moves from
/// `k`.
pub open spec fn cursor_after(k: int, j: nat, n: int) -> int
    decreases j,
{
    if j == 0 {
        k
    } else {
        (cursor_after(k, (j - 1) as nat, n) + 1) % n
    }
}

/// Moving the cursor `j` times from `k` lands on `(k + j) % n`, so `n`
/// moves bring it back where it started.
pub proof fn law_cursor_cycles(k: int, j: nat, n: int)
    requires
        n >= 1,
        0 <= k < n,
    ensures
        cursor_after(k, j, n) == (k + j) % n,
        cursor_after(k, n as nat, n) == k,
{
    lemma_cursor_after(k, j, n);
    lemma_cursor_after(k, n as nat, n);
    lemma_mod_add_multiples_vanish(k, n);
    lemma_small_mod(k as nat, n as nat);
}

proof fn lemma_cursor_after(k: int, j: nat, n: int)
    requires
        n >= 1,
        0 <= k < n,
    ensures
        cursor_after(k, j, n) == (k + j) % n,
    decreases j,
{
    if j > 0 {
        lemma_cursor_after(k, (j - 1) as nat, n);
        lemma_add_mod_noop_right(1, k + j - 1, n);
        assert(1 + (k + j - 1) == k + j);
    } else {
        lemma_small_mod(k as nat, n as nat);
    }
}

/// Layers `k` on of two evaluated circuits of one shape over the same
/// inputs are equal.
proof fn lemma_evaluation_from(a: Seq<Seq<Gate>>, b: Seq<Seq<Gate>>, k: int)
    requires
        same_shape(a, b),
        a.len() >= 1,
        a.last() == b.last(),
        evaluated(a),
        evaluated(b),
        0 <= k < a.len(),
    ensures
        forall|l: int| k <= l < a.len() ==> #[trigger] a[l] == b[l],
    decreases a.len() - k,
{
    reveal(evaluated);
    if k < a.len() - 1 {
        lemma_evaluation_from(a, b, k + 1);
        assert(a[k + 1] == b[k + 1]);
        assert forall|j: int| 0 <= j < a[k].len() implies #[trigger] a[k][j] == b[k][j] by {
            let g = a[k][j];
            let h = b[k][j];
            assert(g.wire0() == h.wire0() && g.wire1() == h.wire1() && g.adds() == h.adds());
            assert(g.value().raw() == gate_output(g, a[k + 1]));
            assert(h.value().raw() == gate_output(h, b[k + 1]));
            lemma_raw_injective(g.value(), h.value());
        }
        assert(a[k] =~= b[k]);
    }
}

/// A circuit's gate values are fixed by its wiring, its operations and its
/// inputs: two evaluated circuits of one shape over the same inputs are
/// equal.
pub proof fn law_evaluation_unique(a: Seq<Seq<Gate>>, b: Seq<Seq<Gate>>)
    requires
        same_shape(a, b),
        a.len() >= 1,
        a.last() == b.last(),
        evaluated(a),
        evaluated(b),
    ensures
        a == b,
{
    lemma_evaluation_from(a, b, 0);
    assert(a =~= b);
}

proof fn lemma_mle_eq_range(w: Seq<int>, x: Seq<int>)
    ensures
        0 <= mle_eq(w, x) < p(),
{
    if w.len() > 0 {
        lemma_mod_bound(mle_eq(w.drop_last(), x.drop_last()) * eq_term(w.last(), x.last()), p());
    }
}

/// The multilinear extension of equality of two concatenations is the
/// product of those of the parts.
proof fn lemma_mle_eq_concat(w1: Seq<int>, w2: Seq<int>, x1: Seq<int>, x2: Seq<int>)
    requires
        w1.len() == x1.len(),
        w2.len() == x2.len(),
    ensures
        mle_eq(w1 + w2, x1 + x2) == fmul(mle_eq(w1, x1), mle_eq(w2, x2)),
    decreases w2.len(),
{
    lemma_mle_eq_range(w1, x1);
    if w2.len() == 0 {
        assert(w1 + w2 =~= w1);
        assert(x1 + x2 =~= x1);
        lemma_small_mod(mle_eq(w1, x1) as nat, p() as nat);
    } else {
        let w3 = w2.drop_last();
        let x3 = x2.drop_last();
        lemma_mle_eq_concat(w1, w3, x1, x3);
        assert((w1 + w2).drop_last() =~= w1 + w3);
        assert((x1 + x2).drop_last() =~= x1 + x3);
        assert((w1 + w2).last() == w2.last());
        assert((x1 + x2).last() == x2.last());
        law_mul(mle_eq(w1, x1), mle_eq(w3, x3), eq_term(w2.last(), x2.last()));
    }
}

/// On bit labels, the multilinear extension of the wiring predicate of a
/// layer's adding (or multiplying) gates is the predicate itself: 1 where
/// gate `g` exists, has that operation and reads gates `a` and `b`, else 0.
pub proof fn law_mle_wiring_on_bits(layer: Seq<Gate>, n: nat, g: int, a: int, b: int, add: bool)
    requires
        layer.len() <= pow2(n),
        0 <= g < pow2(n),
        0 <= a < pow2(n),
        0 <= b < pow2(n),
        forall|j: int|
            0 <= j < layer.len() ==> (#[trigger] layer[j]).wire0() < pow2(n) && layer[j].wire1() < pow2(n),
    ensures
        mle_wiring_value(layer, n, bits(g, n) + bits(a, n) + bits(b, n), add) == if g < layer.len()
            && layer[g].adds() == add && layer[g].wire0() == a && layer[g].wire1() == b {
            1int
        } else {
            0int
        },
    decreases layer.len(),
{
    if layer.len() > 0 {
        let prev = layer.drop_last();
        assert forall|j: int| 0 <= j < prev.len() implies (#[trigger] prev[j]).wire0() < pow2(n)
            && prev[j].wire1() < pow2(n) by {
            assert(prev[j] == layer[j]);
        }
        law_mle_wiring_on_bits(prev, n, g, a, b, add);
        let i = layer.len() - 1;
        let gt = layer.last();
        assert(gt == layer[i]);
        let q = bits(g, n) + bits(a, n) + bits(b, n);
        let pv = mle_wiring_value(prev, n, q, add);
        lemma_mle_wiring_range(prev, n, q, add);
        lemma_small_mod(0, p() as nat);
        lemma_small_mod(1, p() as nat);
        if gt.adds() == add {
            lemma_mle_eq_concat(bits(i, n) + bits(gt.wire0() as int, n), bits(gt.wire1() as int, n), bits(g, n)
                + bits(a, n), bits(b, n));
            lemma_mle_eq_concat(bits(i, n), bits(gt.wire0() as int, n), bits(g, n), bits(a, n));
            law_mle_eq_on_bits(i, g, n);
            law_mle_eq_on_bits(gt.wire0() as int, a, n);
            law_mle_eq_on_bits(gt.wire1() as int, b, n);
            lemma_small_mod(pv as nat, p() as nat);
        }
    }
}

proof fn lemma_mle_wiring_range(layer: Seq<Gate>, num_bits: nat, query: Seq<int>, add: bool)
    ensures
        0 <= mle_wiring_value(layer, num_bits, query, add) < p(),
    decreases layer.len(),
{
    if layer.len() > 0 {
        lemma_mle_wiring_range(layer.drop_last(), num_bits, query, add);
    }
}

// ---------------------------------------------------------------------------
// Circuits
// ---------------------------------------------------------------------------

/// A layered arithmetic circuit: layer 0 holds the output gates, the last
/// layer the inputs. A cursor marks the current layer.
pub struct ArithCircuit {
    circuit: Vec<Vec<Gate>>,
    curr_layer: usize,
    num_bits: usize,
}

impl ArithCircuit {
    /// The gates, layer by layer.
    pub closed spec fn layers(self) -> Seq<Seq<Gate>> {
        self.circuit@.map_values(|l: Vec<Gate>| l@)
    }

    /// The current layer.
    pub closed spec fn layer_index(self) -> int {
        self.curr_layer as int
    }

    /// The number of bits of a gate label.
    pub closed spec fn label_bits(self) -> nat {
        self.num_bits as nat
    }

    /// The number of bits of a gate label: one per layer of gates.
    pub fn num_bits(&self) -> (r: usize)
        ensures
            r == self.label_bits(),
    {
        self.num_bits
    }

    /// The values of the current layer's gates.
    pub open spec fn this_values(self) -> Seq<int> {
        values(self.layers()[self.layer_index()])
    }

    /// A circuit with at least one layer, evaluated, and with a cursor in
    /// range.
    pub open spec fn wf(self) -> bool {
        &&& self.layers().len() >= 1
        &&& 0 <= self.layer_index() < self.layers().len()
        &&& wired(self.layers())
        &&& evaluated(self.layers())
    }

    pub(crate) fn from_layers(circuit: Vec<Vec<Gate>>, num_bits: usize) -> (c: ArithCircuit)
        ensures
            c.layers() == circuit@.map_values(|l: Vec<Gate>| l@),
            c.layer_index() == 0,
            c.label_bits() == num_bits,
    {
        ArithCircuit { circuit, curr_layer: 0, num_bits }
    }

    /// Computes every gate's value from the inputs up, layer by layer.
    pub(crate) fn evaluate_circuit(&mut self)
        requires
            old(self).layers().len() >= 1,
            wired(old(self).layers()),
        ensures
            final(self).layer_index() == old(self).layer_index(),
            final(self).label_bits() == old(self).label_bits(),
            same_shape(final(self).layers(), old(self).layers()),
            final(self).layers().last() == old(self).layers().last(),
            evaluated(final(self).layers()),
            evaluated(old(self).layers()) ==> final(self).layers() == old(self).layers(),
    {
        reveal(wired);
        reveal(evaluated);
        let ghost orig = self.layers();
        let n = self.circuit.len();
        let mut i = n - 1;
        while i > 0
            invariant
                n == self.circuit@.len(),
                n == orig.len(),
                n >= 1,
                i < n,
                self.layer_index() == old(self).layer_index(),
                self.label_bits() == old(self).label_bits(),
                orig == old(self).layers(),
                wired(orig),
                same_shape(self.layers(), orig),
                forall|k: int| i <= k < n ==> #[trigger] self.layers()[k] == orig[k] || k < n - 1,
                self.layers()[n - 1] == orig[n - 1],
                forall|a: int, b: int|
                    i <= a < n - 1 && 0 <= b < self.layers()[a].len() ==> (#[trigger] self.layers()[a][b]).value().raw()
                        == gate_output(self.layers()[a][b], self.layers()[a + 1]),
            decreases i,
        {
            proof {
                reveal(wired);
                reveal(evaluated);
            }
            i = i - 1;
            let mut new_layer: Vec<Gate> = Vec::new();
            let m = self.circuit[i].len();
            for j in 0..m
                invariant
                    n == self.circuit@.len(),
                    n == orig.len(),
                    i < n - 1,
                    m == self.circuit@[i as int]@.len(),
                    wired(orig),
                    same_shape(self.layers(), orig),
                    new_layer@.len() == j,
                    forall|b: int|
                        0 <= b < j ==> {
                            &&& (#[trigger] new_layer@[b]).wire0() == self.layers()[i as int][b].wire0()
                            &&& new_layer@[b].wire1() == self.layers()[i as int][b].wire1()
                            &&& new_layer@[b].adds() == self.layers()[i as int][b].adds()
                            &&& new_layer@[b].value().raw() == gate_output(
                                new_layer@[b],
                                self.layers()[i + 1],
                            )
                        },
            {
                let g = self.circuit[i][j];
                proof {
                    reveal(wired);
                    assert(self.layers()[i as int][j as int] == g);
                    assert(orig[i as int][j as int].wire0() < orig[i + 1].len());
                    assert(orig[i + 1].len() == self.layers()[i + 1].len());
                    assert(self.layers()[i + 1] == self.circuit@[i + 1]@);
                }
                let w0 = self.circuit[i + 1][g.w0].value;
                let w1 = self.circuit[i + 1][g.w1].value;
                let v = if g.is_add {
                    w0 + w1
                } else {
                    w0 * w1
                };
                proof {
                    assert(self.layers()[i + 1][g.w0 as int] == self.circuit@[i + 1]@[g.w0 as int]);
                    assert(self.layers()[i + 1][g.w1 as int] == self.circuit@[i + 1]@[g.w1 as int]);
                }
                new_layer.push(g.set_value(v));
            }
            let ghost before = self.layers();
            self.circuit.set(i, new_layer);
            proof {
                assert(self.layers() =~= before.update(i as int, new_layer@));
                assert(same_shape(self.layers(), orig)) by {
                    assert forall|a: int| 0 <= a < n implies (#[trigger] self.layers()[a]).len()
                        == orig[a].len() by {
                        if a == i {
                            assert(before[a].len() == orig[a].len());
                        }
                    }
                    assert forall|a: int, b: int|
                        0 <= a < n && 0 <= b < self.layers()[a].len() implies {
                        &&& (#[trigger] self.layers()[a][b]).wire0() == orig[a][b].wire0()
                        &&& self.layers()[a][b].wire1() == orig[a][b].wire1()
                        &&& self.layers()[a][b].adds() == orig[a][b].adds()
                    } by {
                        if a == i {
                            assert(new_layer@[b] == self.layers()[a][b]);
                            assert(before[a][b].wire0() == orig[a][b].wire0());
                        } else {
                            assert(self.layers()[a] == before[a]);
                        }
                    }
                }
                assert forall|a: int, b: int|
                    i <= a < n - 1 && 0 <= b < self.layers()[a].len() implies (#[trigger] self.layers()[a][b]).value().raw()
                    == gate_output(self.layers()[a][b], self.layers()[a + 1]) by {
                    if a == i {
                        assert(self.layers()[a + 1] == before[a + 1]);
                    } else {
                        assert(self.layers()[a] == before[a]);
                        assert(self.layers()[a + 1] == before[a + 1]);
                    }
                }
            }
        }
        proof {
            if evaluated(orig) {
                law_evaluation_unique(self.layers(), orig);
            }
        }
    }

    /// Layer `i`.
    pub fn get_layer(&self, i: usize) -> (r: &Vec<Gate>)
        requires
            i < self.layers().len(),
        ensures
            r@ == self.layers()[i as int],
    {
        &self.circuit[i]
    }

    /// The number of layers, the input layer included.
    pub fn num_all_layers(&self) -> (r: usize)
        ensures
            r == self.layers().len(),
    {
        self.circuit.len()
    }

    /// The input layer.
    pub fn get_inputs(&self) -> (r: &Vec<Gate>)
        requires
            self.layers().len() >= 1,
        ensures
            r@ == self.layers().last(),
    {
        &self.circuit[self.circuit.len() - 1]
    }

    /// Moves the cursor to `layer`, wrapped around the number of layers.
    pub fn set_curr_layer(&mut self, layer: usize)
        requires
            old(self).layers().len() >= 1,
        ensures
            final(self).layer_index() == layer as int % old(self).layers().len() as int,
            final(self).layers() == old(self).layers(),
            final(self).label_bits() == old(self).label_bits(),
    {
        self.curr_layer = layer % (self.circuit.len());
    }

    /// The layer before the current one.
    pub fn get_last_layer(&self) -> (r: &Vec<Gate>)
        requires
            1 <= self.layer_index() <= self.layers().len(),
        ensures
            r@ == self.layers()[self.layer_index() - 1],
    {
        let layer_count = self.curr_layer;
        &self.circuit[layer_count - 1]
    }

    /// The current layer.
    pub fn get_this_layer(&self) -> (r: &Vec<Gate>)
        requires
            0 <= self.layer_index() < self.layers().len(),
        ensures
            r@ == self.layers()[self.layer_index()],
    {
        let layer_count = self.curr_layer;
        &self.circuit[layer_count]
    }

    /// The number of gates in the current layer.
    pub fn num_gate_at_layer(&self) -> (r: usize)
        requires
            0 <= self.layer_index() < self.layers().len(),
        ensures
            r == self.layers()[self.layer_index()].len(),
    {
        let layer_count = self.curr_layer;
        self.circuit[layer_count].len()
    }

    /// The number of gates in the layer before the current one.
    pub fn num_gate_at_last_layer(&self) -> (r: usize)
        requires
            1 <= self.layer_index() <= self.layers().len(),
        ensures
            r == self.layers()[self.layer_index() - 1].len(),
    {
        let layer_count = self.curr_layer;
        self.circuit[layer_count - 1].len()
    }

    /// The number of layers of gates, not counting the inputs.
    pub fn num_layers(&self) -> (r: usize)
        requires
            self.layers().len() >= 1,
        ensures
            r == self.layers().len() - 1,
    {
        self.circuit.len() - 1
    }

    /// Moves the cursor one layer on, wrapping around after the inputs.
    pub fn next_layer(&mut self)
        requires
            old(self).layers().len() >= 1,
            0 <= old(self).layer_index() < old(self).layers().len(),
        ensures
            final(self).layer_index() == (old(self).layer_index() + 1) % old(self).layers().len() as int,
            final(self).layers() == old(self).layers(),
            final(self).label_bits() == old(self).label_bits(),
    {
        let layer_count = self.curr_layer;
        let n = self.circuit.len();
        assert(layer_count < n);
        self.set_curr_layer(layer_count + 1);
    }

    /// The value of gate `gate_lbl` of the current layer, or 0 where the
    /// layer has no such gate.
    pub fn get_gate_val(&self, gate_lbl: usize) -> (r: Zp)
        requires
            0 <= self.layer_index() < self.layers().len(),
        ensures
            gate_lbl < self.layers()[self.layer_index()].len() ==> r == self.layers()[self.layer_index()][gate_lbl as int].value(),
            gate_lbl >= self.layers()[self.layer_index()].len() ==> r.raw() == 0,
    {
        let layer_count = self.curr_layer;
        if gate_lbl < self.circuit[layer_count].len() {
            self.circuit[layer_count][gate_lbl].value
        } else {
            proof {
                lemma_small_mod(0, p() as nat);
            }
            Zp::new(0)
        }
    }

    /// The inputs of gate `gate_lbl` (wrapped around the layer's size) of the
    /// current layer.
    pub fn get_gate_wiring(&self, gate_lbl: usize) -> (r: (usize, usize))
        requires
            0 <= self.layer_index() < self.layers().len(),
            self.layers()[self.layer_index()].len() > 0,
        ensures
            ({
                let g = self.layers()[self.layer_index()][gate_lbl as int % self.layers()[self.layer_index()].len() as int];
                r == (g.wire0(), g.wire1())
            }),
    {
        let layer_count = self.curr_layer;
        let gate = &self.circuit[layer_count][gate_lbl % self.num_gate_at_layer()];
        (gate.w0, gate.w1)
    }

    /// Whether gate `gate_lbl` (wrapped around the layer's size) of the layer
    /// before the current one adds.
    pub fn is_gate_add(&self, gate_lbl: usize) -> (r: bool)
        requires
            1 <= self.layer_index() <= self.layers().len(),
            self.layers()[self.layer_index() - 1].len() > 0,
        ensures
            r == self.layers()[self.layer_index() - 1][gate_lbl as int % self.layers()[self.layer_index() - 1].len() as int].adds(),
    {
        let layer_count = self.curr_layer;
        self.circuit[layer_count - 1][gate_lbl % self.num_gate_at_last_layer()].is_add
    }

    /// The multilinear extension of the current layer's values at `gate`.
    pub fn mle_gate_val(&self, gate: &[Zp]) -> (val: Zp)
        requires
            0 <= self.layer_index() < self.layers().len(),
            gate@.len() == self.label_bits(),
            self.label_bits() <= usize::BITS,
        ensures
            val.raw() == mle_value(self.this_values(), self.label_bits(), elts(gate@)),
    {
        let layer = self.get_this_layer();
        mle_of_layer(layer, self.num_bits, gate)
    }

    /// The multilinear extension of the input layer's values at `gate`.
    pub fn mle_input_val(&self, gate: &[Zp]) -> (val: Zp)
        requires
            self.layers().len() >= 1,
            gate@.len() == self.label_bits(),
            self.label_bits() <= usize::BITS,
        ensures
            val.raw() == mle_value(values(self.layers().last()), self.label_bits(), elts(gate@)),
    {
        let layer = self.get_inputs();
        mle_of_layer(layer, self.num_bits, gate)
    }

    /// The multilinear extension of the wiring predicate of the adding (or
    /// the multiplying) gates of the layer before the current one, at the
    /// concatenation of `gate`, `w0` and `w1`.
    pub fn mle_wiring(&self, gate: &[Zp], w0: &[Zp], w1: &[Zp], add: bool) -> (val: Zp)
        requires
            1 <= self.layer_index() <= self.layers().len(),
            gate@.len() + w0@.len() + w1@.len() == 3 * self.label_bits(),
            self.label_bits() <= usize::BITS,
        ensures
            val.raw() == mle_wiring_value(
                self.layers()[self.layer_index() - 1],
                self.label_bits(),
                elts(gate@) + elts(w0@) + elts(w1@),
                add,
            ),
    {
        let mut val = Zp::new(0);
        let layer = self.get_last_layer();
        let ghost query = elts(gate@) + elts(w0@) + elts(w1@);
        proof {
            lemma_small_mod(0, p() as nat);
        }
        for i in 0..layer.len()
            invariant
                layer@ == self.layers()[self.layer_index() - 1],
                gate@.len() + w0@.len() + w1@.len() == 3 * self.label_bits(),
                self.label_bits() <= usize::BITS,
                query == elts(gate@) + elts(w0@) + elts(w1@),
                val.raw() == mle_wiring_value(layer@.take(i as int), self.label_bits(), query, add),
        {
            let g = layer[i];
            let ghost prev = val;
            proof {
                let lt = layer@.take(i + 1);
                assert(lt.drop_last() =~= layer@.take(i as int));
                assert(lt.last() == g);
                lemma_mle_wiring_range(layer@.take(i as int), self.label_bits(), query, add);
            }
            if g.is_add() == add {
                let conn_gates = g.get_wiring();
                let mut combined_label: Vec<Zp> = into_bit_arr(i, self.num_bits);
                let mut l0 = into_bit_arr(conn_gates.0, self.num_bits);
                let mut l1 = into_bit_arr(conn_gates.1, self.num_bits);
                combined_label.append(&mut l0);
                combined_label.append(&mut l1);
                let mut query_lbl: Vec<Zp> = Vec::new();
                query_lbl.extend_from_slice(gate);
                query_lbl.extend_from_slice(w0);
                query_lbl.extend_from_slice(w1);
                let eq = mle_interpolate(combined_label.as_slice(), query_lbl.as_slice());
                val = val + eq;
                proof {
                    assert(elts(query_lbl@) =~= query);
                    assert(elts(combined_label@) =~= wiring_label(i as int, g, self.label_bits()));
                    lemma_small_mod(prev.raw() as nat, p() as nat);
                    lemma_mod_twice(eq.raw(), p());
                    assert(eq.raw() == mle_eq(wiring_label(i as int, g, self.label_bits()), query));
                    lemma_small_mod(eq.raw() as nat, p() as nat);
                }
            }
        }
        proof {
            assert(layer@.take(layer@.len() as int) =~= layer@);
        }
        val
    }
}

/// The multilinear extension of a layer's values at `gate`.
fn mle_of_layer(layer: &Vec<Gate>, num_bits: usize, gate: &[Zp]) -> (val: Zp)
    requires
        gate@.len() == num_bits,
        num_bits <= usize::BITS,
    ensures
        val.raw() == mle_value(values(layer@), num_bits as nat, elts(gate@)),
{
    let mut val = Zp::new(0);
    proof {
        lemma_small_mod(0, p() as nat);
    }
    for i in 0..layer.len()
        invariant
            gate@.len() == num_bits,
            num_bits <= usize::BITS,
            val.raw() == mle_value(values(layer@.take(i as int)), num_bits as nat, elts(gate@)),
    {
        let g = layer[i];
        let orig_bits = into_bit_arr(i, num_bits);
        let eq = mle_interpolate(orig_bits.as_slice(), gate);
        let term = g.val() * eq;
        let ghost prev = val;
        val = val + term;
        proof {
            let vs = values(layer@.take(i + 1));
            assert(vs.drop_last() =~= values(layer@.take(i as int)));
            assert(vs.last() == g.value().elt());
            lemma_mle_value_range(values(layer@.take(i as int)), num_bits as nat, elts(gate@));
            lemma_small_mod(prev.raw() as nat, p() as nat);
            lemma_small_mod(term.raw() as nat, p() as nat);
            lemma_mod_twice(mle_eq(bits(i as int, num_bits as nat), elts(gate@)), p());
            assert(mle_eq(bits(i as int, num_bits as nat), elts(gate@)) == eq.raw());
            lemma_small_mod(eq.raw() as nat, p() as nat);
        }
    }
    proof {
        assert(layer@.take(layer@.len() as int) =~= layer@);
    }
    val
}

} // verus!
