//! The prover's side of the layer-by-layer sum-check protocol.
use crate::arith_circuit::{lemma_mle_value_range, mle_value, values, wiring_label, ArithCircuit, Gate};
use crate::field::{fadd, fmul, fneg, group_zp_ops, p, Zp};
use crate::math_helper::{
    bit_at, bits, elts, get_bit, interpolate_next_gates, line_points, mle_eq,
};
use vstd::arithmetic::div_mod::*;
use vstd::prelude::*;
use vstd::slice::slice_subrange;
use core::ops::Neg;

verus! {

broadcast use group_zp_ops;

// ---------------------------------------------------------------------------
// Specifications
// ---------------------------------------------------------------------------

/// The bits `from..num_bits` of `g` (none when `from` exceeds `num_bits`).
pub open spec fn bits_from(g: int, from: int, num_bits: nat) -> Seq<int> {
    Seq::new(if from <= num_bits { (num_bits - from) as nat } else { 0 }, |k: int| bit_at(g, (from + k) as nat))
}

/// `u` where the wiring bit is 1, `1 - u` where it is 0.
pub open spec fn select(s_is_one: bool, u: int) -> int {
    if s_is_one {
        u
    } else {
        fadd(fneg(u), 1)
    }
}

/// The product over the entries of `u` of `select(s[i] == 1, u[i])`: the
/// multilinear extension of equality with the wiring label `s`, restricted to
/// the first `u.len()` coordinates.
pub open spec fn termp(s: Seq<int>, u: Seq<int>) -> int
    decreases u.len(),
{
    if u.len() == 0 {
        1
    } else {
        fmul(termp(s, u.drop_last()), select(s[u.len() - 1] == 1, u.last()))
    }
}

/// The value of gate `w` of a layer, or 0 where there is none.
pub open spec fn value_or_zero(vals: Seq<int>, w: int) -> int {
    if 0 <= w < vals.len() {
        vals[w]
    } else {
        0
    }
}

/// The label at which the left input is read in round `round`, with the
/// round's variable at `k`.
pub open spec fn left_label(n: nat, rs: Seq<int>, round: int, k: int, g: Gate) -> Seq<int> {
    if round < n {
        rs + seq![k] + bits_from(g.wire0() as int, rs.len() + 1 as int, n)
    } else {
        rs.take(n as int)
    }
}

/// The right input's value in round `round`, with the round's variable at `k`.
pub open spec fn right_value(this: Seq<int>, n: nat, rs: Seq<int>, round: int, k: int, g: Gate) -> int {
    if round < n {
        value_or_zero(this, g.wire1() as int)
    } else {
        mle_value(this, n, rs.skip(n as int) + seq![k] + bits_from(g.wire1() as int, rs.len() - n + 1, n))
    }
}

/// What gate `i` of the layer above contributes to the round polynomial at
/// `k`: the equality factor with its wiring times the sum (for an adding
/// gate) or the product of its inputs' extensions.
pub open spec fn gate_term(
    this: Seq<int>,
    n: nat,
    z: Seq<int>,
    rs: Seq<int>,
    round: int,
    i: int,
    g: Gate,
    k: int,
) -> int {
    let tp = termp(wiring_label(i, g, n), z + rs + seq![k]);
    let tl = mle_value(this, n, left_label(n, rs, round, k, g));
    let tr = right_value(this, n, rs, round, k, g);
    if g.adds() {
        fmul(tp, fadd(tl, tr))
    } else {
        fmul(fmul(tp, tl), tr)
    }
}

/// The round polynomial at `k`: the sum of the gates' terms.
#[verifier::opaque]
pub open spec fn round_value(
    above: Seq<Gate>,
    this: Seq<int>,
    n: nat,
    z: Seq<int>,
    rs: Seq<int>,
    round: int,
    k: int,
) -> int
    decreases above.len(),
{
    if above.len() == 0 {
        0
    } else {
        fadd(
            round_value(above.drop_last(), this, n, z, rs, round, k),
            gate_term(this, n, z, rs, round, above.len() - 1, above.last(), k),
        )
    }
}

pub proof fn lemma_round_value_range(
    above: Seq<Gate>,
    this: Seq<int>,
    n: nat,
    z: Seq<int>,
    rs: Seq<int>,
    round: int,
    k: int,
)
    ensures
        0 <= round_value(above, this, n, z, rs, round, k) < p(),
    decreases above.len(),
{
    reveal(round_value);
    if above.len() > 0 {
        lemma_round_value_range(above.drop_last(), this, n, z, rs, round, k);
    }
}

proof fn lemma_termp_range(s: Seq<int>, u: Seq<int>)
    ensures
        0 <= termp(s, u) < p(),
    decreases u.len(),
{
    if u.len() > 0 {
        lemma_termp_range(s, u.drop_last());
    }
}

// ---------------------------------------------------------------------------
// The prover
// ---------------------------------------------------------------------------

/// The prover: it holds the circuit, the point `curr_gate` at which the
/// current claim is made, and the random values of the rounds so far.
pub struct Prover {
    circuit: ArithCircuit,
    num_bits: usize,
    curr_gate: Vec<Zp>,
    rand_lbls: Vec<Zp>,
}

impl Prover {
    pub closed spec fn circ(self) -> ArithCircuit {
        self.circuit
    }

    pub closed spec fn label_bits(self) -> nat {
        self.num_bits as nat
    }

    /// The point of the current claim.
    pub closed spec fn point(self) -> Seq<Zp> {
        self.curr_gate@
    }

    /// The random values of this layer's rounds so far.
    pub closed spec fn rands(self) -> Seq<Zp> {
        self.rand_lbls@
    }

    /// An evaluated circuit, with labels of the size that it uses.
    pub open spec fn wf(self) -> bool {
        &&& self.circ().wf()
        &&& self.label_bits() == self.circ().label_bits()
        &&& self.label_bits() <= usize::BITS
    }

    /// Ready for round `round`: the layer above the current one exists, the
    /// random values so far fit the round's half of the labels, and the
    /// claim's point, the random values and the round's variable fit a
    /// wiring label.
    pub open spec fn ready(self, round: int) -> bool {
        let n = self.label_bits();
        &&& self.wf()
        &&& 1 <= self.circ().layer_index()
        &&& self.point().len() + self.rands().len() + 1 <= 3 * n
        &&& if round < n {
            self.rands().len() < n
        } else {
            n <= self.rands().len() < 2 * n
        }
    }

    /// The round polynomial at `k` that the prover sends in round `round`.
    pub open spec fn poly_at(self, round: int, k: int) -> int {
        let c = self.circ();
        round_value(
            c.layers()[c.layer_index() - 1],
            c.this_values(),
            self.label_bits(),
            elts(self.point()),
            elts(self.rands()),
            round,
            k,
        )
    }

    /// A prover for the claim at `start_lbl` about the circuit's current
    /// layer; it moves the cursor to the next layer.
    pub fn new(circ: ArithCircuit, start_lbl: Vec<Zp>) -> (pr: Prover)
        requires
            circ.layers().len() >= 1,
            0 <= circ.layer_index() < circ.layers().len(),
        ensures
            pr.circ().layers() == circ.layers(),
            pr.circ().label_bits() == circ.label_bits(),
            pr.circ().layer_index() == (circ.layer_index() + 1) % circ.layers().len() as int,
            pr.label_bits() == circ.label_bits(),
            pr.point() == start_lbl@,
            pr.rands() == Seq::<Zp>::empty(),
    {
        let mut circ = circ;
        circ.next_layer();
        let num_bits = circ.num_bits();
        Prover { num_bits: num_bits, curr_gate: start_lbl, rand_lbls: Vec::new(), circuit: circ }
    }

    /// The circuit.
    pub fn circuit(&self) -> (r: &ArithCircuit)
        ensures
            *r == self.circ(),
    {
        &self.circuit
    }

    /// Moves to the next layer: the new claim is about the point at
    /// `next_gate` on the line through the two halves of the random values.
    pub fn next_layer(&mut self, next_gate: Zp)
        requires
            old(self).wf(),
            old(self).rands().len() == 2 * old(self).label_bits(),
        ensures
            final(self).circ().layers() == old(self).circ().layers(),
            final(self).circ().label_bits() == old(self).circ().label_bits(),
            final(self).circ().layer_index() == (old(self).circ().layer_index() + 1) % old(
                self,
            ).circ().layers().len() as int,
            final(self).label_bits() == old(self).label_bits(),
            elts(final(self).point()) == line_points(
                elts(old(self).rands()),
                next_gate.elt(),
                old(self).label_bits(),
            ),
            final(self).point().len() == old(self).label_bits(),
            forall|i: int|
                0 <= i < old(self).label_bits() ==> #[trigger] final(self).point()[i].raw() == line_points(
                    elts(old(self).rands()),
                    next_gate.elt(),
                    old(self).label_bits(),
                )[i],
            final(self).rands() == Seq::<Zp>::empty(),
    {
        self.curr_gate = interpolate_next_gates(self.rand_lbls.as_slice(), next_gate, self.num_bits);
        self.circuit.next_layer();
        self.rand_lbls.clear();
        proof {
            assert forall|i: int| 0 <= i < self.label_bits() implies #[trigger] self.point()[i].raw()
                == line_points(elts(old(self).rands()), next_gate.elt(), self.label_bits())[i] by {
                assert(elts(self.point())[i] == self.point()[i].elt());
            }
        }
    }

    /// The points `(t, V(line(t)))` for `t` in `0..=num_bits`, where `V` is
    /// the multilinear extension of the current layer and `line` runs through
    /// the two halves of the random values.
    pub fn get_all_vals(&self) -> (vals: Vec<(Zp, Zp)>)
        requires
            self.wf(),
            self.rands().len() == 2 * self.label_bits(),
        ensures
            vals@.len() == if self.label_bits() == 0 {
                2
            } else {
                self.label_bits() + 1
            },
            forall|t: int|
                0 <= t < vals@.len() ==> {
                    &&& (#[trigger] vals@[t]).0.raw() == t
                    &&& vals@[t].1.raw() == mle_value(
                        self.circ().this_values(),
                        self.label_bits(),
                        line_points(elts(self.rands()), t, self.label_bits()),
                    )
                },
    {
        let n = self.num_bits;
        let mut vals: Vec<(Zp, Zp)> = Vec::new();
        let lbl_l = slice_subrange(self.rand_lbls.as_slice(), 0, n);
        let lbl_r = slice_subrange(self.rand_lbls.as_slice(), n, 2 * n);
        let ghost rs = elts(self.rands());
        proof {
            law_line_ends(rs, n as nat);
            assert(elts(lbl_l@) =~= line_points(rs, 0, n as nat));
            assert(elts(lbl_r@) =~= line_points(rs, 1, n as nat));
            lemma_small_mod(0, p() as nat);
            lemma_small_mod(1, p() as nat);
        }
        vals.push((Zp::new(0), self.circuit.mle_gate_val(lbl_l)));
        vals.push((Zp::new(1), self.circuit.mle_gate_val(lbl_r)));
        let mut i: usize = 2;
        while i < n + 1
            invariant
                self.wf(),
                self.rands().len() == 2 * self.label_bits(),
                n == self.label_bits(),
                rs == elts(self.rands()),
                2 <= i <= n + 1 || (n == 0 && i == 2),
                vals@.len() == i,
                forall|t: int|
                    0 <= t < i ==> {
                        &&& (#[trigger] vals@[t]).0.raw() == t
                        &&& vals@[t].1.raw() == mle_value(
                            self.circ().this_values(),
                            self.label_bits(),
                            line_points(rs, t, self.label_bits()),
                        )
                    },
            decreases n + 1 - i,
        {
            let t = Zp::new(i as u32);
            proof {
                lemma_small_mod(i as nat, p() as nat);
            }
            let curr_gate = interpolate_next_gates(self.rand_lbls.as_slice(), t, n);
            vals.push((t, self.circuit.mle_gate_val(curr_gate.as_slice())));
            i = i + 1;
        }
        proof {
            if n == 0 {
                assert(vals@.len() == 2);
            }
        }
        vals
    }

    /// Round `round` of the sum-check: the round polynomial at 0, 1 and 2.
    /// Records `r` as the round's random value.
    pub fn sum_check(&mut self, round: usize, r: Zp) -> (poly: [Zp; 3])
        requires
            old(self).ready(round as int),
        ensures
            forall|k: int| 0 <= k < 3 ==> #[trigger] poly@[k].raw() == old(self).poly_at(round as int, k),
            final(self).circ() == old(self).circ(),
            final(self).label_bits() == old(self).label_bits(),
            final(self).point() == old(self).point(),
            final(self).rands() == old(self).rands().push(r),
    {
        let mut poly: [Zp; 3] = [Zp::new(0), Zp::new(0), Zp::new(0)];
        let n = self.num_bits;
        let last = self.circuit.get_last_layer();
        let ghost this = self.circ().this_values();
        let ghost z = elts(self.point());
        let ghost rs = elts(self.rands());
        proof {
            lemma_small_mod(0, p() as nat);
            reveal(round_value);
        }
        for i in 0..last.len()
            invariant
                self.ready(round as int),
                n == self.label_bits(),
                last@ == self.circ().layers()[self.circ().layer_index() - 1],
                this == self.circ().this_values(),
                z == elts(self.point()),
                rs == elts(self.rands()),
                forall|k: int|
                    0 <= k < 3 ==> #[trigger] poly@[k].raw() == round_value(
                        last@.take(i as int),
                        this,
                        n as nat,
                        z,
                        rs,
                        round as int,
                        k,
                    ),
        {
            let gate = last[i];
            let conn_gates = gate.get_wiring();
            let s = self.assemble_s(i, conn_gates.0, conn_gates.1);
            proof {
                assert(last@.take(i + 1).drop_last() =~= last@.take(i as int));
                assert(last@.take(i + 1).last() == gate);
            }
            for k in 0..3u32
                invariant
                    self.ready(round as int),
                    n == self.label_bits(),
                    last@ == self.circ().layers()[self.circ().layer_index() - 1],
                    this == self.circ().this_values(),
                    z == elts(self.point()),
                    rs == elts(self.rands()),
                    gate == last@[i as int],
                    last@.take(i + 1).drop_last() == last@.take(i as int),
                    last@.take(i + 1).last() == gate,
                    last@.take(i + 1).len() == i + 1,
                    conn_gates == (gate.wire0(), gate.wire1()),
                    0 <= i < last@.len(),
                    elts(s@) == wiring_label(i as int, gate, n as nat),
                    s@.len() == 3 * n,
                    forall|kk: int|
                        0 <= kk < k ==> #[trigger] poly@[kk].raw() == round_value(
                            last@.take(i + 1),
                            this,
                            n as nat,
                            z,
                            rs,
                            round as int,
                            kk,
                        ),
                    forall|kk: int|
                        k <= kk < 3 ==> #[trigger] poly@[kk].raw() == round_value(
                            last@.take(i as int),
                            this,
                            n as nat,
                            z,
                            rs,
                            round as int,
                            kk,
                        ),
            {
                let ghost prev = poly@[k as int];
                let t = self.gate_poly_term(round, i, gate, s.as_slice(), k);
                proof {
                    reveal(round_value);
                    lemma_round_value_range(last@.take(i as int), this, n as nat, z, rs, round as int, k as int);
                    lemma_small_mod(prev.raw() as nat, p() as nat);
                    lemma_small_mod(t.raw() as nat, p() as nat);
                }
                poly[k as usize] = prev_val(&poly, k) + t;
            }
        }
        proof {
            assert(last@.take(last@.len() as int) =~= last@);
        }
        self.rand_lbls.push(r);
        poly
    }

    /// What gate `i` of the layer above contributes to the polynomial of
    /// round `round` at `k` (see `gate_term`).
    fn gate_poly_term(&self, round: usize, i: usize, gate: Gate, s: &[Zp], k: u32) -> (t: Zp)
        requires
            self.ready(round as int),
            k < 3,
            elts(s@) == wiring_label(i as int, gate, self.label_bits()),
            s@.len() == 3 * self.label_bits(),
        ensures
            t.raw() == gate_term(
                self.circ().this_values(),
                self.label_bits(),
                elts(self.point()),
                elts(self.rands()),
                round as int,
                i as int,
                gate,
                k as int,
            ),
    {
        let n = self.num_bits;
        let conn_gates = gate.get_wiring();
        let ghost this = self.circ().this_values();
        let ghost z = elts(self.point());
        let ghost rs = elts(self.rands());
        let kz = Zp::new(k);
        proof {
            lemma_small_mod(k as nat, p() as nat);
        }
        let u = self.assemble_u(k);
        let term_p = Self::calc_termp(s, u.as_slice());
        let term_l;
        let term_r;
        if round < n {
            let l_lbl = self.assemble_gate_label(self.rand_lbls.as_slice(), kz, conn_gates.0);
            let r_lbl = conn_gates.1;
            term_l = self.circuit.mle_gate_val(l_lbl.as_slice());
            term_r = self.circuit.get_gate_val(r_lbl);
            proof {
                assert(elts(l_lbl@) == left_label(n as nat, rs, round as int, k as int, gate));
                if (r_lbl as int) < this.len() {
                    assert(this[r_lbl as int] == term_r.elt());
                } else {
                    lemma_small_mod(0, p() as nat);
                }
                assert(term_r.elt() == right_value(this, n as nat, rs, round as int, k as int, gate));
            }
        } else {
            let len = self.rand_lbls.len();
            let l_lbl = slice_subrange(self.rand_lbls.as_slice(), 0, n);
            let r_lbl = self.assemble_gate_label(
                slice_subrange(self.rand_lbls.as_slice(), n, len),
                kz,
                conn_gates.1,
            );
            term_l = self.circuit.mle_gate_val(l_lbl);
            term_r = self.circuit.mle_gate_val(r_lbl.as_slice());
            proof {
                assert(elts(l_lbl@) =~= left_label(n as nat, rs, round as int, k as int, gate));
                assert(elts(self.rands()).skip(n as int) =~= elts(self.rands().subrange(n as int, len as int)));
                assert(elts(r_lbl@) =~= rs.skip(n as int) + seq![k as int] + bits_from(
                    gate.wire1() as int,
                    rs.len() - n + 1,
                    n as nat,
                ));
            }
        }
        proof {
            let tp = termp(wiring_label(i as int, gate, n as nat), z + rs + seq![k as int]);
            assert(elts(u@) =~= z + rs + seq![k as int]);
            assert(term_p.raw() == tp);
            lemma_termp_range(wiring_label(i as int, gate, n as nat), z + rs + seq![k as int]);
            lemma_small_mod(term_p.raw() as nat, p() as nat);
            lemma_mod_twice(term_l.raw(), p());
            lemma_mod_twice(term_r.raw(), p());
            lemma_mle_value_range(this, n as nat, left_label(n as nat, rs, round as int, k as int, gate));
            lemma_small_mod(term_l.raw() as nat, p() as nat);
        }
        if gate.is_add() {
            let t = term_p * (term_l + term_r);
            proof {
                lemma_mod_twice(fadd(term_l.elt(), term_r.elt()), p());
            }
            t
        } else {
            let t = term_p * term_l * term_r;
            proof {
                lemma_mod_twice(fmul(term_p.elt(), term_l.elt()), p());
            }
            t
        }
    }

    /// The point of the claim, the random values so far, then `k`.
    fn assemble_u(&self, k: u32) -> (u: Vec<Zp>)
        ensures
            elts(u@) == elts(self.point()) + elts(self.rands()) + seq![k as int % p()],
            u@.len() == self.point().len() + self.rands().len() + 1,
            u@.drop_last() == self.point() + self.rands(),
            u@.last().raw() == k as int % p(),
    {
        let mut u = Vec::new();
        u.extend_from_slice(self.curr_gate.as_slice());
        u.extend_from_slice(self.rand_lbls.as_slice());
        u.push(Zp::new(k));
        proof {
            lemma_mod_twice(k as int, p());
            assert(elts(u@) =~= elts(self.point()) + elts(self.rands()) + seq![k as int % p()]);
            assert(u@.drop_last() =~= self.point() + self.rands());
        }
        u
    }

    /// The bits of `g`, then those of `gl`, then those of `gr`.
    fn assemble_s(&self, g: usize, gl: usize, gr: usize) -> (s: Vec<Zp>)
        requires
            self.label_bits() <= usize::BITS,
        ensures
            s@.len() == 3 * self.label_bits(),
            elts(s@) == bits(g as int, self.label_bits()) + bits(gl as int, self.label_bits())
                + bits(gr as int, self.label_bits()),
            forall|i: int|
                0 <= i < 3 * self.label_bits() ==> #[trigger] s@[i].raw() == (bits(g as int, self.label_bits())
                    + bits(gl as int, self.label_bits()) + bits(gr as int, self.label_bits()))[i],
    {
        let mut s = Vec::new();
        let ghost n = self.label_bits();
        let ghost target = bits(g as int, n) + bits(gl as int, n) + bits(gr as int, n);
        for i in 0..self.num_bits
            invariant
                n == self.label_bits() <= usize::BITS,
                target == bits(g as int, n) + bits(gl as int, n) + bits(gr as int, n),
                s@.len() == i,
                elts(s@) == target.take(i as int),
                forall|k: int| 0 <= k < s@.len() ==> #[trigger] s@[k].raw() == target[k],
        {
            let b = get_bit(g, i);
            s.push(Zp::new(b as u32));
            proof {
                lemma_small_mod(b as nat, p() as nat);
                assert(target[i as int] == b);
                assert(elts(s@) =~= target.take(i + 1));
            }
        }
        for i in 0..self.num_bits
            invariant
                n == self.label_bits() <= usize::BITS,
                target == bits(g as int, n) + bits(gl as int, n) + bits(gr as int, n),
                s@.len() == n + i,
                elts(s@) == target.take(n + i),
                forall|k: int| 0 <= k < s@.len() ==> #[trigger] s@[k].raw() == target[k],
        {
            let b = get_bit(gl, i);
            s.push(Zp::new(b as u32));
            proof {
                lemma_small_mod(b as nat, p() as nat);
                assert(target[n + i] == b);
                assert(elts(s@) =~= target.take(n + i + 1));
            }
        }
        for i in 0..self.num_bits
            invariant
                n == self.label_bits() <= usize::BITS,
                target == bits(g as int, n) + bits(gl as int, n) + bits(gr as int, n),
                s@.len() == 2 * n + i,
                elts(s@) == target.take(2 * n + i),
                forall|k: int| 0 <= k < s@.len() ==> #[trigger] s@[k].raw() == target[k],
        {
            let b = get_bit(gr, i);
            s.push(Zp::new(b as u32));
            proof {
                lemma_small_mod(b as nat, p() as nat);
                assert(target[2 * n + i] == b);
                assert(elts(s@) =~= target.take(2 * n + i + 1));
            }
        }
        proof {
            assert(target.take(3 * n as int) =~= target);
        }
        s
    }

    /// `r`, then `k`, then the bits of `g` from position `r.len() + 1` on.
    fn assemble_gate_label(&self, r: &[Zp], k: Zp, g: usize) -> (label_vec: Vec<Zp>)
        requires
            self.label_bits() <= usize::BITS,
            r@.len() <= 2 * self.label_bits(),
        ensures
            elts(label_vec@) == elts(r@) + seq![k.elt()] + bits_from(g as int, r@.len() + 1 as int, self.label_bits()),
            label_vec@.len() == r@.len() + 1 + bits_from(g as int, r@.len() + 1 as int, self.label_bits()).len(),
            label_vec@.take(r@.len() + 1 as int) == r@.push(k),
            forall|i: int|
                r@.len() + 1 <= i < label_vec@.len() ==> #[trigger] label_vec@[i].raw() == bits_from(
                    g as int,
                    r@.len() + 1 as int,
                    self.label_bits(),
                )[i - r@.len() - 1],
    {
        let mut label_vec = Vec::new();
        label_vec.extend_from_slice(r);
        label_vec.push(k);
        let ghost n = self.label_bits();
        let ghost from = r@.len() + 1;
        let ghost target = elts(r@) + seq![k.elt()] + bits_from(g as int, from as int, n);
        let ghost bf = bits_from(g as int, from as int, n);
        proof {
            assert(elts(label_vec@) =~= target.take(from as int));
            assert(label_vec@ =~= r@.push(k));
        }
        let mut i = r.len() + 1;
        while i < self.num_bits
            invariant
                n == self.label_bits() <= usize::BITS,
                from == r@.len() + 1,
                target == elts(r@) + seq![k.elt()] + bits_from(g as int, from as int, n),
                from <= i,
                i <= n || i == from,
                label_vec@.len() == i,
                elts(label_vec@) == target.take(i as int),
                bf == bits_from(g as int, from as int, n),
                label_vec@.take(from as int) == r@.push(k),
                forall|j: int| from <= j < i ==> #[trigger] label_vec@[j].raw() == bf[j - from],
            decreases self.num_bits - i,
        {
            let b = get_bit(g, i);
            let ghost before = label_vec@;
            label_vec.push(Zp::new(b as u32));
            proof {
                lemma_small_mod(b as nat, p() as nat);
                assert(target[i as int] == b);
                assert(elts(label_vec@) =~= target.take(i + 1));
                assert(label_vec@.take(from as int) =~= before.take(from as int));
                assert(bf[i - from] == b);
            }
            i = i + 1;
        }
        proof {
            assert(target.take(i as int) =~= target);
        }
        label_vec
    }

    /// The product over the entries of `u` of `x(s[i], u[i])`.
    fn calc_termp(s: &[Zp], u: &[Zp]) -> (term_p: Zp)
        requires
            s@.len() >= u@.len(),
        ensures
            term_p.raw() == termp(elts(s@), elts(u@)),
    {
        let mut term_p = Zp::new(1);
        proof {
            lemma_small_mod(1, p() as nat);
        }
        for i in 0..u.len()
            invariant
                s@.len() >= u@.len(),
                term_p.raw() == termp(elts(s@), elts(u@.take(i as int))),
        {
            let xi = Self::x(s[i], u[i]);
            proof {
                let ut = elts(u@.take(i + 1));
                assert(ut.drop_last() =~= elts(u@.take(i as int)));
                lemma_mod_twice(xi.raw(), p());
                lemma_termp_range(elts(s@), elts(u@.take(i as int)));
                lemma_small_mod(term_p.raw() as nat, p() as nat);
            }
            term_p = term_p * xi;
        }
        proof {
            assert(u@.take(u@.len() as int) =~= u@);
        }
        term_p
    }

    /// `u` where `s` is 1, and `1 - u` elsewhere.
    fn x(s: Zp, u: Zp) -> (r: Zp)
        ensures
            r.elt() == select(s.elt() == 1, u.elt()),
    {
        proof {
            use_type_invariant(&s);
            use_type_invariant(&u);
            lemma_mod_twice(u.raw(), p());
            if s.raw() == p() {
                lemma_mod_self_0(p());
            } else {
                lemma_small_mod(s.raw() as nat, p() as nat);
            }
        }
        if s.eq(&1u32) {
            u
        } else {
            let one = Zp::new(1);
            proof {
                lemma_small_mod(1, p() as nat);
            }
            let neg = u.neg();
            let r = neg + one;
            proof {
                lemma_mod_twice(fadd(neg.elt(), 1), p());
            }
            r
        }
    }
}

/// The entry `k` of `poly`.
fn prev_val(poly: &[Zp; 3], k: u32) -> (r: Zp)
    requires
        k < 3,
    ensures
        r == poly@[k as int],
{
    poly[k as usize]
}

/// The lines through the two halves of a label pass through the first half
/// at 0 and through the second half at 1.
pub proof fn law_line_ends(rs: Seq<int>, n: nat)
    requires
        rs.len() == 2 * n,
        forall|i: int| 0 <= i < rs.len() ==> 0 <= #[trigger] rs[i] < p(),
    ensures
        forall|i: int| 0 <= i < n ==> #[trigger] line_points(rs, 0, n)[i] == rs[i],
        forall|i: int| 0 <= i < n ==> #[trigger] line_points(rs, 1, n)[i] == rs[n + i],
{
    assert forall|i: int| 0 <= i < n implies #[trigger] line_points(rs, 0, n)[i] == rs[i] by {
        lemma_small_mod(0, p() as nat);
        lemma_small_mod(rs[i] as nat, p() as nat);
    }
    assert forall|i: int| 0 <= i < n implies #[trigger] line_points(rs, 1, n)[i] == rs[n + i] by {
        let l = rs[i];
        let r = rs[n + i];
        let d = (r - l) % p();
        lemma_mod_bound(r - l, p());
        lemma_small_mod(d as nat, p() as nat);
        lemma_add_mod_noop(d, l, p());
        lemma_small_mod(l as nat, p() as nat);
        lemma_add_mod_noop(r - l, l, p());
        lemma_small_mod(r as nat, p() as nat);
    }
}

} // verus!
