//! The verifier's side of the layer-by-layer sum-check protocol.
use crate::arith_circuit::{
    lemma_mle_value_range, mle_value, mle_wiring_value, values, ArithCircuit, Gate, GateLbl,
};
use crate::field::{fadd, fmul, group_zp_ops, p, Zp};
use crate::math_helper::{
    elts, interpolate, interpolate_next_gates, lagrange_sum, lemma_lagrange_sum_range, line_points,
    xs_of, ys_of,
};
use crate::prover::{lemma_round_value_range, round_value, Prover};
use crate::completeness::{fits_labels, in_field, law_protocol_complete};
use vstd::arithmetic::div_mod::*;
use vstd::prelude::*;
use vstd::slice::slice_subrange;

verus! {

broadcast use group_zp_ops;

// ---------------------------------------------------------------------------
// Specifications of a run of the protocol
// ---------------------------------------------------------------------------

/// The value at `r` of the polynomial through `(0, p0)`, `(1, p1)`, `(2, p2)`.
#[verifier::opaque]
pub open spec fn interp3(p0: int, p1: int, p2: int, r: int) -> int {
    lagrange_sum(seq![0, 1, 2], seq![p0, p1, p2], r, 3)
}

/// The prover's polynomial of round `j` at `k`, given the round values `rs`.
#[verifier::opaque]
pub open spec fn round_poly(
    above: Seq<Gate>,
    this: Seq<int>,
    n: nat,
    z: Seq<int>,
    rs: Seq<int>,
    j: int,
    k: int,
) -> int {
    round_value(above, this, n, z, rs.take(j), j, k)
}

/// The claim after `j` rounds of the sum-check that starts from `claim0`,
/// or `None` where a round's polynomial did not sum to the claim.
#[verifier::opaque]
pub open spec fn claim_after(
    above: Seq<Gate>,
    this: Seq<int>,
    n: nat,
    z: Seq<int>,
    claim0: int,
    rs: Seq<int>,
    j: nat,
) -> Option<int>
    decreases j,
{
    if j == 0 {
        Some(claim0)
    } else {
        match claim_after(above, this, n, z, claim0, rs, (j - 1) as nat) {
            None => None,
            Some(c) => {
                let q = j - 1;
                let p0 = round_poly(above, this, n, z, rs, q, 0);
                let p1 = round_poly(above, this, n, z, rs, q, 1);
                let p2 = round_poly(above, this, n, z, rs, q, 2);
                if c != fadd(p0, p1) {
                    None
                } else {
                    Some(interp3(p0, p1, p2, rs[q]))
                }
            },
        }
    }
}

/// What the verifier computes itself at the end of a layer's rounds: the
/// wiring extensions at the claim's point and the round values, times the
/// sum and the product of the next layer's extension at the two halves.
pub open spec fn layer_check(above: Seq<Gate>, this: Seq<int>, n: nat, z: Seq<int>, rs: Seq<int>) -> int {
    let x = rs.take(n as int);
    let y = rs.subrange(n as int, 2 * n as int);
    let h0 = mle_value(this, n, x);
    let h1 = mle_value(this, n, y);
    let q = z + x + y;
    fadd(
        fmul(mle_wiring_value(above, n, q, true), fadd(h0, h1)),
        fmul(fmul(mle_wiring_value(above, n, q, false), h0), h1),
    )
}

/// Every round of a layer's sum-check passes, and so does the final check.
pub open spec fn sumcheck_accepts(
    above: Seq<Gate>,
    this: Seq<int>,
    n: nat,
    z: Seq<int>,
    claim0: int,
    rs: Seq<int>,
) -> bool {
    match claim_after(above, this, n, z, claim0, rs, 2 * n) {
        Some(c) => layer_check(above, this, n, z, rs) == c,
        None => false,
    }
}

/// The number of points on the line that the prover evaluates.
pub open spec fn num_line_points(n: nat) -> nat {
    if n == 0 {
        2
    } else {
        n + 1
    }
}

/// The new claim: the polynomial through the points `(t, V(line(t)))`,
/// evaluated at `rn`.
pub open spec fn line_claim(this: Seq<int>, n: nat, rs: Seq<int>, rn: int) -> int {
    let m = num_line_points(n);
    lagrange_sum(
        Seq::new(m, |t: int| t),
        Seq::new(m, |t: int| mle_value(this, n, line_points(rs, t, n))),
        rn,
        m,
    )
}

/// The random values of layer `i` (counted from 1): `2 * n` round values,
/// then the point on the line.
pub open spec fn layer_rands(rnd: Seq<int>, n: nat, i: int) -> Seq<int> {
    rnd.subrange((i - 1) * (2 * n + 1), (i - 1) * (2 * n + 1) + 2 * n)
}

pub open spec fn layer_next(rnd: Seq<int>, n: nat, i: int) -> int {
    rnd[(i - 1) * (2 * n + 1) + 2 * n]
}

/// The protocol accepts from layer `i` on, with claim `claim` at point `z`
/// about layer `i - 1`: each layer's sum-check passes, and in the end the
/// claim is the input layer's extension at the point.
pub open spec fn accepts_from(
    layers: Seq<Seq<Gate>>,
    n: nat,
    z: Seq<int>,
    claim: int,
    rnd: Seq<int>,
    i: int,
) -> bool
    decreases layers.len() - i,
{
    if i >= layers.len() || i < 1 {
        claim == mle_value(values(layers.last()), n, z)
    } else {
        let rs = layer_rands(rnd, n, i);
        let rn = layer_next(rnd, n, i);
        &&& sumcheck_accepts(layers[i - 1], values(layers[i]), n, z, claim, rs)
        &&& accepts_from(
            layers,
            n,
            line_points(rs, rn, n),
            line_claim(values(layers[i]), n, rs, rn),
            rnd,
            i + 1,
        )
    }
}

/// The number of layers, from layer `i` on, whose sum-checks pass before the
/// first that fails (all of them where none fails).
pub open spec fn layers_passed(
    layers: Seq<Seq<Gate>>,
    n: nat,
    z: Seq<int>,
    claim: int,
    rnd: Seq<int>,
    i: int,
) -> nat
    decreases layers.len() - i,
{
    if i >= layers.len() || i < 1 {
        0
    } else {
        let rs = layer_rands(rnd, n, i);
        let rn = layer_next(rnd, n, i);
        if sumcheck_accepts(layers[i - 1], values(layers[i]), n, z, claim, rs) {
            1 + layers_passed(
                layers,
                n,
                line_points(rs, rn, n),
                line_claim(values(layers[i]), n, rs, rn),
                rnd,
                i + 1,
            )
        } else {
            0
        }
    }
}

proof fn lemma_claim_after_none(
    above: Seq<Gate>,
    this: Seq<int>,
    n: nat,
    z: Seq<int>,
    claim0: int,
    rs: Seq<int>,
    j: nat,
    m: nat,
)
    requires
        j <= m,
        claim_after(above, this, n, z, claim0, rs, j) is None,
    ensures
        claim_after(above, this, n, z, claim0, rs, m) is None,
    decreases m - j,
{
    reveal(claim_after);
    if j < m {
        lemma_claim_after_none(above, this, n, z, claim0, rs, j, (m - 1) as nat);
    }
}

proof fn lemma_claim_step(
    above: Seq<Gate>,
    this: Seq<int>,
    n: nat,
    z: Seq<int>,
    claim0: int,
    rs: Seq<int>,
    j: nat,
    c: int,
)
    requires
        claim_after(above, this, n, z, claim0, rs, j) == Some(c),
    ensures
        ({
            let p0 = round_poly(above, this, n, z, rs, j as int, 0);
            let p1 = round_poly(above, this, n, z, rs, j as int, 1);
            let p2 = round_poly(above, this, n, z, rs, j as int, 2);
            claim_after(above, this, n, z, claim0, rs, j + 1) == if c != fadd(p0, p1) {
                None
            } else {
                Some(interp3(p0, p1, p2, rs[j as int]))
            }
        }),
{
    reveal(claim_after);
}

proof fn lemma_claim_after_only_prefix(
    above: Seq<Gate>,
    this: Seq<int>,
    n: nat,
    z: Seq<int>,
    claim0: int,
    rs: Seq<int>,
    rs2: Seq<int>,
    j: nat,
)
    requires
        j <= rs.len(),
        j <= rs2.len(),
        rs.take(j as int) == rs2.take(j as int),
    ensures
        claim_after(above, this, n, z, claim0, rs, j) == claim_after(above, this, n, z, claim0, rs2, j),
    decreases j,
{
    reveal(claim_after);
    reveal(round_poly);
    if j > 0 {
        let q = j - 1;
        assert(rs.take(q) =~= rs.take(j as int).take(q));
        assert(rs2.take(q) =~= rs2.take(j as int).take(q));
        assert(rs[q] == rs.take(j as int)[q]);
        assert(rs2[q] == rs2.take(j as int)[q]);
        lemma_claim_after_only_prefix(above, this, n, z, claim0, rs, rs2, (j - 1) as nat);
    }
}

// ---------------------------------------------------------------------------
// The verifier
// ---------------------------------------------------------------------------

/// The verifier: it holds the prover, the point and value of the current
/// claim, and the random values of the current layer's rounds.
pub struct Verifier {
    prov: Prover,
    num_bits: usize,
    num_layers: usize,
    curr_gate: Vec<Zp>,
    curr_result: Zp,
    rand_lbls: Vec<Zp>,
}

impl Verifier {
    pub closed spec fn prover(self) -> Prover {
        self.prov
    }

    pub closed spec fn label_bits(self) -> nat {
        self.num_bits as nat
    }

    pub closed spec fn layer_count(self) -> nat {
        self.num_layers as nat
    }

    /// The point of the current claim.
    pub closed spec fn point(self) -> Seq<Zp> {
        self.curr_gate@
    }

    /// The value of the current claim.
    pub closed spec fn claim(self) -> Zp {
        self.curr_result
    }

    /// The random values of the current layer's rounds so far.
    pub closed spec fn rands(self) -> Seq<Zp> {
        self.rand_lbls@
    }

    /// The circuit's layers.
    pub open spec fn layers(self) -> Seq<Seq<Gate>> {
        self.prover().circ().layers()
    }

    /// The verifier and the prover agree on the claim's point and on the
    /// random values, and the claim is a canonical representative.
    pub open spec fn wf(self) -> bool {
        &&& self.prover().wf()
        &&& self.label_bits() == self.prover().label_bits()
        &&& self.layer_count() + 1 == self.layers().len()
        &&& self.layer_count() == self.label_bits()
        &&& self.point().len() == self.label_bits()
        &&& elts(self.point()) == elts(self.prover().point())
        &&& self.rands() == self.prover().rands()
        &&& 0 <= self.claim().raw() < p()
    }

    /// Ready to run the protocol: no round played, and the prover at the
    /// layer after the claim's.
    pub open spec fn fresh(self) -> bool {
        &&& self.wf()
        &&& self.rands().len() == 0
        &&& self.prover().circ().layer_index() == 1int % (self.layers().len() as int)
    }

    /// A verifier of the circuit's output layer, at a random point.
    pub fn new(circ: ArithCircuit) -> (v: Verifier)
        requires
            circ.wf(),
            circ.layer_index() == 0,
            circ.label_bits() <= usize::BITS,
            circ.label_bits() + 1 == circ.layers().len(),
        ensures
            v.fresh(),
            v.layers() == circ.layers(),
            v.label_bits() == circ.label_bits(),
            forall|i: int| 0 <= i < v.point().len() ==> 0 <= #[trigger] v.point()[i].raw() < p(),
            v.prover().point() == v.point(),
            v.claim().raw() == mle_value(values(circ.layers()[0]), circ.label_bits(), elts(v.point())),
    {
        let gate = GateLbl::new_rand(circ.num_bits());
        Self::with_start(circ, gate.into_vec())
    }

    /// A verifier of the circuit's output layer, at the point `gate`.
    pub fn with_start(circ: ArithCircuit, gate: Vec<Zp>) -> (v: Verifier)
        requires
            circ.wf(),
            circ.layer_index() == 0,
            circ.label_bits() <= usize::BITS,
            circ.label_bits() + 1 == circ.layers().len(),
            gate@.len() == circ.label_bits(),
        ensures
            v.fresh(),
            v.layers() == circ.layers(),
            v.label_bits() == circ.label_bits(),
            v.point() == gate@,
            v.prover().point() == gate@,
            v.claim().raw() == mle_value(values(circ.layers()[0]), circ.label_bits(), elts(gate@)),
    {
        let num_bits = circ.num_bits();
        let num_layers = circ.num_layers();
        let curr_result = circ.mle_gate_val(gate.as_slice());
        proof {
            lemma_mle_value_range(values(circ.layers()[0]), circ.label_bits(), elts(gate@));
        }
        let start = gate.clone();
        proof {
            assert(start@ =~= gate@);
        }
        let prov = Prover::new(circ, start);
        Verifier {
            prov: prov,
            num_bits: num_bits,
            num_layers: num_layers,
            curr_gate: gate,
            curr_result: curr_result,
            rand_lbls: Vec::new(),
        }
    }

    /// Runs the protocol with random values drawn for every round and
    /// every layer, and says whether the verifier accepts.
    pub fn verify(&mut self) -> (accepted: bool)
        requires
            old(self).fresh(),
        ensures
            exists|rnd: Seq<int>|
                {
                    &&& rnd.len() == old(self).layer_count() * (2 * old(self).label_bits() + 1)
                    &&& in_field(rnd)
                    &&& accepted == accepts_from(
                        old(self).layers(),
                        old(self).label_bits(),
                        elts(old(self).point()),
                        old(self).claim().raw(),
                        rnd,
                        1,
                    )
                    &&& final(self).prover().circ().layer_index() == (1 + layers_passed(
                        old(self).layers(),
                        old(self).label_bits(),
                        elts(old(self).point()),
                        old(self).claim().raw(),
                        rnd,
                        1,
                    ) as int) % (old(self).layers().len() as int)
                },
            final(self).layers() == old(self).layers(),
            fits_labels(old(self).layers(), old(self).label_bits()) && old(self).claim().raw() == mle_value(
                values(old(self).layers()[0]),
                old(self).label_bits(),
                elts(old(self).point()),
            ) ==> accepted,
    {
        proof {
            assert(self.num_layers * (2 * self.num_bits + 1) <= 64 * 129) by (nonlinear_arith)
                requires
                    self.num_layers == self.num_bits,
                    self.num_bits <= 64,
            ;
        }
        let total = self.num_layers * (2 * self.num_bits + 1);
        let mut rnd: Vec<Zp> = Vec::new();
        for i in 0..total
            invariant
                rnd@.len() == i,
        {
            rnd.push(Zp::new_rand());
        }
        let accepted = self.verify_with(rnd.as_slice());
        proof {
            let w = elts(rnd@);
            assert(w.len() == old(self).layer_count() * (2 * old(self).label_bits() + 1));
            assert(accepted == accepts_from(
                old(self).layers(),
                old(self).label_bits(),
                elts(old(self).point()),
                old(self).claim().raw(),
                w,
                1,
            ));
            assert(in_field(w)) by {
                assert forall|j: int| 0 <= j < w.len() implies 0 <= #[trigger] w[j] < p() by {
                    lemma_mod_bound(rnd@[j].raw(), p());
                }
            }
            let z = elts(old(self).point());
            assert(in_field(z)) by {
                assert forall|j: int| 0 <= j < z.len() implies 0 <= #[trigger] z[j] < p() by {
                    lemma_mod_bound(old(self).point()[j].raw(), p());
                }
            }
            if fits_labels(old(self).layers(), old(self).label_bits()) && old(self).claim().raw()
                == mle_value(values(old(self).layers()[0]), old(self).label_bits(), z) {
                law_protocol_complete(old(self).layers(), old(self).label_bits(), z, w);
            }
        }
        accepted
    }

    /// Runs the protocol with the random values `rnd`: for each layer,
    /// `2 * num_bits` round values, then the point on the line.
    pub fn verify_with(&mut self, rnd: &[Zp]) -> (accepted: bool)
        requires
            old(self).fresh(),
            rnd@.len() == old(self).layer_count() * (2 * old(self).label_bits() + 1),
        ensures
            accepted == accepts_from(
                old(self).layers(),
                old(self).label_bits(),
                elts(old(self).point()),
                old(self).claim().raw(),
                elts(rnd@),
                1,
            ),
            final(self).layers() == old(self).layers(),
            final(self).prover().circ().layer_index() == (1 + layers_passed(
                old(self).layers(),
                old(self).label_bits(),
                elts(old(self).point()),
                old(self).claim().raw(),
                elts(rnd@),
                1,
            ) as int) % (old(self).layers().len() as int),
    {
        let n = self.num_bits;
        let ghost layers = self.layers();
        let ghost all = elts(rnd@);
        let ghost z0 = elts(self.point());
        let ghost c0 = self.claim().raw();
        let mut i: usize = 1;
        while i <= self.num_layers
            invariant
                self.wf(),
                self.layers() == layers,
                layers == old(self).layers(),
                n == old(self).label_bits(),
                z0 == elts(old(self).point()),
                c0 == old(self).claim().raw(),
                n == self.label_bits(),
                self.layer_count() + 1 == layers.len(),
                all == elts(rnd@),
                rnd@.len() == self.layer_count() * (2 * n + 1),
                1 <= i <= self.layer_count() + 1,
                self.rands().len() == 0,
                self.prover().circ().layer_index() == i as int % (layers.len() as int),
                accepts_from(layers, n as nat, z0, c0, all, 1) == accepts_from(
                    layers,
                    n as nat,
                    elts(self.point()),
                    self.claim().raw(),
                    all,
                    i as int,
                ),
                layers_passed(layers, n as nat, z0, c0, all, 1) == (i - 1) + layers_passed(
                    layers,
                    n as nat,
                    elts(self.point()),
                    self.claim().raw(),
                    all,
                    i as int,
                ),
            decreases self.layer_count() + 1 - i,
        {
            proof {
                assert(i as int % (layers.len() as int) == i) by {
                    lemma_small_mod(i as nat, layers.len() as nat);
                }
                assert((i - 1) * (2 * n + 1) + 2 * n + 1 <= self.layer_count() * (2 * n + 1)) by (nonlinear_arith)
                    requires
                        i <= self.layer_count(),
                        i >= 1,
                ;
            }
            proof {
                assert((i - 1) * (2 * n + 1) <= 64 * 129) by (nonlinear_arith)
                    requires
                        i <= n,
                        n <= 64,
                        i >= 1,
                ;
            }
            let base = (i - 1) * (2 * n + 1);
            let rs = slice_subrange(rnd, base, base + 2 * n);
            let ghost z = elts(self.point());
            let ghost c = self.claim().raw();
            proof {
                assert(elts(rs@) =~= layer_rands(all, n as nat, i as int));
            }
            if !self.sum_check(rs) {
                proof {
                    assert((1 + (i - 1)) as int % (layers.len() as int) == i as int % (layers.len() as int));
                }
                return false;
            }
            let all_gate_vals = self.prov.get_all_vals();
            let rand_next = rnd[base + 2 * n];
            let next_gate = interpolate_next_gates(self.rand_lbls.as_slice(), rand_next, n);
            let next_result = interpolate(all_gate_vals.as_slice(), rand_next);
            proof {
                let m = num_line_points(n as nat);
                let this = values(layers[i as int]);
                let rsv = layer_rands(all, n as nat, i as int);
                assert(elts(self.rands()) == rsv);
                assert(xs_of(all_gate_vals@) =~= Seq::new(m, |t: int| t)) by {
                    assert forall|t: int| 0 <= t < m implies #[trigger] xs_of(all_gate_vals@)[t] == t by {
                        lemma_small_mod(t as nat, p() as nat);
                    }
                }
                assert(ys_of(all_gate_vals@) =~= Seq::new(
                    m,
                    |t: int| mle_value(this, n as nat, line_points(rsv, t, n as nat)),
                )) by {
                    assert forall|t: int| 0 <= t < m implies #[trigger] ys_of(all_gate_vals@)[t]
                        == mle_value(this, n as nat, line_points(rsv, t, n as nat)) by {
                        lemma_mle_value_range(this, n as nat, line_points(rsv, t, n as nat));
                        lemma_small_mod(
                            mle_value(this, n as nat, line_points(rsv, t, n as nat)) as nat,
                            p() as nat,
                        );
                    }
                }
                assert(rand_next.elt() == layer_next(all, n as nat, i as int));
                lemma_lagrange_sum_range(xs_of(all_gate_vals@), ys_of(all_gate_vals@), rand_next.elt(), m);
            }
            self.curr_gate = next_gate;
            self.curr_result = next_result;
            self.prov.next_layer(rand_next);
            self.rand_lbls.clear();
            i = i + 1;
        }
        proof {
            assert(i == layers.len());
        }
        let inputs_val = self.prov.circuit().mle_input_val(self.curr_gate.as_slice());
        proof {
            lemma_mle_value_range(values(layers.last()), n as nat, elts(self.point()));
        }
        self.curr_result == inputs_val
    }

    /// The sum-check of the current layer, with round values `rs`: says
    /// whether every round and the final check pass.
    fn sum_check(&mut self, rs: &[Zp]) -> (ok: bool)
        requires
            old(self).wf(),
            old(self).rands().len() == 0,
            1 <= old(self).prover().circ().layer_index(),
            rs@.len() == 2 * old(self).label_bits(),
        ensures
            ok == sumcheck_accepts(
                old(self).layers()[old(self).prover().circ().layer_index() - 1],
                old(self).prover().circ().this_values(),
                old(self).label_bits(),
                elts(old(self).point()),
                old(self).claim().raw(),
                elts(rs@),
            ),
            ok ==> final(self).wf(),
            ok ==> final(self).rands() == rs@,
            ok ==> final(self).prover().rands() == rs@,
            !ok ==> ({
                let c = old(self).prover().circ();
                let above = c.layers()[c.layer_index() - 1];
                let this = c.this_values();
                let n = old(self).label_bits();
                let z = elts(old(self).point());
                let c0 = old(self).claim().raw();
                let rsv = elts(rs@);
                ||| exists|j: int|
                    0 <= j < 2 * n && claim_after(above, this, n, z, c0, rsv, j as nat) is Some
                        && claim_after(above, this, n, z, c0, rsv, (j + 1) as nat) is None
                        && final(self).rands() == #[trigger] rs@.take(j) && final(self).prover().rands() == rs@.take(
                        j + 1,
                    )
                ||| claim_after(above, this, n, z, c0, rsv, 2 * n) is Some && final(self).rands() == rs@
                    && final(self).prover().rands() == rs@
            }),
            final(self).prover().point() == old(self).prover().point(),
            final(self).prover().circ() == old(self).prover().circ(),
            final(self).layers() == old(self).layers(),
            final(self).prover().circ().layer_index() == old(self).prover().circ().layer_index(),
            final(self).point() == old(self).point(),
            final(self).claim() == old(self).claim(),
            final(self).label_bits() == old(self).label_bits(),
            final(self).layer_count() == old(self).layer_count(),
    {
        let n = self.num_bits;
        let ghost c = self.prov.circ();
        let ghost above = c.layers()[c.layer_index() - 1];
        let ghost this = c.this_values();
        let ghost z = elts(self.point());
        let ghost rsv = elts(rs@);
        let mut result = self.curr_result;
        let mut i: usize = 0;
        proof {
            reveal(claim_after);
        }
        while i < 2 * n
            invariant
                self.wf(),
                n == self.label_bits(),
                rs@.len() == 2 * n,
                rsv == elts(rs@),
                self.prover().circ() == c,
                c == old(self).prover().circ(),
                old(self).label_bits() == n,
                1 <= c.layer_index(),
                above == c.layers()[c.layer_index() - 1],
                this == c.this_values(),
                z == elts(self.point()),
                self.point() == old(self).point(),
                self.claim() == old(self).claim(),
                self.layer_count() == old(self).layer_count(),
                i <= 2 * n,
                self.rands() == rs@.take(i as int),
                self.prover().rands() == rs@.take(i as int),
                self.prover().point() == old(self).prover().point(),
                0 <= result.raw() < p(),
                claim_after(above, this, n as nat, z, old(self).claim().raw(), rsv, i as nat)
                    == Some(result.raw()),
            decreases 2 * n - i,
        {
            let r = rs[i];
            proof {
                assert(elts(self.rands()) =~= rsv.take(i as int));
                assert(rs@.take(i as int).push(r) =~= rs@.take(i + 1));
            }
            let ghost old_result = result.raw();
            let step = self.sum_check_round(i, r, result);
            proof {
                lemma_claim_step(above, this, n as nat, z, old(self).claim().raw(), rsv, i as nat, old_result);
                reveal(round_poly);
                assert(rsv[i as int] == r.elt());
                assert(rsv.take(i as int) == elts(rs@.take(i as int)));
            }
            match step {
                None => {
                    proof {
                        assert(self.rands() == rs@.take(i as int));
                        assert(self.prover().rands() == rs@.take(i + 1));
                        assert(claim_after(above, this, n as nat, z, old(self).claim().raw(), rsv, (i + 1) as nat) is None);
                        lemma_claim_after_none(
                            above,
                            this,
                            n as nat,
                            z,
                            old(self).claim().raw(),
                            rsv,
                            (i + 1) as nat,
                            (2 * n) as nat,
                        );
                    }
                    return false;
                },
                Some(next) => {
                    result = next;
                },
            }
            i = i + 1;
        }
        let a = self.sum_calc_next_result();
        proof {
            assert(rs@.take(2 * n as int) =~= rs@);
            assert(elts(self.rands()) == rsv);
            assert(self.prover().rands() == rs@);
            assert(layer_check(above, this, n as nat, z, rsv) == a.raw());
            assert(0 <= a.raw() < p()) by {
                lemma_mod_bound(a.raw(), p());
            }
        }
        a == result
    }

    /// Round `round` of the sum-check with round value `r` and claim
    /// `result`: `None` where the prover's polynomial does not sum to the
    /// claim over 0 and 1, else the polynomial's value at `r`.
    fn sum_check_round(&mut self, round: usize, r: Zp, result: Zp) -> (next: Option<Zp>)
        requires
            old(self).wf(),
            1 <= old(self).prover().circ().layer_index(),
            old(self).rands().len() == round,
            round < 2 * old(self).label_bits(),
            0 <= result.raw() < p(),
        ensures
            ({
                let c = old(self).prover().circ();
                let above = c.layers()[c.layer_index() - 1];
                let this = c.this_values();
                let n = old(self).label_bits();
                let z = elts(old(self).point());
                let rs = elts(old(self).rands());
                let p0 = round_value(above, this, n, z, rs, round as int, 0);
                let p1 = round_value(above, this, n, z, rs, round as int, 1);
                let p2 = round_value(above, this, n, z, rs, round as int, 2);
                &&& next is None <==> result.raw() != fadd(p0, p1)
                &&& next matches Some(v) ==> v.raw() == interp3(p0, p1, p2, r.elt()) && 0 <= v.raw() < p()
            }),
            next is Some ==> final(self).wf(),
            next is Some ==> final(self).rands() == old(self).rands().push(r),
            next is None ==> final(self).rands() == old(self).rands(),
            final(self).prover().rands() == old(self).prover().rands().push(r),
            final(self).prover().point() == old(self).prover().point(),
            final(self).prover().circ() == old(self).prover().circ(),
            final(self).point() == old(self).point(),
            final(self).claim() == old(self).claim(),
            final(self).label_bits() == old(self).label_bits(),
            final(self).layer_count() == old(self).layer_count(),
    {
        let ghost c = self.prov.circ();
        let ghost above = c.layers()[c.layer_index() - 1];
        let ghost this = c.this_values();
        let ghost n = self.label_bits();
        let ghost z = elts(self.point());
        let ghost rs = elts(self.rands());
        proof {
            assert(elts(self.prov.point()).len() == self.prov.point().len());
        }
        let poly = self.prov.sum_check(round, r);
        let p0 = poly[0];
        let p1 = poly[1];
        let p2 = poly[2];
        proof {
            assert(rs == elts(old(self).prover().rands()));
            lemma_round_value_range(above, this, n, z, rs, round as int, 0);
            lemma_round_value_range(above, this, n, z, rs, round as int, 1);
            lemma_round_value_range(above, this, n, z, rs, round as int, 2);
            lemma_small_mod(p0.raw() as nat, p() as nat);
            lemma_small_mod(p1.raw() as nat, p() as nat);
            lemma_small_mod(p2.raw() as nat, p() as nat);
        }
        if result != p0 + p1 {
            return None;
        }
        self.rand_lbls.push(r);
        let pts = vec![(Zp::new(0), p0), (Zp::new(1), p1), (Zp::new(2), p2)];
        proof {
            lemma_small_mod(0, p() as nat);
            lemma_small_mod(1, p() as nat);
            lemma_small_mod(2, p() as nat);
            assert(xs_of(pts@) =~= seq![0int, 1, 2]);
            assert(ys_of(pts@) =~= seq![p0.raw(), p1.raw(), p2.raw()]);
        }
        let next = interpolate(pts.as_slice(), r);
        proof {
            reveal(interp3);
            lemma_lagrange_sum_range(xs_of(pts@), ys_of(pts@), r.elt(), 3);
        }
        Some(next)
    }

    /// What the verifier computes itself at the end of the current layer's
    /// rounds (see `layer_check`).
    fn sum_calc_next_result(&self) -> (a: Zp)
        requires
            self.wf(),
            self.rands().len() == 2 * self.label_bits(),
            1 <= self.prover().circ().layer_index(),
        ensures
            a.raw() == layer_check(
                self.layers()[self.prover().circ().layer_index() - 1],
                self.prover().circ().this_values(),
                self.label_bits(),
                elts(self.point()),
                elts(self.rands()),
            ),
    {
        let n = self.num_bits;
        let lbl_l = slice_subrange(self.rand_lbls.as_slice(), 0, n);
        let lbl_r = slice_subrange(self.rand_lbls.as_slice(), n, 2 * n);
        let circuit = self.prov.circuit();
        let h0 = circuit.mle_gate_val(lbl_l);
        let h1 = circuit.mle_gate_val(lbl_r);
        let wa = circuit.mle_wiring(self.curr_gate.as_slice(), lbl_l, lbl_r, true);
        let wm = circuit.mle_wiring(self.curr_gate.as_slice(), lbl_l, lbl_r, false);
        proof {
            let rsv = elts(self.rands());
            assert(elts(lbl_l@) =~= rsv.take(n as int));
            assert(elts(lbl_r@) =~= rsv.subrange(n as int, 2 * n as int));
            lemma_mle_value_range(circuit.this_values(), n as nat, elts(lbl_l@));
            lemma_mle_value_range(circuit.this_values(), n as nat, elts(lbl_r@));
            lemma_small_mod(h0.raw() as nat, p() as nat);
            lemma_small_mod(h1.raw() as nat, p() as nat);
            lemma_mod_bound(wa.raw(), p());
            lemma_mod_bound(wm.raw(), p());
        }
        let left = wa * (h0 + h1);
        let right = wm * h0 * h1;
        proof {
            lemma_mod_twice(wa.raw(), p());
            lemma_mod_twice(wm.raw(), p());
            lemma_mod_twice(fadd(h0.elt(), h1.elt()), p());
            lemma_mod_twice(fmul(wm.elt(), h0.elt()), p());
            lemma_mod_twice(left.raw(), p());
            lemma_mod_twice(right.raw(), p());
        }
        left + right
    }
}

} // verus!
