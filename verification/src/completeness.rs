//! Completeness of the layer-by-layer sum-check protocol: where the circuit
//! is evaluated honestly and every layer fits its labels, every round passes
//! and the verifier accepts, whatever the random values.
use crate::arith_circuit::{
    evaluated, gate_output, law_mle_value_on_bits, lemma_mle_value_range, mle_value, mle_wiring_value,
    values, wired, wiring_label, Gate,
};
use crate::field::{fadd, fmul, fneg, fsub, law_add, law_mul, p};
use crate::math_helper::{bit_at, bits, eq_term, lemma_bit_is_bit, line_point, line_points, mle_eq};
use crate::poly::{
    cong, distinct_nodes, lemma_cong_add, lemma_cong_eq, lemma_cong_mod, lemma_cong_mul, lemma_cong_sub,
    lemma_lagrange_exact, lemma_padd, lemma_peval_cons, lemma_pmul_lin, lemma_pscale, padd, peval, pmul_lin,
    pscale,
};
use crate::prover::{bits_from, gate_term, left_label, right_value, round_value, select, termp, value_or_zero};
use crate::sumcheck_verifier::{
    accepts_from, claim_after, interp3, layer_check, layer_next, layer_rands, line_claim, num_line_points,
    round_poly, sumcheck_accepts,
};
use crate::math_helper::lagrange_sum;
use vstd::arithmetic::power2::pow2;
use vstd::arithmetic::div_mod::*;
use vstd::prelude::*;

verus! {

// ---------------------------------------------------------------------------
// Polynomials of degree at most 2 in one variable
// ---------------------------------------------------------------------------

/// The value at `k` of `c.0 + c.1 * k + c.2 * k^2` in the field.
pub open spec fn quad(c: (int, int, int), k: int) -> int {
    (c.0 + c.1 * k + c.2 * k * k) % p()
}

pub open spec fn qadd(c: (int, int, int), d: (int, int, int)) -> (int, int, int) {
    (c.0 + d.0, c.1 + d.1, c.2 + d.2)
}

pub open spec fn qscale(s: int, c: (int, int, int)) -> (int, int, int) {
    (s * c.0, s * c.1, s * c.2)
}

/// The product of two polynomials of degree at most 1.
pub open spec fn lmul(c: (int, int, int), d: (int, int, int)) -> (int, int, int) {
    (c.0 * d.0, c.0 * d.1 + c.1 * d.0, c.1 * d.1)
}

proof fn lemma_quad_const(a: int, k: int)
    ensures
        cong(a, quad((a, 0, 0), k)),
{
    assert(a + 0 * k + 0 * k * k == a) by (nonlinear_arith);
    lemma_cong_mod(a);
}

proof fn lemma_q_add(x: int, y: int, c: (int, int, int), d: (int, int, int), k: int)
    requires
        cong(x, quad(c, k)),
        cong(y, quad(d, k)),
    ensures
        fadd(x, y) == quad(qadd(c, d), k),
{
    let a = c.0 + c.1 * k + c.2 * k * k;
    let b = d.0 + d.1 * k + d.2 * k * k;
    lemma_cong_mod(a);
    lemma_cong_mod(b);
    lemma_cong_add(x, a, y, b);
    let e = qadd(c, d);
    assert(a + b == e.0 + e.1 * k + e.2 * k * k) by (nonlinear_arith)
        requires
            e == qadd(c, d),
            a == c.0 + c.1 * k + c.2 * k * k,
            b == d.0 + d.1 * k + d.2 * k * k,
    ;
    lemma_cong_mod(x + y);
    lemma_cong_mod(a + b);
    lemma_cong_eq(fadd(x, y), quad(e, k));
}

proof fn lemma_q_scale(x: int, s: int, c: (int, int, int), k: int)
    requires
        cong(x, quad(c, k)),
    ensures
        fmul(x, s) == quad(qscale(s, c), k),
        fmul(s, x) == quad(qscale(s, c), k),
{
    let a = c.0 + c.1 * k + c.2 * k * k;
    lemma_cong_mod(a);
    lemma_cong_mul(x, a, s, s);
    lemma_cong_mul(s, s, x, a);
    let e = qscale(s, c);
    assert(a * s == e.0 + e.1 * k + e.2 * k * k && s * a == a * s) by (nonlinear_arith)
        requires
            e == qscale(s, c),
            a == c.0 + c.1 * k + c.2 * k * k,
    ;
    lemma_cong_mod(x * s);
    lemma_cong_mod(s * x);
    lemma_cong_mod(a * s);
    lemma_cong_eq(fmul(x, s), quad(e, k));
    lemma_cong_eq(fmul(s, x), quad(e, k));
}

proof fn lemma_q_mul(x: int, y: int, c: (int, int, int), d: (int, int, int), k: int)
    requires
        c.2 == 0,
        d.2 == 0,
        cong(x, quad(c, k)),
        cong(y, quad(d, k)),
    ensures
        fmul(x, y) == quad(lmul(c, d), k),
{
    let a = c.0 + c.1 * k + c.2 * k * k;
    let b = d.0 + d.1 * k + d.2 * k * k;
    lemma_cong_mod(a);
    lemma_cong_mod(b);
    lemma_cong_mul(x, a, y, b);
    let e = lmul(c, d);
    let (c0, c1, d0, d1) = (c.0, c.1, d.0, d.1);
    assert(a == c0 + c1 * k) by (nonlinear_arith)
        requires
            a == c.0 + c.1 * k + c.2 * k * k,
            c.2 == 0,
            c0 == c.0,
            c1 == c.1,
    ;
    assert(b == d0 + d1 * k) by (nonlinear_arith)
        requires
            b == d.0 + d.1 * k + d.2 * k * k,
            d.2 == 0,
            d0 == d.0,
            d1 == d.1,
    ;
    lemma_expand_lin(c0, c1, d0, d1, k);
    lemma_cong_mod(x * y);
    lemma_cong_mod(a * b);
    lemma_cong_eq(fmul(x, y), quad(e, k));
}

/// `(c0 + c1 k) (d0 + d1 k)` expanded.
proof fn lemma_expand_lin(c0: int, c1: int, d0: int, d1: int, k: int)
    ensures
        (c0 + c1 * k) * (d0 + d1 * k) == c0 * d0 + (c0 * d1 + c1 * d0) * k + c1 * d1 * k * k,
{
    let x = c0 + c1 * k;
    assert(x * (d0 + d1 * k) == x * d0 + x * (d1 * k)) by (nonlinear_arith);
    assert(x * d0 == c0 * d0 + c1 * d0 * k) by (nonlinear_arith)
        requires
            x == c0 + c1 * k,
    ;
    assert(x * (d1 * k) == c0 * d1 * k + c1 * d1 * k * k) by (nonlinear_arith)
        requires
            x == c0 + c1 * k,
    ;
    assert((c0 * d1 + c1 * d0) * k == c0 * d1 * k + c1 * d0 * k) by (nonlinear_arith);
}

/// The coefficients of a polynomial of degree at most 2, as a sequence.
proof fn lemma_quad_poly(c: (int, int, int), k: int)
    ensures
        peval(seq![c.0, c.1, c.2], k) == quad(c, k),
{
    let s = seq![c.0, c.1, c.2];
    lemma_peval_cons(c.0, seq![c.1, c.2], k);
    lemma_peval_cons(c.1, seq![c.2], k);
    lemma_peval_cons(c.2, Seq::<int>::empty(), k);
    assert(seq![c.0] + seq![c.1, c.2] =~= s);
    assert(seq![c.1] + seq![c.2] =~= seq![c.1, c.2]);
    assert(seq![c.2] + Seq::<int>::empty() =~= seq![c.2]);
    assert(peval(Seq::<int>::empty(), k) == 0);
    let v2 = fadd(c.2, fmul(k, 0));
    lemma_cong_mul(k, k, 0, 0);
    lemma_cong_add(c.2, c.2, fmul(k, 0), k * 0);
    let v1 = fadd(c.1, fmul(k, v2));
    lemma_cong_mul(k, k, v2, c.2 + k * 0);
    lemma_cong_add(c.1, c.1, fmul(k, v2), k * (c.2 + k * 0));
    lemma_cong_mul(k, k, v1, c.1 + k * (c.2 + k * 0));
    lemma_cong_add(c.0, c.0, fmul(k, v1), k * (c.1 + k * (c.2 + k * 0)));
    assert(c.0 + k * (c.1 + k * (c.2 + k * 0)) == c.0 + c.1 * k + c.2 * k * k) by (nonlinear_arith);
    lemma_cong_mod(c.0 + c.1 * k + c.2 * k * k);
    lemma_cong_mod(c.0 + fmul(k, v1));
    lemma_cong_eq(peval(s, k), quad(c, k));
}

/// Interpolating a polynomial of degree at most 2 through 0, 1 and 2 gives
/// its value everywhere.
proof fn lemma_interp3_exact(c: (int, int, int), r: int)
    ensures
        interp3(quad(c, 0), quad(c, 1), quad(c, 2), r) == quad(c, r),
{
    reveal(interp3);
    let cs = seq![c.0, c.1, c.2];
    let xs = seq![0int, 1, 2];
    lemma_quad_poly(c, 0);
    lemma_quad_poly(c, 1);
    lemma_quad_poly(c, 2);
    lemma_quad_poly(c, r);
    assert(distinct_nodes(xs)) by {
        assert forall|i: int, j: int|
            0 <= i < xs.len() && 0 <= j < xs.len() && i != j implies #[trigger] (xs[i] % p()) != #[trigger] (
            xs[j] % p()) by {
            lemma_small_mod(xs[i] as nat, p() as nat);
            lemma_small_mod(xs[j] as nat, p() as nat);
        }
    }
    lemma_lagrange_exact(xs, cs, r);
    assert(seq![quad(c, 0), quad(c, 1), quad(c, 2)] =~= Seq::new(3, |j: int| peval(cs, xs[j])));
}


// ---------------------------------------------------------------------------
// The round polynomials have degree at most 2
// ---------------------------------------------------------------------------

/// `eq_term(w, x)` is affine in `x`.
proof fn lemma_eq_term_affine(w: int, x: int)
    ensures
        eq_term(w, x) == quad((1 - w, 2 * w - 1, 0), x),
{
    lemma_cong_mul(x, x, w, w);
    lemma_cong_sub(1, 1, x, x);
    lemma_cong_sub(1, 1, w, w);
    lemma_cong_mul(fsub(1, x), 1 - x, fsub(1, w), 1 - w);
    lemma_cong_add(fmul(x, w), x * w, fmul(fsub(1, x), fsub(1, w)), (1 - x) * (1 - w));
    assert(x * w + (1 - x) * (1 - w) == (1 - w) + (2 * w - 1) * x + 0 * x * x) by (nonlinear_arith);
    lemma_cong_mod(x * w + (1 - x) * (1 - w));
    lemma_cong_eq(eq_term(w, x), quad((1 - w, 2 * w - 1, 0), x));
}

/// `select(b, k)` is affine in `k` on the field.
proof fn lemma_select_affine(b: bool, k: int)
    requires
        0 <= k < p(),
    ensures
        select(b, k) == quad(
            if b {
                (0int, 1int, 0int)
            } else {
                (1int, -1int, 0int)
            },
            k,
        ),
{
    assert(0 + 1 * k + 0 * k * k == k) by (nonlinear_arith);
    assert(1 + (-1) * k + 0 * k * k == 1 - k) by (nonlinear_arith);
    lemma_small_mod(k as nat, p() as nat);
    if !b {
        lemma_cong_mod(0 - k);
        lemma_cong_add(fneg(k), 0 - k, 1, 1);
        lemma_cong_mod(1 - k);
        lemma_cong_eq(select(b, k), (1 - k) % p());
    }
}

/// The multilinear extension of equality is affine in each coordinate.
proof fn lemma_mle_eq_affine(w: Seq<int>, pre: Seq<int>, suf: Seq<int>) -> (c: (int, int, int))
    requires
        w.len() == pre.len() + 1 + suf.len(),
    ensures
        c.2 == 0,
        forall|k: int| #[trigger] mle_eq(w, pre + seq![k] + suf) == quad(c, k),
    decreases w.len(),
{
    let w2 = w.drop_last();
    if suf.len() > 0 {
        let suf2 = suf.drop_last();
        let c2 = lemma_mle_eq_affine(w2, pre, suf2);
        let e = eq_term(w.last(), suf.last());
        assert forall|k: int| #[trigger] mle_eq(w, pre + seq![k] + suf) == quad(qscale(e, c2), k) by {
            let l = pre + seq![k] + suf;
            assert(l.drop_last() =~= pre + seq![k] + suf2);
            assert(l.last() == suf.last());
            let x = mle_eq(w2, pre + seq![k] + suf2);
            assert(x == quad(c2, k));
            lemma_q_scale(x, e, c2, k);
        }
        qscale(e, c2)
    } else {
        let a = mle_eq(w2, pre);
        let lin = (1 - w.last(), 2 * w.last() - 1, 0int);
        assert forall|k: int| #[trigger] mle_eq(w, pre + seq![k] + suf) == quad(qscale(a, lin), k) by {
            let l = pre + seq![k] + suf;
            assert(l.drop_last() =~= pre);
            assert(l.last() == k);
            lemma_eq_term_affine(w.last(), k);
            lemma_q_scale(eq_term(w.last(), k), a, lin, k);
        }
        qscale(a, lin)
    }
}

/// The multilinear extension of a layer's values is affine in each
/// coordinate: with the other coordinates fixed, it is `c.0 + c.1 * k` at
/// `k`.
pub proof fn law_mle_value_affine(vals: Seq<int>, n: nat, pre: Seq<int>, suf: Seq<int>) -> (c: (
    int,
    int,
    int,
))
    requires
        pre.len() + 1 + suf.len() == n,
    ensures
        c.2 == 0,
        forall|k: int| #[trigger] mle_value(vals, n, pre + seq![k] + suf) == quad(c, k),
    decreases vals.len(),
{
    if vals.len() == 0 {
        assert forall|k: int| #[trigger] mle_value(vals, n, pre + seq![k] + suf) == quad(
            (0int, 0int, 0int),
            k,
        ) by {
            assert(0 + 0 * k + 0 * k * k == 0) by (nonlinear_arith);
            lemma_small_mod(0, p() as nat);
        }
        (0, 0, 0)
    } else {
        let prev = vals.drop_last();
        let cp = law_mle_value_affine(prev, n, pre, suf);
        let w = bits(vals.len() - 1, n);
        let ce = lemma_mle_eq_affine(w, pre, suf);
        let v = vals.last();
        assert forall|k: int| #[trigger] mle_value(vals, n, pre + seq![k] + suf) == quad(
            qadd(cp, qscale(v, ce)),
            k,
        ) by {
            let l = pre + seq![k] + suf;
            let e = mle_eq(w, l);
            assert(e == quad(ce, k));
            lemma_q_scale(e, v, ce, k);
            let pv = mle_value(prev, n, l);
            assert(pv == quad(cp, k));
            lemma_q_add(pv, fmul(v, e), cp, qscale(v, ce), k);
        }
        qadd(cp, qscale(v, ce))
    }
}

/// The product-of-selections factor of a gate's term, split at its last
/// coordinate.
proof fn lemma_termp_last(s: Seq<int>, u: Seq<int>, k: int)
    ensures
        termp(s, u + seq![k]) == fmul(termp(s, u), select(s[u.len() as int] == 1, k)),
{
    let l = u + seq![k];
    assert(l.drop_last() =~= u);
    assert(l.last() == k);
}

/// A gate's term in a round is a polynomial of degree at most 2 in the
/// round's variable.
proof fn lemma_gate_term_quad(
    this: Seq<int>,
    n: nat,
    z: Seq<int>,
    rs: Seq<int>,
    round: int,
    i: int,
    g: Gate,
) -> (c: (int, int, int))
    requires
        z.len() == n,
        rs.len() == round,
        0 <= round < 2 * n,
    ensures
        forall|k: int| 0 <= k < p() ==> #[trigger] gate_term(this, n, z, rs, round, i, g, k) == quad(c, k),
{
    let s = wiring_label(i, g, n);
    let u = z + rs;
    let t = termp(s, u);
    let b = s[u.len() as int] == 1;
    let sel = if b {
        (0int, 1int, 0int)
    } else {
        (1int, -1int, 0int)
    };
    let ctp = qscale(t, sel);
    if round < n {
        let suf = bits_from(g.wire0() as int, rs.len() + 1 as int, n);
        let ctl = law_mle_value_affine(this, n, rs, suf);
        let tr = value_or_zero(this, g.wire1() as int);
        let c = if g.adds() {
            lmul(ctp, qadd(ctl, (tr, 0, 0)))
        } else {
            qscale(tr, lmul(ctp, ctl))
        };
        assert forall|k: int| 0 <= k < p() implies #[trigger] gate_term(this, n, z, rs, round, i, g, k)
            == quad(c, k) by {
            lemma_termp_last(s, u, k);
            assert(z + rs + seq![k] == u + seq![k]);
            lemma_select_affine(b, k);
            let tp = termp(s, u + seq![k]);
            lemma_q_scale(select(b, k), t, sel, k);
            let tl = mle_value(this, n, rs + seq![k] + suf);
            assert(left_label(n, rs, round, k, g) == rs + seq![k] + suf);
            assert(tl == quad(ctl, k));
            assert(right_value(this, n, rs, round, k, g) == tr);
            lemma_quad_const(tr, k);
            if g.adds() {
                lemma_q_add(tl, tr, ctl, (tr, 0, 0), k);
                lemma_q_mul(tp, fadd(tl, tr), ctp, qadd(ctl, (tr, 0, 0)), k);
            } else {
                lemma_q_mul(tp, tl, ctp, ctl, k);
                lemma_q_scale(fmul(tp, tl), tr, lmul(ctp, ctl), k);
            }
        }
        c
    } else {
        let pre = rs.skip(n as int);
        let suf = bits_from(g.wire1() as int, rs.len() - n + 1, n);
        let ctr = law_mle_value_affine(this, n, pre, suf);
        let tl = mle_value(this, n, rs.take(n as int));
        let c = if g.adds() {
            lmul(ctp, qadd((tl, 0, 0), ctr))
        } else {
            lmul(qscale(tl, ctp), ctr)
        };
        assert forall|k: int| 0 <= k < p() implies #[trigger] gate_term(this, n, z, rs, round, i, g, k)
            == quad(c, k) by {
            lemma_termp_last(s, u, k);
            assert(z + rs + seq![k] == u + seq![k]);
            lemma_select_affine(b, k);
            let tp = termp(s, u + seq![k]);
            lemma_q_scale(select(b, k), t, sel, k);
            let tr = mle_value(this, n, pre + seq![k] + suf);
            assert(right_value(this, n, rs, round, k, g) == tr);
            assert(tr == quad(ctr, k));
            lemma_quad_const(tl, k);
            if g.adds() {
                lemma_q_add(tl, tr, (tl, 0, 0), ctr, k);
                lemma_q_mul(tp, fadd(tl, tr), ctp, qadd((tl, 0, 0), ctr), k);
            } else {
                lemma_q_scale(tp, tl, ctp, k);
                lemma_q_mul(fmul(tp, tl), tr, qscale(tl, ctp), ctr, k);
            }
        }
        c
    }
}

/// A round's polynomial has degree at most 2 in the round's variable.
proof fn lemma_round_value_quad(
    above: Seq<Gate>,
    this: Seq<int>,
    n: nat,
    z: Seq<int>,
    rs: Seq<int>,
    round: int,
) -> (c: (int, int, int))
    requires
        z.len() == n,
        rs.len() == round,
        0 <= round < 2 * n,
    ensures
        forall|k: int| 0 <= k < p() ==> #[trigger] round_value(above, this, n, z, rs, round, k) == quad(c, k),
    decreases above.len(),
{
    reveal(round_value);
    if above.len() == 0 {
        assert forall|k: int| 0 <= k < p() implies #[trigger] round_value(above, this, n, z, rs, round, k)
            == quad((0int, 0int, 0int), k) by {
            assert(0 + 0 * k + 0 * k * k == 0) by (nonlinear_arith);
            lemma_small_mod(0, p() as nat);
        }
        (0, 0, 0)
    } else {
        let cp = lemma_round_value_quad(above.drop_last(), this, n, z, rs, round);
        let cg = lemma_gate_term_quad(this, n, z, rs, round, above.len() - 1, above.last());
        assert forall|k: int| 0 <= k < p() implies #[trigger] round_value(above, this, n, z, rs, round, k)
            == quad(qadd(cp, cg), k) by {
            let pv = round_value(above.drop_last(), this, n, z, rs, round, k);
            let gv = gate_term(this, n, z, rs, round, above.len() - 1, above.last(), k);
            assert(pv == quad(cp, k));
            assert(gv == quad(cg, k));
            lemma_q_add(pv, gv, cp, cg, k);
        }
        qadd(cp, cg)
    }
}


// ---------------------------------------------------------------------------
// Honest layers
// ---------------------------------------------------------------------------

/// Every entry is a canonical representative of a field element.
pub open spec fn in_field(s: Seq<int>) -> bool {
    forall|i: int| 0 <= i < s.len() ==> 0 <= #[trigger] s[i] < p()
}

/// The layer `above` holds what it computes from the layer `next`, its
/// wires point into `next`, and both layers fit labels of `n` bits.
pub open spec fn honest_step(above: Seq<Gate>, next: Seq<Gate>, n: nat) -> bool {
    &&& above.len() <= pow2(n)
    &&& next.len() <= pow2(n)
    &&& forall|j: int|
        0 <= j < above.len() ==> (#[trigger] above[j]).wire0() < next.len() && above[j].wire1()
            < next.len()
    &&& forall|j: int|
        0 <= j < above.len() ==> (#[trigger] above[j]).value().raw() == gate_output(above[j], next)
}

proof fn lemma_values_in_field(layer: Seq<Gate>)
    ensures
        in_field(values(layer)),
{
    assert forall|i: int| 0 <= i < values(layer).len() implies 0 <= #[trigger] values(layer)[i] < p() by {
        lemma_cong_mod(layer[i].value().raw());
    }
}

/// What a gate computes from its inputs' extensions in a round.
pub open spec fn gate_h(this: Seq<int>, n: nat, rs: Seq<int>, round: int, g: Gate, k: int) -> int {
    let tl = mle_value(this, n, left_label(n, rs, round, k, g));
    let tr = right_value(this, n, rs, round, k, g);
    if g.adds() {
        fadd(tl, tr)
    } else {
        fmul(tl, tr)
    }
}

/// A gate's term is the product of the selections so far, the selection of
/// the round's variable, and what that gate computes.
proof fn lemma_gate_term_split(
    this: Seq<int>,
    n: nat,
    z: Seq<int>,
    rs: Seq<int>,
    round: int,
    i: int,
    g: Gate,
    k: int,
)
    requires
        z.len() == n,
        rs.len() == round,
    ensures
        gate_term(this, n, z, rs, round, i, g, k) == fmul(
            fmul(termp(wiring_label(i, g, n), z + rs), select(wiring_label(i, g, n)[n + round] == 1, k)),
            gate_h(this, n, rs, round, g, k),
        ),
{
    let s = wiring_label(i, g, n);
    lemma_termp_last(s, z + rs, k);
    assert(z + rs + seq![k] == (z + rs) + seq![k]);
    let tp = termp(s, z + rs + seq![k]);
    let tl = mle_value(this, n, left_label(n, rs, round, k, g));
    let tr = right_value(this, n, rs, round, k, g);
    law_mul(tp, tl, tr);
}

/// Summing a term over the round's variable at 0 and 1 picks the term at
/// the selected bit.
proof fn lemma_pick(t: int, b: int, h0: int, h1: int)
    requires
        b == 0 || b == 1,
    ensures
        fadd(fmul(fmul(t, select(b == 1, 0)), h0), fmul(fmul(t, select(b == 1, 1)), h1)) == fmul(
            t,
            if b == 1 {
                h1
            } else {
                h0
            },
        ),
{
    lemma_small_mod(0, p() as nat);
    lemma_small_mod(1, p() as nat);
    assert(fneg(0) == 0);
    assert(fneg(1) == p() - 1) by {
        lemma_mod_add_multiples_vanish(-1, p());
        lemma_small_mod((p() - 1) as nat, p() as nat);
    }
    assert(select(true, 0) == 0 && select(true, 1) == 1);
    assert(select(false, 0) == 1);
    assert(select(false, 1) == 0) by {
        lemma_mod_self_0(p());
    }
    lemma_cong_mod(t);
    lemma_cong_mul(t, t, 1, 1);
    lemma_cong_mul(t, t, 0, 0);
    lemma_cong_mul(fmul(t, 1), t, h0, h0);
    lemma_cong_mul(fmul(t, 1), t, h1, h1);
    lemma_cong_mul(fmul(t, 0), 0, h0, h0);
    lemma_cong_mul(fmul(t, 0), 0, h1, h1);
    lemma_cong_mul(t, t, h0, h0);
    lemma_cong_mul(t, t, h1, h1);
    let v = fmul(t, if b == 1 {
        h1
    } else {
        h0
    });
    lemma_cong_mod(v);
    if b == 1 {
        lemma_cong_add(fmul(fmul(t, 0), h0), 0, fmul(fmul(t, 1), h1), t * h1);
    } else {
        lemma_cong_add(fmul(fmul(t, 1), h0), t * h0, fmul(fmul(t, 0), h1), 0);
    }
    lemma_cong_eq(
        fadd(fmul(fmul(t, select(b == 1, 0)), h0), fmul(fmul(t, select(b == 1, 1)), h1)),
        v,
    );
}

/// The bit of a wiring label at `n + m`: bit `m` of the left input, or bit
/// `m - n` of the right input.
proof fn lemma_wiring_bit(i: int, g: Gate, n: nat, m: int)
    requires
        0 <= m < 2 * n,
    ensures
        wiring_label(i, g, n)[n + m] == if m < n {
            bit_at(g.wire0() as int, m as nat)
        } else {
            bit_at(g.wire1() as int, (m - n) as nat)
        },
        wiring_label(i, g, n)[n + m] == 0 || wiring_label(i, g, n)[n + m] == 1,
{
    lemma_bit_is_bit(g.wire0() as int, m as nat);
    lemma_bit_is_bit(g.wire1() as int, (m - n) as nat);
}

/// The bits of `w` from `m` on are bit `m`, then the bits from `m + 1` on.
proof fn lemma_bits_from_cons(w: int, m: int, n: nat)
    requires
        0 <= m < n,
    ensures
        seq![bit_at(w, m as nat)] + bits_from(w, m + 1, n) == bits_from(w, m, n),
{
    assert(seq![bit_at(w, m as nat)] + bits_from(w, m + 1, n) =~= bits_from(w, m, n));
}

/// One round to the next: the sum over 0 and 1 of a gate's term in round
/// `m` is its term in round `m - 1` at that round's random value.
proof fn lemma_gate_step(this: Seq<int>, n: nat, z: Seq<int>, rs: Seq<int>, m: int, i: int, g: Gate)
    requires
        z.len() == n,
        rs.len() == m,
        1 <= m < 2 * n,
        in_field(this),
        this.len() <= pow2(n),
        g.wire1() < this.len(),
    ensures
        fadd(gate_term(this, n, z, rs, m, i, g, 0), gate_term(this, n, z, rs, m, i, g, 1)) == gate_term(
            this,
            n,
            z,
            rs.drop_last(),
            m - 1,
            i,
            g,
            rs.last(),
        ),
{
    let s = wiring_label(i, g, n);
    let rs2 = rs.drop_last();
    let r = rs.last();
    let t = termp(s, z + rs);
    lemma_gate_term_split(this, n, z, rs, m, i, g, 0);
    lemma_gate_term_split(this, n, z, rs, m, i, g, 1);
    lemma_gate_term_split(this, n, z, rs2, m - 1, i, g, r);
    lemma_termp_last(s, z + rs2, r);
    assert(z + rs2 + seq![r] =~= z + rs);
    assert(rs2 + seq![r] =~= rs);
    lemma_wiring_bit(i, g, n, m);
    let b = s[n + m];
    lemma_pick(t, b, gate_h(this, n, rs, m, g, 0), gate_h(this, n, rs, m, g, 1));
    let w0 = g.wire0() as int;
    let w1 = g.wire1() as int;
    // its output agrees at the selected bit and at `r`
    if m < n {
        lemma_bits_from_cons(w0, m, n);
        assert(left_label(n, rs, m, b, g) =~= left_label(n, rs2, m - 1, r, g));
    } else if m == n {
        assert(left_label(n, rs, m, b, g) =~= left_label(n, rs2, m - 1, r, g));
        let lbl = rs.skip(n as int) + seq![b] + bits_from(w1, rs.len() - n + 1, n);
        lemma_bits_from_cons(w1, 0, n);
        assert(lbl =~= bits(w1, n));
        law_mle_value_on_bits(this, n, w1);
    } else {
        assert(left_label(n, rs, m, b, g) =~= left_label(n, rs2, m - 1, r, g));
        lemma_bits_from_cons(w1, m - n, n);
        assert(rs.skip(n as int) + seq![b] + bits_from(w1, rs.len() - n + 1, n) =~= rs2.skip(n as int)
            + seq![r] + bits_from(w1, rs2.len() - n + 1, n));
    }
    assert(gate_h(this, n, rs, m, g, b) == gate_h(this, n, rs2, m - 1, g, r));
}


/// On a bit, selection is the factor of the multilinear extension of
/// equality.
proof fn lemma_select_eq_term(b: int, x: int)
    requires
        b == 0 || b == 1,
        0 <= x < p(),
    ensures
        select(b == 1, x) == eq_term(b, x),
{
    lemma_select_affine(b == 1, x);
    lemma_eq_term_affine(b, x);
}

/// On bits, the product of selections is the multilinear extension of
/// equality.
proof fn lemma_termp_mle_eq(s: Seq<int>, u: Seq<int>)
    requires
        u.len() <= s.len(),
        in_field(u),
        forall|j: int| 0 <= j < u.len() ==> #[trigger] s[j] == 0 || s[j] == 1,
    ensures
        termp(s, u) == mle_eq(s.take(u.len() as int), u),
    decreases u.len(),
{
    if u.len() > 0 {
        let m = u.len() - 1;
        let u2 = u.drop_last();
        assert(in_field(u2)) by {
            assert forall|i: int| 0 <= i < u2.len() implies 0 <= #[trigger] u2[i] < p() by {
                assert(u2[i] == u[i]);
            }
        }
        lemma_termp_mle_eq(s, u2);
        assert(s.take(u.len() as int).drop_last() =~= s.take(m));
        assert(s[m] == 0 || s[m] == 1);
        lemma_select_eq_term(s[m], u[m]);
        law_mul(termp(s, u2), eq_term(s[m], u[m]), 1);
    }
}

/// The wiring label's entries are bits.
proof fn lemma_wiring_label_bits(i: int, g: Gate, n: nat)
    requires
        i >= 0,
    ensures
        forall|j: int| 0 <= j < 3 * n ==> #[trigger] wiring_label(i, g, n)[j] == 0 || wiring_label(i, g, n)[j] == 1,
        wiring_label(i, g, n).len() == 3 * n,
        wiring_label(i, g, n).take(n as int) == bits(i, n),
{
    let s = wiring_label(i, g, n);
    assert forall|j: int| 0 <= j < 3 * n implies #[trigger] s[j] == 0 || s[j] == 1 by {
        if j < n {
            lemma_bit_is_bit(i, j as nat);
        } else if j < 2 * n {
            lemma_bit_is_bit(g.wire0() as int, (j - n) as nat);
        } else {
            lemma_bit_is_bit(g.wire1() as int, (j - 2 * n) as nat);
        }
    }
    assert(s.take(n as int) =~= bits(i, n));
}

/// The first round: the sum over 0 and 1 of a gate's term is the
/// multilinear extension of equality with its label, times its output.
proof fn lemma_gate_first(this: Seq<int>, n: nat, z: Seq<int>, i: int, g: Gate)
    requires
        z.len() == n,
        n >= 1,
        i >= 0,
        in_field(z),
        in_field(this),
        this.len() <= pow2(n),
        g.wire0() < this.len(),
        g.wire1() < this.len(),
    ensures
        ({
            let a = this[g.wire0() as int];
            let b = this[g.wire1() as int];
            fadd(
                gate_term(this, n, z, Seq::empty(), 0, i, g, 0),
                gate_term(this, n, z, Seq::empty(), 0, i, g, 1),
            ) == fmul(
                mle_eq(bits(i, n), z),
                if g.adds() {
                    fadd(a, b)
                } else {
                    fmul(a, b)
                },
            )
        }),
{
    let s = wiring_label(i, g, n);
    let e = Seq::<int>::empty();
    assert(z + e =~= z);
    let t = termp(s, z);
    lemma_gate_term_split(this, n, z, e, 0, i, g, 0);
    lemma_gate_term_split(this, n, z, e, 0, i, g, 1);
    lemma_wiring_bit(i, g, n, 0);
    let b = s[n as int];
    lemma_pick(t, b, gate_h(this, n, e, 0, g, 0), gate_h(this, n, e, 0, g, 1));
    let w0 = g.wire0() as int;
    let w1 = g.wire1() as int;
    lemma_bits_from_cons(w0, 0, n);
    assert(left_label(n, e, 0, b, g) =~= bits(w0, n));
    law_mle_value_on_bits(this, n, w0);
    lemma_wiring_label_bits(i, g, n);
    lemma_termp_mle_eq(s, z);
}

/// The last round: a gate's term at the last random value is the
/// multilinear extension of equality between its wiring label and the
/// claim's point and the random values, times its output on the two halves.
proof fn lemma_gate_last(this: Seq<int>, n: nat, z: Seq<int>, rs: Seq<int>, i: int, g: Gate)
    requires
        z.len() == n,
        n >= 1,
        i >= 0,
        rs.len() == 2 * n,
        in_field(z),
        in_field(rs),
    ensures
        ({
            let h0 = mle_value(this, n, rs.take(n as int));
            let h1 = mle_value(this, n, rs.subrange(n as int, 2 * n as int));
            gate_term(this, n, z, rs.drop_last(), 2 * n - 1, i, g, rs.last()) == fmul(
                mle_eq(wiring_label(i, g, n), z + rs),
                if g.adds() {
                    fadd(h0, h1)
                } else {
                    fmul(h0, h1)
                },
            )
        }),
{
    let s = wiring_label(i, g, n);
    let rs2 = rs.drop_last();
    let r = rs.last();
    lemma_gate_term_split(this, n, z, rs2, 2 * n - 1, i, g, r);
    lemma_termp_last(s, z + rs2, r);
    assert(z + rs2 + seq![r] =~= z + rs);
    assert(rs2.take(n as int) =~= rs.take(n as int));
    assert(rs2.skip(n as int) + seq![r] + bits_from(g.wire1() as int, rs2.len() - n + 1, n) =~= rs.subrange(
        n as int,
        2 * n as int,
    ));
    lemma_wiring_label_bits(i, g, n);
    assert(in_field(z + rs)) by {
        assert forall|j: int| 0 <= j < (z + rs).len() implies 0 <= #[trigger] (z + rs)[j] < p() by {
            if j < n {
                assert((z + rs)[j] == z[j]);
            } else {
                assert((z + rs)[j] == rs[j - n]);
            }
        }
    }
    lemma_termp_mle_eq(s, z + rs);
    assert(s.take(3 * n as int) =~= s);
}


// ---------------------------------------------------------------------------
// Sums over the gates of a layer
// ---------------------------------------------------------------------------

proof fn lemma_fadd_swap(a: int, b: int, c: int, d: int)
    ensures
        fadd(fadd(a, b), fadd(c, d)) == fadd(fadd(a, c), fadd(b, d)),
{
    lemma_cong_add(a, a, b, b);
    lemma_cong_add(c, c, d, d);
    lemma_cong_add(fadd(a, b), a + b, fadd(c, d), c + d);
    lemma_cong_add(a, a, c, c);
    lemma_cong_add(b, b, d, d);
    lemma_cong_add(fadd(a, c), a + c, fadd(b, d), b + d);
    assert(a + b + (c + d) == a + c + (b + d));
    lemma_cong_mod(a + b + (c + d));
    lemma_cong_eq(fadd(fadd(a, b), fadd(c, d)), fadd(fadd(a, c), fadd(b, d)));
}

/// Adding one gate's term to the sums of the adding and of the multiplying
/// gates' terms.
proof fn lemma_acc(a: int, w: int, e: int, x: int, y: int)
    ensures
        fadd(fadd(fmul(a, x), fmul(w, y)), fmul(e, x)) == fadd(fmul(fadd(a, e), x), fmul(w, y)),
        fadd(fadd(fmul(a, x), fmul(w, y)), fmul(e, y)) == fadd(fmul(a, x), fmul(fadd(w, e), y)),
{
    lemma_cong_mul(a, a, x, x);
    lemma_cong_mul(w, w, y, y);
    lemma_cong_mul(e, e, x, x);
    lemma_cong_mul(e, e, y, y);
    lemma_cong_add(fmul(a, x), a * x, fmul(w, y), w * y);
    lemma_cong_add(fadd(fmul(a, x), fmul(w, y)), a * x + w * y, fmul(e, x), e * x);
    lemma_cong_add(fadd(fmul(a, x), fmul(w, y)), a * x + w * y, fmul(e, y), e * y);
    lemma_cong_add(a, a, e, e);
    lemma_cong_add(w, w, e, e);
    lemma_cong_mul(fadd(a, e), a + e, x, x);
    lemma_cong_mul(fadd(w, e), w + e, y, y);
    lemma_cong_add(fmul(fadd(a, e), x), (a + e) * x, fmul(w, y), w * y);
    lemma_cong_add(fmul(a, x), a * x, fmul(fadd(w, e), y), (w + e) * y);
    assert(a * x + w * y + e * x == (a + e) * x + w * y) by (nonlinear_arith);
    assert(a * x + w * y + e * y == a * x + (w + e) * y) by (nonlinear_arith);
    lemma_cong_mod(a * x + w * y + e * x);
    lemma_cong_mod(a * x + w * y + e * y);
    lemma_cong_eq(
        fadd(fadd(fmul(a, x), fmul(w, y)), fmul(e, x)),
        fadd(fmul(fadd(a, e), x), fmul(w, y)),
    );
    lemma_cong_eq(
        fadd(fadd(fmul(a, x), fmul(w, y)), fmul(e, y)),
        fadd(fmul(a, x), fmul(fadd(w, e), y)),
    );
}

/// One round to the next, summed over the gates of the layer above.
proof fn lemma_round_step(above: Seq<Gate>, this: Seq<int>, n: nat, z: Seq<int>, rs: Seq<int>, m: int)
    requires
        z.len() == n,
        rs.len() == m,
        1 <= m < 2 * n,
        in_field(this),
        this.len() <= pow2(n),
        forall|j: int| 0 <= j < above.len() ==> (#[trigger] above[j]).wire1() < this.len(),
    ensures
        fadd(round_value(above, this, n, z, rs, m, 0), round_value(above, this, n, z, rs, m, 1))
            == round_value(above, this, n, z, rs.drop_last(), m - 1, rs.last()),
    decreases above.len(),
{
    reveal(round_value);
    if above.len() == 0 {
        lemma_small_mod(0, p() as nat);
    } else {
        let prev = above.drop_last();
        assert forall|j: int| 0 <= j < prev.len() implies (#[trigger] prev[j]).wire1() < this.len() by {
            assert(prev[j] == above[j]);
        }
        lemma_round_step(prev, this, n, z, rs, m);
        let i = above.len() - 1;
        let g = above.last();
        assert(g == above[i]);
        lemma_gate_step(this, n, z, rs, m, i, g);
        lemma_fadd_swap(
            round_value(prev, this, n, z, rs, m, 0),
            gate_term(this, n, z, rs, m, i, g, 0),
            round_value(prev, this, n, z, rs, m, 1),
            gate_term(this, n, z, rs, m, i, g, 1),
        );
    }
}

/// The first round, summed over the gates of an honest layer, gives the
/// layer's extension at the claim's point.
proof fn lemma_round_first(above: Seq<Gate>, next: Seq<Gate>, n: nat, z: Seq<int>)
    requires
        honest_step(above, next, n),
        z.len() == n,
        n >= 1,
        in_field(z),
    ensures
        fadd(
            round_value(above, values(next), n, z, Seq::empty(), 0, 0),
            round_value(above, values(next), n, z, Seq::empty(), 0, 1),
        ) == mle_value(values(above), n, z),
    decreases above.len(),
{
    reveal(round_value);
    let this = values(next);
    let e = Seq::<int>::empty();
    if above.len() == 0 {
        lemma_small_mod(0, p() as nat);
    } else {
        let prev = above.drop_last();
        assert(honest_step(prev, next, n)) by {
            assert forall|j: int| 0 <= j < prev.len() implies (#[trigger] prev[j]).wire0() < next.len()
                && prev[j].wire1() < next.len() by {
                assert(prev[j] == above[j]);
            }
            assert forall|j: int| 0 <= j < prev.len() implies (#[trigger] prev[j]).value().raw()
                == gate_output(prev[j], next) by {
                assert(prev[j] == above[j]);
            }
        }
        lemma_round_first(prev, next, n, z);
        let i = above.len() - 1;
        let g = above.last();
        assert(g == above[i]);
        lemma_values_in_field(next);
        lemma_gate_first(this, n, z, i, g);
        assert(values(above).drop_last() =~= values(prev));
        let v = values(above).last();
        assert(v == g.value().raw() % p());
        assert(g.value().raw() == gate_output(g, next));
        lemma_cong_mod(gate_output(g, next));
        lemma_small_mod(gate_output(g, next) as nat, p() as nat);
        let a = this[g.wire0() as int];
        let b = this[g.wire1() as int];
        assert(v == if g.adds() {
            fadd(a, b)
        } else {
            fmul(a, b)
        });
        law_mul(mle_eq(bits(i, n), z), v, 1);
        lemma_fadd_swap(
            round_value(prev, this, n, z, e, 0, 0),
            gate_term(this, n, z, e, 0, i, g, 0),
            round_value(prev, this, n, z, e, 0, 1),
            gate_term(this, n, z, e, 0, i, g, 1),
        );
    }
}

/// The last round's polynomial at the last random value, summed over the
/// gates: the wiring extensions times the sum and the product of the next
/// layer's extension at the two halves.
proof fn lemma_round_last_sum(above: Seq<Gate>, this: Seq<int>, n: nat, z: Seq<int>, rs: Seq<int>)
    requires
        z.len() == n,
        n >= 1,
        rs.len() == 2 * n,
        in_field(z),
        in_field(rs),
    ensures
        ({
            let h0 = mle_value(this, n, rs.take(n as int));
            let h1 = mle_value(this, n, rs.subrange(n as int, 2 * n as int));
            round_value(above, this, n, z, rs.drop_last(), 2 * n - 1, rs.last()) == fadd(
                fmul(mle_wiring_value(above, n, z + rs, true), fadd(h0, h1)),
                fmul(mle_wiring_value(above, n, z + rs, false), fmul(h0, h1)),
            )
        }),
    decreases above.len(),
{
    reveal(round_value);
    let h0 = mle_value(this, n, rs.take(n as int));
    let h1 = mle_value(this, n, rs.subrange(n as int, 2 * n as int));
    let x = fadd(h0, h1);
    let y = fmul(h0, h1);
    let q = z + rs;
    if above.len() == 0 {
        lemma_small_mod(0, p() as nat);
    } else {
        let prev = above.drop_last();
        lemma_round_last_sum(prev, this, n, z, rs);
        let i = above.len() - 1;
        let g = above.last();
        lemma_gate_last(this, n, z, rs, i, g);
        let e = mle_eq(wiring_label(i, g, n), q);
        lemma_acc(mle_wiring_value(prev, n, q, true), mle_wiring_value(prev, n, q, false), e, x, y);
    }
}

/// The last round's polynomial at the last random value is what the
/// verifier computes itself.
proof fn lemma_round_last(above: Seq<Gate>, this: Seq<int>, n: nat, z: Seq<int>, rs: Seq<int>)
    requires
        z.len() == n,
        n >= 1,
        rs.len() == 2 * n,
        in_field(z),
        in_field(rs),
    ensures
        round_value(above, this, n, z, rs.drop_last(), 2 * n - 1, rs.last()) == layer_check(above, this, n, z, rs),
{
    lemma_round_last_sum(above, this, n, z, rs);
    let x = rs.take(n as int);
    let y = rs.subrange(n as int, 2 * n as int);
    assert(z + x + y =~= z + rs);
    let h0 = mle_value(this, n, x);
    let h1 = mle_value(this, n, y);
    law_mul(mle_wiring_value(above, n, z + rs, false), h0, h1);
}


// ---------------------------------------------------------------------------
// One layer's sum-check
// ---------------------------------------------------------------------------

/// The claim after `j` rounds of an honest prover's sum-check: the previous
/// round's polynomial at that round's random value.
pub open spec fn honest_claim(
    above: Seq<Gate>,
    this: Seq<int>,
    n: nat,
    z: Seq<int>,
    claim0: int,
    rs: Seq<int>,
    j: nat,
) -> int {
    if j == 0 {
        claim0
    } else {
        round_value(above, this, n, z, rs.take(j - 1), j - 1, rs[j - 1])
    }
}

proof fn lemma_claims(above: Seq<Gate>, next: Seq<Gate>, n: nat, z: Seq<int>, rs: Seq<int>, j: nat)
    requires
        honest_step(above, next, n),
        n >= 1,
        z.len() == n,
        in_field(z),
        rs.len() == 2 * n,
        in_field(rs),
        j <= 2 * n,
    ensures
        claim_after(above, values(next), n, z, mle_value(values(above), n, z), rs, j) == Some(
            honest_claim(above, values(next), n, z, mle_value(values(above), n, z), rs, j),
        ),
    decreases j,
{
    reveal(claim_after);
    if j > 0 {
        let q = (j - 1) as nat;
        lemma_claims(above, next, n, z, rs, q);
        let this = values(next);
        reveal(round_poly);
        let rq = rs.take(q as int);
        if q == 0 {
            assert(rq =~= Seq::<int>::empty());
            lemma_round_first(above, next, n, z);
        } else {
            assert(rq.drop_last() =~= rs.take(q - 1));
            assert(rq.last() == rs[q - 1]);
            lemma_values_in_field(next);
            assert forall|i: int| 0 <= i < above.len() implies (#[trigger] above[i]).wire1() < this.len() by {
            }
            lemma_round_step(above, this, n, z, rq, q as int);
        }
        let c = lemma_round_value_quad(above, this, n, z, rq, q as int);
        assert(round_value(above, this, n, z, rq, q as int, 0) == quad(c, 0));
        assert(round_value(above, this, n, z, rq, q as int, 1) == quad(c, 1));
        assert(round_value(above, this, n, z, rq, q as int, 2) == quad(c, 2));
        assert(round_value(above, this, n, z, rq, q as int, rs[q as int]) == quad(c, rs[q as int]));
        lemma_interp3_exact(c, rs[q as int]);
    }
}

/// The first round's polynomial of an honest layer sums, over 0 and 1, to
/// the layer's extension at the claim's point.
pub proof fn law_first_round(above: Seq<Gate>, next: Seq<Gate>, n: nat, z: Seq<int>)
    requires
        honest_step(above, next, n),
        n >= 1,
        z.len() == n,
        in_field(z),
    ensures
        fadd(
            round_value(above, values(next), n, z, Seq::empty(), 0, 0),
            round_value(above, values(next), n, z, Seq::empty(), 0, 1),
        ) == mle_value(values(above), n, z),
{
    lemma_round_first(above, next, n, z);
}

/// Each later round agrees with the one before: its polynomial sums, over 0
/// and 1, to the value at that round's random value of the polynomial
/// through the previous round's values at 0, 1 and 2.
pub proof fn law_rounds_agree(above: Seq<Gate>, next: Seq<Gate>, n: nat, z: Seq<int>, rs: Seq<int>, m: int)
    requires
        honest_step(above, next, n),
        z.len() == n,
        rs.len() == m,
        1 <= m < 2 * n,
        0 <= rs.last() < p(),
    ensures
        ({
            let this = values(next);
            let prev = rs.drop_last();
            fadd(round_value(above, this, n, z, rs, m, 0), round_value(above, this, n, z, rs, m, 1))
                == interp3(
                round_value(above, this, n, z, prev, m - 1, 0),
                round_value(above, this, n, z, prev, m - 1, 1),
                round_value(above, this, n, z, prev, m - 1, 2),
                rs.last(),
            )
        }),
{
    let this = values(next);
    let prev = rs.drop_last();
    lemma_values_in_field(next);
    assert forall|i: int| 0 <= i < above.len() implies (#[trigger] above[i]).wire1() < this.len() by {}
    lemma_round_step(above, this, n, z, rs, m);
    let c = lemma_round_value_quad(above, this, n, z, prev, m - 1);
    assert(round_value(above, this, n, z, prev, m - 1, 0) == quad(c, 0));
    assert(round_value(above, this, n, z, prev, m - 1, 1) == quad(c, 1));
    assert(round_value(above, this, n, z, prev, m - 1, 2) == quad(c, 2));
    assert(round_value(above, this, n, z, prev, m - 1, rs.last()) == quad(c, rs.last()));
    lemma_interp3_exact(c, rs.last());
}

/// An honest layer passes its sum-check, whatever the random values: every
/// round's polynomial sums to the claim, and the final check holds.
pub proof fn law_sumcheck_complete(above: Seq<Gate>, next: Seq<Gate>, n: nat, z: Seq<int>, rs: Seq<int>)
    requires
        honest_step(above, next, n),
        z.len() == n,
        in_field(z),
        rs.len() == 2 * n,
        in_field(rs),
    ensures
        sumcheck_accepts(above, values(next), n, z, mle_value(values(above), n, z), rs),
{
    if n == 0 {
        lemma_sumcheck_no_rounds(above, next, z, rs);
    } else {
        lemma_claims(above, next, n, z, rs, 2 * n);
        lemma_round_last(above, values(next), n, z, rs);
        assert(rs.take(2 * n - 1) =~= rs.drop_last());
    }
}

/// With labels of no bits there are no rounds: the final check alone holds.
proof fn lemma_sumcheck_no_rounds(above: Seq<Gate>, next: Seq<Gate>, z: Seq<int>, rs: Seq<int>)
    requires
        honest_step(above, next, 0),
        z.len() == 0,
        rs.len() == 0,
    ensures
        sumcheck_accepts(above, values(next), 0, z, mle_value(values(above), 0, z), rs),
{
    reveal(claim_after);
    let this = values(next);
    let e = Seq::<int>::empty();
    assert(pow2(0) == 1) by {
        vstd::arithmetic::power2::lemma_pow2(0);
        vstd::arithmetic::power::lemma_pow0(2);
    }
    assert(z =~= e && rs =~= e);
    assert(rs.take(0) =~= e && rs.subrange(0, 0) =~= e);
    assert(z + e + e =~= e);
    assert(mle_eq(e, e) == 1);
    lemma_small_mod(0, p() as nat);
    lemma_small_mod(1, p() as nat);
    let c0 = mle_value(values(above), 0, e);
    assert(claim_after(above, this, 0, z, c0, rs, 0) == Some(c0));
    assert(z == e && rs.take(0) == e && rs.subrange(0, 0) == e);
    if above.len() == 0 {
        assert(values(above).len() == 0);
        assert(c0 == 0);
        assert(mle_wiring_value(above, 0, e, true) == 0);
        assert(mle_wiring_value(above, 0, e, false) == 0);
        assert(layer_check(above, this, 0, z, rs) == 0);
    } else {
        let g = above[0];
        assert(above.drop_last() =~= Seq::<Gate>::empty());
        assert(values(above).drop_last() =~= Seq::<int>::empty());
        assert(g.wire0() < next.len() && g.wire1() < next.len());
        assert(g.wire0() == 0 && g.wire1() == 0);
        let x = this[0];
        lemma_values_in_field(next);
        assert(this.drop_last() =~= Seq::<int>::empty());
        assert(this.len() == 1);
        assert(this.last() == x);
        assert(mle_value(this.drop_last(), 0, e) == 0);
        assert(bits(0, 0) =~= e);
        assert(mle_value(this, 0, e) == fadd(0, fmul(x, 1)));
        lemma_small_mod(x as nat, p() as nat);
        let h = mle_value(this, 0, e);
        assert(h == x);
        assert(wiring_label(0, g, 0) =~= e);
        assert(g.value().raw() == gate_output(g, next));
        let v = gate_output(g, next);
        lemma_cong_mod(v);
        lemma_small_mod(v as nat, p() as nat);
        assert(values(above)[0] == v);
        assert(bits(values(above).len() - 1, 0) =~= e);
        assert(c0 == fadd(0, fmul(v, 1)));
        assert(c0 == v);
        assert(above.len() == 1);
        assert(above.last() == g);
        assert(mle_wiring_value(above.drop_last(), 0, e, true) == 0);
        assert(mle_wiring_value(above.drop_last(), 0, e, false) == 0);
        let xx = fadd(x, x);
        let yy = fmul(x, x);
        lemma_cong_mod(xx);
        lemma_cong_mod(yy);
        lemma_small_mod(xx as nat, p() as nat);
        lemma_small_mod(yy as nat, p() as nat);
        if g.adds() {
            assert(mle_wiring_value(above, 0, e, true) == 1);
            assert(mle_wiring_value(above, 0, e, false) == 0);
            assert(fmul(fmul(0, h), h) == 0);
            assert(layer_check(above, this, 0, e, e) == fadd(fmul(1, fadd(h, h)), fmul(fmul(0, h), h)));
            assert(fmul(1, xx) == xx);
            assert(layer_check(above, this, 0, z, rs) == c0);
        } else {
            assert(mle_wiring_value(above, 0, e, true) == 0);
            assert(mle_wiring_value(above, 0, e, false) == 1);
            assert(fmul(1, h) == h);
            assert(layer_check(above, this, 0, e, e) == fadd(fmul(0, fadd(h, h)), fmul(fmul(1, h), h)));
            assert(layer_check(above, this, 0, z, rs) == c0);
        }
    }
}


// ---------------------------------------------------------------------------
// From one layer to the next
// ---------------------------------------------------------------------------

/// The points at `t` on the lines through `ls` (at 0) and `rs` (at 1).
pub open spec fn line(ls: Seq<int>, rs: Seq<int>, m: nat, t: int) -> Seq<int> {
    Seq::new(m, |i: int| line_point(ls[i], rs[i], t))
}

/// Along a line, the multilinear extension of equality is a polynomial with
/// at most `m + 1` coefficients.
proof fn lemma_mle_eq_line(w: Seq<int>, ls: Seq<int>, rs: Seq<int>, m: nat) -> (c: Seq<int>)
    requires
        w.len() == m,
    ensures
        c.len() <= m + 1,
        forall|t: int| #[trigger] mle_eq(w, line(ls, rs, m, t)) == peval(c, t),
    decreases m,
{
    if m == 0 {
        let c = seq![1int];
        assert forall|t: int| #[trigger] mle_eq(w, line(ls, rs, m, t)) == peval(c, t) by {
            lemma_peval_cons(1, Seq::<int>::empty(), t);
            assert(seq![1int] + Seq::<int>::empty() =~= c);
            assert(peval(Seq::<int>::empty(), t) == 0);
            lemma_small_mod(0, p() as nat);
            lemma_small_mod(1, p() as nat);
            assert(t * 0 == 0);
            assert(fmul(t, 0) == 0);
            assert(peval(c, t) == 1);
            assert(w.len() == 0);
            assert(mle_eq(w, line(ls, rs, m, t)) == 1);
        }
        c
    } else {
        let k = (m - 1) as int;
        let w2 = w.drop_last();
        let c2 = lemma_mle_eq_line(w2, ls, rs, (m - 1) as nat);
        let wl = w.last();
        let l = ls[k];
        let r = rs[k];
        let alpha = (1 - wl) + (2 * wl - 1) * l;
        let beta = (2 * wl - 1) * (r - l);
        let c = pmul_lin(c2, alpha, beta);
        assert forall|t: int| #[trigger] mle_eq(w, line(ls, rs, m, t)) == peval(c, t) by {
            let x = line(ls, rs, m, t);
            assert(x.drop_last() =~= line(ls, rs, (m - 1) as nat, t));
            let lp = x.last();
            assert(lp == line_point(l, r, t));
            let pv = peval(c2, t);
            assert(mle_eq(w2, x.drop_last()) == pv);
            lemma_pmul_lin(c2, alpha, beta, t);
            // eq_term(wl, lp) == alpha + beta t
            lemma_eq_term_affine(wl, lp);
            lemma_cong_sub(r, r, l, l);
            lemma_cong_mul(fsub(r, l), r - l, t, t);
            lemma_cong_add(fmul(fsub(r, l), t), (r - l) * t, l, l);
            let lin = 1 - wl + (2 * wl - 1) * lp + 0 * lp * lp;
            lemma_cong_mod(lin);
            lemma_cong_mul(2 * wl - 1, 2 * wl - 1, lp, (r - l) * t + l);
            assert(0 * lp * lp == 0) by (nonlinear_arith);
            lemma_cong_add(1 - wl, 1 - wl, (2 * wl - 1) * lp, (2 * wl - 1) * ((r - l) * t + l));
            assert(1 - wl + (2 * wl - 1) * ((r - l) * t + l) == alpha + beta * t) by (nonlinear_arith)
                requires
                    alpha == (1 - wl) + (2 * wl - 1) * l,
                    beta == (2 * wl - 1) * (r - l),
            ;
            let e = eq_term(wl, lp);
            assert(cong(e, alpha + beta * t));
            lemma_cong_mul(beta, beta, t, t);
            lemma_cong_add(alpha, alpha, fmul(beta, t), beta * t);
            lemma_cong_mul(pv, pv, e, alpha + beta * t);
            lemma_cong_mul(fadd(alpha, fmul(beta, t)), alpha + beta * t, pv, pv);
            assert(pv * (alpha + beta * t) == (alpha + beta * t) * pv) by (nonlinear_arith);
            lemma_cong_mod(pv * e);
            lemma_cong_mod(fadd(alpha, fmul(beta, t)) * pv);
            lemma_cong_eq(fmul(pv, e), fmul(fadd(alpha, fmul(beta, t)), pv));
        }
        lemma_pmul_lin(c2, alpha, beta, 0);
        c
    }
}

/// Along a line, the multilinear extension of a layer's values is a
/// polynomial with at most `n + 1` coefficients.
proof fn lemma_mle_value_line(vals: Seq<int>, n: nat, ls: Seq<int>, rs: Seq<int>) -> (c: Seq<int>)
    ensures
        c.len() <= n + 1,
        forall|t: int| #[trigger] mle_value(vals, n, line(ls, rs, n, t)) == peval(c, t),
    decreases vals.len(),
{
    if vals.len() == 0 {
        let c = Seq::<int>::empty();
        assert forall|t: int| #[trigger] mle_value(vals, n, line(ls, rs, n, t)) == peval(c, t) by {}
        c
    } else {
        let prev = vals.drop_last();
        let cp = lemma_mle_value_line(prev, n, ls, rs);
        let w = bits(vals.len() - 1, n);
        let ce = lemma_mle_eq_line(w, ls, rs, n);
        let v = vals.last();
        let c = padd(cp, pscale(ce, v));
        assert forall|t: int| #[trigger] mle_value(vals, n, line(ls, rs, n, t)) == peval(c, t) by {
            let x = line(ls, rs, n, t);
            assert(mle_eq(w, x) == peval(ce, t));
            assert(mle_value(prev, n, x) == peval(cp, t));
            lemma_pscale(ce, v, t);
            lemma_padd(cp, pscale(ce, v), t);
        }
        lemma_pscale(ce, v, 0);
        lemma_padd(cp, pscale(ce, v), 0);
        c
    }
}

/// The new claim, interpolated through the values of the layer's extension
/// at the points on the line, is the layer's extension at the new point.
pub proof fn law_line_claim(this: Seq<int>, n: nat, rs: Seq<int>, rn: int)
    requires
        n < p(),
        rs.len() == 2 * n,
    ensures
        line_claim(this, n, rs, rn) == mle_value(this, n, line_points(rs, rn, n)),
{
    let m = num_line_points(n);
    let ls = rs;
    let rr = rs.skip(n as int);
    let c = lemma_mle_value_line(this, n, ls, rr);
    let xs = Seq::new(m, |t: int| t);
    assert forall|t: int| #[trigger] line(ls, rr, n, t) == line_points(rs, t, n) by {
        assert(line(ls, rr, n, t) =~= line_points(rs, t, n));
    }
    assert(distinct_nodes(xs)) by {
        assert forall|i: int, j: int|
            0 <= i < xs.len() && 0 <= j < xs.len() && i != j implies #[trigger] (xs[i] % p()) != #[trigger] (
            xs[j] % p()) by {
            lemma_small_mod(i as nat, p() as nat);
            lemma_small_mod(j as nat, p() as nat);
        }
    }
    lemma_lagrange_exact(xs, c, rn);
    assert(Seq::new(m, |t: int| mle_value(this, n, line_points(rs, t, n))) =~= Seq::new(
        xs.len(),
        |j: int| peval(c, xs[j]),
    )) by {
        assert forall|j: int| 0 <= j < m implies mle_value(this, n, line_points(rs, j, n)) == peval(c, xs[j]) by {
            assert(mle_value(this, n, line(ls, rr, n, j)) == peval(c, j));
        }
    }
    assert(mle_value(this, n, line(ls, rr, n, rn)) == peval(c, rn));
}


// ---------------------------------------------------------------------------
// The whole protocol
// ---------------------------------------------------------------------------

/// Every layer of the circuit fits labels of `n` bits.
pub open spec fn fits_labels(layers: Seq<Seq<Gate>>, n: nat) -> bool {
    forall|l: int| 0 <= l < layers.len() ==> #[trigger] layers[l].len() <= pow2(n)
}

proof fn lemma_honest_steps(layers: Seq<Seq<Gate>>, n: nat, l: int)
    requires
        wired(layers),
        evaluated(layers),
        fits_labels(layers, n),
        0 <= l < layers.len() - 1,
    ensures
        honest_step(layers[l], layers[l + 1], n),
{
    reveal(wired);
    reveal(evaluated);
    assert(layers[l].len() <= pow2(n));
    assert(layers[l + 1].len() <= pow2(n));
    assert forall|j: int| 0 <= j < layers[l].len() implies (#[trigger] layers[l][j]).wire0()
        < layers[l + 1].len() && layers[l][j].wire1() < layers[l + 1].len() by {}
    assert forall|j: int| 0 <= j < layers[l].len() implies (#[trigger] layers[l][j]).value().raw()
        == gate_output(layers[l][j], layers[l + 1]) by {}
}

proof fn lemma_accepts_from(layers: Seq<Seq<Gate>>, n: nat, z: Seq<int>, rnd: Seq<int>, i: int)
    requires
        layers.len() == n + 1,
        n < p(),
        wired(layers),
        evaluated(layers),
        fits_labels(layers, n),
        1 <= i <= layers.len(),
        z.len() == n,
        in_field(z),
        rnd.len() == n * (2 * n + 1),
        in_field(rnd),
    ensures
        accepts_from(layers, n, z, mle_value(values(layers[i - 1]), n, z), rnd, i),
    decreases layers.len() - i,
{
    if i < layers.len() {
        let base = (i - 1) * (2 * n + 1);
        assert(0 <= base && base + 2 * n < n * (2 * n + 1)) by (nonlinear_arith)
            requires
                base == (i - 1) * (2 * n + 1),
                1 <= i < n + 1,
        ;
        let rs = layer_rands(rnd, n, i);
        let rn = layer_next(rnd, n, i);
        assert(in_field(rs)) by {
            assert forall|j: int| 0 <= j < rs.len() implies 0 <= #[trigger] rs[j] < p() by {
                assert(rs[j] == rnd[base + j]);
            }
        }
        lemma_honest_steps(layers, n, i - 1);
        law_sumcheck_complete(layers[i - 1], layers[i], n, z, rs);
        let z2 = line_points(rs, rn, n);
        assert(in_field(z2)) by {
            assert forall|j: int| 0 <= j < z2.len() implies 0 <= #[trigger] z2[j] < p() by {
                lemma_cong_mod(fmul(fsub(rs[n + j], rs[j]), rn) + rs[j]);
            }
        }
        law_line_claim(values(layers[i]), n, rs, rn);
        lemma_accepts_from(layers, n, z2, rnd, i + 1);
    }
}

/// Completeness: for an evaluated circuit with one layer of gates per label
/// bit and every layer fitting its labels, the verifier accepts the true
/// claim about the output layer at any point, whatever the random values.
pub proof fn law_protocol_complete(layers: Seq<Seq<Gate>>, n: nat, z: Seq<int>, rnd: Seq<int>)
    requires
        layers.len() == n + 1,
        n < p(),
        wired(layers),
        evaluated(layers),
        fits_labels(layers, n),
        z.len() == n,
        in_field(z),
        rnd.len() == n * (2 * n + 1),
        in_field(rnd),
    ensures
        accepts_from(layers, n, z, mle_value(values(layers[0]), n, z), rnd, 1),
{
    lemma_accepts_from(layers, n, z, rnd, 1);
}


// ---------------------------------------------------------------------------
// The rounds as sums over the Boolean hypercube
// ---------------------------------------------------------------------------

/// The sum of `layer_check` at `pre` followed by every choice of 0 or 1
/// for the last `f` coordinates: the sum over the Boolean hypercube of the
/// polynomial that the sum-check is about.
pub open spec fn hypercube_sum(above: Seq<Gate>, this: Seq<int>, n: nat, z: Seq<int>, pre: Seq<int>, f: nat) -> int
    decreases f,
{
    if f == 0 {
        layer_check(above, this, n, z, pre)
    } else {
        fadd(
            hypercube_sum(above, this, n, z, pre.push(0), (f - 1) as nat),
            hypercube_sum(above, this, n, z, pre.push(1), (f - 1) as nat),
        )
    }
}

/// What a gate computes from the next layer's extension at the two halves
/// of `q`.
spec fn gate_out(this: Seq<int>, n: nat, q: Seq<int>, g: Gate) -> int {
    let h0 = mle_value(this, n, q.take(n as int));
    let h1 = mle_value(this, n, q.subrange(n as int, 2 * n as int));
    if g.adds() {
        fadd(h0, h1)
    } else {
        fmul(h0, h1)
    }
}

/// Over the hypercube, only the wiring bits of a gate count: its term with
/// the last `f` coordinates set to them.
spec fn gates_sum(above: Seq<Gate>, this: Seq<int>, n: nat, z: Seq<int>, pre: Seq<int>, f: nat) -> int
    decreases above.len(),
{
    if above.len() == 0 {
        0
    } else {
        let i = above.len() - 1;
        let s = wiring_label(i, above.last(), n);
        fadd(
            gates_sum(above.drop_last(), this, n, z, pre, f),
            fmul(termp(s, z + pre), gate_out(this, n, pre + s.skip(3 * n - f), above.last())),
        )
    }
}

proof fn lemma_seq_in_field_push(s: Seq<int>, b: int)
    requires
        in_field(s),
        0 <= b < p(),
    ensures
        in_field(s.push(b)),
{
    assert forall|i: int| 0 <= i < s.push(b).len() implies 0 <= #[trigger] s.push(b)[i] < p() by {
        if i < s.len() {
            assert(s.push(b)[i] == s[i]);
        }
    }
}

/// With no free coordinate, the gates' sum is the verifier's own check.
proof fn lemma_gates_sum_base(above: Seq<Gate>, this: Seq<int>, n: nat, z: Seq<int>, q: Seq<int>)
    requires
        z.len() == n,
        q.len() == 2 * n,
        in_field(z),
        in_field(q),
    ensures
        ({
            let h0 = mle_value(this, n, q.take(n as int));
            let h1 = mle_value(this, n, q.subrange(n as int, 2 * n as int));
            gates_sum(above, this, n, z, q, 0) == fadd(
                fmul(mle_wiring_value(above, n, z + q, true), fadd(h0, h1)),
                fmul(mle_wiring_value(above, n, z + q, false), fmul(h0, h1)),
            )
        }),
    decreases above.len(),
{
    let h0 = mle_value(this, n, q.take(n as int));
    let h1 = mle_value(this, n, q.subrange(n as int, 2 * n as int));
    let x = fadd(h0, h1);
    let y = fmul(h0, h1);
    if above.len() == 0 {
        lemma_small_mod(0, p() as nat);
    } else {
        let prev = above.drop_last();
        lemma_gates_sum_base(prev, this, n, z, q);
        let i = above.len() - 1;
        let g = above.last();
        let s = wiring_label(i, g, n);
        lemma_wiring_label_bits(i, g, n);
        assert(s.skip(3 * n - 0) =~= Seq::<int>::empty());
        assert(q + Seq::<int>::empty() =~= q);
        assert(in_field(z + q)) by {
            assert forall|j: int| 0 <= j < (z + q).len() implies 0 <= #[trigger] (z + q)[j] < p() by {
                if j < n {
                    assert((z + q)[j] == z[j]);
                } else {
                    assert((z + q)[j] == q[j - n]);
                }
            }
        }
        lemma_termp_mle_eq(s, z + q);
        assert(s.take(3 * n as int) =~= s);
        let e = mle_eq(s, z + q);
        assert(gate_out(this, n, q, g) == if g.adds() { x } else { y });
        lemma_acc(mle_wiring_value(prev, n, z + q, true), mle_wiring_value(prev, n, z + q, false), e, x, y);
    }
}


/// Summing over one more free coordinate sets it to each gate's wiring bit.
proof fn lemma_gates_sum_step(above: Seq<Gate>, this: Seq<int>, n: nat, z: Seq<int>, pre: Seq<int>, f: nat)
    requires
        z.len() == n,
        pre.len() + f + 1 == 2 * n,
    ensures
        fadd(gates_sum(above, this, n, z, pre.push(0), f), gates_sum(above, this, n, z, pre.push(1), f))
            == gates_sum(above, this, n, z, pre, f + 1),
    decreases above.len(),
{
    if above.len() == 0 {
        lemma_small_mod(0, p() as nat);
    } else {
        let prev = above.drop_last();
        lemma_gates_sum_step(prev, this, n, z, pre, f);
        let i = above.len() - 1;
        let g = above.last();
        let s = wiring_label(i, g, n);
        let t = termp(s, z + pre);
        lemma_wiring_label_bits(i, g, n);
        let b = s[(n + pre.len()) as int];
        assert(b == 0 || b == 1);
        lemma_termp_last(s, z + pre, 0);
        lemma_termp_last(s, z + pre, 1);
        assert(z + pre.push(0) =~= (z + pre) + seq![0int]);
        assert(z + pre.push(1) =~= (z + pre) + seq![1int]);
        let tail = s.skip(3 * n - f);
        let q0 = pre.push(0) + tail;
        let q1 = pre.push(1) + tail;
        lemma_pick(t, b, gate_out(this, n, q0, g), gate_out(this, n, q1, g));
        assert(pre.push(b) + tail =~= pre + s.skip(3 * n - (f + 1)));
        if b == 1 {
            assert(q1 =~= pre + s.skip(3 * n - (f + 1)));
        } else {
            assert(q0 =~= pre + s.skip(3 * n - (f + 1)));
        }
        lemma_fadd_swap(
            gates_sum(prev, this, n, z, pre.push(0), f),
            fmul(termp(s, z + pre.push(0)), gate_out(this, n, q0, g)),
            gates_sum(prev, this, n, z, pre.push(1), f),
            fmul(termp(s, z + pre.push(1)), gate_out(this, n, q1, g)),
        );
    }
}

/// The sum over the hypercube is the sum of the gates' terms at their
/// wiring bits.
proof fn lemma_hypercube_gates(above: Seq<Gate>, this: Seq<int>, n: nat, z: Seq<int>, pre: Seq<int>, f: nat)
    requires
        z.len() == n,
        pre.len() + f == 2 * n,
        in_field(z),
        in_field(pre),
    ensures
        hypercube_sum(above, this, n, z, pre, f) == gates_sum(above, this, n, z, pre, f),
    decreases f,
{
    if f == 0 {
        lemma_gates_sum_base(above, this, n, z, pre);
        let x = pre.take(n as int);
        let y = pre.subrange(n as int, 2 * n as int);
        assert(z + x + y =~= z + pre);
        law_mul(mle_wiring_value(above, n, z + pre, false), mle_value(this, n, x), mle_value(this, n, y));
    } else {
        lemma_small_mod(0, p() as nat);
        lemma_small_mod(1, p() as nat);
        lemma_seq_in_field_push(pre, 0);
        lemma_seq_in_field_push(pre, 1);
        lemma_hypercube_gates(above, this, n, z, pre.push(0), (f - 1) as nat);
        lemma_hypercube_gates(above, this, n, z, pre.push(1), (f - 1) as nat);
        lemma_gates_sum_step(above, this, n, z, pre, (f - 1) as nat);
    }
}


/// A round's polynomial at `k` is the gates' sum with the coordinates after
/// the round's variable free.
proof fn lemma_round_gates(
    above: Seq<Gate>,
    this: Seq<int>,
    n: nat,
    z: Seq<int>,
    rs: Seq<int>,
    round: int,
    k: int,
)
    requires
        z.len() == n,
        rs.len() == round,
        0 <= round < 2 * n,
        in_field(this),
        this.len() <= pow2(n),
        forall|j: int| 0 <= j < above.len() ==> (#[trigger] above[j]).wire1() < this.len(),
    ensures
        round_value(above, this, n, z, rs, round, k) == gates_sum(
            above,
            this,
            n,
            z,
            rs.push(k),
            (2 * n - round - 1) as nat,
        ),
    decreases above.len(),
{
    reveal(round_value);
    let f = (2 * n - round - 1) as nat;
    if above.len() > 0 {
        let prev = above.drop_last();
        assert forall|j: int| 0 <= j < prev.len() implies (#[trigger] prev[j]).wire1() < this.len() by {
            assert(prev[j] == above[j]);
        }
        lemma_round_gates(prev, this, n, z, rs, round, k);
        let i = above.len() - 1;
        let g = above.last();
        assert(g == above[i]);
        let s = wiring_label(i, g, n);
        lemma_gate_term_split(this, n, z, rs, round, i, g, k);
        lemma_termp_last(s, z + rs, k);
        assert(z + rs.push(k) =~= (z + rs) + seq![k]);
        let q = rs.push(k) + s.skip(3 * n - f);
        let w0 = g.wire0() as int;
        let w1 = g.wire1() as int;
        if round < n {
            assert(q.take(n as int) =~= left_label(n, rs, round, k, g));
            assert(q.subrange(n as int, 2 * n as int) =~= bits(w1, n));
            law_mle_value_on_bits(this, n, w1);
        } else {
            assert(q.take(n as int) =~= left_label(n, rs, round, k, g));
            assert(q.subrange(n as int, 2 * n as int) =~= rs.skip(n as int) + seq![k] + bits_from(
                w1,
                rs.len() - n + 1,
                n,
            ));
        }
        assert(gate_h(this, n, rs, round, g, k) == gate_out(this, n, q, g));
    }
}

/// Each round's polynomial is the sum-check's polynomial summed over the
/// Boolean hypercube of the coordinates after the round's variable: for an
/// honest layer, the value at `k` in round `round` is `hypercube_sum` at the
/// point's random values so far, then `k`.
pub proof fn law_round_is_hypercube_sum(
    above: Seq<Gate>,
    next: Seq<Gate>,
    n: nat,
    z: Seq<int>,
    rs: Seq<int>,
    round: int,
    k: int,
)
    requires
        honest_step(above, next, n),
        z.len() == n,
        in_field(z),
        rs.len() == round,
        0 <= round < 2 * n,
        in_field(rs),
        0 <= k < p(),
    ensures
        round_value(above, values(next), n, z, rs, round, k) == hypercube_sum(
            above,
            values(next),
            n,
            z,
            rs.push(k),
            (2 * n - round - 1) as nat,
        ),
{
    let this = values(next);
    lemma_values_in_field(next);
    assert forall|j: int| 0 <= j < above.len() implies (#[trigger] above[j]).wire1() < this.len() by {}
    lemma_round_gates(above, this, n, z, rs, round, k);
    lemma_seq_in_field_push(rs, k);
    lemma_hypercube_gates(above, this, n, z, rs.push(k), (2 * n - round - 1) as nat);
}

} // verus!
