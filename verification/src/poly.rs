//! Polynomials over the field, given by their coefficients (lowest first):
//! evaluation, sums and products, division by a linear factor, the bound on
//! the number of roots, and the exactness of Lagrange interpolation.
use crate::field::{fadd, fdiv, finv, fmul, fneg, fsub, law_div, lemma_inverse_exists, p};
use crate::field::Zp;
use crate::math_helper::{interpolation, lagrange_basis, lagrange_sum, xs_of, ys_of};
use vstd::arithmetic::div_mod::*;
use vstd::prelude::*;

verus! {

// ---------------------------------------------------------------------------
// Congruence modulo the field's order
// ---------------------------------------------------------------------------

/// `a` and `b` stand for the same element of the field.
pub open spec fn cong(a: int, b: int) -> bool {
    a % p() == b % p()
}

pub proof fn lemma_cong_mod(a: int)
    ensures
        cong(a % p(), a),
        0 <= a % p() < p(),
{
    lemma_mod_twice(a, p());
    lemma_mod_bound(a, p());
}

pub proof fn lemma_cong_add(a: int, a2: int, b: int, b2: int)
    requires
        cong(a, a2),
        cong(b, b2),
    ensures
        cong(fadd(a, b), a2 + b2),
        cong(a + b, a2 + b2),
{
    lemma_add_mod_noop(a, b, p());
    lemma_add_mod_noop(a2, b2, p());
    lemma_mod_twice(a + b, p());
}

pub proof fn lemma_cong_sub(a: int, a2: int, b: int, b2: int)
    requires
        cong(a, a2),
        cong(b, b2),
    ensures
        cong(fsub(a, b), a2 - b2),
        cong(a - b, a2 - b2),
{
    lemma_sub_mod_noop(a, b, p());
    lemma_sub_mod_noop(a2, b2, p());
    lemma_mod_twice(a - b, p());
}

pub proof fn lemma_cong_mul(a: int, a2: int, b: int, b2: int)
    requires
        cong(a, a2),
        cong(b, b2),
    ensures
        cong(fmul(a, b), a2 * b2),
        cong(a * b, a2 * b2),
{
    lemma_mul_mod_noop_general(a, b, p());
    lemma_mul_mod_noop_general(a2, b2, p());
    lemma_mod_twice(a * b, p());
}

/// Two canonical representatives of one element are equal.
pub proof fn lemma_cong_eq(a: int, b: int)
    requires
        cong(a, b),
        0 <= a < p(),
        0 <= b < p(),
    ensures
        a == b,
{
    lemma_small_mod(a as nat, p() as nat);
    lemma_small_mod(b as nat, p() as nat);
}

// ---------------------------------------------------------------------------
// Polynomials
// ---------------------------------------------------------------------------

/// The value at `t` of the polynomial with coefficients `c`, by Horner's rule.
pub open spec fn peval(c: Seq<int>, t: int) -> int
    decreases c.len(),
{
    if c.len() == 0 {
        0
    } else {
        fadd(c[0], fmul(t, peval(c.drop_first(), t)))
    }
}

/// Coefficient `i` of `c`, 0 past its end.
pub open spec fn coef(c: Seq<int>, i: int) -> int {
    if 0 <= i < c.len() {
        c[i]
    } else {
        0
    }
}

/// The sum of two polynomials.
pub open spec fn padd(a: Seq<int>, b: Seq<int>) -> Seq<int>
    decreases a.len() + b.len(),
{
    if a.len() == 0 {
        b
    } else if b.len() == 0 {
        a
    } else {
        seq![fadd(a[0], b[0])] + padd(a.drop_first(), b.drop_first())
    }
}

/// The polynomial `c` times the constant `s`.
pub open spec fn pscale(c: Seq<int>, s: int) -> Seq<int> {
    c.map_values(|x: int| fmul(s, x))
}

/// The polynomial `c` times `a + b * t`.
pub open spec fn pmul_lin(c: Seq<int>, a: int, b: int) -> Seq<int>
    decreases c.len(),
{
    if c.len() == 0 {
        c
    } else {
        seq![fmul(a, c[0])] + padd(seq![fmul(b, c[0])], pmul_lin(c.drop_first(), a, b))
    }
}

/// The quotient of `c` by `t - x`.
pub open spec fn sdiv(c: Seq<int>, x: int) -> Seq<int>
    decreases c.len(),
{
    if c.len() <= 1 {
        Seq::empty()
    } else {
        seq![peval(c.drop_first(), x)] + sdiv(c.drop_first(), x)
    }
}

pub proof fn lemma_peval_range(c: Seq<int>, t: int)
    ensures
        0 <= peval(c, t) < p(),
{
    if c.len() > 0 {
        lemma_cong_mod(c[0] + fmul(t, peval(c.drop_first(), t)));
    }
}

/// Evaluation of a polynomial with a leading coefficient `s` prepended.
pub proof fn lemma_peval_cons(s: int, c: Seq<int>, t: int)
    ensures
        peval(seq![s] + c, t) == fadd(s, fmul(t, peval(c, t))),
{
    assert((seq![s] + c).drop_first() =~= c);
}

pub proof fn lemma_padd(a: Seq<int>, b: Seq<int>, t: int)
    ensures
        peval(padd(a, b), t) == fadd(peval(a, t), peval(b, t)),
        padd(a, b).len() == if a.len() >= b.len() {
            a.len()
        } else {
            b.len()
        },
    decreases a.len() + b.len(),
{
    lemma_peval_range(a, t);
    lemma_peval_range(b, t);
    if a.len() == 0 {
        lemma_small_mod(peval(b, t) as nat, p() as nat);
    } else if b.len() == 0 {
        lemma_small_mod(peval(a, t) as nat, p() as nat);
    } else {
        let a2 = a.drop_first();
        let b2 = b.drop_first();
        lemma_padd(a2, b2, t);
        lemma_peval_cons(fadd(a[0], b[0]), padd(a2, b2), t);
        let x = peval(a2, t);
        let y = peval(b2, t);
        // (a0 + b0) + t (x + y) == (a0 + t x) + (b0 + t y)
        lemma_cong_mod(a[0] + b[0]);
        lemma_cong_mod(x + y);
        lemma_cong_mul(t, t, fadd(x, y), x + y);
        lemma_cong_add(fadd(a[0], b[0]), a[0] + b[0], fmul(t, fadd(x, y)), t * (x + y));
        lemma_cong_mod(t * x);
        lemma_cong_mod(t * y);
        lemma_cong_mul(t, t, x, x);
        lemma_cong_mul(t, t, y, y);
        lemma_cong_add(a[0], a[0], fmul(t, x), t * x);
        lemma_cong_add(b[0], b[0], fmul(t, y), t * y);
        lemma_cong_add(fadd(a[0], fmul(t, x)), a[0] + t * x, fadd(b[0], fmul(t, y)), b[0] + t * y);
        assert(a[0] + b[0] + t * (x + y) == a[0] + t * x + (b[0] + t * y)) by (nonlinear_arith);
        lemma_peval_range(padd(a, b), t);
        lemma_cong_eq(peval(padd(a, b), t), fadd(peval(a, t), peval(b, t)));
    }
}

pub proof fn lemma_pscale(c: Seq<int>, s: int, t: int)
    ensures
        peval(pscale(c, s), t) == fmul(s, peval(c, t)),
        pscale(c, s).len() == c.len(),
    decreases c.len(),
{
    if c.len() == 0 {
        lemma_small_mod(0, p() as nat);
    } else {
        let c2 = c.drop_first();
        lemma_pscale(c2, s, t);
        assert(pscale(c, s) =~= seq![fmul(s, c[0])] + pscale(c2, s));
        lemma_peval_cons(fmul(s, c[0]), pscale(c2, s), t);
        let x = peval(c2, t);
        // s c0 + t (s x) == s (c0 + t x)
        lemma_cong_mod(s * c[0]);
        lemma_cong_mod(s * x);
        lemma_cong_mul(t, t, fmul(s, x), s * x);
        lemma_cong_add(fmul(s, c[0]), s * c[0], fmul(t, fmul(s, x)), t * (s * x));
        lemma_cong_mod(t * x);
        lemma_cong_mul(t, t, x, x);
        lemma_cong_add(c[0], c[0], fmul(t, x), t * x);
        lemma_cong_mul(s, s, fadd(c[0], fmul(t, x)), c[0] + t * x);
        assert(s * c[0] + t * (s * x) == s * (c[0] + t * x)) by (nonlinear_arith);
        lemma_peval_range(pscale(c, s), t);
        lemma_peval_range(c, t);
        lemma_cong_mod(s * peval(c, t));
        lemma_cong_eq(peval(pscale(c, s), t), fmul(s, peval(c, t)));
    }
}

pub proof fn lemma_pmul_lin(c: Seq<int>, a: int, b: int, t: int)
    ensures
        peval(pmul_lin(c, a, b), t) == fmul(fadd(a, fmul(b, t)), peval(c, t)),
        pmul_lin(c, a, b).len() <= c.len() + 1,
    decreases c.len(),
{
    if c.len() == 0 {
        lemma_small_mod(0, p() as nat);
    } else {
        let c2 = c.drop_first();
        let c0 = c[0];
        lemma_pmul_lin(c2, a, b, t);
        let rest = pmul_lin(c2, a, b);
        lemma_padd(seq![fmul(b, c0)], rest, t);
        lemma_peval_cons(fmul(a, c0), padd(seq![fmul(b, c0)], rest), t);
        assert(seq![fmul(b, c0)].drop_first() =~= Seq::<int>::empty());
        let x = peval(c2, t);
        let l = fadd(a, fmul(b, t));
        // value of `rest` is l * x; value of [b c0] is b c0
        let vr = peval(rest, t);
        let vb = peval(seq![fmul(b, c0)], t);
        lemma_cong_mod(b * t);
        lemma_cong_add(a, a, fmul(b, t), b * t);
        lemma_cong_mul(l, a + b * t, x, x);
        assert(cong(vr, (a + b * t) * x));
        lemma_cong_mod(b * c0);
        lemma_small_mod(0, p() as nat);
        lemma_peval_cons(fmul(b, c0), Seq::<int>::empty(), t);
        assert(seq![fmul(b, c0)] + Seq::<int>::empty() =~= seq![fmul(b, c0)]);
        assert(peval(Seq::<int>::empty(), t) == 0);
        assert(vb == fadd(fmul(b, c0), fmul(t, 0)));
        lemma_cong_add(fmul(b, c0), b * c0, fmul(t, 0), 0);
        lemma_cong_add(vb, b * c0, vr, (a + b * t) * x);
        lemma_cong_mul(t, t, fadd(vb, vr), b * c0 + (a + b * t) * x);
        lemma_cong_mod(a * c0);
        lemma_cong_add(
            fmul(a, c0),
            a * c0,
            fmul(t, fadd(vb, vr)),
            t * (b * c0 + (a + b * t) * x),
        );
        // the other side: l * (c0 + t x)
        lemma_cong_mod(t * x);
        lemma_cong_mul(t, t, x, x);
        lemma_cong_add(c0, c0, fmul(t, x), t * x);
        lemma_cong_mul(l, a + b * t, fadd(c0, fmul(t, x)), c0 + t * x);
        assert(a * c0 + t * (b * c0 + (a + b * t) * x) == (a + b * t) * (c0 + t * x))
            by (nonlinear_arith);
        lemma_peval_range(pmul_lin(c, a, b), t);
        lemma_cong_mod(l * peval(c, t));
        lemma_cong_eq(peval(pmul_lin(c, a, b), t), fmul(l, peval(c, t)));
    }
}

/// Division with remainder by `t - x`: `c(t) == (t - x) * q(t) + c(x)`.
pub proof fn lemma_sdiv(c: Seq<int>, x: int, t: int)
    requires
        c.len() >= 1,
    ensures
        sdiv(c, x).len() == c.len() - 1,
        peval(c, t) == fadd(fmul(fsub(t, x), peval(sdiv(c, x), t)), peval(c, x)),
    decreases c.len(),
{
    let c0 = c[0];
    let c2 = c.drop_first();
    lemma_peval_range(c, t);
    lemma_peval_range(c, x);
    if c.len() == 1 {
        assert(c2.len() == 0);
        assert(peval(c2, t) == 0);
        assert(peval(c2, x) == 0);
        assert(peval(sdiv(c, x), t) == 0);
        lemma_small_mod(0, p() as nat);
        lemma_cong_mod(c0);
        lemma_small_mod(peval(c, x) as nat, p() as nat);
    } else {
        lemma_sdiv(c2, x, t);
        let q2 = sdiv(c2, x);
        let r2 = peval(c2, x);
        let qv2 = peval(q2, t);
        let d = fsub(t, x);
        lemma_peval_cons(r2, q2, t);
        let qv = peval(sdiv(c, x), t);
        assert(qv == fadd(r2, fmul(t, qv2)));
        // c(t) == c0 + t * ((t - x) q2(t) + r2)
        let a = peval(c2, t);
        lemma_cong_sub(t, t, x, x);
        lemma_cong_mul(d, t - x, qv2, qv2);
        lemma_cong_add(fmul(d, qv2), (t - x) * qv2, r2, r2);
        lemma_cong_mul(t, t, a, (t - x) * qv2 + r2);
        lemma_cong_add(c0, c0, fmul(t, a), t * ((t - x) * qv2 + r2));
        // the other side: (t - x) (r2 + t q2(t)) + (c0 + x r2)
        lemma_cong_mul(t, t, qv2, qv2);
        lemma_cong_add(r2, r2, fmul(t, qv2), t * qv2);
        lemma_cong_mul(d, t - x, qv, r2 + t * qv2);
        lemma_cong_mul(x, x, r2, r2);
        lemma_cong_add(c0, c0, fmul(x, r2), x * r2);
        assert(peval(c, x) == fadd(c0, fmul(x, r2)));
        lemma_cong_add(fmul(d, qv), (t - x) * (r2 + t * qv2), peval(c, x), c0 + x * r2);
        assert(c0 + t * ((t - x) * qv2 + r2) == (t - x) * (r2 + t * qv2) + (c0 + x * r2))
            by (nonlinear_arith);
        lemma_cong_mod((t - x) * (r2 + t * qv2) + (c0 + x * r2));
        lemma_cong_mod(fmul(d, qv) + peval(c, x));
        lemma_cong_eq(peval(c, t), fadd(fmul(d, qv), peval(c, x)));
    }
}


// ---------------------------------------------------------------------------
// Roots
// ---------------------------------------------------------------------------

/// The field has no zero divisors.
pub proof fn lemma_no_zero_divisors(a: int, b: int)
    requires
        cong(a * b, 0),
        a % p() != 0,
    ensures
        b % p() == 0,
{
    lemma_inverse_exists(a);
    let x = finv(a);
    assert(cong(x * a, 1)) by {
        assert(x * a == a * x) by (nonlinear_arith);
        lemma_small_mod(1, p() as nat);
    }
    lemma_cong_mul(x * a, 1, b, b);
    lemma_cong_mul(x, x, a * b, 0);
    assert((x * a) * b == x * (a * b)) by (nonlinear_arith);
    lemma_small_mod(0, p() as nat);
}

/// No two of the nodes stand for the same element of the field.
pub open spec fn distinct_nodes(xs: Seq<int>) -> bool {
    forall|i: int, j: int|
        0 <= i < xs.len() && 0 <= j < xs.len() && i != j ==> #[trigger] (xs[i] % p()) != #[trigger] (
        xs[j] % p())
}

/// A polynomial with at most `k` coefficients that vanishes at `k` distinct
/// points vanishes everywhere.
pub proof fn lemma_roots(c: Seq<int>, xs: Seq<int>, t: int)
    requires
        c.len() <= xs.len(),
        distinct_nodes(xs),
        forall|j: int| 0 <= j < xs.len() ==> #[trigger] peval(c, xs[j]) == 0,
    ensures
        peval(c, t) == 0,
    decreases xs.len(),
{
    if c.len() > 0 {
        let m = xs.len() - 1;
        let x = xs[m];
        let q = sdiv(c, x);
        let ys = xs.drop_last();
        assert(peval(c, xs[m]) == 0);
        assert forall|j: int| 0 <= j < ys.len() implies #[trigger] peval(q, ys[j]) == 0 by {
            let y = ys[j];
            assert(y == xs[j]);
            assert(peval(c, xs[j]) == 0);
            lemma_sdiv(c, x, y);
            let d = fsub(y, x);
            let qv = peval(q, y);
            lemma_peval_range(q, y);
            lemma_cong_mod(d * qv);
            lemma_small_mod(fmul(d, qv) as nat, p() as nat);
            assert(fmul(d, qv) == 0);
            assert(d % p() != 0) by {
                lemma_cong_mod(y - x);
                if d % p() == 0 {
                    lemma_cong_sub(y, y, x, x);
                    lemma_sub_mod_noop(y, x, p());
                    lemma_cong_mod(y);
                    lemma_cong_mod(x);
                    lemma_mod_bound(y, p());
                    lemma_mod_bound(x, p());
                    assert((y % p() - x % p()) % p() == 0);
                    lemma_small_mod(0, p() as nat);
                    if y % p() > x % p() {
                        lemma_small_mod((y % p() - x % p()) as nat, p() as nat);
                    } else if y % p() < x % p() {
                        lemma_mod_add_multiples_vanish(y % p() - x % p(), p());
                        lemma_small_mod((y % p() - x % p() + p()) as nat, p() as nat);
                    }
                    assert(xs[j] % p() != xs[m] % p());
                }
            }
            lemma_cong_mod(d * qv);
            lemma_no_zero_divisors(d, qv);
            lemma_small_mod(qv as nat, p() as nat);
        }
        assert forall|i: int, j: int|
            0 <= i < ys.len() && 0 <= j < ys.len() && i != j implies #[trigger] (ys[i] % p())
            != #[trigger] (ys[j] % p()) by {
            assert(ys[i] == xs[i] && ys[j] == xs[j]);
        }
        lemma_sdiv(c, x, t);
        lemma_roots(q, ys, t);
        lemma_small_mod(0, p() as nat);
    }
}

// ---------------------------------------------------------------------------
// Lagrange interpolation
// ---------------------------------------------------------------------------

/// The coefficients of the product of the first `k` factors of the Lagrange
/// basis polynomial of node `j`.
pub open spec fn lb_poly(xs: Seq<int>, j: int, k: nat) -> Seq<int>
    decreases k,
{
    if k == 0 {
        seq![1]
    } else {
        let i = k - 1;
        let prev = lb_poly(xs, j, (k - 1) as nat);
        if i != j {
            let beta = finv(fsub(xs[j], xs[i]));
            pmul_lin(prev, fmul(fneg(xs[i]), beta), beta)
        } else {
            prev
        }
    }
}

pub proof fn lemma_lb_poly(xs: Seq<int>, j: int, k: nat, t: int)
    ensures
        peval(lb_poly(xs, j, k), t) == lagrange_basis(xs, t, j, k),
        lb_poly(xs, j, k).len() <= k + 1,
        0 <= j < k ==> lb_poly(xs, j, k).len() <= k,
    decreases k,
{
    if k == 0 {
        lemma_peval_cons(1, Seq::<int>::empty(), t);
        assert(seq![1int] + Seq::<int>::empty() =~= seq![1int]);
        assert(peval(Seq::<int>::empty(), t) == 0);
        lemma_small_mod(0, p() as nat);
        lemma_small_mod(1, p() as nat);
    } else {
        let i = k - 1;
        let prev = lb_poly(xs, j, (k - 1) as nat);
        lemma_lb_poly(xs, j, (k - 1) as nat, t);
        if i != j {
            let beta = finv(fsub(xs[j], xs[i]));
            let alpha = fmul(fneg(xs[i]), beta);
            lemma_pmul_lin(prev, alpha, beta, t);
            let pv = peval(prev, t);
            // (alpha + beta t) pv == pv ((t - x_i) beta)
            let xi = xs[i];
            lemma_cong_mod(0 - xi);
            lemma_cong_mul(fneg(xi), 0 - xi, beta, beta);
            lemma_cong_mul(beta, beta, t, t);
            lemma_cong_add(alpha, (0 - xi) * beta, fmul(beta, t), beta * t);
            lemma_cong_mul(fadd(alpha, fmul(beta, t)), (0 - xi) * beta + beta * t, pv, pv);
            lemma_cong_sub(t, t, xi, xi);
            lemma_cong_mul(fsub(t, xi), t - xi, beta, beta);
            lemma_cong_mul(pv, pv, fdiv(fsub(t, xi), fsub(xs[j], xi)), (t - xi) * beta);
            assert(((0 - xi) * beta + beta * t) * pv == pv * ((t - xi) * beta)) by (nonlinear_arith);
            lemma_cong_mod(fadd(alpha, fmul(beta, t)) * pv);
            lemma_cong_mod(pv * fdiv(fsub(t, xi), fsub(xs[j], xi)));
            lemma_cong_eq(
                fmul(fadd(alpha, fmul(beta, t)), pv),
                fmul(pv, fdiv(fsub(t, xi), fsub(xs[j], xi))),
            );
        }
    }
}

/// The coefficients of the Lagrange sum over the first `n` nodes.
pub open spec fn ls_poly(xs: Seq<int>, ys: Seq<int>, n: nat) -> Seq<int>
    decreases n,
{
    if n == 0 {
        Seq::empty()
    } else {
        padd(ls_poly(xs, ys, (n - 1) as nat), pscale(lb_poly(xs, n - 1, xs.len()), ys[n - 1]))
    }
}

pub proof fn lemma_ls_poly(xs: Seq<int>, ys: Seq<int>, n: nat, t: int)
    requires
        n <= xs.len(),
    ensures
        peval(ls_poly(xs, ys, n), t) == lagrange_sum(xs, ys, t, n),
        ls_poly(xs, ys, n).len() <= xs.len(),
    decreases n,
{
    if n > 0 {
        lemma_ls_poly(xs, ys, (n - 1) as nat, t);
        let b = lb_poly(xs, n - 1, xs.len());
        lemma_lb_poly(xs, n - 1, xs.len(), t);
        lemma_pscale(b, ys[n - 1], t);
        lemma_padd(ls_poly(xs, ys, (n - 1) as nat), pscale(b, ys[n - 1]), t);
    }
}

/// At node `m`, the basis polynomial of node `j` is 1 if `m == j` and 0
/// otherwise (once its factor for `m` is in).
pub proof fn lemma_basis_at_node(xs: Seq<int>, j: int, m: int, k: nat)
    requires
        distinct_nodes(xs),
        0 <= j < xs.len(),
        0 <= m < xs.len(),
        k <= xs.len(),
    ensures
        m == j ==> lagrange_basis(xs, xs[m], j, k) == 1,
        m != j && m < k ==> lagrange_basis(xs, xs[m], j, k) == 0,
    decreases k,
{
    if k > 0 {
        let i = k - 1;
        lemma_basis_at_node(xs, j, m, (k - 1) as nat);
        let prev = lagrange_basis(xs, xs[m], j, (k - 1) as nat);
        if i != j {
            let d = fsub(xs[j], xs[i]);
            lemma_small_mod(0, p() as nat);
            if m == j {
                assert(d % p() != 0) by {
                    assert(xs[j] % p() != xs[i] % p());
                    lemma_cong_mod(xs[j] - xs[i]);
                    if (xs[j] - xs[i]) % p() == 0 {
                        lemma_sub_mod_noop(xs[j], xs[i], p());
                        lemma_mod_bound(xs[j], p());
                        lemma_mod_bound(xs[i], p());
                        if xs[j] % p() > xs[i] % p() {
                            lemma_small_mod((xs[j] % p() - xs[i] % p()) as nat, p() as nat);
                        } else {
                            lemma_mod_add_multiples_vanish(xs[j] % p() - xs[i] % p(), p());
                            lemma_small_mod((xs[j] % p() - xs[i] % p() + p()) as nat, p() as nat);
                        }
                    }
                }
                law_div(d, d);
                lemma_small_mod(1, p() as nat);
            } else if m == i {
                assert(fsub(xs[m], xs[i]) == 0);
                assert(fdiv(0, d) == fmul(0, finv(d)));
            }
        }
    }
}

/// At node `m`, the Lagrange sum over the first `n` nodes is `ys[m]` if
/// `m < n`, and 0 otherwise.
pub proof fn lemma_sum_at_node(xs: Seq<int>, ys: Seq<int>, m: int, n: nat)
    requires
        distinct_nodes(xs),
        0 <= m < xs.len(),
        n <= xs.len(),
    ensures
        lagrange_sum(xs, ys, xs[m], n) == if m < n {
            ys[m] % p()
        } else {
            0
        },
    decreases n,
{
    if n > 0 {
        lemma_sum_at_node(xs, ys, m, (n - 1) as nat);
        lemma_basis_at_node(xs, n - 1, m, xs.len());
        lemma_small_mod(0, p() as nat);
        lemma_cong_mod(ys[m]);
        if m == n - 1 {
            lemma_small_mod((ys[m] % p()) as nat, p() as nat);
        }
    }
}

/// Interpolating the values of a polynomial with at most as many
/// coefficients as there are distinct nodes gives back the polynomial.
pub proof fn lemma_lagrange_exact(xs: Seq<int>, c: Seq<int>, t: int)
    requires
        distinct_nodes(xs),
        c.len() <= xs.len(),
    ensures
        lagrange_sum(xs, Seq::new(xs.len(), |j: int| peval(c, xs[j])), t, xs.len()) == peval(c, t),
{
    let n = xs.len();
    let ys = Seq::new(n, |j: int| peval(c, xs[j]));
    let l = ls_poly(xs, ys, n);
    let d = padd(l, pscale(c, p() - 1));
    lemma_ls_poly(xs, ys, n, t);
    lemma_pscale(c, p() - 1, t);
    lemma_padd(l, pscale(c, p() - 1), t);
    assert forall|m: int| 0 <= m < n implies #[trigger] peval(d, xs[m]) == 0 by {
        let x = xs[m];
        lemma_ls_poly(xs, ys, n, x);
        lemma_pscale(c, p() - 1, x);
        lemma_padd(l, pscale(c, p() - 1), x);
        lemma_sum_at_node(xs, ys, m, n);
        let y = peval(c, x);
        lemma_peval_range(c, x);
        lemma_small_mod(y as nat, p() as nat);
        lemma_cong_mul(p() - 1, p() - 1, y, y);
        lemma_cong_add(y, y, fmul(p() - 1, y), (p() - 1) * y);
        assert(y + (p() - 1) * y == p() * y) by (nonlinear_arith);
        lemma_mod_multiples_basic(y, p());
        lemma_cong_mod(y + fmul(p() - 1, y));
        lemma_small_mod(0, p() as nat);
        lemma_cong_eq(peval(d, x), 0);
    }
    lemma_roots(d, xs, t);
    let lv = peval(l, t);
    let cv = peval(c, t);
    lemma_peval_range(l, t);
    lemma_peval_range(c, t);
    lemma_cong_mul(p() - 1, p() - 1, cv, cv);
    lemma_cong_add(lv, lv, fmul(p() - 1, cv), (p() - 1) * cv);
    assert(lv - cv == (lv + (p() - 1) * cv) + p() * (0 - cv)) by (nonlinear_arith);
    lemma_mod_multiples_vanish(0 - cv, lv + (p() - 1) * cv, p());
    lemma_small_mod(0, p() as nat);
    assert(cong(lv - cv, 0));
    lemma_cong_add(lv - cv, 0, cv, cv);
    lemma_cong_eq(lv, cv);
}


/// The interpolating polynomial passes through each sample point, where the
/// sample points' x coordinates are distinct elements.
pub proof fn law_interpolation_at_samples(pts: Seq<(Zp, Zp)>, m: int)
    requires
        distinct_nodes(xs_of(pts)),
        0 <= m < pts.len(),
    ensures
        interpolation(pts, pts[m].0.elt()) == pts[m].1.elt(),
{
    lemma_sum_at_node(xs_of(pts), ys_of(pts), m, pts.len());
    lemma_cong_mod(pts[m].1.elt());
    lemma_small_mod(pts[m].1.elt() as nat, p() as nat);
}

/// Interpolating the values of a polynomial at as many sample points with
/// distinct x coordinates as it has coefficients gives the polynomial's
/// value everywhere.
pub proof fn law_interpolation_exact(pts: Seq<(Zp, Zp)>, c: Seq<int>, t: int)
    requires
        distinct_nodes(xs_of(pts)),
        c.len() <= pts.len(),
        forall|j: int| 0 <= j < pts.len() ==> (#[trigger] pts[j]).1.elt() == peval(c, pts[j].0.elt()),
    ensures
        interpolation(pts, t) == peval(c, t),
{
    let xs = xs_of(pts);
    assert(ys_of(pts) =~= Seq::new(xs.len(), |j: int| peval(c, xs[j])));
    lemma_lagrange_exact(xs, c, t);
}

} // verus!
