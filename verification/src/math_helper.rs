//! Bits of gate labels, the multilinear extension of equality, and Lagrange
//! interpolation over the field.
use crate::field::{fadd, fdiv, fmul, fsub, group_zp_ops, p};
use vstd::arithmetic::div_mod::*;
use vstd::arithmetic::power::lemma_pow0;
use vstd::arithmetic::power2::*;
use vstd::bits::*;
use vstd::prelude::*;

pub use crate::field::{Zp, Zpe, PRIME, MOD_BASE};

verus! {

broadcast use group_zp_ops;

/// All bits set but the lowest.
const LOW_BIT_MASK: usize = !1;

// ---------------------------------------------------------------------------
// Specifications
// ---------------------------------------------------------------------------

/// The field elements that a sequence of values stands for.
pub open spec fn elts(s: Seq<Zp>) -> Seq<int> {
    s.map_values(|z: Zp| z.elt())
}

/// Bit `k` of `n`.
pub open spec fn bit_at(n: int, k: nat) -> int {
    (n / pow2(k) as int) % 2
}

/// The `num_bits` lowest bits of `n`, least significant first.
pub open spec fn bits(n: int, num_bits: nat) -> Seq<int> {
    Seq::new(num_bits, |k: int| bit_at(n, k as nat))
}

/// One factor of the multilinear extension of equality:
/// `x * w + (1 - x) * (1 - w)`, which is 1 where `x == w` on bits and 0
/// where they differ.
pub open spec fn eq_term(w: int, x: int) -> int {
    fadd(fmul(x, w), fmul(fsub(1, x), fsub(1, w)))
}

/// The multilinear extension of equality of two label vectors: the product of
/// `eq_term` over their entries.
pub open spec fn mle_eq(w: Seq<int>, x: Seq<int>) -> int
    decreases w.len(),
{
    if w.len() == 0 {
        1
    } else {
        fmul(mle_eq(w.drop_last(), x.drop_last()), eq_term(w.last(), x.last()))
    }
}

/// The point at parameter `t` on the line through `l` (at 0) and `r` (at 1).
pub open spec fn line_point(l: int, r: int, t: int) -> int {
    fadd(fmul(fsub(r, l), t), l)
}

/// The points at parameter `t` on the lines through the first `num_bits`
/// entries of `lbls` (at 0) and the next `num_bits` entries (at 1).
pub open spec fn line_points(lbls: Seq<int>, t: int, num_bits: nat) -> Seq<int> {
    Seq::new(num_bits, |i: int| line_point(lbls[i], lbls[num_bits + i], t))
}

/// The first `k` factors of the Lagrange basis polynomial of node `j`,
/// evaluated at `t`: the product over `i < k`, `i != j`, of
/// `(t - xs[i]) / (xs[j] - xs[i])`.
pub open spec fn lagrange_basis(xs: Seq<int>, t: int, j: int, k: nat) -> int
    decreases k,
{
    if k == 0 {
        1
    } else {
        let i = k - 1;
        let prev = lagrange_basis(xs, t, j, (k - 1) as nat);
        if i != j {
            fmul(prev, fdiv(fsub(t, xs[i]), fsub(xs[j], xs[i])))
        } else {
            prev
        }
    }
}

/// The sum over the first `n` nodes of `ys[j]` times the Lagrange basis
/// polynomial of node `j` (over all nodes), evaluated at `t`.
pub open spec fn lagrange_sum(xs: Seq<int>, ys: Seq<int>, t: int, n: nat) -> int
    decreases n,
{
    if n == 0 {
        0
    } else {
        fadd(
            lagrange_sum(xs, ys, t, (n - 1) as nat),
            fmul(ys[n - 1], lagrange_basis(xs, t, n - 1, xs.len())),
        )
    }
}

pub proof fn lemma_lagrange_sum_range(xs: Seq<int>, ys: Seq<int>, t: int, n: nat)
    ensures
        0 <= lagrange_sum(xs, ys, t, n) < p(),
    decreases n,
{
    if n > 0 {
        lemma_lagrange_sum_range(xs, ys, t, (n - 1) as nat);
    }
}

proof fn lemma_lagrange_basis_range(xs: Seq<int>, t: int, j: int, k: nat)
    ensures
        0 <= lagrange_basis(xs, t, j, k) < p(),
    decreases k,
{
    if k > 0 {
        lemma_lagrange_basis_range(xs, t, j, (k - 1) as nat);
    }
}

/// The bits of `a` below `n + 1` are those below `n`, then bit `n`.
pub proof fn lemma_bits_step(a: int, n: nat)
    ensures
        bits(a, n + 1).drop_last() == bits(a, n),
        bits(a, n + 1).last() == bit_at(a, n),
{
    assert(bits(a, n + 1).drop_last() =~= bits(a, n));
}

/// A bit of a natural number is 0 or 1.
pub proof fn lemma_bit_is_bit(a: int, k: nat)
    requires
        a >= 0,
    ensures
        bit_at(a, k) == 0 || bit_at(a, k) == 1,
{
    lemma_pow2_pos(k);
    lemma_div_pos_is_pos(a, pow2(k) as int);
}

/// On bits, `eq_term` is 1 where they agree and 0 where they differ.
pub proof fn lemma_eq_term_bits(w: int, x: int)
    requires
        w == 0 || w == 1,
        x == 0 || x == 1,
    ensures
        eq_term(w, x) == if w == x {
            1int
        } else {
            0int
        },
{
    lemma_small_mod(0, p() as nat);
    lemma_small_mod(1, p() as nat);
    assert(fsub(1, 0) == 1 && fsub(1, 1) == 0);
    assert(fmul(0, 0) == 0 && fmul(0, 1) == 0 && fmul(1, 0) == 0 && fmul(1, 1) == 1);
    assert(fadd(0, 0) == 0 && fadd(0, 1) == 1 && fadd(1, 0) == 1);
}

/// On the bits of two natural numbers, the multilinear extension of
/// equality says whether they agree below bit `n`.
proof fn lemma_mle_eq_bits_mod(a: int, b: int, n: nat)
    requires
        a >= 0,
        b >= 0,
    ensures
        mle_eq(bits(a, n), bits(b, n)) == if a % (pow2(n) as int) == b % (pow2(n) as int) {
            1int
        } else {
            0int
        },
    decreases n,
{
    if n == 0 {
        assert(pow2(0) == 1) by {
            lemma_pow2(0);
            lemma_pow0(2);
        }
        assert(bits(a, 0).len() == 0);
    } else {
        let m = (n - 1) as nat;
        lemma_mle_eq_bits_mod(a, b, m);
        lemma_bits_step(a, m);
        lemma_bits_step(b, m);
        lemma_bit_is_bit(a, m);
        lemma_bit_is_bit(b, m);
        let ba = bit_at(a, m);
        let bb = bit_at(b, m);
        lemma_eq_term_bits(ba, bb);
        let pm = pow2(m) as int;
        lemma_pow2_unfold(n);
        lemma_pow2_pos(m);
        lemma_mod_breakdown(a, pm, 2);
        lemma_mod_breakdown(b, pm, 2);
        assert(pm * 2 == pow2(n));
        let ra = a % pm;
        let rb = b % pm;
        lemma_mod_bound(a, pm);
        lemma_mod_bound(b, pm);
        assert(a % (pow2(n) as int) == pm * ba + ra);
        assert(b % (pow2(n) as int) == pm * bb + rb);
        assert(pm * 0 == 0 && pm * 1 == pm);
        if ba == 0 {
            assert(pm * ba == 0);
        } else {
            assert(pm * ba == pm);
        }
        if bb == 0 {
            assert(pm * bb == 0);
        } else {
            assert(pm * bb == pm);
        }
        lemma_small_mod(0, p() as nat);
        lemma_small_mod(1, p() as nat);
    }
}

/// On the bits of two numbers below `2^n`, the multilinear extension of
/// equality is 1 where they are equal and 0 where they differ.
pub proof fn law_mle_eq_on_bits(a: int, b: int, n: nat)
    requires
        0 <= a < pow2(n),
        0 <= b < pow2(n),
    ensures
        mle_eq(bits(a, n), bits(b, n)) == if a == b {
            1int
        } else {
            0int
        },
{
    lemma_mle_eq_bits_mod(a, b, n);
    lemma_small_mod(a as nat, pow2(n));
    lemma_small_mod(b as nat, pow2(n));
}

/// The x and y coordinates of sample points.
pub open spec fn xs_of(pts: Seq<(Zp, Zp)>) -> Seq<int> {
    pts.map_values(|pt: (Zp, Zp)| pt.0.elt())
}

pub open spec fn ys_of(pts: Seq<(Zp, Zp)>) -> Seq<int> {
    pts.map_values(|pt: (Zp, Zp)| pt.1.elt())
}

/// The value at `t` of the polynomial of least degree through `pts`.
pub open spec fn interpolation(pts: Seq<(Zp, Zp)>, t: int) -> int {
    lagrange_sum(xs_of(pts), ys_of(pts), t, pts.len())
}

// ---------------------------------------------------------------------------
// Bits
// ---------------------------------------------------------------------------

/// `n` with the bits of `mask` cleared.
pub fn bic(n: usize, mask: usize) -> (r: usize)
    ensures
        r == n & !mask,
{
    n & !mask
}

/// Bit `bit` of `n`, as 0 or 1.
pub fn get_bit(n: usize, bit: usize) -> (r: usize)
    requires
        bit < usize::BITS,
    ensures
        r == bit_at(n as int, bit as nat),
        r <= 1,
{
    let x = n >> bit;
    let r = bic(x, LOW_BIT_MASK);
    proof {
        assert(x & !LOW_BIT_MASK == x % 2) by (bit_vector);
        lemma_usize_shr_is_div(n, bit);
    }
    r
}

/// The `num_bits` lowest bits of `n`, least significant first.
pub fn into_bit_arr(n: usize, num_bits: usize) -> (result: Vec<Zp>)
    requires
        num_bits <= usize::BITS,
    ensures
        result@.len() == num_bits,
        forall|k: int| 0 <= k < num_bits ==> #[trigger] result@[k].raw() == bit_at(n as int, k as nat),
        elts(result@) == bits(n as int, num_bits as nat),
{
    let mut result: Vec<Zp> = Vec::new();
    for i in 0..num_bits
        invariant
            num_bits <= usize::BITS,
            result@.len() == i,
            forall|k: int| 0 <= k < i ==> #[trigger] result@[k].raw() == bit_at(n as int, k as nat),
    {
        result.push(Zp::new(get_bit(n, i) as u32));
    }
    proof {
        assert forall|k: int| 0 <= k < num_bits implies #[trigger] elts(result@)[k] == bits(
            n as int,
            num_bits as nat,
        )[k] by {
            lemma_small_mod(result@[k].raw() as nat, p() as nat);
        }
        assert(elts(result@) =~= bits(n as int, num_bits as nat));
    }
    result
}

// ---------------------------------------------------------------------------
// The multilinear extension of equality
// ---------------------------------------------------------------------------

/// The product over `i` of `x[i] * w[i] + (1 - x[i]) * (1 - w[i])`.
pub fn mle_interpolate(w: &[Zp], x: &[Zp]) -> (result: Zp)
    requires
        w@.len() == x@.len(),
    ensures
        result.raw() == mle_eq(elts(w@), elts(x@)),
{
    let mut result = Zp::new(1);
    for i in 0..w.len()
        invariant
            w@.len() == x@.len(),
            result.raw() == mle_eq(elts(w@.take(i as int)), elts(x@.take(i as int))),
    {
        let xi = x[i];
        let wi = w[i];
        proof {
            use_type_invariant(&xi);
            use_type_invariant(&wi);
        }
        let one = Zp::new(1);
        let term = xi * wi + (one - xi) * (one - wi);
        proof {
            lemma_small_mod(1, p() as nat);
            let wt = elts(w@.take(i + 1));
            let xt = elts(x@.take(i + 1));
            assert(wt.drop_last() =~= elts(w@.take(i as int)));
            assert(xt.drop_last() =~= elts(x@.take(i as int)));
            lemma_mod_twice(wi.raw(), p());
            lemma_mod_twice(xi.raw(), p());
        }
        result = result * term;
        proof {
            lemma_mod_twice(result.raw(), p());
        }
    }
    proof {
        assert(w@.take(w@.len() as int) =~= w@);
        assert(x@.take(x@.len() as int) =~= x@);
    }
    result
}

/// The points at `rand_next` on the lines through the first and the second
/// half of `rand_lbls`.
pub fn interpolate_next_gates(rand_lbls: &[Zp], rand_next: Zp, num_bits: usize) -> (next_lbl: Vec<
    Zp,
>)
    requires
        rand_lbls@.len() == num_bits * 2,
    ensures
        next_lbl@.len() == num_bits,
        elts(next_lbl@) == line_points(elts(rand_lbls@), rand_next.elt(), num_bits as nat),
        forall|i: int| 0 <= i < num_bits ==> (#[trigger] next_lbl@[i]).raw() == next_lbl@[i].elt(),
{
    let mut next_lbl: Vec<Zp> = Vec::new();
    proof {
        use_type_invariant(&rand_next);
    }
    for i in 0..num_bits
        invariant
            rand_lbls@.len() == num_bits * 2,
            next_lbl@.len() == i,
            rand_next.in_range(),
            forall|k: int|
                0 <= k < i ==> (#[trigger] next_lbl@[k]).raw() == line_point(
                    rand_lbls@[k].elt(),
                    rand_lbls@[num_bits + k].elt(),
                    rand_next.elt(),
                ),
    {
        let l = rand_lbls[i];
        let r = rand_lbls[num_bits + i];
        proof {
            use_type_invariant(&l);
            use_type_invariant(&r);
        }
        let d = r - l;
        let v = d * rand_next + l;
        proof {
            lemma_mod_twice(d.elt(), p());
            lemma_mod_twice(fmul(d.elt(), rand_next.elt()), p());
            lemma_mod_twice(l.raw(), p());
            lemma_add_mod_noop(fmul(d.elt(), rand_next.elt()), l.raw(), p());
        }
        next_lbl.push(v);
    }
    proof {
        assert forall|k: int| 0 <= k < num_bits implies (#[trigger] next_lbl@[k]).raw()
            == next_lbl@[k].elt() by {
            lemma_mod_twice(fsub(rand_lbls@[num_bits + k].elt(), rand_lbls@[k].elt()), p());
        }
        assert(elts(next_lbl@) =~= line_points(
            elts(rand_lbls@),
            rand_next.elt(),
            num_bits as nat,
        ));
    }
    next_lbl
}

// ---------------------------------------------------------------------------
// Lagrange interpolation
// ---------------------------------------------------------------------------

/// The first `k` factors of the Lagrange basis polynomial of node `j`,
/// evaluated at `x`.
fn lagrange_poly(sample_pts: &[(Zp, Zp)], x: Zp, j: usize, k: usize) -> (result: Zp)
    requires
        k <= sample_pts@.len(),
        j < sample_pts@.len(),
    ensures
        result.raw() == lagrange_basis(xs_of(sample_pts@), x.elt(), j as int, k as nat),
{
    let mut result = Zp::new(1);
    proof {
        use_type_invariant(&x);
        lemma_small_mod(1, p() as nat);
    }
    for i in 0..k
        invariant
            k <= sample_pts@.len(),
            j < sample_pts@.len(),
            x.in_range(),
            result.raw() == lagrange_basis(xs_of(sample_pts@), x.elt(), j as int, i as nat),
    {
        if i != j {
            let xi = sample_pts[i].0;
            let xj = sample_pts[j].0;
            proof {
                use_type_invariant(&xi);
                use_type_invariant(&xj);
            }
            let factor = (x - xi) / (xj - xi);
            result = result * factor;
            proof {
                lemma_mod_twice(fdiv(fsub(x.elt(), xi.elt()), fsub(xj.elt(), xi.elt())), p());
                lemma_mod_twice(result.raw(), p());
                lemma_mod_twice(lagrange_basis(xs_of(sample_pts@), x.elt(), j as int, i as nat), p());
            }
        }
    }
    result
}

/// The value at `tgt_pt` of the polynomial of least degree through
/// `sample_pts`, by Lagrange's formula.
pub fn interpolate(sample_pts: &[(Zp, Zp)], tgt_pt: Zp) -> (sum: Zp)
    ensures
        sum.raw() == interpolation(sample_pts@, tgt_pt.elt()),
{
    let mut sum = Zp::new(0);
    proof {
        lemma_small_mod(0, p() as nat);
    }
    for j in 0..sample_pts.len()
        invariant
            0 <= sum.raw() < p(),
            sum.raw() == lagrange_sum(xs_of(sample_pts@), ys_of(sample_pts@), tgt_pt.elt(), j as nat),
    {
        let basis = lagrange_poly(sample_pts, tgt_pt, j, sample_pts.len());
        let yj = sample_pts[j].1;
        let term = yj * basis;
        let ghost prev = sum;
        sum = sum + term;
        proof {
            lemma_lagrange_basis_range(xs_of(sample_pts@), tgt_pt.elt(), j as int, sample_pts@.len());
            lemma_small_mod(basis.raw() as nat, p() as nat);
            lemma_small_mod(term.raw() as nat, p() as nat);
            lemma_small_mod(prev.raw() as nat, p() as nat);
            assert(ys_of(sample_pts@)[j as int] == yj.elt());
        }
    }
    sum
}

} // verus!
