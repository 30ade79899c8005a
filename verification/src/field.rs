//! Arithmetic in the prime field of order `PRIME` (the Mersenne prime 2^31 - 1),
//! and in the two-element ring `Zpe`.
use vstd::arithmetic::div_mod::*;
use vstd::arithmetic::mul::*;
use vstd::prelude::*;
use vstd::std_specs::cmp::PartialEqSpecImpl;
use vstd::std_specs::ops::{AddSpec, DivSpec, MulSpec, NegSpec, SubSpec};

verus! {

/// The field modulus, 2^31 - 1.
pub const PRIME: u32 = 2147483647;

/// The modulus of `Zpe`.
pub const MOD_BASE: u64 = 2;

/// The field modulus as a mathematical integer.
pub open spec fn p() -> int {
    2147483647
}

// ---------------------------------------------------------------------------
// Field operations on canonical representatives
// ---------------------------------------------------------------------------

pub open spec fn fadd(a: int, b: int) -> int {
    (a + b) % p()
}

pub open spec fn fsub(a: int, b: int) -> int {
    (a - b) % p()
}

pub open spec fn fmul(a: int, b: int) -> int {
    (a * b) % p()
}

pub open spec fn fneg(a: int) -> int {
    (0 - a) % p()
}

/// `b` is a multiplicative inverse of `a` in the field.
pub open spec fn is_inverse(a: int, b: int) -> bool {
    0 <= b < p() && (a * b) % p() == 1
}

/// The multiplicative inverse of `a`, or 0 when `a` is 0 in the field.
pub open spec fn finv(a: int) -> int {
    if a % p() == 0 {
        0
    } else {
        choose|b: int| is_inverse(a, b)
    }
}

pub open spec fn fdiv(a: int, b: int) -> int {
    fmul(a, finv(b))
}

/// `n` has no divisor strictly between 1 and itself.
pub open spec fn is_prime(n: int) -> bool {
    n > 1 && forall|d: int| 1 < d < n ==> #[trigger] (n % d) != 0
}

pub open spec fn divides(d: int, n: int) -> bool {
    n % d == 0
}

pub open spec fn abs(x: int) -> int {
    if x < 0 {
        -x
    } else {
        x
    }
}

// ---------------------------------------------------------------------------
// Primality of the modulus
// ---------------------------------------------------------------------------

/// No number below 46341 (whose square exceeds the modulus) other than 1
/// is a factor of the modulus.
#[verifier::rlimit(100)]
proof fn lemma_no_small_factor(d: u64, q: u64)
    by (bit_vector)
    requires
        2 <= d < 46341,
        q < 2147483648u64,
    ensures
        d * q != 2147483647u64,
{
}

/// The modulus is prime.
pub proof fn lemma_modulus_is_prime()
    ensures
        is_prime(p()),
{
    assert forall|d: int| 1 < d < p() implies #[trigger] (p() % d) != 0 by {
        if p() % d == 0 {
            let q = p() / d;
            lemma_fundamental_div_mod(p(), d);
            assert(p() == d * q);
            assert(q >= 2) by {
                if q <= 1 {
                    assert(d * q <= d) by (nonlinear_arith)
                        requires
                            q <= 1,
                            d > 1,
                    ;
                }
            }
            assert(q < 2147483648) by (nonlinear_arith)
                requires
                    p() == d * q,
                    d > 1,
                    q >= 2,
            ;
            if d < 46341 {
                lemma_no_small_factor(d as u64, q as u64);
            } else {
                assert(q < 46341) by (nonlinear_arith)
                    requires
                        p() == d * q,
                        d >= 46341,
                        q >= 2,
                ;
                assert(q * d == p()) by (nonlinear_arith)
                    requires
                        p() == d * q,
                ;
                lemma_no_small_factor(q as u64, d as u64);
            }
        }
    }
}

/// A common positive divisor of the modulus and of a number strictly
/// between 0 and the modulus is 1.
proof fn lemma_common_divisor_is_one(d: int, a: int)
    requires
        d > 0,
        0 < a < p(),
        divides(d, a),
        divides(d, p()),
    ensures
        d == 1,
{
    lemma_modulus_is_prime();
    if d > 1 {
        if d < p() {
            assert(p() % d != 0);
        } else {
            // d >= p > a > 0, so a % d == a != 0
            lemma_small_mod(a as nat, d as nat);
        }
    }
}

/// If `d` divides `x` and `y`, it divides `q * x + y`.
proof fn lemma_divides_combination(d: int, x: int, y: int, q: int)
    requires
        d > 0,
        divides(d, x),
        divides(d, y),
    ensures
        divides(d, q * x + y),
{
    lemma_fundamental_div_mod(x, d);
    lemma_fundamental_div_mod(y, d);
    let kx = x / d;
    let ky = y / d;
    assert(q * x + y == d * (q * kx + ky)) by (nonlinear_arith)
        requires
            x == d * kx,
            y == d * ky,
    ;
    lemma_mod_multiples_vanish(q * kx + ky, 0, d);
}

/// If `x` and `y` are both 0 modulo `m`, so is `x - q * y`.
proof fn lemma_mod_zero_combination(x: int, y: int, q: int, m: int)
    requires
        m > 0,
        x % m == 0,
        y % m == 0,
    ensures
        (x - q * y) % m == 0,
{
    lemma_divides_combination(m, y, x, -q);
    assert(-q * y + x == x - q * y) by (nonlinear_arith);
}

/// Inverses are unique.
pub proof fn lemma_inverse_unique(a: int, x: int, y: int)
    requires
        is_inverse(a, x),
        is_inverse(a, y),
    ensures
        x == y,
{
    // x == x * (a * y) == (a * x) * y == y  (mod p)
    lemma_small_mod(x as nat, p() as nat);
    lemma_small_mod(y as nat, p() as nat);
    assert((x * (a * y)) % p() == x) by {
        lemma_mul_mod_noop_right(x, a * y, p());
    }
    assert(x * (a * y) == (a * x) * y) by (nonlinear_arith);
    assert(((a * x) * y) % p() == y) by {
        lemma_mul_mod_noop_left(a * x, y, p());
    }
}

/// An inverse found by search is the inverse.
pub proof fn lemma_finv_is(a: int, x: int)
    requires
        is_inverse(a, x),
    ensures
        finv(a) == x,
{
    if a % p() == 0 {
        lemma_mul_mod_noop_left(a, x, p());
        assert(false);
    }
    let c = choose|b: int| is_inverse(a, b);
    lemma_inverse_unique(a, c, x);
}

// ---------------------------------------------------------------------------
// The extended Euclidean algorithm
// ---------------------------------------------------------------------------

/// Returns the `x` in `a * x + PRIME * y == 1`, taken in `0..PRIME`:
/// the multiplicative inverse of `a`, or 0 where `a` is 0 in the field.
fn ext_eucidean(a: u32) -> (r: u32)
    ensures
        r == finv(a as int),
        r < PRIME,
{
    let ghost a0 = a as int;
    // the algorithm runs alike on `a` and on its remainder modulo `PRIME`
    let ar = a % PRIME;
    let ghost ai = ar as int;
    let mut r_last: i64 = ar as i64;
    let mut r_this: i64 = PRIME as i64;
    let mut r_next: i64;
    let mut q: i64;
    let mut s_last: i64 = 1;
    let mut s_this: i64 = 0;
    let mut s_next: i64;
    proof {
        assert(divides(1, p()) && divides(p(), p()) && divides(p(), 0)) by {
            lemma_mod_self_0(p());
        }
        assert((s_this * ai - r_this) % p() == 0) by {
            lemma_mod_sub_multiples_vanish(0, p());
        }
        assert((s_last * ai - r_last) % p() == 0) by {
            lemma_small_mod(0, p() as nat);
        }
    }
    loop
        invariant
            0 <= r_last <= p(),
            1 <= r_this <= p(),
            ai == ar,
            ai <= p(),
            ai == a0 % p(),
            a0 == a as int,
            (s_last * ai - r_last) % p() == 0,
            (s_this * ai - r_this) % p() == 0,
            s_last * s_this <= 0,
            abs(s_this as int) * r_last + abs(s_last as int) * r_this == p(),
            (r_last == ai && r_this == p() && s_last == 1 && s_this == 0) || (r_this < r_last && 0
                < ai < p()),
            forall|d: int|
                #![trigger divides(d, r_last as int), divides(d, r_this as int)]
                d > 0 && divides(d, r_last as int) && divides(d, r_this as int) ==> divides(d, ai)
                    && divides(d, p()),
        decreases r_this,
    {
        q = r_last / r_this;
        r_next = r_last % r_this;
        proof {
            lemma_fundamental_div_mod(r_last as int, r_this as int);
            lemma_mod_pos_bound(r_last as int, r_this as int);
            assert(0 <= q <= r_last) by (nonlinear_arith)
                requires
                    r_last == r_this * q + r_next,
                    r_this >= 1,
                    0 <= r_next < r_this,
                    r_last >= 0,
            ;
            assert(abs(s_this as int) <= p()) by (nonlinear_arith)
                requires
                    abs(s_this as int) * r_last + abs(s_last as int) * r_this == p(),
                    r_last >= 1 || s_this == 0,
                    r_this >= 1,
                    abs(s_last as int) >= 0,
            ;
            assert(abs(s_last as int) <= p()) by (nonlinear_arith)
                requires
                    abs(s_this as int) * r_last + abs(s_last as int) * r_this == p(),
                    r_last >= 0,
                    r_this >= 1,
                    abs(s_this as int) >= 0,
            ;
            assert(-p() * p() <= s_this * q <= p() * p()) by (nonlinear_arith)
                requires
                    abs(s_this as int) <= p(),
                    0 <= q <= p(),
            ;
        }
        s_next = s_last - s_this * q;
        if r_next == 0 {
            proof {
                if 0 < ai < p() {
                    // the state is not the initial one: there r_next == a
                    assert(r_this < r_last) by {
                        if r_last == ai && r_this == p() {
                            lemma_small_mod(ai as nat, p() as nat);
                        }
                    }
                    // r_this divides both r_last and itself, hence a and p
                    assert(divides(r_this as int, r_last as int));
                    assert(divides(r_this as int, r_this as int)) by {
                        lemma_mod_self_0(r_this as int);
                    }
                    lemma_common_divisor_is_one(r_this as int, ai);
                    assert(abs(s_this as int) * 2 <= p()) by (nonlinear_arith)
                        requires
                            abs(s_this as int) * r_last + abs(s_last as int) * r_this == p(),
                            r_last >= 2,
                            r_this >= 1,
                    ;
                    assert(s_this != 0) by {
                        if s_this == 0 {
                            lemma_mod_sub_multiples_vanish(0, p());
                            assert((0 - 1) % p() == p() - 1) by {
                                lemma_mod_add_multiples_vanish(-1, p());
                            }
                        }
                    }
                } else {
                    assert(r_last == ai && r_this == p() && s_this == 0);
                }
            }
            let res: u32 = if s_this >= 0 {
                s_this as u32
            } else {
                (PRIME as i64 + s_this) as u32
            };
            proof {
                if 0 < ai < p() {
                    // s_this * a == 1 (mod p), and res == s_this (mod p)
                    lemma_mod_multiples_vanish(0, (s_this * ai - 1) as int, p());
                    assert((s_this * ai) % p() == 1) by {
                        lemma_add_mod_noop(s_this * ai - 1, 1, p());
                        lemma_small_mod(1, p() as nat);
                    }
                    assert((ai * res) % p() == 1) by {
                        if s_this < 0 {
                            assert(ai * res == p() * ai + s_this * ai) by (nonlinear_arith)
                                requires
                                    res == p() + s_this,
                            ;
                            lemma_mod_multiples_vanish(ai, s_this * ai, p());
                        } else {
                            lemma_mul_is_commutative(ai, s_this as int);
                        }
                    }
                    assert(0 <= res < p());
                    lemma_finv_is(ai, res as int);
                } else {
                    assert(res == 0);
                    if ai == p() {
                        lemma_mod_self_0(p());
                    } else {
                        lemma_small_mod(0, p() as nat);
                    }
                    assert(ai % p() == 0);
                }
                lemma_finv_mod(a0);
            }
            return res;
        }
        proof {
            // the congruences carry over to the next remainder
            lemma_mod_zero_combination(
                s_last * ai - r_last,
                s_this * ai - r_this,
                q as int,
                p(),
            );
            assert(s_next * ai - r_next == (s_last * ai - r_last) - q * (s_this * ai - r_this))
                by (nonlinear_arith)
                requires
                    s_next == s_last - s_this * q,
                    r_last == r_this * q + r_next,
            ;
            // the signs keep alternating
            assert(s_this * s_next <= 0) by (nonlinear_arith)
                requires
                    s_last * s_this <= 0,
                    s_next == s_last - s_this * q,
                    q >= 0,
            ;
            // |s_next| == |s_last| + q * |s_this|
            assert(abs(s_next as int) == abs(s_last as int) + q * abs(s_this as int))
                by (nonlinear_arith)
                requires
                    s_last * s_this <= 0,
                    s_next == s_last - s_this * q,
                    q >= 0,
            ;
            assert(abs(s_next as int) * r_this + abs(s_this as int) * r_next == p())
                by (nonlinear_arith)
                requires
                    abs(s_next as int) == abs(s_last as int) + q * abs(s_this as int),
                    abs(s_this as int) * r_last + abs(s_last as int) * r_this == p(),
                    r_last == r_this * q + r_next,
            ;
            if r_last == ai && r_this == p() && s_last == 1 && s_this == 0 {
                if ai == p() {
                    lemma_mod_self_0(p());
                }
                if ai == 0 {
                    lemma_small_mod(0, p() as nat);
                }
            }
            // common divisors of the new pair divide the old pair
            assert forall|d: int|
                #![trigger divides(d, r_this as int), divides(d, r_next as int)]
                d > 0 && divides(d, r_this as int) && divides(d, r_next as int) implies divides(
                d,
                ai,
            ) && divides(d, p()) by {
                lemma_divides_combination(d, r_this as int, r_next as int, q as int);
                assert(q * r_this + r_next == r_last) by (nonlinear_arith)
                    requires
                        r_last == r_this * q + r_next,
                ;
                assert(divides(d, r_last as int));
            }
        }
        r_last = r_this;
        r_this = r_next;
        s_last = s_this;
        s_this = s_next;
    }
}

// ---------------------------------------------------------------------------
// Randomness
// ---------------------------------------------------------------------------

/// Draws a value with `rand::random::<u32>()`. Any `u32` may come back; the
/// thread-local generator that it uses panics only if the operating system
/// offers no entropy, which no clause here can rule out.
#[verifier::external_body]
fn random_u32() -> (r: u32) {
    rand::random::<u32>()
}

/// Draws a value with `rand::random::<u64>()`. Any `u64` may come back; the
/// thread-local generator that it uses panics only if the operating system
/// offers no entropy, which no clause here can rule out.
#[verifier::external_body]
fn random_u64() -> (r: u64) {
    rand::random::<u64>()
}

// ---------------------------------------------------------------------------
// Zp: an element of the prime field
// ---------------------------------------------------------------------------

/// An element of the field of order `PRIME`. The stored representative lies
/// in `0..=PRIME`; it is `PRIME` only after negating zero.
#[derive(Debug, Clone, Copy)]
pub struct Zp {
    val: i64,
}

impl Zp {
    /// The representative lies in `0..=PRIME`.
    #[verifier::type_invariant]
    pub open spec fn in_range(self) -> bool {
        0 <= self.raw() <= p()
    }

    /// The stored representative.
    pub closed spec fn raw(self) -> int {
        self.val as int
    }

    /// The field element that the value stands for, in `0..PRIME`.
    pub open spec fn elt(self) -> int {
        self.raw() % p()
    }

    /// The value whose representative is `r`.
    pub closed spec fn from_raw(r: int) -> Zp {
        Zp { val: r as i64 }
    }

    /// `n` reduced modulo `PRIME`.
    pub fn new(n: u32) -> (r: Zp)
        ensures
            r.raw() == n as int % p(),
    {
        Zp { val: (n as i64) % (PRIME as i64) }
    }

    /// A random element: `Zp::new` of a random `u32`.
    pub fn new_rand() -> (r: Zp)
        ensures
            0 <= r.raw() < p(),
    {
        Zp::new(random_u32())
    }

    /// The stored representative.
    pub fn val(&self) -> (r: u32)
        ensures
            r == self.raw(),
    {
        proof {
            use_type_invariant(self);
        }
        self.val as u32
    }
}

/// Two values with the same representative are the same value.
pub proof fn lemma_raw_injective(a: Zp, b: Zp)
    requires
        a.raw() == b.raw(),
    ensures
        a == b,
{
}

/// The representative of `Zp::from_raw(r)` is `r`.
pub broadcast proof fn lemma_from_raw(r: int)
    requires
        0 <= r <= p(),
    ensures
        #[trigger] Zp::from_raw(r).raw() == r,
{
}

impl PartialEq for Zp {
    fn eq(&self, other: &Zp) -> (r: bool) {
        self.val == other.val
    }
}

impl PartialEqSpecImpl for Zp {
    open spec fn obeys_eq_spec() -> bool {
        true
    }

    open spec fn eq_spec(&self, other: &Zp) -> bool {
        self.raw() == other.raw()
    }
}

impl PartialEq<u32> for Zp {
    fn eq(&self, other: &u32) -> (r: bool) {
        self.val == *other as i64
    }
}

impl PartialEqSpecImpl<u32> for Zp {
    open spec fn obeys_eq_spec() -> bool {
        true
    }

    open spec fn eq_spec(&self, other: &u32) -> bool {
        self.raw() == *other as int
    }
}

impl core::ops::Add for Zp {
    type Output = Zp;

    fn add(self, other: Zp) -> (r: Zp) {
        proof {
            use_type_invariant(&self);
            use_type_invariant(&other);
        }
        Zp { val: (self.val + other.val) % (PRIME as i64) }
    }
}

impl vstd::std_specs::ops::AddSpecImpl for Zp {
    open spec fn obeys_add_spec() -> bool {
        true
    }

    open spec fn add_req(self, rhs: Zp) -> bool {
        true
    }

    open spec fn add_spec(self, rhs: Zp) -> Zp {
        Zp::from_raw((self.raw() + rhs.raw()) % p())
    }
}

impl core::ops::AddAssign for Zp {
    fn add_assign(&mut self, other: Zp)
        ensures
            *final(self) == old(self).add_spec(other),
    {
        *self = *self + other;
    }
}

impl core::ops::Sub for Zp {
    type Output = Zp;

    fn sub(self, other: Zp) -> (r: Zp) {
        proof {
            use_type_invariant(&self);
            use_type_invariant(&other);
        }
        Zp {
            val: if self.val - other.val < 0 {
                let mut sum: i64 = self.val - other.val;
                while sum < 0
                    invariant
                        sum == self.val - other.val || sum == self.val - other.val + PRIME,
                        0 <= self.val <= PRIME,
                        0 <= other.val <= PRIME,
                        self.val - other.val < 0,
                    decreases PRIME - sum,
                {
                    sum += PRIME as i64;
                }
                sum
            } else {
                self.val - other.val
            },
        }
    }
}

impl vstd::std_specs::ops::SubSpecImpl for Zp {
    open spec fn obeys_sub_spec() -> bool {
        true
    }

    open spec fn sub_req(self, rhs: Zp) -> bool {
        true
    }

    open spec fn sub_spec(self, rhs: Zp) -> Zp {
        Zp::from_raw(
            if self.raw() >= rhs.raw() {
                self.raw() - rhs.raw()
            } else {
                self.raw() - rhs.raw() + p()
            },
        )
    }
}

impl core::ops::Mul for Zp {
    type Output = Zp;

    fn mul(self, other: Zp) -> (r: Zp) {
        proof {
            use_type_invariant(&self);
            use_type_invariant(&other);
        }
        let l = self.val as u32;
        let r = other.val as u32;
        proof {
            assert((l as u128) * (r as u128) <= 0x4000_0000_0000_0000) by (nonlinear_arith)
                requires
                    l <= 0x8000_0000,
                    r <= 0x8000_0000,
            ;
        }
        let result = ((l as u128) * (r as u128) % (PRIME as u128)) as u32;
        Zp { val: result as i64 }
    }
}

impl vstd::std_specs::ops::MulSpecImpl for Zp {
    open spec fn obeys_mul_spec() -> bool {
        true
    }

    open spec fn mul_req(self, rhs: Zp) -> bool {
        true
    }

    open spec fn mul_spec(self, rhs: Zp) -> Zp {
        Zp::from_raw((self.raw() * rhs.raw()) % p())
    }
}

impl core::ops::MulAssign for Zp {
    fn mul_assign(&mut self, other: Zp)
        ensures
            *final(self) == old(self).mul_spec(other),
    {
        *self = *self * other;
    }
}

impl core::ops::Div for Zp {
    type Output = Zp;

    fn div(self, other: Zp) -> (r: Zp) {
        proof {
            use_type_invariant(&other);
        }
        // the inverse, by the extended Euclidean algorithm
        let mul_inv = Zp::new(ext_eucidean(other.val()));
        proof {
            lemma_small_mod(finv(other.raw()) as nat, p() as nat);
        }
        self * mul_inv
    }
}

impl vstd::std_specs::ops::DivSpecImpl for Zp {
    open spec fn obeys_div_spec() -> bool {
        true
    }

    open spec fn div_req(self, rhs: Zp) -> bool {
        true
    }

    open spec fn div_spec(self, rhs: Zp) -> Zp {
        Zp::from_raw((self.raw() * finv(rhs.raw())) % p())
    }
}

impl core::ops::Neg for Zp {
    type Output = Zp;

    fn neg(self) -> (r: Zp) {
        proof {
            use_type_invariant(&self);
        }
        Zp { val: PRIME as i64 - self.val }
    }
}

impl vstd::std_specs::ops::NegSpecImpl for Zp {
    open spec fn obeys_neg_spec() -> bool {
        true
    }

    open spec fn neg_req(self) -> bool {
        true
    }

    open spec fn neg_spec(self) -> Zp {
        Zp::from_raw(p() - self.raw())
    }
}

// ---------------------------------------------------------------------------
// What the operations on `Zp` mean in the field
// ---------------------------------------------------------------------------

/// Addition gives the canonical representative of the field sum.
pub broadcast proof fn lemma_add_elt(a: Zp, b: Zp)
    ensures
        #[trigger] a.add_spec(b).raw() == fadd(a.elt(), b.elt()),
{
    lemma_add_mod_noop(a.raw(), b.raw(), p());
}

/// Multiplication gives the canonical representative of the field product.
pub broadcast proof fn lemma_mul_elt(a: Zp, b: Zp)
    ensures
        #[trigger] a.mul_spec(b).raw() == fmul(a.elt(), b.elt()),
{
    lemma_mul_mod_noop_general(a.raw(), b.raw(), p());
}

/// Subtraction gives a representative of the field difference.
pub broadcast proof fn lemma_sub_elt(a: Zp, b: Zp)
    requires
        a.in_range(),
        b.in_range(),
    ensures
        #[trigger] a.sub_spec(b).elt() == fsub(a.elt(), b.elt()),
        a.sub_spec(b).in_range(),
{
    lemma_sub_mod_noop(a.raw(), b.raw(), p());
    if a.raw() < b.raw() {
        lemma_mod_add_multiples_vanish(a.raw() - b.raw(), p());
    }
}

/// Negation gives a representative of the field negation.
pub broadcast proof fn lemma_neg_elt(a: Zp)
    requires
        a.in_range(),
    ensures
        #[trigger] a.neg_spec().elt() == fneg(a.elt()),
        a.neg_spec().in_range(),
{
    lemma_sub_mod_noop(p(), a.raw(), p());
    lemma_mod_self_0(p());
    lemma_sub_mod_noop(0, a.raw(), p());
    lemma_small_mod(0, p() as nat);
}

/// The inverse only depends on the field element.
proof fn lemma_finv_mod(a: int)
    ensures
        finv(a) == finv(a % p()),
{
    lemma_mod_twice(a, p());
    if a % p() != 0 {
        let x = finv(a);
        let y = finv(a % p());
        lemma_inverse_exists(a);
        lemma_inverse_exists(a % p());
        lemma_mul_mod_noop_left(a, x, p());
        lemma_mul_mod_noop_left(a, y, p());
        lemma_inverse_unique(a, x, y);
    }
}

/// Division gives the canonical representative of the field quotient.
pub broadcast proof fn lemma_div_elt(a: Zp, b: Zp)
    ensures
        #[trigger] a.div_spec(b).raw() == fdiv(a.elt(), b.elt()),
{
    lemma_finv_mod(b.raw());
    lemma_mul_mod_noop_left(a.raw(), finv(b.raw()), p());
}

pub broadcast group group_zp_ops {
    lemma_from_raw,
    lemma_add_elt,
    lemma_mul_elt,
    lemma_sub_elt,
    lemma_neg_elt,
    lemma_div_elt,
}

// ---------------------------------------------------------------------------
// Inverses exist
// ---------------------------------------------------------------------------

/// The Euclidean remainder sequence, run in the proof: from a pair of
/// remainders with known Bezout coefficients, reaches a coefficient of 1.
proof fn lemma_euclid(a: int, r_last: int, r_this: int, s_last: int, s_this: int) -> (s: int)
    requires
        0 < a < p(),
        0 <= r_last,
        1 <= r_this,
        (s_last * a - r_last) % p() == 0,
        (s_this * a - r_this) % p() == 0,
        forall|d: int|
            #![trigger divides(d, r_last), divides(d, r_this)]
            d > 0 && divides(d, r_last) && divides(d, r_this) ==> divides(d, a) && divides(d, p()),
    ensures
        (s * a - 1) % p() == 0,
    decreases r_this,
{
    let q = r_last / r_this;
    let r_next = r_last % r_this;
    lemma_fundamental_div_mod(r_last, r_this);
    lemma_mod_pos_bound(r_last, r_this);
    if r_next == 0 {
        assert(divides(r_this, r_last));
        assert(divides(r_this, r_this)) by {
            lemma_mod_self_0(r_this);
        }
        lemma_common_divisor_is_one(r_this, a);
        s_this
    } else {
        let s_next = s_last - s_this * q;
        lemma_mod_zero_combination(s_last * a - r_last, s_this * a - r_this, q, p());
        assert(s_next * a - r_next == (s_last * a - r_last) - q * (s_this * a - r_this))
            by (nonlinear_arith)
            requires
                s_next == s_last - s_this * q,
                r_last == r_this * q + r_next,
        ;
        assert forall|d: int|
            #![trigger divides(d, r_this), divides(d, r_next)]
            d > 0 && divides(d, r_this) && divides(d, r_next) implies divides(d, a) && divides(
            d,
            p(),
        ) by {
            lemma_divides_combination(d, r_this, r_next, q);
            assert(q * r_this + r_next == r_last) by (nonlinear_arith)
                requires
                    r_last == r_this * q + r_next,
            ;
            assert(divides(d, r_last));
        }
        lemma_euclid(a, r_this, r_next, s_this, s_next)
    }
}

/// Every element that is not 0 in the field has an inverse.
pub proof fn lemma_inverse_exists(a: int)
    requires
        a % p() != 0,
    ensures
        is_inverse(a, finv(a)),
{
    let ar = a % p();
    lemma_mod_bound(a, p());
    assert((1 * ar - ar) % p() == 0) by {
        lemma_small_mod(0, p() as nat);
    }
    assert((0 * ar - p()) % p() == 0) by {
        lemma_mod_sub_multiples_vanish(0, p());
        lemma_small_mod(0, p() as nat);
    }
    assert forall|d: int|
        #![trigger divides(d, ar), divides(d, p())]
        d > 0 && divides(d, ar) && divides(d, p()) implies divides(d, ar) && divides(d, p()) by {
    }
    let s = lemma_euclid(ar, ar, p(), 1, 0);
    let x = s % p();
    lemma_mod_bound(s, p());
    // a * x == ar * s == 1 (mod p)
    assert((a * x) % p() == 1) by {
        lemma_mul_mod_noop_general(a, s, p());
        lemma_mod_multiples_vanish(0, s * ar - 1, p());
        lemma_add_mod_noop(s * ar - 1, 1, p());
        lemma_small_mod(1, p() as nat);
        lemma_mul_is_commutative(s, ar);
    }
    assert(is_inverse(a, x));
    lemma_finv_is(a, x);
}

// ---------------------------------------------------------------------------
// Field laws
// ---------------------------------------------------------------------------

/// Addition in the field is commutative and associative, with 0 as identity.
pub proof fn law_add(a: int, b: int, c: int)
    ensures
        fadd(a, b) == fadd(b, a),
        fadd(fadd(a, b), c) == fadd(a, fadd(b, c)),
        fadd(a, 0) == a % p(),
{
    assert(fadd(fadd(a, b), c) == (a + b + c) % p()) by {
        lemma_add_mod_noop(a + b, c, p());
        lemma_mod_twice(a + b, p());
        lemma_mod_twice(c, p());
    }
    assert(fadd(a, fadd(b, c)) == (a + (b + c)) % p()) by {
        lemma_add_mod_noop(a, b + c, p());
        lemma_mod_twice(b + c, p());
        lemma_mod_twice(a, p());
    }
    assert(a + b + c == a + (b + c));
}

/// Multiplication in the field is commutative and associative, with 1 as
/// identity, and distributes over addition.
pub proof fn law_mul(a: int, b: int, c: int)
    ensures
        fmul(a, b) == fmul(b, a),
        fmul(fmul(a, b), c) == fmul(a, fmul(b, c)),
        fmul(a, 1) == a % p(),
        fmul(a, fadd(b, c)) == fadd(fmul(a, b), fmul(a, c)),
{
    lemma_mul_is_commutative(a, b);
    lemma_mul_mod_noop_left(a * b, c, p());
    lemma_mul_mod_noop_right(a, b * c, p());
    lemma_mul_is_associative(a, b, c);
    lemma_mul_mod_noop_right(a, b + c, p());
    lemma_mul_is_distributive_add(a, b, c);
    lemma_add_mod_noop(a * b, a * c, p());
}

/// Subtraction undoes addition, and a value plus its negation is 0.
pub proof fn law_sub_neg(a: int, b: int)
    ensures
        fsub(fadd(a, b), b) == a % p(),
        fadd(fsub(a, b), b) == a % p(),
        fadd(a, fneg(a)) == 0,
        fsub(a, b) == fadd(a, fneg(b)),
{
    lemma_sub_after_add(a, b);
    lemma_add_after_sub(a, b);
    lemma_add_neg(a, 0 - a);
    lemma_add_neg(a, 0 - b);
    lemma_small_mod(0, p() as nat);
}

/// `(a + b) - b` is `a` in the field.
proof fn lemma_sub_after_add(a: int, b: int)
    ensures
        fsub(fadd(a, b), b) == a % p(),
{
    let x = (a + b) % p();
    lemma_sub_mod_noop(a + b, b, p());
    lemma_mod_twice(b, p());
    lemma_sub_mod_noop(x, b, p());
    assert(a + b - b == a);
}

/// `(a - b) + b` is `a` in the field.
proof fn lemma_add_after_sub(a: int, b: int)
    ensures
        fadd(fsub(a, b), b) == a % p(),
{
    let x = (a - b) % p();
    lemma_add_mod_noop(a - b, b, p());
    lemma_mod_twice(b, p());
    lemma_add_mod_noop(x, b, p());
    assert(a - b + b == a);
}

/// Adding `c % p()` is adding `c`.
proof fn lemma_add_neg(a: int, c: int)
    ensures
        (a + c % p()) % p() == (a + c) % p(),
{
    lemma_add_mod_noop(a, c, p());
    lemma_mod_twice(c, p());
    lemma_add_mod_noop(a, c % p(), p());
}

/// Division by an element that is not 0 undoes multiplication by it.
pub proof fn law_div(a: int, b: int)
    requires
        b % p() != 0,
    ensures
        fmul(b, finv(b)) == 1,
        fmul(fdiv(a, b), b) == a % p(),
        fdiv(fmul(a, b), b) == a % p(),
{
    lemma_inverse_exists(b);
    let x = finv(b);
    law_mul(a, x, b);
    law_mul(x, b, 1);
    law_mul(a, b, x);
    law_mul(b, x, 1);
    lemma_mod_twice(a, p());
    lemma_mul_mod_noop_left(a, x, p());
    lemma_mul_mod_noop_right(a, x * b % p(), p());
    lemma_mul_mod_noop_left(a * b, x, p());
    lemma_mul_mod_noop_right(a, b * x, p());
    lemma_mul_is_associative(a, b, x);
    lemma_mul_is_associative(a, x, b);
    lemma_mul_is_commutative(x, b);
}

// ---------------------------------------------------------------------------
// Zpe: an element of the ring of order MOD_BASE
// ---------------------------------------------------------------------------

/// An element of the integers modulo `MOD_BASE`. The stored representative
/// lies in `0..=MOD_BASE`; it is `MOD_BASE` only after negating zero.
#[derive(Copy, Clone, Debug, PartialEq, Eq, Structural, PartialOrd, Ord)]
pub struct Zpe(u64);

impl Zpe {
    /// The representative lies in `0..=MOD_BASE`.
    #[verifier::type_invariant]
    pub open spec fn in_range(self) -> bool {
        0 <= self.raw() <= MOD_BASE
    }

    /// The stored representative.
    pub closed spec fn raw(self) -> int {
        self.0 as int
    }

    /// The value whose representative is `r`.
    pub closed spec fn from_raw(r: int) -> Zpe {
        Zpe(r as u64)
    }

    /// `n` reduced modulo `MOD_BASE`.
    pub fn new(n: u64) -> (r: Zpe)
        ensures
            r.raw() == n as int % (MOD_BASE as int),
    {
        Zpe(n % MOD_BASE)
    }

    /// `Zpe::new` of a random `u64` reduced modulo `PRIME` (see `of_draw`).
    pub fn new_rand() -> (r: Zpe)
        ensures
            0 <= r.raw() < MOD_BASE,
    {
        Zpe::of_draw(random_u64())
    }

    /// The value that a random draw `x` makes: `Zpe::new(x % PRIME)`.
    pub fn of_draw(x: u64) -> (r: Zpe)
        ensures
            r.raw() == (x as int % p()) % (MOD_BASE as int),
    {
        Zpe::new(x % PRIME as u64)
    }
}

/// The representative of `Zpe::from_raw(r)` is `r`.
pub broadcast proof fn lemma_zpe_from_raw(r: int)
    requires
        0 <= r <= MOD_BASE,
    ensures
        #[trigger] Zpe::from_raw(r).raw() == r,
{
}

impl core::ops::Add for Zpe {
    type Output = Self;

    fn add(self, other: Self) -> (r: Self) {
        proof {
            use_type_invariant(&self);
            use_type_invariant(&other);
        }
        Self::new(self.0 + other.0)
    }
}

impl vstd::std_specs::ops::AddSpecImpl for Zpe {
    open spec fn obeys_add_spec() -> bool {
        true
    }

    open spec fn add_req(self, rhs: Zpe) -> bool {
        true
    }

    open spec fn add_spec(self, rhs: Zpe) -> Zpe {
        Zpe::from_raw((self.raw() + rhs.raw()) % (MOD_BASE as int))
    }
}

impl core::ops::AddAssign for Zpe {
    fn add_assign(&mut self, other: Self)
        ensures
            *final(self) == old(self).add_spec(other),
    {
        *self = *self + other;
    }
}

impl core::ops::Sub for Zpe {
    type Output = Self;

    fn sub(self, other: Self) -> (r: Self) {
        proof {
            use_type_invariant(&self);
            use_type_invariant(&other);
        }
        let lval = self.0 as i128;
        let rval = other.0 as i128;
        if lval - rval < 0 {
            Self::new((lval - rval + MOD_BASE as i128) as u64)
        } else {
            Self::new((lval - rval) as u64)
        }
    }
}

impl vstd::std_specs::ops::SubSpecImpl for Zpe {
    open spec fn obeys_sub_spec() -> bool {
        true
    }

    open spec fn sub_req(self, rhs: Zpe) -> bool {
        true
    }

    open spec fn sub_spec(self, rhs: Zpe) -> Zpe {
        Zpe::from_raw(
            (if self.raw() >= rhs.raw() {
                self.raw() - rhs.raw()
            } else {
                self.raw() - rhs.raw() + MOD_BASE
            }) % (MOD_BASE as int),
        )
    }
}

impl core::ops::Mul for Zpe {
    type Output = Self;

    fn mul(self, other: Self) -> (r: Self) {
        proof {
            use_type_invariant(&self);
            use_type_invariant(&other);
        }
        proof {
            assert(self.0 * other.0 <= 4) by (nonlinear_arith)
                requires
                    self.0 <= 2,
                    other.0 <= 2,
            ;
        }
        let result = (self.0 as u128 * other.0 as u128) % MOD_BASE as u128;
        Zpe(result as u64)
    }
}

impl vstd::std_specs::ops::MulSpecImpl for Zpe {
    open spec fn obeys_mul_spec() -> bool {
        true
    }

    open spec fn mul_req(self, rhs: Zpe) -> bool {
        true
    }

    open spec fn mul_spec(self, rhs: Zpe) -> Zpe {
        Zpe::from_raw((self.raw() * rhs.raw()) % (MOD_BASE as int))
    }
}

impl core::ops::MulAssign for Zpe {
    fn mul_assign(&mut self, other: Self)
        ensures
            *final(self) == old(self).mul_spec(other),
    {
        *self = *self * other;
    }
}

impl core::ops::Neg for Zpe {
    type Output = Self;

    fn neg(self) -> (r: Self) {
        proof {
            use_type_invariant(&self);
        }
        Zpe(MOD_BASE - self.0)
    }
}

impl vstd::std_specs::ops::NegSpecImpl for Zpe {
    open spec fn obeys_neg_spec() -> bool {
        true
    }

    open spec fn neg_req(self) -> bool {
        true
    }

    open spec fn neg_spec(self) -> Zpe {
        Zpe::from_raw(MOD_BASE - self.raw())
    }
}

// ---------------------------------------------------------------------------
// Laws of the operations on representatives
// ---------------------------------------------------------------------------

/// On canonical representatives, every operation gives the canonical
/// representative of the field result: `a - a` is 0 itself, never `PRIME`.
pub proof fn law_zp_ops_canonical(a: Zp, b: Zp)
    requires
        0 <= a.raw() < p(),
        0 <= b.raw() < p(),
    ensures
        a.add_spec(b).raw() == fadd(a.raw(), b.raw()),
        a.sub_spec(b).raw() == fsub(a.raw(), b.raw()),
        a.mul_spec(b).raw() == fmul(a.raw(), b.raw()),
        a.div_spec(b).raw() == fdiv(a.raw(), b.raw()),
        0 <= a.sub_spec(b).raw() < p(),
        a.sub_spec(a).raw() == 0,
{
    lemma_mod_bound(a.raw() + b.raw(), p());
    lemma_mod_bound(a.raw() * b.raw(), p());
    lemma_mod_bound(a.raw() * finv(b.raw()), p());
    if a.raw() >= b.raw() {
        lemma_small_mod((a.raw() - b.raw()) as nat, p() as nat);
    } else {
        lemma_mod_add_multiples_vanish(a.raw() - b.raw(), p());
        lemma_small_mod((a.raw() - b.raw() + p()) as nat, p() as nat);
    }
    lemma_small_mod(0, p() as nat);
}

/// The element of the two-element ring that a representative stands for.
pub open spec fn zpe_val(a: Zpe) -> int {
    a.raw() % 2
}

/// `Zpe` is the ring of integers modulo 2: each operation gives the
/// canonical result of the integer operation modulo 2, so 0 absorbs under
/// multiplication, 1 is its identity, and multiplication distributes over
/// addition.
pub proof fn law_zpe_ring(a: Zpe, b: Zpe, c: Zpe)
    requires
        a.in_range(),
        b.in_range(),
        c.in_range(),
    ensures
        a.add_spec(b).raw() == (zpe_val(a) + zpe_val(b)) % 2,
        a.sub_spec(b).raw() == (zpe_val(a) - zpe_val(b)) % 2,
        a.mul_spec(b).raw() == (zpe_val(a) * zpe_val(b)) % 2,
        zpe_val(a) == 0 ==> a.mul_spec(b).raw() == 0,
        zpe_val(a) == 1 ==> a.mul_spec(b).raw() == zpe_val(b),
        a.mul_spec(b).raw() == b.mul_spec(a).raw(),
        a.mul_spec(b.add_spec(c)).raw() == a.mul_spec(b).add_spec(a.mul_spec(c)).raw(),
{
    broadcast use lemma_zpe_from_raw;
    let (x, y, w) = (a.raw(), b.raw(), c.raw());
    assert(0 <= x <= 2 && 0 <= y <= 2 && 0 <= w <= 2);
    assert(0 <= (x + y) % 2 < 2 && 0 <= (y + w) % 2 < 2);
    assert(0 <= (x * y) % 2 < 2 && 0 <= (x * w) % 2 < 2) by (nonlinear_arith)
        requires
            0 <= x <= 2,
            0 <= y <= 2,
            0 <= w <= 2,
    ;
    assert((x * y) % 2 == ((x % 2) * (y % 2)) % 2 && x * y == y * x) by (nonlinear_arith)
        requires
            0 <= x <= 2,
            0 <= y <= 2,
    ;
    assert((x * ((y + w) % 2)) % 2 == ((x * y) % 2 + (x * w) % 2) % 2) by (nonlinear_arith)
        requires
            0 <= x <= 2,
            0 <= y <= 2,
            0 <= w <= 2,
    ;
    assert(0 <= (x * ((y + w) % 2)) % 2 < 2) by (nonlinear_arith)
        requires
            0 <= x <= 2,
            0 <= y <= 2,
            0 <= w <= 2,
    ;
    assert(((if x >= y { x - y } else { x - y + 2 }) % 2) == (x % 2 - y % 2) % 2);
    assert((x % 2 == 0 ==> (x * y) % 2 == 0) && (x % 2 == 1 ==> (x * y) % 2 == y % 2))
        by (nonlinear_arith)
        requires
            0 <= x <= 2,
            0 <= y <= 2,
    ;
}

} // verus!
