//! Exact rational numbers with a fixed machine representation.
//!
//! A `Rat` holds an `i64` numerator over a positive `i64` denominator.  Its
//! mathematical value is the ghost pair `QVal` of unbounded integers, and all
//! arithmetic contracts are stated over `QVal`.  Every operation returns the
//! canonical (lowest-terms) form of the exact result, or reports that this
//! form does not fit the machine representation.

use vstd::prelude::*;
use vstd::arithmetic::div_mod::{lemma_div_multiples_vanish, lemma_fundamental_div_mod, lemma_div_basics};

verus! {

/// Mathematical value of a rational number: an integer numerator `n` over a
/// positive integer denominator `d`.  Used only in specifications.
pub struct QVal {
    pub n: int,
    pub d: int,
}

/// A `QVal` is well-formed when its denominator is positive.
pub open spec fn qwf(q: QVal) -> bool {
    q.d >= 1
}

/// Equality of rational values, by cross-multiplication.
pub open spec fn q_eq(a: QVal, b: QVal) -> bool {
    a.n * b.d == b.n * a.d
}

/// Order on rational values with positive denominators, by cross-multiplication.
pub open spec fn q_le(a: QVal, b: QVal) -> bool {
    a.n * b.d <= b.n * a.d
}

/// Strict order on rational values with positive denominators.
pub open spec fn q_lt(a: QVal, b: QVal) -> bool {
    a.n * b.d < b.n * a.d
}

pub open spec fn q_zero() -> QVal {
    QVal { n: 0, d: 1 }
}

pub open spec fn q_of_int(n: int) -> QVal {
    QVal { n, d: 1 }
}

pub open spec fn q_add(a: QVal, b: QVal) -> QVal {
    QVal { n: a.n * b.d + b.n * a.d, d: a.d * b.d }
}

pub open spec fn q_sub(a: QVal, b: QVal) -> QVal {
    QVal { n: a.n * b.d - b.n * a.d, d: a.d * b.d }
}

pub open spec fn q_mul(a: QVal, b: QVal) -> QVal {
    QVal { n: a.n * b.n, d: a.d * b.d }
}

/// Reciprocal, with the sign moved to the numerator so the denominator stays positive.
pub open spec fn q_inv(b: QVal) -> QVal {
    if b.n >= 0 {
        QVal { n: b.d, d: b.n }
    } else {
        QVal { n: -b.d, d: -b.n }
    }
}

pub open spec fn q_div(a: QVal, b: QVal) -> QVal {
    q_mul(a, q_inv(b))
}

/// Absolute value of an integer, as a natural number.
pub open spec fn nabs(n: int) -> nat {
    if n >= 0 {
        n as nat
    } else {
        (-n) as nat
    }
}

/// Greatest common divisor by Euclid's recurrence.
pub open spec fn gcd(a: nat, b: nat) -> nat
    decreases b,
{
    if b == 0 {
        a
    } else {
        gcd(b, a % b)
    }
}

/// Canonical lowest-terms form of a rational value: both components divided
/// by their greatest common divisor.
pub open spec fn q_norm(q: QVal) -> QVal {
    if q.d >= 1 {
        let g = gcd(nabs(q.n), q.d as nat) as int;
        QVal { n: q.n / g, d: q.d / g }
    } else {
        q
    }
}

/// Whether a rational value fits the machine representation of `Rat`.
pub open spec fn q_fits(q: QVal) -> bool {
    &&& -(i64::MAX as int) <= q.n <= i64::MAX as int
    &&& 1 <= q.d <= i64::MAX as int
}

/// A rational value in lowest terms: well-formed, with coprime components.
/// Every value produced by this library's operations is of this form.
pub open spec fn q_reduced(q: QVal) -> bool {
    qwf(q) && gcd(nabs(q.n), q.d as nat) == 1
}

/// Normalized arithmetic: the exact operation followed by reduction to lowest terms.
pub open spec fn nadd(a: QVal, b: QVal) -> QVal {
    q_norm(q_add(a, b))
}

pub open spec fn nsub(a: QVal, b: QVal) -> QVal {
    q_norm(q_sub(a, b))
}

pub open spec fn nmul(a: QVal, b: QVal) -> QVal {
    q_norm(q_mul(a, b))
}

pub open spec fn ndiv(a: QVal, b: QVal) -> QVal {
    q_norm(q_div(a, b))
}

/// Multiplication wrapped in a spec function, used as a quantifier trigger.
pub open spec fn mul_i(a: int, b: int) -> int {
    a * b
}

/// `d` divides `a` over the integers.
pub open spec fn divides(d: int, a: int) -> bool {
    exists|k: int| a == mul_i(d, k)
}

proof fn lemma_divides_intro(d: int, a: int, k: int)
    requires
        a == d * k,
    ensures
        divides(d, a),
{
    assert(a == mul_i(d, k));
}

/// The gcd of two naturals, at least one positive, is positive.
pub proof fn lemma_gcd_pos(a: nat, b: nat)
    requires
        a > 0 || b > 0,
    ensures
        gcd(a, b) >= 1,
    decreases b,
{
    if b == 0 {
    } else {
        lemma_gcd_pos(b, a % b);
    }
}

/// The gcd of two naturals divides both of them.
pub proof fn lemma_gcd_divides(a: nat, b: nat)
    ensures
        divides(gcd(a, b) as int, a as int),
        divides(gcd(a, b) as int, b as int),
    decreases b,
{
    if b == 0 {
        lemma_divides_intro(a as int, a as int, 1);
        lemma_divides_intro(a as int, 0, 0);
    } else {
        lemma_gcd_divides(b, a % b);
        let g = gcd(b, a % b) as int;
        let k1 = choose|k: int| b as int == mul_i(g, k);
        let k2 = choose|k: int| (a % b) as int == mul_i(g, k);
        lemma_fundamental_div_mod(a as int, b as int);
        let q = a as int / b as int;
        assert(a as int == g * (k1 * q + k2)) by (nonlinear_arith)
            requires
                a as int == b as int * q + (a % b) as int,
                b as int == g * k1,
                (a % b) as int == g * k2,
        ;
        lemma_divides_intro(g, a as int, k1 * q + k2);
        lemma_divides_intro(g, b as int, k1);
    }
}

/// Any common divisor of two naturals divides their gcd.
proof fn lemma_gcd_greatest(a: nat, b: nat, e: int)
    requires
        e >= 1,
        divides(e, a as int),
        divides(e, b as int),
    ensures
        divides(e, gcd(a, b) as int),
    decreases b,
{
    if b == 0 {
    } else {
        let k1 = choose|k: int| a as int == mul_i(e, k);
        let k2 = choose|k: int| b as int == mul_i(e, k);
        lemma_fundamental_div_mod(a as int, b as int);
        let q = a as int / b as int;
        assert((a % b) as int == e * (k1 - k2 * q)) by (nonlinear_arith)
            requires
                a as int == b as int * q + (a % b) as int,
                a as int == e * k1,
                b as int == e * k2,
        ;
        lemma_divides_intro(e, (a % b) as int, k1 - k2 * q);
        lemma_gcd_greatest(b, a % b, e);
    }
}

/// Division of an exact multiple recovers the factor.
proof fn lemma_exact_div(x: int, g: int, k: int)
    requires
        g >= 1,
        x == g * k,
    ensures
        x / g == k,
{
    lemma_div_multiples_vanish(k, g);
}

/// The canonical form of a well-formed rational value is well-formed, equal
/// in value, no larger in either component, and of the same sign.
pub proof fn lemma_norm(q: QVal)
    requires
        qwf(q),
    ensures
        qwf(q_norm(q)),
        q_eq(q_norm(q), q),
        nabs(q_norm(q).n) <= nabs(q.n),
        1 <= q_norm(q).d <= q.d,
        q_norm(q).n >= 0 <==> q.n >= 0,
        q_norm(q).n == 0 <==> q.n == 0,
        q_reduced(q_norm(q)),
{
    let a = nabs(q.n);
    let d = q.d as nat;
    lemma_gcd_pos(a, d);
    lemma_gcd_divides(a, d);
    let g = gcd(a, d) as int;
    let ka = choose|k: int| a as int == mul_i(g, k);
    let kd = choose|k: int| d as int == mul_i(g, k);
    assert(ka >= 0) by (nonlinear_arith)
        requires
            g >= 1,
            g * ka >= 0,
    ;
    assert(kd >= 1) by (nonlinear_arith)
        requires
            g >= 1,
            g * kd >= 1,
    ;
    let kn: int = if q.n >= 0 { ka } else { -ka };
    assert(q.n == g * kn) by (nonlinear_arith)
        requires
            (q.n >= 0 && a as int == g * ka && kn == ka && q.n == a as int)
            || (q.n < 0 && a as int == g * ka && kn == -ka && q.n == -(a as int)),
    ;
    lemma_exact_div(q.n, g, kn);
    lemma_exact_div(q.d, g, kd);
    assert(q_norm(q) == QVal { n: kn, d: kd });
    assert(kn * q.d == q.n * kd) by (nonlinear_arith)
        requires
            q.n == g * kn,
            q.d == g * kd,
    ;
    assert(ka <= g * ka) by (nonlinear_arith)
        requires
            g >= 1,
            ka >= 0,
    ;
    assert(kd <= g * kd) by (nonlinear_arith)
        requires
            g >= 1,
            kd >= 1,
    ;
    if q.n < 0 {
        assert(ka > 0) by (nonlinear_arith)
            requires
                g >= 1,
                g * ka > 0,
        ;
    }
    if q.n == 0 {
        assert(ka == 0) by (nonlinear_arith)
            requires
                g >= 1,
                g * ka == 0,
        ;
    }
    if kn == 0 {
        assert(q.n == 0) by (nonlinear_arith)
            requires
                q.n == g * kn,
                kn == 0,
        ;
    }
    // the components of the canonical form are coprime
    assert(nabs(kn) == ka as nat);
    lemma_gcd_pos(ka as nat, kd as nat);
    lemma_gcd_divides(ka as nat, kd as nat);
    let h = gcd(ka as nat, kd as nat) as int;
    let j1 = choose|k: int| ka == mul_i(h, k);
    let j2 = choose|k: int| kd == mul_i(h, k);
    assert(a as int == (g * h) * j1) by (nonlinear_arith)
        requires
            a as int == g * ka,
            ka == h * j1,
    ;
    assert(d as int == (g * h) * j2) by (nonlinear_arith)
        requires
            d as int == g * kd,
            kd == h * j2,
    ;
    assert(g * h >= 1) by (nonlinear_arith)
        requires
            g >= 1,
            h >= 1,
    ;
    let gh: int = g * h;
    lemma_divides_intro(gh, a as int, j1);
    lemma_divides_intro(gh, d as int, j2);
    lemma_gcd_greatest(a, d, gh);
    let kk = choose|k: int| g == mul_i(gh, k);
    assert(h == 1) by (nonlinear_arith)
        requires
            gh == g * h,
            g == gh * kk,
            g >= 1,
            h >= 1,
    ;
}

/// The canonical form of zero over any positive denominator is `0/1`.
pub proof fn lemma_norm_zero(d: int)
    requires
        d >= 1,
    ensures
        q_norm(QVal { n: 0, d }) == q_zero(),
{
    let q = QVal { n: 0, d };
    assert(nabs(0) == 0);
    assert(gcd(0, d as nat) == gcd(d as nat, 0));
    assert(gcd(d as nat, 0) == d as nat);
    lemma_div_basics(d);
    assert(q_norm(q).n == 0int / d);
    assert(0int / d == 0) by {
        lemma_div_basics(d);
    }
}

/// The exact sum, difference, product, and quotient of well-formed rational
/// values are well-formed, as are their canonical forms.
pub proof fn lemma_ops_wf(a: QVal, b: QVal)
    requires
        qwf(a),
        qwf(b),
    ensures
        qwf(q_add(a, b)),
        qwf(q_sub(a, b)),
        qwf(q_mul(a, b)),
        b.n != 0 ==> qwf(q_div(a, b)),
        qwf(nadd(a, b)),
        qwf(nsub(a, b)),
        qwf(nmul(a, b)),
        b.n != 0 ==> qwf(ndiv(a, b)),
{
    assert(a.d * b.d >= 1) by (nonlinear_arith)
        requires
            a.d >= 1,
            b.d >= 1,
    ;
    lemma_norm(q_add(a, b));
    lemma_norm(q_sub(a, b));
    lemma_norm(q_mul(a, b));
    if b.n != 0 {
        if b.n >= 1 {
            assert(a.d * b.n >= 1) by (nonlinear_arith)
                requires
                    a.d >= 1,
                    b.n >= 1,
            ;
        } else {
            assert(a.d * (-b.n) >= 1) by (nonlinear_arith)
                requires
                    a.d >= 1,
                    -b.n >= 1,
            ;
        }
        lemma_norm(q_div(a, b));
    }
}

/// A rational number: an `i64` numerator over a positive `i64` denominator.
///
/// All values produced by this library are in lowest terms; well-formedness
/// itself only requires the denominator to be positive and the numerator to
/// avoid `i64::MIN`, so that magnitudes always fit the representation.
#[derive(Clone, Copy, Debug, PartialEq, Eq, Structural)]
pub struct Rat {
    num: i64,
    den: i64,
}

impl View for Rat {
    type V = QVal;

    closed spec fn view(&self) -> QVal {
        QVal { n: self.num as int, d: self.den as int }
    }
}

impl Rat {
    /// A machine rational is well-formed when its mathematical value fits the
    /// representation: positive denominator, numerator above `i64::MIN`.
    pub open spec fn wf(self) -> bool {
        q_fits(self@)
    }

    pub fn num(&self) -> (n: i64)
        ensures
            n as int == self@.n,
    {
        self.num
    }

    pub fn den(&self) -> (d: i64)
        ensures
            d as int == self@.d,
    {
        self.den
    }

    /// The rational zero.
    pub fn zero() -> (r: Rat)
        ensures
            r.wf(),
            r@ == q_zero(),
    {
        Rat { num: 0, den: 1 }
    }

    /// The rational with value `n`.
    pub fn from_int(n: i64) -> (r: Rat)
        requires
            n != i64::MIN,
        ensures
            r.wf(),
            r@ == q_of_int(n as int),
    {
        Rat { num: n, den: 1 }
    }

    /// The rational `num / den`, in lowest terms.
    pub fn new(num: i64, den: i64) -> (r: Rat)
        requires
            den >= 1,
            num != i64::MIN,
        ensures
            r.wf(),
            r@ == q_norm(QVal { n: num as int, d: den as int }),
    {
        proof {
            lemma_norm(QVal { n: num as int, d: den as int });
        }
        reduce_i128(num as i128, den as i128).unwrap()
    }

    /// Exact addition; `None` when the canonical sum does not fit.
    pub fn add(self, other: Rat) -> (r: Option<Rat>)
        requires
            self.wf(),
            other.wf(),
        ensures
            match r {
                Some(c) => c.wf() && c@ == nadd(self@, other@),
                None => !q_fits(nadd(self@, other@)),
            },
    {
        proof {
            lemma_i64_prod_bounds(self@.n, other@.d);
            lemma_i64_prod_bounds(other@.n, self@.d);
            lemma_i64_prod_bounds(self@.d, other@.d);
            lemma_den_prod_pos(self@.d, other@.d);
        }
        let n: i128 = (self.num as i128) * (other.den as i128) + (other.num as i128) * (self.den as i128);
        let d: i128 = (self.den as i128) * (other.den as i128);
        reduce_i128(n, d)
    }

    /// Exact subtraction; `None` when the canonical difference does not fit.
    pub fn sub(self, other: Rat) -> (r: Option<Rat>)
        requires
            self.wf(),
            other.wf(),
        ensures
            match r {
                Some(c) => c.wf() && c@ == nsub(self@, other@),
                None => !q_fits(nsub(self@, other@)),
            },
    {
        proof {
            lemma_i64_prod_bounds(self@.n, other@.d);
            lemma_i64_prod_bounds(other@.n, self@.d);
            lemma_i64_prod_bounds(self@.d, other@.d);
            lemma_den_prod_pos(self@.d, other@.d);
        }
        let n: i128 = (self.num as i128) * (other.den as i128) - (other.num as i128) * (self.den as i128);
        let d: i128 = (self.den as i128) * (other.den as i128);
        reduce_i128(n, d)
    }

    /// Exact multiplication; `None` when the canonical product does not fit.
    pub fn mul(self, other: Rat) -> (r: Option<Rat>)
        requires
            self.wf(),
            other.wf(),
        ensures
            match r {
                Some(c) => c.wf() && c@ == nmul(self@, other@),
                None => !q_fits(nmul(self@, other@)),
            },
    {
        proof {
            lemma_i64_prod_bounds(self@.n, other@.n);
            lemma_i64_prod_bounds(self@.d, other@.d);
            lemma_den_prod_pos(self@.d, other@.d);
        }
        let n: i128 = (self.num as i128) * (other.num as i128);
        let d: i128 = (self.den as i128) * (other.den as i128);
        reduce_i128(n, d)
    }

    /// Exact division by a nonzero rational; `None` when the canonical
    /// quotient does not fit.
    pub fn div(self, other: Rat) -> (r: Option<Rat>)
        requires
            self.wf(),
            other.wf(),
            other@.n != 0,
        ensures
            match r {
                Some(c) => c.wf() && c@ == ndiv(self@, other@),
                None => !q_fits(ndiv(self@, other@)),
            },
    {
        proof {
            lemma_i64_prod_bounds(self@.n, other@.d);
            lemma_i64_prod_bounds(self@.d, other@.n);
        }
        let n0: i128 = (self.num as i128) * (other.den as i128);
        let d0: i128 = (self.den as i128) * (other.num as i128);
        let ghost a = self@;
        let ghost b = other@;
        if d0 < 0 {
            proof {
                assert(b.n < 0) by (nonlinear_arith)
                    requires
                        a.d >= 1,
                        a.d * b.n < 0,
                ;
                assert(a.d * (-b.n) >= 1 && a.d * (-b.n) == -(a.d * b.n) && a.n * (-b.d) == -(a.n * b.d))
                    by (nonlinear_arith)
                    requires
                        a.d >= 1,
                        b.n <= -1,
                ;
                assert(q_inv(b) == QVal { n: -b.d, d: -b.n });
                assert(q_div(a, b) == QVal { n: a.n * (-b.d), d: a.d * (-b.n) });
                assert(q_div(a, b) == QVal { n: (-n0) as int, d: (-d0) as int });
            }
            reduce_i128(-n0, -d0)
        } else {
            proof {
                assert(b.n > 0) by (nonlinear_arith)
                    requires
                        a.d >= 1,
                        b.n != 0,
                        a.d * b.n >= 0,
                ;
                assert(a.d * b.n >= 1) by (nonlinear_arith)
                    requires
                        a.d >= 1,
                        b.n >= 1,
                ;
                assert(q_inv(b) == QVal { n: b.d, d: b.n });
                assert(q_div(a, b) == QVal { n: n0 as int, d: d0 as int });
            }
            reduce_i128(n0, d0)
        }
    }
}

/// Bound on the product of two i64-range integers.
proof fn lemma_i64_prod_bounds(x: int, y: int)
    requires
        -(i64::MAX as int) <= x <= i64::MAX as int,
        -(i64::MAX as int) <= y <= i64::MAX as int,
    ensures
        -(i64::MAX as int) * (i64::MAX as int) <= x * y <= (i64::MAX as int) * (i64::MAX as int),
{
    assert(-(i64::MAX as int) * (i64::MAX as int) <= x * y <= (i64::MAX as int) * (i64::MAX as int))
        by (nonlinear_arith)
        requires
            -(i64::MAX as int) <= x <= i64::MAX as int,
            -(i64::MAX as int) <= y <= i64::MAX as int,
    ;
}

/// The product of two positive denominators is positive.
proof fn lemma_den_prod_pos(x: int, y: int)
    requires
        x >= 1,
        y >= 1,
    ensures
        x * y >= 1,
{
    assert(x * y >= 1) by (nonlinear_arith)
        requires
            x >= 1,
            y >= 1,
    ;
}

/// Euclid's algorithm.
fn gcd_u128(a0: u128, b0: u128) -> (g: u128)
    requires
        b0 >= 1,
    ensures
        g as nat == gcd(a0 as nat, b0 as nat),
        g >= 1,
{
    let mut a: u128 = a0;
    let mut b: u128 = b0;
    while b != 0
        invariant
            gcd(a as nat, b as nat) == gcd(a0 as nat, b0 as nat),
            a >= 1 || b >= 1,
        decreases b,
    {
        let t: u128 = a % b;
        a = b;
        b = t;
    }
    a
}

/// Reduce an exact integer pair to the canonical `Rat`, or report that the
/// canonical form does not fit.
fn reduce_i128(n: i128, d: i128) -> (r: Option<Rat>)
    requires
        1 <= d,
        n > i128::MIN,
    ensures
        match r {
            Some(c) => c.wf() && c@ == q_norm(QVal { n: n as int, d: d as int }),
            None => !q_fits(q_norm(QVal { n: n as int, d: d as int })),
        },
{
    let ghost q = QVal { n: n as int, d: d as int };
    let neg: bool = n < 0;
    let na: u128 = if neg { (-n) as u128 } else { n as u128 };
    let da: u128 = d as u128;
    proof {
        assert(na as nat == nabs(q.n));
    }
    let g: u128 = gcd_u128(na, da);
    let rn: u128 = na / g;
    let rd: u128 = da / g;
    proof {
        lemma_gcd_divides(na as nat, da as nat);
        let gi = g as int;
        let ka = choose|k: int| na as int == mul_i(gi, k);
        let kd = choose|k: int| da as int == mul_i(gi, k);
        assert(ka >= 0) by (nonlinear_arith)
            requires
                gi >= 1,
                gi * ka >= 0,
        ;
        assert(kd >= 1) by (nonlinear_arith)
            requires
                gi >= 1,
                gi * kd >= 1,
        ;
        lemma_exact_div(na as int, gi, ka);
        lemma_exact_div(da as int, gi, kd);
        assert(rn as int == ka);
        assert(rd as int == kd);
        let kn: int = if neg { -ka } else { ka };
        assert(q.n == gi * kn) by (nonlinear_arith)
            requires
                (!neg && na as int == gi * ka && kn == ka && q.n == na as int)
                || (neg && na as int == gi * ka && kn == -ka && q.n == -(na as int)),
        ;
        lemma_exact_div(q.n, gi, kn);
        assert(q_norm(q) == QVal { n: kn, d: kd });
    }
    if rd > (i64::MAX as u128) {
        return None;
    }
    if rn > (i64::MAX as u128) {
        return None;
    }
    let num: i64 = if neg {
        -(rn as i64)
    } else {
        rn as i64
    };
    Some(Rat { num, den: rd as i64 })
}

/// Precision step of the square-root approximation: one millionth.
pub open spec fn q_eps() -> QVal {
    QVal { n: 1, d: 1000000 }
}

/// `r` approximates the square root of `v` from below, within `q_eps()`:
/// `r^2 <= v < (r + eps)^2`.
pub open spec fn sqrt_approx_ok(r: QVal, v: QVal) -> bool {
    &&& r.n >= 0
    &&& qwf(r)
    &&& q_le(q_mul(r, r), v)
    &&& q_lt(v, q_mul(q_add(r, q_eps()), q_add(r, q_eps())))
}

/// Floor of the integer square root, for inputs below 2^104.
fn isqrt_u128(n: u128) -> (r: u128)
    requires
        n < 0x100000000000000000000000000u128,
    ensures
        r * r <= n,
        n < (r + 1) * (r + 1),
        r < 0x10000000000000u128,
{
    let mut lo: u128 = 0;
    let mut hi: u128 = 0x10000000000000u128;
    proof {
        assert(0x10000000000000u128 * 0x10000000000000u128 == 0x100000000000000000000000000u128);
    }
    while lo + 1 < hi
        invariant
            lo < hi <= 0x10000000000000u128,
            lo * lo <= n,
            n < hi * hi,
        decreases hi - lo,
    {
        let mid: u128 = lo + (hi - lo) / 2;
        proof {
            assert(lo < mid < hi);
            assert(mid * mid < 0x100000000000000000000000000u128) by (nonlinear_arith)
                requires
                    mid < 0x10000000000000u128,
            ;
        }
        if mid * mid <= n {
            lo = mid;
        } else {
            hi = mid;
        }
    }
    lo
}

/// A rational approximation of the square root of a nonnegative rational,
/// from below, within one millionth.
pub fn sqrt_approx(v: Rat) -> (r: Rat)
    requires
        v.wf(),
        v@.n >= 0,
    ensures
        r.wf(),
        sqrt_approx_ok(r@, v@),
{
    let p: u128 = v.num() as u128;
    let q: u128 = v.den() as u128;
    proof {
        assert((p as int) * 1000000 * 1000000 < 0x100000000000000000000000000) by (nonlinear_arith)
            requires
                0 <= p as int <= i64::MAX as int,
        ;
    }
    let scaled_num: u128 = p * 1000000 * 1000000;
    let scaled: u128 = scaled_num / q;
    let t: u128 = isqrt_u128(scaled);
    proof {
        lemma_fundamental_div_mod(scaled_num as int, q as int);
        let s2: int = 1000000int * 1000000;
        // lower bound: t^2 * q <= scaled * q <= p * 10^12
        assert((t as int) * (t as int) * (q as int) <= (scaled as int) * (q as int)) by (nonlinear_arith)
            requires
                (t as int) * (t as int) <= scaled as int,
                q as int >= 1,
        ;
        assert((scaled as int) * (q as int) <= scaled_num as int) by (nonlinear_arith)
            requires
                scaled_num as int == (q as int) * (scaled as int) + (scaled_num as int) % (q as int),
                (scaled_num as int) % (q as int) >= 0,
        ;
        // upper bound: p * 10^12 < q * (scaled + 1) <= q * (t+1)^2
        assert((scaled_num as int) < (q as int) * ((scaled as int) + 1)) by (nonlinear_arith)
            requires
                scaled_num as int == (q as int) * (scaled as int) + (scaled_num as int) % (q as int),
                (scaled_num as int) % (q as int) < q as int,
        ;
        assert((q as int) * ((scaled as int) + 1) <= (q as int) * (((t as int) + 1) * ((t as int) + 1)))
            by (nonlinear_arith)
            requires
                (scaled as int) + 1 <= ((t as int) + 1) * ((t as int) + 1),
                q as int >= 1,
        ;
    }
    let r = Rat { num: t as i64, den: 1000000 };
    proof {
        let rv = r@;
        let vv = v@;
        let ti = t as int;
        let qi = q as int;
        let pi = p as int;
        // q_le(r*r, v):  (t*t) * q <= p * (10^6 * 10^6)
        assert(q_mul(rv, rv) == QVal { n: ti * ti, d: 1000000int * 1000000 });
        assert(q_le(q_mul(rv, rv), vv)) by (nonlinear_arith)
            requires
                q_mul(rv, rv) == (QVal { n: ti * ti, d: 1000000int * 1000000 }),
                vv == (QVal { n: pi, d: qi }),
                ti * ti * qi <= pi * 1000000 * 1000000,
        ;
        // q_lt(v, (r+eps)^2): p * (10^6)^4 < (10^6 (t+1))^2 * q
        let re = q_add(rv, q_eps());
        assert(re == QVal { n: ti * 1000000 + 1 * 1000000, d: 1000000int * 1000000 });
        assert(q_lt(vv, q_mul(re, re))) by (nonlinear_arith)
            requires
                re == (QVal { n: (ti + 1) * 1000000, d: 1000000int * 1000000 }),
                vv == (QVal { n: pi, d: qi }),
                pi * 1000000 * 1000000 < qi * (((ti) + 1) * ((ti) + 1)),
                qi >= 1,
        ;
    }
    r
}

} // verus!
