//! Laws of the estimation engine, each proved from the library's own
//! specifications: the mean is the sum divided by the count, variance is
//! nonnegative and vanishes on constant data, covariance is symmetric, and a
//! point with vanishing gradients is a fixed point of gradient descent.

use vstd::prelude::*;
use vstd::arithmetic::div_mod::lemma_div_basics;
use crate::rational::{
    QVal, qwf, q_eq, q_le, q_reduced, q_zero, q_of_int, q_add, q_sub, q_mul, q_div, q_inv,
    q_norm, nadd, nsub, nmul, lemma_norm, lemma_norm_zero, lemma_ops_wf,
};
use crate::stats::{
    all_qwf, nsum, mean_spec, var_spec, sq_dev, sq_devs, cov_term, cov_term_fits,
    cov_terms, cov_spec, cov_fits,
};
use crate::regression::{lemma_sq_dev_nonneg, lemma_nsum_nonneg, lemma_ndiv_count_nonneg};
use crate::gradient_descent::{
    q_mtwo, resid, bterm, mterm, bterms, mterms, b_grad_spec, m_grad_spec, step_spec, gd_spec,
};

verus! {

/// The exact (unnormalized) left-to-right sum of a sequence of rationals.
pub open spec fn q_sum(s: Seq<QVal>) -> QVal
    decreases s.len(),
{
    if s.len() == 0 {
        q_zero()
    } else {
        q_add(q_sum(s.drop_last()), s.last())
    }
}

/// Transitivity of rational value equality.
proof fn lemma_q_eq_trans(a: QVal, b: QVal, c: QVal)
    requires
        qwf(a),
        qwf(b),
        qwf(c),
        q_eq(a, b),
        q_eq(b, c),
    ensures
        q_eq(a, c),
{
    assert((a.n * c.d) * b.d == (c.n * a.d) * b.d) by (nonlinear_arith)
        requires
            a.n * b.d == b.n * a.d,
            b.n * c.d == c.n * b.d,
    ;
    assert(a.n * c.d == c.n * a.d) by (nonlinear_arith)
        requires
            (a.n * c.d) * b.d == (c.n * a.d) * b.d,
            b.d >= 1,
    ;
}

/// Adding the same value to equal rationals gives equal rationals.
#[verifier::rlimit(50)]
proof fn lemma_q_add_cong_left(a: QVal, a2: QVal, b: QVal)
    requires
        qwf(a),
        qwf(a2),
        qwf(b),
        q_eq(a, a2),
    ensures
        q_eq(q_add(a, b), q_add(a2, b)),
{
    assert((a.n * b.d + b.n * a.d) * (a2.d * b.d) == (a.n * a2.d) * (b.d * b.d) + b.n * (a.d
        * (a2.d * b.d))) by (nonlinear_arith);
    assert((a2.n * b.d + b.n * a2.d) * (a.d * b.d) == (a2.n * a.d) * (b.d * b.d) + b.n * (a2.d
        * (a.d * b.d))) by (nonlinear_arith);
    assert(a.d * (a2.d * b.d) == a2.d * (a.d * b.d)) by (nonlinear_arith);
    assert((a.n * a2.d) * (b.d * b.d) == (a2.n * a.d) * (b.d * b.d)) by (nonlinear_arith)
        requires
            a.n * a2.d == a2.n * a.d,
    ;
}

/// Dividing equal rationals by the same positive count gives equal rationals.
proof fn lemma_q_div_count_cong(a: QVal, a2: QVal, len: int)
    requires
        qwf(a),
        qwf(a2),
        len >= 1,
        q_eq(a, a2),
    ensures
        q_eq(q_div(a, q_of_int(len)), q_div(a2, q_of_int(len))),
{
    assert(q_inv(q_of_int(len)) == QVal { n: 1, d: len });
    assert(q_div(a, q_of_int(len)) == QVal { n: a.n * 1, d: a.d * len });
    assert(q_div(a2, q_of_int(len)) == QVal { n: a2.n * 1, d: a2.d * len });
    assert((a.n * 1) * (a2.d * len) == (a2.n * 1) * (a.d * len)) by (nonlinear_arith)
        requires
            a.n * a2.d == a2.n * a.d,
    ;
}

/// The exact sum of well-formed rationals is well-formed.
proof fn lemma_q_sum_wf(s: Seq<QVal>)
    requires
        all_qwf(s),
    ensures
        qwf(q_sum(s)),
    decreases s.len(),
{
    if s.len() > 0 {
        lemma_q_sum_wf(s.drop_last());
        lemma_ops_wf(q_sum(s.drop_last()), s.last());
    }
}

/// The canonical sum of well-formed rationals is well-formed.
pub proof fn lemma_nsum_wf(s: Seq<QVal>)
    requires
        all_qwf(s),
    ensures
        qwf(nsum(s)),
    decreases s.len(),
{
    if s.len() > 0 {
        lemma_nsum_wf(s.drop_last());
        lemma_ops_wf(nsum(s.drop_last()), s.last());
    }
}

/// The canonical sum has the same value as the exact sum.
proof fn lemma_nsum_q_eq(s: Seq<QVal>)
    requires
        all_qwf(s),
    ensures
        qwf(nsum(s)),
        qwf(q_sum(s)),
        q_eq(nsum(s), q_sum(s)),
    decreases s.len(),
{
    lemma_nsum_wf(s);
    lemma_q_sum_wf(s);
    if s.len() == 0 {
    } else {
        lemma_nsum_q_eq(s.drop_last());
        let a = nsum(s.drop_last());
        let e = q_sum(s.drop_last());
        let x = s.last();
        lemma_ops_wf(a, x);
        lemma_ops_wf(e, x);
        lemma_norm(q_add(a, x));
        lemma_q_add_cong_left(a, e, x);
        lemma_q_eq_trans(nsum(s), q_add(a, x), q_add(e, x));
    }
}

/// The mean of a sequence of well-formed rationals is well-formed.
pub proof fn lemma_mean_wf(s: Seq<QVal>)
    requires
        all_qwf(s),
    ensures
        qwf(mean_spec(s)),
{
    if s.len() > 0 {
        lemma_nsum_wf(s);
        lemma_ops_wf(nsum(s), q_of_int(s.len() as int));
    }
}

/// The mean of a non-empty sequence equals its exact sum divided by its
/// count, and the mean of the empty sequence is zero.
pub proof fn lemma_mean_is_sum_div_count(s: Seq<QVal>)
    requires
        all_qwf(s),
    ensures
        s.len() == 0 ==> mean_spec(s) == q_zero(),
        s.len() >= 1 ==> q_eq(mean_spec(s), q_div(q_sum(s), q_of_int(s.len() as int))),
{
    if s.len() >= 1 {
        let len = s.len() as int;
        let lenq = q_of_int(len);
        lemma_nsum_q_eq(s);
        let a = nsum(s);
        let e = q_sum(s);
        lemma_ops_wf(a, lenq);
        lemma_ops_wf(e, lenq);
        lemma_norm(q_div(a, lenq));
        lemma_q_div_count_cong(a, e, len);
        lemma_q_eq_trans(mean_spec(s), q_div(a, lenq), q_div(e, lenq));
    }
}

/// Variance is nonnegative on every input, and zero on the empty sequence.
pub proof fn lemma_variance_nonneg(s: Seq<QVal>)
    requires
        all_qwf(s),
    ensures
        qwf(var_spec(s)),
        q_le(q_zero(), var_spec(s)),
        s.len() == 0 ==> var_spec(s) == q_zero(),
{
    if s.len() == 0 {
    } else {
        let m = mean_spec(s);
        lemma_mean_wf(s);
        let terms = sq_devs(s, m);
        assert forall|j: int| 0 <= j < terms.len() implies qwf(#[trigger] terms[j])
            && terms[j].n >= 0 by {
            lemma_sq_dev_nonneg(s[j], m);
        }
        lemma_nsum_nonneg(terms);
        lemma_ndiv_count_nonneg(nsum(terms), s.len() as int);
        let v = var_spec(s);
        assert(0 * v.d <= v.n * 1) by (nonlinear_arith)
            requires
                v.n >= 0,
                v.d >= 1,
        ;
    }
}

/// The canonical sum of a sequence of exact zeros is the exact zero.
proof fn lemma_nsum_zeros(s: Seq<QVal>)
    requires
        forall|i: int| 0 <= i < s.len() ==> s[i] == q_zero(),
    ensures
        nsum(s) == q_zero(),
    decreases s.len(),
{
    if s.len() > 0 {
        lemma_nsum_zeros(s.drop_last());
        assert(q_add(q_zero(), q_zero()).n == 0int * 1 + 0int * 1);
        assert(q_add(q_zero(), q_zero()).d == 1int * 1);
        assert(0int * 1 + 0int * 1 == 0 && 1int * 1 == 1) by (nonlinear_arith);
        lemma_norm_zero(1);
    }
}

/// The variance of a constant sequence is exactly zero.
pub proof fn lemma_variance_constant(s: Seq<QVal>, c: QVal)
    requires
        qwf(c),
        forall|i: int| 0 <= i < s.len() ==> s[i] == c,
    ensures
        var_spec(s) == q_zero(),
{
    if s.len() == 0 {
    } else {
        let len = s.len() as int;
        let m = mean_spec(s);
        lemma_mean_const(s, c);
        assert(q_eq(c, m));
        // every deviation is exactly zero
        assert forall|i: int| 0 <= i < s.len() implies #[trigger] sq_dev(s[i], m) == q_zero() by {
            assert(q_sub(c, m).n == c.n * m.d - m.n * c.d);
            assert(c.n * m.d - m.n * c.d == 0);
            assert(c.d * m.d >= 1) by (nonlinear_arith)
                requires
                    c.d >= 1,
                    m.d >= 1,
            ;
            lemma_norm_zero(c.d * m.d);
            assert(nsub(s[i], m) == q_zero());
            assert(q_mul(q_zero(), q_zero()).n == 0int * 0 && q_mul(q_zero(), q_zero()).d == 1int * 1);
            assert(0int * 0 == 0 && 1int * 1 == 1) by (nonlinear_arith);
            lemma_norm_zero(1);
        }
        let terms = sq_devs(s, m);
        assert(forall|i: int| 0 <= i < terms.len() ==> terms[i] == q_zero());
        lemma_nsum_zeros(terms);
        // dividing zero by the count gives exactly zero
        assert(q_inv(q_of_int(len)) == QVal { n: 1, d: len });
        assert(q_mul(q_zero(), q_inv(q_of_int(len))).n == 0int * 1);
        assert(q_mul(q_zero(), q_inv(q_of_int(len))).d == 1int * len);
        assert(0int * 1 == 0) by (nonlinear_arith);
        assert(1int * len == len) by (nonlinear_arith);
        lemma_norm_zero(len);
    }
}

/// The mean of a constant sequence has the constant's value.
proof fn lemma_mean_const(s: Seq<QVal>, c: QVal)
    requires
        qwf(c),
        s.len() >= 1,
        forall|i: int| 0 <= i < s.len() ==> s[i] == c,
    ensures
        qwf(mean_spec(s)),
        q_eq(mean_spec(s), c),
{
    let len = s.len() as int;
    let lenq = q_of_int(len);
    lemma_mean_wf(s);
    lemma_nsum_const(s, c);
    let a = nsum(s);
    lemma_ops_wf(a, lenq);
    lemma_norm(q_div(a, lenq));
    assert(q_inv(lenq) == QVal { n: 1, d: len });
    assert(q_div(a, lenq) == QVal { n: a.n * 1, d: a.d * len });
    assert(q_eq(q_div(a, lenq), c)) by (nonlinear_arith)
        requires
            q_div(a, lenq) == (QVal { n: a.n * 1, d: a.d * len }),
            a.n * c.d == (c.n * len) * a.d,
            q_eq(q_div(a, lenq), c) == ((a.n * 1) * c.d == c.n * (a.d * len)),
    ;
    lemma_q_eq_trans(mean_spec(s), q_div(a, lenq), c);
}

/// The canonical sum of a constant sequence equals count times the constant.
proof fn lemma_nsum_const(s: Seq<QVal>, c: QVal)
    requires
        qwf(c),
        forall|i: int| 0 <= i < s.len() ==> s[i] == c,
    ensures
        qwf(nsum(s)),
        q_eq(nsum(s), QVal { n: c.n * s.len(), d: c.d }),
    decreases s.len(),
{
    let t = QVal { n: c.n * s.len(), d: c.d };
    if s.len() == 0 {
        assert(q_eq(q_zero(), t)) by (nonlinear_arith)
            requires
                t == (QVal { n: c.n * 0, d: c.d }),
                q_eq(q_zero(), t) == (0int * c.d == t.n * 1),
        ;
    } else {
        let s0 = s.drop_last();
        assert(forall|i: int| 0 <= i < s0.len() ==> s0[i] == c);
        lemma_nsum_const(s0, c);
        let a = nsum(s0);
        let t0 = QVal { n: c.n * s0.len(), d: c.d };
        lemma_ops_wf(a, c);
        lemma_ops_wf(t0, c);
        lemma_norm(q_add(a, c));
        lemma_q_add_cong_left(a, t0, c);
        assert(q_eq(q_add(t0, c), t)) by (nonlinear_arith)
            requires
                q_add(t0, c) == (QVal { n: (c.n * (s.len() - 1)) * c.d + c.n * c.d, d: c.d * c.d }),
                t == (QVal { n: c.n * s.len(), d: c.d }),
                c.d >= 1,
                q_eq(q_add(t0, c), t) == (((c.n * (s.len() - 1)) * c.d + c.n * c.d) * c.d
                    == (c.n * s.len()) * (c.d * c.d)),
        ;
        lemma_q_eq_trans(nsum(s), q_add(a, c), q_add(t0, c));
        lemma_q_eq_trans(nsum(s), q_add(t0, c), t);
    }
}

/// Covariance is symmetric in its two sequences, in both its value and its
/// representability.
pub proof fn lemma_covariance_symmetric(xs: Seq<QVal>, ys: Seq<QVal>)
    requires
        xs.len() == ys.len(),
    ensures
        cov_spec(xs, ys) == cov_spec(ys, xs),
        cov_fits(xs, ys) == cov_fits(ys, xs),
{
    let mx = mean_spec(xs);
    let my = mean_spec(ys);
    assert forall|i: int| 0 <= i < xs.len() implies #[trigger] cov_term(xs[i], ys[i], mx, my)
        == cov_term(ys[i], xs[i], my, mx) by {
        let p = nsub(xs[i], mx);
        let q = nsub(ys[i], my);
        assert(q_mul(p, q).n == q_mul(q, p).n && q_mul(p, q).d == q_mul(q, p).d)
            by (nonlinear_arith);
    }
    assert(cov_terms(xs, ys) =~= cov_terms(ys, xs));
    if cov_fits(xs, ys) {
        if xs.len() != 0 {
            assert forall|i: int| 0 <= i < ys.len() implies #[trigger] cov_term_fits(
                ys[i],
                xs[i],
                my,
                mx,
            ) by {
                assert(cov_term_fits(xs[i], ys[i], mx, my));
            }
            assert(cov_fits(ys, xs));
        }
    }
    if cov_fits(ys, xs) {
        if xs.len() != 0 {
            assert forall|i: int| 0 <= i < xs.len() implies #[trigger] cov_term_fits(
                xs[i],
                ys[i],
                mx,
                my,
            ) by {
                assert(cov_term_fits(ys[i], xs[i], my, mx));
            }
            assert(cov_fits(xs, ys));
        }
    }
}

/// The canonical form of a value already in lowest terms is that value.
proof fn lemma_norm_reduced(q: QVal)
    requires
        q_reduced(q),
    ensures
        q_norm(q) == q,
{
    lemma_div_basics(q.n);
    lemma_div_basics(q.d);
}

/// All intermediate values of one sample's gradient contributions are
/// well-formed.
proof fn lemma_gd_terms_wf(x: QVal, y: QVal, b: QVal, m: QVal)
    requires
        qwf(x),
        qwf(y),
        qwf(b),
        qwf(m),
    ensures
        qwf(resid(x, y, b, m)),
        qwf(bterm(x, y, b, m)),
        qwf(mterm(x, y, b, m)),
{
    lemma_ops_wf(m, x);
    lemma_ops_wf(nmul(m, x), b);
    lemma_ops_wf(y, nadd(nmul(m, x), b));
    lemma_ops_wf(q_mtwo(), resid(x, y, b, m));
    lemma_ops_wf(x, resid(x, y, b, m));
    lemma_ops_wf(q_mtwo(), nmul(x, resid(x, y, b, m)));
}

/// Both gradients are well-formed rational values.
proof fn lemma_grads_wf(xs: Seq<QVal>, ys: Seq<QVal>, b: QVal, m: QVal)
    requires
        all_qwf(xs),
        all_qwf(ys),
        xs.len() == ys.len(),
        qwf(b),
        qwf(m),
    ensures
        qwf(b_grad_spec(xs, ys, b, m)),
        qwf(m_grad_spec(xs, ys, b, m)),
{
    if xs.len() > 0 {
        let bts = bterms(xs, ys, b, m);
        let mts = mterms(xs, ys, b, m);
        assert forall|i: int| 0 <= i < bts.len() implies qwf(#[trigger] bts[i]) by {
            lemma_gd_terms_wf(xs[i], ys[i], b, m);
        }
        assert forall|i: int| 0 <= i < mts.len() implies qwf(#[trigger] mts[i]) by {
            lemma_gd_terms_wf(xs[i], ys[i], b, m);
        }
        lemma_nsum_wf(bts);
        lemma_nsum_wf(mts);
        lemma_ops_wf(nsum(bts), q_of_int(xs.len() as int));
        lemma_ops_wf(nsum(mts), q_of_int(xs.len() as int));
    }
}

/// A point where both gradients vanish is a fixed point of gradient descent:
/// from parameters in lowest terms with zero gradients, any number of further
/// epochs leaves the parameters exactly unchanged.
pub proof fn lemma_gd_fixed_point(xs: Seq<QVal>, ys: Seq<QVal>, lr: QVal, b: QVal, m: QVal, k: nat)
    requires
        all_qwf(xs),
        all_qwf(ys),
        xs.len() == ys.len(),
        qwf(lr),
        q_reduced(b),
        q_reduced(m),
        q_eq(b_grad_spec(xs, ys, b, m), q_zero()),
        q_eq(m_grad_spec(xs, ys, b, m), q_zero()),
    ensures
        gd_spec(xs, ys, lr, b, m, k) == (b, m),
    decreases k,
{
    if k > 0 {
        lemma_grads_wf(xs, ys, b, m);
        let gb = b_grad_spec(xs, ys, b, m);
        let gm = m_grad_spec(xs, ys, b, m);
        assert(gb.n == 0) by (nonlinear_arith)
            requires
                gb.n * 1 == 0 * gb.d,
        ;
        assert(gm.n == 0) by (nonlinear_arith)
            requires
                gm.n * 1 == 0 * gm.d,
        ;
        lemma_step_identity(b, lr, gb);
        lemma_step_identity(m, lr, gm);
        assert(step_spec(xs, ys, b, m, lr) == (b, m));
        lemma_gd_fixed_point(xs, ys, lr, b, m, (k - 1) as nat);
    }
}

/// Moving a lowest-terms parameter against a zero gradient leaves it
/// unchanged.
proof fn lemma_step_identity(p: QVal, lr: QVal, g: QVal)
    requires
        q_reduced(p),
        qwf(lr),
        qwf(g),
        g.n == 0,
    ensures
        nsub(p, nmul(lr, g)) == p,
{
    assert(q_mul(lr, g).n == lr.n * 0 && q_mul(lr, g).d == lr.d * g.d);
    assert(lr.n * 0 == 0) by (nonlinear_arith);
    assert(lr.d * g.d >= 1) by (nonlinear_arith)
        requires
            lr.d >= 1,
            g.d >= 1,
    ;
    lemma_norm_zero(lr.d * g.d);
    assert(nmul(lr, g) == q_zero());
    assert(q_sub(p, q_zero()).n == p.n * 1 - 0 * p.d && q_sub(p, q_zero()).d == p.d * 1);
    assert(p.n * 1 - 0 * p.d == p.n && p.d * 1 == p.d) by (nonlinear_arith);
    assert(q_sub(p, q_zero()) == QVal { n: p.n, d: p.d });
    assert(QVal { n: p.n, d: p.d } == p);
    lemma_norm_reduced(p);
}

} // verus!
