//! Batch gradient descent for the univariate linear model.
//!
//! Starting from parameters (0, 0), each epoch computes the full-batch
//! gradients of the mean squared error against the epoch's starting
//! parameters, then moves both parameters against their gradient scaled by
//! the learning rate, for exactly the requested number of epochs.

use vstd::prelude::*;
use crate::rational::{
    QVal, Rat, q_fits, q_zero, q_of_int, nadd, nsub, nmul, ndiv,
};
use crate::stats::{vals, all_wf, nsum, sum_fits, lemma_sum_fits_prefix};
use crate::RegressionError;

verus! {

/// The constant factor -2 of both gradient formulas.
pub open spec fn q_mtwo() -> QVal {
    QVal { n: -2, d: 1 }
}

/// Residual of a sample against the line: `y - (m * x + b)`.
pub open spec fn resid(x: QVal, y: QVal, b: QVal, m: QVal) -> QVal {
    nsub(y, nadd(nmul(m, x), b))
}

/// One sample's contribution to the intercept gradient: `-2 * (y - (m*x + b))`.
pub open spec fn bterm(x: QVal, y: QVal, b: QVal, m: QVal) -> QVal {
    nmul(q_mtwo(), resid(x, y, b, m))
}

/// One sample's contribution to the coefficient gradient:
/// `-2 * x * (y - (m*x + b))`.
pub open spec fn mterm(x: QVal, y: QVal, b: QVal, m: QVal) -> QVal {
    nmul(q_mtwo(), nmul(x, resid(x, y, b, m)))
}

pub open spec fn bterms(xs: Seq<QVal>, ys: Seq<QVal>, b: QVal, m: QVal) -> Seq<QVal> {
    Seq::new(xs.len(), |i: int| bterm(xs[i], ys[i], b, m))
}

pub open spec fn mterms(xs: Seq<QVal>, ys: Seq<QVal>, b: QVal, m: QVal) -> Seq<QVal> {
    Seq::new(xs.len(), |i: int| mterm(xs[i], ys[i], b, m))
}

/// Intercept gradient: mean of the intercept contributions; zero over an
/// empty sample set.
pub open spec fn b_grad_spec(xs: Seq<QVal>, ys: Seq<QVal>, b: QVal, m: QVal) -> QVal {
    if xs.len() == 0 {
        q_zero()
    } else {
        ndiv(nsum(bterms(xs, ys, b, m)), q_of_int(xs.len() as int))
    }
}

/// Coefficient gradient: mean of the coefficient contributions; zero over an
/// empty sample set.
pub open spec fn m_grad_spec(xs: Seq<QVal>, ys: Seq<QVal>, b: QVal, m: QVal) -> QVal {
    if xs.len() == 0 {
        q_zero()
    } else {
        ndiv(nsum(mterms(xs, ys, b, m)), q_of_int(xs.len() as int))
    }
}

/// One epoch: both gradients are computed against the starting parameters,
/// then both parameters move against their gradient scaled by the learning
/// rate.
pub open spec fn step_spec(xs: Seq<QVal>, ys: Seq<QVal>, b: QVal, m: QVal, lr: QVal) -> (QVal, QVal) {
    (
        nsub(b, nmul(lr, b_grad_spec(xs, ys, b, m))),
        nsub(m, nmul(lr, m_grad_spec(xs, ys, b, m))),
    )
}

/// All intermediate values of one sample's gradient contributions stay
/// representable.
pub open spec fn gd_term_fits(x: QVal, y: QVal, b: QVal, m: QVal) -> bool {
    &&& q_fits(nmul(m, x))
    &&& q_fits(nadd(nmul(m, x), b))
    &&& q_fits(resid(x, y, b, m))
    &&& q_fits(bterm(x, y, b, m))
    &&& q_fits(nmul(x, resid(x, y, b, m)))
    &&& q_fits(mterm(x, y, b, m))
}

/// Every intermediate value of one epoch stays representable.
pub open spec fn step_fits(xs: Seq<QVal>, ys: Seq<QVal>, b: QVal, m: QVal, lr: QVal) -> bool {
    &&& forall|i: int| 0 <= i < xs.len() ==> #[trigger] gd_term_fits(xs[i], ys[i], b, m)
    &&& sum_fits(bterms(xs, ys, b, m))
    &&& sum_fits(mterms(xs, ys, b, m))
    &&& q_fits(b_grad_spec(xs, ys, b, m))
    &&& q_fits(m_grad_spec(xs, ys, b, m))
    &&& q_fits(nmul(lr, b_grad_spec(xs, ys, b, m)))
    &&& q_fits(nsub(b, nmul(lr, b_grad_spec(xs, ys, b, m))))
    &&& q_fits(nmul(lr, m_grad_spec(xs, ys, b, m)))
    &&& q_fits(nsub(m, nmul(lr, m_grad_spec(xs, ys, b, m))))
}

/// The parameters after `k` epochs of gradient descent from `(b, m)`.
pub open spec fn gd_spec(xs: Seq<QVal>, ys: Seq<QVal>, lr: QVal, b: QVal, m: QVal, k: nat) -> (QVal, QVal)
    decreases k,
{
    if k == 0 {
        (b, m)
    } else {
        let s = step_spec(xs, ys, b, m, lr);
        gd_spec(xs, ys, lr, s.0, s.1, (k - 1) as nat)
    }
}

/// Every intermediate value of `k` epochs stays representable.
pub open spec fn gd_fits(xs: Seq<QVal>, ys: Seq<QVal>, lr: QVal, b: QVal, m: QVal, k: nat) -> bool
    decreases k,
{
    k == 0 || (step_fits(xs, ys, b, m, lr) && {
        let s = step_spec(xs, ys, b, m, lr);
        gd_fits(xs, ys, lr, s.0, s.1, (k - 1) as nat)
    })
}

/// One epoch of batch gradient descent: compute both full-batch gradients
/// against the starting parameters `(b_current, m_current)`, then move each
/// parameter against its gradient scaled by the learning rate.  Fails with
/// `Overflow` exactly when some canonical intermediate value does not fit.
pub fn step(b_current: Rat, m_current: Rat, x_values: &Vec<Rat>, y_values: &Vec<Rat>, learning_rate: Rat) -> (r: Result<(Rat, Rat), RegressionError>)
    requires
        b_current.wf(),
        m_current.wf(),
        learning_rate.wf(),
        all_wf(x_values@),
        all_wf(y_values@),
        x_values@.len() == y_values@.len(),
        x_values@.len() <= 0x7fff_ffff_ffff_ffff,
    ensures
        match r {
            Ok(p) => p.0.wf() && p.1.wf()
                && step_fits(vals(x_values@), vals(y_values@), b_current@, m_current@, learning_rate@)
                && (p.0@, p.1@) == step_spec(vals(x_values@), vals(y_values@), b_current@, m_current@, learning_rate@),
            Err(e) => e == RegressionError::Overflow
                && !step_fits(vals(x_values@), vals(y_values@), b_current@, m_current@, learning_rate@),
        },
{
    let ghost xs = vals(x_values@);
    let ghost ys = vals(y_values@);
    let ghost bv = b_current@;
    let ghost mv = m_current@;
    let ghost bts = bterms(xs, ys, bv, mv);
    let ghost mts = mterms(xs, ys, bv, mv);
    let len: usize = y_values.len();
    let mtwo = Rat::from_int(-2);
    let mut b_acc = Rat::zero();
    let mut m_acc = Rat::zero();
    let mut i: usize = 0;
    proof {
        assert(bts.take(0) =~= Seq::<QVal>::empty());
        assert(mts.take(0) =~= Seq::<QVal>::empty());
    }
    while i < len
        invariant
            0 <= i <= len,
            len == x_values@.len(),
            len == y_values@.len(),
            len <= 0x7fff_ffff_ffff_ffff,
            xs == vals(x_values@),
            ys == vals(y_values@),
            bv == b_current@,
            mv == m_current@,
            bts == bterms(xs, ys, bv, mv),
            mts == mterms(xs, ys, bv, mv),
            all_wf(x_values@),
            all_wf(y_values@),
            b_current.wf(),
            m_current.wf(),
            mtwo.wf(),
            mtwo@ == q_mtwo(),
            b_acc.wf(),
            m_acc.wf(),
            b_acc@ == nsum(bts.take(i as int)),
            m_acc@ == nsum(mts.take(i as int)),
            sum_fits(bts.take(i as int)),
            sum_fits(mts.take(i as int)),
            forall|j: int| 0 <= j < i ==> #[trigger] gd_term_fits(xs[j], ys[j], bv, mv),
        decreases len - i,
    {
        proof {
            assert(bts.take(i + 1).drop_last() =~= bts.take(i as int));
            assert(bts.take(i + 1).last() == bts[i as int]);
            assert(mts.take(i + 1).drop_last() =~= mts.take(i as int));
            assert(mts.take(i + 1).last() == mts[i as int]);
        }
        let scaled = match m_current.mul(x_values[i]) {
            Some(t) => t,
            None => {
                proof {
                    assert(!gd_term_fits(xs[i as int], ys[i as int], bv, mv));
                }
                return Err(RegressionError::Overflow);
            },
        };
        let line = match scaled.add(b_current) {
            Some(t) => t,
            None => {
                proof {
                    assert(!gd_term_fits(xs[i as int], ys[i as int], bv, mv));
                }
                return Err(RegressionError::Overflow);
            },
        };
        let error = match y_values[i].sub(line) {
            Some(e) => e,
            None => {
                proof {
                    assert(!gd_term_fits(xs[i as int], ys[i as int], bv, mv));
                }
                return Err(RegressionError::Overflow);
            },
        };
        let bt = match mtwo.mul(error) {
            Some(t) => t,
            None => {
                proof {
                    assert(!gd_term_fits(xs[i as int], ys[i as int], bv, mv));
                }
                return Err(RegressionError::Overflow);
            },
        };
        let xe = match x_values[i].mul(error) {
            Some(t) => t,
            None => {
                proof {
                    assert(!gd_term_fits(xs[i as int], ys[i as int], bv, mv));
                }
                return Err(RegressionError::Overflow);
            },
        };
        let mt = match mtwo.mul(xe) {
            Some(t) => t,
            None => {
                proof {
                    assert(!gd_term_fits(xs[i as int], ys[i as int], bv, mv));
                }
                return Err(RegressionError::Overflow);
            },
        };
        match b_acc.add(bt) {
            Some(a) => {
                b_acc = a;
            },
            None => {
                proof {
                    if sum_fits(bts) {
                        lemma_sum_fits_prefix(bts, i + 1);
                    }
                }
                return Err(RegressionError::Overflow);
            },
        }
        match m_acc.add(mt) {
            Some(a) => {
                m_acc = a;
            },
            None => {
                proof {
                    if sum_fits(mts) {
                        lemma_sum_fits_prefix(mts, i + 1);
                    }
                }
                return Err(RegressionError::Overflow);
            },
        }
        proof {
            assert(gd_term_fits(xs[i as int], ys[i as int], bv, mv));
        }
        i += 1;
    }
    proof {
        assert(bts.take(len as int) =~= bts);
        assert(mts.take(len as int) =~= mts);
    }
    let (b_grad, m_grad) = if len == 0 {
        (Rat::zero(), Rat::zero())
    } else {
        let divisor = Rat::from_int(len as i64);
        let bg = match b_acc.div(divisor) {
            Some(g) => g,
            None => {
                return Err(RegressionError::Overflow);
            },
        };
        let mg = match m_acc.div(divisor) {
            Some(g) => g,
            None => {
                return Err(RegressionError::Overflow);
            },
        };
        (bg, mg)
    };
    let b_scaled = match learning_rate.mul(b_grad) {
        Some(s) => s,
        None => {
            return Err(RegressionError::Overflow);
        },
    };
    let new_b = match b_current.sub(b_scaled) {
        Some(b) => b,
        None => {
            return Err(RegressionError::Overflow);
        },
    };
    let m_scaled = match learning_rate.mul(m_grad) {
        Some(s) => s,
        None => {
            return Err(RegressionError::Overflow);
        },
    };
    let new_m = match m_current.sub(m_scaled) {
        Some(m) => m,
        None => {
            return Err(RegressionError::Overflow);
        },
    };
    Ok((new_b, new_m))
}

/// Fit by batch gradient descent: starting from parameters (0, 0), run
/// exactly `epochs` update steps, each moving the parameters against the
/// full-batch gradients scaled by the (positive) learning rate, and return
/// the final (intercept, coefficient) pair.  Zero epochs leave the
/// parameters at (0, 0) for every input.  Fails with `Overflow` exactly when
/// some canonical intermediate value of some epoch does not fit.
pub fn linear_regression(x_values: &Vec<Rat>, y_values: &Vec<Rat>, epochs: u32, learning_rate: Rat) -> (r: Result<(Rat, Rat), RegressionError>)
    requires
        all_wf(x_values@),
        all_wf(y_values@),
        x_values@.len() == y_values@.len(),
        x_values@.len() <= 0x7fff_ffff_ffff_ffff,
        learning_rate.wf(),
        crate::rational::q_lt(q_zero(), learning_rate@),
    ensures
        match r {
            Ok(p) => p.0.wf() && p.1.wf()
                && gd_fits(vals(x_values@), vals(y_values@), learning_rate@, q_zero(), q_zero(), epochs as nat)
                && (p.0@, p.1@) == gd_spec(vals(x_values@), vals(y_values@), learning_rate@, q_zero(), q_zero(), epochs as nat),
            Err(e) => e == RegressionError::Overflow
                && !gd_fits(vals(x_values@), vals(y_values@), learning_rate@, q_zero(), q_zero(), epochs as nat),
        },
        epochs == 0 ==> (r matches Ok(p) && p.0@ == q_zero() && p.1@ == q_zero()),
{
    let ghost xs = vals(x_values@);
    let ghost ys = vals(y_values@);
    let ghost lrv = learning_rate@;
    let mut b_current = Rat::zero();
    let mut m_current = Rat::zero();
    let mut ep: u32 = 0;
    while ep < epochs
        invariant
            0 <= ep <= epochs,
            xs == vals(x_values@),
            ys == vals(y_values@),
            lrv == learning_rate@,
            all_wf(x_values@),
            all_wf(y_values@),
            x_values@.len() == y_values@.len(),
            x_values@.len() <= 0x7fff_ffff_ffff_ffff,
            learning_rate.wf(),
            b_current.wf(),
            m_current.wf(),
            gd_spec(xs, ys, lrv, b_current@, m_current@, (epochs - ep) as nat)
                == gd_spec(xs, ys, lrv, q_zero(), q_zero(), epochs as nat),
            gd_fits(xs, ys, lrv, q_zero(), q_zero(), epochs as nat)
                <==> gd_fits(xs, ys, lrv, b_current@, m_current@, (epochs - ep) as nat),
        decreases epochs - ep,
    {
        let ghost rem = (epochs - ep) as nat;
        match step(b_current, m_current, x_values, y_values, learning_rate) {
            Ok(p) => {
                proof {
                    let s = step_spec(xs, ys, b_current@, m_current@, lrv);
                    assert(gd_spec(xs, ys, lrv, b_current@, m_current@, rem)
                        == gd_spec(xs, ys, lrv, s.0, s.1, (rem - 1) as nat));
                    assert(gd_fits(xs, ys, lrv, b_current@, m_current@, rem)
                        <==> gd_fits(xs, ys, lrv, s.0, s.1, (rem - 1) as nat));
                }
                let (nb, nm) = p;
                b_current = nb;
                m_current = nm;
            },
            Err(_) => {
                proof {
                    assert(!gd_fits(xs, ys, lrv, b_current@, m_current@, rem));
                }
                return Err(RegressionError::Overflow);
            },
        }
        ep += 1;
    }
    Ok((b_current, m_current))
}

} // verus!
