//! The regression model: an ordinary-least-squares fit, prediction, and
//! root-mean-squared-error evaluation.
//!
//! The model owns an optional parameter pair (intercept, coefficient).  It is
//! constructed unfit; a successful `fit` stores the closed-form
//! least-squares parameters, and only a fitted model can predict or evaluate.

use vstd::prelude::*;
use crate::rational::{
    QVal, Rat, qwf, q_fits, q_zero, q_of_int, q_inv, q_mul, q_sub, q_add, q_div,
    nadd, nsub, nmul, ndiv, lemma_norm, lemma_ops_wf, sqrt_approx, sqrt_approx_ok,
};
use crate::stats::{
    vals, all_wf, nsum, sum_fits, mean_spec, mean_fits, mean,
    var_spec, var_fits, variance, cov_spec, cov_fits, covariance,
    sq_dev, sq_dev_fits, lemma_sum_fits_prefix,
};
use crate::RegressionError;

verus! {

/// The least-squares coefficient: covariance of x and y over variance of x.
pub open spec fn coeff_spec(xs: Seq<QVal>, ys: Seq<QVal>) -> QVal {
    ndiv(cov_spec(xs, ys), var_spec(xs))
}

/// The least-squares intercept: mean of y minus the coefficient times mean of x.
pub open spec fn intercept_spec(xs: Seq<QVal>, ys: Seq<QVal>) -> QVal {
    nsub(mean_spec(ys), nmul(coeff_spec(xs, ys), mean_spec(xs)))
}

/// The exact outcome of an ordinary-least-squares fit on the given samples:
/// either the parameter pair (intercept, coefficient), or the error that the
/// fit reports, in the order the computation meets them.
pub open spec fn fit_spec(xs: Seq<QVal>, ys: Seq<QVal>) -> Result<(QVal, QVal), RegressionError> {
    if xs.len() != ys.len() {
        Err(RegressionError::LengthMismatch)
    } else if !cov_fits(xs, ys) {
        Err(RegressionError::Overflow)
    } else if !var_fits(xs) {
        Err(RegressionError::Overflow)
    } else if var_spec(xs).n == 0 {
        Err(RegressionError::DegenerateInput)
    } else if !q_fits(coeff_spec(xs, ys)) {
        Err(RegressionError::Overflow)
    } else if !mean_fits(ys) {
        Err(RegressionError::Overflow)
    } else if !mean_fits(xs) {
        Err(RegressionError::Overflow)
    } else if !q_fits(nmul(coeff_spec(xs, ys), mean_spec(xs))) {
        Err(RegressionError::Overflow)
    } else if !q_fits(intercept_spec(xs, ys)) {
        Err(RegressionError::Overflow)
    } else {
        Ok((intercept_spec(xs, ys), coeff_spec(xs, ys)))
    }
}

/// The prediction of a fitted line at `x`: intercept plus coefficient times `x`.
pub open spec fn pred_spec(b0: QVal, b1: QVal, x: QVal) -> QVal {
    nadd(b0, nmul(b1, x))
}

/// Both steps of a prediction stay representable.
pub open spec fn pred_fits(b0: QVal, b1: QVal, x: QVal) -> bool {
    q_fits(nmul(b1, x)) && q_fits(pred_spec(b0, b1, x))
}

/// Elementwise predictions of a fitted line over a sequence of inputs.
pub open spec fn preds_spec(b0: QVal, b1: QVal, xs: Seq<QVal>) -> Seq<QVal> {
    xs.map_values(|x: QVal| pred_spec(b0, b1, x))
}

/// Squared prediction errors, pairing predicted against actual values.
pub open spec fn sq_errs(actual: Seq<QVal>, predicted: Seq<QVal>) -> Seq<QVal> {
    Seq::new(actual.len(), |i: int| sq_dev(predicted[i], actual[i]))
}

/// Mean squared error; zero for empty sequences.
pub open spec fn mse_spec(actual: Seq<QVal>, predicted: Seq<QVal>) -> QVal {
    if actual.len() == 0 {
        q_zero()
    } else {
        ndiv(nsum(sq_errs(actual, predicted)), q_of_int(actual.len() as int))
    }
}

/// The mean-squared-error computation stays representable throughout.
pub open spec fn mse_fits(actual: Seq<QVal>, predicted: Seq<QVal>) -> bool {
    actual.len() == 0 || {
        &&& forall|i: int| 0 <= i < actual.len() ==> #[trigger] sq_dev_fits(predicted[i], actual[i])
        &&& sum_fits(sq_errs(actual, predicted))
        &&& q_fits(mse_spec(actual, predicted))
    }
}

/// A squared deviation in canonical form is well-formed and nonnegative.
pub proof fn lemma_sq_dev_nonneg(x: QVal, m: QVal)
    requires
        qwf(x),
        qwf(m),
    ensures
        qwf(sq_dev(x, m)),
        sq_dev(x, m).n >= 0,
{
    lemma_ops_wf(x, m);
    lemma_norm(q_sub(x, m));
    let dv = nsub(x, m);
    lemma_ops_wf(dv, dv);
    assert(dv.n * dv.n >= 0) by (nonlinear_arith);
    lemma_norm(q_mul(dv, dv));
}

/// A canonical sum of well-formed nonnegative terms is well-formed and
/// nonnegative.
pub proof fn lemma_nsum_nonneg(s: Seq<QVal>)
    requires
        forall|i: int| 0 <= i < s.len() ==> qwf(#[trigger] s[i]) && s[i].n >= 0,
    ensures
        qwf(nsum(s)),
        nsum(s).n >= 0,
    decreases s.len(),
{
    if s.len() == 0 {
    } else {
        lemma_nsum_nonneg(s.drop_last());
        let a = nsum(s.drop_last());
        let b = s.last();
        lemma_ops_wf(a, b);
        assert(q_add(a, b).n >= 0) by (nonlinear_arith)
            requires
                a.n >= 0,
                b.n >= 0,
                a.d >= 1,
                b.d >= 1,
        ;
        lemma_norm(q_add(a, b));
    }
}

/// Dividing a well-formed nonnegative value by a positive count keeps it
/// well-formed and nonnegative.
pub proof fn lemma_ndiv_count_nonneg(s: QVal, len: int)
    requires
        qwf(s),
        s.n >= 0,
        len >= 1,
    ensures
        qwf(ndiv(s, q_of_int(len))),
        ndiv(s, q_of_int(len)).n >= 0,
{
    let c = q_of_int(len);
    assert(q_inv(c) == QVal { n: 1, d: len });
    assert(q_mul(s, q_inv(c)) == QVal { n: s.n * 1, d: s.d * len });
    assert(s.n * 1 == s.n) by (nonlinear_arith);
    assert(s.d * len >= 1) by (nonlinear_arith)
        requires
            s.d >= 1,
            len >= 1,
    ;
    lemma_norm(q_div(s, c));
}

/// A univariate linear model `y = intercept + coefficient * x`, fitted by
/// ordinary least squares.  Both parameters are present exactly when a fit
/// has succeeded.
pub struct LinearRegression {
    pub intercept: Option<Rat>,
    pub coefficient: Option<Rat>,
}

impl LinearRegression {
    /// Both parameters present or both absent, and present ones representable.
    pub open spec fn wf(self) -> bool {
        &&& self.intercept is Some <==> self.coefficient is Some
        &&& self.intercept is Some ==> self.intercept->Some_0.wf() && self.coefficient->Some_0.wf()
    }

    pub open spec fn fitted(self) -> bool {
        self.intercept is Some
    }

    /// The fitted parameter pair (intercept, coefficient).
    pub open spec fn params(self) -> (QVal, QVal) {
        (self.intercept->Some_0@, self.coefficient->Some_0@)
    }

    /// A new, unfit model: no parameters, cannot predict or evaluate yet.
    pub fn new() -> (m: LinearRegression)
        ensures
            m.wf(),
            !m.fitted(),
    {
        LinearRegression { intercept: None, coefficient: None }
    }

    /// Fit by ordinary least squares: coefficient = covariance(x, y) /
    /// variance(x), intercept = mean(y) - coefficient * mean(x).  On success
    /// the parameters are stored, replacing any prior fit; on any failure the
    /// model is left unchanged.  Fails with `LengthMismatch` when the two
    /// sequences differ in length, with `DegenerateInput` when the x-sequence
    /// has zero variance (in particular when it is empty), and with
    /// `Overflow` when a canonical intermediate value does not fit.
    pub fn fit(&mut self, x_values: &Vec<Rat>, y_values: &Vec<Rat>) -> (r: Result<(), RegressionError>)
        requires
            old(self).wf(),
            all_wf(x_values@),
            all_wf(y_values@),
            x_values@.len() <= 0x7fff_ffff_ffff_ffff,
            y_values@.len() <= 0x7fff_ffff_ffff_ffff,
        ensures
            final(self).wf(),
            match r {
                Ok(_) => final(self).fitted() && fit_spec(vals(x_values@), vals(y_values@))
                    == Ok::<(QVal, QVal), RegressionError>(final(self).params()),
                Err(e) => fit_spec(vals(x_values@), vals(y_values@))
                    == Err::<(QVal, QVal), RegressionError>(e) && *final(self) == *old(self),
            },
    {
        let cov = match covariance(x_values, y_values) {
            Ok(c) => c,
            Err(e) => {
                return Err(e);
            },
        };
        let var = match variance(x_values) {
            Ok(v) => v,
            Err(e) => {
                return Err(e);
            },
        };
        if var.num() == 0 {
            return Err(RegressionError::DegenerateInput);
        }
        let b1 = match cov.div(var) {
            Some(c) => c,
            None => {
                return Err(RegressionError::Overflow);
            },
        };
        let mean_y = match mean(y_values) {
            Ok(m) => m,
            Err(e) => {
                return Err(e);
            },
        };
        let mean_x = match mean(x_values) {
            Ok(m) => m,
            Err(e) => {
                return Err(e);
            },
        };
        let t = match b1.mul(mean_x) {
            Some(t) => t,
            None => {
                return Err(RegressionError::Overflow);
            },
        };
        let b0 = match mean_y.sub(t) {
            Some(b) => b,
            None => {
                return Err(RegressionError::Overflow);
            },
        };
        self.intercept = Some(b0);
        self.coefficient = Some(b1);
        Ok(())
    }

    /// Predict the response at `x` from the fitted line.  Fails with
    /// `NotFitted` exactly when the model has no parameters, and with
    /// `Overflow` when the canonical prediction does not fit.
    pub fn predict(&self, x: Rat) -> (r: Result<Rat, RegressionError>)
        requires
            self.wf(),
            x.wf(),
        ensures
            match r {
                Ok(p) => self.fitted() && pred_fits(self.params().0, self.params().1, x@)
                    && p.wf() && p@ == pred_spec(self.params().0, self.params().1, x@),
                Err(RegressionError::NotFitted) => !self.fitted(),
                Err(RegressionError::Overflow) => self.fitted()
                    && !pred_fits(self.params().0, self.params().1, x@),
                Err(_) => false,
            },
    {
        let (b0, b1) = match (&self.intercept, &self.coefficient) {
            (Some(b0), Some(b1)) => (*b0, *b1),
            _ => {
                return Err(RegressionError::NotFitted);
            },
        };
        let scaled = match b1.mul(x) {
            Some(s) => s,
            None => {
                return Err(RegressionError::Overflow);
            },
        };
        match b0.add(scaled) {
            Some(p) => Ok(p),
            None => Err(RegressionError::Overflow),
        }
    }

    /// Predict elementwise over a sequence of inputs, preserving order and
    /// length.  Fails with `NotFitted` exactly when the model has no
    /// parameters, and with `Overflow` when some canonical prediction does
    /// not fit.
    pub fn predict_list(&self, x_values: &Vec<Rat>) -> (r: Result<Vec<Rat>, RegressionError>)
        requires
            self.wf(),
            all_wf(x_values@),
        ensures
            match r {
                Ok(ps) => self.fitted() && ps@.len() == x_values@.len()
                    && forall|i: int|
                        0 <= i < x_values@.len() ==> (#[trigger] ps@[i]).wf()
                            && pred_fits(self.params().0, self.params().1, x_values@[i]@)
                            && ps@[i]@ == pred_spec(self.params().0, self.params().1, x_values@[i]@),
                Err(RegressionError::NotFitted) => !self.fitted(),
                Err(RegressionError::Overflow) => self.fitted()
                    && exists|i: int|
                        0 <= i < x_values@.len()
                            && !pred_fits(self.params().0, self.params().1, (#[trigger] x_values@[i])@),
                Err(_) => false,
            },
    {
        if self.intercept.is_none() || self.coefficient.is_none() {
            return Err(RegressionError::NotFitted);
        }
        let mut predictions: Vec<Rat> = Vec::new();
        let mut i: usize = 0;
        let len: usize = x_values.len();
        while i < len
            invariant
                0 <= i <= len,
                len == x_values@.len(),
                self.wf(),
                self.fitted(),
                all_wf(x_values@),
                predictions@.len() == i,
                forall|j: int|
                    0 <= j < i ==> (#[trigger] predictions@[j]).wf()
                        && pred_fits(self.params().0, self.params().1, x_values@[j]@)
                        && predictions@[j]@ == pred_spec(self.params().0, self.params().1, x_values@[j]@),
            decreases len - i,
        {
            match self.predict(x_values[i]) {
                Ok(p) => {
                    predictions.push(p);
                },
                Err(_) => {
                    return Err(RegressionError::Overflow);
                },
            }
            i += 1;
        }
        Ok(predictions)
    }

    /// Evaluate the fitted line on held-out pairs: predict each x, then the
    /// root-mean-squared error against the actual y, approximated from below
    /// within one millionth.  Fails with `NotFitted` exactly when the model
    /// has no parameters, and with `Overflow` when a canonical intermediate
    /// value does not fit.
    pub fn evaluate(&self, x_test: &Vec<Rat>, y_test: &Vec<Rat>) -> (r: Result<Rat, RegressionError>)
        requires
            self.wf(),
            all_wf(x_test@),
            all_wf(y_test@),
            x_test@.len() == y_test@.len(),
            x_test@.len() <= 0x7fff_ffff_ffff_ffff,
        ensures
            match r {
                Ok(e) => self.fitted() && e.wf() && ({
                    let preds = preds_spec(self.params().0, self.params().1, vals(x_test@));
                    &&& forall|i: int|
                        0 <= i < x_test@.len()
                            ==> pred_fits(self.params().0, self.params().1, (#[trigger] x_test@[i])@)
                    &&& mse_fits(vals(y_test@), preds)
                    &&& sqrt_approx_ok(e@, mse_spec(vals(y_test@), preds))
                }),
                Err(RegressionError::NotFitted) => !self.fitted(),
                Err(RegressionError::Overflow) => self.fitted() && !({
                    let preds = preds_spec(self.params().0, self.params().1, vals(x_test@));
                    &&& forall|i: int|
                        0 <= i < x_test@.len()
                            ==> pred_fits(self.params().0, self.params().1, (#[trigger] x_test@[i])@)
                    &&& mse_fits(vals(y_test@), preds)
                }),
                Err(_) => false,
            },
    {
        if self.intercept.is_none() || self.coefficient.is_none() {
            return Err(RegressionError::NotFitted);
        }
        let y_predicted = match self.predict_list(x_test) {
            Ok(ps) => ps,
            Err(_) => {
                return Err(RegressionError::Overflow);
            },
        };
        proof {
            assert forall|i: int|
                0 <= i < x_test@.len() implies pred_fits(
                self.params().0,
                self.params().1,
                (#[trigger] x_test@[i])@,
            ) by {
                assert(y_predicted@[i].wf());
            }
            let preds = preds_spec(self.params().0, self.params().1, vals(x_test@));
            assert(vals(y_predicted@) =~= preds);
        }
        match self.root_mean_squared_error(y_test, &y_predicted) {
            Ok(e) => Ok(e),
            Err(e) => Err(e),
        }
    }

    /// Root-mean-squared error of `predicted` against `actual`: the square
    /// root of the mean squared difference, approximated from below within
    /// one millionth.  Fails with `Overflow` exactly when a canonical
    /// intermediate value of the mean squared error does not fit.
    fn root_mean_squared_error(&self, actual: &Vec<Rat>, predicted: &Vec<Rat>) -> (r: Result<Rat, RegressionError>)
        requires
            all_wf(actual@),
            all_wf(predicted@),
            actual@.len() == predicted@.len(),
            actual@.len() <= 0x7fff_ffff_ffff_ffff,
        ensures
            match r {
                Ok(e) => e.wf() && mse_fits(vals(actual@), vals(predicted@))
                    && sqrt_approx_ok(e@, mse_spec(vals(actual@), vals(predicted@))),
                Err(e) => e == RegressionError::Overflow
                    && !mse_fits(vals(actual@), vals(predicted@)),
            },
    {
        let ghost avs = vals(actual@);
        let ghost pvs = vals(predicted@);
        let ghost terms = sq_errs(avs, pvs);
        let len: usize = actual.len();
        if len == 0 {
            let z = Rat::zero();
            proof {
                assert(q_mul(q_zero(), q_zero()).n == 0int * 0 && q_mul(q_zero(), q_zero()).d == 1int * 1);
                assert(0int * 0 == 0 && 1int * 1 == 1) by (nonlinear_arith);
                let re = q_add(q_zero(), crate::rational::q_eps());
                assert(re.n == 0int * 1000000 + 1int * 1 && re.d == 1int * 1000000);
                assert(0int * 1000000 + 1int * 1 == 1 && 1int * 1000000 == 1000000) by (nonlinear_arith);
                assert(crate::rational::q_lt(q_zero(), q_mul(re, re))) by (nonlinear_arith)
                    requires
                        re.n == 1,
                        re.d == 1000000,
                ;
            }
            return Ok(z);
        }
        let mut acc = Rat::zero();
        let mut i: usize = 0;
        proof {
            assert(terms.take(0) =~= Seq::<QVal>::empty());
        }
        while i < len
            invariant
                0 <= i <= len,
                len == actual@.len(),
                len == predicted@.len(),
                len <= 0x7fff_ffff_ffff_ffff,
                avs == vals(actual@),
                pvs == vals(predicted@),
                terms == sq_errs(avs, pvs),
                all_wf(actual@),
                all_wf(predicted@),
                acc.wf(),
                acc@ == nsum(terms.take(i as int)),
                sum_fits(terms.take(i as int)),
                forall|j: int| 0 <= j < i ==> #[trigger] sq_dev_fits(pvs[j], avs[j]),
            decreases len - i,
        {
            proof {
                assert(terms.take(i + 1).drop_last() =~= terms.take(i as int));
                assert(terms.take(i + 1).last() == terms[i as int]);
            }
            let dev = match predicted[i].sub(actual[i]) {
                Some(d) => d,
                None => {
                    proof {
                        assert(!sq_dev_fits(pvs[i as int], avs[i as int]));
                    }
                    return Err(RegressionError::Overflow);
                },
            };
            let sq = match dev.mul(dev) {
                Some(s) => s,
                None => {
                    proof {
                        assert(!sq_dev_fits(pvs[i as int], avs[i as int]));
                    }
                    return Err(RegressionError::Overflow);
                },
            };
            match acc.add(sq) {
                Some(a) => {
                    acc = a;
                },
                None => {
                    proof {
                        if sum_fits(terms) {
                            lemma_sum_fits_prefix(terms, i + 1);
                        }
                    }
                    return Err(RegressionError::Overflow);
                },
            }
            proof {
                assert(sq@ == sq_dev(pvs[i as int], avs[i as int]));
                assert(sq_dev_fits(pvs[i as int], avs[i as int]));
            }
            i += 1;
        }
        proof {
            assert(terms.take(len as int) =~= terms);
        }
        let divisor = Rat::from_int(len as i64);
        let mse = match acc.div(divisor) {
            Some(m) => m,
            None => {
                return Err(RegressionError::Overflow);
            },
        };
        proof {
            assert(forall|j: int| 0 <= j < terms.len() ==> qwf(#[trigger] terms[j]) && terms[j].n >= 0) by {
                assert forall|j: int| 0 <= j < terms.len() implies qwf(#[trigger] terms[j])
                    && terms[j].n >= 0 by {
                    lemma_sq_dev_nonneg(pvs[j], avs[j]);
                }
            }
            lemma_nsum_nonneg(terms);
            lemma_ndiv_count_nonneg(nsum(terms), len as int);
        }
        Ok(sqrt_approx(mse))
    }
}

} // verus!
