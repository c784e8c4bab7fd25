//! Summary-statistics primitives: mean, population variance, population
//! covariance over sequences of exact rationals.
//!
//! Each function computes the canonical rational value of the textbook
//! formula, or reports `Overflow` exactly when some canonical intermediate
//! value leaves the representable range.

use vstd::prelude::*;
use crate::rational::{
    QVal, Rat, qwf, q_fits, q_zero, q_of_int, nadd, nsub, nmul, ndiv,
};
use crate::RegressionError;

verus! {

/// The mathematical values of a sequence of machine rationals.
pub open spec fn vals(s: Seq<Rat>) -> Seq<QVal> {
    s.map_values(|r: Rat| r@)
}

pub open spec fn all_wf(s: Seq<Rat>) -> bool {
    forall|i: int| 0 <= i < s.len() ==> s[i].wf()
}

pub open spec fn all_qwf(s: Seq<QVal>) -> bool {
    forall|i: int| 0 <= i < s.len() ==> qwf(s[i])
}

/// Left-to-right sum of a sequence, with each partial sum in canonical form;
/// the empty sum is zero.
pub open spec fn nsum(s: Seq<QVal>) -> QVal
    decreases s.len(),
{
    if s.len() == 0 {
        q_zero()
    } else {
        nadd(nsum(s.drop_last()), s.last())
    }
}

/// Every canonical partial sum of `s` fits the machine representation.
pub open spec fn sum_fits(s: Seq<QVal>) -> bool
    decreases s.len(),
{
    if s.len() == 0 {
        true
    } else {
        sum_fits(s.drop_last()) && q_fits(nadd(nsum(s.drop_last()), s.last()))
    }
}

/// Arithmetic mean; zero for the empty sequence.
pub open spec fn mean_spec(s: Seq<QVal>) -> QVal {
    if s.len() == 0 {
        q_zero()
    } else {
        ndiv(nsum(s), q_of_int(s.len() as int))
    }
}

/// The mean computation stays representable throughout.
pub open spec fn mean_fits(s: Seq<QVal>) -> bool {
    s.len() == 0 || (sum_fits(s) && q_fits(mean_spec(s)))
}

/// Squared deviation of `x` from `m`.
pub open spec fn sq_dev(x: QVal, m: QVal) -> QVal {
    nmul(nsub(x, m), nsub(x, m))
}

pub open spec fn sq_devs(s: Seq<QVal>, m: QVal) -> Seq<QVal> {
    s.map_values(|x: QVal| sq_dev(x, m))
}

/// Population variance: mean of squared deviations from the mean; zero for
/// the empty sequence.
pub open spec fn var_spec(s: Seq<QVal>) -> QVal {
    if s.len() == 0 {
        q_zero()
    } else {
        ndiv(nsum(sq_devs(s, mean_spec(s))), q_of_int(s.len() as int))
    }
}

/// Both steps that produce a squared deviation stay representable.
pub open spec fn sq_dev_fits(x: QVal, m: QVal) -> bool {
    q_fits(nsub(x, m)) && q_fits(sq_dev(x, m))
}

/// The variance computation stays representable throughout.
pub open spec fn var_fits(s: Seq<QVal>) -> bool {
    s.len() == 0 || {
        let m = mean_spec(s);
        &&& mean_fits(s)
        &&& forall|i: int| 0 <= i < s.len() ==> #[trigger] sq_dev_fits(s[i], m)
        &&& sum_fits(sq_devs(s, m))
        &&& q_fits(var_spec(s))
    }
}

/// Product of the deviations of a pair from the two means.
pub open spec fn cov_term(x: QVal, y: QVal, mx: QVal, my: QVal) -> QVal {
    nmul(nsub(x, mx), nsub(y, my))
}

pub open spec fn cov_terms(xs: Seq<QVal>, ys: Seq<QVal>) -> Seq<QVal> {
    Seq::new(xs.len(), |i: int| cov_term(xs[i], ys[i], mean_spec(xs), mean_spec(ys)))
}

/// Population covariance of two equal-length sequences: mean of pairwise
/// deviation products; zero for empty sequences.
pub open spec fn cov_spec(xs: Seq<QVal>, ys: Seq<QVal>) -> QVal {
    if xs.len() == 0 {
        q_zero()
    } else {
        ndiv(nsum(cov_terms(xs, ys)), q_of_int(xs.len() as int))
    }
}

/// All three steps that produce a deviation product stay representable.
pub open spec fn cov_term_fits(x: QVal, y: QVal, mx: QVal, my: QVal) -> bool {
    q_fits(nsub(x, mx)) && q_fits(nsub(y, my)) && q_fits(cov_term(x, y, mx, my))
}

/// The covariance computation stays representable throughout.
pub open spec fn cov_fits(xs: Seq<QVal>, ys: Seq<QVal>) -> bool {
    xs.len() == 0 || {
        let mx = mean_spec(xs);
        let my = mean_spec(ys);
        &&& mean_fits(xs)
        &&& mean_fits(ys)
        &&& forall|i: int| 0 <= i < xs.len() ==> #[trigger] cov_term_fits(xs[i], ys[i], mx, my)
        &&& sum_fits(cov_terms(xs, ys))
        &&& q_fits(cov_spec(xs, ys))
    }
}

/// A sequence whose canonical partial sums all fit keeps that property on
/// every prefix.
pub proof fn lemma_sum_fits_prefix(s: Seq<QVal>, i: int)
    requires
        sum_fits(s),
        0 <= i <= s.len(),
    ensures
        sum_fits(s.take(i)),
    decreases s.len(),
{
    if i == s.len() {
        assert(s.take(i) =~= s);
    } else {
        lemma_sum_fits_prefix(s.drop_last(), i);
        assert(s.drop_last().take(i) =~= s.take(i));
    }
}

/// Arithmetic mean of a sequence of rationals.  Returns zero for the empty
/// sequence, and `Overflow` exactly when some canonical intermediate value of
/// the summation or the final division does not fit.
pub fn mean(values: &Vec<Rat>) -> (r: Result<Rat, RegressionError>)
    requires
        all_wf(values@),
        values@.len() <= 0x7fff_ffff_ffff_ffff,
    ensures
        match r {
            Ok(m) => m.wf() && mean_fits(vals(values@)) && m@ == mean_spec(vals(values@)),
            Err(e) => e == RegressionError::Overflow && !mean_fits(vals(values@)),
        },
{
    let ghost vs = vals(values@);
    let len: usize = values.len();
    if len == 0 {
        return Ok(Rat::zero());
    }
    let mut acc = Rat::zero();
    let mut i: usize = 0;
    proof {
        assert(vs.take(0) =~= Seq::<QVal>::empty());
    }
    while i < len
        invariant
            0 <= i <= len,
            len == values@.len(),
            len <= 0x7fff_ffff_ffff_ffff,
            vs == vals(values@),
            all_wf(values@),
            acc.wf(),
            acc@ == nsum(vs.take(i as int)),
            sum_fits(vs.take(i as int)),
        decreases len - i,
    {
        proof {
            assert(vs.take(i + 1).drop_last() =~= vs.take(i as int));
            assert(vs.take(i + 1).last() == vs[i as int]);
        }
        match acc.add(values[i]) {
            Some(a) => {
                acc = a;
            },
            None => {
                proof {
                    if sum_fits(vs) {
                        lemma_sum_fits_prefix(vs, i + 1);
                    }
                }
                return Err(RegressionError::Overflow);
            },
        }
        i += 1;
    }
    proof {
        assert(vs.take(len as int) =~= vs);
    }
    let divisor = Rat::from_int(len as i64);
    match acc.div(divisor) {
        Some(m) => Ok(m),
        None => Err(RegressionError::Overflow),
    }
}

/// Population variance of a sequence of rationals: the mean of the squared
/// deviations from the mean, with divisor equal to the count.  Returns zero
/// for the empty sequence, and `Overflow` exactly when some canonical
/// intermediate value does not fit.
pub fn variance(values: &Vec<Rat>) -> (r: Result<Rat, RegressionError>)
    requires
        all_wf(values@),
        values@.len() <= 0x7fff_ffff_ffff_ffff,
    ensures
        match r {
            Ok(v) => v.wf() && var_fits(vals(values@)) && v@ == var_spec(vals(values@)),
            Err(e) => e == RegressionError::Overflow && !var_fits(vals(values@)),
        },
{
    let ghost vs = vals(values@);
    let len: usize = values.len();
    if len == 0 {
        return Ok(Rat::zero());
    }
    let m = match mean(values) {
        Ok(m) => m,
        Err(e) => {
            return Err(e);
        },
    };
    let ghost mq = mean_spec(vs);
    let ghost terms = sq_devs(vs, mq);
    let mut acc = Rat::zero();
    let mut i: usize = 0;
    proof {
        assert(terms.take(0) =~= Seq::<QVal>::empty());
    }
    while i < len
        invariant
            0 <= i <= len,
            len == values@.len(),
            len <= 0x7fff_ffff_ffff_ffff,
            vs == vals(values@),
            mq == mean_spec(vs),
            terms == sq_devs(vs, mq),
            all_wf(values@),
            m.wf(),
            m@ == mq,
            acc.wf(),
            acc@ == nsum(terms.take(i as int)),
            sum_fits(terms.take(i as int)),
            forall|j: int| 0 <= j < i ==> #[trigger] sq_dev_fits(vs[j], mq),
        decreases len - i,
    {
        proof {
            assert(terms.take(i + 1).drop_last() =~= terms.take(i as int));
            assert(terms.take(i + 1).last() == terms[i as int]);
        }
        let dev = match values[i].sub(m) {
            Some(d) => d,
            None => {
                proof {
                    assert(!sq_dev_fits(vs[i as int], mq));
                }
                return Err(RegressionError::Overflow);
            },
        };
        let sq = match dev.mul(dev) {
            Some(s) => s,
            None => {
                proof {
                    assert(!sq_dev_fits(vs[i as int], mq));
                }
                return Err(RegressionError::Overflow);
            },
        };
        match acc.add(sq) {
            Some(a) => {
                acc = a;
            },
            None => {
                proof {
                    if sum_fits(terms) {
                        lemma_sum_fits_prefix(terms, i + 1);
                    }
                }
                return Err(RegressionError::Overflow);
            },
        }
        proof {
            assert(q_fits(nsub(vs[i as int], mq)));
            assert(sq@ == sq_dev(vs[i as int], mq));
            assert(sq_dev_fits(vs[i as int], mq));
        }
        i += 1;
    }
    proof {
        assert(terms.take(len as int) =~= terms);
    }
    let divisor = Rat::from_int(len as i64);
    match acc.div(divisor) {
        Some(v) => Ok(v),
        None => Err(RegressionError::Overflow),
    }
}

/// Population covariance of two sequences of rationals: the mean of the
/// pairwise products of deviations from each sequence's mean, summed over the
/// full index range.  Fails with `LengthMismatch` exactly when the lengths
/// differ; returns zero for empty sequences; fails with `Overflow` exactly
/// when some canonical intermediate value does not fit.
pub fn covariance(x_values: &Vec<Rat>, y_values: &Vec<Rat>) -> (r: Result<Rat, RegressionError>)
    requires
        all_wf(x_values@),
        all_wf(y_values@),
        x_values@.len() <= 0x7fff_ffff_ffff_ffff,
        y_values@.len() <= 0x7fff_ffff_ffff_ffff,
    ensures
        match r {
            Ok(c) => x_values@.len() == y_values@.len()
                && cov_fits(vals(x_values@), vals(y_values@))
                && c.wf() && c@ == cov_spec(vals(x_values@), vals(y_values@)),
            Err(RegressionError::LengthMismatch) => x_values@.len() != y_values@.len(),
            Err(RegressionError::Overflow) => x_values@.len() == y_values@.len()
                && !cov_fits(vals(x_values@), vals(y_values@)),
            Err(_) => false,
        },
{
    if x_values.len() != y_values.len() {
        return Err(RegressionError::LengthMismatch);
    }
    let ghost xs = vals(x_values@);
    let ghost ys = vals(y_values@);
    let len: usize = x_values.len();
    if len == 0 {
        return Ok(Rat::zero());
    }
    let mean_x = match mean(x_values) {
        Ok(m) => m,
        Err(e) => {
            return Err(e);
        },
    };
    let mean_y = match mean(y_values) {
        Ok(m) => m,
        Err(e) => {
            return Err(e);
        },
    };
    let ghost mx = mean_spec(xs);
    let ghost my = mean_spec(ys);
    let ghost terms = cov_terms(xs, ys);
    let mut acc = Rat::zero();
    let mut i: usize = 0;
    proof {
        assert(terms.take(0) =~= Seq::<QVal>::empty());
    }
    while i < len
        invariant
            0 <= i <= len,
            len == x_values@.len(),
            len == y_values@.len(),
            len <= 0x7fff_ffff_ffff_ffff,
            xs == vals(x_values@),
            ys == vals(y_values@),
            mx == mean_spec(xs),
            my == mean_spec(ys),
            terms == cov_terms(xs, ys),
            all_wf(x_values@),
            all_wf(y_values@),
            mean_x.wf(),
            mean_x@ == mx,
            mean_y.wf(),
            mean_y@ == my,
            acc.wf(),
            acc@ == nsum(terms.take(i as int)),
            sum_fits(terms.take(i as int)),
            forall|j: int| 0 <= j < i ==> #[trigger] cov_term_fits(xs[j], ys[j], mx, my),
        decreases len - i,
    {
        proof {
            assert(terms.take(i + 1).drop_last() =~= terms.take(i as int));
            assert(terms.take(i + 1).last() == terms[i as int]);
        }
        let dev_x = match x_values[i].sub(mean_x) {
            Some(d) => d,
            None => {
                proof {
                    assert(!cov_term_fits(xs[i as int], ys[i as int], mx, my));
                }
                return Err(RegressionError::Overflow);
            },
        };
        let dev_y = match y_values[i].sub(mean_y) {
            Some(d) => d,
            None => {
                proof {
                    assert(!cov_term_fits(xs[i as int], ys[i as int], mx, my));
                }
                return Err(RegressionError::Overflow);
            },
        };
        let prod = match dev_x.mul(dev_y) {
            Some(p) => p,
            None => {
                proof {
                    assert(!cov_term_fits(xs[i as int], ys[i as int], mx, my));
                }
                return Err(RegressionError::Overflow);
            },
        };
        match acc.add(prod) {
            Some(a) => {
                acc = a;
            },
            None => {
                proof {
                    if sum_fits(terms) {
                        lemma_sum_fits_prefix(terms, i + 1);
                    }
                }
                return Err(RegressionError::Overflow);
            },
        }
        proof {
            assert(q_fits(nsub(xs[i as int], mx)));
            assert(q_fits(nsub(ys[i as int], my)));
            assert(prod@ == cov_term(xs[i as int], ys[i as int], mx, my));
            assert(cov_term_fits(xs[i as int], ys[i as int], mx, my));
        }
        i += 1;
    }
    proof {
        assert(terms.take(len as int) =~= terms);
    }
    let divisor = Rat::from_int(len as i64);
    match acc.div(divisor) {
        Some(c) => Ok(c),
        None => Err(RegressionError::Overflow),
    }
}

} // verus!
