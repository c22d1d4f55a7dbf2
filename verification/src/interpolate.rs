//! Linear interpolation along an integer axis.
use vstd::prelude::*;
use crate::ratio::{lemma_product_bound, Frac, Ratio, MAX_DEN, MAX_NUM};

verus! {

/// Number of samples between the axis positions `i0` and `i1`: one for each
/// integer step in `[i0, i1)`, and a single sample when the two coincide.
pub open spec fn interp_len(i0: int, i1: int) -> nat {
    if i0 == i1 {
        1
    } else if i0 < i1 {
        (i1 - i0) as nat
    } else {
        0
    }
}

/// The `k`-th sample of the line through `(i0, d0)` and `(i1, d1)`, that is
/// `d0 + k * (d1 - d0) / (i1 - i0)`, and `d0` itself when `i0 == i1`.
pub open spec fn interp_sample(i0: int, d0: Frac, i1: int, d1: Frac, k: int) -> Frac {
    if i0 == i1 {
        d0
    } else {
        Frac {
            num: d0.num * d1.den * (i1 - i0) + k * (d1.num * d0.den - d0.num * d1.den),
            den: d0.den * d1.den * (i1 - i0),
        }
    }
}

/// All samples between `i0` and `i1`, in axis order.
pub open spec fn interp_series(i0: int, d0: Frac, i1: int, d1: Frac) -> Seq<Frac> {
    Seq::new(interp_len(i0, i1), |k: int| interp_sample(i0, d0, i1, d1, k))
}

/// The mathematical values of a vector of ratios.
pub open spec fn fracs(values: Seq<Ratio>) -> Seq<Frac> {
    Seq::new(values.len(), |k: int| values[k]@)
}

/// Interpolates linearly from `d0` at axis position `i0` toward `d1` at `i1`.
///
/// The result holds one exact sample per integer step in `[i0, i1)`; for
/// `i0 == i1` it holds `d0` alone, and for `i0 > i1` it is empty.
pub fn interpolate(i0: u32, d0: Ratio, i1: u32, d1: Ratio) -> (values: Vec<Ratio>)
    requires
        d0@.bounded(),
        d1@.bounded(),
    ensures
        fracs(values@) == interp_series(i0 as int, d0@, i1 as int, d1@),
        values@.len() == interp_len(i0 as int, i1 as int),
        forall|k: int|
            0 <= k < values@.len() ==> (#[trigger] values@[k])@ == interp_sample(
                i0 as int,
                d0@,
                i1 as int,
                d1@,
                k,
            ),
{
    let mut values: Vec<Ratio> = Vec::new();
    if i0 == i1 {
        values.push(d0);
        assert(fracs(values@) =~= interp_series(i0 as int, d0@, i1 as int, d1@));
        return values;
    }
    if i0 > i1 {
        assert(fracs(values@) =~= interp_series(i0 as int, d0@, i1 as int, d1@));
        return values;
    }
    let steps: u32 = i1 - i0;
    let n: i128 = steps as i128;
    proof {
        lemma_product_bound(d0.den as int, d1.den as int, MAX_DEN as int, MAX_DEN as int);
        lemma_product_bound(d0.num as int, d1.den as int, MAX_NUM as int, MAX_DEN as int);
        lemma_product_bound(d1.num as int, d0.den as int, MAX_NUM as int, MAX_DEN as int);
        lemma_product_bound(d0.den * d1.den, n as int, MAX_DEN * MAX_DEN, MAX_DEN as int);
        lemma_product_bound(d0.num * d1.den, n as int, MAX_NUM * MAX_DEN, MAX_DEN as int);
    }
    let den: i128 = d0.den * d1.den * n;
    let step: i128 = d1.num * d0.den - d0.num * d1.den;
    let first: i128 = d0.num * d1.den * n;
    let mut num: i128 = first;
    let mut k: u32 = 0;
    while k < steps
        invariant
            k <= steps,
            steps == i1 - i0,
            n == steps,
            den == d0.den * d1.den * n,
            step == d1.num * d0.den - d0.num * d1.den,
            first == d0.num * d1.den * n,
            -(MAX_NUM * MAX_DEN * MAX_DEN) <= first <= MAX_NUM * MAX_DEN * MAX_DEN,
            -(2 * MAX_NUM * MAX_DEN) <= step <= 2 * MAX_NUM * MAX_DEN,
            num == first + k * step,
            values.len() == k,
            forall|j: int| 0 <= j < k ==> (#[trigger] values[j])@ == interp_sample(i0 as int, d0@, i1 as int, d1@, j),
        decreases steps - k,
    {
        values.push(Ratio { num, den });
        proof {
            lemma_product_bound(k + 1, step as int, MAX_DEN as int, 2 * MAX_NUM * MAX_DEN);
            assert((k + 1) * step == k * step + step) by (nonlinear_arith);
        }
        num = num + step;
        k = k + 1;
    }
    assert(fracs(values@) =~= interp_series(i0 as int, d0@, i1 as int, d1@));
    values
}

/// Between coinciding axis positions the interpolator yields exactly one
/// sample, and that sample is `d0`.
pub proof fn lemma_single_sample(i: int, d0: Frac, d1: Frac)
    ensures
        interp_series(i, d0, i, d1) == seq![d0],
{
    assert(interp_series(i, d0, i, d1) =~= seq![d0]);
}

/// Between `i0 < i1` the interpolator yields exactly `i1 - i0` samples, the
/// first of which has the value of `d0`.
pub proof fn lemma_series_start(i0: int, d0: Frac, i1: int, d1: Frac)
    requires
        i0 < i1,
    ensures
        interp_series(i0, d0, i1, d1).len() == i1 - i0,
        interp_series(i0, d0, i1, d1)[0].same_value(d0),
{
    let n = i1 - i0;
    assert((d0.num * d1.den * n + 0 * (d1.num * d0.den - d0.num * d1.den)) * d0.den == d0.num * (
    d0.den * d1.den * n)) by (nonlinear_arith);
}

/// Between `i0 < i1` any two consecutive samples differ by exactly
/// `(d1 - d0) / (i1 - i0)`.
pub proof fn lemma_constant_step(i0: int, d0: Frac, i1: int, d1: Frac, k: int)
    requires
        i0 < i1,
        0 <= k,
        k + 1 < i1 - i0,
    ensures
        interp_series(i0, d0, i1, d1)[k + 1].minus(interp_series(i0, d0, i1, d1)[k]).same_value(
            d1.minus(d0).over(i1 - i0),
        ),
{
    let n = i1 - i0;
    let step = d1.num * d0.den - d0.num * d1.den;
    let first = d0.num * d1.den * n;
    let den = d0.den * d1.den * n;
    let a = interp_series(i0, d0, i1, d1)[k];
    let b = interp_series(i0, d0, i1, d1)[k + 1];
    assert(a == Frac { num: first + k * step, den });
    assert(b == Frac { num: first + (k + 1) * step, den });
    assert(((first + (k + 1) * step) * den - (first + k * step) * den) * (d1.den * d0.den * n)
        == step * (den * den)) by (nonlinear_arith)
        requires
            den == d0.den * d1.den * n,
    ;
}

/// A sample between two whole endpoints lies between them, and so does its
/// truncation: interpolation never leaves the range of its endpoints.
pub proof fn lemma_sample_within(i0: int, a: int, i1: int, b: int, k: int, lo: int, hi: int)
    requires
        0 <= k < interp_len(i0, i1),
        0 <= lo <= a <= hi,
        lo <= b <= hi,
        hi <= u32::MAX,
    ensures
        interp_sample(i0, Frac::whole(a), i1, Frac::whole(b), k).den == interp_len(i0, i1),
        lo * interp_len(i0, i1) <= interp_sample(i0, Frac::whole(a), i1, Frac::whole(b), k).num
            <= hi * interp_len(i0, i1),
        lo <= interp_sample(i0, Frac::whole(a), i1, Frac::whole(b), k).truncated() <= hi,
{
    let s = interp_sample(i0, Frac::whole(a), i1, Frac::whole(b), k);
    if i0 == i1 {
        assert(s.num == a && s.den == 1);
    } else {
        let n = i1 - i0;
        assert(s.den == n) by (nonlinear_arith)
            requires
                s.den == 1 * 1 * n,
        ;
        assert(s.num == a * n + k * (b - a)) by (nonlinear_arith)
            requires
                s.num == a * 1 * n + k * (b * 1 - a * 1),
        ;
        assert(lo * n <= s.num <= hi * n) by (nonlinear_arith)
            requires
                s.num == a * n + k * (b - a),
                0 <= k < n,
                lo <= a <= hi,
                lo <= b <= hi,
        ;
        assert(lo <= s.num / n <= hi) by (nonlinear_arith)
            requires
                lo * n <= s.num <= hi * n,
                n > 0,
        ;
    }
}

/// A sample between two bounded endpoints is small enough to scale a colour
/// channel by.
pub proof fn lemma_sample_scalable(i0: int, d0: Frac, i1: int, d1: Frac, k: int)
    requires
        0 <= i0 <= i1 <= u32::MAX,
        0 <= k < interp_len(i0, i1),
        d0.bounded(),
        d1.bounded(),
    ensures
        interp_sample(i0, d0, i1, d1, k).scalable(),
{
    if i0 < i1 {
        let n = i1 - i0;
        lemma_product_bound(d0.den, d1.den, MAX_DEN as int, MAX_DEN as int);
        lemma_product_bound(d0.num, d1.den, MAX_NUM as int, MAX_DEN as int);
        lemma_product_bound(d1.num, d0.den, MAX_NUM as int, MAX_DEN as int);
        lemma_product_bound(d0.den * d1.den, n, MAX_DEN * MAX_DEN, MAX_DEN as int);
        lemma_product_bound(d0.num * d1.den, n, MAX_NUM * MAX_DEN, MAX_DEN as int);
        lemma_product_bound(k, d1.num * d0.den - d0.num * d1.den, MAX_DEN as int, 2 * MAX_NUM * MAX_DEN);
        assert(d0.den * d1.den * n > 0) by (nonlinear_arith)
            requires
                d0.den > 0,
                d1.den > 0,
                n > 0,
        ;
    }
}

} // verus!
