use vstd::prelude::*;
use crate::error::EntropyError;

verus! {

/// Longest waveform whose least-squares fit is computed exactly in 128 bits.
pub const MAX_LEN: usize = 16777216;

/// `f(0) + f(1) + ... + f(k - 1)`.
pub open spec fn sum_fn(f: spec_fn(int) -> int, k: int) -> int
    decreases k,
{
    if k <= 0 {
        0
    } else {
        sum_fn(f, k - 1) + f(k - 1)
    }
}

/// The samples of `y`, by position.
pub open spec fn sample_fn(y: Seq<i32>) -> spec_fn(int) -> int {
    |i: int| y[i] as int
}

/// The samples of `y`, each times its 1-based position.
pub open spec fn weighted_fn(y: Seq<i32>) -> spec_fn(int) -> int {
    |i: int| (i + 1) * y[i]
}

/// Sum of the samples.
pub open spec fn sample_sum(y: Seq<i32>) -> int {
    sum_fn(sample_fn(y), y.len() as int)
}

/// Sum of the samples weighted by their 1-based position.
pub open spec fn weighted_sum(y: Seq<i32>) -> int {
    sum_fn(weighted_fn(y), y.len() as int)
}

/// Common denominator of the fit: `n^3 - n`, i.e. 12 times the sum of
/// squared deviations of the positions `1..n` from their mean.
pub open spec fn fit_scale(n: int) -> int {
    n * n * n - n
}

/// `sum (2x - (n + 1)) y_x` over positions `x = 1..n`: twice the sum of
/// products of deviations of position and sample from their means.
pub open spec fn cross_moment(y: Seq<i32>) -> int {
    2 * weighted_sum(y) - (y.len() + 1) * sample_sum(y)
}

/// The least-squares slope times `fit_scale(n)`.
pub open spec fn slope_scaled(y: Seq<i32>) -> int {
    6 * cross_moment(y)
}

/// The least-squares intercept (the fitted value at position 0) times `fit_scale(n)`.
pub open spec fn intercept_scaled(y: Seq<i32>) -> int {
    let n = y.len() as int;
    (n * n - 1) * sample_sum(y) - 3 * (n + 1) * cross_moment(y)
}

/// Sample `i` (0-based, position `i + 1`) minus the fitted line, times `fit_scale(n)`.
pub open spec fn residual_scaled(y: Seq<i32>, i: int) -> int {
    fit_scale(y.len() as int) * y[i] - intercept_scaled(y) - slope_scaled(y) * (i + 1)
}

/// A detrended waveform: sample `i` is `values[i] / scale`.
#[derive(Debug)]
pub struct Detrended {
    pub values: Vec<i128>,
    pub scale: i128,
}

/// `d` is the detrended form of `y`.
pub open spec fn detrends(d: Detrended, y: Seq<i32>) -> bool {
    &&& d.scale == fit_scale(y.len() as int)
    &&& d.values@.len() == y.len()
    &&& forall|i: int| 0 <= i < y.len() ==> (#[trigger] d.values@[i]) as int == residual_scaled(y, i)
}

proof fn lemma_sum_bounds(y: Seq<i32>, k: int, s: int, w: int)
    requires
        0 <= k < y.len(),
        k < 0x100_0000,
        -(k * 0x8000_0000) <= s <= k * 0x8000_0000,
        -(k * k * 0x8000_0000) <= w <= k * k * 0x8000_0000,
    ensures
        -((k + 1) * 0x8000_0000) <= s + y[k] <= (k + 1) * 0x8000_0000,
        -((k + 1) * 0x8000_0000) <= (k + 1) * y[k] <= (k + 1) * 0x8000_0000,
        -((k + 1) * (k + 1) * 0x8000_0000) <= w + (k + 1) * y[k] <= (k + 1) * (k + 1) * 0x8000_0000,
        (k + 1) * (k + 1) * 0x8000_0000 <= 0x8000_0000_0000_0000_0000,
{
    let v = y[k] as int;
    assert(-0x8000_0000 <= v < 0x8000_0000);
    assert(-((k + 1) * 0x8000_0000) <= (k + 1) * v <= (k + 1) * 0x8000_0000) by (nonlinear_arith)
        requires
            -0x8000_0000 <= v < 0x8000_0000,
            k >= 0,
    ;
    assert(k * k * 0x8000_0000 + (k + 1) * 0x8000_0000 <= (k + 1) * (k + 1) * 0x8000_0000) by (nonlinear_arith)
        requires
            k >= 0,
    ;
    assert((k + 1) * (k + 1) * 0x8000_0000 <= 0x8000_0000_0000_0000_0000) by (nonlinear_arith)
        requires
            0 <= k < 0x100_0000,
    ;
}

proof fn lemma_fit_bounds(n: int, s: int, w: int)
    requires
        2 <= n <= 0x100_0000,
        -(n * 0x8000_0000) <= s <= n * 0x8000_0000,
        -(n * n * 0x8000_0000) <= w <= n * n * 0x8000_0000,
    ensures
        -0x2_0000_0000_0000_0000_0000 < 2 * w - (n + 1) * s < 0x2_0000_0000_0000_0000_0000,
        -0x1_0000_0000_0000_0000_0000 < (n + 1) * s < 0x1_0000_0000_0000_0000_0000,
        0 < n * n * n - n <= 0x100_0000_0000_0000_0000,
        0 <= n * n - 1 < 0x1_0000_0000_0000,
        n * n * n <= 0x100_0000_0000_0000_0000,
        -0x80_0000_0000_0000 <= s <= 0x80_0000_0000_0000,
{
    assert(n * n <= 0x1_0000_0000_0000) by (nonlinear_arith)
        requires
            2 <= n <= 0x100_0000,
    ;
    assert(n * n * n <= 0x100_0000_0000_0000_0000) by (nonlinear_arith)
        requires
            2 <= n <= 0x100_0000,
    ;
    assert(n * n * n - n > 0) by (nonlinear_arith)
        requires
            2 <= n,
    ;
    assert(n * 0x8000_0000 <= 0x80_0000_0000_0000) by (nonlinear_arith)
        requires
            n <= 0x100_0000,
    ;
    assert(n * n * 0x8000_0000 <= 0x8000_0000_0000_0000_0000) by (nonlinear_arith)
        requires
            n * n <= 0x1_0000_0000_0000,
    ;
    assert(-0x1_0000_0000_0000_0000_0000 < (n + 1) * s < 0x1_0000_0000_0000_0000_0000) by (nonlinear_arith)
        requires
            2 <= n <= 0x100_0000,
            -(n * 0x8000_0000) <= s <= n * 0x8000_0000,
    ;
}

proof fn lemma_coefficient_bounds(n: int, s: int, p: int)
    requires
        2 <= n <= 0x100_0000,
        -0x80_0000_0000_0000 <= s <= 0x80_0000_0000_0000,
        -0x2_0000_0000_0000_0000_0000 < p < 0x2_0000_0000_0000_0000_0000,
    ensures
        -0x80_0000_0000_0000_0000_0000_0000 <= (n * n - 1) * s <= 0x80_0000_0000_0000_0000_0000_0000,
        -0x800_0000_0000_0000_0000_0000_0000 < 3 * (n + 1) * p < 0x800_0000_0000_0000_0000_0000_0000,
        -0x1000_0000_0000_0000_0000_0000_0000 < (n * n - 1) * s - 3 * (n + 1) * p
            < 0x1000_0000_0000_0000_0000_0000_0000,
        -0x10_0000_0000_0000_0000_0000 < 6 * p < 0x10_0000_0000_0000_0000_0000,
{
    assert(-0x80_0000_0000_0000_0000_0000_0000 <= (n * n - 1) * s <= 0x80_0000_0000_0000_0000_0000_0000)
        by (nonlinear_arith)
        requires
            2 <= n <= 0x100_0000,
            -0x80_0000_0000_0000 <= s <= 0x80_0000_0000_0000,
    ;
    assert(-0x800_0000_0000_0000_0000_0000_0000 < 3 * (n + 1) * p < 0x800_0000_0000_0000_0000_0000_0000)
        by (nonlinear_arith)
        requires
            2 <= n <= 0x100_0000,
            -0x2_0000_0000_0000_0000_0000 < p < 0x2_0000_0000_0000_0000_0000,
    ;
}

proof fn lemma_residual_bounds(m: int, v: int, a: int, b: int, x: int)
    requires
        0 < m <= 0x100_0000_0000_0000_0000,
        -0x8000_0000 <= v < 0x8000_0000,
        -0x1000_0000_0000_0000_0000_0000_0000 < a < 0x1000_0000_0000_0000_0000_0000_0000,
        -0x10_0000_0000_0000_0000_0000 < b < 0x10_0000_0000_0000_0000_0000,
        1 <= x <= 0x100_0000,
    ensures
        -0x80_0000_0000_0000_0000_0000_0000 <= m * v <= 0x80_0000_0000_0000_0000_0000_0000,
        -0x1000_0000_0000_0000_0000_0000_0000 <= b * x <= 0x1000_0000_0000_0000_0000_0000_0000,
{
    assert(-0x80_0000_0000_0000_0000_0000_0000 <= m * v <= 0x80_0000_0000_0000_0000_0000_0000)
        by (nonlinear_arith)
        requires
            0 < m <= 0x100_0000_0000_0000_0000,
            -0x8000_0000 <= v < 0x8000_0000,
    ;
    assert(-0x1000_0000_0000_0000_0000_0000_0000 <= b * x <= 0x1000_0000_0000_0000_0000_0000_0000)
        by (nonlinear_arith)
        requires
            -0x10_0000_0000_0000_0000_0000 < b < 0x10_0000_0000_0000_0000_0000,
            1 <= x <= 0x100_0000,
    ;
}

/// Removes the ordinary-least-squares line fitted over positions `1..n`.
///
/// The sample sum and the position-weighted sum are accumulated together in
/// one pass; the residuals are exact, over the common denominator `n^3 - n`.
pub fn detrend_data(data: &Vec<i32>) -> (r: Result<Detrended, EntropyError>)
    ensures
        data@.len() < 2 <==> r == Err::<Detrended, EntropyError>(EntropyError::InsufficientData),
        data@.len() > MAX_LEN <==> r == Err::<Detrended, EntropyError>(EntropyError::TooLarge),
        2 <= data@.len() <= MAX_LEN <==> r is Ok,
        r is Ok ==> detrends(r->Ok_0, data@),
{
    let n: usize = data.len();
    if n < 2 {
        return Err(EntropyError::InsufficientData);
    }
    if n > MAX_LEN {
        return Err(EntropyError::TooLarge);
    }
    let ghost y = data@;
    let mut s: i128 = 0;
    let mut w: i128 = 0;
    let mut k: usize = 0;
    while k < n
        invariant
            y == data@,
            n == y.len(),
            2 <= n <= MAX_LEN,
            k <= n,
            s == sum_fn(sample_fn(y), k as int),
            w == sum_fn(weighted_fn(y), k as int),
            -(k * 0x8000_0000) <= s <= k * 0x8000_0000,
            -(k * k * 0x8000_0000) <= w <= k * k * 0x8000_0000,
        decreases n - k,
    {
        proof {
            lemma_sum_bounds(y, k as int, s as int, w as int);
        }
        let v: i128 = data[k] as i128;
        s = s + v;
        w = w + (k as i128 + 1) * v;
        k = k + 1;
    }
    let nn: i128 = n as i128;
    proof {
        lemma_fit_bounds(n as int, s as int, w as int);
    }
    let p: i128 = 2 * w - (nn + 1) * s;
    let scale: i128 = nn * nn * nn - nn;
    proof {
        lemma_coefficient_bounds(n as int, s as int, p as int);
    }
    let intercept: i128 = (nn * nn - 1) * s - 3 * (nn + 1) * p;
    let slope: i128 = 6 * p;
    assert(p == cross_moment(y));
    assert(intercept == intercept_scaled(y));
    assert(slope == slope_scaled(y));
    let mut values: Vec<i128> = Vec::new();
    let mut i: usize = 0;
    while i < n
        invariant
            y == data@,
            n == y.len(),
            2 <= n <= MAX_LEN,
            i <= n,
            scale == fit_scale(n as int),
            0 < scale <= 0x100_0000_0000_0000_0000,
            intercept == intercept_scaled(y),
            slope == slope_scaled(y),
            -0x1000_0000_0000_0000_0000_0000_0000 < intercept < 0x1000_0000_0000_0000_0000_0000_0000,
            -0x10_0000_0000_0000_0000_0000 < slope < 0x10_0000_0000_0000_0000_0000,
            values@.len() == i,
            forall|j: int| 0 <= j < i ==> (#[trigger] values@[j]) as int == residual_scaled(y, j),
        decreases n - i,
    {
        proof {
            lemma_residual_bounds(scale as int, y[i as int] as int, intercept as int, slope as int, i + 1);
        }
        let e: i128 = scale * (data[i] as i128) - intercept - slope * (i as i128 + 1);
        values.push(e);
        i = i + 1;
    }
    Ok(Detrended { values, scale })
}

/// The scaled residuals of `y`, by position.
pub open spec fn residual_fn(y: Seq<i32>) -> spec_fn(int) -> int {
    |i: int| residual_scaled(y, i)
}

/// The scaled residuals of `y`, each times its 1-based position.
pub open spec fn weighted_residual_fn(y: Seq<i32>) -> spec_fn(int) -> int {
    |i: int| (i + 1) * residual_scaled(y, i)
}

proof fn lemma_linear_sums(y: Seq<i32>, a: int, b: int, k: int)
    requires
        0 <= k <= y.len(),
        forall|i: int| 0 <= i < y.len() ==> #[trigger] y[i] == a + b * (i + 1),
    ensures
        sum_fn(sample_fn(y), k) == k * a + b * sum_fn(position_fn(), k),
        sum_fn(weighted_fn(y), k) == a * sum_fn(position_fn(), k) + b * sum_fn(position_sq_fn(), k),
    decreases k,
{
    if k > 0 {
        let j = k - 1;
        lemma_linear_sums(y, a, b, j);
        let s = sum_fn(sample_fn(y), j);
        let w = sum_fn(weighted_fn(y), j);
        let t1 = sum_fn(position_fn(), j);
        let t2 = sum_fn(position_sq_fn(), j);
        let v = y[j] as int;
        assert(v == a + b * k);
        assert(sum_fn(sample_fn(y), k) == s + v);
        assert(sum_fn(weighted_fn(y), k) == w + k * v);
        assert(sum_fn(position_fn(), k) == t1 + k);
        assert(sum_fn(position_sq_fn(), k) == t2 + k * k);
        assert(s + v == k * a + b * (t1 + k)) by (nonlinear_arith)
            requires
                s == j * a + b * t1,
                v == a + b * k,
                k == j + 1,
        ;
        assert(k * v == a * k + b * (k * k)) by (nonlinear_arith)
            requires
                v == a + b * k,
        ;
        assert(a * (t1 + k) == a * t1 + a * k) by (nonlinear_arith);
        assert(b * (t2 + k * k) == b * t2 + b * (k * k)) by (nonlinear_arith);
    } else {
        assert(k * a == 0 && b * 0 == 0 && a * 0 == 0) by (nonlinear_arith)
            requires
                k == 0,
        ;
    }
}

/// A waveform that lies on a line `a + b x` over its positions `x = 1..n` is
/// fitted exactly: the fit recovers `a` and `b`, and every residual is zero.
pub proof fn lemma_detrend_linear_is_zero(y: Seq<i32>, a: int, b: int)
    requires
        y.len() >= 2,
        forall|i: int| 0 <= i < y.len() ==> #[trigger] y[i] == a + b * (i + 1),
    ensures
        slope_scaled(y) == b * fit_scale(y.len() as int),
        intercept_scaled(y) == a * fit_scale(y.len() as int),
        forall|i: int| 0 <= i < y.len() ==> #[trigger] residual_scaled(y, i) == 0,
{
    let n = y.len() as int;
    lemma_linear_sums(y, a, b, n);
    lemma_position_sums(n);
    let t1 = sum_fn(position_fn(), n);
    let t2 = sum_fn(position_sq_fn(), n);
    let s = sample_sum(y);
    let w = weighted_sum(y);
    let p = cross_moment(y);
    let m = fit_scale(n);
    assert(p == 2 * w - (n + 1) * s);
    assert(m == n * n * n - n);
    assert(2 * s == 2 * n * a + b * n * (n + 1)) by (nonlinear_arith)
        requires
            s == n * a + b * t1,
            2 * t1 == n * (n + 1),
    ;
    assert(6 * w == 3 * a * n * (n + 1) + b * n * (n + 1) * (2 * n + 1)) by (nonlinear_arith)
        requires
            w == a * t1 + b * t2,
            2 * t1 == n * (n + 1),
            6 * t2 == n * (n + 1) * (2 * n + 1),
    ;
    assert(6 * p == b * m) by (nonlinear_arith)
        requires
            2 * s == 2 * n * a + b * n * (n + 1),
            6 * w == 3 * a * n * (n + 1) + b * n * (n + 1) * (2 * n + 1),
            p == 2 * w - (n + 1) * s,
            m == n * n * n - n,
    ;
    let big_a = intercept_scaled(y);
    assert(big_a == (n * n - 1) * s - 3 * (n + 1) * p);
    assert(2 * big_a == 2 * (a * m)) by (nonlinear_arith)
        requires
            2 * s == 2 * n * a + b * n * (n + 1),
            6 * p == b * m,
            big_a == (n * n - 1) * s - 3 * (n + 1) * p,
            m == n * n * n - n,
    ;
    assert forall|i: int| 0 <= i < y.len() implies #[trigger] residual_scaled(y, i) == 0 by {
        let v = y[i] as int;
        assert(v == a + b * (i + 1));
        assert(m * v - a * m - b * m * (i + 1) == 0) by (nonlinear_arith)
            requires
                v == a + b * (i + 1),
        ;
        assert(slope_scaled(y) * (i + 1) == b * m * (i + 1)) by (nonlinear_arith)
            requires
                slope_scaled(y) == b * m,
        ;
    }
}

/// A constant waveform detrends to all zeros: slope zero, intercept the constant.
pub proof fn lemma_detrend_constant_is_zero(y: Seq<i32>, c: int)
    requires
        y.len() >= 2,
        forall|i: int| 0 <= i < y.len() ==> #[trigger] y[i] == c,
    ensures
        slope_scaled(y) == 0,
        intercept_scaled(y) == c * fit_scale(y.len() as int),
        forall|i: int| 0 <= i < y.len() ==> #[trigger] residual_scaled(y, i) == 0,
{
    assert forall|i: int| 0 <= i < y.len() implies #[trigger] y[i] == c + 0 * (i + 1) by {}
    lemma_detrend_linear_is_zero(y, c, 0);
    assert(0 * fit_scale(y.len() as int) == 0);
}

/// The positions `1..k`, summed.
spec fn position_fn() -> spec_fn(int) -> int {
    |i: int| i + 1
}

/// The squared positions `1..k`, summed.
spec fn position_sq_fn() -> spec_fn(int) -> int {
    |i: int| (i + 1) * (i + 1)
}

proof fn lemma_position_sums(k: int)
    requires
        k >= 0,
    ensures
        2 * sum_fn(position_fn(), k) == k * (k + 1),
        6 * sum_fn(position_sq_fn(), k) == k * (k + 1) * (2 * k + 1),
    decreases k,
{
    if k > 0 {
        let j = k - 1;
        lemma_position_sums(j);
        let t1 = sum_fn(position_fn(), j);
        let t2 = sum_fn(position_sq_fn(), j);
        assert(sum_fn(position_fn(), k) == t1 + k);
        assert(sum_fn(position_sq_fn(), k) == t2 + k * k);
        assert(2 * (t1 + k) == k * (k + 1)) by (nonlinear_arith)
            requires
                2 * t1 == j * (j + 1),
                k == j + 1,
        ;
        assert(6 * (t2 + k * k) == k * (k + 1) * (2 * k + 1)) by (nonlinear_arith)
            requires
                6 * t2 == j * (j + 1) * (2 * j + 1),
                k == j + 1,
        ;
    } else {
        assert(k * (k + 1) == 0 && k * (k + 1) * (2 * k + 1) == 0) by (nonlinear_arith)
            requires
                k == 0,
        ;
    }
}

proof fn lemma_residual_sums(y: Seq<i32>, k: int)
    requires
        0 <= k <= y.len(),
    ensures
        sum_fn(residual_fn(y), k) == fit_scale(y.len() as int) * sum_fn(sample_fn(y), k) - k
            * intercept_scaled(y) - slope_scaled(y) * sum_fn(position_fn(), k),
        sum_fn(weighted_residual_fn(y), k) == fit_scale(y.len() as int) * sum_fn(weighted_fn(y), k)
            - intercept_scaled(y) * sum_fn(position_fn(), k) - slope_scaled(y) * sum_fn(
            position_sq_fn(),
            k,
        ),
    decreases k,
{
    let m = fit_scale(y.len() as int);
    let a = intercept_scaled(y);
    let b = slope_scaled(y);
    if k > 0 {
        let j = k - 1;
        lemma_residual_sums(y, j);
        let v = y[j] as int;
        let e = residual_scaled(y, j);
        let re = sum_fn(residual_fn(y), j);
        let rw = sum_fn(weighted_residual_fn(y), j);
        let s = sum_fn(sample_fn(y), j);
        let w = sum_fn(weighted_fn(y), j);
        let t1 = sum_fn(position_fn(), j);
        let t2 = sum_fn(position_sq_fn(), j);
        assert(e == m * v - a - b * k);
        assert(sum_fn(residual_fn(y), k) == re + e);
        assert(sum_fn(weighted_residual_fn(y), k) == rw + k * e);
        assert(sum_fn(sample_fn(y), k) == s + v);
        assert(sum_fn(weighted_fn(y), k) == w + k * v);
        assert(sum_fn(position_fn(), k) == t1 + k);
        assert(sum_fn(position_sq_fn(), k) == t2 + k * k);
        assert(re + e == m * (s + v) - k * a - b * (t1 + k)) by (nonlinear_arith)
            requires
                re == m * s - j * a - b * t1,
                e == m * v - a - b * k,
                k == j + 1,
        ;
        assert(k * e == m * (k * v) - a * k - b * (k * k)) by (nonlinear_arith)
            requires
                e == m * v - a - b * k,
        ;
        assert(m * (w + k * v) == m * w + m * (k * v)) by (nonlinear_arith);
        assert(a * (t1 + k) == a * t1 + a * k) by (nonlinear_arith);
        assert(b * (t2 + k * k) == b * t2 + b * (k * k)) by (nonlinear_arith);
    } else {
        assert(m * 0 == 0 && k * a == 0 && b * 0 == 0 && a * 0 == 0) by (nonlinear_arith)
            requires
                k == 0,
        ;
    }
}

/// The residuals are orthogonal to the constants and to the positions: the
/// normal equations of least squares hold, so the removed line is the
/// least-squares fit, and the detrended waveform has mean zero.
pub proof fn lemma_residuals_normal_equations(y: Seq<i32>)
    requires
        y.len() >= 2,
    ensures
        sum_fn(residual_fn(y), y.len() as int) == 0,
        sum_fn(weighted_residual_fn(y), y.len() as int) == 0,
{
    let n = y.len() as int;
    lemma_residual_sums(y, n);
    lemma_position_sums(n);
    let m = fit_scale(n);
    let a = intercept_scaled(y);
    let b = slope_scaled(y);
    let s = sample_sum(y);
    let w = weighted_sum(y);
    let p = cross_moment(y);
    let t1 = sum_fn(position_fn(), n);
    let t2 = sum_fn(position_sq_fn(), n);
    let re = sum_fn(residual_fn(y), n);
    let rw = sum_fn(weighted_residual_fn(y), n);
    assert(re == 0) by (nonlinear_arith)
        requires
            re == m * s - n * a - b * t1,
            2 * t1 == n * (n + 1),
            m == n * n * n - n,
            a == (n * n - 1) * s - 3 * (n + 1) * p,
            b == 6 * p,
    ;
    let u1 = 3 * a * n * (n + 1);
    let u2 = b * n * (n + 1) * (2 * n + 1);
    assert(6 * rw == 6 * (m * w) - u1 - u2) by (nonlinear_arith)
        requires
            rw == m * w - a * t1 - b * t2,
            2 * t1 == n * (n + 1),
            6 * t2 == n * (n + 1) * (2 * n + 1),
            u1 == 3 * a * n * (n + 1),
            u2 == b * n * (n + 1) * (2 * n + 1),
    ;
    assert(u1 == 3 * (n + 1) * (m * s) - 9 * n * (n + 1) * (n + 1) * p) by (nonlinear_arith)
        requires
            u1 == 3 * a * n * (n + 1),
            m == n * n * n - n,
            a == (n * n - 1) * s - 3 * (n + 1) * p,
    ;
    assert(u2 == 6 * n * (n + 1) * (2 * n + 1) * p) by (nonlinear_arith)
        requires
            u2 == b * n * (n + 1) * (2 * n + 1),
            b == 6 * p,
    ;
    assert(9 * n * (n + 1) * (n + 1) * p - 6 * n * (n + 1) * (2 * n + 1) * p == -3 * (m * p))
        by (nonlinear_arith)
        requires
            m == n * n * n - n,
    ;
    assert(6 * (m * w) - 3 * (n + 1) * (m * s) - 3 * (m * p) == 0) by (nonlinear_arith)
        requires
            p == 2 * w - (n + 1) * s,
    ;
}

} // verus!
