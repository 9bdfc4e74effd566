use vstd::prelude::*;
use crate::detrend::sum_fn;
use crate::error::EntropyError;
use crate::matching::abs_diff;

verus! {

/// The samples of `v`, by position.
pub open spec fn value_fn(v: Seq<i128>) -> spec_fn(int) -> int {
    |i: int| v[i] as int
}

/// The squared samples of `v`, by position.
pub open spec fn square_fn(v: Seq<i128>) -> spec_fn(int) -> int {
    |i: int| v[i] * v[i]
}

/// The squared deviations of the samples of `v` from `c`, by position.
pub open spec fn deviation_fn(v: Seq<i128>, c: int) -> spec_fn(int) -> int {
    |i: int| (v[i] - c) * (v[i] - c)
}

/// Sum of the samples.
pub open spec fn value_sum(v: Seq<i128>) -> int {
    sum_fn(value_fn(v), v.len() as int)
}

/// Sum of squares of the samples.
pub open spec fn square_sum(v: Seq<i128>) -> int {
    sum_fn(square_fn(v), v.len() as int)
}

/// `n * sum(v^2) - (sum v)^2`, which is `n^2` times the population variance
/// `mean((v - mean(v))^2)`.
pub open spec fn spread(v: Seq<i128>) -> int {
    v.len() * square_sum(v) - value_sum(v) * value_sum(v)
}

/// `den^2 n^2 t^2 >= num^2 (n sum(v^2) - (sum v)^2)`: `t >= (num / den) * sigma`.
pub open spec fn reaches(v: Seq<i128>, num: int, den: int, t: int) -> bool {
    den * den * (v.len() * v.len()) * (t * t) >= num * num * spread(v)
}

/// `t` is the least non-negative integer with `t >= (num / den) * sigma`,
/// `sigma` the population standard deviation of `v`; so an integer
/// difference `d` satisfies `|d| < t` exactly when `|d| < (num / den) * sigma`.
pub open spec fn is_tolerance(v: Seq<i128>, num: int, den: int, t: int) -> bool {
    &&& t >= 0
    &&& reaches(v, num, den, t)
    &&& (t == 0 || !reaches(v, num, den, t - 1))
}

/// The exact products the tolerance is computed from exceed 128 bits.
pub open spec fn tolerance_overflows(v: Seq<i128>, num: int) -> bool {
    num * num * square_sum(v) > u128::MAX || num * num * (value_sum(v) * value_sum(v)) > u128::MAX
}

proof fn lemma_square_sum_grows(v: Seq<i128>, k: int, n: int)
    requires
        0 <= k <= n,
    ensures
        sum_fn(square_fn(v), k) <= sum_fn(square_fn(v), n),
        sum_fn(square_fn(v), k) >= 0,
    decreases n,
{
    if n > k {
        lemma_square_sum_grows(v, k, n - 1);
        let e = v[n - 1] as int;
        assert(e * e >= 0) by (nonlinear_arith);
    } else if k > 0 {
        lemma_square_sum_grows(v, k - 1, k - 1);
        let e = v[k - 1] as int;
        assert(e * e >= 0) by (nonlinear_arith);
    }
}

/// `sum (v_i - c)^2 = sum v_i^2 - 2 c sum v_i + k c^2`, and it is non-negative.
proof fn lemma_deviations(v: Seq<i128>, c: int, k: int)
    requires
        k >= 0,
    ensures
        sum_fn(deviation_fn(v, c), k) == sum_fn(square_fn(v), k) - 2 * c * sum_fn(value_fn(v), k) + k
            * (c * c),
        sum_fn(deviation_fn(v, c), k) >= 0,
    decreases k,
{
    if k > 0 {
        let j = k - 1;
        lemma_deviations(v, c, j);
        let e = v[j] as int;
        let x = sum_fn(square_fn(v), j);
        let w = sum_fn(value_fn(v), j);
        let s = sum_fn(deviation_fn(v, c), j);
        assert(sum_fn(deviation_fn(v, c), k) == s + (e - c) * (e - c));
        assert(sum_fn(square_fn(v), k) == x + e * e);
        assert(sum_fn(value_fn(v), k) == w + e);
        assert(s + (e - c) * (e - c) == (x + e * e) - 2 * c * (w + e) + k * (c * c)) by (nonlinear_arith)
            requires
                s == x - 2 * c * w + j * (c * c),
                k == j + 1,
        ;
        assert((e - c) * (e - c) >= 0) by (nonlinear_arith);
    } else {
        assert(k * (c * c) == 0 && 2 * c * 0 == 0) by (nonlinear_arith)
            requires
                k == 0,
        ;
    }
}

/// `k sum v^2 >= (sum v)^2` over every prefix (Cauchy-Schwarz).
proof fn lemma_prefix_spread(v: Seq<i128>, k: int)
    requires
        0 <= k <= v.len(),
    ensures
        k * sum_fn(square_fn(v), k) - sum_fn(value_fn(v), k) * sum_fn(value_fn(v), k) >= 0,
    decreases k,
{
    if k > 0 {
        let j = k - 1;
        lemma_prefix_spread(v, j);
        let e = v[j] as int;
        let x = sum_fn(square_fn(v), j);
        let w = sum_fn(value_fn(v), j);
        lemma_deviations(v, e, j);
        assert(sum_fn(square_fn(v), k) == x + e * e);
        assert(sum_fn(value_fn(v), k) == w + e);
        assert(k * (x + e * e) - (w + e) * (w + e) >= 0) by (nonlinear_arith)
            requires
                j * x - w * w >= 0,
                x - 2 * e * w + j * (e * e) >= 0,
                k == j + 1,
        ;
    } else {
        assert(k * sum_fn(square_fn(v), k) == 0) by (nonlinear_arith)
            requires
                k == 0,
        ;
    }
}

/// The variance is never negative: `spread(v) >= 0`.
pub proof fn lemma_spread_nonneg(v: Seq<i128>)
    ensures
        spread(v) >= 0,
{
    lemma_prefix_spread(v, v.len() as int);
}

/// A prefix sum of a waveform whose squares sum within 128 bits stays within 96 bits.
proof fn lemma_prefix_sum_bound(v: Seq<i128>, k: int)
    requires
        0 <= k <= v.len() <= u64::MAX,
        sum_fn(square_fn(v), k) <= u128::MAX,
    ensures
        -0x1_0000_0000_0000_0000_0000_0000 < sum_fn(value_fn(v), k) < 0x1_0000_0000_0000_0000_0000_0000,
{
    lemma_prefix_spread(v, k);
    lemma_square_sum_grows(v, 0, k);
    let x = sum_fn(square_fn(v), k);
    let w = sum_fn(value_fn(v), k);
    assert(k * x <= u64::MAX * u128::MAX) by (nonlinear_arith)
        requires
            0 <= k <= u64::MAX,
            0 <= x <= u128::MAX,
    ;
    assert(-0x1_0000_0000_0000_0000_0000_0000 < w < 0x1_0000_0000_0000_0000_0000_0000) by (nonlinear_arith)
        requires
            w * w <= u64::MAX * u128::MAX,
    ;
}

/// Whether `n (dn t^2) + k2 >= n k1`, computed without overflow.
fn reaches_at(n: usize, dn: u128, k1: u128, k2: u128, t: u128) -> (b: bool)
    requires
        n >= 1,
        t < 0x1_0000_0000_0000_0000,
    ensures
        b == (n * (dn * (t * t)) + k2 >= n * k1),
{
    assert(t * t < 0x1_0000_0000_0000_0000 * 0x1_0000_0000_0000_0000) by (nonlinear_arith)
        requires
            t < 0x1_0000_0000_0000_0000,
    ;
    let t2: u128 = t * t;
    let h: u128 = k2 / n as u128;
    let ghost r: int = (k2 as int) % (n as int);
    proof {
        assert(h == (k2 as int) / (n as int));
        assert(k2 == n * h + r && 0 <= r < n) by (nonlinear_arith)
            requires
                n >= 1,
                h == (k2 as int) / (n as int),
                r == (k2 as int) % (n as int),
        ;
    }
    match dn.checked_mul(t2) {
        None => {
            assert(n * (dn * t2) >= n * k1) by (nonlinear_arith)
                requires
                    dn * t2 > k1,
                    n >= 1,
            ;
            true
        },
        Some(a) => {
            if a >= k1 {
                assert(n * a >= n * k1) by (nonlinear_arith)
                    requires
                        a >= k1,
                        n >= 1,
                ;
                true
            } else {
                let z: u128 = k1 - a;
                assert((k2 >= n * z) == (z <= h)) by (nonlinear_arith)
                    requires
                        k2 == n * h + r,
                        0 <= r < n,
                        n >= 1,
                        z >= 0,
                ;
                assert(n * k1 == n * a + n * z) by (nonlinear_arith)
                    requires
                        z == k1 - a,
                ;
                z <= h
            }
        },
    }
}

/// `reaches` in the terms `reaches_at` computes it with.
proof fn lemma_reaches_form(v: Seq<i128>, num: int, den: int, t: int, dn: int, k1: int, k2: int)
    requires
        dn == den * den * v.len(),
        k1 == num * num * square_sum(v),
        k2 == num * num * (value_sum(v) * value_sum(v)),
    ensures
        reaches(v, num, den, t) == (v.len() * (dn * (t * t)) + k2 >= v.len() * k1),
{
    let n = v.len() as int;
    let x = square_sum(v);
    let w = value_sum(v);
    assert(den * den * (n * n) * (t * t) == n * (dn * (t * t))) by (nonlinear_arith)
        requires
            dn == den * den * n,
    ;
    assert(num * num * (n * x - w * w) == n * k1 - k2) by (nonlinear_arith)
        requires
            k1 == num * num * x,
            k2 == num * num * (w * w),
    ;
}

/// Tolerance `(num / den) * sigma` for the waveform `values`, as an exclusive
/// bound on integer differences (see `is_tolerance`); `sigma` is the
/// population standard deviation, `sqrt(mean((v - mean(v))^2))`.
pub fn tolerance(values: &Vec<i128>, num: u32, den: u32) -> (r: Result<i128, EntropyError>)
    requires
        den >= 1,
    ensures
        r is Err <==> (num >= 1 && tolerance_overflows(values@, num as int)),
        r is Err ==> r == Err::<i128, EntropyError>(EntropyError::TooLarge),
        r is Ok ==> is_tolerance(values@, num as int, den as int, r->Ok_0 as int),
{
    let ghost v = values@;
    let n: usize = values.len();
    if num == 0 {
        assert(reaches(v, 0, den as int, 0)) by (nonlinear_arith);
        return Ok(0);
    }
    assert(num * num >= 1) by (nonlinear_arith)
        requires
            num >= 1,
    ;
    let mut x: u128 = 0;
    let mut w: i128 = 0;
    let mut i: usize = 0;
    while i < n
        invariant
            v == values@,
            n == v.len() <= u64::MAX,
            num * num >= 1,
            i <= n,
            x == sum_fn(square_fn(v), i as int),
            w == sum_fn(value_fn(v), i as int),
        decreases n - i,
    {
        let e: i128 = values[i];
        if e >= 0x1_0000_0000_0000_0000 || e <= -0x1_0000_0000_0000_0000 {
            proof {
                assert(e * e >= 0x1_0000_0000_0000_0000 * 0x1_0000_0000_0000_0000) by (nonlinear_arith)
                    requires
                        e >= 0x1_0000_0000_0000_0000 || e <= -0x1_0000_0000_0000_0000,
                ;
                lemma_square_sum_grows(v, i as int, n as int);
                lemma_square_sum_grows(v, i + 1, n as int);
                let s = square_sum(v);
                assert(num * num * s >= s) by (nonlinear_arith)
                    requires
                        num * num >= 1,
                        s >= 0,
                ;
            }
            return Err(EntropyError::TooLarge);
        }
        let a: u128 = if e >= 0 {
            e as u128
        } else {
            (-e) as u128
        };
        assert(a * a == e * e) by (nonlinear_arith)
            requires
                a == e || a == -e,
        ;
        assert(a * a < 0x1_0000_0000_0000_0000 * 0x1_0000_0000_0000_0000) by (nonlinear_arith)
            requires
                a < 0x1_0000_0000_0000_0000,
        ;
        let sq: u128 = a * a;
        match x.checked_add(sq) {
            Some(next) => {
                x = next;
            },
            None => {
                proof {
                    lemma_square_sum_grows(v, i + 1, n as int);
                    let s = square_sum(v);
                    assert(num * num * s >= s) by (nonlinear_arith)
                        requires
                            num * num >= 1,
                            s >= 0,
                    ;
                }
                return Err(EntropyError::TooLarge);
            },
        }
        proof {
            lemma_prefix_sum_bound(v, i + 1);
        }
        w = w + e;
        i = i + 1;
    }
    assert(x == square_sum(v) && w == value_sum(v));
    assert(num * num <= u64::MAX) by (nonlinear_arith)
        requires
            num <= u32::MAX,
    ;
    let p2: u128 = num as u128 * num as u128;
    let k1: u128 = match p2.checked_mul(x) {
        Some(k) => k,
        None => {
            return Err(EntropyError::TooLarge);
        },
    };
    if w >= 0x1_0000_0000_0000_0000 || w <= -0x1_0000_0000_0000_0000 {
        assert(num * num * (w * w) > u128::MAX) by (nonlinear_arith)
            requires
                w >= 0x1_0000_0000_0000_0000 || w <= -0x1_0000_0000_0000_0000,
                num * num >= 1,
        ;
        return Err(EntropyError::TooLarge);
    }
    let wa: u128 = if w >= 0 {
        w as u128
    } else {
        (-w) as u128
    };
    assert(wa * wa == w * w) by (nonlinear_arith)
        requires
            wa == w || wa == -w,
    ;
    assert(wa * wa < 0x1_0000_0000_0000_0000 * 0x1_0000_0000_0000_0000) by (nonlinear_arith)
        requires
            wa < 0x1_0000_0000_0000_0000,
    ;
    let k2: u128 = match p2.checked_mul(wa * wa) {
        Some(k) => k,
        None => {
            return Err(EntropyError::TooLarge);
        },
    };
    assert(k1 == num * num * square_sum(v)) by (nonlinear_arith)
        requires
            k1 == p2 * x,
            p2 == num * num,
            x == square_sum(v),
    ;
    assert(k2 == num * num * (value_sum(v) * value_sum(v))) by (nonlinear_arith)
        requires
            k2 == p2 * (wa * wa),
            p2 == num * num,
            wa * wa == w * w,
            w == value_sum(v),
    ;
    if n == 0 {
        assert(spread(v) == 0);
        assert(reaches(v, num as int, den as int, 0)) by (nonlinear_arith)
            requires
                spread(v) == 0,
        ;
        return Ok(0);
    }
    assert(den * den <= u64::MAX) by (nonlinear_arith)
        requires
            den <= u32::MAX,
    ;
    let q2: u128 = den as u128 * den as u128;
    assert(q2 * n <= u128::MAX) by (nonlinear_arith)
        requires
            q2 <= u64::MAX,
            n <= u64::MAX,
    ;
    let dn: u128 = q2 * n as u128;
    assert(dn == den * den * n) by (nonlinear_arith)
        requires
            dn == q2 * n,
            q2 == den * den,
    ;
    let mut lo: u128 = 0;
    let mut hi: u128 = 0x1_0000_0000_0000_0000;
    proof {
        lemma_spread_nonneg(v);
        let tt = 0x1_0000_0000_0000_0000int;
        assert(dn >= 1) by (nonlinear_arith)
            requires
                dn == den * den * n,
                den >= 1,
                n >= 1,
        ;
        assert(n * (dn * (tt * tt)) + k2 >= n * k1) by (nonlinear_arith)
            requires
                dn >= 1,
                n >= 1,
                k1 <= u128::MAX,
                k2 >= 0,
                tt == 0x1_0000_0000_0000_0000int,
        ;
        lemma_reaches_form(v, num as int, den as int, tt, dn as int, k1 as int, k2 as int);
    }
    while lo < hi
        invariant
            lo <= hi <= 0x1_0000_0000_0000_0000,
            n == v.len() >= 1,
            dn == den * den * v.len(),
            k1 == num * num * square_sum(v),
            k2 == num * num * (value_sum(v) * value_sum(v)),
            reaches(v, num as int, den as int, hi as int),
            lo == 0 || !reaches(v, num as int, den as int, lo - 1),
        decreases hi - lo,
    {
        let mid: u128 = lo + (hi - lo) / 2;
        let b = reaches_at(n, dn, k1, k2, mid);
        proof {
            lemma_reaches_form(v, num as int, den as int, mid as int, dn as int, k1 as int, k2 as int);
        }
        if b {
            hi = mid;
        } else {
            lo = mid + 1;
        }
    }
    Ok(lo as i128)
}

/// A tolerance is the exact threshold: `|d| < t` holds exactly when
/// `den^2 n^2 d^2 < num^2 (n sum(v^2) - (sum v)^2)`, i.e. `|d| < (num / den) * sigma`.
pub proof fn lemma_tolerance_threshold(v: Seq<i128>, num: int, den: int, t: int, d: int)
    requires
        is_tolerance(v, num, den, t),
    ensures
        (abs_diff(d, 0) < t) == !reaches(v, num, den, d),
{
    let n = v.len() as int;
    let a = den * den * (n * n);
    let ad = abs_diff(d, 0);
    assert(ad * ad == d * d) by (nonlinear_arith)
        requires
            ad == d || ad == -d,
    ;
    assert(a >= 0) by (nonlinear_arith)
        requires
            a == den * den * (n * n),
    ;
    if ad < t {
        assert(a * (ad * ad) <= a * ((t - 1) * (t - 1))) by (nonlinear_arith)
            requires
                0 <= ad <= t - 1,
                a >= 0,
        ;
    } else {
        assert(a * (ad * ad) >= a * (t * t)) by (nonlinear_arith)
            requires
                ad >= t >= 0,
                a >= 0,
        ;
    }
}

/// The tolerance of `v` for the multiplier `num / den` (unique, see `lemma_tolerance_unique`).
pub open spec fn tolerance_of(v: Seq<i128>, num: int, den: int) -> int {
    choose|t: int| is_tolerance(v, num, den, t)
}

/// At most one integer meets `is_tolerance`.
pub proof fn lemma_tolerance_unique(v: Seq<i128>, num: int, den: int, t1: int, t2: int)
    requires
        is_tolerance(v, num, den, t1),
        is_tolerance(v, num, den, t2),
    ensures
        t1 == t2,
{
    let n = v.len() as int;
    let a = den * den * (n * n);
    assert(a >= 0) by (nonlinear_arith)
        requires
            a == den * den * (n * n),
    ;
    if t1 < t2 {
        assert(a * ((t2 - 1) * (t2 - 1)) >= a * (t1 * t1)) by (nonlinear_arith)
            requires
                0 <= t1 <= t2 - 1,
                a >= 0,
        ;
    } else if t2 < t1 {
        assert(a * ((t1 - 1) * (t1 - 1)) >= a * (t2 * t2)) by (nonlinear_arith)
            requires
                0 <= t2 <= t1 - 1,
                a >= 0,
        ;
    }
}

/// A computed tolerance is the tolerance.
pub proof fn lemma_tolerance_is_tolerance_of(v: Seq<i128>, num: int, den: int, t: int)
    requires
        is_tolerance(v, num, den, t),
    ensures
        tolerance_of(v, num, den) == t,
{
    let c = tolerance_of(v, num, den);
    assert(is_tolerance(v, num, den, c));
    lemma_tolerance_unique(v, num, den, c, t);
}

proof fn lemma_shifted_sums(v: Seq<i128>, v2: Seq<i128>, d: int, k: int)
    requires
        0 <= k <= v.len() == v2.len(),
        forall|i: int| 0 <= i < v.len() ==> #[trigger] v2[i] == v[i] + d,
    ensures
        sum_fn(value_fn(v2), k) == sum_fn(value_fn(v), k) + k * d,
        sum_fn(square_fn(v2), k) == sum_fn(square_fn(v), k) + 2 * d * sum_fn(value_fn(v), k) + k * (d
            * d),
    decreases k,
{
    if k > 0 {
        let j = k - 1;
        lemma_shifted_sums(v, v2, d, j);
        let e = v[j] as int;
        let w = sum_fn(value_fn(v), j);
        let x = sum_fn(square_fn(v), j);
        assert(v2[j] == e + d);
        assert(sum_fn(value_fn(v2), j) + (e + d) == w + e + k * d) by (nonlinear_arith)
            requires
                sum_fn(value_fn(v2), j) == w + j * d,
                k == j + 1,
        ;
        assert(sum_fn(square_fn(v2), j) + (e + d) * (e + d) == x + e * e + 2 * d * (w + e) + k * (d * d))
            by (nonlinear_arith)
            requires
                sum_fn(square_fn(v2), j) == x + 2 * d * w + j * (d * d),
                k == j + 1,
        ;
    } else {
        assert(k * d == 0 && k * (d * d) == 0 && 2 * d * 0 == 0) by (nonlinear_arith)
            requires
                k == 0,
        ;
    }
}

/// Shifting every sample by the same amount leaves the variance, and so the
/// tolerance, unchanged.
pub proof fn lemma_spread_shift(v: Seq<i128>, v2: Seq<i128>, d: int, num: int, den: int)
    requires
        v2.len() == v.len(),
        forall|i: int| 0 <= i < v.len() ==> #[trigger] v2[i] == v[i] + d,
    ensures
        spread(v2) == spread(v),
        forall|t: int| is_tolerance(v2, num, den, t) == is_tolerance(v, num, den, t),
{
    let n = v.len() as int;
    lemma_shifted_sums(v, v2, d, n);
    let w = value_sum(v);
    let x = square_sum(v);
    assert(n * (x + 2 * d * w + n * (d * d)) - (w + n * d) * (w + n * d) == n * x - w * w)
        by (nonlinear_arith);
}

proof fn lemma_scaled_sums(v: Seq<i128>, v2: Seq<i128>, c: int, k: int)
    requires
        0 <= k <= v.len() == v2.len(),
        forall|i: int| 0 <= i < v.len() ==> #[trigger] v2[i] == c * v[i],
    ensures
        sum_fn(value_fn(v2), k) == c * sum_fn(value_fn(v), k),
        sum_fn(square_fn(v2), k) == c * c * sum_fn(square_fn(v), k),
    decreases k,
{
    if k > 0 {
        let j = k - 1;
        lemma_scaled_sums(v, v2, c, j);
        let e = v[j] as int;
        assert(v2[j] == c * e);
        assert(c * sum_fn(value_fn(v), j) + c * e == c * (sum_fn(value_fn(v), j) + e)) by (nonlinear_arith);
        assert(c * c * sum_fn(square_fn(v), j) + (c * e) * (c * e) == c * c * (sum_fn(square_fn(v), j) + e
            * e)) by (nonlinear_arith);
    } else {
        assert(c * 0 == 0 && c * c * 0 == 0) by (nonlinear_arith);
    }
}

/// Scaling every sample by `c` scales the variance by `c^2`, i.e. the
/// standard deviation by `|c|`.
pub proof fn lemma_spread_scale(v: Seq<i128>, v2: Seq<i128>, c: int)
    requires
        v2.len() == v.len(),
        forall|i: int| 0 <= i < v.len() ==> #[trigger] v2[i] == c * v[i],
    ensures
        spread(v2) == c * c * spread(v),
{
    let n = v.len() as int;
    lemma_scaled_sums(v, v2, c, n);
    let w = value_sum(v);
    let x = square_sum(v);
    assert(n * (c * c * x) - (c * w) * (c * w) == c * c * (n * x - w * w)) by (nonlinear_arith);
}

} // verus!
