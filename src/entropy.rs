use vstd::prelude::*;
use crate::detrend::{
    detrend_data, lemma_detrend_linear_is_zero, residual_scaled, sum_fn, MAX_LEN,
};
use crate::error::EntropyError;
use crate::matching::{
    get_matches, lemma_constant_match_count, lemma_periodic_match_count, lemma_match_count_monotone, lemma_no_match_below_zero, lemma_unordered_bound, lemma_templates_count, match_count,
    window_match,
};
use crate::templates::construct_templates;
use crate::tolerance::{
    is_tolerance, lemma_tolerance_is_tolerance_of, reaches, square_fn, tolerance, tolerance_of,
    tolerance_overflows, value_fn,
};

verus! {

/// The match counts behind one sample-entropy estimate.
///
/// The estimate is `-ln(matches_m_plus_one / matches_m)`; both counts are
/// positive whenever a `SampleEntropy` is produced.
#[derive(Debug, Clone, Copy, PartialEq, Eq, Structural)]
pub struct SampleEntropy {
    /// The tolerance the templates were matched with, in the units of the
    /// matched waveform (for a detrended channel, over its scale).
    pub tolerance: i128,
    /// Ordered pairs of distinct templates of length `m` that match.
    pub matches_m: u64,
    /// Ordered pairs of distinct templates of length `m + 1` that match.
    pub matches_m_plus_one: u64,
}

/// What the estimator yields for waveform `s`, embedding `m` and tolerance `r`.
pub open spec fn entropy_outcome(s: Seq<i128>, m: int, r: i128) -> Result<SampleEntropy, EntropyError> {
    if s.len() < m + 2 {
        Err(EntropyError::InsufficientData)
    } else if match_count(s, m, r as int) == 0 || match_count(s, m + 1, r as int) == 0 {
        Err(EntropyError::DegenerateMatch)
    } else {
        Ok(
            SampleEntropy {
                tolerance: r,
                matches_m: match_count(s, m, r as int) as u64,
                matches_m_plus_one: match_count(s, m + 1, r as int) as u64,
            },
        )
    }
}

proof fn lemma_match_count_fits(s: Seq<i128>, k: int, r: int)
    requires
        1 <= k <= s.len() <= u32::MAX,
    ensures
        match_count(s, k, r) <= u64::MAX,
{
    let t = s.len() - k + 1;
    lemma_unordered_bound(window_match(s, k, r), t);
    assert(t * (t - 1) <= u32::MAX * u32::MAX) by (nonlinear_arith)
        requires
            1 <= t <= u32::MAX,
    ;
}

/// Sample entropy of `data` at embedding `m` with the given tolerance.
///
/// Templates of length `m` and `m + 1` are built from the same waveform and
/// matched with the same tolerance.
pub fn sample_entropy(m: usize, r: i128, data: &Vec<i128>) -> (res: Result<SampleEntropy, EntropyError>)
    requires
        m >= 1,
        data@.len() <= u32::MAX,
    ensures
        res == entropy_outcome(data@, m as int, r),
        res is Ok ==> res->Ok_0.matches_m_plus_one <= res->Ok_0.matches_m,
{
    if data.len() < 2 || data.len() - 2 < m {
        return Err(EntropyError::InsufficientData);
    }
    let templates_m = construct_templates(m, data);
    let templates_m1 = construct_templates(m + 1, data);
    let (tm, tm1) = match (templates_m, templates_m1) {
        (Ok(a), Ok(b)) => (a, b),
        _ => {
            return Err(EntropyError::InsufficientData);
        },
    };
    proof {
        lemma_templates_count(tm@, data@, m as int, r as int);
        lemma_templates_count(tm1@, data@, m + 1, r as int);
        lemma_match_count_fits(data@, m as int, r as int);
        lemma_match_count_fits(data@, m + 1, r as int);
        lemma_match_count_monotone(data@, m as int, r as int);
    }
    let a: u64 = get_matches(&tm, r);
    let b: u64 = get_matches(&tm1, r);
    if a == 0 || b == 0 {
        return Err(EntropyError::DegenerateMatch);
    }
    Ok(SampleEntropy { tolerance: r, matches_m: a, matches_m_plus_one: b })
}

/// Run-wide settings of the estimator.
#[derive(Debug, Clone, Copy, PartialEq, Eq, Structural)]
pub struct Config {
    /// Embedding dimension `m`; templates of length `m` and `m + 1` are compared.
    pub embedding: usize,
    /// Numerator of the tolerance multiplier applied to the standard deviation.
    pub tolerance_num: u32,
    /// Denominator of the tolerance multiplier.
    pub tolerance_den: u32,
}

impl Config {
    /// A positive embedding dimension and a well-formed multiplier.
    pub open spec fn is_valid(self) -> bool {
        self.embedding >= 1 && self.tolerance_den >= 1
    }

    /// The conventional settings: `m = 2` and a tolerance of `0.2` standard deviations.
    pub fn standard() -> (c: Config)
        ensures
            c.embedding == 2,
            c.tolerance_num == 1,
            c.tolerance_den == 5,
            c.is_valid(),
    {
        Config { embedding: 2, tolerance_num: 1, tolerance_den: 5 }
    }

    /// Settings with embedding `m` and multiplier `num / den`, if they are valid.
    pub fn new(embedding: usize, tolerance_num: u32, tolerance_den: u32) -> (r: Option<Config>)
        ensures
            r is Some <==> (embedding >= 1 && tolerance_den >= 1),
            r is Some ==> r->Some_0 == (Config { embedding, tolerance_num, tolerance_den }),
    {
        if embedding >= 1 && tolerance_den >= 1 {
            Some(Config { embedding, tolerance_num, tolerance_den })
        } else {
            None
        }
    }
}

/// The detrended samples of `y`, over the denominator `fit_scale(n)`.
pub open spec fn detrended_values(y: Seq<i32>) -> Seq<i128> {
    Seq::new(y.len(), |i: int| residual_scaled(y, i) as i128)
}

/// What the per-channel pipeline yields for waveform `y`: detrend, derive the
/// tolerance from the detrended samples, then estimate.
pub open spec fn wave_outcome(cfg: Config, y: Seq<i32>) -> Result<SampleEntropy, EntropyError> {
    let m = cfg.embedding as int;
    let v = detrended_values(y);
    if y.len() < m + 2 {
        Err(EntropyError::InsufficientData)
    } else if y.len() > MAX_LEN || (cfg.tolerance_num >= 1 && tolerance_overflows(
        v,
        cfg.tolerance_num as int,
    )) {
        Err(EntropyError::TooLarge)
    } else {
        entropy_outcome(
            v,
            m,
            tolerance_of(v, cfg.tolerance_num as int, cfg.tolerance_den as int) as i128,
        )
    }
}

/// Sample entropy of one channel: detrend, take the tolerance from the
/// detrended samples, and estimate at the configured embedding.
pub fn compute_sampen_for_wave(cfg: &Config, data: &Vec<i32>) -> (res: Result<SampleEntropy, EntropyError>)
    requires
        cfg.is_valid(),
    ensures
        res == wave_outcome(*cfg, data@),
{
    let m: usize = cfg.embedding;
    if data.len() < 2 || data.len() - 2 < m {
        return Err(EntropyError::InsufficientData);
    }
    let detrended = match detrend_data(data) {
        Ok(d) => d,
        Err(e) => {
            return Err(e);
        },
    };
    assert(detrended.values@ =~= detrended_values(data@));
    let r = match tolerance(&detrended.values, cfg.tolerance_num, cfg.tolerance_den) {
        Ok(r) => r,
        Err(e) => {
            return Err(e);
        },
    };
    proof {
        lemma_tolerance_is_tolerance_of(
            detrended.values@,
            cfg.tolerance_num as int,
            cfg.tolerance_den as int,
            r as int,
        );
    }
    sample_entropy(m, r, &detrended.values)
}

/// One subject's three blood-pressure channels; sample `x` stands for the
/// value `x * 10^scale`.
#[derive(Debug)]
pub struct VitalFile {
    pub name: String,
    pub scale: i128,
    pub sbp: Vec<i32>,
    pub mbp: Vec<i32>,
    pub dbp: Vec<i32>,
}

/// One subject's sample entropies, one per channel.
#[derive(Debug)]
pub struct VitalEntropies {
    pub name: String,
    pub sbp_sampen: SampleEntropy,
    pub mbp_sampen: SampleEntropy,
    pub dbp_sampen: SampleEntropy,
}

/// Runs the per-channel pipeline on each channel independently; the record
/// is produced only if all three channels succeed.
pub fn compute_sampen_for_vital_file(cfg: &Config, vitalf: &VitalFile) -> (r: Result<VitalEntropies, EntropyError>)
    requires
        cfg.is_valid(),
    ensures
        r is Ok <==> (wave_outcome(*cfg, vitalf.sbp@) is Ok && wave_outcome(*cfg, vitalf.mbp@) is Ok
            && wave_outcome(*cfg, vitalf.dbp@) is Ok),
        r is Ok ==> r->Ok_0.name@ == vitalf.name@ && Ok::<SampleEntropy, EntropyError>(
            r->Ok_0.sbp_sampen,
        ) == wave_outcome(*cfg, vitalf.sbp@) && Ok::<SampleEntropy, EntropyError>(r->Ok_0.mbp_sampen)
            == wave_outcome(*cfg, vitalf.mbp@) && Ok::<SampleEntropy, EntropyError>(r->Ok_0.dbp_sampen)
            == wave_outcome(*cfg, vitalf.dbp@),
        r is Err ==> Err::<SampleEntropy, EntropyError>(r->Err_0) == (if wave_outcome(*cfg, vitalf.sbp@) is Err {
            wave_outcome(*cfg, vitalf.sbp@)
        } else if wave_outcome(*cfg, vitalf.mbp@) is Err {
            wave_outcome(*cfg, vitalf.mbp@)
        } else {
            wave_outcome(*cfg, vitalf.dbp@)
        }),
{
    let sbp_sampen = match compute_sampen_for_wave(cfg, &vitalf.sbp) {
        Ok(e) => e,
        Err(e) => {
            return Err(e);
        },
    };
    let mbp_sampen = match compute_sampen_for_wave(cfg, &vitalf.mbp) {
        Ok(e) => e,
        Err(e) => {
            return Err(e);
        },
    };
    let dbp_sampen = match compute_sampen_for_wave(cfg, &vitalf.dbp) {
        Ok(e) => e,
        Err(e) => {
            return Err(e);
        },
    };
    Ok(VitalEntropies { name: vitalf.name.clone(), sbp_sampen, mbp_sampen, dbp_sampen })
}

proof fn lemma_zero_sums(v: Seq<i128>, k: int)
    requires
        0 <= k <= v.len(),
        forall|i: int| 0 <= i < v.len() ==> #[trigger] v[i] == 0,
    ensures
        sum_fn(square_fn(v), k) == 0,
        sum_fn(value_fn(v), k) == 0,
    decreases k,
{
    if k > 0 {
        lemma_zero_sums(v, k - 1);
        assert(v[k - 1] == 0);
    }
}

/// A channel that lies on a line (a constant one included) carries no
/// pattern once detrended: all samples become zero, the tolerance is zero,
/// no templates match, and the estimate is refused as degenerate.
pub proof fn lemma_linear_waveform_is_degenerate(cfg: Config, y: Seq<i32>, a: int, b: int)
    requires
        cfg.is_valid(),
        cfg.embedding + 2 <= y.len() <= MAX_LEN,
        forall|i: int| 0 <= i < y.len() ==> #[trigger] y[i] == a + b * (i + 1),
    ensures
        wave_outcome(cfg, y) == Err::<SampleEntropy, EntropyError>(EntropyError::DegenerateMatch),
{
    let v = detrended_values(y);
    let m = cfg.embedding as int;
    let p = cfg.tolerance_num as int;
    let q = cfg.tolerance_den as int;
    lemma_detrend_linear_is_zero(y, a, b);
    assert forall|i: int| 0 <= i < v.len() implies #[trigger] v[i] == 0 by {
        assert(residual_scaled(y, i) == 0);
    }
    lemma_zero_sums(v, v.len() as int);
    assert(!tolerance_overflows(v, p)) by (nonlinear_arith)
        requires
            sum_fn(square_fn(v), v.len() as int) == 0,
            sum_fn(value_fn(v), v.len() as int) == 0,
    ;
    assert(reaches(v, p, q, 0)) by (nonlinear_arith)
        requires
            sum_fn(square_fn(v), v.len() as int) == 0,
            sum_fn(value_fn(v), v.len() as int) == 0,
    ;
    assert(is_tolerance(v, p, q, 0));
    lemma_tolerance_is_tolerance_of(v, p, q, 0);
    lemma_no_match_below_zero(v, m, 0);
}

/// A constant waveform matched with a positive tolerance gives a defined,
/// small estimate: `A = (N - m + 1)(N - m)` and `B = (N - m)(N - m - 1)`, so
/// `-ln(B / A) = ln((N - m + 1) / (N - m - 1))`, which tends to 0 as `N` grows.
pub proof fn lemma_constant_waveform_counts(s: Seq<i128>, m: int, r: i128)
    requires
        m >= 1,
        m + 2 <= s.len() <= u32::MAX,
        r > 0,
        forall|i: int, j: int| 0 <= i < s.len() && 0 <= j < s.len() ==> #[trigger] s[i] == #[trigger] s[j],
    ensures
        entropy_outcome(s, m, r) == Ok::<SampleEntropy, EntropyError>(
            SampleEntropy {
                tolerance: r,
                matches_m: ((s.len() - m + 1) * (s.len() - m)) as u64,
                matches_m_plus_one: ((s.len() - m) * (s.len() - m - 1)) as u64,
            },
        ),
{
    let n = s.len() as int;
    lemma_constant_match_count(s, m, r as int);
    lemma_constant_match_count(s, m + 1, r as int);
    assert((n - m + 1) * (n - m) > 0 && (n - m) * (n - m - 1) > 0) by (nonlinear_arith)
        requires
            m + 2 <= n,
    ;
    assert(n - (m + 1) + 1 == n - m);
}

/// A waveform that repeats with period `p`, matched with a positive
/// tolerance, always gives a defined estimate: both counts are positive, and
/// `B <= A`, so `-ln(B / A)` is finite and not negative.
pub proof fn lemma_periodic_waveform_estimates(s: Seq<i128>, m: int, r: i128, p: int)
    requires
        m >= 1,
        p >= 1,
        m + 1 + p <= s.len() <= u32::MAX,
        r > 0,
        forall|i: int| 0 <= i < s.len() - p ==> #[trigger] s[i + p] == s[i],
    ensures
        entropy_outcome(s, m, r) is Ok,
        entropy_outcome(s, m, r)->Ok_0.matches_m_plus_one <= entropy_outcome(s, m, r)->Ok_0.matches_m,
        entropy_outcome(s, m, r)->Ok_0.matches_m_plus_one >= 2,
{
    lemma_periodic_match_count(s, m + 1, r as int, p);
    lemma_match_count_monotone(s, m, r as int);
    lemma_match_count_fits(s, m, r as int);
    lemma_match_count_fits(s, m + 1, r as int);
}

} // verus!
