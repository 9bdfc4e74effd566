use vstd::prelude::*;
use crate::detrend::sum_fn;
use crate::templates::{are_templates, window};

verus! {

/// Absolute difference of two samples.
pub open spec fn abs_diff(a: int, b: int) -> int {
    if a >= b {
        a - b
    } else {
        b - a
    }
}

/// The Chebyshev distance between `a` and `b` is strictly below `r`.
pub open spec fn within(a: Seq<i128>, b: Seq<i128>, r: int) -> bool {
    forall|t: int| 0 <= t < a.len() ==> abs_diff(#[trigger] a[t] as int, b[t] as int) < r
}

/// The match relation on a list of templates, by index.
pub open spec fn template_match(ts: Seq<Vec<i128>>, r: int) -> spec_fn(int, int) -> bool {
    |i: int, j: int| within(ts[i]@, ts[j]@, r)
}

/// Number of `i < hi` for which `f(i, j)` holds.
pub open spec fn count_row(f: spec_fn(int, int) -> bool, j: int, hi: int) -> nat
    decreases hi,
{
    if hi <= 0 {
        0
    } else {
        count_row(f, j, hi - 1) + if f(hi - 1, j) {
            1nat
        } else {
            0nat
        }
    }
}

/// Number of unordered pairs `i < j < n` for which `f(i, j)` holds.
pub open spec fn unordered_count(f: spec_fn(int, int) -> bool, n: int) -> nat
    decreases n,
{
    if n <= 0 {
        0
    } else {
        unordered_count(f, n - 1) + count_row(f, n - 1, n - 1)
    }
}

/// Number of `i < hi`, `i != j`, for which `f(i, j)` holds.
pub open spec fn count_others(f: spec_fn(int, int) -> bool, j: int, hi: int) -> nat
    decreases hi,
{
    if hi <= 0 {
        0
    } else {
        count_others(f, j, hi - 1) + if hi - 1 != j && f(hi - 1, j) {
            1nat
        } else {
            0nat
        }
    }
}

/// Sum over `j < k` of the matches of `j` among the first `n` items.
pub open spec fn ordered_sum(f: spec_fn(int, int) -> bool, k: int, n: int) -> nat
    decreases k,
{
    if k <= 0 {
        0
    } else {
        ordered_sum(f, k - 1, n) + count_others(f, k - 1, n)
    }
}

/// Number of ordered pairs `(i, j)`, `i != j`, both below `n`, for which `f(i, j)` holds.
pub open spec fn ordered_count(f: spec_fn(int, int) -> bool, n: int) -> nat {
    ordered_sum(f, n, n)
}

/// Whether `|a - b| < r`, computed without overflow.
fn close(a: i128, b: i128, r: i128) -> (res: bool)
    ensures
        res == (abs_diff(a as int, b as int) < r),
{
    if r <= 0 {
        false
    } else if a >= b {
        if b > i128::MAX - r {
            true
        } else {
            a < b + r
        }
    } else {
        if a > i128::MAX - r {
            true
        } else {
            b < a + r
        }
    }
}

/// Whether two templates of the same length lie within Chebyshev distance `r`.
///
/// Stops at the first coordinate whose difference reaches `r`.
pub fn is_match(vec_1: &Vec<i128>, vec_2: &Vec<i128>, r: i128) -> (res: bool)
    requires
        vec_1@.len() == vec_2@.len(),
    ensures
        res == within(vec_1@, vec_2@, r as int),
{
    let mut t: usize = 0;
    while t < vec_1.len()
        invariant
            vec_1@.len() == vec_2@.len(),
            t <= vec_1@.len(),
            forall|u: int| 0 <= u < t ==> abs_diff(#[trigger] vec_1@[u] as int, vec_2@[u] as int) < r,
        decreases vec_1@.len() - t,
    {
        if !close(vec_1[t], vec_2[t], r) {
            return false;
        }
        t = t + 1;
    }
    true
}

proof fn lemma_count_row_bound(f: spec_fn(int, int) -> bool, j: int, hi: int)
    requires
        hi >= 0,
    ensures
        count_row(f, j, hi) <= hi,
    decreases hi,
{
    if hi > 0 {
        lemma_count_row_bound(f, j, hi - 1);
    }
}

pub proof fn lemma_unordered_bound(f: spec_fn(int, int) -> bool, n: int)
    requires
        n >= 0,
    ensures
        2 * unordered_count(f, n) <= n * (n - 1),
    decreases n,
{
    if n > 0 {
        lemma_unordered_bound(f, n - 1);
        lemma_count_row_bound(f, n - 1, n - 1);
        let u = unordered_count(f, n - 1);
        let c = count_row(f, n - 1, n - 1);
        assert(unordered_count(f, n) == u + c);
        assert(2 * (u + c) <= n * (n - 1)) by (nonlinear_arith)
            requires
                2 * u <= (n - 1) * (n - 1 - 1),
                c <= n - 1,
        ;
    } else {
        assert(n * (n - 1) == 0) by (nonlinear_arith)
            requires
                n == 0,
        ;
    }
}

/// Counts the ordered pairs of distinct templates that match within `r`.
///
/// Each unordered pair is examined once and counted twice.
pub fn get_matches(templates: &Vec<Vec<i128>>, r: i128) -> (count: u64)
    requires
        templates@.len() <= u32::MAX,
        forall|i: int, j: int|
            0 <= i < templates@.len() && 0 <= j < templates@.len() ==> (#[trigger] templates@[i])@.len()
                == (#[trigger] templates@[j])@.len(),
    ensures
        count == 2 * unordered_count(template_match(templates@, r as int), templates@.len() as int),
        count == ordered_count(template_match(templates@, r as int), templates@.len() as int),
{
    proof {
        lemma_match_count_is_ordered_pairs(templates@, r as int);
    }
    let ghost f = template_match(templates@, r as int);
    let n: usize = templates.len();
    let mut matches: u64 = 0;
    let mut j: usize = 0;
    while j < n
        invariant
            n == templates@.len() <= u32::MAX,
            j <= n,
            f == template_match(templates@, r as int),
            forall|a: int, b: int|
                0 <= a < templates@.len() && 0 <= b < templates@.len() ==> (#[trigger] templates@[a])@.len()
                    == (#[trigger] templates@[b])@.len(),
            matches == unordered_count(f, j as int),
            2 * unordered_count(f, j as int) <= j * (j - 1),
        decreases n - j,
    {
        let mut i: usize = 0;
        while i < j
            invariant
                n == templates@.len() <= u32::MAX,
                i <= j < n,
                f == template_match(templates@, r as int),
                forall|a: int, b: int|
                    0 <= a < templates@.len() && 0 <= b < templates@.len() ==> (#[trigger] templates@[a])@.len()
                        == (#[trigger] templates@[b])@.len(),
                matches == unordered_count(f, j as int) + count_row(f, j as int, i as int),
                2 * unordered_count(f, j as int) <= j * (j - 1),
                count_row(f, j as int, i as int) <= i,
            decreases j - i,
        {
            assert(j * (j - 1) < u32::MAX * u32::MAX) by (nonlinear_arith)
                requires
                    j < u32::MAX,
            ;
            if is_match(&templates[i], &templates[j], r) {
                matches = matches + 1;
            }
            i = i + 1;
        }
        proof {
            lemma_unordered_bound(f, j + 1);
        }
        j = j + 1;
    }
    assert(n * (n - 1) <= u32::MAX * u32::MAX) by (nonlinear_arith)
        requires
            n <= u32::MAX,
    ;
    matches * 2
}

/// The match relation on the windows of length `k` of `s`, by start offset.
pub open spec fn window_match(s: Seq<i128>, k: int, r: int) -> spec_fn(int, int) -> bool {
    |i: int, j: int| within(window(s, k, i), window(s, k, j), r)
}

/// The matcher's count on the windows of length `k` of `s`: twice the
/// number of unordered matching pairs.
pub open spec fn match_count(s: Seq<i128>, k: int, r: int) -> nat {
    2 * unordered_count(window_match(s, k, r), s.len() - k + 1)
}

proof fn lemma_row_mono(f: spec_fn(int, int) -> bool, g: spec_fn(int, int) -> bool, j: int, hi: int)
    requires
        forall|i: int| 0 <= i < hi ==> #[trigger] f(i, j) ==> g(i, j),
    ensures
        count_row(f, j, hi) <= count_row(g, j, hi),
    decreases hi,
{
    if hi > 0 {
        lemma_row_mono(f, g, j, hi - 1);
    }
}

proof fn lemma_unordered_mono(f: spec_fn(int, int) -> bool, g: spec_fn(int, int) -> bool, n: int)
    requires
        forall|i: int, j: int| 0 <= i < j < n ==> #[trigger] f(i, j) ==> g(i, j),
    ensures
        unordered_count(f, n) <= unordered_count(g, n),
    decreases n,
{
    if n > 0 {
        lemma_unordered_mono(f, g, n - 1);
        lemma_row_mono(f, g, n - 1, n - 1);
    }
}

/// Two relations that agree on all pairs below `n` count the same pairs.
proof fn lemma_unordered_congruent(f: spec_fn(int, int) -> bool, g: spec_fn(int, int) -> bool, n: int)
    requires
        forall|i: int, j: int| 0 <= i < j < n ==> #[trigger] f(i, j) == g(i, j),
    ensures
        unordered_count(f, n) == unordered_count(g, n),
{
    lemma_unordered_mono(f, g, n);
    lemma_unordered_mono(g, f, n);
}

/// Counting over materialised templates is counting over the windows they hold.
pub proof fn lemma_templates_count(ts: Seq<Vec<i128>>, s: Seq<i128>, k: int, r: int)
    requires
        are_templates(ts, s, k),
    ensures
        2 * unordered_count(template_match(ts, r), ts.len() as int) == match_count(s, k, r),
{
    let f = template_match(ts, r);
    let g = window_match(s, k, r);
    assert forall|i: int, j: int| 0 <= i < j < ts.len() implies #[trigger] f(i, j) == g(i, j) by {
        assert(ts[i]@ == window(s, k, i));
        assert(ts[j]@ == window(s, k, j));
    }
    lemma_unordered_congruent(f, g, ts.len() as int);
}

proof fn lemma_others_below(f: spec_fn(int, int) -> bool, j: int, hi: int)
    requires
        hi <= j,
    ensures
        count_others(f, j, hi) == count_row(f, j, hi),
    decreases hi,
{
    if hi > 0 {
        lemma_others_below(f, j, hi - 1);
    }
}

proof fn lemma_ordered_sum_step(f: spec_fn(int, int) -> bool, k: int, n: int)
    requires
        0 <= k <= n,
        forall|i: int, j: int| 0 <= i <= n && 0 <= j <= n ==> #[trigger] f(i, j) == f(j, i),
    ensures
        ordered_sum(f, k, n + 1) == ordered_sum(f, k, n) + count_row(f, n, k),
    decreases k,
{
    if k > 0 {
        lemma_ordered_sum_step(f, k - 1, n);
        assert(f(n, k - 1) == f(k - 1, n));
    }
}

/// For a symmetric relation, ordered pairs are twice the unordered ones.
pub proof fn lemma_ordered_is_twice_unordered(f: spec_fn(int, int) -> bool, n: int)
    requires
        n >= 0,
        forall|i: int, j: int| 0 <= i < n && 0 <= j < n ==> #[trigger] f(i, j) == f(j, i),
    ensures
        ordered_count(f, n) == 2 * unordered_count(f, n),
    decreases n,
{
    if n > 0 {
        let m = n - 1;
        lemma_ordered_is_twice_unordered(f, m);
        lemma_ordered_sum_step(f, m, m);
        lemma_others_below(f, m, m);
        assert(ordered_count(f, n) == ordered_sum(f, m, n) + count_others(f, m, n));
    }
}

/// The matcher's count is even: it is the number of ordered pairs of
/// distinct matching templates, which is twice the number of unordered ones.
pub proof fn lemma_match_count_is_ordered_pairs(ts: Seq<Vec<i128>>, r: int)
    requires
        forall|i: int, j: int|
            0 <= i < ts.len() && 0 <= j < ts.len() ==> (#[trigger] ts[i])@.len() == (#[trigger] ts[j])@.len(),
    ensures
        ordered_count(template_match(ts, r), ts.len() as int) == 2 * unordered_count(
            template_match(ts, r),
            ts.len() as int,
        ),
        (2 * unordered_count(template_match(ts, r), ts.len() as int)) % 2 == 0,
{
    let f = template_match(ts, r);
    assert forall|i: int, j: int| 0 <= i < ts.len() && 0 <= j < ts.len() implies #[trigger] f(i, j) == f(j, i) by {
        let a = ts[i]@;
        let b = ts[j]@;
        assert(a.len() == b.len());
        if within(a, b, r) {
            assert forall|t: int| 0 <= t < b.len() implies abs_diff(#[trigger] b[t] as int, a[t] as int) < r by {
                assert(abs_diff(a[t] as int, b[t] as int) < r);
            }
        }
        if within(b, a, r) {
            assert forall|t: int| 0 <= t < a.len() implies abs_diff(#[trigger] a[t] as int, b[t] as int) < r by {
                assert(abs_diff(b[t] as int, a[t] as int) < r);
            }
        }
    }
    lemma_ordered_is_twice_unordered(f, ts.len() as int);
}

/// Lengthening the templates by one never adds matches: a matching pair of
/// windows of length `m + 1` has matching prefixes of length `m`.
pub proof fn lemma_match_count_monotone(s: Seq<i128>, m: int, r: int)
    requires
        1 <= m,
        m + 1 <= s.len(),
    ensures
        match_count(s, m + 1, r) <= match_count(s, m, r),
{
    let n = s.len() - m;
    let f = window_match(s, m + 1, r);
    let g = window_match(s, m, r);
    assert forall|i: int, j: int| 0 <= i < j < n && #[trigger] f(i, j) implies g(i, j) by {
        {
            let a = window(s, m, i);
            let b = window(s, m, j);
            assert forall|t: int| 0 <= t < a.len() implies abs_diff(#[trigger] a[t] as int, b[t] as int) < r by {
                assert(window(s, m + 1, i)[t] == a[t]);
                assert(window(s, m + 1, j)[t] == b[t]);
            }
        }
    }
    lemma_unordered_mono(f, g, n);
    assert(unordered_count(g, n + 1) == unordered_count(g, n) + count_row(g, n, n));
}

/// A relation that holds of no pair below `n` counts no pairs.
pub proof fn lemma_unordered_none(f: spec_fn(int, int) -> bool, n: int)
    requires
        forall|i: int, j: int| 0 <= i < j < n ==> !#[trigger] f(i, j),
    ensures
        unordered_count(f, n) == 0,
    decreases n,
{
    if n > 0 {
        lemma_unordered_none(f, n - 1);
        lemma_row_none(f, n - 1, n - 1);
    }
}

proof fn lemma_row_none(f: spec_fn(int, int) -> bool, j: int, hi: int)
    requires
        forall|i: int| 0 <= i < hi ==> !#[trigger] f(i, j),
    ensures
        count_row(f, j, hi) == 0,
    decreases hi,
{
    if hi > 0 {
        lemma_row_none(f, j, hi - 1);
    }
}

/// With a tolerance of zero or less nothing matches: no difference is below it.
pub proof fn lemma_no_match_below_zero(s: Seq<i128>, k: int, r: int)
    requires
        1 <= k <= s.len(),
        r <= 0,
    ensures
        match_count(s, k, r) == 0,
{
    let f = window_match(s, k, r);
    let n = s.len() - k + 1;
    assert forall|i: int, j: int| 0 <= i < j < n implies !#[trigger] f(i, j) by {
        let a = window(s, k, i);
        let b = window(s, k, j);
        assert(abs_diff(a[0] as int, b[0] as int) >= 0);
    }
    lemma_unordered_none(f, n);
}

proof fn lemma_row_all(f: spec_fn(int, int) -> bool, j: int, hi: int)
    requires
        0 <= hi,
        forall|i: int| 0 <= i < hi ==> #[trigger] f(i, j),
    ensures
        count_row(f, j, hi) == hi,
    decreases hi,
{
    if hi > 0 {
        lemma_row_all(f, j, hi - 1);
    }
}

/// A relation that holds of every pair below `n` counts all `n (n - 1) / 2` pairs.
pub proof fn lemma_unordered_all(f: spec_fn(int, int) -> bool, n: int)
    requires
        n >= 0,
        forall|i: int, j: int| 0 <= i < j < n ==> #[trigger] f(i, j),
    ensures
        2 * unordered_count(f, n) == n * (n - 1),
    decreases n,
{
    if n > 0 {
        lemma_unordered_all(f, n - 1);
        lemma_row_all(f, n - 1, n - 1);
        let u = unordered_count(f, n - 1);
        assert(2 * (u + (n - 1)) == n * (n - 1)) by (nonlinear_arith)
            requires
                2 * u == (n - 1) * (n - 1 - 1),
        ;
    } else {
        assert(n * (n - 1) == 0) by (nonlinear_arith)
            requires
                n == 0,
        ;
    }
}

/// On a constant waveform with a positive tolerance every pair of distinct
/// templates matches: the count is `T (T - 1)` for `T = n - k + 1` templates.
pub proof fn lemma_constant_match_count(s: Seq<i128>, k: int, r: int)
    requires
        1 <= k <= s.len(),
        r > 0,
        forall|i: int, j: int| 0 <= i < s.len() && 0 <= j < s.len() ==> #[trigger] s[i] == #[trigger] s[j],
    ensures
        match_count(s, k, r) == (s.len() - k + 1) * (s.len() - k),
{
    let f = window_match(s, k, r);
    let n = s.len() - k + 1;
    assert forall|i: int, j: int| 0 <= i < j < n implies #[trigger] f(i, j) by {
        let a = window(s, k, i);
        let b = window(s, k, j);
        assert forall|t: int| 0 <= t < a.len() implies abs_diff(#[trigger] a[t] as int, b[t] as int) < r by {
            assert(a[t] == s[i + t]);
            assert(b[t] == s[j + t]);
        }
    }
    lemma_unordered_all(f, n);
}

/// `p` is a permutation of `0..n`, with inverse `q`.
pub open spec fn is_permutation(p: spec_fn(int) -> int, q: spec_fn(int) -> int, n: int) -> bool {
    &&& forall|i: int| 0 <= i < n ==> 0 <= #[trigger] p(i) < n && q(p(i)) == i
    &&& forall|i: int| 0 <= i < n ==> 0 <= #[trigger] q(i) < n && p(q(i)) == i
}

proof fn lemma_sum_congruent(f: spec_fn(int) -> int, g: spec_fn(int) -> int, k: int)
    requires
        forall|i: int| 0 <= i < k ==> #[trigger] f(i) == g(i),
    ensures
        sum_fn(f, k) == sum_fn(g, k),
    decreases k,
{
    if k > 0 {
        lemma_sum_congruent(f, g, k - 1);
    }
}

proof fn lemma_sum_one_changed(f: spec_fn(int) -> int, g: spec_fn(int) -> int, k: int, m: int)
    requires
        0 <= k < m,
        forall|i: int| 0 <= i < m && i != k ==> #[trigger] f(i) == g(i),
    ensures
        sum_fn(g, m) == sum_fn(f, m) - f(k) + g(k),
    decreases m,
{
    if m - 1 > k {
        lemma_sum_one_changed(f, g, k, m - 1);
    } else {
        lemma_sum_congruent(f, g, m - 1);
    }
}

/// Reordering the terms of a sum does not change it.
proof fn lemma_sum_permuted(h: spec_fn(int) -> int, p: spec_fn(int) -> int, q: spec_fn(int) -> int, n: int)
    requires
        n >= 0,
        is_permutation(p, q, n),
    ensures
        sum_fn(|j: int| h(p(j)), n) == sum_fn(h, n),
    decreases n,
{
    if n > 0 {
        let m = n - 1;
        let k = q(m);
        assert(p(k) == m);
        let p2 = |j: int| if j == k {
            p(m)
        } else {
            p(j)
        };
        let q2 = |i: int| if i == p(m) {
            k
        } else {
            q(i)
        };
        if k == m {
            assert forall|i: int| 0 <= i < m implies 0 <= #[trigger] p2(i) < m && q2(p2(i)) == i by {
                assert(p(i) != m);
            }
            assert forall|i: int| 0 <= i < m implies 0 <= #[trigger] q2(i) < m && p2(q2(i)) == i by {
                assert(q(i) != m);
            }
            lemma_sum_permuted(h, p2, q2, m);
            lemma_sum_congruent(|j: int| h(p2(j)), |j: int| h(p(j)), m);
        } else {
            assert forall|i: int| 0 <= i < m implies 0 <= #[trigger] p2(i) < m && q2(p2(i)) == i by {
                if i != k {
                    assert(p(i) != m);
                    assert(p(i) != p(m));
                }
            }
            assert forall|i: int| 0 <= i < m implies 0 <= #[trigger] q2(i) < m && p2(q2(i)) == i by {
                if i != p(m) {
                    assert(q(i) != m);
                    assert(q(i) != k);
                }
            }
            lemma_sum_permuted(h, p2, q2, m);
            lemma_sum_one_changed(|j: int| h(p(j)), |j: int| h(p2(j)), k, m);
        }
    }
}

/// The indicator of `i != j && f(i, j)`, by `i`.
spec fn others_fn(f: spec_fn(int, int) -> bool, j: int) -> spec_fn(int) -> int {
    |i: int| if i != j && f(i, j) {
        1int
    } else {
        0int
    }
}

proof fn lemma_others_as_sum(f: spec_fn(int, int) -> bool, j: int, hi: int)
    ensures
        count_others(f, j, hi) == sum_fn(others_fn(f, j), hi),
    decreases hi,
{
    if hi > 0 {
        lemma_others_as_sum(f, j, hi - 1);
    }
}

/// The matches of each item among the first `n`, by item.
spec fn rows_fn(f: spec_fn(int, int) -> bool, n: int) -> spec_fn(int) -> int {
    |j: int| count_others(f, j, n) as int
}

proof fn lemma_ordered_as_sum(f: spec_fn(int, int) -> bool, k: int, n: int)
    ensures
        ordered_sum(f, k, n) == sum_fn(rows_fn(f, n), k),
    decreases k,
{
    if k > 0 {
        lemma_ordered_as_sum(f, k - 1, n);
    }
}

/// Reordering the templates does not change the matcher's count: it is an
/// exact count of pairs, whatever order they are enumerated in.
pub proof fn lemma_match_count_permutation(
    ts: Seq<Vec<i128>>,
    ts2: Seq<Vec<i128>>,
    r: int,
    p: spec_fn(int) -> int,
    q: spec_fn(int) -> int,
)
    requires
        ts2.len() == ts.len(),
        is_permutation(p, q, ts.len() as int),
        forall|i: int| 0 <= i < ts.len() ==> #[trigger] ts2[i] == ts[p(i)],
    ensures
        ordered_count(template_match(ts2, r), ts.len() as int) == ordered_count(
            template_match(ts, r),
            ts.len() as int,
        ),
{
    let n = ts.len() as int;
    let f = template_match(ts, r);
    let g = template_match(ts2, r);
    assert forall|j: int| 0 <= j < n implies #[trigger] rows_fn(g, n)(j) == rows_fn(f, n)(p(j)) by {
        let pj = p(j);
        lemma_others_as_sum(g, j, n);
        lemma_others_as_sum(f, pj, n);
        let h = others_fn(f, pj);
        assert forall|i: int| 0 <= i < n implies #[trigger] others_fn(g, j)(i) == (|x: int| h(p(x)))(i) by {
            assert(ts2[i] == ts[p(i)]);
            assert(ts2[j] == ts[pj]);
            assert((i != j) == (p(i) != pj));
        }
        lemma_sum_congruent(others_fn(g, j), |x: int| h(p(x)), n);
        lemma_sum_permuted(h, p, q, n);
    }
    lemma_ordered_as_sum(g, n, n);
    lemma_ordered_as_sum(f, n, n);
    let rf = rows_fn(f, n);
    lemma_sum_congruent(rows_fn(g, n), |x: int| rf(p(x)), n);
    lemma_sum_permuted(rf, p, q, n);
}

proof fn lemma_row_positive(f: spec_fn(int, int) -> bool, j: int, hi: int, i: int)
    requires
        0 <= i < hi,
        f(i, j),
    ensures
        count_row(f, j, hi) >= 1,
    decreases hi,
{
    if i < hi - 1 {
        lemma_row_positive(f, j, hi - 1, i);
    }
}

/// One matching pair below `n` makes the count positive.
proof fn lemma_unordered_positive(f: spec_fn(int, int) -> bool, n: int, i: int, j: int)
    requires
        0 <= i < j < n,
        f(i, j),
    ensures
        unordered_count(f, n) >= 1,
    decreases n,
{
    if j < n - 1 {
        lemma_unordered_positive(f, n - 1, i, j);
    } else {
        lemma_row_positive(f, j, j, i);
    }
}

/// On a waveform that repeats with period `p`, a positive tolerance always
/// finds matches: the windows at `0` and at `p` are equal.
pub proof fn lemma_periodic_match_count(s: Seq<i128>, k: int, r: int, p: int)
    requires
        1 <= k,
        1 <= p,
        p + k <= s.len(),
        r > 0,
        forall|i: int| 0 <= i < s.len() - p ==> #[trigger] s[i + p] == s[i],
    ensures
        match_count(s, k, r) >= 2,
{
    let f = window_match(s, k, r);
    let a = window(s, k, 0);
    let b = window(s, k, p);
    assert forall|t: int| 0 <= t < a.len() implies abs_diff(#[trigger] a[t] as int, b[t] as int) < r by {
        assert(a[t] == s[t]);
        assert(b[t] == s[t + p]);
    }
    assert(f(0, p));
    lemma_unordered_positive(f, s.len() - k + 1, 0, p);
}

} // verus!
