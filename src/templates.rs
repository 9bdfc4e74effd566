use vstd::prelude::*;
use crate::error::EntropyError;

verus! {

/// The template of length `k` that starts at offset `i`.
pub open spec fn window(s: Seq<i128>, k: int, i: int) -> Seq<i128> {
    s.subrange(i, i + k)
}

/// `ts` holds, in order, every template of length `k` of `s`.
pub open spec fn are_templates(ts: Seq<Vec<i128>>, s: Seq<i128>, k: int) -> bool {
    &&& ts.len() == s.len() - k + 1
    &&& forall|i: int| 0 <= i < ts.len() ==> (#[trigger] ts[i])@ == window(s, k, i)
}

/// Builds the sliding windows of length `window_size` over `ts_data`.
pub fn construct_templates(window_size: usize, ts_data: &Vec<i128>) -> (r: Result<
    Vec<Vec<i128>>,
    EntropyError,
>)
    requires
        window_size >= 1,
    ensures
        window_size > ts_data@.len() <==> r == Err::<Vec<Vec<i128>>, EntropyError>(
            EntropyError::InsufficientData,
        ),
        window_size <= ts_data@.len() <==> r is Ok,
        r is Ok ==> are_templates(r->Ok_0@, ts_data@, window_size as int),
{
    if window_size > ts_data.len() {
        return Err(EntropyError::InsufficientData);
    }
    let num_windows: usize = ts_data.len() - window_size + 1;
    let mut templates: Vec<Vec<i128>> = Vec::new();
    let mut start: usize = 0;
    while start < num_windows
        invariant
            num_windows == ts_data@.len() - window_size + 1,
            window_size <= ts_data@.len() <= usize::MAX,
            start <= num_windows,
            templates@.len() == start,
            forall|i: int| 0 <= i < start ==> (#[trigger] templates@[i])@ == window(
                ts_data@,
                window_size as int,
                i,
            ),
        decreases num_windows - start,
    {
        let mut t: Vec<i128> = Vec::new();
        let mut j: usize = 0;
        while j < window_size
            invariant
                start < num_windows,
                window_size <= ts_data@.len() <= usize::MAX,
                num_windows == ts_data@.len() - window_size + 1,
                j <= window_size,
                t@ == ts_data@.subrange(start as int, start + j),
            decreases window_size - j,
        {
            let at: usize = start + j;
            t.push(ts_data[at]);
            j = j + 1;
            assert(t@ =~= ts_data@.subrange(start as int, start + j));
        }
        templates.push(t);
        start = start + 1;
    }
    Ok(templates)
}

} // verus!
