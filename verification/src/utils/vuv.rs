//! Smoothing of per-frame unvoiced flags.
use vstd::prelude::*;

verus! {

/// Number of set flags among `uv[lo..hi]`.
pub open spec fn count_set(uv: Seq<bool>, lo: int, hi: int) -> nat
    decreases hi - lo,
{
    if hi <= lo {
        0
    } else {
        count_set(uv, lo, hi - 1) + if uv[hi - 1] { 1nat } else { 0nat }
    }
}

/// First frame of the five-frame window centred on frame `i`, cut at the start.
pub open spec fn window_lo(i: int) -> int {
    if i >= 2 { i - 2 } else { 0 }
}

/// Last frame of the window centred on frame `i` among `n` frames, cut at the end.
pub open spec fn window_hi(i: int, n: int) -> int {
    if i + 2 <= n - 1 { i + 2 } else { n - 1 }
}

/// Majority vote over the window of frame `i`: set when at least half of
/// the window, rounded up, is set (ties count as set).
pub open spec fn majority(uv: Seq<bool>, i: int) -> bool {
    let lo = window_lo(i);
    let hi = window_hi(i, uv.len() as int);
    count_set(uv, lo, hi + 1) >= (hi - lo + 2) / 2
}

/// Flags after the majority vote.
pub open spec fn voted(uv: Seq<bool>) -> Seq<bool> {
    Seq::new(uv.len(), |i: int| majority(uv, i))
}

/// Frame `i` of `s` with an isolated frame (one that differs from both
/// neighbours) given its neighbours' value; the ends count as their own neighbour.
pub open spec fn despeckled(s: Seq<bool>, i: int) -> bool {
    let prev = if i == 0 { s[i] } else { s[i - 1] };
    let next = if i + 1 == s.len() { s[i] } else { s[i + 1] };
    if s[i] != prev && s[i] != next { prev } else { s[i] }
}

/// Smoothed unvoiced flags: a majority vote over five-frame windows, then
/// removal of isolated frames.
pub open spec fn smooth_flags(uv: Seq<bool>) -> Seq<bool> {
    Seq::new(uv.len(), |i: int| despeckled(voted(uv), i))
}

/// Smooths per-frame unvoiced flags (see [`smooth_flags`]).
pub fn smooth_uv(uv: &[bool]) -> (r: Vec<bool>)
    ensures
        r@ == smooth_flags(uv@),
{
    let n: usize = uv.len();
    let mut voted_flags: Vec<bool> = Vec::new();
    let mut i: usize = 0;
    while i < n
        invariant
            n == uv@.len(),
            i <= n,
            voted_flags@ =~= voted(uv@).subrange(0, i as int),
        decreases n - i,
    {
        let lo: usize = if i >= 2 { i - 2 } else { 0 };
        let hi: usize = if n - 1 - i >= 2 { i + 2 } else { n - 1 };
        let mut ones: usize = 0;
        let mut j: usize = lo;
        while j <= hi
            invariant
                n == uv@.len(),
                i < n,
                lo == window_lo(i as int),
                hi == window_hi(i as int, n as int),
                lo <= j <= hi + 1,
                ones == count_set(uv@, lo as int, j as int),
                ones <= j - lo,
            decreases hi + 1 - j,
        {
            if uv[j] {
                ones = ones + 1;
            }
            j = j + 1;
        }
        voted_flags.push(ones >= (hi - lo + 2) / 2);
        i = i + 1;
    }
    let ghost v = voted(uv@);
    assert(voted_flags@ =~= v);
    let mut out: Vec<bool> = Vec::new();
    let mut k: usize = 0;
    while k < n
        invariant
            n == uv@.len(),
            v == voted(uv@),
            voted_flags@ == v,
            k <= n,
            out@ =~= smooth_flags(uv@).subrange(0, k as int),
        decreases n - k,
    {
        let cur: bool = voted_flags[k];
        let prev: bool = if k == 0 { cur } else { voted_flags[k - 1] };
        let next: bool = if k + 1 == n { cur } else { voted_flags[k + 1] };
        out.push(if cur != prev && cur != next { prev } else { cur });
        k = k + 1;
    }
    out
}

proof fn lemma_count_constant(uv: Seq<bool>, b: bool, lo: int, hi: int)
    requires
        0 <= lo <= hi <= uv.len(),
        forall|i: int| 0 <= i < uv.len() ==> uv[i] == b,
    ensures
        count_set(uv, lo, hi) == if b { (hi - lo) as nat } else { 0nat },
    decreases hi - lo,
{
    if lo < hi {
        lemma_count_constant(uv, b, lo, hi - 1);
    }
}

/// Frames that all agree stay as they are: smoothing an all-voiced or an
/// all-unvoiced track changes nothing.
pub proof fn lemma_smooth_constant(uv: Seq<bool>, b: bool)
    requires
        forall|i: int| 0 <= i < uv.len() ==> uv[i] == b,
    ensures
        smooth_flags(uv) == uv,
{
    let v = voted(uv);
    assert forall|i: int| 0 <= i < uv.len() implies #[trigger] v[i] == b by {
        let lo = window_lo(i);
        let hi = window_hi(i, uv.len() as int);
        lemma_count_constant(uv, b, lo, hi + 1);
    }
    assert(smooth_flags(uv) =~= uv);
}


proof fn lemma_count_split(uv: Seq<bool>, a: int, b: int, c: int)
    requires
        a <= b <= c,
    ensures
        count_set(uv, a, c) == count_set(uv, a, b) + count_set(uv, b, c),
    decreases c - b,
{
    if b < c {
        lemma_count_split(uv, a, b, c - 1);
    }
}

proof fn lemma_count_bound(uv: Seq<bool>, a: int, b: int)
    requires
        a <= b,
    ensures
        count_set(uv, a, b) <= b - a,
    decreases b - a,
{
    if a < b {
        lemma_count_bound(uv, a, b - 1);
    }
}

/// The vote: frame `i` of `n` is set exactly when at least half of the
/// frames from `max(i - 2, 0)` to `min(i + 2, n - 1)` are set.
pub proof fn lemma_vote_is_half_or_more(uv: Seq<bool>, i: int)
    requires
        0 <= i < uv.len(),
    ensures
        voted(uv)[i] == ({
            let lo = if i >= 2 { i - 2 } else { 0 };
            let hi = if i + 2 <= uv.len() - 1 { i + 2 } else { uv.len() - 1 };
            2 * count_set(uv, lo, hi + 1) >= hi - lo + 1
        }),
{
}

/// Frames `k`, `k + 1` and `k + 2` exist and agree.
pub open spec fn run3_at(uv: Seq<bool>, k: int) -> bool {
    0 <= k && k + 2 < uv.len() && uv[k] == uv[k + 1] && uv[k + 1] == uv[k + 2]
}

/// Frame `i` lies in a stretch of three agreeing frames.
pub open spec fn in_run3(uv: Seq<bool>, i: int) -> bool {
    exists|k: int| #[trigger] run3_at(uv, k) && k <= i <= k + 2
}

/// Smoothing only removes short runs: a track in which every frame lies
/// in a stretch of at least three agreeing frames is left unchanged (each
/// five-frame vote has at least three frames agreeing with the centre, and
/// no frame is isolated).
pub proof fn lemma_smooth_keeps_runs_of_three(uv: Seq<bool>)
    requires
        forall|i: int| 0 <= i < uv.len() ==> #[trigger] in_run3(uv, i),
    ensures
        smooth_flags(uv) == uv,
{
    let n = uv.len() as int;
    let v = voted(uv);
    assert forall|i: int| 0 <= i < n implies #[trigger] v[i] == uv[i] by {
        assert(in_run3(uv, i));
        let k = choose|k: int| #[trigger] run3_at(uv, k) && k <= i <= k + 2;
        let lo = window_lo(i);
        let hi = window_hi(i, n);
        assert(lo <= k && k + 3 <= hi + 1);
        lemma_count_split(uv, lo, k, hi + 1);
        lemma_count_split(uv, k, k + 3, hi + 1);
        lemma_count_bound(uv, lo, k);
        lemma_count_bound(uv, k + 3, hi + 1);
        assert(count_set(uv, k, k + 3) == if uv[k] { 3nat } else { 0nat }) by {
            assert(count_set(uv, k, k) == 0);
            assert(count_set(uv, k, k + 1) == if uv[k] { 1nat } else { 0nat });
            assert(count_set(uv, k, k + 2) == if uv[k] { 2nat } else { 0nat });
        }
        assert(uv[k] == uv[i]);
        assert(hi - lo <= 4);
    }
    assert forall|i: int| 0 <= i < n implies #[trigger] despeckled(v, i) == uv[i] by {
        assert(in_run3(uv, i));
        let k = choose|k: int| #[trigger] run3_at(uv, k) && k <= i <= k + 2;
        if i == k {
            assert(v[i + 1] == uv[i]);
        } else {
            assert(v[i - 1] == uv[i]);
        }
    }
    assert(smooth_flags(uv) =~= uv);
}

} // verus!
