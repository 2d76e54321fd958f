//! Integer decisions of loudness normalisation: where the non-silent part
//! of a note lies, and how long its fades are.
use vstd::prelude::*;

verus! {

/// Length of the energy window used to find silence, in samples.
pub const TRIM_WINDOW: usize = 882;
/// Step between energy windows, in samples.
pub const TRIM_STEP: usize = 441;
/// Samples kept after the start of the last loud window.
pub const TRIM_TAIL: usize = 5733;
/// Longest fade at either end of the kept part, in samples.
pub const MAX_FADE: usize = 8820;

/// Number of energy windows over `len` samples: windows of [`TRIM_WINDOW`]
/// samples every [`TRIM_STEP`] samples, as many as fit.
pub open spec fn window_count(len: int) -> int {
    if len >= TRIM_WINDOW { (len - TRIM_WINDOW) / (TRIM_STEP as int) + 1 } else { 0 }
}

/// Number of energy windows over `len` samples (see [`window_count`]).
pub fn trim_window_count(len: usize) -> (r: usize)
    ensures
        r == window_count(len as int),
{
    if len >= TRIM_WINDOW { (len - TRIM_WINDOW) / TRIM_STEP + 1 } else { 0 }
}

/// Whether some window before `upto` is loud.
pub open spec fn any_loud(loud: Seq<bool>, upto: int) -> bool {
    exists|i: int| 0 <= i < upto && #[trigger] loud[i]
}

/// First loud window.
pub open spec fn first_loud(loud: Seq<bool>) -> int
    recommends
        any_loud(loud, loud.len() as int),
{
    choose|i: int| 0 <= i < loud.len() && loud[i] && (forall|j: int| 0 <= j < i ==> !#[trigger] loud[j])
}

/// Last loud window after the first window, or the first window when no
/// later window is loud.
pub open spec fn last_loud(loud: Seq<bool>) -> int {
    if exists|i: int| 1 <= i < loud.len() && #[trigger] loud[i] {
        choose|i: int| 1 <= i < loud.len() && loud[i] && (forall|j: int| i < j < loud.len() ==> !#[trigger] loud[j])
    } else {
        0
    }
}

/// The kept part of a note of `len` samples whose energy windows are loud
/// where `loud` is set: from the start of the first loud window to
/// [`TRIM_TAIL`] samples after the start of the last one (see
/// [`last_loud`]), cut at the end of the note; none when no window is loud.
pub open spec fn kept_part(len: int, loud: Seq<bool>) -> Option<(int, int)> {
    if any_loud(loud, loud.len() as int) {
        let e = last_loud(loud) * (TRIM_STEP as int) + TRIM_TAIL as int;
        Some((first_loud(loud) * (TRIM_STEP as int), if e <= len { e } else { len }))
    } else {
        None
    }
}

/// The kept part covers every loud window and no more: there is one exactly
/// when some window is loud; it starts at the start of a loud window, before
/// or at every loud window's start; and it ends 5733 samples after the start
/// of a loud window (cut at the end of the note), no earlier than that end
/// for any loud window.
pub proof fn lemma_kept_part_covers_loud_windows(len: int, loud: Seq<bool>)
    ensures
        kept_part(len, loud) is None <==> (forall|i: int| 0 <= i < loud.len() ==> !#[trigger] loud[i]),
        kept_part(len, loud) matches Some((s, e)) ==> {
            &&& forall|i: int| 0 <= i < loud.len() && #[trigger] loud[i] ==> s <= 441 * i
                && e >= (if 441 * i + 5733 <= len { 441 * i + 5733 } else { len })
            &&& exists|i: int| 0 <= i < loud.len() && #[trigger] loud[i] && s == 441 * i
            &&& exists|m: int| 0 <= m < loud.len() && #[trigger] loud[m]
                && e == (if 441 * m + 5733 <= len { 441 * m + 5733 } else { len })
        },
{
    if any_loud(loud, loud.len() as int) {
        let f = first_loud(loud);
        let l = last_loud(loud);
        lemma_first_last(loud);
        let s = f * 441;
        let e = if l * 441 + 5733 <= len { l * 441 + 5733 } else { len };
        assert(kept_part(len, loud) == Some((s, e)));
        assert forall|i: int| 0 <= i < loud.len() && #[trigger] loud[i] implies s <= 441 * i
            && e >= (if 441 * i + 5733 <= len { 441 * i + 5733 } else { len }) by {
            assert(f <= i);
            assert(i <= l);
        }
        assert(loud[f] && s == 441 * f);
        assert(loud[l] && e == (if 441 * l + 5733 <= len { 441 * l + 5733 } else { len }));
    } else {
        assert forall|i: int| 0 <= i < loud.len() implies !#[trigger] loud[i] by {
            assert(!(0 <= i < loud.len() && loud[i]));
        }
    }
}

proof fn lemma_min_loud(loud: Seq<bool>, k: int)
    requires
        0 <= k < loud.len(),
        loud[k],
    ensures
        exists|i: int| 0 <= i < loud.len() && loud[i] && (forall|j: int| 0 <= j < i ==> !#[trigger] loud[j]),
    decreases k,
{
    if exists|j: int| 0 <= j < k && #[trigger] loud[j] {
        let j = choose|j: int| 0 <= j < k && #[trigger] loud[j];
        lemma_min_loud(loud, j);
    } else {
        assert(0 <= k < loud.len() && loud[k] && (forall|j: int| 0 <= j < k ==> !#[trigger] loud[j]));
    }
}

proof fn lemma_max_loud(loud: Seq<bool>, k: int)
    requires
        1 <= k < loud.len(),
        loud[k],
    ensures
        exists|i: int| 1 <= i < loud.len() && loud[i] && (forall|j: int| i < j < loud.len() ==> !#[trigger] loud[j]),
    decreases loud.len() - k,
{
    if exists|j: int| k < j < loud.len() && #[trigger] loud[j] {
        let j = choose|j: int| k < j < loud.len() && #[trigger] loud[j];
        lemma_max_loud(loud, j);
    } else {
        assert(1 <= k < loud.len() && loud[k] && (forall|j: int| k < j < loud.len() ==> !#[trigger] loud[j]));
    }
}

proof fn lemma_first_last(loud: Seq<bool>)
    requires
        any_loud(loud, loud.len() as int),
    ensures
        0 <= first_loud(loud) < loud.len(),
        loud[first_loud(loud)],
        forall|j: int| 0 <= j < loud.len() && #[trigger] loud[j] ==> first_loud(loud) <= j,
        0 <= last_loud(loud) < loud.len(),
        loud[last_loud(loud)],
        forall|j: int| 0 <= j < loud.len() && #[trigger] loud[j] ==> j <= last_loud(loud),
{
    let k = choose|i: int| 0 <= i < loud.len() && #[trigger] loud[i];
    lemma_min_loud(loud, k);
    let f = first_loud(loud);
    assert(0 <= f < loud.len() && loud[f] && (forall|j: int| 0 <= j < f ==> !#[trigger] loud[j]));
    if exists|i: int| 1 <= i < loud.len() && #[trigger] loud[i] {
        let k2 = choose|i: int| 1 <= i < loud.len() && #[trigger] loud[i];
        lemma_max_loud(loud, k2);
        let l = last_loud(loud);
        assert(1 <= l < loud.len() && loud[l] && (forall|j: int| l < j < loud.len() ==> !#[trigger] loud[j]));
    } else {
        assert(last_loud(loud) == 0);
        if f != 0 {
            assert(1 <= f < loud.len() && loud[f]);
        }
    }
}

/// Finds the kept part of a note (see [`kept_part`]); `loud[i]` tells
/// whether energy window `i` exceeds the silence threshold.
pub fn trim_region(len: usize, loud: &[bool]) -> (r: Option<(usize, usize)>)
    requires
        loud@.len() == window_count(len as int),
    ensures
        match kept_part(len as int, loud@) {
            Some((s, e)) => r matches Some(p) && p.0 == s && p.1 == e,
            None => r is None,
        },
{
    let n: usize = loud.len();
    let mut first: Option<usize> = None;
    let mut last: usize = 0;
    let mut i: usize = 0;
    while i < n
        invariant
            n == loud@.len(),
            n == window_count(len as int),
            i <= n,
            match first {
                Some(f) => f < i && loud@[f as int] && (forall|j: int| 0 <= j < f ==> !#[trigger] loud@[j]),
                None => forall|j: int| 0 <= j < i ==> !#[trigger] loud@[j],
            },
            last < n || last == 0,
            last > 0 ==> last < i && loud@[last as int],
            forall|j: int| 1 <= j < i && j > last ==> !#[trigger] loud@[j],
        decreases n - i,
    {
        if loud[i] {
            if first.is_none() {
                first = Some(i);
            }
            if i > 0 {
                last = i;
            }
        }
        i = i + 1;
    }
    match first {
        None => {
            assert(!any_loud(loud@, n as int));
            None
        },
        Some(f) => {
            assert(any_loud(loud@, n as int));
            let ghost fl = first_loud(loud@);
            assert(fl == f as int) by {
                assert(0 <= f < loud@.len() && loud@[f as int] && (forall|j: int| 0 <= j < f ==> !#[trigger] loud@[j]));
                if fl < f {
                    assert(!loud@[fl]);
                } else if fl > f {
                    assert(!loud@[f as int]);
                }
            }
            if last > 0 {
                let ghost ll = choose|t: int| 1 <= t < loud@.len() && loud@[t] && (forall|j: int| t < j < loud@.len() ==> !#[trigger] loud@[j]);
                assert(1 <= last < loud@.len() && loud@[last as int] && (forall|j: int| last < j < loud@.len() ==> !#[trigger] loud@[j]));
                assert(last_loud(loud@) == last as int) by {
                    if ll < last {
                        assert(!loud@[last as int]);
                    } else if ll > last {
                        assert(!loud@[ll]);
                    }
                }
            } else {
                assert(last_loud(loud@) == 0);
            }
            proof {
                assert(n >= 1);
                assert(len >= TRIM_WINDOW);
                assert(n - 1 == (len - TRIM_WINDOW) / (TRIM_STEP as int));
                assert((n - 1) * 441 <= len - 882) by (nonlinear_arith)
                    requires n - 1 == (len - 882) / 441, len >= 882;
                assert(last * 441 <= (n - 1) * 441) by (nonlinear_arith)
                    requires last <= n - 1;
                assert(f * 441 <= (n - 1) * 441) by (nonlinear_arith)
                    requires f <= n - 1;
            }
            let start: usize = f * TRIM_STEP;
            let ls: usize = last * TRIM_STEP;
            let end: usize = if len - ls >= TRIM_TAIL { ls + TRIM_TAIL } else { len };
            Some((start, end))
        },
    }
}

/// Length of each fade for a kept part of `kept_len` samples: a quarter of
/// it, at most [`MAX_FADE`], and no fade at all when that is below two.
pub fn fade_length(kept_len: usize) -> (r: usize)
    ensures
        r == (if kept_len / 4 >= MAX_FADE { MAX_FADE as int } else if kept_len / 4 < 2 { 0int } else { (kept_len / 4) as int }),
{
    let q: usize = kept_len >> 2;
    assert(q == kept_len / 4) by (bit_vector)
        requires q == kept_len >> 2;
    let f: usize = if MAX_FADE <= q { MAX_FADE } else { q };
    if f < 2 { 0 } else { f }
}

} // verus!
