//! Integer decisions of the Zhu et al. (2015) harmonic LASSO baseline:
//! model order from the number of valid observations, and breaks from runs
//! of large residuals.
use vstd::prelude::*;

verus! {

/// Fewest valid observations for which a harmonic model is fitted.
pub const MIN_OBS_FOR_FIT: usize = 6;

/// Consecutive large residuals that make a break.
pub const BREAK_RUN_LENGTH: usize = 6;

/// Harmonic model order for `n_valid` valid observations:
/// `< 6 -> 0`, `6..=17 -> 1`, `18..=23 -> 2`, `>= 24 -> 3`.
pub open spec fn spec_model_order(n_valid: int) -> u32 {
    if n_valid < 6 {
        0
    } else if n_valid < 18 {
        1
    } else if n_valid < 24 {
        2
    } else {
        3
    }
}

/// Harmonic model order from the number of valid observations.
pub fn select_model_order(n_valid: usize) -> (r: u32)
    ensures
        r == spec_model_order(n_valid as int),
{
    if n_valid < 6 {
        0
    } else if n_valid < 18 {
        1
    } else if n_valid < 24 {
        2
    } else {
        3
    }
}

/// Number of design-matrix columns for a model order: a cosine and a sine
/// per harmonic, and the trend.
pub fn design_columns(order: u32) -> (r: usize)
    requires
        2 * order + 1 <= u32::MAX,
    ensures
        r == 2 * order + 1,
{
    (2 * order + 1) as usize
}

/// Breaks found in the first `n` observations, and the length of the run of
/// large residuals pending after them. `None` marks an observation that is
/// not finite (skipped), `Some(true)` one whose residual exceeds the
/// threshold.
pub open spec fn break_scan(exceed: Seq<Option<bool>>, n: nat) -> (Seq<usize>, nat)
    decreases n,
{
    if n == 0 {
        (Seq::empty(), 0)
    } else {
        let (breaks, run) = break_scan(exceed, (n - 1) as nat);
        match exceed[n - 1] {
            None => (breaks, run),
            Some(false) => (breaks, 0),
            Some(true) => if run + 1 >= BREAK_RUN_LENGTH {
                (breaks.push(if n - 1 >= 5 { (n - 1 - 5) as usize } else { 0usize }), 0)
            } else {
                (breaks, run + 1)
            },
        }
    }
}

/// Start positions of breaks: each time six observations in a row (skipping
/// non-finite ones) have large residuals, the index of the latest minus five
/// (floored at zero) is a break, and counting starts again.
pub fn break_starts(exceed: &Vec<Option<bool>>) -> (r: Vec<usize>)
    ensures
        r@ == break_scan(exceed@, exceed@.len()).0,
{
    let mut breaks: Vec<usize> = Vec::new();
    let mut run: usize = 0;
    let mut i: usize = 0;
    while i < exceed.len()
        invariant
            i <= exceed@.len(),
            (breaks@, run as nat) == break_scan(exceed@, i as nat),
            run < BREAK_RUN_LENGTH,
        decreases exceed@.len() - i,
    {
        match exceed[i] {
            None => {},
            Some(false) => {
                run = 0;
            },
            Some(true) => {
                run = run + 1;
                if run >= BREAK_RUN_LENGTH {
                    breaks.push(i.saturating_sub(5));
                    run = 0;
                }
            },
        }
        i = i + 1;
    }
    breaks
}

/// More valid observations never give a lower model order, and the order
/// never exceeds three.
pub proof fn lemma_model_order_monotone(a: int, b: int)
    requires
        a <= b,
    ensures
        spec_model_order(a) <= spec_model_order(b),
        spec_model_order(b) <= 3,
{
}

/// Whether the break starts are strictly increasing.
pub open spec fn strictly_increasing(s: Seq<usize>) -> bool {
    forall|i: int, j: int| 0 <= i < j < s.len() ==> #[trigger] s[i] < #[trigger] s[j]
}

proof fn lemma_break_scan_props(exceed: Seq<Option<bool>>, n: nat)
    requires
        n <= exceed.len(),
        exceed.len() <= usize::MAX,
    ensures
        ({
            let (breaks, run) = break_scan(exceed, n);
            &&& strictly_increasing(breaks)
            &&& run < BREAK_RUN_LENGTH
            &&& run <= n
            &&& forall|i: int| 0 <= i < breaks.len() ==> #[trigger] breaks[i] + 6 + run <= n
        }),
    decreases n,
{
    if n > 0 {
        lemma_break_scan_props(exceed, (n - 1) as nat);
        let (breaks, run) = break_scan(exceed, (n - 1) as nat);
        match exceed[n - 1] {
            None => {},
            Some(false) => {},
            Some(true) => {
                if run + 1 >= BREAK_RUN_LENGTH {
                    let nb = breaks.push((n - 1 - 5) as usize);
                    assert forall|i: int, j: int| 0 <= i < j < nb.len() implies #[trigger] nb[i] < #[trigger] nb[j] by {
                        if j == nb.len() - 1 {
                            assert(breaks[i] + 6 + run <= n - 1);
                        } else {
                            assert(nb[i] == breaks[i] && nb[j] == breaks[j]);
                        }
                    }
                    assert forall|i: int| 0 <= i < nb.len() implies #[trigger] nb[i] + 6 <= n by {
                        if i < breaks.len() {
                            assert(nb[i] == breaks[i]);
                        }
                    }
                }
            },
        }
    }
}

/// Break starts come in strictly increasing order, six observations or
/// more before the end of the series.
pub proof fn lemma_break_starts_increasing(exceed: Seq<Option<bool>>)
    requires
        exceed.len() <= usize::MAX,
    ensures
        strictly_increasing(break_scan(exceed, exceed.len()).0),
        forall|i: int|
            0 <= i < break_scan(exceed, exceed.len()).0.len() ==> #[trigger] break_scan(exceed, exceed.len()).0[i] + 6
                <= exceed.len(),
{
    lemma_break_scan_props(exceed, exceed.len());
}

} // verus!
