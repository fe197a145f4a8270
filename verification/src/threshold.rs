//! The threshold evaluator: classify a metric against a rule's warning and
//! error thresholds, with the error tier checked first, and compute the
//! truncating percentage that drives ratio-mode rules.

use vstd::prelude::*;

verus! {

/// Severity tier chosen by the threshold evaluator. A rule whose metric
/// reaches neither threshold yields no severity at all (`Option::None` at
/// the call sites), so only the two reportable tiers are represented here.
#[derive(Clone, Copy, PartialEq, Eq, Structural, Debug)]
pub enum Severity {
    Warning,
    Error,
}

impl Severity {
    /// The level keyword that findings carry for this tier.
    pub open spec fn spec_label(self) -> Seq<char> {
        match self {
            Severity::Warning => "warning"@,
            Severity::Error => "error"@,
        }
    }

    /// The level keyword as a string slice.
    pub fn label(self) -> (r: &'static str)
        ensures
            r@ == self.spec_label(),
    {
        match self {
            Severity::Warning => "warning",
            Severity::Error => "error",
        }
    }
}

pub open spec fn spec_classify(metric: int, warning: int, error: int) -> Option<Severity> {
    if metric >= error {
        Some(Severity::Error)
    } else if metric >= warning {
        Some(Severity::Warning)
    } else {
        None
    }
}

/// Classify a metric against a rule's warning and error thresholds. The
/// error threshold is checked first, so overlapping ranges always resolve
/// to the higher severity. Metric and thresholds share the rule's implicit
/// unit; no conversion happens here.
pub fn classify(metric: i64, warning: i64, error: i64) -> (r: Option<Severity>)
    ensures
        r == spec_classify(metric as int, warning as int, error as int),
{
    if metric >= error {
        Some(Severity::Error)
    } else if metric >= warning {
        Some(Severity::Warning)
    } else {
        None
    }
}

/// A metric that satisfies both thresholds always classifies as `Error`:
/// the error tier dominates the warning tier.
pub proof fn lemma_error_threshold_dominates(metric: int, warning: int, error: int)
    requires
        metric >= warning,
        metric >= error,
    ensures
        spec_classify(metric, warning, error) == Some(Severity::Error),
{
}

/// The share of a population its violating subset makes up, in whole
/// percent, truncated.
pub open spec fn spec_percentage(violations: int, total: int) -> int {
    (violations * 100) / total
}

/// Compute `violations * 100 / total` with integer truncation: one
/// violation in a population of three is 33 percent, never 34.
pub fn percentage(violations: i64, total: i64) -> (r: i64)
    requires
        0 <= violations,
        violations * 100 <= i64::MAX,
        total > 0,
    ensures
        r == spec_percentage(violations as int, total as int),
        0 <= r <= violations * 100,
{
    let scaled: i64 = violations * 100;
    let r = scaled / total;
    proof {
        assert(scaled / total >= 0) by (nonlinear_arith)
            requires
                scaled >= 0,
                total > 0,
        ;
        assert(scaled / total <= scaled) by (nonlinear_arith)
            requires
                scaled >= 0,
                total > 0,
        ;
    }
    r
}

} // verus!
