use pglinter::threshold::{classify, percentage, Severity};

#[test]
fn classify_below_both_thresholds_is_none() {
    assert_eq!(classify(5, 10, 50), None);
}

#[test]
fn classify_at_warning_threshold_is_warning() {
    assert_eq!(classify(10, 10, 50), Some(Severity::Warning));
}

#[test]
fn classify_at_error_threshold_is_error() {
    assert_eq!(classify(50, 10, 50), Some(Severity::Error));
}

#[test]
fn error_threshold_dominates_overlapping_ranges() {
    // A metric satisfying both thresholds always resolves to the higher
    // severity, even when the thresholds are equal or inverted.
    assert_eq!(classify(60, 10, 50), Some(Severity::Error));
    assert_eq!(classify(30, 30, 30), Some(Severity::Error));
    assert_eq!(classify(80, 50, 10), Some(Severity::Error));
}

#[test]
fn percentage_truncates() {
    // One violation in a population of three is 33 percent, not 33.3.
    assert_eq!(percentage(1, 3), 33);
    assert_eq!(percentage(2, 3), 66);
    assert_eq!(percentage(1, 1), 100);
    assert_eq!(percentage(0, 7), 0);
}

#[test]
fn severity_labels() {
    assert_eq!(Severity::Warning.label(), "warning");
    assert_eq!(Severity::Error.label(), "error");
}
