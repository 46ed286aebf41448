use padd::formatter::FormatMetrics;

#[test]
fn format_metrics_count() {
    let mut metrics = FormatMetrics::new();
    assert_eq!((metrics.formatted, metrics.failed, metrics.total), (0, 0, 0));
    metrics.inc_total();
    metrics.inc_total();
    metrics.inc_formatted();
    metrics.inc_failed();
    metrics.inc_total();
    let copy = metrics.copy();
    assert_eq!((copy.formatted, copy.failed, copy.total), (1, 1, 3));
}
