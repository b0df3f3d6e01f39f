use monad_runtime::executor::histogram::{Histogram, HistogramBoundsError, SampleOutOfRange};
use monad_runtime::executor::metrics::{
    prometheus_metric_name, ExecutorMetrics, ExecutorMetricsChain, MetricDef,
};

const TEST_LEGACY_METRIC: MetricDef = MetricDef {
    name: "monad.executor.test.legacy",
    help: "Test legacy metric",
};

const TEST_REGISTERED_METRIC: MetricDef = MetricDef {
    name: "monad.executor.test.registered",
    help: "Test registered metric",
};

#[test]
fn test_histogram() {
    let mut hist = Histogram::new(1_000_000, 3).unwrap();

    for i in 1..=100 {
        hist.record(i * 100).unwrap();
    }

    assert_eq!(hist.count(), 100);
    assert!(hist.p50() >= 5000 && hist.p50() <= 5100);
    assert!(hist.p90() >= 9000 && hist.p90() <= 9100);
    assert!(hist.p99() >= 9900 && hist.p99() <= 10000);
}

#[test]
fn histograms_have_bounds() {
    assert_eq!(Histogram::new(1, 3).err(), Some(HistogramBoundsError));
    assert_eq!(Histogram::new(1_000, 6).err(), Some(HistogramBoundsError));
    let mut hist = Histogram::new(1_000, 3).unwrap();
    assert_eq!(hist.record(u64::MAX), Err(SampleOutOfRange));
    assert_eq!(hist.record(7), Ok(()));
    assert_eq!(hist.p50(), 7);
    hist.clear();
    assert_eq!(hist.count(), 0);
    assert_eq!(hist.p50(), 0);
}

#[test]
fn test_metrics_are_exported() {
    let mut metrics = ExecutorMetrics::with_metric_defs(&vec![TEST_LEGACY_METRIC]);
    let gauge = metrics.gauge(&TEST_LEGACY_METRIC);

    metrics.add_value(gauge, 2);
    assert_eq!(metrics.value(gauge), 2);
    metrics.set(gauge, 5);

    assert_eq!(metrics.get(&TEST_LEGACY_METRIC), 5);

    let exported = metrics.iter_with_descriptions();
    assert_eq!(
        exported,
        vec![(TEST_LEGACY_METRIC.name, 5, TEST_LEGACY_METRIC.help)]
    );
}

#[test]
fn test_registered_metrics_are_readable_and_clone_as_snapshot() {
    let mut metrics = ExecutorMetrics::with_metric_defs(&vec![TEST_REGISTERED_METRIC]);
    let registered = metrics.handle(&TEST_REGISTERED_METRIC);

    metrics.add_value(registered, 3);
    metrics.add_value(registered, 1);

    assert_eq!(metrics.value(registered), 4);
    assert_eq!(metrics.get(&TEST_REGISTERED_METRIC), 4);

    let snapshot = metrics.duplicate();
    metrics.add_value(registered, 1);

    assert_eq!(metrics.get(&TEST_REGISTERED_METRIC), 5);
    assert_eq!(snapshot.get(&TEST_REGISTERED_METRIC), 4);
}

#[test]
fn test_metrics_are_registered_externally() {
    let mut metrics = ExecutorMetrics::with_metric_defs(&vec![TEST_REGISTERED_METRIC]);
    let registered = metrics.handle(&TEST_REGISTERED_METRIC);
    let registry = prometheus::Registry::new();

    metrics.set(registered, 9);
    for slot in metrics.snapshot() {
        let gauge = prometheus::core::GenericGauge::<prometheus::core::AtomicU64>::new(
            prometheus_metric_name(&slot.metric),
            slot.metric.help,
        )
        .expect("valid metric");
        gauge.set(slot.value);
        registry
            .register(Box::new(gauge))
            .expect("registered metrics");
    }

    let gathered = registry.gather();
    assert_eq!(gathered.len(), 1);
    assert_eq!(gathered[0].get_metric()[0].get_gauge().get_value() as u64, 9);
}

#[test]
fn test_copy_values_from_preserves_registered_storage() {
    let mut registered_metrics = ExecutorMetrics::with_metric_defs(&vec![TEST_REGISTERED_METRIC]);
    let registered = registered_metrics.handle(&TEST_REGISTERED_METRIC);

    let mut snapshot = ExecutorMetrics::with_metric_defs(&vec![TEST_REGISTERED_METRIC]);
    let gauge = snapshot.gauge(&TEST_REGISTERED_METRIC);
    snapshot.set(gauge, 7);

    registered_metrics.copy_values_from(&snapshot);

    assert_eq!(registered_metrics.value(registered), 7);
    assert_eq!(registered_metrics.get(&TEST_REGISTERED_METRIC), 7);
}

#[test]
fn metric_names_are_cleaned_for_export() {
    assert_eq!(
        prometheus_metric_name(&TEST_LEGACY_METRIC),
        "monad_executor_test_legacy"
    );
    assert_eq!(
        prometheus_metric_name(&MetricDef::new("9 lives", "")),
        "_9_lives"
    );
    assert!(!TEST_LEGACY_METRIC.same_metric(&TEST_REGISTERED_METRIC));
}

#[test]
fn chains_export_the_first_value_of_a_metric() {
    let mut first = ExecutorMetrics::with_metric_defs(&vec![TEST_LEGACY_METRIC]);
    let gauge = first.gauge(&TEST_LEGACY_METRIC);
    first.set(gauge, 1);
    let mut second =
        ExecutorMetrics::with_metric_defs(&vec![TEST_LEGACY_METRIC, TEST_REGISTERED_METRIC]);
    let gauge = second.gauge(&TEST_LEGACY_METRIC);
    second.set(gauge, 2);
    let chain = ExecutorMetricsChain::new()
        .push(&first)
        .chain(ExecutorMetricsChain::new().push(&second));
    assert_eq!(chain.metric_handles().len(), 2);
    assert_eq!(
        chain.into_inner(),
        vec![
            (TEST_LEGACY_METRIC.name, 1, TEST_LEGACY_METRIC.help),
            (TEST_REGISTERED_METRIC.name, 0, TEST_REGISTERED_METRIC.help),
        ]
    );
}
