use monad_runtime::dkg::metrics::{
    DkgRunnerMetrics, CHAIN_ERRORS, DELIVERY_ERRORS, ERRORS, NETWORK_RETRIES,
    PENDING_NETWORK_RETRIES, PENDING_TRANSACTIONS, PROTOCOL_ERRORS, RESULTS_FINALIZED,
    RETAINED_SESSIONS, SESSIONS_STARTED, TRANSACTION_ERRORS, TRANSACTION_RETRIES,
};

fn value(metrics: &DkgRunnerMetrics, name: &str) -> u64 {
    metrics
        .iter_with_descriptions()
        .into_iter()
        .find_map(|(metric, value, _)| (metric == name).then_some(value))
        .unwrap()
}

#[test]
fn category_errors_contribute_to_total() {
    let mut metrics = DkgRunnerMetrics::new();
    metrics.chain_error();
    metrics.protocol_error();
    metrics.delivery_error();
    metrics.transaction_error();

    assert_eq!(value(&metrics, ERRORS), 4);
    assert_eq!(value(&metrics, CHAIN_ERRORS), 1);
    assert_eq!(value(&metrics, PROTOCOL_ERRORS), 1);
    assert_eq!(value(&metrics, TRANSACTION_ERRORS), 1);
    assert_eq!(value(&metrics, DELIVERY_ERRORS), 1);
}

#[test]
fn retry_and_pending_metrics_keep_their_distinct_semantics() {
    let mut metrics = DkgRunnerMetrics::new();
    metrics.set_session_state(2, 7);
    metrics.network_retries(3);
    metrics.set_pending_transactions(4);
    metrics.transaction_retry();

    assert_eq!(value(&metrics, RETAINED_SESSIONS), 2);
    assert_eq!(value(&metrics, PENDING_NETWORK_RETRIES), 7);
    assert_eq!(value(&metrics, NETWORK_RETRIES), 3);
    assert_eq!(value(&metrics, PENDING_TRANSACTIONS), 4);
    assert_eq!(value(&metrics, TRANSACTION_RETRIES), 1);
}

#[test]
fn sessions_and_results_are_counted() {
    let mut metrics = DkgRunnerMetrics::new();
    metrics.session_started();
    metrics.session_started();
    metrics.result_finalized();

    assert_eq!(value(&metrics, SESSIONS_STARTED), 2);
    assert_eq!(value(&metrics, RESULTS_FINALIZED), 1);
}
