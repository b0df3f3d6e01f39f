//! Metrics of the distributed-key-generation runtime.

use vstd::prelude::*;

verus! {

pub const RETAINED_SESSIONS: &'static str = "monad.dkg.retained_sessions";

pub const RETAINED_SESSIONS_HELP: &'static str =
    "DKG protocol sessions currently retained by the runner";

pub const SESSIONS_STARTED: &'static str = "monad.dkg.sessions_started_total";

pub const SESSIONS_STARTED_HELP: &'static str =
    "DKG protocol sessions started since process start";

pub const RESULTS_FINALIZED: &'static str = "monad.dkg.results_finalized_total";

pub const RESULTS_FINALIZED_HELP: &'static str =
    "DKG result epochs first observed finalized since process start";

pub const PENDING_NETWORK_RETRIES: &'static str = "monad.dkg.pending_network_retries";

pub const PENDING_NETWORK_RETRIES_HELP: &'static str =
    "DKG peer deliveries currently scheduled for retry";

pub const NETWORK_RETRIES: &'static str = "monad.dkg.network_retries_total";

pub const NETWORK_RETRIES_HELP: &'static str =
    "DKG peer delivery retries sent since process start";

pub const PENDING_TRANSACTIONS: &'static str = "monad.dkg.pending_transactions";

pub const PENDING_TRANSACTIONS_HELP: &'static str =
    "DKG contract transactions awaiting finalization";

pub const TRANSACTION_RETRIES: &'static str = "monad.dkg.transaction_retries_total";

pub const TRANSACTION_RETRIES_HELP: &'static str =
    "DKG contract transaction retry attempts since process start";

pub const ERRORS: &'static str = "monad.dkg.errors_total";

pub const ERRORS_HELP: &'static str =
    "DKG runner errors since process start";

pub const CHAIN_ERRORS: &'static str = "monad.dkg.chain_errors_total";

pub const CHAIN_ERRORS_HELP: &'static str =
    "DKG finalized-chain read or reconciliation errors since process start";

pub const PROTOCOL_ERRORS: &'static str = "monad.dkg.protocol_errors_total";

pub const PROTOCOL_ERRORS_HELP: &'static str =
    "DKG protocol input or state-transition errors since process start";

pub const TRANSACTION_ERRORS: &'static str = "monad.dkg.transaction_errors_total";

pub const TRANSACTION_ERRORS_HELP: &'static str =
    "DKG contract transaction preparation or submission errors since process start";

pub const DELIVERY_ERRORS: &'static str = "monad.dkg.delivery_errors_total";

pub const DELIVERY_ERRORS_HELP: &'static str =
    "DKG malformed-message or delivery-channel errors since process start";

/// The values of the runtime's gauges. Counters wrap around.
#[derive(Clone, Copy, Debug, PartialEq, Eq, Structural)]
pub struct DkgRunnerMetrics {
    pub retained_sessions: u64,
    pub sessions_started: u64,
    pub results_finalized: u64,
    pub pending_network_retries: u64,
    pub network_retries: u64,
    pub pending_transactions: u64,
    pub transaction_retries: u64,
    pub errors: u64,
    pub chain_errors: u64,
    pub protocol_errors: u64,
    pub transaction_errors: u64,
    pub delivery_errors: u64,
}

/// A counter after `amount` more.
pub open spec fn counted(value: u64, amount: u64) -> u64 {
    value.wrapping_add(amount)
}

/// One gauge of a report: its name, its value, and its description.
pub open spec fn is_row(
    row: (&'static str, u64, &'static str),
    name: &'static str,
    help: &'static str,
    value: u64,
) -> bool {
    row.0@ == name@ && row.1 == value && row.2@ == help@
}

impl DkgRunnerMetrics {
    pub fn new() -> (metrics: Self)
        ensures
            metrics == (DkgRunnerMetrics {
                retained_sessions: 0,
                sessions_started: 0,
                results_finalized: 0,
                pending_network_retries: 0,
                network_retries: 0,
                pending_transactions: 0,
                transaction_retries: 0,
                errors: 0,
                chain_errors: 0,
                protocol_errors: 0,
                transaction_errors: 0,
                delivery_errors: 0,
            }),
    {
        DkgRunnerMetrics {
            retained_sessions: 0,
            sessions_started: 0,
            results_finalized: 0,
            pending_network_retries: 0,
            network_retries: 0,
            pending_transactions: 0,
            transaction_retries: 0,
            errors: 0,
            chain_errors: 0,
            protocol_errors: 0,
            transaction_errors: 0,
            delivery_errors: 0,
        }
    }

    /// The gauges with their names, values, and descriptions.
    pub fn iter_with_descriptions(&self) -> (rows: Vec<(&'static str, u64, &'static str)>)
        ensures
            rows@.len() == 12,
            is_row(rows@[0], RETAINED_SESSIONS, RETAINED_SESSIONS_HELP, self.retained_sessions),
            is_row(rows@[1], SESSIONS_STARTED, SESSIONS_STARTED_HELP, self.sessions_started),
            is_row(rows@[2], RESULTS_FINALIZED, RESULTS_FINALIZED_HELP, self.results_finalized),
            is_row(rows@[3], PENDING_NETWORK_RETRIES, PENDING_NETWORK_RETRIES_HELP, self.pending_network_retries),
            is_row(rows@[4], NETWORK_RETRIES, NETWORK_RETRIES_HELP, self.network_retries),
            is_row(rows@[5], PENDING_TRANSACTIONS, PENDING_TRANSACTIONS_HELP, self.pending_transactions),
            is_row(rows@[6], TRANSACTION_RETRIES, TRANSACTION_RETRIES_HELP, self.transaction_retries),
            is_row(rows@[7], ERRORS, ERRORS_HELP, self.errors),
            is_row(rows@[8], CHAIN_ERRORS, CHAIN_ERRORS_HELP, self.chain_errors),
            is_row(rows@[9], PROTOCOL_ERRORS, PROTOCOL_ERRORS_HELP, self.protocol_errors),
            is_row(rows@[10], TRANSACTION_ERRORS, TRANSACTION_ERRORS_HELP, self.transaction_errors),
            is_row(rows@[11], DELIVERY_ERRORS, DELIVERY_ERRORS_HELP, self.delivery_errors),
    {
        let mut rows: Vec<(&'static str, u64, &'static str)> = Vec::new();
        rows.push((RETAINED_SESSIONS, self.retained_sessions, RETAINED_SESSIONS_HELP));
        rows.push((SESSIONS_STARTED, self.sessions_started, SESSIONS_STARTED_HELP));
        rows.push((RESULTS_FINALIZED, self.results_finalized, RESULTS_FINALIZED_HELP));
        rows.push(
            (
                PENDING_NETWORK_RETRIES,
                self.pending_network_retries,
                PENDING_NETWORK_RETRIES_HELP,
            ),
        );
        rows.push((NETWORK_RETRIES, self.network_retries, NETWORK_RETRIES_HELP));
        rows.push((PENDING_TRANSACTIONS, self.pending_transactions, PENDING_TRANSACTIONS_HELP));
        rows.push((TRANSACTION_RETRIES, self.transaction_retries, TRANSACTION_RETRIES_HELP));
        rows.push((ERRORS, self.errors, ERRORS_HELP));
        rows.push((CHAIN_ERRORS, self.chain_errors, CHAIN_ERRORS_HELP));
        rows.push((PROTOCOL_ERRORS, self.protocol_errors, PROTOCOL_ERRORS_HELP));
        rows.push((TRANSACTION_ERRORS, self.transaction_errors, TRANSACTION_ERRORS_HELP));
        rows.push((DELIVERY_ERRORS, self.delivery_errors, DELIVERY_ERRORS_HELP));
        rows
    }

    pub fn set_session_state(&mut self, retained: usize, pending_retries: usize)
        ensures
            *final(self) == (DkgRunnerMetrics {
                retained_sessions: retained as u64,
                pending_network_retries: pending_retries as u64,
                ..*old(self)
            }),
    {
        self.retained_sessions = retained as u64;
        self.pending_network_retries = pending_retries as u64;
    }

    pub fn session_started(&mut self)
        ensures
            *final(self) == (DkgRunnerMetrics {
                sessions_started: counted(old(self).sessions_started, 1),
                ..*old(self)
            }),
    {
        self.sessions_started = self.sessions_started.wrapping_add(1);
    }

    pub fn result_finalized(&mut self)
        ensures
            *final(self) == (DkgRunnerMetrics {
                results_finalized: counted(old(self).results_finalized, 1),
                ..*old(self)
            }),
    {
        self.results_finalized = self.results_finalized.wrapping_add(1);
    }

    pub fn network_retries(&mut self, count: usize)
        ensures
            *final(self) == (DkgRunnerMetrics {
                network_retries: counted(old(self).network_retries, count as u64),
                ..*old(self)
            }),
    {
        self.network_retries = self.network_retries.wrapping_add(count as u64);
    }

    pub fn chain_error(&mut self)
        ensures
            *final(self) == (DkgRunnerMetrics {
                errors: counted(old(self).errors, 1),
                chain_errors: counted(old(self).chain_errors, 1),
                ..*old(self)
            }),
    {
        self.errors = self.errors.wrapping_add(1);
        self.chain_errors = self.chain_errors.wrapping_add(1);
    }

    pub fn protocol_error(&mut self)
        ensures
            *final(self) == (DkgRunnerMetrics {
                errors: counted(old(self).errors, 1),
                protocol_errors: counted(old(self).protocol_errors, 1),
                ..*old(self)
            }),
    {
        self.errors = self.errors.wrapping_add(1);
        self.protocol_errors = self.protocol_errors.wrapping_add(1);
    }

    pub fn delivery_error(&mut self)
        ensures
            *final(self) == (DkgRunnerMetrics {
                errors: counted(old(self).errors, 1),
                delivery_errors: counted(old(self).delivery_errors, 1),
                ..*old(self)
            }),
    {
        self.errors = self.errors.wrapping_add(1);
        self.delivery_errors = self.delivery_errors.wrapping_add(1);
    }

    pub fn transaction_error(&mut self)
        ensures
            *final(self) == (DkgRunnerMetrics {
                errors: counted(old(self).errors, 1),
                transaction_errors: counted(old(self).transaction_errors, 1),
                ..*old(self)
            }),
    {
        self.errors = self.errors.wrapping_add(1);
        self.transaction_errors = self.transaction_errors.wrapping_add(1);
    }

    pub fn set_pending_transactions(&mut self, count: usize)
        ensures
            *final(self) == (DkgRunnerMetrics { pending_transactions: count as u64, ..*old(self) }),
    {
        self.pending_transactions = count as u64;
    }

    pub fn transaction_retry(&mut self)
        ensures
            *final(self) == (DkgRunnerMetrics {
                transaction_retries: counted(old(self).transaction_retries, 1),
                ..*old(self)
            }),
    {
        self.transaction_retries = self.transaction_retries.wrapping_add(1);
    }

    /// The sum of the errors of all categories.
    pub open spec fn categorized_errors(self) -> int {
        self.chain_errors + self.protocol_errors + self.transaction_errors + self.delivery_errors
    }
}

/// Every error of a category is counted in the total, as long as no counter wraps.
pub proof fn law_categories_make_the_total(metrics: DkgRunnerMetrics)
    requires
        metrics.errors == metrics.categorized_errors(),
        metrics.errors < u64::MAX,
    ensures
        ({
            let errors = counted(metrics.errors, 1);
            let chain = DkgRunnerMetrics {
                errors,
                chain_errors: counted(metrics.chain_errors, 1),
                ..metrics
            };
            let protocol = DkgRunnerMetrics {
                errors,
                protocol_errors: counted(metrics.protocol_errors, 1),
                ..metrics
            };
            let delivery = DkgRunnerMetrics {
                errors,
                delivery_errors: counted(metrics.delivery_errors, 1),
                ..metrics
            };
            let transaction = DkgRunnerMetrics {
                errors,
                transaction_errors: counted(metrics.transaction_errors, 1),
                ..metrics
            };
            &&& chain.errors == chain.categorized_errors()
            &&& protocol.errors == protocol.categorized_errors()
            &&& delivery.errors == delivery.categorized_errors()
            &&& transaction.errors == transaction.categorized_errors()
        }),
{
}

/// A counter adds what is counted, and starts over behind its largest value.
pub proof fn law_counter_adds_and_wraps(value: u64, amount: u64)
    ensures
        value + amount <= u64::MAX ==> counted(value, amount) == value + amount,
        value + amount > u64::MAX ==> counted(value, amount) == value + amount - u64::MAX - 1,
{
}

/// A row names its metric, gives its value, and says what it measures.
pub proof fn law_row_shows_its_metric(
    row: (&'static str, u64, &'static str),
    name: &'static str,
    help: &'static str,
    value: u64,
)
    ensures
        is_row(row, name, help, value) <==> row.0@ == name@ && row.1 == value && row.2@ == help@,
{
}

} // verus!
