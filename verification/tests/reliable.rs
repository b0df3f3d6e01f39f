use monad_runtime::order::{Key, Rank};
use monad_runtime::reliable::retry::{EnqueueError, ObsolescencePolicy, RetryConfig, RetryScheduler};

const SECOND: u64 = 1_000_000_000;

#[derive(Clone, Copy, Debug, PartialEq)]
enum Scope {
    Item(u8),
}

#[derive(Clone, Copy, Debug, PartialEq)]
enum Evidence {
    Item(u8),
    Phase,
}

impl Key for Scope {
    fn before(self, other: Self) -> bool {
        matches!(self.rank(&other), Rank::Less)
    }

    fn irreflexive(_: Self) {}

    fn transitive(_: Self, _: Self, _: Self) {}

    fn total(_: Self, _: Self) {}

    fn rank(&self, other: &Self) -> Rank {
        let (Scope::Item(left), Scope::Item(right)) = (self, other);
        left.rank(right)
    }

    fn duplicate(&self) -> Self {
        *self
    }
}

impl Evidence {
    fn place(&self) -> (u8, u8) {
        match self {
            Evidence::Item(item) => (0, *item),
            Evidence::Phase => (1, 0),
        }
    }
}

impl Key for Evidence {
    fn before(self, other: Self) -> bool {
        matches!(self.rank(&other), Rank::Less)
    }

    fn irreflexive(_: Self) {}

    fn transitive(_: Self, _: Self, _: Self) {}

    fn total(_: Self, _: Self) {}

    fn rank(&self, other: &Self) -> Rank {
        self.place().rank(&other.place())
    }

    fn duplicate(&self) -> Self {
        *self
    }
}

struct TestPolicy;

impl ObsolescencePolicy for TestPolicy {
    type Scope = Scope;
    type Evidence = Evidence;

    fn obsoletes(scope: Scope, evidence: Evidence) -> bool {
        Self::obsolete(&scope, &evidence)
    }

    fn obsolete(scope: &Scope, evidence: &Evidence) -> bool {
        match (scope, evidence) {
            (_, Evidence::Phase) => true,
            (Scope::Item(left), Evidence::Item(right)) => left == right,
        }
    }
}

fn config() -> RetryConfig {
    RetryConfig::new(2 * SECOND, 2 * SECOND, 30 * SECOND, 0)
}

fn outbox() -> RetryScheduler<u8, u8, TestPolicy> {
    RetryScheduler::new(config())
}

fn text(message: &str) -> Vec<u8> {
    message.as_bytes().to_vec()
}

#[test]
fn one_message_is_shared_by_all_new_recipients() {
    let now = 10 * SECOND;
    let mut outbox = outbox();
    let sends = outbox
        .enqueue(1, vec![2, 3, 4], text("message"), Some(Scope::Item(1)), now)
        .unwrap();
    assert_eq!(
        sends.iter().map(|send| send.to).collect::<Vec<_>>(),
        [2, 3, 4]
    );

    assert!(outbox
        .enqueue(1, vec![2], text("message"), Some(Scope::Item(1)), now)
        .unwrap()
        .is_empty());
    assert!(outbox.is_pending(&1));
    assert_eq!(outbox.pending_count(), 3);
    assert!(outbox.recipient(&1, &2).is_some());
    assert!(outbox.recipient(&1, &3).is_some());
    assert!(outbox.recipient(&1, &4).is_some());
}

#[test]
fn conflicting_message_id_is_an_error() {
    let now = 10 * SECOND;
    let mut outbox = outbox();
    outbox
        .enqueue(1, vec![2], text("first"), Some(Scope::Item(1)), now)
        .unwrap();
    assert!(matches!(
        outbox.enqueue(1, vec![3], text("second"), Some(Scope::Item(1)), now),
        Err(EnqueueError)
    ));
    assert!(matches!(
        outbox.enqueue(1, vec![3], text("first"), Some(Scope::Item(2)), now),
        Err(EnqueueError)
    ));
}

#[test]
fn retries_use_linear_backoff_capped_at_maximum() {
    let now = 10 * SECOND;
    let mut outbox = outbox();
    outbox
        .enqueue(1, vec![2], text("message"), None, now)
        .unwrap();

    let first = outbox.next_timer().unwrap();
    assert_eq!(first - now, 2 * SECOND);
    assert_eq!(outbox.retry_due(first).len(), 1);
    let second = outbox.next_timer().unwrap();
    assert_eq!(second - first, 4 * SECOND);

    for _ in 0..80 {
        let due = outbox.next_timer().unwrap();
        outbox.retry_due(due);
    }
    assert_eq!(outbox.recipient(&1, &2).unwrap().retry_delay, 30 * SECOND);
}

#[test]
fn retries_follow_deadline_order() {
    let now = 10 * SECOND;
    let mut outbox = outbox();
    outbox
        .enqueue(1, vec![2], text("first"), None, now)
        .unwrap();
    outbox
        .enqueue(2, vec![3], text("second"), None, now + SECOND)
        .unwrap();

    let first_deadline = outbox.next_timer().unwrap();
    let sends = outbox.retry_due(first_deadline);
    assert_eq!(sends.len(), 1);
    assert_eq!(sends[0].payload, text("first"));

    let second_deadline = outbox.next_timer().unwrap();
    assert_eq!(second_deadline, now + 3 * SECOND);
    let sends = outbox.retry_due(second_deadline);
    assert_eq!(sends.len(), 1);
    assert_eq!(sends[0].payload, text("second"));
}

#[test]
fn evidence_removes_matching_messages_and_rejects_late_replay() {
    let now = 10 * SECOND;
    let mut outbox = outbox();
    outbox
        .enqueue(1, vec![1], text("one"), Some(Scope::Item(1)), now)
        .unwrap();
    outbox
        .enqueue(2, vec![2], text("two"), Some(Scope::Item(2)), now)
        .unwrap();
    outbox
        .enqueue(3, vec![3], text("session"), None, now)
        .unwrap();

    outbox.observe(Evidence::Item(1));
    assert!(!outbox.is_pending(&1));
    assert!(outbox.is_pending(&2));
    assert!(outbox.is_pending(&3));
    assert!(outbox.recipient(&1, &1).is_none());
    assert!(outbox.recipient(&2, &2).is_some());
    assert!(outbox.recipient(&3, &3).is_some());
    assert!(outbox
        .enqueue(4, vec![4], text("late"), Some(Scope::Item(1)), now)
        .unwrap()
        .is_empty());

    outbox.observe(Evidence::Phase);
    assert!(!outbox.is_pending(&2));
    assert!(outbox.is_pending(&3));
    assert!(outbox.recipient(&2, &2).is_none());
    assert!(outbox.recipient(&3, &3).is_some());
}

#[test]
fn completed_message_has_no_more_retries() {
    let now = 10 * SECOND;
    let mut outbox = outbox();
    outbox
        .enqueue(1, vec![2, 3], text("request"), Some(Scope::Item(1)), now)
        .unwrap();

    outbox.complete(&1);

    assert!(!outbox.is_pending(&1));
    assert!(outbox.recipient(&1, &2).is_none());
    assert!(outbox.recipient(&1, &3).is_none());
    assert!(outbox.next_timer().is_none());
}

#[test]
fn acknowledgement_completes_only_the_confirming_recipient() {
    let now = 10 * SECOND;
    let mut outbox = outbox();
    outbox
        .enqueue(1, vec![2, 3], text("message"), Some(Scope::Item(1)), now)
        .unwrap();

    outbox.acknowledge(&1, 2);

    assert_eq!(outbox.pending_count(), 1);
    assert!(outbox.recipient(&1, &2).is_none());
    assert!(outbox.recipient(&1, &3).is_some());

    outbox.acknowledge(&1, 3);
    assert!(!outbox.is_pending(&1));
    assert!(outbox.next_timer().is_none());
}

#[test]
fn jitter_is_at_most_a_fifth_of_the_delay() {
    let now = 10 * SECOND;
    for _ in 0..50 {
        let mut outbox: RetryScheduler<u8, u8, TestPolicy> =
            RetryScheduler::new(RetryConfig::new(2 * SECOND, 2 * SECOND, 30 * SECOND, SECOND / 2));
        outbox
            .enqueue(1, vec![2], text("message"), None, now)
            .unwrap();
        let timer = outbox.next_timer().unwrap();
        assert!(timer >= now + 2 * SECOND);
        assert!(timer <= now + 2 * SECOND + 2 * SECOND / 5);
    }
}

#[test]
fn nothing_is_due_after_a_retry() {
    let now = 10 * SECOND;
    let mut outbox = outbox();
    outbox
        .enqueue(1, vec![2, 3], text("request"), None, now)
        .unwrap();
    outbox
        .enqueue(2, vec![2], text("other"), None, now + SECOND)
        .unwrap();

    let late = now + 60 * SECOND;
    assert_eq!(outbox.retry_due(late).len(), 3);
    assert_eq!(outbox.next_timer(), Some(late + 4 * SECOND));
    assert!(outbox.retry_due(late).is_empty());
}

#[test]
fn evidence_refuses_messages_whatever_happened_since() {
    let now = 10 * SECOND;
    let mut outbox = outbox();
    outbox.observe(Evidence::Item(1));
    outbox
        .enqueue(2, vec![2], text("two"), Some(Scope::Item(2)), now)
        .unwrap();
    outbox.observe(Evidence::Item(2));
    outbox
        .enqueue(3, vec![3], text("session"), None, now)
        .unwrap();
    outbox.retry_due(now + 5 * SECOND);
    outbox.complete(&3);

    assert!(outbox
        .enqueue(4, vec![4], text("late"), Some(Scope::Item(1)), u64::MAX)
        .unwrap()
        .is_empty());
    assert!(!outbox.is_pending(&4));
    assert!(outbox.next_timer().is_none());
}
