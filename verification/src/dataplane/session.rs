//! Opening authenticated sessions and driving them.

use crate::text::{byte_text, decimal, push_decimal};
use vstd::prelude::*;

verus! {

/// The length of a compressed public key.
pub const PUBLIC_KEY_BYTES: usize = 33;

/// Why a session operation failed.
#[derive(Debug)]
pub enum AdapterError {
    Session(String),
    KeyConversion(String),
    InvalidPacket,
}

/// The model of an error.
#[verifier::ext_equal]
pub enum AdapterErrorView {
    Session(Seq<char>),
    KeyConversion(Seq<char>),
    InvalidPacket,
}

impl View for AdapterError {
    type V = AdapterErrorView;

    open spec fn view(&self) -> AdapterErrorView {
        match self {
            AdapterError::Session(text) => AdapterErrorView::Session(text@),
            AdapterError::KeyConversion(text) => AdapterErrorView::KeyConversion(text@),
            AdapterError::InvalidPacket => AdapterErrorView::InvalidPacket,
        }
    }
}

/// The error for a public key of the wrong length.
pub open spec fn key_length_error(length: nat) -> AdapterErrorView {
    AdapterErrorView::KeyConversion(
        "Invalid public key length: expected 33, got "@ + byte_text(decimal(length)),
    )
}

/// The times that a session manager works with, in milliseconds.
#[derive(Clone, Copy, Debug, PartialEq, Eq, Structural)]
pub struct SessionConfig {
    pub init_response_timeout: u64,
    pub init_retry_interval: u64,
    pub keepalive_interval: u64,
    pub keepalive_timeout: u64,
    pub rekey_interval: u64,
    pub handshake_rate_limit: u64,
    pub cookie_refresh_duration: u64,
}

impl Default for SessionConfig {
    fn default() -> (config: Self)
        ensures
            config == (SessionConfig {
                init_response_timeout: 10_000,
                init_retry_interval: 1_000,
                keepalive_interval: 25_000,
                keepalive_timeout: 10_000,
                rekey_interval: 120_000,
                handshake_rate_limit: 50,
                cookie_refresh_duration: 120_000,
            }),
    {
        SessionConfig {
            init_response_timeout: 10_000,
            init_retry_interval: 1_000,
            keepalive_interval: 25_000,
            keepalive_timeout: 10_000,
            rekey_interval: 120_000,
            handshake_rate_limit: 50,
            cookie_refresh_duration: 120_000,
        }
    }
}

/// A public key of the right length, as an array.
pub fn session_key(bytes: &Vec<u8>) -> (result: Result<[u8; 33], AdapterError>)
    ensures
        match result {
            Ok(key) => key@ == bytes@,
            Err(error) => bytes@.len() != 33 && error@ == key_length_error(bytes@.len()),
        },
{
    if bytes.len() != PUBLIC_KEY_BYTES {
        let mut text: String = "Invalid public key length: expected 33, got ".to_owned();
        push_decimal(&mut text, bytes.len() as u64);
        return Err(AdapterError::KeyConversion(text));
    }
    let mut key: [u8; 33] = [0; 33];
    let mut i: usize = 0;
    while i < 33
        invariant
            i <= 33,
            bytes@.len() == 33,
            forall|j: int| 0 <= j < i ==> key@[j] == bytes@[j],
        decreases 33 - i,
    {
        key[i] = bytes[i];
        i += 1;
    }
    assert(key@ =~= bytes@);
    Ok(key)
}

/// The sessions to open before the first key of the wrong length, and the error
/// for that key.
pub fn init_sessions(keys: &Vec<Vec<u8>>) -> (plan: (Vec<[u8; 33]>, Result<(), AdapterError>))
    ensures
        plan.0@.len() <= keys@.len(),
        forall|i: int| 0 <= i < plan.0@.len() ==> (#[trigger] plan.0@[i])@ == keys@[i]@,
        match plan.1 {
            Ok(()) => plan.0@.len() == keys@.len(),
            Err(error) => {
                &&& plan.0@.len() < keys@.len()
                &&& keys@[plan.0@.len() as int]@.len() != 33
                &&& error@ == key_length_error(keys@[plan.0@.len() as int]@.len())
            },
        },
{
    let mut opened: Vec<[u8; 33]> = Vec::new();
    let mut i: usize = 0;
    while i < keys.len()
        invariant
            i <= keys@.len(),
            opened@.len() == i,
            forall|j: int| 0 <= j < i ==> (#[trigger] opened@[j])@ == keys@[j]@,
        decreases keys@.len() - i,
    {
        match session_key(&keys[i]) {
            Ok(key) => opened.push(key),
            Err(error) => {
                return (opened, Err(error));
            },
        }
        i += 1;
    }
    (opened, Ok(()))
}

/// What the session manager or the clock said last.
#[derive(Clone, Copy, Debug, PartialEq, Eq, Structural)]
pub enum BackgroundEvent {
    /// Whether a packet was waiting to be sent.
    Packet(bool),
    /// The nanoseconds until the next timer, if there is one.
    Timer(Option<u64>),
    /// Whether the sleep until the next timer was over.
    Slept(bool),
    /// The manager has run its timers.
    Ticked,
}

/// Where the background task stands.
#[derive(Clone, Copy, Debug, PartialEq, Eq, Structural)]
pub enum BackgroundStage {
    FirstPacket,
    Timers,
    Sleeping,
    Ticking,
    LastPacket,
}

/// What the background task does next.
#[derive(Clone, Copy, Debug, PartialEq, Eq, Structural)]
pub enum BackgroundAction {
    AskTimer,
    Sleep(u64),
    Tick,
    AskPacket,
    Send,
    Wait,
}

/// The stage and the action after an event: a waiting packet goes out first, due
/// timers run, and then a packet that they made goes out.
pub open spec fn background_next(stage: BackgroundStage, event: BackgroundEvent) -> Option<
    (BackgroundStage, BackgroundAction),
> {
    match (stage, event) {
        (BackgroundStage::FirstPacket, BackgroundEvent::Packet(true)) => Some(
            (BackgroundStage::FirstPacket, BackgroundAction::Send),
        ),
        (BackgroundStage::FirstPacket, BackgroundEvent::Packet(false)) => Some(
            (BackgroundStage::Timers, BackgroundAction::AskTimer),
        ),
        (BackgroundStage::Timers, BackgroundEvent::Timer(Some(0))) => Some(
            (BackgroundStage::Ticking, BackgroundAction::Tick),
        ),
        (BackgroundStage::Timers, BackgroundEvent::Timer(Some(wait))) => Some(
            (BackgroundStage::Sleeping, BackgroundAction::Sleep(wait)),
        ),
        (BackgroundStage::Timers, BackgroundEvent::Timer(None)) => Some(
            (BackgroundStage::LastPacket, BackgroundAction::AskPacket),
        ),
        (BackgroundStage::Sleeping, BackgroundEvent::Slept(true)) => Some(
            (BackgroundStage::Ticking, BackgroundAction::Tick),
        ),
        (BackgroundStage::Sleeping, BackgroundEvent::Slept(false)) => Some(
            (BackgroundStage::FirstPacket, BackgroundAction::Wait),
        ),
        (BackgroundStage::Ticking, BackgroundEvent::Ticked) => Some(
            (BackgroundStage::Timers, BackgroundAction::AskTimer),
        ),
        (BackgroundStage::LastPacket, BackgroundEvent::Packet(true)) => Some(
            (BackgroundStage::FirstPacket, BackgroundAction::Send),
        ),
        (BackgroundStage::LastPacket, BackgroundEvent::Packet(false)) => Some(
            (BackgroundStage::FirstPacket, BackgroundAction::Wait),
        ),
        _ => None,
    }
}

/// Advances the background task; `None` where the event does not answer the
/// stage's question.
pub fn background_step(stage: BackgroundStage, event: BackgroundEvent) -> (next: Option<
    (BackgroundStage, BackgroundAction),
>)
    ensures
        next == background_next(stage, event),
{
    match (stage, event) {
        (BackgroundStage::FirstPacket, BackgroundEvent::Packet(waiting)) => {
            if waiting {
                Some((BackgroundStage::FirstPacket, BackgroundAction::Send))
            } else {
                Some((BackgroundStage::Timers, BackgroundAction::AskTimer))
            }
        },
        (BackgroundStage::Timers, BackgroundEvent::Timer(timer)) => match timer {
            Some(wait) => {
                if wait == 0 {
                    Some((BackgroundStage::Ticking, BackgroundAction::Tick))
                } else {
                    Some((BackgroundStage::Sleeping, BackgroundAction::Sleep(wait)))
                }
            },
            None => Some((BackgroundStage::LastPacket, BackgroundAction::AskPacket)),
        },
        (BackgroundStage::Sleeping, BackgroundEvent::Slept(over)) => {
            if over {
                Some((BackgroundStage::Ticking, BackgroundAction::Tick))
            } else {
                Some((BackgroundStage::FirstPacket, BackgroundAction::Wait))
            }
        },
        (BackgroundStage::Ticking, BackgroundEvent::Ticked) => Some(
            (BackgroundStage::Timers, BackgroundAction::AskTimer),
        ),
        (BackgroundStage::LastPacket, BackgroundEvent::Packet(waiting)) => {
            if waiting {
                Some((BackgroundStage::FirstPacket, BackgroundAction::Send))
            } else {
                Some((BackgroundStage::FirstPacket, BackgroundAction::Wait))
            }
        },
        _ => None,
    }
}

/// Whatever the background task does next, it then takes the answer to it.
pub proof fn law_background_task_takes_the_answer(
    stage: BackgroundStage,
    event: BackgroundEvent,
    packet: bool,
    timer: Option<u64>,
    over: bool,
)
    ensures
        background_next(stage, event) matches Some((next, action)) ==> match action {
            BackgroundAction::AskTimer => background_next(next, BackgroundEvent::Timer(timer)) is Some,
            BackgroundAction::Sleep(_) => background_next(next, BackgroundEvent::Slept(over)) is Some,
            BackgroundAction::Tick => background_next(next, BackgroundEvent::Ticked) is Some,
            BackgroundAction::AskPacket => background_next(next, BackgroundEvent::Packet(packet)) is Some,
            BackgroundAction::Send => next is FirstPacket,
            BackgroundAction::Wait => next is FirstPacket,
        },
        background_next(BackgroundStage::FirstPacket, BackgroundEvent::Packet(packet)) is Some,
{
}

/// A packet that is waiting is sent, timers run when they are due or once the time until
/// then is over, and only where nothing is waiting and no time is left does the task
/// wait.
pub proof fn law_background_task_does_what_is_due(stage: BackgroundStage, event: BackgroundEvent)
    ensures
        background_next(stage, event) matches Some((next, action)) ==> {
            &&& action is Send <==> event == BackgroundEvent::Packet(true)
            &&& action is Tick <==> event == BackgroundEvent::Timer(Some(0)) || event
                == BackgroundEvent::Slept(true)
            &&& action is Sleep <==> event is Timer && event->Timer_0 is Some && event->Timer_0
                != Some(0u64)
            &&& action matches BackgroundAction::Sleep(wait) ==> event == BackgroundEvent::Timer(
                Some(wait),
            )
            &&& action is Wait <==> event == BackgroundEvent::Slept(false) || (event
                == BackgroundEvent::Packet(false) && stage is LastPacket)
            &&& action is AskPacket <==> event == BackgroundEvent::Timer(None)
            &&& action is AskTimer <==> event is Ticked || (event == BackgroundEvent::Packet(false)
                && stage is FirstPacket)
        },
{
}

/// The error for a key states its length.
pub proof fn law_key_error_states_the_length(left: nat, right: nat)
    requires
        key_length_error(left) == key_length_error(right),
    ensures
        left == right,
        key_length_error(left) is KeyConversion,
{
    let prefix = "Invalid public key length: expected 33, got "@;
    let a = byte_text(decimal(left));
    let b = byte_text(decimal(right));
    assert(prefix + a == prefix + b);
    assert((prefix + a).skip(prefix.len() as int) =~= a);
    assert((prefix + b).skip(prefix.len() as int) =~= b);
    crate::text::lemma_decimal_differs(left, right);
}

} // verus!
