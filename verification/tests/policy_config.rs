//! Tests for the error policy, backoff arithmetic, and per-system
//! configuration.

use fluxion::foreign::NoDelegate;
use fluxion::messages::{Actor, ActorContext, Handler, Message};
use fluxion::policy::{Backoff, PolicyAction, SupervisorErrorPolicy};
use fluxion::system::{System, DEFAULT_MAILBOX_CAPACITY, DEFAULT_SHUTDOWN_TIMEOUT_MS};

#[derive(Clone, Debug, PartialEq, Eq)]
struct Nudge;

impl Message for Nudge {
    type Response = u64;
}

/// Fails `initialize` a configured number of times before succeeding.
struct FlakyActor {
    failures_left: u32,
}

impl Actor for FlakyActor {
    type Error = String;

    fn initialize(&mut self) -> Result<(), String> {
        if self.failures_left > 0 {
            self.failures_left -= 1;
            Err(String::from("not yet"))
        } else {
            Ok(())
        }
    }

    fn deinitialize(&mut self) -> Result<(), String> {
        Ok(())
    }
}

impl Handler<Nudge> for FlakyActor {
    fn handle(&mut self, _context: &ActorContext, _message: Nudge) -> u64 {
        7
    }
}

#[test]
fn default_policy_hooks() {
    let p = SupervisorErrorPolicy::default();
    assert_eq!(p.initialize, PolicyAction::Fail);
    assert_eq!(p.deinitialize, PolicyAction::Fail);
    assert_eq!(p.message_handler_failed, PolicyAction::Ignore);
    assert_eq!(p.channel_closed, PolicyAction::Fail);
}

#[test]
fn attempts_allowed_counts_retries() {
    assert_eq!(PolicyAction::Ignore.attempts_allowed(), 1);
    assert_eq!(PolicyAction::Fail.attempts_allowed(), 1);
    assert_eq!(PolicyAction::Retry(3, Backoff::Linear(10)).attempts_allowed(), 4);
    assert_eq!(
        PolicyAction::Retry(u32::MAX, Backoff::Linear(1)).attempts_allowed(),
        u32::MAX as u64 + 1
    );
}

#[test]
fn linear_backoff_values() {
    let b = Backoff::Linear(10);
    assert_eq!(b.delay(1), 10);
    assert_eq!(b.delay(2), 20);
    assert_eq!(b.delay(3), 30);
    assert_eq!(Backoff::Linear(0).delay(5), 0);
    assert_eq!(Backoff::Linear(u64::MAX).delay(2), u64::MAX);
}

#[test]
fn exponential_backoff_values() {
    let b = Backoff::Exponential(10);
    assert_eq!(b.delay(0), 10);
    assert_eq!(b.delay(1), 10);
    assert_eq!(b.delay(2), 20);
    assert_eq!(b.delay(3), 40);
    assert_eq!(b.delay(4), 80);
    assert_eq!(Backoff::Exponential(u64::MAX / 2 + 1).delay(2), u64::MAX);
    assert_eq!(Backoff::Exponential(1).delay(80), u64::MAX);
}

#[test]
fn default_configuration_constants() {
    assert_eq!(DEFAULT_MAILBOX_CAPACITY, 64);
    assert_eq!(DEFAULT_SHUTDOWN_TIMEOUT_MS, 5000);
}

#[test]
fn retry_policy_recovers_flaky_initialize() {
    let policy = SupervisorErrorPolicy {
        initialize: PolicyAction::Retry(3, Backoff::Linear(0)),
        ..SupervisorErrorPolicy::default()
    };
    let mut sys: System<FlakyActor, Nudge, NoDelegate> =
        System::new_with_config(b"s".to_vec(), NoDelegate, 16, policy);
    // Three failures are within the retry budget of 1 + 3 attempts.
    let id = sys
        .add(FlakyActor { failures_left: 3 })
        .expect("retries cover the failures");
    assert_eq!(sys.request(id, Nudge), Ok(7));
}

#[test]
fn fail_policy_gives_up_at_once() {
    let mut sys: System<FlakyActor, Nudge, NoDelegate> = System::new(b"s".to_vec(), NoDelegate);
    assert!(sys.add(FlakyActor { failures_left: 1 }).is_err());
    // The same actor value would have succeeded on its second attempt.
    let id = sys
        .add(FlakyActor { failures_left: 0 })
        .expect("a clean initialize succeeds");
    assert_eq!(sys.request(id, Nudge), Ok(7));
}

#[test]
fn per_actor_policy_override() {
    // The system default would give up at once; the per-actor override
    // grants enough retries.
    let mut sys: System<FlakyActor, Nudge, NoDelegate> = System::new(b"s".to_vec(), NoDelegate);
    assert!(sys.add(FlakyActor { failures_left: 2 }).is_err());
    let policy = SupervisorErrorPolicy {
        initialize: PolicyAction::Retry(2, Backoff::Linear(0)),
        ..SupervisorErrorPolicy::default()
    };
    let id = sys
        .add_with_policy(FlakyActor { failures_left: 2 }, 8, policy)
        .expect("the override's retries cover the failures");
    assert_eq!(sys.request(id, Nudge), Ok(7));
}

#[test]
fn mailbox_capacity_backpressure() {
    let mut sys: System<FlakyActor, Nudge, NoDelegate> = System::new_with_config(
        b"s".to_vec(),
        NoDelegate,
        2,
        SupervisorErrorPolicy::default(),
    );
    let id = sys.add(FlakyActor { failures_left: 0 }).expect("add must succeed");
    assert!(sys.has_capacity(id));
    sys.post(id, Nudge).expect("post to live actor");
    assert!(sys.has_capacity(id));
    sys.post(id, Nudge).expect("post to live actor");
    // The advisory capacity of 2 is reached; an asynchronous embedding
    // would now await before enqueueing more.
    assert!(!sys.has_capacity(id));
    sys.step_actor(id);
    assert!(sys.has_capacity(id));
    assert!(!sys.has_capacity(id + 1));
}

#[test]
fn system_identity_accessors() {
    let sys: System<FlakyActor, Nudge, NoDelegate> = System::new(b"node-a".to_vec(), NoDelegate);
    assert_eq!(sys.get_id(), &b"node-a".to_vec());
    assert_eq!(sys.get_delegate(), &NoDelegate);
    assert!(sys.is_operating());
}
