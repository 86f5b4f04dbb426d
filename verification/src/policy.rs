//! The supervisor's declarative error policy: what to do when a lifecycle
//! hook fails, and how retry backoff delays are computed.

use vstd::prelude::*;

verus! {

/// How the delay between retries grows.
#[derive(Debug, Clone, Copy, PartialEq, Eq)]
pub enum Backoff {
    /// Delay grows linearly: `base * attempt`.
    Linear(u64),
    /// Delay doubles with each attempt, starting from `base`.
    Exponential(u64),
}

/// What a supervisor does when one of its hooks fails.
#[derive(Debug, Clone, Copy, PartialEq, Eq)]
pub enum PolicyAction {
    /// Log and continue.
    Ignore,
    /// Re-invoke the operation up to the given number of extra times, with
    /// the given backoff, then fall through.
    Retry(u32, Backoff),
    /// Terminate the supervisor.
    Fail,
}

/// The per-actor error policy: one action per supervisor hook.
#[derive(Debug, Clone, Copy, PartialEq, Eq)]
pub struct SupervisorErrorPolicy {
    /// Applied when `initialize` fails.
    pub initialize: PolicyAction,
    /// Applied when `deinitialize` fails.
    pub deinitialize: PolicyAction,
    /// Applied when a message handler fails.
    pub message_handler_failed: PolicyAction,
    /// Applied when the mailbox channel closes unexpectedly.
    pub channel_closed: PolicyAction,
}

/// The initial policy: lifecycle failures terminate, handler failures are
/// ignored.
pub open spec fn initial_policy() -> SupervisorErrorPolicy {
    SupervisorErrorPolicy {
        initialize: PolicyAction::Fail,
        deinitialize: PolicyAction::Fail,
        message_handler_failed: PolicyAction::Ignore,
        channel_closed: PolicyAction::Fail,
    }
}

impl Default for SupervisorErrorPolicy {
    /// The initial policy: lifecycle failures terminate, handler failures
    /// are ignored.
    fn default() -> (r: SupervisorErrorPolicy)
        ensures
            r == initial_policy(),
    {
        SupervisorErrorPolicy {
            initialize: PolicyAction::Fail,
            deinitialize: PolicyAction::Fail,
            message_handler_failed: PolicyAction::Ignore,
            channel_closed: PolicyAction::Fail,
        }
    }
}

/// How many times in total an operation governed by `action` may be
/// invoked: one base attempt, plus the retries the action grants.
pub open spec fn spec_attempts_allowed(action: PolicyAction) -> int {
    match action {
        PolicyAction::Ignore => 1,
        PolicyAction::Fail => 1,
        PolicyAction::Retry(n, _) => n + 1,
    }
}

impl PolicyAction {
    /// The total number of invocations this action grants.
    pub fn attempts_allowed(&self) -> (r: u64)
        ensures
            r as int == spec_attempts_allowed(*self),
    {
        match self {
            PolicyAction::Ignore => 1,
            PolicyAction::Fail => 1,
            PolicyAction::Retry(n, _) => *n as u64 + 1,
        }
    }
}

/// The delay before retry number `attempt` (1-based) under `b`, saturating
/// at `u64::MAX`.
pub open spec fn spec_backoff_delay(b: Backoff, attempt: nat) -> u64
    decreases attempt,
{
    match b {
        Backoff::Linear(base) => {
            if base * attempt > u64::MAX {
                u64::MAX
            } else {
                (base * attempt) as u64
            }
        },
        Backoff::Exponential(base) => {
            if attempt <= 1 {
                base
            } else {
                let prev = spec_backoff_delay(b, (attempt - 1) as nat);
                if prev > u64::MAX / 2 {
                    u64::MAX
                } else {
                    (prev * 2) as u64
                }
            }
        },
    }
}

impl Backoff {
    /// Computes the delay before retry number `attempt` (1-based),
    /// saturating at `u64::MAX`.
    pub fn delay(&self, attempt: u32) -> (r: u64)
        ensures
            r == spec_backoff_delay(*self, attempt as nat),
    {
        match self {
            Backoff::Linear(base) => {
                proof {
                    assert((*base as int) * (attempt as int) <= (u64::MAX as int) * (u32::MAX
                        as int)) by (nonlinear_arith)
                        requires
                            *base as int <= u64::MAX as int,
                            attempt as int <= u32::MAX as int,
                            0 <= *base as int,
                            0 <= attempt as int,
                    ;
                }
                let wide: u128 = *base as u128 * attempt as u128;
                if wide > u64::MAX as u128 {
                    u64::MAX
                } else {
                    wide as u64
                }
            },
            Backoff::Exponential(base) => {
                let mut cur: u64 = *base;
                let mut k: u32 = 1;
                while k < attempt
                    invariant
                        1 <= k,
                        attempt > 1 ==> k <= attempt,
                        cur == spec_backoff_delay(Backoff::Exponential(*base), (if attempt
                            <= 1 {
                            1nat
                        } else {
                            k as nat
                        })),
                    decreases attempt - k,
                {
                    if cur > u64::MAX / 2 {
                        cur = u64::MAX;
                    } else {
                        cur = cur * 2;
                    }
                    k = k + 1;
                }
                cur
            },
        }
    }
}

} // verus!
