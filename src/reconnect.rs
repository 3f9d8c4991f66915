//! The reconnect protocol of the serial link, as a state machine.
//!
//! The caller opens the device, reports whether the open succeeded, and
//! performs the action handed back: wait, possibly locate a new device, and
//! try again.
use vstd::prelude::*;
use vstd::arithmetic::div_mod::{lemma_add_mod_noop_right, lemma_fundamental_div_mod_converse, lemma_small_mod};

verus! {

/// Consecutive failed opens after which a discovered device is given up.
pub const DISCOVERED_ATTEMPT_LIMIT: u32 = 3;

/// Seconds waited after each failed open.
pub const DEFAULT_BACKOFF_SECS: u64 = 5;

/// How failed opens are retried.
#[derive(Clone, Copy, Debug, PartialEq, Eq)]
pub struct ReconnectPolicy {
    /// `None`: retry the same device forever. `Some(n)`: after `n`
    /// consecutive failures, locate the device again.
    pub attempt_limit: Option<u32>,
    /// Seconds to wait after each failure.
    pub backoff_secs: u64,
}

/// What the caller does after reporting the outcome of an open.
#[derive(Clone, Copy, Debug, PartialEq, Eq)]
pub enum LinkAction {
    /// The link is up: resume sending frames.
    Connected,
    /// Wait this many seconds, then open the same device again.
    Retry { wait_secs: u64 },
    /// Wait this many seconds, locate the device anew, then open it.
    Rediscover { wait_secs: u64 },
}

/// The policy for a run: a device named by the operator is retried forever,
/// a discovered one only a bounded number of times before discovery runs again.
pub fn policy_for(explicit_device: bool) -> (p: ReconnectPolicy)
    ensures
        p.backoff_secs == DEFAULT_BACKOFF_SECS,
        explicit_device ==> p.attempt_limit == None::<u32>,
        !explicit_device ==> p.attempt_limit == Some(DISCOVERED_ATTEMPT_LIMIT),
{
    let attempt_limit = if explicit_device { None } else { Some(DISCOVERED_ATTEMPT_LIMIT) };
    ReconnectPolicy { attempt_limit, backoff_secs: DEFAULT_BACKOFF_SECS }
}

/// True when the failure that makes the count `failures_after` exhausts the
/// limit.
pub open spec fn limit_reached(limit: Option<u32>, failures_after: int) -> bool {
    match limit {
        Some(n) => failures_after >= n,
        None => false,
    }
}

/// The counter of consecutive failures, and the protocol's transitions on it.
pub struct Reconnector {
    pub policy: ReconnectPolicy,
    /// Consecutive failed opens on the current device.
    pub failures: u32,
}

/// The action that follows an open outcome, given the failures counted so far.
pub open spec fn action_spec(policy: ReconnectPolicy, failures: u32, opened: bool) -> LinkAction {
    if opened {
        LinkAction::Connected
    } else if limit_reached(policy.attempt_limit, failures + 1) {
        LinkAction::Rediscover { wait_secs: policy.backoff_secs }
    } else {
        LinkAction::Retry { wait_secs: policy.backoff_secs }
    }
}

/// The failure count after an open outcome.
pub open spec fn failures_spec(policy: ReconnectPolicy, failures: u32, opened: bool) -> u32 {
    if opened || limit_reached(policy.attempt_limit, failures + 1) {
        0
    } else if failures == u32::MAX {
        failures
    } else {
        (failures + 1) as u32
    }
}


/// The actions of a protocol run that starts from `failures` and is fed the
/// open outcomes in order.
pub open spec fn run_actions(policy: ReconnectPolicy, failures: u32, outcomes: Seq<bool>) -> Seq<LinkAction>
    decreases outcomes.len(),
{
    if outcomes.len() == 0 {
        Seq::empty()
    } else {
        seq![action_spec(policy, failures, outcomes[0])] + run_actions(
            policy,
            failures_spec(policy, failures, outcomes[0]),
            outcomes.drop_first(),
        )
    }
}

/// The failure count at the end of such a run.
pub open spec fn run_failures(policy: ReconnectPolicy, failures: u32, outcomes: Seq<bool>) -> u32
    decreases outcomes.len(),
{
    if outcomes.len() == 0 {
        failures
    } else {
        run_failures(policy, failures_spec(policy, failures, outcomes[0]), outcomes.drop_first())
    }
}

/// Seconds spent waiting over a list of actions.
pub open spec fn total_wait(actions: Seq<LinkAction>) -> int
    decreases actions.len(),
{
    if actions.len() == 0 {
        0
    } else {
        let w = match actions[0] {
            LinkAction::Connected => 0int,
            LinkAction::Retry { wait_secs } => wait_secs as int,
            LinkAction::Rediscover { wait_secs } => wait_secs as int,
        };
        w + total_wait(actions.drop_first())
    }
}

pub open spec fn all_failed(outcomes: Seq<bool>) -> bool {
    forall|i: int| 0 <= i < outcomes.len() ==> !#[trigger] outcomes[i]
}

proof fn lemma_mod_step(c: int, l: int)
    requires
        0 <= c < l,
    ensures
        (if c + 1 >= l { 0 } else { c + 1 }) == (c + 1) % l,
{
    if c + 1 >= l {
        lemma_fundamental_div_mod_converse(c + 1, l, 1, 0);
    } else {
        lemma_small_mod((c + 1) as nat, l as nat);
    }
}

proof fn lemma_bounded_failures(policy: ReconnectPolicy, l: u32, c: u32, outcomes: Seq<bool>)
    requires
        policy.attempt_limit == Some(l),
        l >= 1,
        c < l,
        all_failed(outcomes),
    ensures
        run_actions(policy, c, outcomes).len() == outcomes.len(),
        forall|i: int|
            0 <= i < outcomes.len() ==> (#[trigger] run_actions(policy, c, outcomes)[i] == (if (
            c + i + 1) % (l as int) == 0 {
                LinkAction::Rediscover { wait_secs: policy.backoff_secs }
            } else {
                LinkAction::Retry { wait_secs: policy.backoff_secs }
            })),
        run_failures(policy, c, outcomes) == (c + outcomes.len()) % (l as int),
    decreases outcomes.len(),
{
    if outcomes.len() == 0 {
        lemma_small_mod(c as nat, l as nat);
    } else {
        let c2 = failures_spec(policy, c, false);
        lemma_mod_step(c as int, l as int);
        assert(c2 == (c + 1) % (l as int));
        let rest = outcomes.drop_first();
        assert(all_failed(rest)) by {
            assert forall|i: int| 0 <= i < rest.len() implies !#[trigger] rest[i] by {
                assert(rest[i] == outcomes[i + 1]);
            }
        }
        lemma_bounded_failures(policy, l, c2, rest);
        let acts = run_actions(policy, c, outcomes);
        assert forall|i: int| 0 <= i < outcomes.len() implies #[trigger] acts[i] == (if (c + i
            + 1) % (l as int) == 0 {
            LinkAction::Rediscover { wait_secs: policy.backoff_secs }
        } else {
            LinkAction::Retry { wait_secs: policy.backoff_secs }
        }) by {
            if i == 0 {
                assert(!outcomes[0]);
            } else {
                assert(acts[i] == run_actions(policy, c2, rest)[i - 1]);
                lemma_mod_shift(c as int, i, l as int);
            }
        }
        lemma_mod_shift(c as int, outcomes.len() - 1, l as int);
    }
}

proof fn lemma_mod_shift(c: int, j: int, l: int)
    requires
        0 <= c < l,
        j >= 0,
    ensures
        ((c + 1) % l + j) % l == (c + 1 + j) % l,
{
    lemma_add_mod_noop_right(j, c + 1, l);
}

/// Under a bounded policy with limit `l`, a fresh run fed only failures asks
/// to locate the device again exactly at every `l`-th consecutive failure and
/// retries the same device at every other one; at the end its count is the
/// number of failures since the last rediscovery.
pub proof fn law_bounded_rediscovery(policy: ReconnectPolicy, outcomes: Seq<bool>)
    requires
        policy.attempt_limit.is_some(),
        policy.attempt_limit.unwrap() >= 1,
        all_failed(outcomes),
    ensures
        run_actions(policy, 0, outcomes).len() == outcomes.len(),
        forall|i: int|
            0 <= i < outcomes.len() ==> (#[trigger] run_actions(policy, 0, outcomes)[i] == (if (i
                + 1) % (policy.attempt_limit.unwrap() as int) == 0 {
                LinkAction::Rediscover { wait_secs: policy.backoff_secs }
            } else {
                LinkAction::Retry { wait_secs: policy.backoff_secs }
            })),
        run_failures(policy, 0, outcomes) == (outcomes.len() as int) % (
        policy.attempt_limit.unwrap() as int),
{
    lemma_bounded_failures(policy, policy.attempt_limit.unwrap(), 0, outcomes);
    assert forall|i: int| 0 <= i < outcomes.len() implies (#[trigger] run_actions(
        policy,
        0,
        outcomes,
    )[i] == (if (i + 1) % (policy.attempt_limit.unwrap() as int) == 0 {
        LinkAction::Rediscover { wait_secs: policy.backoff_secs }
    } else {
        LinkAction::Retry { wait_secs: policy.backoff_secs }
    })) by {
        assert(0 + i + 1 == i + 1);
    }
}

/// Under the unbounded policy, a run in which `f` opens fail and the next one
/// succeeds never asks to locate the device, ends connected, and waits `f`
/// backoffs in all.
pub proof fn law_unbounded_wait(policy: ReconnectPolicy, failures: u32, outcomes: Seq<bool>, f: nat)
    requires
        policy.attempt_limit.is_none(),
        outcomes.len() == f + 1,
        forall|i: int| 0 <= i < f ==> !#[trigger] outcomes[i],
        outcomes[f as int],
    ensures
        run_actions(policy, failures, outcomes).len() == f + 1,
        run_actions(policy, failures, outcomes)[f as int] == LinkAction::Connected,
        forall|i: int|
            0 <= i < f ==> #[trigger] run_actions(policy, failures, outcomes)[i] == (LinkAction::Retry {
                wait_secs: policy.backoff_secs,
            }),
        total_wait(run_actions(policy, failures, outcomes)) == f * policy.backoff_secs,
    decreases f,
{
    let acts = run_actions(policy, failures, outcomes);
    let rest = outcomes.drop_first();
    let c2 = failures_spec(policy, failures, outcomes[0]);
    let rest_acts = run_actions(policy, c2, rest);
    assert(rest_acts =~= acts.drop_first());
    if f == 0 {
        assert(rest.len() == 0);
        assert(acts =~= seq![LinkAction::Connected]);
        assert(total_wait(rest_acts) == 0);
    } else {
        assert forall|i: int| 0 <= i < f - 1 implies !#[trigger] rest[i] by {
            assert(rest[i] == outcomes[i + 1]);
        }
        assert(rest[f - 1] == outcomes[f as int]);
        law_unbounded_wait(policy, c2, rest, (f - 1) as nat);
        assert(!outcomes[0]);
        assert forall|i: int| 0 <= i < f implies #[trigger] acts[i] == (LinkAction::Retry {
            wait_secs: policy.backoff_secs,
        }) by {
            if i > 0 {
                assert(acts[i] == rest_acts[i - 1]);
            }
        }
        let b = policy.backoff_secs as int;
        assert(b + (f - 1) * b == f * b) by (nonlinear_arith);
    }
}

impl Reconnector {
    /// Under a bounded policy the count stays below the limit.
    pub open spec fn wf(&self) -> bool {
        match self.policy.attempt_limit {
            Some(n) => self.failures == 0 || self.failures < n,
            None => true,
        }
    }

    /// A protocol run that has not failed yet.
    pub fn new(policy: ReconnectPolicy) -> (r: Reconnector)
        ensures
            r.policy == policy,
            r.failures == 0,
            r.wf(),
    {
        Reconnector { policy, failures: 0 }
    }

    /// Takes the outcome of one open and says what to do next. A success
    /// clears the count; a failure is counted, and the failure that reaches
    /// a bounded limit asks for rediscovery and clears the count.
    pub fn on_open(&mut self, opened: bool) -> (a: LinkAction)
        requires
            old(self).wf(),
        ensures
            final(self).wf(),
            final(self).policy == old(self).policy,
            a == action_spec(old(self).policy, old(self).failures, opened),
            final(self).failures == failures_spec(old(self).policy, old(self).failures, opened),
    {
        if opened {
            self.failures = 0;
            return LinkAction::Connected;
        }
        let reached = match self.policy.attempt_limit {
            Some(n) => self.failures >= n || n - self.failures <= 1,
            None => false,
        };
        if reached {
            self.failures = 0;
            LinkAction::Rediscover { wait_secs: self.policy.backoff_secs }
        } else {
            if self.failures < u32::MAX {
                self.failures = self.failures + 1;
            }
            LinkAction::Retry { wait_secs: self.policy.backoff_secs }
        }
    }
}

} // verus!
