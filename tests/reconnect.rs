use display_link::reconnect::{policy_for, LinkAction, ReconnectPolicy, Reconnector};

fn bounded() -> ReconnectPolicy {
    ReconnectPolicy { attempt_limit: Some(3), backoff_secs: 5 }
}

#[test]
fn rediscovery_after_third_failure_only() {
    let mut r = Reconnector::new(bounded());
    assert_eq!(r.on_open(false), LinkAction::Retry { wait_secs: 5 });
    assert_eq!(r.failures, 1);
    assert_eq!(r.on_open(false), LinkAction::Retry { wait_secs: 5 });
    assert_eq!(r.failures, 2);
    assert_eq!(r.on_open(false), LinkAction::Rediscover { wait_secs: 5 });
    assert_eq!(r.failures, 0);
    assert_eq!(r.on_open(false), LinkAction::Retry { wait_secs: 5 });
    assert_eq!(r.on_open(false), LinkAction::Retry { wait_secs: 5 });
    assert_eq!(r.on_open(false), LinkAction::Rediscover { wait_secs: 5 });
}

#[test]
fn explicit_device_waits_ten_seconds_without_rediscovery() {
    let mut r = Reconnector::new(policy_for(true));
    let mut waited = 0u64;
    let mut rediscovered = false;
    for opened in [false, false, true] {
        match r.on_open(opened) {
            LinkAction::Retry { wait_secs } => waited += wait_secs,
            LinkAction::Rediscover { wait_secs } => {
                waited += wait_secs;
                rediscovered = true;
            }
            LinkAction::Connected => {}
        }
    }
    assert_eq!(waited, 10);
    assert!(!rediscovered);
}

#[test]
fn success_clears_count() {
    let mut r = Reconnector::new(bounded());
    r.on_open(false);
    r.on_open(false);
    assert_eq!(r.on_open(true), LinkAction::Connected);
    assert_eq!(r.failures, 0);
    assert_eq!(r.on_open(false), LinkAction::Retry { wait_secs: 5 });
}

#[test]
fn policy_depends_on_explicit_device() {
    assert_eq!(policy_for(true), ReconnectPolicy { attempt_limit: None, backoff_secs: 5 });
    assert_eq!(policy_for(false), ReconnectPolicy { attempt_limit: Some(3), backoff_secs: 5 });
}

#[test]
fn unbounded_never_rediscovers() {
    let mut r = Reconnector::new(policy_for(true));
    for _ in 0..20 {
        assert_eq!(r.on_open(false), LinkAction::Retry { wait_secs: 5 });
    }
}

#[test]
fn limit_one_rediscovers_every_failure() {
    let mut r = Reconnector::new(ReconnectPolicy { attempt_limit: Some(1), backoff_secs: 2 });
    assert_eq!(r.on_open(false), LinkAction::Rediscover { wait_secs: 2 });
    assert_eq!(r.on_open(false), LinkAction::Rediscover { wait_secs: 2 });
}
