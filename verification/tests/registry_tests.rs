use service_registry::order::str_lt;
use service_registry::registry::{EXPIRY_THRESHOLD_MILLIS, SWEEP_INTERVAL_SECS};
use service_registry::ServiceRegistry;

fn pairs(ps: &[(&str, &str)]) -> Vec<(String, String)> {
    ps.iter().map(|(k, v)| (k.to_string(), v.to_string())).collect()
}

#[test]
fn register_twice_keeps_second_metadata() {
    let mut reg = ServiceRegistry::new();
    reg.register_at("n".to_string(), pairs(&[("a", "1")]), 10);
    reg.register_at("n".to_string(), pairs(&[("b", "2")]), 20);
    let snap = reg.snapshot();
    assert_eq!(snap.len(), 1);
    assert_eq!(snap[0].0, "n");
    assert_eq!(snap[0].1, pairs(&[("b", "2")]));
}

#[test]
fn refresh_extends_life() {
    let threshold: i64 = 300_000;
    let mut reg = ServiceRegistry::new();
    reg.register_at("kept".to_string(), pairs(&[]), 0);
    reg.register_at("dropped".to_string(), pairs(&[]), 0);
    // Refresh only one of the two before the threshold has passed.
    reg.register_at("kept".to_string(), pairs(&[]), 200_000);
    reg.sweep_at(threshold, 400_000);
    let snap = reg.snapshot();
    assert_eq!(snap.len(), 1);
    assert_eq!(snap[0].0, "kept");
}

#[test]
fn expiry_removes_stale_entries() {
    let threshold: i64 = 300_000;
    let mut reg = ServiceRegistry::new();
    reg.register_at("n".to_string(), pairs(&[]), 0);
    reg.sweep_at(threshold, 300_001);
    assert_eq!(reg.snapshot().len(), 0);
    assert_eq!(reg.dump(), "");
}

#[test]
fn entry_at_exact_threshold_age_stays() {
    let threshold: i64 = 300_000;
    let mut reg = ServiceRegistry::new();
    reg.register_at("n".to_string(), pairs(&[]), 0);
    reg.sweep_at(threshold, 300_000);
    assert_eq!(reg.snapshot().len(), 1);
}

#[test]
fn sweep_is_idempotent() {
    let mut reg = ServiceRegistry::new();
    reg.register_at("a".to_string(), pairs(&[("k", "v")]), 0);
    reg.register_at("b".to_string(), pairs(&[]), 250_000);
    reg.register_at("c".to_string(), pairs(&[]), 500_000);
    reg.sweep_at(300_000, 500_000);
    let first = reg.snapshot();
    reg.sweep_at(300_000, 500_000);
    let second = reg.snapshot();
    assert_eq!(first, second);
}

#[test]
fn snapshot_is_sorted_by_name() {
    let mut reg = ServiceRegistry::new();
    reg.register_at("B".to_string(), pairs(&[]), 1);
    reg.register_at("A".to_string(), pairs(&[]), 2);
    reg.register_at("C".to_string(), pairs(&[]), 3);
    let names: Vec<String> = reg.snapshot().into_iter().map(|e| e.0).collect();
    assert_eq!(names, vec!["A".to_string(), "B".to_string(), "C".to_string()]);
}

#[test]
fn listing_scenario_with_expiry() {
    let threshold: i64 = 300_000;
    let mut reg = ServiceRegistry::new();
    reg.register_at("alice".to_string(), pairs(&[("role", "worker")]), 0);
    reg.register_at("bob".to_string(), pairs(&[("role", "scheduler")]), 0);
    assert_eq!(reg.dump(), "alice\n\trole: worker\nbob\n\trole: scheduler");
    reg.sweep_at(threshold, threshold + 1);
    assert_eq!(reg.dump(), "");
}

#[test]
fn empty_registry_renders_empty() {
    let reg = ServiceRegistry::new();
    assert_eq!(reg.dump(), "");
    assert_eq!(reg.snapshot().len(), 0);
}

#[test]
fn entry_without_metadata_still_indents() {
    let mut reg = ServiceRegistry::new();
    reg.register_at("lonely".to_string(), pairs(&[]), 0);
    assert_eq!(reg.dump(), "lonely\n\t");
}

#[test]
fn metadata_pairs_render_in_given_order() {
    let mut reg = ServiceRegistry::new();
    reg.register_at("svc".to_string(), pairs(&[("cpu", "9"), ("uptime", "3")]), 0);
    assert_eq!(reg.dump(), "svc\n\tcpu: 9\n\tuptime: 3");
}

#[test]
fn empty_name_is_accepted_by_the_core() {
    let mut reg = ServiceRegistry::new();
    reg.register_at(String::new(), pairs(&[("k", "v")]), 0);
    reg.register_at("x".to_string(), pairs(&[]), 0);
    let snap = reg.snapshot();
    assert_eq!(snap.len(), 2);
    assert_eq!(snap[0].0, "");
    assert_eq!(snap[1].0, "x");
}

#[test]
fn prefix_sorts_before_extension() {
    assert!(str_lt("a", "ab"));
    assert!(!str_lt("ab", "a"));
    assert!(str_lt("", "a"));
    assert!(!str_lt("a", ""));
    assert!(str_lt("a", "b"));
    assert!(!str_lt("b", "a"));
    assert!(!str_lt("same", "same"));
    let mut reg = ServiceRegistry::new();
    reg.register_at("ab".to_string(), pairs(&[]), 0);
    reg.register_at("a".to_string(), pairs(&[]), 0);
    let names: Vec<String> = reg.snapshot().into_iter().map(|e| e.0).collect();
    assert_eq!(names, vec!["a".to_string(), "ab".to_string()]);
}

#[test]
fn wall_clock_registration_survives_generous_cleanup() {
    let mut reg = ServiceRegistry::new();
    reg.add_service("here".to_string(), pairs(&[("role", "worker")]));
    reg.cleanup(EXPIRY_THRESHOLD_MILLIS);
    let snap = reg.snapshot();
    assert_eq!(snap.len(), 1);
    assert_eq!(snap[0].0, "here");
    assert_eq!(snap[0].1, pairs(&[("role", "worker")]));
}

#[test]
fn sweeper_policy_constants() {
    assert_eq!(EXPIRY_THRESHOLD_MILLIS, 5 * 60 * 1000);
    assert_eq!(SWEEP_INTERVAL_SECS, 5);
}

#[test]
fn registration_order_does_not_matter() {
    let mut one = ServiceRegistry::new();
    one.register_at("x".to_string(), pairs(&[("a", "1")]), 7);
    one.register_at("y".to_string(), pairs(&[("b", "2")]), 9);
    let mut other = ServiceRegistry::new();
    other.register_at("y".to_string(), pairs(&[("b", "2")]), 9);
    other.register_at("x".to_string(), pairs(&[("a", "1")]), 7);
    assert_eq!(one.snapshot(), other.snapshot());
    assert_eq!(one.dump(), other.dump());
}
