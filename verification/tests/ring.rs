//! Behavioural tests for the consistent-hashing ring.

use hashring::{Config, Ring};

#[test]
fn ring_add() {
    let mut r = Ring::new(Default::default());
    r.add("1.1.1.1");

    assert_eq!(r.replication_factor(), r.position_count() as u64);
}

#[test]
fn ring_get() {
    let mut r = Ring::new(Default::default());
    r.add("1.1.1.1");
    let host = r.get("1.1.1.1");

    assert!(host.is_some());
    assert_eq!("1.1.1.1", host.unwrap());
}

#[test]
fn ring_remove() {
    let mut r = Ring::new(Default::default());
    r.add("1.1.1.1");
    r.remove("1.1.1.1");

    assert!(r.position_count() == 0);
    assert!(r.hosts().is_empty());
}

#[test]
fn empty_ring_lookups_are_absent() {
    let mut r = Ring::new(Default::default());
    assert!(r.get("anything").is_none());
    assert!(r.get_least("anything").is_none());
    // an unknown name leaves the load accounting untouched
    assert!(!r.set_load("ghost", 5));
    assert!(!r.inc_load("ghost"));
    assert!(!r.decr_load("ghost"));
}

#[test]
fn add_is_idempotent() {
    let mut r = Ring::new(Default::default());
    r.add("1.1.1.1");
    let positions = r.position_count();
    let hosts = r.hosts().len();
    r.add("1.1.1.1");
    assert_eq!(positions, r.position_count());
    assert_eq!(hosts, r.hosts().len());
}

#[test]
fn add_places_replication_factor_positions() {
    let mut r = Ring::new(Config {
        replication_factor: 4,
        load_factor_num: 125,
        load_factor_den: 100,
    });
    r.add("a");
    assert_eq!(r.position_count(), 4);
    r.add("b");
    assert_eq!(r.position_count(), 8);
    r.remove("a");
    assert_eq!(r.position_count(), 4);
    let names = r.hosts();
    assert_eq!(names, vec!["b".to_string()]);
}

#[test]
fn get_is_deterministic() {
    let mut r = Ring::new(Default::default());
    r.add("1.1.1.1");
    r.add("2.2.2.2");
    r.add("3.3.3.3");
    for key in ["8.8.8.8", "/foo", "/bar", "a"] {
        let first = r.get(key);
        for _ in 0..3 {
            assert_eq!(first, r.get(key));
        }
    }
    // a second ring with the same topology routes identically
    let mut r2 = Ring::new(Default::default());
    r2.add("1.1.1.1");
    r2.add("2.2.2.2");
    r2.add("3.3.3.3");
    for key in ["8.8.8.8", "/foo", "/bar", "a"] {
        assert_eq!(r.get(key), r2.get(key));
    }
}

#[test]
fn end_to_end_scenario() {
    let mut r = Ring::new(Default::default());
    assert_eq!(r.replication_factor(), 10);
    r.add("1.1.1.1");
    r.add("2.2.2.2");
    r.add("3.3.3.3");
    let names = ["1.1.1.1", "2.2.2.2", "3.3.3.3"];
    let keys = ["1.1.1.1", "8.8.8.8", "/foo", "/bar"];
    let mut before = Vec::new();
    for key in keys {
        let host = r.get(key).expect("three hosts are registered");
        assert!(names.contains(&host.as_str()));
        before.push(host);
    }
    r.remove("2.2.2.2");
    for (key, earlier) in keys.iter().zip(before.iter()) {
        let host = r.get(key).expect("two hosts are registered");
        assert_ne!(host, "2.2.2.2");
        if earlier != "2.2.2.2" {
            // keys whose winner was unaffected keep their host
            assert_eq!(&host, earlier);
        }
    }
}

#[test]
fn avg_load_formula() {
    let mut r = Ring::new(Default::default());
    // an empty arena divides by one: ceil(1 * 1.25) = 2
    assert_eq!(r.avg_load(), 2);
    r.add("a");
    // one idle host: ceil((0 + 1) / 1 * 1.25) = 2
    assert_eq!(r.avg_load(), 2);
    assert!(r.set_load("a", 7));
    // ceil((7 + 1) / 1 * 1.25) = 10
    assert_eq!(r.avg_load(), 10);
    r.add("b");
    // ceil((7 + 1) / 2 * 1.25) = 5
    assert_eq!(r.avg_load(), 5);
}

#[test]
fn load_accounting() {
    let mut r = Ring::new(Default::default());
    r.add("a");
    assert!(r.inc_load("a"));
    assert!(r.inc_load("a"));
    assert!(r.decr_load("a"));
    assert!(r.decr_load("a"));
    // a load already at zero stays there
    assert!(!r.decr_load("a"));
    assert_eq!(r.avg_load(), 2);
    assert!(r.set_load("a", 3));
    // ceil((3 + 1) * 1.25) = 5
    assert_eq!(r.avg_load(), 5);
    assert!(r.set_load("a", 0));
    assert_eq!(r.avg_load(), 2);
}

#[test]
fn get_least_skips_saturated_host() {
    let mut r = Ring::new(Default::default());
    r.add("a");
    r.add("b");
    assert!(r.set_load("a", 100));
    // cap = ceil((100 + 1) / 2 * 1.25) = 64, so "a" (101 > 64) never wins
    for key in ["x", "y", "z", "/foo", "/bar", "8.8.8.8"] {
        assert_eq!(r.get_least(key), Some("b".to_string()));
    }
}

#[test]
fn bounded_load_over_interleaved_increments() {
    let mut r = Ring::new(Default::default());
    r.add("1.1.1.1");
    r.add("2.2.2.2");
    r.add("3.3.3.3");
    let mut loads = std::collections::BTreeMap::new();
    for i in 0..30 {
        let key = format!("request-{}", i);
        let cap = r.avg_load();
        let host = r.get_least(&key).expect("hosts are registered");
        let entry = loads.entry(host.clone()).or_insert(0u64);
        // the chosen host's incremented load stays within the cap
        assert!(*entry + 1 <= cap);
        *entry += 1;
        assert!(r.inc_load(&host));
    }
}

#[test]
fn short_names_hash_fine() {
    let mut r = Ring::new(Default::default());
    r.add("a");
    assert_eq!(r.get("k"), Some("a".to_string()));
    assert_eq!(r.get_least("k"), Some("a".to_string()));
}
