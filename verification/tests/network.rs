use accum::network::{AttackDetection, DDoSProtection};

#[test]
fn a_hundred_requests_a_minute() {
    let mut p = DDoSProtection::new_at(0);
    let addr = [1u8; 27];
    for _ in 0..100 {
        assert!(p.check_rate_limit_at(addr, 10));
    }
    assert!(!p.check_rate_limit_at(addr, 10));
    assert!(p.is_banned(&addr));
    assert!(!p.check_rate_limit_at(addr, 100_000));
    assert!(!p.check_connection_limit_at(addr, 100_000));
    p.whitelist_ip(addr);
    assert!(p.check_rate_limit_at(addr, 100_000));
}

#[test]
fn fewer_requests_under_attack() {
    let mut p = DDoSProtection::new_at(0);
    p.enable_attack_mode();
    let addr = [1u8; 27];
    for _ in 0..10 {
        assert!(p.check_rate_limit_at(addr, 10));
    }
    assert!(!p.check_rate_limit_at(addr, 10));
    p.disable_attack_mode();
    assert!(!p.attack_mode);
}

#[test]
fn fifty_connections_a_minute() {
    let mut p = DDoSProtection::new_at(0);
    let addr = [1u8; 27];
    for _ in 0..50 {
        assert!(p.check_connection_limit_at(addr, 10));
    }
    assert!(!p.check_connection_limit_at(addr, 70));
    assert!(p.check_connection_limit_at(addr, 71));
    assert!(!p.is_banned(&addr));
    p.blacklist_ip(addr);
    assert!(p.is_banned(&addr));
}

#[test]
fn failures_ban() {
    let mut p = DDoSProtection::new_at(0);
    let addr = [1u8; 27];
    assert!(p.check_connection_limit_at(addr, 10));
    for _ in 0..10 {
        p.record_failure(addr);
    }
    assert!(!p.is_banned(&addr));
    p.record_failure(addr);
    assert!(p.is_banned(&addr));
}

#[test]
fn signs_of_an_attack() {
    let mut d = AttackDetection::new();
    assert!(!d.detect_51_percent_attack_at(100, true, 5));
    for _ in 0..50 {
        d.record_block_interval_at(17, 5);
    }
    assert!(d.detect_51_percent_attack_at(101, false, 5));
    assert_eq!(d.attack_type, Some("block_time_anomaly".to_string()));
    assert_eq!(d.detection_time, Some(5));
    assert!(d.detect_51_percent_attack_at(101, true, 6));
    assert_eq!(d.attack_type, Some("hash_rate_spike".to_string()));
    d.mark_peer_suspicious([3; 32]);
    assert!(d.is_peer_suspicious(&[3; 32]));
    d.clear();
    assert!(!d.attack_detected);
}

#[test]
fn blocks_in_time_are_no_attack() {
    let mut d = AttackDetection::new();
    for _ in 0..50 {
        d.record_block_interval_at(18, 5);
    }
    assert!(!d.detect_51_percent_attack_at(101, false, 5));
}
