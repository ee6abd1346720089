use audit_registry::registry::AuditRegistry;
use audit_registry::types::{Address, ContentHash, RegistryError};

fn hash(b: u8) -> ContentHash {
    ContentHash::new([b; 32])
}

fn addr(b: u8) -> Address {
    Address::new([b; 32])
}

#[test]
fn register_then_latest_and_total() {
    let mut r = AuditRegistry::init(addr(1));
    let h1 = hash(10);
    let a = addr(0xA);
    let ev = r
        .register_audit(h1, 4, "ok".to_string(), a, 100)
        .expect("valid registration succeeds");
    assert_eq!(ev.stars, 4);
    let latest = r.get_latest_audit(&h1).expect("audited hash has a latest audit");
    assert_eq!(latest.stars, 4);
    assert_eq!(latest.summary, "ok");
    assert!(latest.auditor == a);
    assert_eq!(latest.timestamp, 100);
    assert_eq!(r.get_total_contracts(), 1);
}

#[test]
fn second_audit_appends_and_keeps_indexes() {
    let mut r = AuditRegistry::init(addr(1));
    let h1 = hash(10);
    let a = addr(0xA);
    r.register_audit(h1, 4, "ok".to_string(), a, 100).unwrap();
    r.register_audit(h1, 2, "second".to_string(), a, 200).unwrap();
    let audits = r.get_contract_audits(&h1);
    assert_eq!(audits.len(), 2);
    assert_eq!(audits[0].stars, 4);
    assert_eq!(audits[0].summary, "ok");
    assert_eq!(audits[0].timestamp, 100);
    assert_eq!(audits[1].stars, 2);
    assert_eq!(audits[1].summary, "second");
    assert_eq!(audits[1].timestamp, 200);
    assert_eq!(r.get_total_contracts(), 1);
    let history = r.get_auditor_history(&a);
    assert_eq!(history.len(), 1);
    assert!(history[0] == h1);
}

#[test]
fn pagination_lists_latest_per_hash_in_first_audit_order() {
    let mut r = AuditRegistry::init(addr(1));
    let h1 = hash(10);
    let h2 = hash(20);
    let a = addr(0xA);
    let b = addr(0xB);
    r.register_audit(h1, 4, "ok".to_string(), a, 100).unwrap();
    r.register_audit(h1, 2, "second".to_string(), a, 200).unwrap();
    r.register_audit(h2, 5, "great".to_string(), b, 300).unwrap();
    let rows = r.get_all_audits(0, 10).expect("start index in range");
    assert_eq!(rows.len(), 2);
    assert!(rows[0].hash == h1);
    assert_eq!(rows[0].stars, 2);
    assert_eq!(rows[0].summary, "second");
    assert!(rows[0].auditor == a);
    assert_eq!(rows[0].timestamp, 200);
    assert!(rows[1].hash == h2);
    assert_eq!(rows[1].stars, 5);
    assert_eq!(rows[1].summary, "great");
    assert!(rows[1].auditor == b);
    assert_eq!(rows[1].timestamp, 300);
    assert_eq!(r.get_total_contracts(), 2);
}

#[test]
fn invalid_rating_rejected_without_mutation() {
    let mut r = AuditRegistry::init(addr(1));
    r.register_audit(hash(10), 4, "ok".to_string(), addr(0xA), 100).unwrap();
    r.register_audit(hash(20), 5, "great".to_string(), addr(0xB), 300).unwrap();
    let res = r.register_audit(hash(30), 7, "x".to_string(), addr(0xC), 400);
    assert_eq!(res.unwrap_err(), RegistryError::RatingOutOfRange);
    assert_eq!(r.get_total_contracts(), 2);
    assert_eq!(r.get_contract_audits(&hash(30)).len(), 0);
    assert_eq!(r.get_auditor_history(&addr(0xC)).len(), 0);
}

#[test]
fn pagination_start_index_out_of_bounds() {
    let mut r = AuditRegistry::init(addr(1));
    r.register_audit(hash(10), 4, "ok".to_string(), addr(0xA), 100).unwrap();
    r.register_audit(hash(20), 5, "great".to_string(), addr(0xB), 300).unwrap();
    assert_eq!(r.get_all_audits(5, 10).unwrap_err(), RegistryError::IndexOutOfBounds);
    assert_eq!(r.get_all_audits(2, 10).unwrap_err(), RegistryError::IndexOutOfBounds);
}

#[test]
fn pagination_on_empty_registry_fails() {
    let r = AuditRegistry::init(addr(1));
    assert_eq!(r.get_all_audits(0, 10).unwrap_err(), RegistryError::IndexOutOfBounds);
}

#[test]
fn zero_limit_returns_empty_page() {
    let mut r = AuditRegistry::init(addr(1));
    r.register_audit(hash(10), 4, "ok".to_string(), addr(0xA), 100).unwrap();
    let rows = r.get_all_audits(0, 0).expect("zero limit clamps without error");
    assert_eq!(rows.len(), 0);
}

#[test]
fn pagination_second_page() {
    let mut r = AuditRegistry::init(addr(1));
    r.register_audit(hash(10), 4, "ok".to_string(), addr(0xA), 100).unwrap();
    r.register_audit(hash(20), 5, "great".to_string(), addr(0xB), 300).unwrap();
    let rows = r.get_all_audits(1, 10).unwrap();
    assert_eq!(rows.len(), 1);
    assert!(rows[0].hash == hash(20));
}

#[test]
fn unknown_auditor_history_is_empty() {
    let mut r = AuditRegistry::init(addr(1));
    r.register_audit(hash(10), 4, "ok".to_string(), addr(0xA), 100).unwrap();
    let history = r.get_auditor_history(&addr(0xD));
    assert_eq!(history.len(), 0);
}

#[test]
fn latest_audit_of_unaudited_hash_not_found() {
    let r = AuditRegistry::init(addr(1));
    assert_eq!(r.get_latest_audit(&hash(10)).unwrap_err(), RegistryError::NotFound);
}

#[test]
fn contract_audits_of_unaudited_hash_is_empty() {
    let r = AuditRegistry::init(addr(1));
    assert_eq!(r.get_contract_audits(&hash(10)).len(), 0);
}

#[test]
fn rating_boundaries() {
    let mut r = AuditRegistry::init(addr(1));
    assert!(r.register_audit(hash(10), 0, "low".to_string(), addr(0xA), 1).is_ok());
    assert!(r.register_audit(hash(20), 5, "high".to_string(), addr(0xA), 2).is_ok());
    let res = r.register_audit(hash(30), 6, "over".to_string(), addr(0xA), 3);
    assert_eq!(res.unwrap_err(), RegistryError::RatingOutOfRange);
}

#[test]
fn summary_boundaries() {
    let mut r = AuditRegistry::init(addr(1));
    let exactly_500 = "a".repeat(500);
    assert!(r.register_audit(hash(10), 3, exactly_500, addr(0xA), 1).is_ok());
    let over_500 = "a".repeat(501);
    let res = r.register_audit(hash(20), 3, over_500, addr(0xA), 2);
    assert_eq!(res.unwrap_err(), RegistryError::SummaryInvalid);
    let res = r.register_audit(hash(30), 3, String::new(), addr(0xA), 3);
    assert_eq!(res.unwrap_err(), RegistryError::SummaryInvalid);
    assert_eq!(r.get_total_contracts(), 1);
}

#[test]
fn reregistration_appends_but_keeps_indexes() {
    let mut r = AuditRegistry::init(addr(1));
    let h1 = hash(10);
    let a = addr(0xA);
    r.register_audit(h1, 4, "same".to_string(), a, 100).unwrap();
    r.register_audit(h1, 4, "same".to_string(), a, 200).unwrap();
    assert_eq!(r.get_contract_audits(&h1).len(), 2);
    assert_eq!(r.get_total_contracts(), 1);
    assert_eq!(r.get_auditor_history(&a).len(), 1);
}

#[test]
fn withdraw_is_owner_gated() {
    let owner = addr(1);
    let r = AuditRegistry::init(owner);
    assert!(r.owner() == owner);
    assert!(r.withdraw(&addr(1)).is_ok());
    assert_eq!(r.withdraw(&addr(2)).unwrap_err(), RegistryError::Unauthorized);
}

#[test]
fn registration_event_carries_registered_fields() {
    let mut r = AuditRegistry::init(addr(1));
    let h1 = hash(10);
    let a = addr(0xA);
    let ev = r.register_audit(h1, 4, "ok".to_string(), a, 100).unwrap();
    assert!(ev.hash == h1);
    assert_eq!(ev.stars, 4);
    assert_eq!(ev.summary, "ok");
    assert!(ev.auditor == a);
    assert_eq!(ev.timestamp, 100);
}
