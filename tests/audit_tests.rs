use config_center::audit::{admits, MemoryAudit};
use config_center::types::{AuditFilter, AuditLog, AuditService};

fn log(id: &str, user: &str, action: &str, resource: &str, details: &str, timestamp: i64) -> AuditLog {
    AuditLog {
        id: id.to_string(),
        user: user.to_string(),
        action: action.to_string(),
        resource: resource.to_string(),
        details: details.to_string(),
        timestamp,
    }
}

fn any() -> AuditFilter {
    AuditFilter { user: None, action: None, resource: None, start_time: None, end_time: None }
}

#[test]
fn test_audit_logging() {
    let mut audit = MemoryAudit::new();
    let event = log("1", "test_user", "create", "config", "{\"key\":\"value\"}", 100);
    assert!(audit.record(event).is_ok());
    assert_eq!(audit.select(&any()).len(), 1);
}

#[test]
fn test_audit_query() {
    let mut audit = MemoryAudit::new();
    let events = vec![
        log("1", "user1", "create", "config1", "{\"key\":\"value1\"}", 100),
        log("2", "user2", "update", "config2", "{\"key\":\"value2\"}", 101),
    ];
    for event in events {
        audit.record(event).unwrap();
    }
    let filter = AuditFilter { user: Some("user1".to_string()), ..any() };
    let (results, total) = audit.get_logs(&filter, 10, 1).unwrap();
    assert_eq!(results.len(), 1);
    assert_eq!(total, 1);
    assert_eq!(results[0].user, "user1");
}

#[test]
fn audit_selects_newest_first_within_bounds() {
    let mut audit = MemoryAudit::new();
    for t in 0..5 {
        audit.push(log(&t.to_string(), "u", "update", "config", "", 10 * t));
    }
    let all: Vec<String> = audit.select(&any()).iter().map(|l| l.id.clone()).collect();
    assert_eq!(all, vec!["4", "3", "2", "1", "0"]);
    let window = AuditFilter { start_time: Some(10), end_time: Some(30), ..any() };
    let ids: Vec<String> = audit.select(&window).iter().map(|l| l.id.clone()).collect();
    assert_eq!(ids, vec!["3", "2", "1"]);
    let (page, total) = audit.get_logs(&any(), 2, 2).unwrap();
    assert_eq!(total, 5);
    assert_eq!(page.iter().map(|l| l.id.clone()).collect::<Vec<String>>(), vec!["2", "1"]);
    let (page, _) = audit.get_logs(&any(), 2, 4).unwrap();
    assert!(page.is_empty());
    assert!(!admits(&log("9", "u", "delete", "config", "", 0), &AuditFilter { action: Some("update".to_string()), ..any() }));
}

#[test]
fn audit_orders_by_time_not_by_recording() {
    let mut audit = MemoryAudit::new();
    audit.push(log("a", "u", "update", "config", "", 20));
    audit.push(log("b", "u", "update", "config", "", 40));
    audit.push(log("c", "u", "update", "config", "", 10));
    audit.push(log("d", "u", "update", "config", "", 40));
    let ids: Vec<String> = audit.select(&any()).iter().map(|l| l.id.clone()).collect();
    assert_eq!(ids, vec!["b", "d", "a", "c"]);
    let (page, total) = audit.query(&any(), 3, 1);
    assert_eq!(total, 4);
    assert_eq!(page.iter().map(|l| l.id.clone()).collect::<Vec<String>>(), vec!["b", "d", "a"]);
}
