use config_center::command::{ConfigContent, ConfigFormat, RaftCommand};
use config_center::store::{ApplyError, ConfigFilter, ConfigStore};

fn content(text: &str) -> ConfigContent {
    ConfigContent { format: ConfigFormat::Yaml, content: text.to_string(), is_encrypted: false }
}

fn create(name: &str, env: &str, ts: i64) -> RaftCommand {
    RaftCommand::CreateConfig {
        name: name.to_string(),
        namespace: "ns".to_string(),
        department: "dept".to_string(),
        application: "app".to_string(),
        environment: env.to_string(),
        description: None,
        content: content("k: v"),
        created_by: "alice".to_string(),
        timestamp: ts,
    }
}

fn update(id: u64, text: &str, ts: i64) -> RaftCommand {
    RaftCommand::UpdateConfig {
        id,
        description: Some("changed".to_string()),
        content: content(text),
        updated_by: "bob".to_string(),
        timestamp: ts,
    }
}

fn no_filter() -> ConfigFilter {
    ConfigFilter { namespace: None, department: None, application: None, environment: None }
}

#[test]
fn create_assigns_ids_and_version_one() {
    let mut s = ConfigStore::new();
    let a = s.apply(&create("a", "dev", 10)).unwrap();
    let b = s.apply(&create("b", "dev", 11)).unwrap();
    assert_eq!((a.id, a.version, a.created_at, a.updated_at), (1, 1, 10, 10));
    assert_eq!((b.id, b.version), (2, 1));
    assert_eq!(a.updated_by, "alice");
}

#[test]
fn create_same_scope_already_exists() {
    let mut s = ConfigStore::new();
    s.apply(&create("a", "dev", 1)).unwrap();
    assert_eq!(s.apply(&create("a", "dev", 2)).unwrap_err(), ApplyError::AlreadyExists);
    assert!(s.apply(&create("a", "prod", 3)).is_ok());
    assert_eq!(s.entities().len(), 2);
}

#[test]
fn update_bumps_version_and_replaces_content() {
    let mut s = ConfigStore::new();
    s.apply(&create("a", "dev", 1)).unwrap();
    let e = s.apply(&update(1, "k: w", 5)).unwrap();
    assert_eq!((e.version, e.updated_at, e.created_at), (2, 5, 1));
    assert_eq!(e.content.content, "k: w");
    assert_eq!(e.description, Some("changed".to_string()));
    assert_eq!(e.updated_by, "bob");
    assert_eq!(s.get(1).unwrap().version, 2);
}

#[test]
fn update_missing_is_not_found_and_changes_no_version() {
    let mut s = ConfigStore::new();
    s.apply(&create("a", "dev", 1)).unwrap();
    assert_eq!(s.apply(&update(7, "x", 2)).unwrap_err(), ApplyError::NotFound);
    assert_eq!(s.apply(&update(0, "x", 2)).unwrap_err(), ApplyError::NotFound);
    assert_eq!(s.get(1).unwrap().version, 1);
    assert_eq!(s.entities().len(), 1);
}

#[test]
fn delete_tombstones_and_frees_scope() {
    let mut s = ConfigStore::new();
    s.apply(&create("a", "dev", 1)).unwrap();
    let d = s.apply(&RaftCommand::DeleteConfig { id: 1 }).unwrap();
    assert!(d.deleted);
    assert_eq!(d.version, 2);
    assert!(s.get(1).is_none());
    assert_eq!(s.apply(&RaftCommand::DeleteConfig { id: 1 }).unwrap_err(), ApplyError::NotFound);
    assert_eq!(s.apply(&update(1, "x", 3)).unwrap_err(), ApplyError::NotFound);
    let again = s.apply(&create("a", "dev", 4)).unwrap();
    assert_eq!((again.id, again.version), (2, 1));
}

#[test]
fn same_commands_give_same_state() {
    let cmds = vec![create("a", "dev", 1), create("b", "dev", 2), update(1, "z", 3), RaftCommand::DeleteConfig { id: 2 }];
    let mut s1 = ConfigStore::new();
    let mut s2 = ConfigStore::new();
    let mut r1 = Vec::new();
    let mut r2 = Vec::new();
    for c in &cmds {
        r1.push(s1.apply(c).map(|e| (e.id, e.version, e.deleted)));
    }
    for c in &cmds {
        r2.push(s2.apply(c).map(|e| (e.id, e.version, e.deleted)));
    }
    assert_eq!(r1, r2);
    let v1: Vec<(u64, u64, bool)> = s1.entities().iter().map(|e| (e.id, e.version, e.deleted)).collect();
    let v2: Vec<(u64, u64, bool)> = s2.entities().iter().map(|e| (e.id, e.version, e.deleted)).collect();
    assert_eq!(v1, v2);
    assert_eq!(v1, vec![(1, 2, false), (2, 2, true)]);
}

#[test]
fn list_filters_and_pages() {
    let mut s = ConfigStore::new();
    for (i, n) in ["a", "b", "c", "d", "e"].iter().enumerate() {
        s.apply(&create(n, if i % 2 == 0 { "dev" } else { "prod" }, i as i64)).unwrap();
    }
    s.apply(&RaftCommand::DeleteConfig { id: 5 }).unwrap();
    let (page, total) = s.list(&no_filter(), 2, 1);
    assert_eq!(total, 4);
    assert_eq!(page.iter().map(|e| e.id).collect::<Vec<u64>>(), vec![1, 2]);
    let (page, _) = s.list(&no_filter(), 2, 2);
    assert_eq!(page.iter().map(|e| e.id).collect::<Vec<u64>>(), vec![3, 4]);
    let (page, _) = s.list(&no_filter(), 3, 2);
    assert_eq!(page.iter().map(|e| e.id).collect::<Vec<u64>>(), vec![4]);
    let (page, _) = s.list(&no_filter(), 2, 3);
    assert!(page.is_empty());
    let (page, _) = s.list(&no_filter(), 0, 1);
    assert!(page.is_empty());
    let dev = ConfigFilter { environment: Some("dev".to_string()), ..no_filter() };
    let (page, total) = s.list(&dev, 10, 1);
    assert_eq!(total, 2);
    assert_eq!(page.iter().map(|e| e.id).collect::<Vec<u64>>(), vec![1, 3]);
}
