use rae_core_rust::{InMemoryStorage, MemoryLayer, MemoryUpdate, StorageError};
use std::collections::HashMap;

#[test]
fn test_in_memory_storage_basic() {
    let mut storage = InMemoryStorage::new();
    let tenant_id = "test_tenant";
    let agent_id = "test_agent";
    let content = "Hello RAE";

    let id = storage
        .store_memory(
            tenant_id,
            agent_id,
            content,
            MemoryLayer::Sensory,
            1.0f32.to_bits(),
            vec!["test".to_string()],
            HashMap::new(),
            None,
        );

    let record = storage.get_memory(id, tenant_id);
    assert!(record.is_some());
    let record = record.unwrap();
    assert_eq!(record.content, content);
    assert_eq!(record.tenant_id, tenant_id);
    assert_eq!(record.agent_id, agent_id);
}

#[test]
fn test_tenant_isolation() {
    let mut storage = InMemoryStorage::new();
    let tenant1 = "tenant1";
    let tenant2 = "tenant2";

    let id = storage
        .store_memory(
            tenant1,
            "agent",
            "private content",
            MemoryLayer::Working,
            1.0f32.to_bits(),
            vec![],
            HashMap::new(),
            None,
        );

    let record_for_tenant2 = storage.get_memory(id, tenant2);
    assert!(record_for_tenant2.is_none());

    let record_for_tenant1 = storage.get_memory(id, tenant1);
    assert!(record_for_tenant1.is_some());
}

#[test]
fn test_concurrency_storage() {
    let storage = std::sync::Arc::new(std::sync::Mutex::new(InMemoryStorage::new()));
    let mut ids = vec![];
    for i in 0..100 {
        let id = storage.lock().unwrap().store_memory(
            "tenant",
            &format!("agent_{}", i),
            &format!("content_{}", i),
            MemoryLayer::Working,
            0.5f32.to_bits(),
            vec![],
            HashMap::new(),
            None,
        );
        ids.push(id);
    }
    let count = storage.lock().unwrap().count_memories("tenant", None, None);
    assert_eq!(count, 100);
    ids.sort();
    ids.dedup();
    assert_eq!(ids.len(), 100);
}

fn put(s: &mut InMemoryStorage, id: u128, tenant: &str, agent: &str, layer: MemoryLayer) {
    let r = s.insert_memory(id, 1000, tenant, agent, "c", layer, 0, vec![], HashMap::new(), None);
    assert_eq!(r, Ok(id));
}

#[test]
fn isolation_covers_update_and_delete() {
    let mut s = InMemoryStorage::new();
    put(&mut s, 1, "t1", "a", MemoryLayer::Working);
    let mut u = MemoryUpdate::none();
    u.content = Some("changed".to_string());
    assert!(!s.update_memory(1, "t2", u));
    assert!(!s.delete_memory(1, "t2"));
    let rec = s.get_memory(1, "t1").unwrap();
    assert_eq!(rec.content, "c");
    assert_eq!(rec.updated_at, 1000);
}

#[test]
fn list_pagination_and_filtering() {
    let mut s = InMemoryStorage::new();
    for i in 0..100u128 {
        put(&mut s, i, "t", "a", MemoryLayer::Working);
    }
    for i in 100..110u128 {
        put(&mut s, i, "t", "b", MemoryLayer::Working);
    }
    put(&mut s, 500, "t", "a", MemoryLayer::Episodic);
    put(&mut s, 501, "u", "a", MemoryLayer::Working);
    let page = s.list_memories("t", Some("a"), Some(MemoryLayer::Working), 20, 90);
    assert_eq!(page.len(), 10);
    let ids: Vec<u128> = page.iter().map(|r| r.id).collect();
    assert_eq!(ids, (90..100u128).collect::<Vec<u128>>());
    assert_eq!(s.count_memories("t", Some("a"), Some(MemoryLayer::Working)), 100);
    assert_eq!(s.count_memories("t", Some("b"), None), 10);
    assert_eq!(s.count_memories("t", None, None), 111);
    assert_eq!(s.count_memories("t", None, Some(MemoryLayer::Episodic)), 1);
    assert_eq!(s.list_memories("t", None, None, 3, 0).len(), 3);
    assert!(s.list_memories("t", None, None, 5, 1000).is_empty());
    assert!(s.list_memories("t", None, None, 0, 0).is_empty());
    assert!(s.list_memories("nobody", None, None, 10, 0).is_empty());
}

#[test]
fn insert_refuses_identifier_in_use() {
    let mut s = InMemoryStorage::new();
    put(&mut s, 7, "t1", "a", MemoryLayer::Working);
    let r = s.insert_memory(7, 5, "t2", "x", "other", MemoryLayer::Semantic, 0, vec![], HashMap::new(), None);
    assert_eq!(r, Err(StorageError::IdInUse));
    assert!(s.get_memory(7, "t2").is_none());
    assert_eq!(s.get_memory(7, "t1").unwrap().agent_id, "a");
}

#[test]
fn new_record_fields() {
    let mut s = InMemoryStorage::new();
    let r = s.insert_memory(
        3,
        42,
        "t",
        "a",
        "text",
        MemoryLayer::Reflective,
        2.5f32.to_bits(),
        vec!["x".to_string(), "y".to_string()],
        HashMap::new(),
        Some(99),
    );
    assert_eq!(r, Ok(3));
    let rec = s.get_memory(3, "t").unwrap();
    assert_eq!(rec.layer, MemoryLayer::Reflective);
    assert_eq!(f32::from_bits(rec.importance_bits), 2.5);
    assert_eq!(rec.tags, vec!["x".to_string(), "y".to_string()]);
    assert_eq!((rec.created_at, rec.updated_at), (42, 42));
    assert_eq!(rec.expires_at, Some(99));
    assert_eq!(rec.last_accessed_at, None);
    assert_eq!(rec.access_count, 0);
}

#[test]
fn update_applies_present_fields() {
    let mut s = InMemoryStorage::new();
    put(&mut s, 1, "t", "a", MemoryLayer::Working);
    let mut u = MemoryUpdate::none();
    u.content = Some("new".to_string());
    u.layer = Some(MemoryLayer::Semantic);
    u.expires_at = Some(Some(77));
    assert!(s.apply_memory_update(1, "t", u, 2000));
    let rec = s.get_memory(1, "t").unwrap();
    assert_eq!(rec.content, "new");
    assert_eq!(rec.layer, MemoryLayer::Semantic);
    assert_eq!(rec.agent_id, "a");
    assert_eq!(rec.expires_at, Some(77));
    assert_eq!(rec.created_at, 1000);
    assert_eq!(rec.updated_at, 2000);
    assert!(!s.apply_memory_update(2, "t", MemoryUpdate::none(), 3000));
}

#[test]
fn update_refreshes_time() {
    let mut s = InMemoryStorage::new();
    put(&mut s, 1, "t", "a", MemoryLayer::Working);
    assert!(s.update_memory(1, "t", MemoryUpdate::none()));
    let rec = s.get_memory(1, "t").unwrap();
    assert!(rec.updated_at > 1000);
    assert_eq!(rec.created_at, 1000);
}

#[test]
fn delete_removes_once() {
    let mut s = InMemoryStorage::new();
    put(&mut s, 1, "t", "a", MemoryLayer::Working);
    put(&mut s, 2, "t", "a", MemoryLayer::Working);
    assert!(s.delete_memory(1, "t"));
    assert!(!s.delete_memory(1, "t"));
    assert!(s.get_memory(1, "t").is_none());
    assert_eq!(s.count_memories("t", None, None), 1);
}

#[test]
fn returned_record_is_a_copy() {
    let mut s = InMemoryStorage::new();
    put(&mut s, 1, "t", "a", MemoryLayer::Working);
    let mut rec = s.get_memory(1, "t").unwrap();
    rec.content.push_str("!");
    assert_eq!(s.get_memory(1, "t").unwrap().content, "c");
    let dup = rec.duplicate();
    assert_eq!(dup.content, "c!");
}

#[test]
fn stored_identifiers_differ() {
    let mut s = InMemoryStorage::new();
    let a = s.store_memory("t", "a", "x", MemoryLayer::Working, 0, vec![], HashMap::new(), None);
    let b = s.store_memory("t", "a", "x", MemoryLayer::Working, 0, vec![], HashMap::new(), None);
    assert_ne!(a, b);
    assert_eq!(s.count_memories("t", None, None), 2);
}
