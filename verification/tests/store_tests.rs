use coredata::crypto::{encrypt, KeySource};
use coredata::entity::{AttributeDescription, AttributeType, EntityDescription, ManagedObject};
use coredata::error::CoreDataError;
use coredata::fetch::{FetchRequest, NumKey, Predicate, PredicateOperator};
use coredata::fico_store::{decode_id, encode_id, FicoStore};
use coredata::store::StoreType;
use coredata::value::Value;

fn num_key(s: &str) -> Option<NumKey> {
    let f: f64 = s.parse().ok()?;
    if f.is_nan() {
        return Some(NumKey::NotANumber);
    }
    let f = if f == 0.0 { 0.0 } else { f };
    let bits = f.to_bits();
    let k = if bits >> 63 == 1 { !bits } else { bits | (1u64 << 63) };
    Some(NumKey::Number(k))
}

fn show(v: &Value) -> String {
    format!("{:?}", v)
}

fn fetch(store: &FicoStore, req: &FetchRequest) -> Vec<ManagedObject> {
    req.apply(store.fetch_all(&req.entity), show, num_key)
}

/// What saving and loading again gives: a new store with the saved document installed.
fn reload(store: &FicoStore) -> FicoStore {
    let doc = store.document();
    let mut again = FicoStore::new(store.bundle_id(), "/prefs");
    again.install(doc.as_table().unwrap());
    again
}

#[test]
fn fico_roundtrip() {
    let mut store = FicoStore::new("org.test.fico", "/prefs");
    let mut obj = ManagedObject::new("Note");
    obj.set("title", Value::text("Hello"));
    obj.set("count", Value::Integer(42));
    store.insert(obj.clone());

    let store2 = reload(&store);
    let fetched = store2.fetch_all("Note");
    assert_eq!(fetched.len(), 1);
    assert_eq!(fetched[0].get_str("title"), Some("Hello"));
    assert_eq!(fetched[0].get_i64("count"), Some(42));
}

#[test]
fn fico_fetch_predicate() {
    let mut store = FicoStore::new("org.test.fico", "/prefs");
    let mut a = ManagedObject::new("Person");
    a.set("name", Value::text("Alice"));
    a.set("age", Value::Integer(30));
    let mut b = ManagedObject::new("Person");
    b.set("name", Value::text("Bob"));
    b.set("age", Value::Integer(20));
    store.insert(a);
    store.insert(b);

    let store2 = reload(&store);
    let req = FetchRequest::new("Person").predicate(Predicate::new("age", PredicateOperator::GreaterThan, "25"));
    let res = fetch(&store2, &req);
    assert_eq!(res.len(), 1);
    assert_eq!(res[0].get_str("name"), Some("Alice"));
}

#[test]
fn fico_rewrite_cycle_has_no_duplicates() {
    let mut store = FicoStore::new("org.test.rewrite.nodupes", "/prefs");
    for name in ["Tokyo", "Berlin", "New York"] {
        let mut o = ManagedObject::new("SavedPlace");
        o.set("name", Value::text(name));
        store.save_object(o);
    }
    let mut store = reload(&store);
    let ids: Vec<String> = store.fetch_all("SavedPlace").iter().map(|o| o.object_id.clone()).collect();
    assert_eq!(ids.len(), 3);
    for id in ids {
        store.delete(&id).unwrap();
    }
    for name in ["Tokyo", "Berlin", "New York", "Paris"] {
        let mut o = ManagedObject::new("SavedPlace");
        o.set("name", Value::text(name));
        store.save_object(o);
    }
    assert_eq!(store.fetch_all("SavedPlace").len(), 4);
    let store2 = reload(&store);
    let all = store2.fetch_all("SavedPlace");
    assert_eq!(all.len(), 4);
}

#[test]
fn saved_document_layout() {
    let mut store = FicoStore::new("org.x", "/prefs");
    let mut o = ManagedObject::with_id("Note", "123");
    o.set("title", Value::text("Hi"));
    store.insert(o);
    let mut gone = ManagedObject::with_id("Note", "456");
    gone.mark_deleted();
    store.insert(gone);
    let doc = store.document();
    let root = doc.as_table().unwrap();
    assert_eq!(root.len(), 1);
    let notes = root.get("Note").unwrap().as_table().unwrap();
    assert_eq!(notes.len(), 1);
    let row = notes.get("id_123").unwrap().as_table().unwrap();
    assert_eq!(row.get("object_id").unwrap().as_str(), Some("123"));
    assert_eq!(row.get("entity").unwrap().as_str(), Some("Note"));
    assert_eq!(row.get("rev").unwrap().as_i64(), Some(2));
    assert_eq!(row.get("deleted").unwrap().as_bool(), Some(false));
    assert_eq!(row.get("title").unwrap().as_str(), Some("Hi"));
}

#[test]
fn update_delete_object_errors() {
    let mut store = FicoStore::new("org.x", "/prefs");
    let o = ManagedObject::with_id("Task", "t1");
    match store.update(o.clone()) {
        Err(CoreDataError::NotFound(m)) => assert_eq!(m, "t1"),
        other => panic!("unexpected {:?}", other),
    }
    assert_eq!(store.document().as_table().unwrap().len(), 1);
    store.insert(o);
    let mut changed = ManagedObject::with_id("Task", "t1");
    changed.set("done", Value::Bool(true));
    store.update(changed).unwrap();
    assert_eq!(store.object("Task", "t1").unwrap().get_bool("done"), Some(true));
    match store.delete("nope") {
        Err(CoreDataError::NotFound(m)) => assert_eq!(m, "nope"),
        other => panic!("unexpected {:?}", other),
    }
    store.delete("t1").unwrap();
    assert!(store.fetch_all("Task").is_empty());
    match store.object("Task", "t1") {
        Err(CoreDataError::NotFound(m)) => assert_eq!(m, "t1"),
        other => panic!("unexpected {:?}", other.map(|o| o.object_id)),
    }
}

#[test]
fn insert_new_and_paths() {
    let mut store = FicoStore::new("org.x", "/prefs");
    assert_eq!(store.path(), "/prefs/org.x/storage.fico");
    assert!(!store.is_loaded());
    let o = store.insert_new("Book");
    assert_eq!(o.object_id.len(), 36);
    assert_eq!(o.rev, 1);
    assert_eq!(store.fetch_all("Book").len(), 1);
    store.reset();
    assert!(store.is_loaded());
    assert!(store.fetch_all("Book").is_empty());
    let w = FicoStore::with_path("org.y", "/tmp/s.fico");
    assert_eq!(w.bundle_id(), "org.y");
    assert_eq!(w.path(), "/tmp/s.fico");
}

#[test]
fn id_encoding() {
    assert_eq!(encode_id("9f0e"), "id_9f0e");
    assert_eq!(decode_id("id_9f0e"), "9f0e");
    assert_eq!(decode_id("plain"), "plain");
    assert_eq!(decode_id(&encode_id("id_x")), "id_x");
}

#[test]
fn store_types() {
    assert_eq!(StoreType::Fico.as_str(), "fico");
    assert_eq!(StoreType::SQLite.as_str(), "sqlite");
    assert_eq!(StoreType::from_name("FishFile"), Ok(StoreType::Fico));
    assert_eq!(StoreType::from_name("SQLITE3"), Ok(StoreType::SQLite));
    assert_eq!(StoreType::from_name("Redis"), Err("unknown store type: redis".to_string()));
}

#[test]
fn entity_descriptions() {
    let d = EntityDescription::new("Note").with_attribute(AttributeDescription {
        name: "title".to_string(),
        attribute_type: AttributeType::String,
        optional: false,
        default_value: Some(Value::text("")),
    });
    assert_eq!(d.name, "Note");
    assert_eq!(d.attributes.len(), 1);
    assert_eq!(d.attributes[0].attribute_type, AttributeType::String);
}

#[test]
fn container_fico_flow() {
    let mut store = FicoStore::new("org.test.container", "/prefs");
    let mut obj = ManagedObject::new("Note");
    obj.set("title", Value::text("from ctx"));
    store.save_object(obj.clone());
    let fetched = store.fetch_all("Note");
    assert_eq!(fetched.len(), 1);
    assert_eq!(fetched[0].get_str("title"), Some("from ctx"));
    // Saving the same object again updates it in place.
    obj.set("title", Value::text("again"));
    store.save_object(obj);
    let fetched = store.fetch_all("Note");
    assert_eq!(fetched.len(), 1);
    assert_eq!(fetched[0].get_str("title"), Some("again"));
}

#[test]
fn fico_container_persist() {
    let mut store = FicoStore::new("org.test.integration.fico", "/prefs");
    let mut o = ManagedObject::new("Book");
    o.set("title", Value::text("Rust"));
    o.set("pages", Value::Integer(300));
    store.save_object(o);
    let store2 = reload(&store);
    let books = store2.fetch_all("Book");
    assert_eq!(books.len(), 1);
    assert_eq!(books[0].get_str("title"), Some("Rust"));
}

#[test]
fn fico_encrypted_on_disk() {
    let mut store = FicoStore::new("org.test.fico", "/prefs");
    let mut obj = ManagedObject::new("Secret");
    obj.set("data", Value::text("top secret"));
    store.insert(obj);
    let text = format!("{:?}", store.document());
    assert!(text.contains("top secret"));
    let source = KeySource::RawHex("11".repeat(32));
    let raw = encrypt(text.as_bytes(), "org.test.fico", &source).unwrap();
    assert!(!raw.windows(10).any(|w| w == b"top secret"));
    assert!(raw.starts_with(b"CDF1"));
}

#[test]
fn deleted_objects_are_not_fetched() {
    let mut store = FicoStore::new("org.x", "/prefs");
    let a = ManagedObject::with_id("Item", "a");
    let b = ManagedObject::with_id("Item", "b");
    store.insert(a);
    store.insert(b);
    store.delete("a").unwrap();
    let ids: Vec<String> = store.fetch_all("Item").iter().map(|o| o.object_id.clone()).collect();
    assert_eq!(ids, vec!["b".to_string()]);
}
