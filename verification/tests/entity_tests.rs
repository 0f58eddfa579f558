use coredata::entity::{ManagedObject, Timestamp};
use coredata::value::{Table, Value};

#[test]
fn set_get_remove_bump_revision() {
    let mut obj = ManagedObject::new("Note");
    assert_eq!(obj.rev, 1);
    assert!(!obj.deleted);
    obj.set("title", Value::text("Hello"));
    obj.set("count", Value::Integer(42));
    assert_eq!(obj.rev, 3);
    assert_eq!(obj.get_str("title"), Some("Hello"));
    assert_eq!(obj.get_i64("count"), Some(42));
    assert_eq!(obj.get_bool("title"), None);
    assert!(obj.contains("count"));
    assert!(obj.remove("missing").is_none());
    assert_eq!(obj.rev, 3);
    assert_eq!(obj.remove("count").unwrap().as_i64(), Some(42));
    assert_eq!(obj.rev, 4);
    assert!(!obj.contains("count"));
    obj.mark_deleted();
    assert!(obj.deleted);
    assert_eq!(obj.rev, 5);
}

#[test]
fn wrapping_revision() {
    let mut obj = ManagedObject::with_id("Note", "x");
    obj.rev = u64::MAX;
    obj.set("a", Value::Null);
    assert_eq!(obj.rev, 0);
}

#[test]
fn fish_value_roundtrip() {
    let mut obj = ManagedObject::with_id("Note", "abc");
    obj.set("title", Value::text("Hi"));
    obj.set("n", Value::Float("1.5".to_string()));
    obj.mark_deleted();
    let v = obj.to_fish_value();
    let back = ManagedObject::from_fish_value("Note", "abc", &v).unwrap();
    assert_eq!(back.object_id, "abc");
    assert_eq!(back.entity, "Note");
    assert_eq!(back.rev, obj.rev);
    assert!(back.deleted);
    assert_eq!(back.get_str("title"), Some("Hi"));
    assert_eq!(back.updated_at.to_rfc3339(), obj.updated_at.to_rfc3339());
    assert_eq!(back.values.len(), 2);
}

#[test]
fn from_fish_value_defaults_and_hints() {
    let mut t = Table::new();
    t.insert("object_id".to_string(), Value::text("real-id"));
    t.insert("entity".to_string(), Value::text("Other"));
    t.insert("rev".to_string(), Value::text("not a number"));
    t.insert("deleted".to_string(), Value::Integer(1));
    t.insert("x".to_string(), Value::Integer(7));
    let o = ManagedObject::from_fish_value("Hint", "key-id", &Value::Table(t)).unwrap();
    assert_eq!(o.object_id, "real-id");
    assert_eq!(o.entity, "Hint");
    assert_eq!(o.rev, 1);
    assert!(!o.deleted);
    assert_eq!(o.get_i64("x"), Some(7));
    assert!(ManagedObject::from_fish_value("Hint", "k", &Value::Integer(3)).is_none());
    let mut neg = Table::new();
    neg.insert("rev".to_string(), Value::Integer(-1));
    let n = ManagedObject::from_fish_value("Hint", "k", &Value::Table(neg)).unwrap();
    assert_eq!(n.rev, u64::MAX);
    assert_eq!(n.object_id, "k");
}

#[test]
fn time_text_roundtrip() {
    let t = Timestamp::parse("2026-08-26T10:00:00+00:00").unwrap();
    assert_eq!(t.to_rfc3339(), "2026-08-26T10:00:00+00:00");
    assert!(Timestamp::parse("yesterday").is_none());
    let now = Timestamp::now();
    assert_eq!(Timestamp::parse(&now.to_rfc3339()).unwrap().to_rfc3339(), now.to_rfc3339());
}
