use coredata::error::CoreDataError;
use coredata::perms::{
    access_caller, check_storage_access, daemon_needed, daemon_request, daemon_verdict, enforce_access,
    enforce_owner_or_fail, ensure_storage_policy, frame, is_owner, response_len,
};
use coredata::value::{Table, Value};

fn denied_pair<T: std::fmt::Debug>(r: Result<T, CoreDataError>) -> (String, String) {
    match r {
        Err(CoreDataError::PermissionDenied { caller, owner }) => (caller, owner),
        other => panic!("unexpected {:?}", other),
    }
}

#[test]
fn owner_always_allowed_foreign_needs_daemon() {
    assert!(check_storage_access("org.a", "org.a", None).is_ok());
    assert!(check_storage_access("org.a", "org.a", Some(false)).is_ok());
    assert!(check_storage_access("org.a", "org.b", Some(true)).is_ok());
    assert_eq!(denied_pair(check_storage_access("org.a", "org.b", Some(false))), ("org.b".into(), "org.a".into()));
    assert_eq!(denied_pair(check_storage_access("org.a", "org.b", None)), ("org.b".into(), "org.a".into()));
    assert_eq!(access_caller(None), "unknown");
    assert_eq!(access_caller(Some("org.c")), "org.c");
    assert!(daemon_needed("org.a", "unknown"));
    assert!(!daemon_needed("org.a", "org.a"));
    ensure_storage_policy("org.a");
}

#[test]
fn owner_checks() {
    assert!(is_owner("org.a", Some("org.a")));
    assert!(!is_owner("org.a", Some("org.b")));
    assert!(!is_owner("org.a", None));
    assert!(enforce_access("org.a", true, false, Some("org.b")).is_ok());
    assert!(enforce_access("org.a", false, true, Some("org.b")).is_ok());
    assert!(enforce_access("org.a", false, false, None).is_ok());
    assert!(enforce_access("org.a", false, false, Some("org.a")).is_ok());
    assert_eq!(denied_pair(enforce_access("org.a", false, false, Some("org.b"))), ("org.b".into(), "org.a".into()));
    assert_eq!(denied_pair(enforce_owner_or_fail("org.a", false, Some("org.z"))), ("org.z".into(), "org.a".into()));
    assert!(enforce_owner_or_fail("org.a", true, Some("org.z")).is_ok());
    assert!(enforce_owner_or_fail("org.a", true, None).is_ok());
    assert!(enforce_owner_or_fail("org.a", false, Some("org.a")).is_ok());
    assert_eq!(denied_pair(enforce_owner_or_fail("org.a", false, None)), ("unknown".into(), "org.a".into()));
}

fn obj(entries: Vec<(&str, Value)>) -> Value {
    let mut t = Table::new();
    for (k, v) in entries {
        t.insert(k.to_string(), v);
    }
    Value::Table(t)
}

#[test]
fn daemon_answers() {
    assert!(!daemon_verdict(&obj(vec![("ok", Value::Bool(false))])));
    assert!(!daemon_verdict(&obj(vec![])));
    assert!(daemon_verdict(&obj(vec![("ok", Value::Bool(true))])));
    assert!(daemon_verdict(&obj(vec![("ok", Value::Bool(true)), ("result", Value::text("allowed"))])));
    assert!(!daemon_verdict(&obj(vec![("ok", Value::Bool(true)), ("result", Value::text("denied"))])));
    let state = obj(vec![("state", Value::text("denied"))]);
    assert!(!daemon_verdict(&obj(vec![("ok", Value::Bool(true)), ("result", state)])));
    let allowed = obj(vec![("allowed", Value::Bool(false))]);
    assert!(!daemon_verdict(&obj(vec![("ok", Value::Bool(true)), ("result", allowed)])));
    let other = obj(vec![("state", Value::Integer(1))]);
    assert!(daemon_verdict(&obj(vec![("ok", Value::Bool(true)), ("result", other)])));
}

#[test]
fn daemon_request_document() {
    let r = daemon_request("org.b", "org.a");
    let t = r.as_table().unwrap();
    assert_eq!(t.len(), 4);
    assert_eq!(t.get("v").unwrap().as_i64(), Some(1));
    assert_eq!(t.get("method").unwrap().as_str(), Some("check"));
    let p = t.get("params").unwrap().as_table().unwrap();
    assert_eq!(p.get("permission").unwrap().as_str(), Some("storage"));
    assert_eq!(p.get("app").unwrap().as_str(), Some("org.a"));
    assert_eq!(p.get("caller").unwrap().as_str(), Some("org.b"));
}

#[test]
fn framing() {
    assert_eq!(frame(b"abc"), vec![3, 0, 0, 0, b'a', b'b', b'c']);
    let big = vec![0u8; 300];
    assert_eq!(frame(&big)[..4], [44, 1, 0, 0]);
    assert_eq!(response_len(&[0, 0, 16, 0]), Some(1048576));
    assert_eq!(response_len(&[1, 0, 16, 0]), None);
    assert_eq!(response_len(&[5, 1, 0, 0]), Some(261));
}
