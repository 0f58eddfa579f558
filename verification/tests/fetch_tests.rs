use coredata::entity::ManagedObject;
use coredata::error::CoreDataError;
use coredata::fetch::{FetchRequest, NumKey, Predicate, PredicateOperator, SortDescriptor, SortKey};
use coredata::value::Table;
use coredata::value::Value;

/// The numeric reading of a text, as the predicates and sorting compare it.
fn num_key(s: &str) -> Option<NumKey> {
    let f: f64 = s.parse().ok()?;
    if f.is_nan() {
        return Some(NumKey::NotANumber);
    }
    let f = if f == 0.0 { 0.0 } else { f };
    let bits = f.to_bits();
    let k = if bits >> 63 == 1 { !bits } else { bits | (1u64 << 63) };
    Some(NumKey::Number(k))
}

fn show(v: &Value) -> String {
    format!("{:?}", v)
}

fn evaluate(p: &Predicate, o: &ManagedObject) -> bool {
    p.evaluate(o, show, num_key)
}

fn apply(req: &FetchRequest, objs: Vec<ManagedObject>) -> Vec<ManagedObject> {
    req.apply(objs, show, num_key)
}

fn obj(name: &str, age: i64) -> ManagedObject {
    let mut o = ManagedObject::new("Person");
    o.set("name", Value::text(name));
    o.set("age", Value::Integer(age));
    o
}

#[test]
fn predicate_eval() {
    let o = obj("Alice", 30);
    assert!(evaluate(&Predicate::new("name", PredicateOperator::Equal, "Alice"), &o));
    assert!(evaluate(&Predicate::new("age", PredicateOperator::GreaterThan, "20"), &o));
    assert!(!evaluate(&Predicate::new("age", PredicateOperator::LessThan, "20"), &o));
    assert!(evaluate(&Predicate::new("name", PredicateOperator::Contains, "lic"), &o));
}

#[test]
fn fetch_sort_limit() {
    let objs = vec![obj("Charlie", 30), obj("Alice", 25), obj("Bob", 20)];
    let req = FetchRequest::new("Person").sorted_by(SortDescriptor::new("name", true)).limit(2);
    let res = apply(&req, objs);
    assert_eq!(res.len(), 2);
    assert_eq!(res[0].get_str("name"), Some("Alice"));
}

#[test]
fn sort_descending_numeric_with_offset() {
    let objs = vec![obj("Charlie", 30), obj("Alice", 25), obj("Bob", 100)];
    let req = FetchRequest::new("Person").sorted_by(SortDescriptor::new("age", false)).offset(1);
    let res = apply(&req, objs);
    assert_eq!(res.len(), 2);
    assert_eq!(res[0].get_str("name"), Some("Charlie"));
    assert_eq!(res[1].get_str("name"), Some("Alice"));
}

#[test]
fn sort_is_stable_on_ties() {
    let objs = vec![obj("Zed", 30), obj("Amy", 30), obj("Bob", 20)];
    let req = FetchRequest::new("Person").sorted_by(SortDescriptor::new("age", true));
    let res = apply(&req, objs);
    let names: Vec<&str> = res.iter().map(|o| o.get_str("name").unwrap()).collect();
    assert_eq!(names, vec!["Bob", "Zed", "Amy"]);
}

#[test]
fn offset_past_end_gives_nothing() {
    let objs = vec![obj("A", 1), obj("B", 2)];
    let req = FetchRequest::new("Person").offset(5).limit(3);
    assert_eq!(apply(&req, objs).len(), 0);
}

#[test]
fn filter_by_entity_deleted_and_predicates() {
    let mut gone = obj("Dora", 40);
    gone.mark_deleted();
    let mut other = ManagedObject::new("Pet");
    other.set("name", Value::text("Rex"));
    let objs = vec![obj("Alice", 30), obj("Bob", 20), gone, other];
    let req = FetchRequest::new("Person")
        .predicate(Predicate::new("age", PredicateOperator::GreaterThanOrEqual, "20"))
        .and_predicate(Predicate::new("name", PredicateOperator::BeginsWith, "B"));
    let res = apply(&req, objs);
    assert_eq!(res.len(), 1);
    assert_eq!(res[0].get_str("name"), Some("Bob"));

    let mut gone2 = obj("Dora", 40);
    gone2.mark_deleted();
    let all = apply(&FetchRequest::new("Person").include_deleted(true), vec![gone2]);
    assert_eq!(all.len(), 1);
}

#[test]
fn numbers_compare_numerically_texts_lexically() {
    let o = obj("Alice", 9);
    assert!(evaluate(&Predicate::new("age", PredicateOperator::LessThan, "10"), &o));
    assert!(evaluate(&Predicate::new("age", PredicateOperator::LessThanOrEqual, "9.0"), &o));
    assert!(!evaluate(&Predicate::new("age", PredicateOperator::Equal, "9.0"), &o));
    assert!(evaluate(&Predicate::new("name", PredicateOperator::LessThan, "Bob"), &o));
    assert!(!evaluate(&Predicate::new("missing", PredicateOperator::Equal, ""), &o));
}

#[test]
fn in_list_case_insensitive_and_ends_with() {
    let o = obj("Alice", 30);
    assert!(evaluate(&Predicate::new("name", PredicateOperator::In, "Bob, Alice ,Carol"), &o));
    assert!(!evaluate(&Predicate::new("name", PredicateOperator::In, "alice"), &o));
    assert!(evaluate(
        &Predicate::new("name", PredicateOperator::In, "alice").case_insensitive(true),
        &o
    ));
    assert!(evaluate(&Predicate::new("name", PredicateOperator::EndsWith, "ice"), &o));
    assert!(evaluate(&Predicate::new("name", PredicateOperator::NotEqual, "Bob"), &o));
}

#[test]
fn from_format_reads_key_operator_value() {
    let p = Predicate::from_format("name == 'Alice Smith'").unwrap();
    assert_eq!(p.key, "name");
    assert_eq!(p.op, PredicateOperator::Equal);
    assert_eq!(p.value, "Alice Smith");
    assert!(!p.case_insensitive);
    let q = Predicate::from_format("  age   >=   30 ").unwrap();
    assert_eq!(q.op, PredicateOperator::GreaterThanOrEqual);
    assert_eq!(q.value, "30");
    let c = Predicate::from_format("title CONTAINS \"foo\"").unwrap();
    assert_eq!(c.op, PredicateOperator::Contains);
    assert_eq!(c.value, "foo");
}

#[test]
fn from_format_errors() {
    match Predicate::from_format("age >") {
        Err(CoreDataError::Custom(m)) => assert_eq!(m, "invalid predicate format: age >"),
        other => panic!("unexpected {:?}", other.map(|p| p.key)),
    }
    match Predicate::from_format("age ~ 3") {
        Err(CoreDataError::Custom(m)) => assert_eq!(m, "unknown operator ~"),
        other => panic!("unexpected {:?}", other.map(|p| p.key)),
    }
}

#[test]
fn sort_key_text_of_scalars() {
    let mut o = ManagedObject::new("Thing");
    o.set("flag", Value::Bool(true));
    o.set("n", Value::Integer(-42));
    o.set("Name", Value::text("MiXed"));
    assert_eq!(SortDescriptor::new("flag", true).key_text(&o), Some("true".to_string()));
    assert_eq!(SortDescriptor::new("n", true).key_text(&o), Some("-42".to_string()));
    assert_eq!(SortDescriptor::new("none", true).key_text(&o), Some(String::new()));
    assert_eq!(
        SortDescriptor::new("Name", true).case_insensitive(true).key_text(&o),
        Some("mixed".to_string())
    );
}

#[test]
fn tables_compare_by_shown_text_and_matches() {
    let mut o = ManagedObject::new("Person");
    let mut t = Table::new();
    t.insert("city".to_string(), Value::text("Paris"));
    o.set("address", Value::Table(t));
    let p = Predicate::new("address", PredicateOperator::Contains, "Paris");
    assert!(p.evaluate(&o, |_v: &Value| "{city: Paris}".to_string(), num_key));
    assert!(!p.evaluate(&o, |_v: &Value| "{}".to_string(), num_key));
    let req = FetchRequest::new("Person").predicate(p);
    assert!(req.matches(&o, |_v: &Value| "Paris".to_string(), num_key));
    assert!(!FetchRequest::new("Pet").matches(&o, show, num_key));
    let key = SortDescriptor::new("address", true).sort_key(&o, |_v: &Value| "Z".to_string(), num_key);
    assert_eq!(key.text, "Z");
    let age = SortDescriptor::new("missing", true).sort_key(&o, show, num_key);
    assert_eq!(age.text, "");
    assert_eq!(age.number, None);
    let kept = req.matches_given(&o, &[true]);
    assert!(kept);
    let sorted = FetchRequest::new("Person").arrange(
        vec![o],
        &[true],
        &[Vec::<SortKey>::new()],
    );
    assert_eq!(sorted.len(), 1);
}

#[test]
fn pages_are_slices_of_the_full_sort() {
    let make = || vec![obj("Dan", 40), obj("Amy", 25), obj("Cy", 25), obj("Bo", 31), obj("Eve", 19)];
    let base = FetchRequest::new("Person").sorted_by(SortDescriptor::new("age", true));
    let full: Vec<String> = apply(&base, make()).iter().map(|o| o.get_str("name").unwrap().to_string()).collect();
    assert_eq!(full, vec!["Eve", "Amy", "Cy", "Bo", "Dan"]);
    for offset in 0..7usize {
        for limit in 0..7usize {
            let req = FetchRequest::new("Person")
                .sorted_by(SortDescriptor::new("age", true))
                .offset(offset)
                .limit(limit);
            let page: Vec<String> =
                apply(&req, make()).iter().map(|o| o.get_str("name").unwrap().to_string()).collect();
            let start = offset.min(full.len());
            let end = (start + limit).min(full.len());
            assert_eq!(page, full[start..end].to_vec());
        }
    }
}

#[test]
fn not_equal_is_the_negation_of_equal() {
    let o = obj("Alice", 30);
    for value in ["Alice", "Bob", "30", "30.0"] {
        for key in ["name", "age"] {
            let eq = evaluate(&Predicate::new(key, PredicateOperator::Equal, value), &o);
            let ne = evaluate(&Predicate::new(key, PredicateOperator::NotEqual, value), &o);
            assert_eq!(ne, !eq);
        }
    }
    assert!(!evaluate(&Predicate::new("missing", PredicateOperator::NotEqual, "x"), &o));
}
