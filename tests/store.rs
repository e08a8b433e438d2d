use matchstick::record::Record;
use matchstick::schema::{EntityType, FieldDef, Schema};
use matchstick::store::{EntityStore, FieldCheck, StoreError};
use matchstick::value::Value;

fn field(name: &str, base: &str, non_null: bool, derived_from: Option<&str>) -> FieldDef {
    FieldDef {
        name: name.to_string(),
        base_type: base.to_string(),
        non_null,
        derived_from: derived_from.map(|s| s.to_string()),
    }
}

fn schema() -> Schema {
    let account = EntityType {
        name: "GraphAccount".to_string(),
        fields: vec![
            field("id", "ID", true, None),
            field("nameSignalTransactions", "NameSignalTransaction", true, Some("signer")),
        ],
    };
    let tx = EntityType {
        name: "NameSignalTransaction".to_string(),
        fields: vec![field("id", "ID", true, None), field("signer", "GraphAccount", true, None)],
    };
    let user = EntityType {
        name: "User".to_string(),
        fields: vec![field("id", "ID", true, None), field("name", "String", false, None)],
    };
    Schema::new(vec![account, tx, user]).unwrap()
}

fn text(s: &str) -> Value {
    Value::String(s.to_string())
}

fn rec(pairs: Vec<(&str, Value)>) -> Record {
    pairs.into_iter().map(|(k, v)| (k.to_string(), v)).collect()
}

fn tx(signer: &str) -> Record {
    rec(vec![("id", text("x")), ("signer", text(signer))])
}

fn snapshot(s: &EntityStore) -> Vec<String> {
    let mut out = Vec::new();
    for e in s.entities.iter() {
        for (k, v) in e.fields.iter() {
            out.push(format!("{}/{}/{}={}", e.etype, e.id, k, v.render()));
        }
    }
    out
}

#[test]
fn child_written_first_creates_parent_with_list() {
    let mut s = EntityStore::new(schema());
    s.set("NameSignalTransaction".to_string(), "tx1".to_string(), tx("acct1")).unwrap();
    s.reconcile();
    let acct = s.entity("GraphAccount", "acct1").unwrap();
    let list = acct.iter().find(|(k, _)| k == "nameSignalTransactions").unwrap();
    assert_eq!(list.1, Value::List(vec![text("tx1")]));
    assert_eq!(s.field_equals("GraphAccount", "acct1", "nameSignalTransactions", "[tx1]"), FieldCheck::Equal);
}

#[test]
fn referrer_listed_once_parent_first() {
    let mut s = EntityStore::new(schema());
    s.set("GraphAccount".to_string(), "acct1".to_string(), rec(vec![("id", text("acct1"))])).unwrap();
    s.set("NameSignalTransaction".to_string(), "tx1".to_string(), tx("acct1")).unwrap();
    s.set("NameSignalTransaction".to_string(), "tx1".to_string(), tx("acct1")).unwrap();
    assert_eq!(s.field_equals("GraphAccount", "acct1", "nameSignalTransactions", "[tx1]"), FieldCheck::Equal);
}

#[test]
fn referrer_listed_once_child_first() {
    let mut s = EntityStore::new(schema());
    s.set("NameSignalTransaction".to_string(), "tx1".to_string(), tx("acct1")).unwrap();
    s.set("NameSignalTransaction".to_string(), "tx2".to_string(), tx("acct1")).unwrap();
    s.set("GraphAccount".to_string(), "acct1".to_string(), rec(vec![("id", text("acct1"))])).unwrap();
    s.set("NameSignalTransaction".to_string(), "tx1".to_string(), tx("acct1")).unwrap();
    assert_eq!(s.field_equals("GraphAccount", "acct1", "nameSignalTransactions", "[tx1, tx2]"), FieldCheck::Equal);
}

#[test]
fn pull_fills_parent_written_after_children() {
    let mut s = EntityStore::new(schema());
    s.set("NameSignalTransaction".to_string(), "tx1".to_string(), tx("acct2")).unwrap();
    s.set("GraphAccount".to_string(), "acct2".to_string(), rec(vec![("id", text("acct2"))])).unwrap();
    // Without reconciling, the written record already holds its derived list.
    let acct = s.entity("GraphAccount", "acct2").unwrap();
    let list = acct.iter().find(|(k, _)| k == "nameSignalTransactions").unwrap();
    assert_eq!(list.1.render(), "[tx1]");
    assert!(!s.updated);
}

#[test]
fn removal_drops_id_from_derived_list() {
    let mut s = EntityStore::new(schema());
    s.set("NameSignalTransaction".to_string(), "tx1".to_string(), tx("acct1")).unwrap();
    s.set("NameSignalTransaction".to_string(), "tx2".to_string(), tx("acct1")).unwrap();
    s.remove("NameSignalTransaction", "tx1").unwrap();
    // The cascade alone already scrubbed the id.
    let acct = s.entity("GraphAccount", "acct1").unwrap();
    let list = acct.iter().find(|(k, _)| k == "nameSignalTransactions").unwrap();
    assert_eq!(list.1.render(), "[tx2]");
    assert_eq!(s.field_equals("GraphAccount", "acct1", "nameSignalTransactions", "[tx2]"), FieldCheck::Equal);
    assert!(s.not_in_store("NameSignalTransaction", "tx1"));
}

#[test]
fn missing_required_field_is_refused_without_write() {
    let mut s = EntityStore::new(schema());
    s.set("User".to_string(), "u1".to_string(), rec(vec![("id", text("u1")), ("name", text("Alice"))])).unwrap();
    let before = snapshot(&s);
    let r = s.set("User".to_string(), "u1".to_string(), rec(vec![("name", text("Bob"))]));
    assert_eq!(r, Err(StoreError::MissingField { entity: "User".to_string(), field: "id".to_string() }));
    assert_eq!(snapshot(&s), before);
    assert_eq!(s.field_equals("User", "u1", "name", "Alice"), FieldCheck::Equal);
}

#[test]
fn null_required_field_is_refused() {
    let mut s = EntityStore::new(schema());
    let r = s.set("User".to_string(), "u1".to_string(), rec(vec![("id", Value::Null)]));
    assert_eq!(r, Err(StoreError::NullField { entity: "User".to_string(), field: "id".to_string() }));
    assert_eq!(s.count("User"), 0);
}

#[test]
fn nullable_field_may_be_absent_or_null() {
    let mut s = EntityStore::new(schema());
    s.set("User".to_string(), "u1".to_string(), rec(vec![("id", text("u1"))])).unwrap();
    s.set("User".to_string(), "u2".to_string(), rec(vec![("id", text("u2")), ("name", Value::Null)])).unwrap();
    assert_eq!(s.count("User"), 2);
    assert_eq!(s.field_equals("User", "u2", "name", "null"), FieldCheck::Equal);
}

#[test]
fn unknown_entity_type_is_not_declared() {
    let s = EntityStore::new(schema());
    assert_eq!(s.schema.find_type("Ghost"), None);
    assert!(s.schema.find_type("User").is_some());
}

#[test]
fn removing_absent_entity_fails() {
    let mut s = EntityStore::new(schema());
    assert_eq!(
        s.remove("User", "nobody"),
        Err(StoreError::NotFound { entity: "User".to_string(), id: "nobody".to_string() })
    );
}

#[test]
fn reconcile_twice_equals_once() {
    let mut s = EntityStore::new(schema());
    s.set("NameSignalTransaction".to_string(), "tx1".to_string(), tx("acct1")).unwrap();
    s.set("NameSignalTransaction".to_string(), "tx2".to_string(), tx("acct9")).unwrap();
    s.remove("NameSignalTransaction", "tx2").unwrap();
    s.reconcile();
    let once = snapshot(&s);
    s.reconcile();
    assert_eq!(snapshot(&s), once);
    assert!(s.updated);
}

#[test]
fn field_equals_on_empty_store_cites_type() {
    let mut s = EntityStore::new(schema());
    assert_eq!(s.field_equals("User", "u1", "name", "Alice"), FieldCheck::NoEntityType);
}

#[test]
fn field_equals_reports_each_failure() {
    let mut s = EntityStore::new(schema());
    s.set("User".to_string(), "u1".to_string(), rec(vec![("id", text("u1")), ("name", text("Alice"))])).unwrap();
    assert_eq!(s.field_equals("User", "u2", "name", "Alice"), FieldCheck::NoEntity);
    assert_eq!(s.field_equals("User", "u1", "age", "3"), FieldCheck::NoField);
    assert_eq!(
        s.field_equals("User", "u1", "name", "Bob"),
        FieldCheck::Differs { actual: "Alice".to_string() }
    );
    assert_eq!(s.field_equals("User", "u1", "name", "Alice"), FieldCheck::Equal);
}

#[test]
fn count_and_clear() {
    let mut s = EntityStore::new(schema());
    assert_eq!(s.count("User"), 0);
    s.set("User".to_string(), "u1".to_string(), rec(vec![("id", text("u1"))])).unwrap();
    s.set("User".to_string(), "u2".to_string(), rec(vec![("id", text("u2"))])).unwrap();
    s.set("User".to_string(), "u1".to_string(), rec(vec![("id", text("u1"))])).unwrap();
    assert_eq!(s.count("User"), 2);
    s.clear();
    assert_eq!(s.count("User"), 0);
    assert!(s.updated);
}

#[test]
fn list_valued_link_pushes_each_target() {
    let mut s = EntityStore::new(schema());
    let data = rec(vec![("id", text("tx1")), ("signer", Value::List(vec![text("a1"), text("a2")]))]);
    s.set("NameSignalTransaction".to_string(), "tx1".to_string(), data).unwrap();
    assert!(!s.not_in_store("GraphAccount", "a1"));
    assert!(!s.not_in_store("GraphAccount", "a2"));
    assert_eq!(s.field_equals("GraphAccount", "a2", "nameSignalTransactions", "[tx1]"), FieldCheck::Equal);
}

#[test]
fn derived_list_keeps_store_order() {
    let mut s = EntityStore::new(schema());
    for id in ["t3", "t1", "t2"] {
        s.set("NameSignalTransaction".to_string(), id.to_string(), tx("acct")).unwrap();
    }
    assert_eq!(s.field_equals("GraphAccount", "acct", "nameSignalTransactions", "[t3, t1, t2]"), FieldCheck::Equal);
}
