use matchstick::schema::{EntityType, FieldDef, Schema, SchemaError};

fn field(name: &str, base: &str, non_null: bool, derived_from: Option<&str>) -> FieldDef {
    FieldDef {
        name: name.to_string(),
        base_type: base.to_string(),
        non_null,
        derived_from: derived_from.map(|s| s.to_string()),
    }
}

fn ty(name: &str, fields: Vec<FieldDef>) -> EntityType {
    EntityType { name: name.to_string(), fields }
}

#[test]
fn indexes_derived_fields() {
    let s = Schema::new(vec![
        ty("GraphAccount", vec![field("id", "ID", true, None), field("txs", "Tx", true, Some("signer"))]),
        ty("Tx", vec![field("id", "ID", true, None), field("signer", "GraphAccount", true, None)]),
    ])
    .unwrap();
    assert_eq!(s.links.len(), 1);
    let d = &s.links[0];
    assert_eq!((d.field.as_str(), d.link.as_str(), d.source.as_str(), d.parent.as_str()), ("txs", "signer", "Tx", "GraphAccount"));
    assert_eq!(s.find_type("Tx"), Some(1));
    assert_eq!(s.find_type("Nope"), None);
}

#[test]
fn refuses_duplicate_type() {
    let r = Schema::new(vec![ty("A", vec![]), ty("A", vec![])]);
    assert_eq!(r.err(), Some(SchemaError::DuplicateType { name: "A".to_string() }));
}

#[test]
fn refuses_duplicate_field() {
    let r = Schema::new(vec![ty("A", vec![field("x", "Int", false, None), field("x", "Int", false, None)])]);
    assert_eq!(r.err(), Some(SchemaError::DuplicateField { entity: "A".to_string(), field: "x".to_string() }));
}

#[test]
fn refuses_unknown_source_type() {
    let r = Schema::new(vec![ty("A", vec![field("kids", "B", false, Some("parent"))])]);
    assert_eq!(r.err(), Some(SchemaError::UnknownSourceType { entity: "A".to_string(), field: "kids".to_string() }));
}

#[test]
fn refuses_missing_link_field() {
    let r = Schema::new(vec![
        ty("A", vec![field("kids", "B", false, Some("parent"))]),
        ty("B", vec![field("id", "ID", true, None)]),
    ]);
    assert_eq!(r.err(), Some(SchemaError::MissingLinkField { entity: "A".to_string(), field: "kids".to_string() }));
}
