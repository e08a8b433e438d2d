use matchstick::calls::CallValue;
use matchstick::context::MatchstickInstanceContext;
use matchstick::schema::{EntityType, FieldDef, Schema};
use matchstick::store::FieldCheck;
use matchstick::value::Value;

fn ctx() -> MatchstickInstanceContext {
    let user = EntityType {
        name: "User".to_string(),
        fields: vec![FieldDef { name: "id".to_string(), base_type: "ID".to_string(), non_null: true, derived_from: None }],
    };
    MatchstickInstanceContext::new(Schema::new(vec![user]).unwrap())
}

fn addr(n: u8) -> CallValue {
    let mut a = [0u8; 20];
    a[19] = n;
    CallValue::Address(a)
}

#[test]
fn data_source_defaults_and_overrides() {
    let mut c = ctx();
    assert_eq!(c.mock_data_source_address(), "0x0000000000000000000000000000000000000000");
    assert_eq!(c.mock_data_source_network(), "mainnet");
    assert!(c.mock_data_source_context().is_empty());
    c.set_data_source_return_values(
        "0x1111111111111111111111111111111111111111".to_string(),
        "rinkeby".to_string(),
        vec![("k".to_string(), Value::Int(3))],
    );
    assert_eq!(c.mock_data_source_address(), "0x1111111111111111111111111111111111111111");
    assert_eq!(c.mock_data_source_network(), "rinkeby");
    assert_eq!(c.mock_data_source_context().len(), 1);
}

#[test]
fn ledger_keeps_registration_order() {
    let mut c = ctx();
    c.register_describe("group".to_string(), 1);
    c.register_test("works".to_string(), true, 2);
    c.register_hook(3, "beforeAll".to_string());
    assert_eq!(
        c.meta_tests,
        vec![
            ("group".to_string(), false, 1, "describe".to_string()),
            ("works".to_string(), true, 2, "test".to_string()),
            ("".to_string(), false, 3, "beforeAll".to_string()),
        ]
    );
}

#[test]
fn store_operations_through_context() {
    let mut c = ctx();
    c.mock_store_set("User".to_string(), "u1".to_string(), vec![("id".to_string(), Value::String("u1".to_string()))]).unwrap();
    assert_eq!(c.count_entities("User"), 1);
    assert_eq!(c.assert_field_equals("User", "u1", "id", "u1"), FieldCheck::Equal);
    assert!(c.mock_store_get("User", "u1").is_some());
    c.mock_store_remove("User", "u1").unwrap();
    assert!(c.assert_not_in_store("User", "u1"));
    assert!(c.mock_store_get("User", "u1").is_none());
    c.clear_store();
    assert_eq!(c.count_entities("User"), 0);
}

#[test]
fn ipfs_files_are_mapped() {
    let mut c = ctx();
    assert!(c.ipfs_file_path("Qm1").is_none());
    c.mock_ipfs_file("Qm1".to_string(), "a.json".to_string());
    c.mock_ipfs_file("Qm1".to_string(), "b.json".to_string());
    assert_eq!(c.ipfs_file_path("Qm1").map(|s| s.as_str()), Some("b.json"));
    assert_eq!(c.ipfs.len(), 1);
}

#[test]
fn equal_call_values_compare_by_rendering() {
    let mut c = ctx();
    assert!(c.assert_equals(&CallValue::Uint([5, 0, 0, 0]), &CallValue::Uint([5, 0, 0, 0])));
    assert!(!c.assert_equals(&CallValue::Int([5, 0, 0, 0]), &CallValue::Uint([5, 0, 0, 0])));
    assert!(!c.assert_equals(&CallValue::String("1".to_string()), &CallValue::Uint([1, 0, 0, 0])));
    assert!(c.assert_equals(
        &CallValue::Tuple(vec![CallValue::Bool(true), CallValue::Bytes(vec![1, 2])]),
        &CallValue::Tuple(vec![CallValue::Bool(true), CallValue::Bytes(vec![1, 2])])
    ));
    assert!(!c.assert_equals(&CallValue::Array(vec![CallValue::Bool(true)]), &CallValue::FixedArray(vec![CallValue::Bool(true)])));
    assert!(!c.assert_equals(&CallValue::Uint([5, 0, 0, 0]), &CallValue::Uint([6, 0, 0, 0])));
    assert!(!c.assert_equals(&CallValue::String("a".to_string()), &CallValue::String("b".to_string())));
}

#[test]
fn mocked_calls_through_context() {
    let mut c = ctx();
    let args = vec![addr(1)];
    c.mock_function("0xab", "balanceOf", "balanceOf(address):(uint256)", &args, vec![CallValue::Uint([42, 0, 0, 0])], false)
        .unwrap();
    assert_eq!(
        c.ethereum_call("0xab", "balanceOf", "balanceOf(address):(uint256)", &args).unwrap(),
        &vec![CallValue::Uint([42, 0, 0, 0])]
    );
    c.mock_data_source_create("tmpl", &vec!["p".to_string()]);
    c.mock_data_source_create_with_context("tmpl", &vec![], &vec![]);
    assert_eq!(c.count_entities("User"), 0);
}

#[test]
fn hand_over_moves_run_state_both_ways() {
    let mut main = ctx();
    let mut worker = ctx();
    main.mock_store_set("User".to_string(), "u1".to_string(), vec![("id".to_string(), Value::String("u1".to_string()))]).unwrap();
    main.register_test("t".to_string(), false, 1);
    main.hand_over(&mut worker);
    assert_eq!(main.count_entities("User"), 0);
    assert_eq!(worker.count_entities("User"), 1);
    assert_eq!(main.meta_tests.len(), 1);
    worker.mock_store_set("User".to_string(), "u2".to_string(), vec![("id".to_string(), Value::String("u2".to_string()))]).unwrap();
    worker.hand_over(&mut main);
    assert_eq!(main.count_entities("User"), 2);
    assert_eq!(worker.count_entities("User"), 0);
}
