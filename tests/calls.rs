use matchstick::calls::{
    token_text, check_type_text, fn_id, find_args_end, split_type_list, CallError, CallValue, MockError, MockRegistry, MockedReturn,
};

const ADDR: &str = "0x90cba2bbb19ecc291a12066fd8329d65fa1f1947";
const OTHER: &str = "0x0000000000000000000000000000000000000001";

fn address_arg() -> Vec<CallValue> {
    vec![addr(7)]
}

fn addr(n: u8) -> CallValue {
    let mut a = [0u8; 20];
    a[19] = n;
    CallValue::Address(a)
}

#[test]
fn mocked_call_returns_registered_values() {
    let mut r = MockRegistry::new();
    r.mock_function(ADDR, "balanceOf", "balanceOf(address):(uint256)", &address_arg(), vec![CallValue::Uint([42, 0, 0, 0])], false)
        .unwrap();
    let got = r.ethereum_call(ADDR, "balanceOf", "balanceOf(address):(uint256)", &address_arg()).unwrap();
    assert_eq!(got, &vec![CallValue::Uint([42, 0, 0, 0])]);
    let miss = r.ethereum_call(OTHER, "balanceOf", "balanceOf(address):(uint256)", &address_arg());
    assert_eq!(
        miss,
        Err(CallError::NotMocked {
            address: OTHER.to_string(),
            name: "balanceOf".to_string(),
            signature: "balanceOf(address):(uint256)".to_string(),
            args: vec!["0000000000000000000000000000000000000007".to_string()],
        })
    );
}

#[test]
fn arguments_are_part_of_the_key() {
    let mut r = MockRegistry::new();
    r.mock_function(ADDR, "balanceOf", "balanceOf(address):(uint256)", &address_arg(), vec![CallValue::Uint([1, 0, 0, 0])], false)
        .unwrap();
    let other = vec![addr(8)];
    assert!(matches!(
        r.ethereum_call(ADDR, "balanceOf", "balanceOf(address):(uint256)", &other),
        Err(CallError::NotMocked { .. })
    ));
}

#[test]
fn registering_again_overwrites() {
    let mut r = MockRegistry::new();
    let sig = "balanceOf(address):(uint256)";
    r.mock_function(ADDR, "balanceOf", sig, &address_arg(), vec![CallValue::Uint([1, 0, 0, 0])], false).unwrap();
    r.mock_function(ADDR, "balanceOf", sig, &address_arg(), vec![CallValue::Uint([2, 0, 0, 0])], false).unwrap();
    assert_eq!(r.entries.len(), 1);
    assert_eq!(r.ethereum_call(ADDR, "balanceOf", sig, &address_arg()).unwrap(), &vec![CallValue::Uint([2, 0, 0, 0])]);
}

#[test]
fn reverting_mock_is_reported() {
    let mut r = MockRegistry::new();
    r.mock_function(ADDR, "f", "f():(bool)", &vec![], vec![], true).unwrap();
    assert_eq!(r.ethereum_call(ADDR, "f", "f():(bool)", &vec![]), Err(CallError::Reverted));
    assert!(matches!(r.lookup(&format!("{}ff():(bool)", ADDR)), Some(MockedReturn::Reverts)));
}

#[test]
fn empty_return_is_not_a_revert() {
    let mut r = MockRegistry::new();
    r.mock_function(ADDR, "f", "f():()", &vec![], vec![], false).unwrap();
    assert_eq!(r.ethereum_call(ADDR, "f", "f():()", &vec![]).unwrap(), &Vec::<CallValue>::new());
}

#[test]
fn name_must_match_signature() {
    let mut r = MockRegistry::new();
    let e = r.mock_function(ADDR, "balance", "balanceOf(address):(uint256)", &address_arg(), vec![], false);
    assert_eq!(
        e,
        Err(MockError::NameMismatch { name: "balance".to_string(), signature: "balanceOf(address):(uint256)".to_string() })
    );
    assert_eq!(r.entries.len(), 0);
}

#[test]
fn argument_count_must_match() {
    let mut r = MockRegistry::new();
    let e = r.mock_function(ADDR, "f", "f(address,bool):(uint256)", &address_arg(), vec![], false);
    assert_eq!(e, Err(MockError::ArgumentCount { name: "f".to_string(), expected: 2, received: 1 }));
}

#[test]
fn argument_type_must_match() {
    let mut r = MockRegistry::new();
    let args = vec![addr(1), CallValue::Bool(true)];
    let e = r.mock_function(ADDR, "f", "f(address,string):(uint256)", &args, vec![], false);
    assert_eq!(
        e,
        Err(MockError::ArgumentMismatch {
            name: "f".to_string(),
            position: 2,
            declared: "string".to_string(),
            received: "true".to_string(),
        })
    );
}

#[test]
fn unparsable_type_is_reported() {
    let mut r = MockRegistry::new();
    let e = r.mock_function(ADDR, "f", "f(uintx):(uint256)", &vec![CallValue::Bool(true)], vec![], false);
    assert_eq!(e, Err(MockError::InvalidType { name: "f".to_string(), position: 1, declared: "uintx".to_string() }));
    let e = r.mock_function(ADDR, "f", "f(5]):(uint256)", &vec![CallValue::Bool(true)], vec![], false);
    assert_eq!(e, Err(MockError::InvalidType { name: "f".to_string(), position: 1, declared: "5]".to_string() }));
}

#[test]
fn tuple_arguments_are_checked() {
    let mut r = MockRegistry::new();
    let args = vec![CallValue::Tuple(vec![CallValue::Uint([1, 0, 0, 0]), CallValue::Bool(false)]), CallValue::Bool(true)];
    r.mock_function(ADDR, "g", "g((uint256,bool), bool):(uint256)", &args, vec![], false).unwrap();
    assert!(r.ethereum_call(ADDR, "g", "g((uint256,bool), bool):(uint256)", &args).is_ok());
}

#[test]
fn splits_type_lists() {
    assert_eq!(split_type_list("(uint256,bool), address"), vec!["(uint256,bool)".to_string(), "address".to_string()]);
    assert_eq!(split_type_list(""), Vec::<String>::new());
    assert_eq!(split_type_list("int32"), vec!["int32".to_string()]);
    assert_eq!(find_args_end("address):(uint256)"), 7);
    assert_eq!(find_args_end("address)"), 7);
    assert_eq!(find_args_end("address"), 7);
}

#[test]
fn fingerprint_concatenates_parts() {
    let id = fn_id("0xab", "f", "f(bool):()", &vec!["true".to_string(), "x".to_string()]);
    assert_eq!(id, "0xabff(bool):()truex");
}

#[test]
fn unreadable_array_type_is_refused_before_parsing() {
    let mut r = MockRegistry::new();
    let e = r.mock_function(ADDR, "f", "f(([,1])):(bool)", &vec![CallValue::Tuple(vec![])], vec![], false);
    assert_eq!(e, Err(MockError::InvalidType { name: "f".to_string(), position: 1, declared: "([,1])".to_string() }));
    assert!(check_type_text("uint256[2][]"));
    assert!(check_type_text("(uint256,bool)[3]"));
    assert!(!check_type_text("5]"));
    assert!(check_type_text("(((bool)))"));
}

#[test]
fn tuple_longer_than_declared_is_a_mismatch() {
    let mut r = MockRegistry::new();
    let args = vec![CallValue::Tuple(vec![CallValue::Bool(true), CallValue::Bool(true)])];
    let e = r.mock_function(ADDR, "f", "f((bool)):(bool)", &args, vec![], false);
    assert!(matches!(e, Err(MockError::ArgumentMismatch { position: 1, .. })));
    let e = r.mock_function(ADDR, "f", "f(tuple):(bool)", &args, vec![], false);
    assert!(matches!(e, Err(MockError::ArgumentMismatch { position: 1, .. })));
    let nested = vec![CallValue::Array(vec![CallValue::Tuple(vec![CallValue::Bool(true), CallValue::Bool(false)])])];
    assert!(r.mock_function(ADDR, "g", "g((bool,bool)[]):(bool)", &nested, vec![], false).is_ok());
}

#[test]
fn dropped_empty_group_is_a_mismatch_not_a_panic() {
    let mut r = MockRegistry::new();
    let args = vec![CallValue::Tuple(vec![CallValue::Uint([1, 0, 0, 0]), CallValue::Tuple(vec![])])];
    let e = r.mock_function(ADDR, "f", "f((uint256,())):(bool)", &args, vec![], false);
    assert!(matches!(e, Err(MockError::ArgumentMismatch { position: 1, .. })));
    let args = vec![CallValue::Tuple(vec![CallValue::Bool(true), CallValue::Tuple(vec![addr(1)])])];
    let e = r.mock_function(ADDR, "f", "f((bool,(address,))):(bool)", &args, vec![], false);
    assert!(matches!(e, Err(MockError::ArgumentMismatch { position: 1, .. })));
    let args = vec![CallValue::Tuple(vec![CallValue::Bool(true), CallValue::Tuple(vec![addr(1)])])];
    assert!(r.mock_function(ADDR, "f", "f((bool,(address))):(bool)", &args, vec![], false).is_ok());
    let short = vec![CallValue::Tuple(vec![CallValue::Bool(true)])];
    let e = r.mock_function(ADDR, "f", "f((bool,bool)):(bool)", &short, vec![], false);
    assert!(matches!(e, Err(MockError::ArgumentMismatch { position: 1, .. })));
}

#[test]
fn deeply_nested_tuples_are_read() {
    let mut r = MockRegistry::new();
    let args = vec![CallValue::Tuple(vec![CallValue::Tuple(vec![CallValue::Tuple(vec![CallValue::Bool(true)])])])];
    assert!(r.mock_function(ADDR, "f", "f((((bool)))):(bool)", &args, vec![], false).is_ok());
}

fn abi(v: &CallValue) -> ethabi::Token {
    match v {
        CallValue::Address(a) => ethabi::Token::Address(ethabi::ethereum_types::H160(*a)),
        CallValue::FixedBytes(b) => ethabi::Token::FixedBytes(b.clone()),
        CallValue::Bytes(b) => ethabi::Token::Bytes(b.clone()),
        CallValue::Int(w) => ethabi::Token::Int(ethabi::ethereum_types::U256(*w)),
        CallValue::Uint(w) => ethabi::Token::Uint(ethabi::ethereum_types::U256(*w)),
        CallValue::Bool(b) => ethabi::Token::Bool(*b),
        CallValue::String(s) => ethabi::Token::String(s.clone()),
        CallValue::FixedArray(vs) => ethabi::Token::FixedArray(vs.iter().map(abi).collect()),
        CallValue::Array(vs) => ethabi::Token::Array(vs.iter().map(abi).collect()),
        CallValue::Tuple(vs) => ethabi::Token::Tuple(vs.iter().map(abi).collect()),
    }
}

#[test]
fn rendering_matches_ethabi_display() {
    let values = vec![
        CallValue::Bool(true),
        CallValue::Bool(false),
        CallValue::String("hello".to_string()),
        addr(7),
        CallValue::Bytes(vec![0xab, 0x01]),
        CallValue::FixedBytes(vec![0x00, 0xff]),
        CallValue::Uint([42, 0, 0, 0]),
        CallValue::Uint([0, 0, 0, 0]),
        CallValue::Uint([0, 1, 0, 0]),
        CallValue::Int([u64::MAX, u64::MAX, u64::MAX, u64::MAX]),
        CallValue::Array(vec![CallValue::Uint([1, 0, 0, 0]), CallValue::Uint([2, 0, 0, 0])]),
        CallValue::FixedArray(vec![]),
        CallValue::Tuple(vec![CallValue::Bool(true), CallValue::Tuple(vec![CallValue::String("x".to_string())])]),
    ];
    for v in values.iter() {
        assert_eq!(token_text(v), abi(v).to_string());
    }
    assert_eq!(token_text(&CallValue::Uint([42, 0, 0, 0])), "2a");
    assert_eq!(token_text(&CallValue::Uint([0, 0, 0, 0])), "0");
    assert_eq!(token_text(&CallValue::Uint([0, 1, 0, 0])), "10000000000000000");
    assert_eq!(
        token_text(&CallValue::Tuple(vec![CallValue::Bool(true), CallValue::Bytes(vec![0xab])])),
        "(true,ab)"
    );
}
