use ethereum_abi::abi::{Abi, Constructor, Error, Event, Function, StateMutability};
use ethereum_abi::errors::{AbiError, SchemaIssue};
use ethereum_abi::params::{Param, ParamEntry};
use ethereum_abi::schema::AbiEntry;
use ethereum_abi::types::Type;

const TEST_ABI_V1: &str = r#"[{"inputs":[{"internalType":"address","name":"a","type":"address"}],"stateMutability":"nonpayable","type":"constructor"},{"anonymous":false,"inputs":[{"indexed":false,"internalType":"address","name":"x","type":"address"},{"indexed":false,"internalType":"uint256","name":"y","type":"uint256"}],"name":"E","type":"event"},{"inputs":[{"internalType":"uint256","name":"x","type":"uint256"}],"name":"f","outputs":[{"internalType":"uint256","name":"","type":"uint256"}],"stateMutability":"nonpayable","type":"function"},{"stateMutability":"payable","type":"receive"},{"type":"error","inputs": [{"name":"x","type":"uint256"},{"name":"y","type":"uint256"}],"name":"Err"}]"#;

fn text(v: &serde_json::Value, key: &str) -> Option<String> {
    v.get(key).and_then(|x| x.as_str()).map(|s| s.to_string())
}

fn param_entry(v: &serde_json::Value) -> ParamEntry {
    ParamEntry {
        name: text(v, "name").expect("name"),
        type_: text(v, "type").expect("type"),
        indexed: v.get("indexed").and_then(|x| x.as_bool()),
        components: v
            .get("components")
            .and_then(|x| x.as_array())
            .map(|a| a.iter().map(param_entry).collect()),
    }
}

fn param_entries(v: &serde_json::Value, key: &str) -> Option<Vec<ParamEntry>> {
    v.get(key).and_then(|x| x.as_array()).map(|a| a.iter().map(param_entry).collect())
}

fn abi_entry(v: &serde_json::Value) -> AbiEntry {
    AbiEntry {
        type_: text(v, "type").expect("type"),
        name: text(v, "name"),
        inputs: param_entries(v, "inputs"),
        outputs: param_entries(v, "outputs"),
        state_mutability: text(v, "stateMutability"),
        anonymous: v.get("anonymous").and_then(|x| x.as_bool()),
    }
}

fn abi_from_json(json: &str) -> Result<Abi, AbiError> {
    let doc: serde_json::Value = serde_json::from_str(json).expect("json");
    let entries: Vec<AbiEntry> = doc.as_array().expect("array").iter().map(abi_entry).collect();
    Abi::from_entries(&entries)
}

fn param_from_json(json: &str) -> Result<Param, SchemaIssue> {
    let doc: serde_json::Value = serde_json::from_str(json).expect("json");
    Param::from_entry(&param_entry(&doc))
}

fn param_to_json(e: &ParamEntry) -> serde_json::Value {
    let mut m = serde_json::Map::new();
    m.insert("name".to_string(), serde_json::Value::String(e.name.clone()));
    m.insert("type".to_string(), serde_json::Value::String(e.type_.clone()));
    if let Some(indexed) = e.indexed {
        m.insert("indexed".to_string(), serde_json::Value::Bool(indexed));
    }
    if let Some(components) = &e.components {
        m.insert(
            "components".to_string(),
            serde_json::Value::Array(components.iter().map(param_to_json).collect()),
        );
    }
    serde_json::Value::Object(m)
}

fn abi_to_json(abi: &Abi) -> String {
    let mut entries = Vec::new();
    for e in abi.to_entries() {
        let mut m = serde_json::Map::new();
        m.insert("type".to_string(), serde_json::Value::String(e.type_.clone()));
        if let Some(name) = &e.name {
            m.insert("name".to_string(), serde_json::Value::String(name.clone()));
        }
        if let Some(inputs) = &e.inputs {
            m.insert(
                "inputs".to_string(),
                serde_json::Value::Array(inputs.iter().map(param_to_json).collect()),
            );
        }
        if let Some(outputs) = &e.outputs {
            m.insert(
                "outputs".to_string(),
                serde_json::Value::Array(outputs.iter().map(param_to_json).collect()),
            );
        }
        if let Some(sm) = &e.state_mutability {
            m.insert("stateMutability".to_string(), serde_json::Value::String(sm.clone()));
        }
        if let Some(anonymous) = e.anonymous {
            m.insert("anonymous".to_string(), serde_json::Value::Bool(anonymous));
        }
        entries.push(serde_json::Value::Object(m));
    }
    serde_json::Value::Array(entries).to_string()
}

fn plain(name: &str, type_: Type) -> Param {
    Param { name: name.to_string(), type_, indexed: None }
}

#[test]
fn works_v1() {
    let abi = abi_from_json(TEST_ABI_V1).unwrap();

    assert_eq!(
        abi,
        Abi {
            constructor: Some(Constructor {
                inputs: vec![Param {
                    name: "a".to_string(),
                    type_: Type::Address,
                    indexed: None
                }],
                state_mutability: StateMutability::NonPayable
            }),
            functions: vec![Function {
                name: "f".to_string(),
                inputs: vec![Param {
                    name: "x".to_string(),
                    type_: Type::Uint(256),
                    indexed: None
                }],
                outputs: vec![Param {
                    name: "".to_string(),
                    type_: Type::Uint(256),
                    indexed: None
                }],
                state_mutability: StateMutability::NonPayable
            }],
            events: vec![Event {
                name: "E".to_string(),
                inputs: vec![
                    Param {
                        name: "x".to_string(),
                        type_: Type::Address,
                        indexed: Some(false)
                    },
                    Param {
                        name: "y".to_string(),
                        type_: Type::Uint(256),
                        indexed: Some(false)
                    }
                ],
                anonymous: false
            }],
            errors: vec![Error {
                name: "Err".to_string(),
                inputs: vec![
                    Param {
                        name: "x".to_string(),
                        type_: Type::Uint(256),
                        indexed: None
                    },
                    Param {
                        name: "y".to_string(),
                        type_: Type::Uint(256),
                        indexed: None
                    },
                ]
            }],
            has_receive: true,
            has_fallback: false
        }
    )
}

#[test]
fn works_v2() {
    let json = r#"[
        {
            "inputs": [
                {
                    "internalType": "uint256",
                    "name": "n",
                    "type": "uint256"
                },
                {
                    "components": [
                        {
                            "internalType": "uint256",
                            "name": "a",
                            "type": "uint256"
                        },
                        {
                            "internalType": "string",
                            "name": "b",
                            "type": "string"
                        }
                    ],
                    "internalType": "struct A.X",
                    "name": "x",
                    "type": "tuple"
                }
            ],
            "name": "f",
            "outputs": [],
            "stateMutability": "nonpayable",
            "type": "function"
        }
    ]"#;

    let abi = abi_from_json(json).unwrap();

    assert_eq!(
        abi,
        Abi {
            constructor: None,
            functions: vec![Function {
                name: "f".to_string(),
                inputs: vec![
                    Param {
                        name: "n".to_string(),
                        type_: Type::Uint(256),
                        indexed: None,
                    },
                    Param {
                        name: "x".to_string(),
                        type_: Type::Tuple(vec![
                            ("a".to_string(), Type::Uint(256)),
                            ("b".to_string(), Type::String)
                        ]),
                        indexed: None,
                    }
                ],
                outputs: vec![],
                state_mutability: StateMutability::NonPayable,
            }],
            events: vec![],
            errors: vec![],
            has_receive: false,
            has_fallback: false,
        }
    );
}

#[test]
fn test_serde() {
    let abi = abi_from_json(TEST_ABI_V1).unwrap();

    let ser_abi = abi_to_json(&abi);
    let de_abi = abi_from_json(&ser_abi).expect("deserialized abi");

    assert_eq!(abi, de_abi);
}

#[test]
fn deserialize_uint() {
    for i in (8..=256).step_by(8) {
        let json = format!(r#"{{"name": "a", "type": "uint{}"}}"#, i);

        let param = param_from_json(&json).unwrap();

        assert_eq!(
            param,
            Param {
                name: "a".to_string(),
                type_: Type::Uint(i),
                indexed: None
            }
        );
    }
}

#[test]
fn deserialize_int() {
    for i in (8..=256).step_by(8) {
        let json = format!(r#"{{"name": "a", "type": "int{}"}}"#, i);

        let param = param_from_json(&json).unwrap();

        assert_eq!(
            param,
            Param {
                name: "a".to_string(),
                type_: Type::Int(i),
                indexed: None
            }
        );
    }
}

#[test]
fn deserialize_address() {
    let param = param_from_json(r#"{"name": "a", "type": "address"}"#).unwrap();

    assert_eq!(
        param,
        Param {
            name: "a".to_string(),
            type_: Type::Address,
            indexed: None
        }
    );
}

#[test]
fn deserialize_bool() {
    let param = param_from_json(r#"{"name": "a", "type": "bool"}"#).unwrap();

    assert_eq!(
        param,
        Param {
            name: "a".to_string(),
            type_: Type::Bool,
            indexed: None
        }
    );
}

#[test]
fn deserialize_string() {
    let param = param_from_json(r#"{"name": "a", "type": "string"}"#).unwrap();

    assert_eq!(
        param,
        Param {
            name: "a".to_string(),
            type_: Type::String,
            indexed: None
        }
    );
}

#[test]
fn deserialize_bytes() {
    for i in 1..=32 {
        let json = format!(r#"{{"name": "a", "type": "bytes{}"}}"#, i);

        let param = param_from_json(&json).unwrap();

        assert_eq!(
            param,
            Param {
                name: "a".to_string(),
                type_: Type::FixedBytes(i),
                indexed: None
            }
        );
    }

    let param = param_from_json(r#"{"name": "a", "type": "bytes"}"#).unwrap();

    assert_eq!(
        param,
        Param {
            name: "a".to_string(),
            type_: Type::Bytes,
            indexed: None
        }
    );
}

#[test]
fn deserialize_array() {
    let param = param_from_json(r#"{"name": "a", "type": "uint256[]"}"#).unwrap();

    assert_eq!(
        param,
        Param {
            name: "a".to_string(),
            type_: Type::Array(Box::new(Type::Uint(256))),
            indexed: None,
        }
    );
}

#[test]
fn deserialize_nested_array() {
    let param = param_from_json(r#"{"name": "a", "type": "address[][]"}"#).unwrap();

    assert_eq!(
        param,
        Param {
            name: "a".to_string(),
            type_: Type::Array(Box::new(Type::Array(Box::new(Type::Address)))),
            indexed: None,
        }
    );
}

#[test]
fn deserialize_mixed_array() {
    let param = param_from_json(r#"{"name": "a", "type": "string[2][]"}"#).unwrap();

    assert_eq!(
        param,
        Param {
            name: "a".to_string(),
            type_: Type::Array(Box::new(Type::FixedArray(Box::new(Type::String), 2))),
            indexed: None,
        }
    );

    let param = param_from_json(r#"{"name": "a", "type": "string[][3]"}"#).unwrap();

    assert_eq!(
        param,
        Param {
            name: "a".to_string(),
            type_: Type::FixedArray(Box::new(Type::Array(Box::new(Type::String))), 3),
            indexed: None,
        }
    );
}

#[test]
fn deserialize_tuple() {
    let json = r#"{
      "name": "s",
      "type": "tuple",
      "components": [
        {
          "name": "a",
          "type": "uint256"
        },
        {
          "name": "b",
          "type": "uint256[]"
        },
        {
          "name": "c",
          "type": "tuple[]",
          "components": [
            {
              "name": "x",
              "type": "uint256"
            },
            {
              "name": "y",
              "type": "uint256"
            }
          ]
        }
      ]
    }"#;

    let param = param_from_json(json).unwrap();

    assert_eq!(
        param,
        Param {
            name: "s".to_string(),
            type_: Type::Tuple(vec![
                ("a".to_string(), Type::Uint(256)),
                ("b".to_string(), Type::Array(Box::new(Type::Uint(256)))),
                (
                    "c".to_string(),
                    Type::Array(Box::new(Type::Tuple(vec![
                        ("x".to_string(), Type::Uint(256)),
                        ("y".to_string(), Type::Uint(256))
                    ])))
                )
            ]),
            indexed: None,
        }
    )
}

#[test]
fn receive_entry_sets_only_its_flag() {
    let abi = abi_from_json(r#"[{"type":"receive","stateMutability":"payable"}]"#).unwrap();
    assert!(abi.has_receive);
    assert!(!abi.has_fallback);
    assert_eq!(abi.functions.len(), 0);
    let again = abi_from_json(&abi_to_json(&abi)).unwrap();
    assert_eq!(again, abi);
}

#[test]
fn fallback_is_written_as_payable_and_constructor_as_nonpayable() {
    let abi = Abi {
        constructor: Some(Constructor { inputs: vec![], state_mutability: StateMutability::Payable }),
        functions: vec![],
        events: vec![],
        errors: vec![],
        has_receive: false,
        has_fallback: true,
    };
    let entries = abi.to_entries();
    assert_eq!(entries.len(), 2);
    assert_eq!(entries[0].type_, "constructor");
    assert_eq!(entries[0].state_mutability, Some("nonpayable".to_string()));
    assert_eq!(entries[1].type_, "fallback");
    assert_eq!(entries[1].state_mutability, Some("payable".to_string()));
}

#[test]
fn schema_errors_name_the_entry() {
    let r = abi_from_json(r#"[{"type":"receive"},{"type":"banana"}]"#);
    assert_eq!(r, Err(AbiError::Schema { entry: 1, issue: SchemaIssue::UnknownEntryType }));

    let r = abi_from_json(r#"[{"type":"function","stateMutability":"view"}]"#);
    assert_eq!(r, Err(AbiError::Schema { entry: 0, issue: SchemaIssue::MissingName }));

    let r = abi_from_json(r#"[{"type":"function","name":"f"}]"#);
    assert_eq!(r, Err(AbiError::Schema { entry: 0, issue: SchemaIssue::MissingStateMutability }));

    let r = abi_from_json(r#"[{"type":"constructor","stateMutability":"sometimes"}]"#);
    assert_eq!(r, Err(AbiError::Schema { entry: 0, issue: SchemaIssue::InvalidStateMutability }));

    let r = abi_from_json(r#"[{"type":"event","name":"E"}]"#);
    assert_eq!(r, Err(AbiError::Schema { entry: 0, issue: SchemaIssue::MissingAnonymous }));

    let r = abi_from_json(r#"[{"type":"error","name":"E","inputs":[{"name":"a","type":"uint7"}]}]"#);
    assert_eq!(r, Err(AbiError::Schema { entry: 0, issue: SchemaIssue::InvalidType }));

    let r = abi_from_json(r#"[{"type":"error","name":"E","inputs":[{"name":"a","type":"tuple"}]}]"#);
    assert_eq!(r, Err(AbiError::Schema { entry: 0, issue: SchemaIssue::MissingComponents }));
}

#[test]
fn type_strings_outside_the_grammar_are_rejected() {
    for bad in [
        "bytes0", "bytes33", "uint", "int", "uint0", "uint7", "uint264", "int1000", "bytes032x",
        "uint8[", "uint8]", "uint8[x]", "uint8[-1]", "[]", "", "address ", "Address", "uint8[][",
        "uint99999999999999999999999999", "uint8[99999999999999999999999999]", "tuple2",
    ] {
        let json = format!(r#"{{"name": "a", "type": "{}"}}"#, bad);
        assert_eq!(param_from_json(&json), Err(SchemaIssue::InvalidType), "{}", bad);
    }
    assert_eq!(
        param_from_json(r#"{"name": "a", "type": "tuple[]"}"#),
        Err(SchemaIssue::MissingComponents)
    );
}

#[test]
fn numerals_may_have_leading_zeros() {
    assert_eq!(param_from_json(r#"{"name": "a", "type": "uint008"}"#).unwrap(), plain("a", Type::Uint(8)));
    assert_eq!(param_from_json(r#"{"name": "a", "type": "bytes032"}"#).unwrap(), plain("a", Type::FixedBytes(32)));
    assert_eq!(
        param_from_json(r#"{"name": "a", "type": "bool[03]"}"#).unwrap(),
        plain("a", Type::FixedArray(Box::new(Type::Bool), 3))
    );
}

#[test]
fn descriptors_are_stable_under_parsing_again() {
    let json = r#"{"name":"s","type":"tuple[2][]","indexed":true,"components":[
        {"name":"a","type":"int24"},
        {"name":"b","type":"tuple","components":[{"name":"","type":"bytes7[0]"},{"name":"z","type":"string[]"}]}]}"#;
    let param = param_from_json(json).unwrap();
    let entry = param.to_entry();
    assert_eq!(entry.type_, "tuple[2][]");
    assert_eq!(entry.indexed, Some(true));
    let again = Param::from_entry(&entry).unwrap();
    assert_eq!(again, param);
    assert_eq!(again.type_.to_string(), "(int24,(bytes7[0],string[]))[2][]");
    assert_eq!(param.type_.to_string(), again.type_.to_string());
}
