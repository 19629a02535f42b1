use ethereum_abi::abi::{Abi, Event, Function, StateMutability};
use ethereum_abi::decoded_params::DecodedParams;
use ethereum_abi::errors::{AbiError, Limits, SchemaIssue};
use ethereum_abi::params::Param;
use ethereum_abi::types::Type;
use ethereum_abi::values::Value;
use ethereum_abi::word::{Address, Word};

fn test_function() -> Function {
    Function {
        name: "funname".to_string(),
        inputs: vec![
            Param {
                name: "".to_string(),
                type_: Type::Address,
                indexed: None,
            },
            Param {
                name: "x".to_string(),
                type_: Type::FixedArray(Box::new(Type::Uint(56)), 2),
                indexed: None,
            },
        ],
        outputs: vec![],
        state_mutability: StateMutability::Pure,
    }
}

fn abi_of(functions: Vec<Function>, events: Vec<Event>) -> Abi {
    Abi {
        constructor: None,
        functions,
        events,
        errors: vec![],
        has_receive: false,
        has_fallback: false,
    }
}

fn f_uint256() -> Function {
    Function {
        name: "f".to_string(),
        inputs: vec![Param { name: "x".to_string(), type_: Type::Uint(256), indexed: None }],
        outputs: vec![],
        state_mutability: StateMutability::NonPayable,
    }
}

fn word_of(last: u8) -> Vec<u8> {
    let mut w = vec![0u8; 32];
    w[31] = last;
    w
}

fn hex_of(bytes: &[u8]) -> String {
    let mut s = String::new();
    for b in bytes {
        s.push_str(&format!("{:02x}", b));
    }
    s
}

#[test]
fn function_signature() {
    let fun = test_function();
    assert_eq!(fun.signature(), "funname(address,uint56[2])");
}

#[test]
fn function_method_id() {
    let fun = test_function();
    assert_eq!(fun.method_id(), [0x83, 0x1f, 0xc7, 0x20]);
}

#[test]
fn abi_function_decode_input_from_slice() {
    let addr = Address {
        bytes: [
            0xde, 0xad, 0xbe, 0xef, 0x01, 0x02, 0x03, 0x04, 0x05, 0x06, 0x07, 0x08, 0x09, 0x0a,
            0x0b, 0x0c, 0x0d, 0x0e, 0x0f, 0x10,
        ],
    };
    let uint1 = Word::from_u64(37);
    let uint2 = Word::from_u64(109);

    let input_values = vec![
        Value::Address(addr),
        Value::FixedArray(
            vec![Value::Uint(uint1, 56), Value::Uint(uint2, 56)],
            Type::Uint(56),
        ),
    ];

    let fun = test_function();
    let abi = abi_of(vec![fun], vec![]);

    let mut enc_input = abi.functions[0].method_id().to_vec();
    enc_input.extend(Value::encode(&input_values).unwrap());

    let dec = abi
        .decode_input_from_slice(&enc_input)
        .expect("decode_input_from_slice failed");

    let expected_decoded_params = DecodedParams::from(
        abi.functions[0]
            .inputs
            .iter()
            .cloned()
            .zip(input_values)
            .collect::<Vec<(Param, Value)>>(),
    );

    assert_eq!(dec, (&abi.functions[0], expected_decoded_params));
}

#[test]
fn selector_of_f_uint256() {
    let f = f_uint256();
    assert_eq!(f.signature(), "f(uint256)");
    assert_eq!(f.method_id(), [0xb3, 0xde, 0x64, 0x8b]);
}

#[test]
fn selector_ignores_parameter_names() {
    let mut f = test_function();
    let id = f.method_id();
    f.inputs[0].name = "owner".to_string();
    f.inputs[1].name = "".to_string();
    assert_eq!(f.method_id(), id);
    f.name = "funnamf".to_string();
    assert_ne!(f.method_id(), id);

    let named = Function {
        name: "g".to_string(),
        inputs: vec![Param {
            name: "p".to_string(),
            type_: Type::Tuple(vec![("a".to_string(), Type::Uint(8)), ("b".to_string(), Type::Bool)]),
            indexed: None,
        }],
        outputs: vec![],
        state_mutability: StateMutability::View,
    };
    let renamed = Function {
        name: "g".to_string(),
        inputs: vec![Param {
            name: "q".to_string(),
            type_: Type::Tuple(vec![("x".to_string(), Type::Uint(8)), ("".to_string(), Type::Bool)]),
            indexed: None,
        }],
        outputs: vec![],
        state_mutability: StateMutability::View,
    };
    assert_eq!(named.signature(), "g((uint8,bool))");
    assert_eq!(named.signature(), renamed.signature());
    assert_eq!(named.method_id(), renamed.method_id());
}

#[test]
fn decodes_calldata_of_f_uint256() {
    let abi = abi_of(vec![test_function(), f_uint256()], vec![]);
    let mut input = vec![0xb3, 0xde, 0x64, 0x8b];
    input.extend(word_of(0x2a));
    let (f, params) = abi.decode_input_from_slice(&input).unwrap();
    assert_eq!(f, &abi.functions[1]);
    assert_eq!(params.len(), 1);
    assert_eq!(
        params.items,
        vec![(abi.functions[1].inputs[0].clone(), Value::Uint(Word::from_u64(42), 256))]
    );
    assert_eq!(params.get_by_name("x"), Some(&Value::Uint(Word::from_u64(42), 256)));
    assert_eq!(params.get_by_name("y"), None);
    assert_eq!(params.get(0).map(|p| &p.1), Some(&Value::Uint(Word::from_u64(42), 256)));
    assert!(params.get(1).is_none());
}

#[test]
fn calldata_errors() {
    let abi = abi_of(vec![f_uint256()], vec![]);
    assert_eq!(abi.decode_input_from_slice(&[0xb3, 0xde, 0x64]), Err(AbiError::ShortInput));
    assert_eq!(abi.decode_input_from_slice(&[]), Err(AbiError::ShortInput));
    assert_eq!(
        abi.decode_input_from_slice(&[0xb3, 0xde, 0x64, 0x8c]),
        Err(AbiError::UnknownSelector)
    );
    assert_eq!(
        abi.decode_input_from_slice(&[0xb3, 0xde, 0x64, 0x8b, 0x00]),
        Err(AbiError::ShortInput)
    );
}

#[test]
fn first_function_with_the_selector_wins() {
    let mut second = f_uint256();
    second.inputs[0].name = "other".to_string();
    let abi = abi_of(vec![f_uint256(), second], vec![]);
    let mut input = vec![0xb3, 0xde, 0x64, 0x8b];
    input.extend(word_of(1));
    let (f, params) = abi.decode_input_from_slice(&input).unwrap();
    assert_eq!(f.inputs[0].name, "x");
    assert_eq!(params.items[0].0.name, "x");
}

#[test]
fn decodes_calldata_from_hex_text() {
    let abi = abi_of(vec![f_uint256()], vec![]);
    let mut input = vec![0xb3, 0xde, 0x64, 0x8b];
    input.extend(word_of(0x2a));
    let text = hex_of(&input);
    let (f, params) = abi.decode_input_from_hex(&text).unwrap();
    assert_eq!(f.name, "f");
    assert_eq!(params.items[0].1, Value::Uint(Word::from_u64(42), 256));
    let upper = text.to_uppercase();
    assert_eq!(abi.decode_input_from_hex(&upper).unwrap().1, params);

    assert_eq!(abi.decode_input_from_hex(&format!("0x{}", text)), Err(AbiError::InvalidHex));
    assert_eq!(abi.decode_input_from_hex("b3de648"), Err(AbiError::InvalidHex));
    assert_eq!(abi.decode_input_from_hex("zz"), Err(AbiError::InvalidHex));
    assert_eq!(abi.decode_input_from_hex("b3de"), Err(AbiError::ShortInput));
    assert_eq!(abi.decode_input_from_hex(""), Err(AbiError::ShortInput));
}

fn transfer_event(anonymous: bool) -> Event {
    Event {
        name: "Transfer".to_string(),
        inputs: vec![
            Param { name: "from".to_string(), type_: Type::Address, indexed: Some(true) },
            Param { name: "to".to_string(), type_: Type::Address, indexed: Some(true) },
            Param { name: "value".to_string(), type_: Type::Uint(256), indexed: Some(false) },
        ],
        anonymous,
    }
}

fn address_topic(last: u8) -> (Word, Value) {
    let mut t = [0u8; 32];
    let mut a = [0u8; 20];
    for i in 0..20 {
        t[12 + i] = (i as u8) ^ last;
        a[i] = (i as u8) ^ last;
    }
    (Word { bytes: t }, Value::Address(Address { bytes: a }))
}

#[test]
fn event_topic_is_the_whole_digest() {
    let e = transfer_event(false);
    assert_eq!(e.signature(), "Transfer(address,address,uint256)");
    assert_eq!(
        hex_of(&e.topic().bytes),
        "ddf252ad1be2c89b69c2b068fc378daa952ba7f163c4a11628f55a4df523b3ef"
    );
}

#[test]
fn decodes_a_log() {
    let e = transfer_event(false);
    let abi = abi_of(vec![], vec![e]);
    let (from_topic, from) = address_topic(0x10);
    let (to_topic, to) = address_topic(0x77);
    let topics = vec![abi.events[0].topic(), from_topic, to_topic];
    let data = word_of(9);
    let (found, params) = abi.decode_log_from_slice(&topics, &data).unwrap();
    assert_eq!(found, &abi.events[0]);
    assert_eq!(
        params.items,
        vec![
            (abi.events[0].inputs[0].clone(), from),
            (abi.events[0].inputs[1].clone(), to),
            (abi.events[0].inputs[2].clone(), Value::Uint(Word::from_u64(9), 256)),
        ]
    );
}

#[test]
fn log_errors() {
    let e = transfer_event(false);
    let abi = abi_of(vec![], vec![e]);
    let (t1, _) = address_topic(1);
    let (t2, _) = address_topic(2);
    let id = abi.events[0].topic();
    let data = word_of(9);
    assert_eq!(abi.decode_log_from_slice(&[], &data), Err(AbiError::MissingTopic));
    assert_eq!(abi.decode_log_from_slice(&[t1, t1, t2], &data), Err(AbiError::UnknownTopic));
    assert_eq!(
        abi.decode_log_from_slice(&[id, t1], &data),
        Err(AbiError::IndexedArityMismatch)
    );
    assert_eq!(
        abi.decode_log_from_slice(&[id, t1, t2, t2], &data),
        Err(AbiError::IndexedArityMismatch)
    );
    assert_eq!(abi.decode_log_from_slice(&[id, t1, t2], &data[1..]), Err(AbiError::ShortInput));
    assert_eq!(abi.events[0].decode_data_from_slice(&[], &data), Err(AbiError::MissingTopic));
    assert_eq!(
        abi.events[0].decode_data_from_slice(&[t1, t1, t2], &data),
        Err(AbiError::UnknownTopic)
    );
}

#[test]
fn anonymous_event_takes_every_topic_as_a_value() {
    let e = transfer_event(true);
    let (t1, v1) = address_topic(1);
    let (t2, v2) = address_topic(2);
    let data = word_of(5);
    let params = e.decode_data_from_slice(&[t1, t2], &data).unwrap();
    assert_eq!(params.items[0].1, v1);
    assert_eq!(params.items[1].1, v2);
    assert_eq!(params.items[2].1, Value::Uint(Word::from_u64(5), 256));
    assert_eq!(e.decode_data_from_slice(&[t1], &data), Err(AbiError::IndexedArityMismatch));
    assert_eq!(
        e.decode_data_from_slice(&[t1, t2, t2], &data),
        Err(AbiError::IndexedArityMismatch)
    );
    assert_eq!(e.decode_data_from_slice(&[], &data), Err(AbiError::IndexedArityMismatch));
}

#[test]
fn indexed_string_is_the_raw_topic() {
    let e = Event {
        name: "Named".to_string(),
        inputs: vec![
            Param { name: "n".to_string(), type_: Type::Uint(8), indexed: Some(false) },
            Param { name: "s".to_string(), type_: Type::String, indexed: Some(true) },
            Param {
                name: "t".to_string(),
                type_: Type::Tuple(vec![("a".to_string(), Type::Bool)]),
                indexed: Some(true),
            },
            Param {
                name: "d".to_string(),
                type_: Type::FixedArray(Box::new(Type::Bytes), 2),
                indexed: Some(true),
            },
            Param { name: "b".to_string(), type_: Type::Bool, indexed: Some(true) },
        ],
        anonymous: false,
    };
    let mut raw = [0u8; 32];
    for i in 0..32 {
        raw[i] = 0xf0 ^ (i as u8);
    }
    let topic = Word { bytes: raw };
    let one = Word::from_u64(1);
    let data = word_of(200);
    let params = e.decode_data_from_slice(&[e.topic(), topic, topic, topic, one], &data).unwrap();
    assert_eq!(params.items[0].1, Value::Uint(Word::from_u64(200), 8));
    assert_eq!(params.items[1].1, Value::FixedBytes(raw.to_vec()));
    assert_eq!(params.items[2].1, Value::FixedBytes(raw.to_vec()));
    assert_eq!(params.items[3].1, Value::FixedBytes(raw.to_vec()));
    assert_eq!(params.items[4].1, Value::Bool(true));
    assert_eq!(params.items[1].0.name, "s");
}

#[test]
fn static_indexed_array_of_two_words_does_not_fit_a_topic() {
    let e = Event {
        name: "Pair".to_string(),
        inputs: vec![Param {
            name: "p".to_string(),
            type_: Type::FixedArray(Box::new(Type::Uint(8)), 2),
            indexed: Some(true),
        }],
        anonymous: true,
    };
    assert_eq!(e.decode_data_from_slice(&[Word::from_u64(1)], &[]), Err(AbiError::ShortInput));
    let single = Event {
        name: "Single".to_string(),
        inputs: vec![Param {
            name: "p".to_string(),
            type_: Type::FixedArray(Box::new(Type::Uint(8)), 1),
            indexed: Some(true),
        }],
        anonymous: true,
    };
    let params = single.decode_data_from_slice(&[Word::from_u64(1)], &[]).unwrap();
    assert_eq!(
        params.items[0].1,
        Value::FixedArray(vec![Value::Uint(Word::from_u64(1), 8)], Type::Uint(8))
    );
}

#[test]
fn parameters_without_a_name_are_reached_by_place_only() {
    let d = DecodedParams::from(vec![
        (Param { name: "".to_string(), type_: Type::Bool, indexed: None }, Value::Bool(true)),
        (Param { name: "a".to_string(), type_: Type::Bool, indexed: None }, Value::Bool(false)),
        (Param { name: "a".to_string(), type_: Type::Bool, indexed: None }, Value::Bool(true)),
    ]);
    assert_eq!(d.len(), 3);
    assert!(!d.is_empty());
    assert_eq!(d.get_by_name(""), None);
    assert_eq!(d.get_by_name("a"), Some(&Value::Bool(false)));
    assert_eq!(d.get(0).map(|p| &p.1), Some(&Value::Bool(true)));
    assert!(d.get(3).is_none());
}

#[test]
fn standard_limits_are_depth_32_and_a_million_elements() {
    let l = Limits::standard();
    assert_eq!(l.max_depth, 32);
    assert_eq!(l.max_array_len, 1 << 20);
}

#[test]
fn errors_in_words() {
    assert_eq!(AbiError::UnknownSelector.message(), "ABI function not found");
    assert_eq!(AbiError::UnknownTopic.message(), "ABI event not found");
    assert_eq!(AbiError::MissingTopic.message(), "missing event topic id");
    assert_eq!(AbiError::ShortInput.message(), "input too short");
    assert_eq!(
        AbiError::Schema { entry: 12, issue: SchemaIssue::UnknownEntryType }.message(),
        "ABI entry 12: invalid ABI entry type"
    );
    assert_eq!(
        AbiError::Schema { entry: 0, issue: SchemaIssue::MissingAnonymous }.message(),
        "ABI entry 0: missing event anonymous field"
    );
    assert_eq!(SchemaIssue::MissingComponents.message(), "tuple without components");
}

fn unhex(s: &str) -> Vec<u8> {
    let digits: Vec<u8> = s.bytes().filter(|b| !b.is_ascii_whitespace()).collect();
    digits
        .chunks(2)
        .map(|p| {
            let hi = (p[0] as char).to_digit(16).unwrap() as u8;
            let lo = (p[1] as char).to_digit(16).unwrap() as u8;
            hi * 16 + lo
        })
        .collect()
}

fn unnamed(type_: Type) -> Param {
    Param { name: "".to_string(), type_, indexed: None }
}

#[test]
fn well_known_calldata() {
    // sam("dave", true, [1, 2, 3])
    let sam = Function {
        name: "sam".to_string(),
        inputs: vec![
            unnamed(Type::Bytes),
            unnamed(Type::Bool),
            unnamed(Type::Array(Box::new(Type::Uint(256)))),
        ],
        outputs: vec![],
        state_mutability: StateMutability::Pure,
    };
    assert_eq!(sam.signature(), "sam(bytes,bool,uint256[])");
    assert_eq!(sam.method_id(), [0xa5, 0x64, 0x3b, 0xf2]);
    let args = vec![
        Value::Bytes(b"dave".to_vec()),
        Value::Bool(true),
        Value::Array(
            vec![
                Value::Uint(Word::from_u64(1), 256),
                Value::Uint(Word::from_u64(2), 256),
                Value::Uint(Word::from_u64(3), 256),
            ],
            Type::Uint(256),
        ),
    ];
    let expected = unhex(
        "0000000000000000000000000000000000000000000000000000000000000060
         0000000000000000000000000000000000000000000000000000000000000001
         00000000000000000000000000000000000000000000000000000000000000a0
         0000000000000000000000000000000000000000000000000000000000000004
         6461766500000000000000000000000000000000000000000000000000000000
         0000000000000000000000000000000000000000000000000000000000000003
         0000000000000000000000000000000000000000000000000000000000000001
         0000000000000000000000000000000000000000000000000000000000000002
         0000000000000000000000000000000000000000000000000000000000000003",
    );
    assert_eq!(Value::encode(&args).unwrap(), expected);
    let decoded = sam.decode_input_from_slice(&expected).unwrap();
    let values: Vec<Value> = decoded.items.into_iter().map(|p| p.1).collect();
    assert_eq!(values, args);

    // f(0x123, [0x456, 0x789], "1234567890", "Hello, world!")
    let f = Function {
        name: "f".to_string(),
        inputs: vec![
            unnamed(Type::Uint(256)),
            unnamed(Type::Array(Box::new(Type::Uint(32)))),
            unnamed(Type::FixedBytes(10)),
            unnamed(Type::Bytes),
        ],
        outputs: vec![],
        state_mutability: StateMutability::Pure,
    };
    assert_eq!(f.method_id(), [0x8b, 0xe6, 0x52, 0x46]);
    let args = vec![
        Value::Uint(Word::from_u64(0x123), 256),
        Value::Array(
            vec![Value::Uint(Word::from_u64(0x456), 32), Value::Uint(Word::from_u64(0x789), 32)],
            Type::Uint(32),
        ),
        Value::FixedBytes(b"1234567890".to_vec()),
        Value::Bytes(b"Hello, world!".to_vec()),
    ];
    let expected = unhex(
        "0000000000000000000000000000000000000000000000000000000000000123
         0000000000000000000000000000000000000000000000000000000000000080
         3132333435363738393000000000000000000000000000000000000000000000
         00000000000000000000000000000000000000000000000000000000000000e0
         0000000000000000000000000000000000000000000000000000000000000002
         0000000000000000000000000000000000000000000000000000000000000456
         0000000000000000000000000000000000000000000000000000000000000789
         000000000000000000000000000000000000000000000000000000000000000d
         48656c6c6f2c20776f726c642100000000000000000000000000000000000000",
    );
    assert_eq!(Value::encode(&args).unwrap(), expected);
    let mut calldata = f.method_id().to_vec();
    calldata.extend(&expected);
    let abi = abi_of(vec![sam, f], vec![]);
    let (found, decoded) = abi.decode_input_from_slice(&calldata).unwrap();
    assert_eq!(found.name, "f");
    let values: Vec<Value> = decoded.items.into_iter().map(|p| p.1).collect();
    assert_eq!(values, args);

    // g([[1, 2], [3]], ["one", "two", "three"])
    let args = vec![
        Value::Array(
            vec![
                Value::Array(
                    vec![Value::Uint(Word::from_u64(1), 256), Value::Uint(Word::from_u64(2), 256)],
                    Type::Uint(256),
                ),
                Value::Array(vec![Value::Uint(Word::from_u64(3), 256)], Type::Uint(256)),
            ],
            Type::Array(Box::new(Type::Uint(256))),
        ),
        Value::Array(
            vec![
                Value::String("one".to_string()),
                Value::String("two".to_string()),
                Value::String("three".to_string()),
            ],
            Type::String,
        ),
    ];
    let expected = unhex(
        "0000000000000000000000000000000000000000000000000000000000000040
         0000000000000000000000000000000000000000000000000000000000000140
         0000000000000000000000000000000000000000000000000000000000000002
         0000000000000000000000000000000000000000000000000000000000000040
         00000000000000000000000000000000000000000000000000000000000000a0
         0000000000000000000000000000000000000000000000000000000000000002
         0000000000000000000000000000000000000000000000000000000000000001
         0000000000000000000000000000000000000000000000000000000000000002
         0000000000000000000000000000000000000000000000000000000000000001
         0000000000000000000000000000000000000000000000000000000000000003
         0000000000000000000000000000000000000000000000000000000000000003
         0000000000000000000000000000000000000000000000000000000000000060
         00000000000000000000000000000000000000000000000000000000000000a0
         00000000000000000000000000000000000000000000000000000000000000e0
         0000000000000000000000000000000000000000000000000000000000000003
         6f6e650000000000000000000000000000000000000000000000000000000000
         0000000000000000000000000000000000000000000000000000000000000003
         74776f0000000000000000000000000000000000000000000000000000000000
         0000000000000000000000000000000000000000000000000000000000000005
         7468726565000000000000000000000000000000000000000000000000000000",
    );
    assert_eq!(Value::encode(&args).unwrap(), expected);
    let types: Vec<Type> = args.iter().map(|v| v.type_of()).collect();
    assert_eq!(Value::decode_from_slice(&expected, &types).unwrap(), args);
}
