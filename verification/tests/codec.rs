use ethereum_abi::errors::{AbiError, Limits};
use ethereum_abi::types::Type;
use ethereum_abi::values::Value;
use ethereum_abi::word::{Address, Word};

fn word(last: u8) -> Vec<u8> {
    let mut w = vec![0u8; 32];
    w[31] = last;
    w
}

fn minus(n: u64) -> Word {
    // the two's-complement word of -n, for 0 < n
    let mut bytes = [0xffu8; 32];
    let v = (!n).wrapping_add(1);
    bytes[24..32].copy_from_slice(&v.to_be_bytes());
    Word { bytes }
}

fn round_trip(values: Vec<Value>) {
    let types: Vec<Type> = values.iter().map(|v| v.type_of()).collect();
    let bytes = Value::encode(&values).unwrap();
    assert_eq!(bytes.len() % 32, 0);
    let back = Value::decode_from_slice(&bytes, &types).unwrap();
    assert_eq!(back, values);
    for (v, t) in back.iter().zip(types.iter()) {
        assert_eq!(&v.type_of(), t);
        assert!(v.conforms_to(t));
    }
}

#[test]
fn encodes_bool_and_string() {
    let bytes = Value::encode(&[Value::Bool(true), Value::String("hi".to_string())]).unwrap();
    let mut expected = Vec::new();
    expected.extend(word(1));
    expected.extend(word(0x40));
    expected.extend(word(2));
    let mut text = vec![0u8; 32];
    text[0] = b'h';
    text[1] = b'i';
    expected.extend(text);
    assert_eq!(bytes.len(), 128);
    assert_eq!(bytes, expected);
}

#[test]
fn encodes_a_dynamic_tuple_with_its_own_head_and_tail() {
    let t = Value::Tuple(vec![
        ("a".to_string(), Value::Uint(Word::from_u64(7), 256)),
        ("b".to_string(), Value::String("xyz".to_string())),
    ]);
    assert_eq!(t.type_of().to_string(), "(uint256,string)");
    assert!(t.type_of().is_dynamic());
    assert!(t.is_dynamic());
    let bytes = Value::encode(&[Value::Uint(Word::from_u64(1), 256), t]).unwrap();
    let mut expected = Vec::new();
    expected.extend(word(1)); // n
    expected.extend(word(0x40)); // offset of the tuple
    expected.extend(word(7)); // a, in the tuple's own head
    expected.extend(word(0x40)); // offset of b, from the start of the tuple
    expected.extend(word(3));
    let mut text = vec![0u8; 32];
    text[..3].copy_from_slice(b"xyz");
    expected.extend(text);
    assert_eq!(bytes, expected);
}

#[test]
fn static_values_are_laid_out_in_place() {
    let addr = Address { bytes: [0xab; 20] };
    let values = vec![
        Value::Address(addr),
        Value::FixedBytes(vec![1, 2, 3]),
        Value::Int(minus(2), 16),
        Value::Bool(false),
        Value::FixedArray(vec![Value::Uint(Word::from_u64(5), 8), Value::Uint(Word::from_u64(6), 8)], Type::Uint(8)),
        Value::Tuple(vec![("".to_string(), Value::Bool(true))]),
    ];
    let bytes = Value::encode(&values).unwrap();
    let mut expected = vec![0u8; 12];
    expected.extend(vec![0xab; 20]);
    let mut fixed = vec![0u8; 32];
    fixed[..3].copy_from_slice(&[1, 2, 3]);
    expected.extend(fixed);
    let mut neg = vec![0xffu8; 32];
    neg[31] = 0xfe;
    expected.extend(neg);
    expected.extend(word(0));
    expected.extend(word(5));
    expected.extend(word(6));
    expected.extend(word(1));
    assert_eq!(bytes, expected);
    round_trip(values);
}

#[test]
fn empty_array_is_a_zero_length_and_nothing_else() {
    let bytes = Value::encode(&[Value::Array(vec![], Type::Uint(256))]).unwrap();
    let mut expected = word(0x20);
    expected.extend(word(0));
    assert_eq!(bytes, expected);
    round_trip(vec![Value::Array(vec![], Type::Uint(256))]);
    round_trip(vec![Value::Array(vec![], Type::Array(Box::new(Type::String)))]);
}

#[test]
fn empty_fixed_array_of_a_static_type_takes_no_bytes() {
    let v = Value::FixedArray(vec![], Type::Uint(8));
    assert!(!v.is_dynamic());
    assert_eq!(v.type_of().head_size(), Some(0));
    assert_eq!(Value::encode(&[v.clone()]).unwrap(), Vec::<u8>::new());
    round_trip(vec![v, Value::Bool(true)]);
    assert_eq!(Value::encode(&[]).unwrap(), Vec::<u8>::new());
    assert_eq!(Value::decode_from_slice(&[], &[]).unwrap(), vec![]);
}

#[test]
fn empty_fixed_array_of_a_dynamic_type_takes_no_bytes_either() {
    let v = Value::FixedArray(vec![], Type::String);
    assert!(!v.is_dynamic());
    assert!(!v.type_of().is_dynamic());
    assert!(Type::FixedArray(Box::new(Type::String), 1).is_dynamic());
    assert_eq!(v.type_of().head_size(), Some(0));
    assert_eq!(Value::encode(&[v.clone()]).unwrap(), Vec::<u8>::new());
    assert_eq!(Value::encode(&[v.clone(), Value::Bool(true)]).unwrap(), word(1));
    round_trip(vec![v.clone()]);
    round_trip(vec![v, Value::String("x".to_string())]);
}

#[test]
fn byte_strings_are_padded_to_whole_words() {
    let bytes = Value::encode(&[Value::Bytes(vec![9; 32])]).unwrap();
    assert_eq!(bytes.len(), 96);
    let bytes = Value::encode(&[Value::Bytes(vec![9; 33])]).unwrap();
    assert_eq!(bytes.len(), 128);
    assert_eq!(&bytes[64..97], &[9u8; 33][..]);
    assert_eq!(&bytes[97..], &[0u8; 31][..]);
    let bytes = Value::encode(&[Value::Bytes(vec![])]).unwrap();
    assert_eq!(bytes.len(), 64);
}

#[test]
fn round_trips() {
    round_trip(vec![
        Value::Uint(Word::from_u64(1), 8),
        Value::String("héllo, wörld €".to_string()),
        Value::Array(
            vec![
                Value::FixedArray(
                    vec![Value::String("a".to_string()), Value::String("".to_string())],
                    Type::String,
                ),
                Value::FixedArray(
                    vec![Value::String("bcd".to_string()), Value::String("e".repeat(70))],
                    Type::String,
                ),
            ],
            Type::FixedArray(Box::new(Type::String), 2),
        ),
        Value::Int(minus(128), 8),
        Value::Tuple(vec![
            ("x".to_string(), Value::Bytes(vec![1, 2, 3, 4, 5])),
            (
                "y".to_string(),
                Value::Tuple(vec![
                    ("".to_string(), Value::Int(Word::from_u64(127), 8)),
                    ("z".to_string(), Value::Array(vec![Value::Bool(true)], Type::Bool)),
                ]),
            ),
            ("w".to_string(), Value::FixedBytes(vec![0xff; 32])),
        ]),
        Value::Uint(Word { bytes: [0xff; 32] }, 256),
        Value::Int(Word { bytes: [0xff; 32] }, 256),
    ]);
}

#[test]
fn uint8_admits_0_to_255() {
    assert_eq!(Value::encode(&[Value::Uint(Word::from_u64(0), 8)]).unwrap(), word(0));
    assert_eq!(Value::encode(&[Value::Uint(Word::from_u64(255), 8)]).unwrap(), word(255));
    assert_eq!(Value::encode(&[Value::Uint(Word::from_u64(256), 8)]), Err(AbiError::InvalidValue));
    assert!(!Value::Uint(Word::from_u64(256), 8).is_valid());
    assert!(Value::Uint(Word::from_u64(256), 16).is_valid());
    assert!(Value::Uint(Word::from_u64(65535), 16).is_valid());
    assert!(!Value::Uint(Word::from_u64(65536), 16).is_valid());
    assert!(!Value::Uint(Word::from_u64(1), 7).is_valid());
    assert!(!Value::Uint(Word::from_u64(1), 0).is_valid());
    assert!(!Value::Uint(Word::from_u64(1), 264).is_valid());
}

#[test]
fn int8_admits_minus_128_to_127() {
    let mut low = vec![0xffu8; 32];
    low[31] = 0x80;
    assert_eq!(Value::encode(&[Value::Int(minus(128), 8)]).unwrap(), low);
    assert_eq!(Value::encode(&[Value::Int(Word::from_u64(127), 8)]).unwrap(), word(127));
    assert_eq!(Value::encode(&[Value::Int(minus(1), 8)]).unwrap(), vec![0xffu8; 32]);
    assert_eq!(Value::encode(&[Value::Int(Word::from_u64(128), 8)]), Err(AbiError::InvalidValue));
    assert_eq!(Value::encode(&[Value::Int(minus(129), 8)]), Err(AbiError::InvalidValue));
    assert!(Value::Int(minus(129), 16).is_valid());
    assert!(Value::Int(Word::from_u64(128), 16).is_valid());
}

#[test]
fn values_that_their_type_does_not_admit_are_not_encoded() {
    for bad in [
        Value::FixedBytes(vec![]),
        Value::FixedBytes(vec![0; 33]),
        Value::Array(vec![Value::Bool(true)], Type::Uint(8)),
        Value::FixedArray(vec![Value::Uint(Word::from_u64(1), 16)], Type::Uint(8)),
        Value::Array(vec![], Type::Uint(9)),
        Value::Tuple(vec![("a".to_string(), Value::Uint(Word::from_u64(256), 8))]),
        Value::Array(
            vec![Value::Tuple(vec![("a".to_string(), Value::Bool(true))])],
            Type::Tuple(vec![("b".to_string(), Type::Bool)]),
        ),
    ] {
        assert!(!bad.is_valid());
        assert_eq!(Value::encode(&[Value::Bool(true), bad]), Err(AbiError::InvalidValue));
    }
    let v = Value::FixedArray(vec![Value::Bool(true)], Type::Bool);
    assert!(v.conforms_to(&Type::FixedArray(Box::new(Type::Bool), 1)));
    assert!(!v.conforms_to(&Type::FixedArray(Box::new(Type::Bool), 2)));
    assert!(!Value::FixedBytes(vec![1, 2]).conforms_to(&Type::FixedBytes(3)));
}

#[test]
fn decoding_is_tolerant_of_what_the_width_leaves_out() {
    let mut w = vec![0xaau8; 32];
    w[31] = 0x81;
    w[30] = 0x01;
    let got = Value::decode_from_slice(&w, &[Type::Uint(8)]).unwrap();
    assert_eq!(got, vec![Value::Uint(Word::from_u64(0x81), 8)]);
    let got = Value::decode_from_slice(&w, &[Type::Uint(16)]).unwrap();
    assert_eq!(got, vec![Value::Uint(Word::from_u64(0x0181), 16)]);
    let got = Value::decode_from_slice(&w, &[Type::Int(8)]).unwrap();
    assert_eq!(got, vec![Value::Int(minus(127), 8)]);
    let got = Value::decode_from_slice(&w, &[Type::Int(16)]).unwrap();
    assert_eq!(got, vec![Value::Int(Word::from_u64(0x0181), 16)]);
    let got = Value::decode_from_slice(&w, &[Type::Bool]).unwrap();
    assert_eq!(got, vec![Value::Bool(true)]);
    let got = Value::decode_from_slice(&word(0), &[Type::Bool]).unwrap();
    assert_eq!(got, vec![Value::Bool(false)]);
    let got = Value::decode_from_slice(&w, &[Type::Address]).unwrap();
    let mut a = [0xaau8; 20];
    a[19] = 0x81;
    a[18] = 0x01;
    assert_eq!(got, vec![Value::Address(Address { bytes: a })]);
    let got = Value::decode_from_slice(&w, &[Type::FixedBytes(2)]).unwrap();
    assert_eq!(got, vec![Value::FixedBytes(vec![0xaa, 0xaa])]);
    for v in Value::decode_from_slice(&w, &[Type::Uint(8)]).unwrap() {
        assert!(v.is_valid());
    }
}

#[test]
fn text_that_is_not_utf8_is_read_with_replacement_characters() {
    let mut bytes = word(0x20);
    bytes.extend(word(3));
    let mut text = vec![0u8; 32];
    text[..3].copy_from_slice(&[b'a', 0xff, b'b']);
    bytes.extend(text);
    let got = Value::decode_from_slice(&bytes, &[Type::String]).unwrap();
    assert_eq!(got, vec![Value::String("a\u{fffd}b".to_string())]);
    let got = Value::decode_from_slice(&bytes, &[Type::Bytes]).unwrap();
    assert_eq!(got, vec![Value::Bytes(vec![b'a', 0xff, b'b'])]);
}

#[test]
fn short_data_and_offsets_that_point_outside_fail() {
    assert_eq!(Value::decode_from_slice(&[0u8; 31], &[Type::Uint(8)]), Err(AbiError::ShortInput));
    assert_eq!(
        Value::decode_from_slice(&[0u8; 63], &[Type::Uint(8), Type::Bool]),
        Err(AbiError::ShortInput)
    );
    // an offset past the end
    assert_eq!(Value::decode_from_slice(&word(0x20), &[Type::Bytes]), Err(AbiError::ShortInput));
    assert_eq!(Value::decode_from_slice(&word(0x21), &[Type::String]), Err(AbiError::ShortInput));
    assert_eq!(
        Value::decode_from_slice(&[0xffu8; 32], &[Type::Bytes]),
        Err(AbiError::ShortInput)
    );
    // a length that the data does not hold
    let mut bytes = word(0x20);
    bytes.extend(word(1));
    assert_eq!(Value::decode_from_slice(&bytes, &[Type::Bytes]), Err(AbiError::ShortInput));
    bytes.push(7);
    assert_eq!(
        Value::decode_from_slice(&bytes, &[Type::Bytes]).unwrap(),
        vec![Value::Bytes(vec![7])]
    );
    // an array that declares more elements than follow
    let mut bytes = word(0x20);
    bytes.extend(word(2));
    bytes.extend(word(1));
    assert_eq!(
        Value::decode_from_slice(&bytes, &[Type::Array(Box::new(Type::Uint(8)))]),
        Err(AbiError::ShortInput)
    );
    // a fixed array larger than any data
    assert_eq!(
        Value::decode_from_slice(
            &bytes,
            &[Type::FixedArray(Box::new(Type::FixedArray(Box::new(Type::Bool), usize::MAX)), usize::MAX)]
        ),
        Err(AbiError::ShortInput)
    );
    assert_eq!(
        Value::decode_from_slice(&bytes, &[Type::FixedArray(Box::new(Type::Bool), usize::MAX / 2)]),
        Err(AbiError::ShortInput)
    );
}

#[test]
fn types_that_are_not_well_formed_are_not_decoded() {
    assert_eq!(Value::decode_from_slice(&word(1), &[Type::Uint(7)]), Err(AbiError::InvalidType));
    assert_eq!(Value::decode_from_slice(&word(1), &[Type::FixedBytes(0)]), Err(AbiError::InvalidType));
    assert_eq!(
        Value::decode_from_slice(&word(1), &[Type::Bool, Type::Array(Box::new(Type::Int(257)))]),
        Err(AbiError::InvalidType)
    );
    assert!(!Type::Tuple(vec![("a".to_string(), Type::FixedBytes(33))]).is_valid());
    assert!(Type::Tuple(vec![]).is_valid());
}

#[test]
fn limits_are_enforced() {
    // an array of empty tuples costs no data for its elements
    let mut bytes = word(0x20);
    bytes.extend(word(3));
    let ty = Type::Array(Box::new(Type::Tuple(vec![])));
    let got = Value::decode_from_slice(&bytes, &[ty.clone()]).unwrap();
    assert_eq!(got, vec![Value::Array(vec![Value::Tuple(vec![]); 3], Type::Tuple(vec![]))]);
    let tight = Limits { max_depth: 32, max_array_len: 2 };
    assert_eq!(
        Value::decode_from_slice_within(&bytes, &[ty.clone()], &tight),
        Err(AbiError::LimitExceeded)
    );
    let mut huge = word(0x20);
    huge.extend(vec![0xffu8; 32]);
    assert_eq!(Value::decode_from_slice(&huge, &[ty.clone()]), Err(AbiError::LimitExceeded));
    let mut many = word(0x20);
    let mut count = vec![0u8; 32];
    count[29] = 0x10;
    count[31] = 0x01;
    many.extend(count);
    assert_eq!(Value::decode_from_slice(&many, &[ty.clone()]), Err(AbiError::LimitExceeded));

    let shallow = Limits { max_depth: 1, max_array_len: 10 };
    assert_eq!(
        Value::decode_from_slice_within(&bytes, &[ty.clone()], &shallow),
        Err(AbiError::LimitExceeded)
    );
    let deep = Limits { max_depth: 2, max_array_len: 10 };
    assert!(Value::decode_from_slice_within(&bytes, &[ty], &deep).is_ok());
    let none = Limits { max_depth: 0, max_array_len: 10 };
    assert_eq!(
        Value::decode_from_slice_within(&word(1), &[Type::Uint(8)], &none).unwrap(),
        vec![Value::Uint(Word::from_u64(1), 8)]
    );
    assert_eq!(
        Value::decode_from_slice_within(&word(1), &[Type::Tuple(vec![])], &none),
        Err(AbiError::LimitExceeded)
    );

    let mut nested = Type::Bool;
    for _ in 0..33 {
        nested = Type::FixedArray(Box::new(nested), 1);
    }
    assert!(!nested.depth_within(32));
    assert!(nested.depth_within(33));
    assert_eq!(Value::decode_from_slice(&word(1), &[nested]), Err(AbiError::LimitExceeded));
}

#[test]
fn head_sizes_and_canonical_forms() {
    let t = Type::FixedArray(Box::new(Type::Tuple(vec![
        ("a".to_string(), Type::Uint(8)),
        ("b".to_string(), Type::FixedArray(Box::new(Type::Address), 3)),
    ])), 2);
    assert!(!t.is_dynamic());
    assert_eq!(t.head_size(), Some(256));
    assert_eq!(t.to_string(), "(uint8,address[3])[2]");
    assert_eq!(Type::Array(Box::new(t.clone())).head_size(), Some(32));
    assert_eq!(Type::Tuple(vec![("s".to_string(), Type::String), ("u".to_string(), Type::Uint(8))]).head_size(), Some(32));
    assert_eq!(Type::Tuple(vec![]).head_size(), Some(0));
    assert_eq!(Type::Tuple(vec![]).to_string(), "()");
    assert_eq!(Type::FixedBytes(7).to_string(), "bytes7");
    assert_eq!(Type::Int(104).to_string(), "int104");
    assert_eq!(Type::FixedArray(Box::new(Type::Bool), usize::MAX).head_size(), None);
    assert!(t.same_as(&t.clone()));
    assert!(!t.same_as(&Type::Bool));
}

#[test]
fn words_and_numbers() {
    assert_eq!(Word::from_u64(0), Word::zero());
    assert_eq!(Word::from_u128(0x0102).bytes[30..], [1u8, 2]);
    assert_eq!(Word::from_usize(77).to_usize(), Some(77));
    assert_eq!(Word { bytes: [1; 32] }.to_usize(), None);
    assert_eq!(Word::from_u128(u128::MAX).to_usize(), None);
    assert!(Word::zero().is_zero());
    assert!(!Word::from_u64(1 << 40).is_zero());
    assert_eq!(Word::from_bytes([3; 32]).to_bytes(), [3u8; 32]);
    assert_eq!(Word::from_i64(-1), Word { bytes: [0xff; 32] });
    assert_eq!(Word::from_i64(-128), minus(128));
    assert_eq!(Word::from_i64(77), Word::from_u64(77));
    assert_eq!(Word::from_i64(i64::MIN).bytes[..24], [0xffu8; 24]);
    assert_eq!(Word::from_i64(i64::MIN).bytes[24..], [0x80u8, 0, 0, 0, 0, 0, 0, 0]);
    assert_eq!(Word::from_i128(i128::MIN).bytes[..17], {
        let mut b = [0xffu8; 17];
        b[16] = 0x80;
        b
    });
    assert_eq!(Word::from_i128(i128::MAX), Word::from_u128(i128::MAX as u128));
    assert_eq!(Word::from_i128(-2).bytes[31], 0xfe);
}

#[test]
fn encoding_as_declared_types_checks_the_values_against_them() {
    let two = Type::FixedArray(Box::new(Type::Uint(8)), 2);
    let v = Value::FixedArray(
        vec![Value::Uint(Word::from_u64(1), 8), Value::Uint(Word::from_u64(2), 8)],
        Type::Uint(8),
    );
    let mut expected = word(1);
    expected.extend(word(2));
    assert_eq!(Value::encode_as(&[v.clone()], &[two.clone()]).unwrap(), expected);
    // a fixed array of another length
    let three = Type::FixedArray(Box::new(Type::Uint(8)), 3);
    assert_eq!(Value::encode_as(&[v.clone()], &[three]), Err(AbiError::InvalidValue));
    // a fixed byte string of another length
    assert_eq!(
        Value::encode_as(&[Value::FixedBytes(vec![1, 2])], &[Type::FixedBytes(3)]),
        Err(AbiError::InvalidValue)
    );
    assert_eq!(
        Value::encode_as(&[Value::FixedBytes(vec![1, 2, 3])], &[Type::FixedBytes(3)]).unwrap().len(),
        32
    );
    // an integer outside its width, or of another width
    assert_eq!(
        Value::encode_as(&[Value::Uint(Word::from_u64(256), 8)], &[Type::Uint(8)]),
        Err(AbiError::InvalidValue)
    );
    assert_eq!(
        Value::encode_as(&[Value::Uint(Word::from_u64(1), 16)], &[Type::Uint(8)]),
        Err(AbiError::InvalidValue)
    );
    assert_eq!(
        Value::encode_as(&[Value::Int(Word::from_i64(-129), 8)], &[Type::Int(8)]),
        Err(AbiError::InvalidValue)
    );
    assert_eq!(Value::encode_as(&[Value::Int(Word::from_i64(-128), 8)], &[Type::Int(8)]).unwrap().len(), 32);
    // not one value for each type
    assert_eq!(Value::encode_as(&[v.clone()], &[]), Err(AbiError::InvalidValue));
    assert_eq!(Value::encode_as(&[], &[two]), Err(AbiError::InvalidValue));
    // names of tuple fields are part of the type
    let t = Value::Tuple(vec![("a".to_string(), Value::Bool(true))]);
    assert!(Value::encode_as(&[t.clone()], &[Type::Tuple(vec![("a".to_string(), Type::Bool)])]).is_ok());
    assert_eq!(
        Value::encode_as(&[t], &[Type::Tuple(vec![("b".to_string(), Type::Bool)])]),
        Err(AbiError::InvalidValue)
    );
}

#[test]
fn heads_hold_one_offset_for_each_dynamic_value() {
    let values = vec![
        Value::Uint(Word::from_u64(7), 64),
        Value::String("one".to_string()),
        Value::FixedArray(vec![Value::Bool(true), Value::Bool(false)], Type::Bool),
        Value::Array(vec![Value::Bytes(vec![1; 40]), Value::Bytes(vec![])], Type::Bytes),
        Value::Bytes(vec![2; 5]),
    ];
    let bytes = Value::encode(&values).unwrap();
    let head: usize = values.iter().map(|v| v.type_of().head_size().unwrap()).sum();
    assert_eq!(head, 32 + 32 + 64 + 32 + 32);
    assert!(bytes.len() >= head);
    let mut place = 0;
    let mut expected = head;
    for v in &values {
        if v.is_dynamic() {
            let offset = Word::from_bytes(bytes[place..place + 32].try_into().unwrap())
                .to_usize()
                .unwrap();
            assert!(offset >= head && offset <= bytes.len());
            assert_eq!(offset, expected);
            let body = Value::encode(&[v.clone()]).unwrap();
            // the body of a value alone stands behind its own offset word
            assert_eq!(&bytes[offset..offset + body.len() - 32], &body[32..]);
            expected += body.len() - 32;
        }
        place += v.type_of().head_size().unwrap();
    }
    assert_eq!(place, head);
    assert_eq!(expected, bytes.len());
}
