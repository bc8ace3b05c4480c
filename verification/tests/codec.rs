use param_codec::decode::decode;
use param_codec::encode::{encode, try_encode};
use param_codec::format::DecodeError;
use param_codec::hash40::Hash40;
use param_codec::param::ParamValue;

fn sample_struct() -> ParamValue {
    ParamValue::Struct(vec![
        (Hash40(0x123456789A), ParamValue::Bool(true)),
        (Hash40(0x0000000001), ParamValue::I32(-5)),
    ])
}

#[test]
fn struct_with_two_entries_round_trips() {
    let tree = sample_struct();
    let bytes = encode(&tree);
    let back = decode(&bytes).unwrap();
    assert_eq!(back, tree);
    match back {
        ParamValue::Struct(entries) => {
            assert_eq!(entries.len(), 2);
            assert_eq!(entries[0], (Hash40(0x123456789A), ParamValue::Bool(true)));
            assert_eq!(entries[1], (Hash40(0x0000000001), ParamValue::I32(-5)));
        }
        _ => panic!("the root is a struct"),
    }
}

#[test]
fn struct_with_two_entries_has_these_bytes() {
    let bytes = encode(&sample_struct());
    let expected: Vec<u8> = vec![
        0x70, 0x61, 0x72, 0x61, 0x63, 0x6f, 0x62, 0x6e, // paracobn
        3, 0, 0, 0, // nodes
        1, 0, 0, 0, // key lists
        0, 0, 0, 0, // bytes of strings
        2, 0, 0, 0, // keys of the first list
        0x9A, 0x78, 0x56, 0x34, 0x12, // first key
        0x01, 0x00, 0x00, 0x00, 0x00, // second key
        12, 0, 0, 0, 0, // struct, key list 0
        1, 1, // bool true
        6, 0xFB, 0xFF, 0xFF, 0xFF, // i32 -5
    ];
    assert_eq!(bytes, expected);
}

#[test]
fn list_keeps_empty_nested_list() {
    let list = ParamValue::List(vec![
        ParamValue::U8(255),
        ParamValue::Str(String::from("abc")),
        ParamValue::List(vec![]),
    ]);
    let tree = ParamValue::Struct(vec![(Hash40(0x10), list)]);
    let bytes = encode(&tree);
    let back = decode(&bytes).unwrap();
    assert_eq!(back, tree);
    match back {
        ParamValue::Struct(entries) => match &entries[0].1 {
            ParamValue::List(items) => {
                assert_eq!(items.len(), 3);
                assert_eq!(items[0], ParamValue::U8(255));
                assert_eq!(items[1], ParamValue::Str(String::from("abc")));
                assert_eq!(items[2], ParamValue::List(vec![]));
            }
            _ => panic!("the entry is a list"),
        },
        _ => panic!("the root is a struct"),
    }
}

#[test]
fn sibling_structs_share_one_key_list() {
    let first = ParamValue::Struct(vec![
        (Hash40(0xAAAA), ParamValue::U8(1)),
        (Hash40(0xBBBB), ParamValue::U8(2)),
    ]);
    let second = ParamValue::Struct(vec![
        (Hash40(0xAAAA), ParamValue::U8(3)),
        (Hash40(0xBBBB), ParamValue::U8(4)),
    ]);
    let tree = ParamValue::Struct(vec![(Hash40(0xAAAA), first), (Hash40(0xBBBB), second)]);
    let bytes = encode(&tree);
    // the root and both siblings have the keys 0xAAAA, 0xBBBB in that order
    assert_eq!(&bytes[12..16], &[1, 0, 0, 0]);
    assert_eq!(decode(&bytes).unwrap(), tree);
}

#[test]
fn short_buffer_is_truncated() {
    let bytes = encode(&sample_struct());
    for n in 0..20 {
        assert_eq!(decode(&bytes[..n]), Err(DecodeError::Truncated));
    }
}

#[test]
fn non_struct_root_is_not_encodable() {
    assert_eq!(try_encode(&ParamValue::U8(1)), None);
}
