use param_codec::decode::decode;
use param_codec::encode::encode;
use param_codec::hash40::Hash40;
use param_codec::param::ParamValue;
use param_codec::wire::{read_le, write_le};

fn body_of(value: ParamValue) -> Vec<u8> {
    let tree = ParamValue::Struct(vec![(Hash40(0), value)]);
    let bytes = encode(&tree);
    assert_eq!(decode(&bytes), Ok(tree));
    // header, one key list of one key, no strings for scalars, the root's five bytes
    bytes[20 + 9 + 5..].to_vec()
}

#[test]
fn bool_is_one_byte() {
    assert_eq!(body_of(ParamValue::Bool(true)), vec![1, 1]);
    assert_eq!(body_of(ParamValue::Bool(false)), vec![1, 0]);
}

#[test]
fn any_byte_but_zero_reads_as_true() {
    let tree = ParamValue::Struct(vec![(Hash40(0), ParamValue::Bool(true))]);
    let mut bytes = encode(&tree);
    let last = bytes.len() - 1;
    bytes[last] = 2;
    assert_eq!(decode(&bytes), Ok(tree));
}

#[test]
fn signed_numbers_are_twos_complement() {
    assert_eq!(body_of(ParamValue::I8(-1)), vec![2, 0xFF]);
    assert_eq!(body_of(ParamValue::I8(i8::MIN)), vec![2, 0x80]);
    assert_eq!(body_of(ParamValue::I8(i8::MAX)), vec![2, 0x7F]);
    assert_eq!(body_of(ParamValue::I16(-2)), vec![4, 0xFE, 0xFF]);
    assert_eq!(body_of(ParamValue::I16(i16::MIN)), vec![4, 0x00, 0x80]);
    assert_eq!(body_of(ParamValue::I16(0x1234)), vec![4, 0x34, 0x12]);
    assert_eq!(body_of(ParamValue::I32(-5)), vec![6, 0xFB, 0xFF, 0xFF, 0xFF]);
    assert_eq!(body_of(ParamValue::I32(i32::MIN)), vec![6, 0, 0, 0, 0x80]);
    assert_eq!(body_of(ParamValue::I32(i32::MAX)), vec![6, 0xFF, 0xFF, 0xFF, 0x7F]);
}

#[test]
fn unsigned_numbers_are_little_endian() {
    assert_eq!(body_of(ParamValue::U8(255)), vec![3, 0xFF]);
    assert_eq!(body_of(ParamValue::U16(0xABCD)), vec![5, 0xCD, 0xAB]);
    assert_eq!(body_of(ParamValue::U32(0x01020304)), vec![7, 4, 3, 2, 1]);
    assert_eq!(body_of(ParamValue::U32(u32::MAX)), vec![7, 0xFF, 0xFF, 0xFF, 0xFF]);
}

#[test]
fn float_is_its_bits() {
    assert_eq!(body_of(ParamValue::Float(1.5f32.to_bits())), vec![8, 0, 0, 0xC0, 0x3F]);
    assert_eq!(body_of(ParamValue::Float((-0.0f32).to_bits())), vec![8, 0, 0, 0, 0x80]);
    let tree = ParamValue::Struct(vec![(Hash40(0), ParamValue::Float(f32::NAN.to_bits()))]);
    match decode(&encode(&tree)).unwrap() {
        ParamValue::Struct(entries) => match entries[0].1 {
            ParamValue::Float(bits) => assert!(f32::from_bits(bits).is_nan()),
            _ => panic!("the entry is a float"),
        },
        _ => panic!("the root is a struct"),
    }
}

#[test]
fn hash_is_five_bytes() {
    assert_eq!(
        body_of(ParamValue::Hash(Hash40(0x123456789A))),
        vec![9, 0x9A, 0x78, 0x56, 0x34, 0x12]
    );
    assert_eq!(body_of(ParamValue::Hash(Hash40(0xFF_FFFF_FFFF))), vec![9, 255, 255, 255, 255, 255]);
}

#[test]
fn equal_strings_are_stored_once() {
    let tree = ParamValue::Struct(vec![
        (Hash40(1), ParamValue::Str(String::from("same"))),
        (Hash40(2), ParamValue::Str(String::from("other"))),
        (Hash40(3), ParamValue::Str(String::from("same"))),
        (Hash40(4), ParamValue::Str(String::new())),
    ]);
    let bytes = encode(&tree);
    assert_eq!(decode(&bytes), Ok(tree));
    // "same\0other\0\0"
    assert_eq!(&bytes[16..20], &[12, 0, 0, 0]);
    let region = 20 + 4 + 4 * 5;
    assert_eq!(&bytes[region..region + 12], b"same\0other\0\0");
    let body = &bytes[region + 12 + 5..];
    assert_eq!(body, &[10, 0, 0, 0, 0, 10, 5, 0, 0, 0, 10, 0, 0, 0, 0, 10, 11, 0, 0, 0]);
}

#[test]
fn key_lists_are_numbered_in_the_order_of_a_walk() {
    let inner_a = ParamValue::Struct(vec![(Hash40(0xA), ParamValue::U8(1))]);
    let inner_b = ParamValue::Struct(vec![(Hash40(0xB), ParamValue::U8(2))]);
    let inner_a_again = ParamValue::Struct(vec![(Hash40(0xA), ParamValue::U8(3))]);
    let tree = ParamValue::Struct(vec![
        (Hash40(1), ParamValue::List(vec![inner_a, inner_b, inner_a_again])),
    ]);
    let bytes = encode(&tree);
    assert_eq!(decode(&bytes), Ok(tree));
    assert_eq!(&bytes[8..12], &[8, 0, 0, 0]);
    assert_eq!(&bytes[12..16], &[3, 0, 0, 0]);
    let table = &bytes[20..20 + 27];
    assert_eq!(
        table,
        &[1, 0, 0, 0, 1, 0, 0, 0, 0, 1, 0, 0, 0, 0xA, 0, 0, 0, 0, 1, 0, 0, 0, 0xB, 0, 0, 0, 0]
    );
    let body = &bytes[20 + 27..];
    assert_eq!(
        body,
        &[
            12, 0, 0, 0, 0, 11, 3, 0, 0, 0, 12, 1, 0, 0, 0, 3, 1, 12, 2, 0, 0, 0, 3, 2, 12, 1, 0,
            0, 0, 3, 3
        ]
    );
}

#[test]
fn key_lists_differ_by_order() {
    let first = ParamValue::Struct(vec![
        (Hash40(0xAAAA), ParamValue::U8(1)),
        (Hash40(0xBBBB), ParamValue::U8(2)),
    ]);
    let second = ParamValue::Struct(vec![
        (Hash40(0xBBBB), ParamValue::U8(3)),
        (Hash40(0xAAAA), ParamValue::U8(4)),
    ]);
    let tree = ParamValue::Struct(vec![(Hash40(1), first), (Hash40(2), second)]);
    let bytes = encode(&tree);
    assert_eq!(&bytes[12..16], &[3, 0, 0, 0]);
    assert_eq!(decode(&bytes), Ok(tree));
}

#[test]
fn repeated_keys_are_kept() {
    let tree = ParamValue::Struct(vec![
        (Hash40(7), ParamValue::U8(1)),
        (Hash40(7), ParamValue::U8(2)),
        (Hash40(7), ParamValue::Str(String::from("three"))),
    ]);
    assert_eq!(decode(&encode(&tree)), Ok(tree));
}

#[test]
fn deep_nesting_round_trips() {
    let mut tree = ParamValue::List(vec![]);
    for depth in 0..50u32 {
        tree = if depth % 2 == 0 {
            ParamValue::Struct(vec![(Hash40(depth as u64), tree), (Hash40(1), ParamValue::U32(depth))])
        } else {
            ParamValue::List(vec![ParamValue::Str(format!("level {}", depth)), tree])
        };
    }
    let root = ParamValue::Struct(vec![(Hash40(0xFF_FFFF_FFFF), tree)]);
    assert_eq!(decode(&encode(&root)), Ok(root));
}

#[test]
fn empty_struct_round_trips() {
    let tree = ParamValue::Struct(vec![]);
    let bytes = encode(&tree);
    assert_eq!(
        bytes,
        vec![
            0x70, 0x61, 0x72, 0x61, 0x63, 0x6f, 0x62, 0x6e, 1, 0, 0, 0, 1, 0, 0, 0, 0, 0, 0, 0, 0,
            0, 0, 0, 12, 0, 0, 0, 0
        ]
    );
    assert_eq!(decode(&bytes), Ok(tree));
}

#[test]
fn fields_are_little_endian() {
    let mut out = vec![0xEE];
    write_le(&mut out, 0x0102030405, 5);
    write_le(&mut out, 0xABCD, 2);
    write_le(&mut out, 0x1FF, 1);
    write_le(&mut out, 7, 0);
    assert_eq!(out, vec![0xEE, 5, 4, 3, 2, 1, 0xCD, 0xAB, 0xFF]);
    assert_eq!(read_le(&out, 1, 5), 0x0102030405);
    assert_eq!(read_le(&out, 6, 2), 0xABCD);
    assert_eq!(read_le(&out, 8, 1), 0xFF);
    assert_eq!(read_le(&out, 3, 0), 0);
    assert_eq!(read_le(&out, 5, 4), 0xFFABCD01);
}
