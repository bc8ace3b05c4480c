use param_codec::decode::{decode, read_layouts, read_node, read_string};
use param_codec::encode::{encode, try_encode};
use param_codec::format::DecodeError;
use param_codec::hash40::Hash40;
use param_codec::param::ParamValue;

const MAGIC: [u8; 8] = [0x70, 0x61, 0x72, 0x61, 0x63, 0x6f, 0x62, 0x6e];

fn buffer(nodes: u32, lists: u32, text: u32, rest: &[u8]) -> Vec<u8> {
    let mut bytes = MAGIC.to_vec();
    bytes.extend_from_slice(&nodes.to_le_bytes());
    bytes.extend_from_slice(&lists.to_le_bytes());
    bytes.extend_from_slice(&text.to_le_bytes());
    bytes.extend_from_slice(rest);
    bytes
}

fn nested() -> ParamValue {
    ParamValue::Struct(vec![
        (Hash40(1), ParamValue::List(vec![ParamValue::U8(7), ParamValue::Str(String::from("x"))])),
        (Hash40(2), ParamValue::Struct(vec![(Hash40(3), ParamValue::I16(-2))])),
    ])
}

#[test]
fn empty_buffer_is_truncated() {
    assert_eq!(decode(&[]), Err(DecodeError::Truncated));
}

#[test]
fn header_alone_is_truncated() {
    assert_eq!(decode(&buffer(1, 0, 0, &[])), Err(DecodeError::Truncated));
}

#[test]
fn every_cut_of_an_encoded_tree_is_truncated() {
    let bytes = encode(&nested());
    for n in 0..bytes.len() {
        assert_eq!(decode(&bytes[..n]), Err(DecodeError::Truncated), "cut at {}", n);
    }
    assert_eq!(decode(&bytes), Ok(nested()));
}

#[test]
fn other_first_bytes_are_an_unknown_tag() {
    let mut bytes = encode(&nested());
    bytes[0] = b'q';
    assert_eq!(decode(&bytes), Err(DecodeError::UnknownTag));
}

#[test]
fn root_that_is_no_struct_is_an_unknown_tag() {
    // a list as the root
    assert_eq!(decode(&buffer(1, 0, 0, &[11, 0, 0, 0, 0])), Err(DecodeError::UnknownTag));
    // a byte that is no tag as the root
    assert_eq!(decode(&buffer(1, 0, 0, &[0, 0, 0, 0, 0])), Err(DecodeError::UnknownTag));
    assert_eq!(decode(&buffer(1, 0, 0, &[13, 0, 0, 0, 0])), Err(DecodeError::UnknownTag));
}

#[test]
fn bad_tag_at_any_node_is_an_unknown_tag() {
    let bytes = encode(&nested());
    // header 20, one list of two keys 4 + 10, a list of one key 4 + 5, string region "x\0"
    let root = 20 + 14 + 9 + 2;
    // root struct, list, u8, str, inner struct, i16
    let nodes = [root, root + 5, root + 10, root + 12, root + 17, root + 22];
    for at in nodes {
        for bad in [0u8, 13, 14, 0x7F, 0xFF] {
            let mut broken = bytes.clone();
            broken[at] = bad;
            assert_eq!(decode(&broken), Err(DecodeError::UnknownTag), "node at {}", at);
        }
    }
}

#[test]
fn struct_naming_a_missing_key_list_is_a_bad_reference() {
    // no key lists at all, the root names list 0
    assert_eq!(decode(&buffer(1, 0, 0, &[12, 0, 0, 0, 0])), Err(DecodeError::BadReference));
    // one key list, the root names list 1
    let rest = [0, 0, 0, 0, 12, 1, 0, 0, 0];
    assert_eq!(decode(&buffer(1, 1, 0, &rest)), Err(DecodeError::BadReference));
    // the same buffer with list 0 is the empty struct
    let rest = [0, 0, 0, 0, 12, 0, 0, 0, 0];
    assert_eq!(decode(&buffer(1, 1, 0, &rest)), Ok(ParamValue::Struct(vec![])));
}

fn one_string(region: &[u8], offset: u32) -> Vec<u8> {
    // one key list of one key, then the region, then a struct with one string
    let mut rest = vec![1, 0, 0, 0, 0x0A, 0, 0, 0, 0];
    rest.extend_from_slice(region);
    rest.extend_from_slice(&[12, 0, 0, 0, 0, 10]);
    rest.extend_from_slice(&offset.to_le_bytes());
    buffer(2, 1, region.len() as u32, &rest)
}

#[test]
fn string_is_read_from_its_offset() {
    let region = b"ab\0cde\0";
    let at = |offset: u32| decode(&one_string(region, offset));
    let tree = |text: &str| {
        Ok(ParamValue::Struct(vec![(Hash40(0x0A), ParamValue::Str(String::from(text)))]))
    };
    assert_eq!(at(0), tree("ab"));
    assert_eq!(at(1), tree("b"));
    assert_eq!(at(2), tree(""));
    assert_eq!(at(3), tree("cde"));
    assert_eq!(at(6), tree(""));
}

#[test]
fn offset_outside_the_region_is_invalid() {
    let region = b"ab\0cde\0";
    assert_eq!(decode(&one_string(region, 7)), Err(DecodeError::InvalidStringOffset));
    assert_eq!(decode(&one_string(region, 8)), Err(DecodeError::InvalidStringOffset));
    assert_eq!(decode(&one_string(region, u32::MAX)), Err(DecodeError::InvalidStringOffset));
    assert_eq!(decode(&one_string(b"", 0)), Err(DecodeError::InvalidStringOffset));
}

#[test]
fn string_without_its_zero_byte_is_invalid() {
    assert_eq!(decode(&one_string(b"ab\0cd", 3)), Err(DecodeError::InvalidStringOffset));
    assert_eq!(
        decode(&one_string(b"ab\0cd", 0)),
        Ok(ParamValue::Struct(vec![(Hash40(0x0A), ParamValue::Str(String::from("ab")))]))
    );
}

#[test]
fn string_that_is_not_utf8_is_invalid() {
    assert_eq!(decode(&one_string(&[0xFF, 0xFE, 0], 0)), Err(DecodeError::InvalidStringOffset));
    assert_eq!(decode(&one_string(&[0xC3, 0], 0)), Err(DecodeError::InvalidStringOffset));
    // the second byte of a character of two bytes alone
    assert_eq!(decode(&one_string(&[0xC3, 0xA9, 0], 1)), Err(DecodeError::InvalidStringOffset));
    assert_eq!(
        decode(&one_string(&[0xC3, 0xA9, 0], 0)),
        Ok(ParamValue::Struct(vec![(Hash40(0x0A), ParamValue::Str(String::from("é")))]))
    );
}

#[test]
fn another_count_of_nodes_is_truncated() {
    let good = encode(&nested());
    assert_eq!(&good[8..12], &[6, 0, 0, 0]);
    for count in [0u32, 5, 7, u32::MAX] {
        let mut bytes = good.clone();
        bytes[8..12].copy_from_slice(&count.to_le_bytes());
        assert_eq!(decode(&bytes), Err(DecodeError::Truncated));
    }
}

#[test]
fn bytes_after_the_root_are_not_looked_at() {
    let mut bytes = encode(&nested());
    bytes.extend_from_slice(&[0xFF, 0, 13, 99]);
    assert_eq!(decode(&bytes), Ok(nested()));
}

#[test]
fn list_longer_than_the_buffer_is_truncated() {
    let rest = [1, 0, 0, 0, 1, 0, 0, 0, 0, 12, 0, 0, 0, 0, 11, 0xFF, 0xFF, 0xFF, 0xFF, 3, 1];
    assert_eq!(decode(&buffer(3, 1, 0, &rest)), Err(DecodeError::Truncated));
}

#[test]
fn key_list_longer_than_the_buffer_is_truncated() {
    let rest = [0xFF, 0xFF, 0xFF, 0xFF, 1, 2, 3, 4, 5];
    assert_eq!(decode(&buffer(1, 1, 0, &rest)), Err(DecodeError::Truncated));
    let rest = [2, 0, 0, 0, 1, 2, 3, 4, 5];
    assert_eq!(decode(&buffer(1, 1, 0, &rest)), Err(DecodeError::Truncated));
}

#[test]
fn redundant_tables_decode_but_are_not_written_again() {
    // two equal key lists and a string region with a string that nothing names
    let mut rest = vec![1, 0, 0, 0, 5, 0, 0, 0, 0, 1, 0, 0, 0, 5, 0, 0, 0, 0];
    rest.extend_from_slice(b"unused\0");
    rest.extend_from_slice(&[12, 1, 0, 0, 0, 3, 9]);
    let bytes = buffer(2, 2, 7, &rest);
    let tree = ParamValue::Struct(vec![(Hash40(5), ParamValue::U8(9))]);
    assert_eq!(decode(&bytes), Ok(ParamValue::Struct(vec![(Hash40(5), ParamValue::U8(9))])));
    let again = encode(&tree);
    assert_ne!(again, bytes);
    assert_eq!(&again[12..16], &[1, 0, 0, 0]);
    assert_eq!(&again[16..20], &[0, 0, 0, 0]);
    assert_eq!(decode(&again), Ok(tree));
}

#[test]
fn tree_that_cannot_be_written_is_not_encoded() {
    assert_eq!(try_encode(&ParamValue::Bool(true)), None);
    assert_eq!(try_encode(&ParamValue::List(vec![])), None);
    let wide = ParamValue::Struct(vec![(Hash40(0x100_0000_0000), ParamValue::U8(1))]);
    assert_eq!(try_encode(&wide), None);
    let wide = ParamValue::Struct(vec![(Hash40(1), ParamValue::Hash(Hash40(u64::MAX)))]);
    assert_eq!(try_encode(&wide), None);
    let zero = ParamValue::Struct(vec![(Hash40(1), ParamValue::Str(String::from("a\0b")))]);
    assert_eq!(try_encode(&zero), None);
    let nested = ParamValue::Struct(vec![(
        Hash40(1),
        ParamValue::List(vec![ParamValue::Str(String::from("\0"))]),
    )]);
    assert_eq!(try_encode(&nested), None);
    assert!(try_encode(&ParamValue::Struct(vec![])).is_some());
}

#[test]
fn try_encode_gives_what_encode_gives() {
    assert_eq!(try_encode(&nested()), Some(encode(&nested())));
}

#[test]
fn read_string_reads_inside_the_region_only() {
    let bytes = b"xxab\0cd\0yy\0";
    assert_eq!(read_string(bytes, 2, 8, 0), Some(String::from("ab")));
    assert_eq!(read_string(bytes, 2, 8, 3), Some(String::from("cd")));
    assert_eq!(read_string(bytes, 2, 7, 3), None);
    assert_eq!(read_string(bytes, 2, 8, 6), None);
    assert_eq!(read_string(bytes, 2, 2, 0), None);
}

#[test]
fn read_layouts_reads_key_lists() {
    let bytes = [9, 2, 0, 0, 0, 1, 0, 0, 0, 0, 0xFF, 0xFF, 0xFF, 0xFF, 0xFF, 0, 0, 0, 0, 7];
    let (table, end) = read_layouts(&bytes, 1, 2).unwrap();
    assert_eq!(table, vec![vec![Hash40(1), Hash40(0xFF_FFFF_FFFF)], vec![]]);
    assert_eq!(end, 19);
    assert_eq!(read_layouts(&bytes, 1, 3), Err(DecodeError::Truncated));
    assert_eq!(read_layouts(&bytes, 1, 0), Ok((vec![], 1)));
}

#[test]
fn read_node_reads_one_node() {
    let bytes = [0, 4, 0xFE, 0xFF, 9];
    assert_eq!(read_node(&bytes, 1, &vec![], 0, 0), Ok((ParamValue::I16(-2), 4)));
    assert_eq!(read_node(&bytes, 4, &vec![], 0, 0), Err(DecodeError::Truncated));
    assert_eq!(read_node(&bytes, 5, &vec![], 0, 0), Err(DecodeError::Truncated));
    assert_eq!(read_node(&bytes, 0, &vec![], 0, 0), Err(DecodeError::UnknownTag));
}
