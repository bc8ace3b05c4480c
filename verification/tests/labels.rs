use param_codec::hash40::Hash40;
use param_codec::labels::{find_byte, load_labels, LabelTable};

#[test]
fn loaded_label_is_displayed() {
    let mut table = LabelTable::new();
    load_labels(&mut table, "1234,SomeLabel");
    assert_eq!(Hash40(0x1234).to_display_string(&table), "SomeLabel");
    assert_eq!(Hash40(0xFFFF).to_display_string(&table), "0x000000ffff");
}

#[test]
fn malformed_line_is_skipped() {
    let mut table = LabelTable::new();
    load_labels(&mut table, "1,one\nnothexvalue,Label\n2,two\n");
    assert_eq!(table.get(Hash40(1)), Some(&String::from("one")));
    assert_eq!(table.get(Hash40(2)), Some(&String::from("two")));
    let mut other = LabelTable::new();
    load_labels(&mut other, "1,one\n2,two\n");
    assert_eq!(other.get(Hash40(1)), Some(&String::from("one")));
    assert_eq!(other.get(Hash40(2)), Some(&String::from("two")));
}

#[test]
fn malformed_line_alone_leaves_the_table_empty() {
    let mut table = LabelTable::new();
    load_labels(&mut table, "nothexvalue,Label");
    assert_eq!(Hash40(0).to_display_string(&table), "0x0000000000");
    assert_eq!(table.get(Hash40(0)), None);
}

#[test]
fn later_label_wins() {
    let mut table = LabelTable::new();
    load_labels(&mut table, "0x10,first\n0x10,second\n");
    assert_eq!(table.get(Hash40(0x10)), Some(&String::from("second")));
    load_labels(&mut table, "10,third");
    assert_eq!(table.get(Hash40(0x10)), Some(&String::from("third")));
}

#[test]
fn loading_twice_is_loading_once() {
    let text = "0x1,a\n0x2,b\n0x1,c\nbad line\n3,d";
    let mut once = LabelTable::new();
    load_labels(&mut once, text);
    let mut twice = LabelTable::new();
    load_labels(&mut twice, text);
    load_labels(&mut twice, text);
    for value in 0..5u64 {
        assert_eq!(once.get(Hash40(value)), twice.get(Hash40(value)));
    }
    assert_eq!(once.get(Hash40(1)), Some(&String::from("c")));
    assert_eq!(once.get(Hash40(2)), Some(&String::from("b")));
    assert_eq!(once.get(Hash40(3)), Some(&String::from("d")));
    assert_eq!(once.get(Hash40(4)), None);
}

#[test]
fn line_is_split_at_its_first_comma_only() {
    let mut table = LabelTable::new();
    load_labels(&mut table, "12,a,b,c\n13,\n");
    assert_eq!(table.get(Hash40(0x12)), Some(&String::from("a,b,c")));
    assert_eq!(table.get(Hash40(0x13)), Some(&String::new()));
}

#[test]
fn line_without_comma_is_skipped() {
    let mut table = LabelTable::new();
    load_labels(&mut table, "12\n\n,label\n0x,label\n12345678901,long\n");
    assert_eq!(table.get(Hash40(0x12)), None);
    assert_eq!(table.get(Hash40(0)), None);
}

#[test]
fn carriage_return_before_newline_is_no_part_of_the_label() {
    let mut table = LabelTable::new();
    load_labels(&mut table, "1,one\r\n2,two\r");
    assert_eq!(table.get(Hash40(1)), Some(&String::from("one")));
    assert_eq!(table.get(Hash40(2)), Some(&String::from("two")));
}

#[test]
fn label_may_hold_any_characters() {
    let mut table = LabelTable::new();
    load_labels(&mut table, "1,héllo wörld ✓\n");
    assert_eq!(table.get(Hash40(1)), Some(&String::from("héllo wörld ✓")));
}

#[test]
fn load_takes_lines_in_order() {
    let mut table = LabelTable::new();
    let lines = vec![
        String::from("0xa,first"),
        String::from("oops"),
        String::from("0xb,other"),
        String::from("0xa,last"),
    ];
    table.load(&lines);
    assert_eq!(table.get(Hash40(0xA)), Some(&String::from("last")));
    assert_eq!(table.get(Hash40(0xB)), Some(&String::from("other")));
}

#[test]
fn load_line_takes_bytes() {
    let mut table = LabelTable::new();
    table.load_line(b"ff,label");
    assert_eq!(table.get(Hash40(0xFF)), Some(&String::from("label")));
    // a label that is not UTF-8 is passed over
    table.load_line(&[b'1', b',', 0xFF, 0xFE]);
    assert_eq!(table.get(Hash40(1)), None);
}

#[test]
fn insert_replaces() {
    let mut table = LabelTable::new();
    assert_eq!(table.get(Hash40(5)), None);
    table.insert(Hash40(5), String::from("five"));
    assert_eq!(table.get(Hash40(5)), Some(&String::from("five")));
    table.insert(Hash40(5), String::from("cinq"));
    assert_eq!(table.get(Hash40(5)), Some(&String::from("cinq")));
    assert_eq!(Hash40(5).to_display_string(&table), "cinq");
}

#[test]
fn find_byte_gives_the_first_place() {
    assert_eq!(find_byte(b"a,b,c", 0, b','), 1);
    assert_eq!(find_byte(b"a,b,c", 2, b','), 3);
    assert_eq!(find_byte(b"a,b,c", 4, b','), 5);
    assert_eq!(find_byte(b"", 0, b','), 0);
}
