use param_codec::hash40::Hash40;
use param_codec::labels::{load_labels, LabelTable};
use param_codec::param::{holds_byte, ParamValue};
use param_codec::strings::decimal_string;
use param_codec::tree::{ParamParent, ParamTreeNode, ParentInfo, TreeMessage, TreeProps};

fn sample() -> ParamValue {
    ParamValue::Struct(vec![
        (Hash40(0x1234), ParamValue::List(vec![ParamValue::U8(1), ParamValue::U8(2)])),
        (Hash40(0xFFFF), ParamValue::Struct(vec![])),
        (Hash40(0x1234), ParamValue::Str(String::from("text"))),
    ])
}

fn root_of(param: &ParamValue) -> ParamTreeNode<'_> {
    ParamTreeNode::create(TreeProps { param, parent: ParamParent(None), expand: true })
}

#[test]
fn root_is_named_root() {
    let table = LabelTable::new();
    assert_eq!(ParamParent(None).get_name(&table), "root");
}

#[test]
fn item_is_named_by_its_place() {
    let table = LabelTable::new();
    assert_eq!(ParamParent(Some(ParentInfo::List(0))).get_name(&table), "0");
    assert_eq!(ParamParent(Some(ParentInfo::List(12))).get_name(&table), "12");
    assert_eq!(ParamParent(Some(ParentInfo::List(1_000_000))).get_name(&table), "1000000");
}

#[test]
fn entry_is_named_by_its_key() {
    let mut table = LabelTable::new();
    load_labels(&mut table, "1234,SomeLabel");
    let labelled = ParamParent(Some(ParentInfo::Struct(Hash40(0x1234), 5)));
    let plain = ParamParent(Some(ParentInfo::Struct(Hash40(0xFFFF), 0)));
    assert_eq!(labelled.get_name(&table), "SomeLabel");
    assert_eq!(plain.get_name(&table), "0x000000ffff");
}

#[test]
fn decimal_text_has_no_leading_zeros() {
    assert_eq!(decimal_string(0), "0");
    assert_eq!(decimal_string(9), "9");
    assert_eq!(decimal_string(10), "10");
    assert_eq!(decimal_string(4096), "4096");
    assert_eq!(decimal_string(usize::MAX), usize::MAX.to_string());
}

#[test]
fn children_come_in_stored_order() {
    let tree = sample();
    assert_eq!(tree.child_count(), 3);
    match tree.child(0) {
        Some((ParentInfo::Struct(key, place), child)) => {
            assert_eq!(key, Hash40(0x1234));
            assert_eq!(place, 0);
            assert_eq!(child.child_count(), 2);
        }
        _ => panic!("the first entry"),
    }
    match tree.child(1) {
        Some((ParentInfo::Struct(key, place), child)) => {
            assert_eq!(key, Hash40(0xFFFF));
            assert_eq!(place, 1);
            assert_eq!(child, &ParamValue::Struct(vec![]));
        }
        _ => panic!("the second entry"),
    }
    match tree.child(2) {
        Some((ParentInfo::Struct(key, place), child)) => {
            assert_eq!(key, Hash40(0x1234));
            assert_eq!(place, 2);
            assert_eq!(child, &ParamValue::Str(String::from("text")));
        }
        _ => panic!("the third entry"),
    }
    assert!(tree.child(3).is_none());
}

#[test]
fn items_of_a_list_are_addressed_by_place() {
    let list = ParamValue::List(vec![ParamValue::Bool(true), ParamValue::I8(-1)]);
    assert_eq!(list.child_count(), 2);
    match list.child(1) {
        Some((ParentInfo::List(place), child)) => {
            assert_eq!(place, 1);
            assert_eq!(child, &ParamValue::I8(-1));
        }
        _ => panic!("the second item"),
    }
    assert!(list.child(2).is_none());
}

#[test]
fn scalars_have_no_children() {
    for value in [
        ParamValue::Bool(true),
        ParamValue::U32(3),
        ParamValue::Float(0),
        ParamValue::Hash(Hash40(1)),
        ParamValue::Str(String::from("s")),
    ] {
        assert_eq!(value.child_count(), 0);
        assert!(value.child(0).is_none());
    }
}

#[test]
fn only_containers_that_are_not_empty_can_expand() {
    let tree = sample();
    assert!(root_of(&tree).can_expand());
    assert!(!root_of(&ParamValue::Struct(vec![])).can_expand());
    assert!(!root_of(&ParamValue::List(vec![])).can_expand());
    assert!(!root_of(&ParamValue::U8(1)).can_expand());
    assert!(root_of(&ParamValue::List(vec![ParamValue::U8(1)])).can_expand());
}

#[test]
fn toggle_folds_and_unfolds() {
    let tree = sample();
    let mut node = root_of(&tree);
    assert!(node.is_expanded());
    assert!(node.update(TreeMessage::ToggleExpand));
    assert!(!node.expanded);
    assert!(!node.is_expanded());
    assert!(node.update(TreeMessage::ToggleExpand));
    assert!(node.is_expanded());
}

#[test]
fn empty_node_is_never_shown_unfolded() {
    let empty = ParamValue::List(vec![]);
    let mut node = root_of(&empty);
    assert!(node.expanded);
    assert!(!node.is_expanded());
    node.update(TreeMessage::ToggleExpand);
    assert!(!node.is_expanded());
}

#[test]
fn new_properties_change_nothing() {
    let tree = sample();
    let other = ParamValue::U8(0);
    let mut node = root_of(&tree);
    let props = TreeProps { param: &other, parent: ParamParent(Some(ParentInfo::List(3))), expand: false };
    assert!(!node.change(props));
    assert!(node.expanded);
    assert_eq!(node.param, &tree);
    assert!(node.parent.0.is_none());
}

#[test]
fn child_nodes_start_folded() {
    let tree = sample();
    let root = root_of(&tree);
    let props = root.child_props(0).unwrap();
    assert!(!props.expand);
    match props.parent.0 {
        Some(ParentInfo::Struct(key, place)) => {
            assert_eq!(key, Hash40(0x1234));
            assert_eq!(place, 0);
        }
        _ => panic!("an entry of a struct"),
    }
    let child = ParamTreeNode::create(props);
    assert!(child.can_expand());
    assert!(!child.is_expanded());
    match child.child_props(1).unwrap().parent.0 {
        Some(ParentInfo::List(place)) => assert_eq!(place, 1),
        _ => panic!("an item of a list"),
    }
    assert!(child.child_props(2).is_none());
    assert!(root.child_props(3).is_none());
}

#[test]
fn props_from_a_child_are_folded() {
    let value = ParamValue::U8(1);
    let props = TreeProps::from((ParentInfo::List(4), &value));
    assert!(!props.expand);
    assert_eq!(props.param, &value);
    match props.parent.0 {
        Some(ParentInfo::List(place)) => assert_eq!(place, 4),
        _ => panic!("an item of a list"),
    }
}

#[test]
fn nodes_are_counted() {
    assert_eq!(sample().count_within(6), Some(0));
    assert_eq!(sample().count_within(10), Some(4));
    assert_eq!(sample().count_within(5), None);
    assert_eq!(sample().count_within(0), None);
    assert_eq!(ParamValue::U8(1).count_within(1), Some(0));
}

#[test]
fn well_formed_trees_are_told_apart() {
    assert!(sample().is_wf());
    assert!(!ParamValue::Hash(Hash40(1 << 40)).is_wf());
    assert!(!ParamValue::Str(String::from("a\0")).is_wf());
    assert!(!ParamValue::List(vec![ParamValue::Str(String::from("\0"))]).is_wf());
    assert!(!ParamValue::Struct(vec![(Hash40(1 << 40), ParamValue::U8(0))]).is_wf());
    assert!(ParamValue::Str(String::from("é")).is_wf());
}

#[test]
fn bytes_are_found() {
    assert!(holds_byte(b"abc", b'c'));
    assert!(!holds_byte(b"abc", b'd'));
    assert!(!holds_byte(b"", 0));
}

#[test]
fn clone_copies_the_whole_tree() {
    let tree = sample();
    let copy = tree.clone();
    assert_eq!(copy, tree);
    assert_eq!(tree.duplicate(), sample());
    assert_eq!(param_codec::decode(&param_codec::encode(&copy)), Ok(tree));
}
