//! Addressing the nodes of a tree for a presentation layer.
//!
//! A presentation layer walks a decoded tree without changing it. It names a
//! node by how its parent holds it: an entry of a struct by its key and its
//! place, an item of a list by its place. Whether a node is shown unfolded is
//! state that the layer keeps beside the tree, never in it.
use vstd::prelude::*;
use vstd::string::*;
use crate::hash40::Hash40;
use crate::labels::{display_text, LabelTable};
use crate::param::{ParamValue, ParamView};
use crate::strings::{decimal_string, decimal_text};

verus! {

/// How a parent holds a child.
#[derive(Debug, Clone, Copy)]
pub enum ParentInfo {
    /// The key of the entry and its place in the struct.
    Struct(Hash40, usize),
    /// The place of the item in the list.
    List(usize),
}

/// How a node is held by its parent; `None` for the root.
#[derive(Debug, Clone, Copy)]
pub struct ParamParent(pub Option<ParentInfo>);

/// What a node is created from: the value it shows, how its parent holds
/// it, and whether it starts unfolded.
#[derive(Debug, Clone, Copy)]
pub struct TreeProps<'a> {
    pub param: &'a ParamValue,
    pub parent: ParamParent,
    pub expand: bool,
}

/// What can happen to a node.
#[derive(Debug, Clone, Copy)]
pub enum TreeMessage {
    /// Fold the node if it is unfolded, unfold it if it is folded.
    ToggleExpand,
}

/// A node as a presentation layer keeps it: the value it shows, how its
/// parent holds it, and whether it is unfolded.
#[derive(Debug, Clone, Copy)]
pub struct ParamTreeNode<'a> {
    pub parent: ParamParent,
    pub param: &'a ParamValue,
    pub expanded: bool,
}

/// The name under which a node is shown: `root` for the root, the text of
/// its key for an entry of a struct, its place in decimal for an item of a
/// list.
pub open spec fn parent_name(parent: ParamParent, labels: Map<u64, Seq<char>>) -> Seq<char> {
    match parent.0 {
        Some(ParentInfo::Struct(hash, _)) => display_text(hash, labels),
        Some(ParentInfo::List(index)) => decimal_text(index as nat),
        None => seq!['r', 'o', 'o', 't'],
    }
}

/// How the node `t` holds its child at place `i`.
pub open spec fn child_info(t: ParamView, i: int) -> ParentInfo {
    match t {
        ParamView::Struct(entries) => ParentInfo::Struct(entries[i].0, i as usize),
        _ => ParentInfo::List(i as usize),
    }
}

impl ParamParent {
    /// The name under which the node is shown.
    pub fn get_name(&self, labels: &LabelTable) -> (name: String)
        ensures
            name@ == parent_name(*self, labels@),
    {
        match self.0 {
            Some(ParentInfo::Struct(hash, _)) => hash.to_display_string(labels),
            Some(ParentInfo::List(index)) => decimal_string(index),
            None => {
                proof {
                    reveal_strlit("root");
                }
                let name = String::from_str("root");
                assert(name@ =~= seq!['r', 'o', 'o', 't']);
                name
            },
        }
    }
}

impl ParamValue {
    /// The number of children: of items for a list, of entries for a
    /// struct, none for a scalar.
    pub fn child_count(&self) -> (n: usize)
        ensures
            n == self@.arity(),
    {
        match self {
            ParamValue::List(items) => items.len(),
            ParamValue::Struct(entries) => entries.len(),
            _ => 0,
        }
    }

    /// The child at place `i` and how this node holds it; `None` if there
    /// is no such child. The children come in stored order, and nothing is
    /// copied.
    pub fn child(&self, i: usize) -> (found: Option<(ParentInfo, &ParamValue)>)
        ensures
            found is Some <==> i < self@.arity(),
            found is Some ==> found->Some_0.0 == child_info(self@, i as int) && found->Some_0.1@
                == self@.child(i as int),
    {
        match self {
            ParamValue::List(items) => {
                if i < items.len() {
                    assert(self@->List_0[i as int] == items@[i as int]@);
                    Some((ParentInfo::List(i), &items[i]))
                } else {
                    None
                }
            },
            ParamValue::Struct(entries) => {
                if i < entries.len() {
                    assert(self@->Struct_0[i as int] == (
                        entries@[i as int].0,
                        entries@[i as int].1@,
                    ));
                    Some((ParentInfo::Struct(entries[i].0, i), &entries[i].1))
                } else {
                    None
                }
            },
            _ => None,
        }
    }
}

impl<'a> TreeProps<'a> {
    /// What the node for a child is created from: the child, how its parent
    /// holds it, and folded.
    pub fn from(f: (ParentInfo, &'a ParamValue)) -> (props: TreeProps<'a>)
        ensures
            props.param == f.1,
            props.parent == ParamParent(Some(f.0)),
            !props.expand,
    {
        TreeProps { param: f.1, parent: ParamParent(Some(f.0)), expand: false }
    }
}

impl<'a> ParamTreeNode<'a> {
    /// The node for what it is created from.
    pub fn create(props: TreeProps<'a>) -> (node: ParamTreeNode<'a>)
        ensures
            node.parent == props.parent,
            node.param == props.param,
            node.expanded == props.expand,
    {
        ParamTreeNode { parent: props.parent, param: props.param, expanded: props.expand }
    }

    /// Whether the node can be unfolded: it is a list or a struct that is
    /// not empty.
    pub fn can_expand(&self) -> (yes: bool)
        ensures
            yes == (self.param@.arity() > 0),
    {
        self.param.child_count() > 0
    }

    /// Whether the node is shown unfolded.
    pub fn is_expanded(&self) -> (yes: bool)
        ensures
            yes == (self.param@.arity() > 0 && self.expanded),
    {
        self.can_expand() && self.expanded
    }

    /// New properties do not change a node; the result says that nothing
    /// has to be drawn again.
    pub fn change(&mut self, _props: TreeProps<'a>) -> (redraw: bool)
        ensures
            !redraw,
            *final(self) == *old(self),
    {
        false
    }

    /// Takes a message: folds or unfolds the node. The result says that the
    /// node has to be drawn again.
    pub fn update(&mut self, msg: TreeMessage) -> (redraw: bool)
        ensures
            redraw,
            final(self).expanded == !old(self).expanded,
            final(self).parent == old(self).parent,
            final(self).param == old(self).param,
    {
        match msg {
            TreeMessage::ToggleExpand => {
                self.expanded = !self.expanded;
                true
            },
        }
    }

    /// What the node for the child at place `i` is created from; `None` if
    /// there is no such child.
    pub fn child_props(&self, i: usize) -> (props: Option<TreeProps<'a>>)
        ensures
            props is Some <==> i < self.param@.arity(),
            props is Some ==> props->Some_0.param@ == self.param@.child(i as int)
                && props->Some_0.parent == ParamParent(Some(child_info(self.param@, i as int)))
                && !props->Some_0.expand,
    {
        match self.param.child(i) {
            Some(found) => Some(TreeProps::from(found)),
            None => None,
        }
    }
}

} // verus!
