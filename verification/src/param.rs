//! The parameter tree: typed scalars, ordered lists and hash-keyed structs.
use vstd::prelude::*;
use vstd::string::*;
use vstd::utf8::*;
use crate::hash40::Hash40;

verus! {

/// One node of a parameter tree.
///
/// A float is held as the 32 bits of its IEEE-754 form. A struct is an
/// ordered sequence of entries: keys may repeat, and the order of the entries
/// is part of the value.
#[derive(Debug, PartialEq)]
pub enum ParamValue {
    Bool(bool),
    I8(i8),
    U8(u8),
    I16(i16),
    U16(u16),
    I32(i32),
    U32(u32),
    Float(u32),
    Hash(Hash40),
    Str(String),
    List(Vec<ParamValue>),
    Struct(Vec<(Hash40, ParamValue)>),
}

/// The mathematical value of a parameter tree.
pub enum ParamView {
    Bool(bool),
    I8(i8),
    U8(u8),
    I16(i16),
    U16(u16),
    I32(i32),
    U32(u32),
    Float(u32),
    Hash(Hash40),
    Str(Seq<char>),
    List(Seq<ParamView>),
    Struct(Seq<(Hash40, ParamView)>),
}

impl ParamValue {
    /// The mathematical value of the tree.
    pub open spec fn model(&self) -> ParamView
        decreases self,
    {
        match self {
            ParamValue::Bool(b) => ParamView::Bool(*b),
            ParamValue::I8(v) => ParamView::I8(*v),
            ParamValue::U8(v) => ParamView::U8(*v),
            ParamValue::I16(v) => ParamView::I16(*v),
            ParamValue::U16(v) => ParamView::U16(*v),
            ParamValue::I32(v) => ParamView::I32(*v),
            ParamValue::U32(v) => ParamView::U32(*v),
            ParamValue::Float(bits) => ParamView::Float(*bits),
            ParamValue::Hash(h) => ParamView::Hash(*h),
            ParamValue::Str(s) => ParamView::Str(s@),
            ParamValue::List(items) => ParamView::List(
                Seq::new(
                    items@.len(),
                    |i: int|
                        if 0 <= i < items@.len() {
                            items@[i].model()
                        } else {
                            ParamView::Bool(false)
                        },
                ),
            ),
            ParamValue::Struct(entries) => ParamView::Struct(
                Seq::new(
                    entries@.len(),
                    |i: int|
                        if 0 <= i < entries@.len() {
                            (entries@[i].0, entries@[i].1.model())
                        } else {
                            (Hash40(0), ParamView::Bool(false))
                        },
                ),
            ),
        }
    }
}

impl View for ParamValue {
    type V = ParamView;

    open spec fn view(&self) -> ParamView {
        self.model()
    }
}

impl ParamView {
    /// The number of children: of items for a list, of entries for a struct,
    /// none for a scalar.
    pub open spec fn arity(self) -> nat {
        match self {
            ParamView::List(items) => items.len(),
            ParamView::Struct(entries) => entries.len(),
            _ => 0,
        }
    }

    /// The child at place `i` of a list or a struct.
    pub open spec fn child(self, i: int) -> ParamView {
        match self {
            ParamView::List(items) => items[i],
            ParamView::Struct(entries) => entries[i].1,
            _ => self,
        }
    }

    /// The keys of a struct, in the order of its entries.
    pub open spec fn keys(self) -> Seq<Hash40> {
        match self {
            ParamView::Struct(entries) => Seq::new(entries.len(), |i: int| entries[i].0),
            _ => Seq::empty(),
        }
    }

    /// Whether every node can be written down: a hash has only its low 40
    /// bits set, the UTF-8 form of a string holds no zero byte, and a list or
    /// a struct has no more children than 32 bits can count.
    pub open spec fn wf(self) -> bool
        decreases self,
    {
        match self {
            ParamView::Hash(h) => h.wf(),
            ParamView::Str(text) => !encode_utf8(text).contains(0u8),
            ParamView::List(items) => items.len() <= u32::MAX && forall|i: int|
                0 <= i < items.len() ==> (#[trigger] items[i]).wf(),
            ParamView::Struct(entries) => entries.len() <= u32::MAX && forall|i: int|
                0 <= i < entries.len() ==> (#[trigger] entries[i]).0.wf() && entries[i].1.wf(),
            _ => true,
        }
    }

    /// The number of nodes of the tree, this one included.
    pub open spec fn node_count(self) -> nat
        decreases self, self.arity() + 1,
    {
        1 + self.count_children(self.arity())
    }

    /// The number of nodes under the first `n` children.
    pub open spec fn count_children(self, n: nat) -> nat
        decreases self, n,
    {
        if n == 0 || n > self.arity() {
            0
        } else {
            match self {
                ParamView::List(items) => self.count_children((n - 1) as nat) + items[n
                    - 1].node_count(),
                ParamView::Struct(entries) => self.count_children((n - 1) as nat) + entries[n
                    - 1].1.node_count(),
                _ => 0,
            }
        }
    }
}

/// The count over the first children grows with their number.
pub proof fn lemma_count_children_grows(t: ParamView, a: nat, b: nat)
    requires
        a <= b <= t.arity(),
    ensures
        t.count_children(a) <= t.count_children(b),
    decreases b,
{
    if a < b {
        lemma_count_children_grows(t, a, (b - 1) as nat);
    }
}

impl Clone for ParamValue {
    fn clone(&self) -> (copy: ParamValue)
        ensures
            copy@ == self@,
    {
        self.duplicate()
    }
}

impl ParamValue {
    /// A copy of the whole tree.
    pub fn duplicate(&self) -> (copy: ParamValue)
        ensures
            copy@ == self@,
        decreases self,
    {
        match self {
            ParamValue::Bool(v) => ParamValue::Bool(*v),
            ParamValue::I8(v) => ParamValue::I8(*v),
            ParamValue::U8(v) => ParamValue::U8(*v),
            ParamValue::I16(v) => ParamValue::I16(*v),
            ParamValue::U16(v) => ParamValue::U16(*v),
            ParamValue::I32(v) => ParamValue::I32(*v),
            ParamValue::U32(v) => ParamValue::U32(*v),
            ParamValue::Float(bits) => ParamValue::Float(*bits),
            ParamValue::Hash(h) => ParamValue::Hash(*h),
            ParamValue::Str(text) => ParamValue::Str(text.clone()),
            ParamValue::List(items) => {
                let n: usize = items.len();
                let mut copies: Vec<ParamValue> = Vec::new();
                let mut i: usize = 0;
                while i < n
                    invariant
                        i <= n,
                        n == items@.len(),
                        *self == ParamValue::List(*items),
                        copies@.len() == i,
                        forall|k: int| 0 <= k < i ==> copies@[k]@ == items@[k]@,
                    decreases n - i,
                {
                    assert(self@->List_0[i as int] == items@[i as int]@);
                    let copy: ParamValue = items[i].duplicate();
                    copies.push(copy);
                    i = i + 1;
                }
                assert(ParamValue::List(copies)@->List_0 =~= self@->List_0);
                ParamValue::List(copies)
            },
            ParamValue::Struct(entries) => {
                let n: usize = entries.len();
                let mut copies: Vec<(Hash40, ParamValue)> = Vec::new();
                let mut i: usize = 0;
                while i < n
                    invariant
                        i <= n,
                        n == entries@.len(),
                        *self == ParamValue::Struct(*entries),
                        copies@.len() == i,
                        forall|k: int|
                            0 <= k < i ==> copies@[k].0 == entries@[k].0 && copies@[k].1@
                                == entries@[k].1@,
                    decreases n - i,
                {
                    assert(self@->Struct_0[i as int].1 == entries@[i as int].1@);
                    let copy: ParamValue = entries[i].1.duplicate();
                    copies.push((entries[i].0, copy));
                    i = i + 1;
                }
                assert(ParamValue::Struct(copies)@->Struct_0 =~= self@->Struct_0);
                ParamValue::Struct(copies)
            },
        }
    }
}

/// Tests whether a byte occurs in a run of bytes.
pub fn holds_byte(bytes: &[u8], byte: u8) -> (found: bool)
    ensures
        found == bytes@.contains(byte),
{
    let n: usize = bytes.len();
    let mut i: usize = 0;
    while i < n
        invariant
            i <= n,
            n == bytes@.len(),
            forall|k: int| 0 <= k < i ==> bytes@[k] != byte,
        decreases n - i,
    {
        if bytes[i] == byte {
            return true;
        }
        i = i + 1;
    }
    false
}

impl ParamValue {
    /// Tests whether every node can be written down.
    pub fn is_wf(&self) -> (ok: bool)
        ensures
            ok == self@.wf(),
        decreases self,
    {
        match self {
            ParamValue::Hash(h) => h.is_valid(),
            ParamValue::Str(text) => !holds_byte(text.as_str().as_bytes(), 0),
            ParamValue::List(items) => {
                let n: usize = items.len();
                if n as u64 > 0xFFFF_FFFF {
                    return false;
                }
                let mut i: usize = 0;
                while i < n
                    invariant
                        i <= n,
                        n == items@.len(),
                        *self == ParamValue::List(*items),
                        forall|k: int| 0 <= k < i ==> (#[trigger] self@->List_0[k]).wf(),
                    decreases n - i,
                {
                    assert(self@->List_0[i as int] == items@[i as int]@);
                    if !items[i].is_wf() {
                        return false;
                    }
                    i = i + 1;
                }
                true
            },
            ParamValue::Struct(entries) => {
                let n: usize = entries.len();
                if n as u64 > 0xFFFF_FFFF {
                    return false;
                }
                let mut i: usize = 0;
                while i < n
                    invariant
                        i <= n,
                        n == entries@.len(),
                        *self == ParamValue::Struct(*entries),
                        forall|k: int|
                            0 <= k < i ==> (#[trigger] self@->Struct_0[k]).0.wf()
                                && self@->Struct_0[k].1.wf(),
                    decreases n - i,
                {
                    assert(self@->Struct_0[i as int] == (entries@[i as int].0, entries@[i as int].1@));
                    if !entries[i].0.is_valid() || !entries[i].1.is_wf() {
                        return false;
                    }
                    i = i + 1;
                }
                true
            },
            _ => true,
        }
    }

    /// Counts the nodes of the tree against a budget: what is left of
    /// `budget` after taking one for each node, or `None` if the tree has
    /// more nodes than that.
    pub fn count_within(&self, budget: u64) -> (left: Option<u64>)
        ensures
            match left {
                Some(l) => self@.node_count() + l == budget,
                None => self@.node_count() > budget,
            },
        decreases self,
    {
        if budget == 0 {
            return None;
        }
        let mut left: u64 = budget - 1;
        match self {
            ParamValue::List(items) => {
                let n: usize = items.len();
                let mut i: usize = 0;
                while i < n
                    invariant
                        i <= n,
                        n == items@.len(),
                        self@.arity() == n,
                        *self == ParamValue::List(*items),
                        self@.count_children(i as nat) + left + 1 == budget,
                    decreases n - i,
                {
                    assert(self@->List_0[i as int] == items@[i as int]@);
                    proof {
                        lemma_count_children_grows(self@, (i + 1) as nat, n as nat);
                    }
                    match items[i].count_within(left) {
                        None => {
                            return None;
                        },
                        Some(l) => {
                            left = l;
                        },
                    }
                    i = i + 1;
                }
                Some(left)
            },
            ParamValue::Struct(entries) => {
                let n: usize = entries.len();
                let mut i: usize = 0;
                while i < n
                    invariant
                        i <= n,
                        n == entries@.len(),
                        self@.arity() == n,
                        *self == ParamValue::Struct(*entries),
                        self@.count_children(i as nat) + left + 1 == budget,
                    decreases n - i,
                {
                    assert(self@->Struct_0[i as int].1 == entries@[i as int].1@);
                    proof {
                        lemma_count_children_grows(self@, (i + 1) as nat, n as nat);
                    }
                    match entries[i].1.count_within(left) {
                        None => {
                            return None;
                        },
                        Some(l) => {
                            left = l;
                        },
                    }
                    i = i + 1;
                }
                Some(left)
            },
            _ => Some(left),
        }
    }
}

} // verus!
