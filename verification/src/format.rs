//! The wire format, stated on sequences of bytes.
//!
//! An encoded tree is four parts in a row. A header of twenty bytes: the
//! eight bytes `paracobn`, then three 32-bit counts: the nodes of the tree,
//! the key lists of the reference table, and the bytes of the string region.
//! The reference table: for each key list its length as 32 bits, then its
//! keys, five bytes each. The string region: strings in UTF-8, each closed by
//! a zero byte. Last the root node. Every number is little-endian.
//!
//! A node is a tag byte and what the tag calls for: a scalar's value in its
//! fixed width; for a string its offset in the string region; for a list its
//! length and then its items; for a struct the index of its key list and
//! then one value for each key of that list.
use vstd::prelude::*;
use vstd::utf8::*;
use crate::hash40::Hash40;
use crate::param::ParamView;
use crate::wire::{le_bytes, le_value, to_signed, to_unsigned};

verus! {

pub const TAG_BOOL: u8 = 1;

pub const TAG_I8: u8 = 2;

pub const TAG_U8: u8 = 3;

pub const TAG_I16: u8 = 4;

pub const TAG_U16: u8 = 5;

pub const TAG_I32: u8 = 6;

pub const TAG_U32: u8 = 7;

pub const TAG_FLOAT: u8 = 8;

pub const TAG_HASH: u8 = 9;

pub const TAG_STR: u8 = 10;

pub const TAG_LIST: u8 = 11;

pub const TAG_STRUCT: u8 = 12;

/// The length of the header.
pub const HEADER_LEN: usize = 20;

/// The width of a hash on the wire.
pub const HASH_WIDTH: usize = 5;

/// Why a buffer was not accepted as an encoded tree.
#[derive(Debug, Clone, Copy, PartialEq, Eq, Structural)]
pub enum DecodeError {
    /// The buffer ends before a field that has to be there, or holds another
    /// number of nodes than its header says.
    Truncated,
    /// A node begins with a byte that is none of the twelve tags; or the
    /// buffer does not begin with the format's eight bytes; or the root node
    /// is not a struct.
    UnknownTag,
    /// A struct names a key list that the reference table does not have.
    BadReference,
    /// A string's offset lies outside the string region, or no zero byte
    /// follows it there, or the bytes up to that zero are not UTF-8.
    InvalidStringOffset,
}

/// The eight bytes that every encoded tree begins with.
pub open spec fn magic() -> Seq<u8> {
    seq![0x70u8, 0x61u8, 0x72u8, 0x61u8, 0x63u8, 0x6fu8, 0x62u8, 0x6eu8]
}

/// Whether `tag` is one of the twelve tags.
pub open spec fn is_tag(tag: u8) -> bool {
    TAG_BOOL <= tag <= TAG_STRUCT
}

/// The place of the first zero byte of `region` at or after `from`, or the
/// region's length if there is none.
pub open spec fn nul_pos(region: Seq<u8>, from: int) -> int
    decreases region.len() - from,
{
    if from < 0 || from >= region.len() {
        region.len() as int
    } else if region[from] == 0 {
        from
    } else {
        nul_pos(region, from + 1)
    }
}

/// The string that starts at offset `off` of the string region, if one does.
pub open spec fn string_at(region: Seq<u8>, off: int) -> Option<Seq<char>> {
    let end = nul_pos(region, off);
    if off < 0 || end >= region.len() {
        None
    } else if valid_utf8(region.subrange(off, end)) {
        Some(decode_utf8(region.subrange(off, end)))
    } else {
        None
    }
}

/// The hash in the five bytes at `pos`.
pub open spec fn hash_at(bytes: Seq<u8>, pos: int) -> Hash40 {
    Hash40(le_value(bytes, pos, HASH_WIDTH as nat) as u64)
}

/// The `count` keys that start at `pos`.
pub open spec fn keys_at(bytes: Seq<u8>, pos: int, count: nat) -> Seq<Hash40> {
    Seq::new(count, |i: int| hash_at(bytes, pos + HASH_WIDTH * i))
}

/// The reference table of `count` key lists that starts at `pos`, and the
/// place where it ends.
pub open spec fn decode_layouts(bytes: Seq<u8>, pos: int, count: nat) -> Result<
    (Seq<Seq<Hash40>>, int),
    DecodeError,
>
    decreases count,
{
    if count == 0 {
        Ok((Seq::empty(), pos))
    } else if pos < 0 || pos + 4 > bytes.len() {
        Err(DecodeError::Truncated)
    } else {
        let keys = le_value(bytes, pos, 4) as nat;
        if pos + 4 + HASH_WIDTH * keys > bytes.len() {
            Err(DecodeError::Truncated)
        } else {
            match decode_layouts(bytes, pos + 4 + HASH_WIDTH * keys, (count - 1) as nat) {
                Ok((rest, end)) => Ok((seq![keys_at(bytes, pos + 4, keys)] + rest, end)),
                Err(e) => Err(e),
            }
        }
    }
}

/// The entries of a struct: each key with the value at its place.
pub open spec fn zip_entries(keys: Seq<Hash40>, values: Seq<ParamView>) -> Seq<
    (Hash40, ParamView),
> {
    Seq::new(keys.len(), |i: int| (keys[i], values[i]))
}

/// The node that starts at `pos`, and the place where it ends.
pub open spec fn decode_node(
    bytes: Seq<u8>,
    pos: int,
    layouts: Seq<Seq<Hash40>>,
    strings: Seq<u8>,
) -> Result<(ParamView, int), DecodeError>
    decreases bytes.len() - pos, 0nat,
{
    if pos < 0 || pos >= bytes.len() {
        Err(DecodeError::Truncated)
    } else {
        let tag = bytes[pos];
        let at = pos + 1;
        let left = bytes.len() - at;
        if tag == TAG_BOOL {
            if left < 1 {
                Err(DecodeError::Truncated)
            } else {
                Ok((ParamView::Bool(bytes[at] != 0), at + 1))
            }
        } else if tag == TAG_I8 {
            if left < 1 {
                Err(DecodeError::Truncated)
            } else {
                Ok((ParamView::I8(to_signed(le_value(bytes, at, 1), 1) as i8), at + 1))
            }
        } else if tag == TAG_U8 {
            if left < 1 {
                Err(DecodeError::Truncated)
            } else {
                Ok((ParamView::U8(bytes[at]), at + 1))
            }
        } else if tag == TAG_I16 {
            if left < 2 {
                Err(DecodeError::Truncated)
            } else {
                Ok((ParamView::I16(to_signed(le_value(bytes, at, 2), 2) as i16), at + 2))
            }
        } else if tag == TAG_U16 {
            if left < 2 {
                Err(DecodeError::Truncated)
            } else {
                Ok((ParamView::U16(le_value(bytes, at, 2) as u16), at + 2))
            }
        } else if tag == TAG_I32 {
            if left < 4 {
                Err(DecodeError::Truncated)
            } else {
                Ok((ParamView::I32(to_signed(le_value(bytes, at, 4), 4) as i32), at + 4))
            }
        } else if tag == TAG_U32 {
            if left < 4 {
                Err(DecodeError::Truncated)
            } else {
                Ok((ParamView::U32(le_value(bytes, at, 4) as u32), at + 4))
            }
        } else if tag == TAG_FLOAT {
            if left < 4 {
                Err(DecodeError::Truncated)
            } else {
                Ok((ParamView::Float(le_value(bytes, at, 4) as u32), at + 4))
            }
        } else if tag == TAG_HASH {
            if left < HASH_WIDTH {
                Err(DecodeError::Truncated)
            } else {
                Ok((ParamView::Hash(hash_at(bytes, at)), at + HASH_WIDTH))
            }
        } else if tag == TAG_STR {
            if left < 4 {
                Err(DecodeError::Truncated)
            } else {
                match string_at(strings, le_value(bytes, at, 4)) {
                    Some(text) => Ok((ParamView::Str(text), at + 4)),
                    None => Err(DecodeError::InvalidStringOffset),
                }
            }
        } else if tag == TAG_LIST {
            if left < 4 {
                Err(DecodeError::Truncated)
            } else {
                match decode_children(
                    bytes,
                    at + 4,
                    le_value(bytes, at, 4) as nat,
                    layouts,
                    strings,
                ) {
                    Ok((items, end)) => Ok((ParamView::List(items), end)),
                    Err(e) => Err(e),
                }
            }
        } else if tag == TAG_STRUCT {
            if left < 4 {
                Err(DecodeError::Truncated)
            } else {
                let index = le_value(bytes, at, 4);
                if index >= layouts.len() {
                    Err(DecodeError::BadReference)
                } else {
                    match decode_children(bytes, at + 4, layouts[index].len(), layouts, strings) {
                        Ok((values, end)) => Ok(
                            (ParamView::Struct(zip_entries(layouts[index], values)), end),
                        ),
                        Err(e) => Err(e),
                    }
                }
            }
        } else {
            Err(DecodeError::UnknownTag)
        }
    }
}

/// The `count` nodes in a row that start at `pos`, and the place where the
/// last of them ends.
///
/// A node takes at least its tag byte and ends inside the buffer, so the
/// next node starts further on and the test of that never fails; it is here
/// so that the definition is seen to end.
pub open spec fn decode_children(
    bytes: Seq<u8>,
    pos: int,
    count: nat,
    layouts: Seq<Seq<Hash40>>,
    strings: Seq<u8>,
) -> Result<(Seq<ParamView>, int), DecodeError>
    decreases bytes.len() - pos, count + 1,
{
    if count == 0 {
        Ok((Seq::empty(), pos))
    } else if pos < 0 || pos >= bytes.len() {
        Err(DecodeError::Truncated)
    } else {
        match decode_node(bytes, pos, layouts, strings) {
            Err(e) => Err(e),
            Ok((first, next)) => if next <= pos || next > bytes.len() {
                Err(DecodeError::Truncated)
            } else {
                match decode_children(bytes, next, (count - 1) as nat, layouts, strings) {
                    Ok((rest, end)) => Ok((seq![first] + rest, end)),
                    Err(e) => Err(e),
                }
            },
        }
    }
}

/// The three counts of the header: nodes, key lists, bytes of strings.
pub open spec fn header_counts(bytes: Seq<u8>) -> (nat, nat, nat) {
    (le_value(bytes, 8, 4) as nat, le_value(bytes, 12, 4) as nat, le_value(bytes, 16, 4) as nat)
}

/// What a buffer decodes to: the tree it holds, or the reason why it holds none.
///
/// Bytes after the root node are not looked at.
pub open spec fn decode_bytes(bytes: Seq<u8>) -> Result<ParamView, DecodeError> {
    if bytes.len() < HEADER_LEN {
        Err(DecodeError::Truncated)
    } else if bytes.subrange(0, 8) != magic() {
        Err(DecodeError::UnknownTag)
    } else {
        let (nodes, lists, text) = header_counts(bytes);
        match decode_layouts(bytes, HEADER_LEN as int, lists) {
            Err(e) => Err(e),
            Ok((layouts, strings_at)) => {
                let root_at = strings_at + text;
                if root_at >= bytes.len() {
                    Err(DecodeError::Truncated)
                } else if bytes[root_at] != TAG_STRUCT {
                    Err(DecodeError::UnknownTag)
                } else {
                    match decode_node(
                        bytes,
                        root_at,
                        layouts,
                        bytes.subrange(strings_at, root_at),
                    ) {
                        Err(e) => Err(e),
                        Ok((root, end)) => if root.node_count() != nodes {
                            Err(DecodeError::Truncated)
                        } else {
                            Ok(root)
                        },
                    }
                }
            },
        }
    }
}

/// The table that comes of taking the items one by one into `table`, each
/// only if the table does not hold it yet.
pub open spec fn absorb<T>(table: Seq<T>, items: Seq<T>) -> Seq<T>
    decreases items.len(),
{
    if items.len() == 0 {
        table
    } else {
        let before = absorb(table, items.drop_last());
        if before.contains(items.last()) {
            before
        } else {
            before.push(items.last())
        }
    }
}

/// The place of the first item at or after `from` that equals `x`, or the
/// table's length if there is none.
pub open spec fn first_index_from<T>(table: Seq<T>, x: T, from: int) -> int
    decreases table.len() - from,
{
    if from < 0 || from >= table.len() {
        table.len() as int
    } else if table[from] == x {
        from
    } else {
        first_index_from(table, x, from + 1)
    }
}

/// The place of the first item that equals `x`.
pub open spec fn first_index<T>(table: Seq<T>, x: T) -> int {
    first_index_from(table, x, 0)
}

/// The strings of the tree, in the order in which a walk meets them: a node
/// before its children, the children from first to last.
pub open spec fn strings_of(t: ParamView) -> Seq<Seq<char>>
    decreases t, t.arity() + 1,
{
    match t {
        ParamView::Str(text) => seq![text],
        _ => strings_of_children(t, t.arity()),
    }
}

/// The strings under the first `n` children of `t`.
pub open spec fn strings_of_children(t: ParamView, n: nat) -> Seq<Seq<char>>
    decreases t, n,
{
    if n == 0 || n > t.arity() {
        Seq::empty()
    } else {
        match t {
            ParamView::List(items) => strings_of_children(t, (n - 1) as nat) + strings_of(
                items[n - 1],
            ),
            ParamView::Struct(entries) => strings_of_children(t, (n - 1) as nat) + strings_of(
                entries[n - 1].1,
            ),
            _ => Seq::empty(),
        }
    }
}

/// The key lists of the structs of the tree, in the order in which a walk
/// meets them: a node before its children, the children from first to last.
pub open spec fn layouts_of(t: ParamView) -> Seq<Seq<Hash40>>
    decreases t, t.arity() + 1,
{
    match t {
        ParamView::Struct(entries) => seq![t.keys()] + layouts_of_children(t, t.arity()),
        _ => layouts_of_children(t, t.arity()),
    }
}

/// The key lists under the first `n` children of `t`.
pub open spec fn layouts_of_children(t: ParamView, n: nat) -> Seq<Seq<Hash40>>
    decreases t, n,
{
    if n == 0 || n > t.arity() {
        Seq::empty()
    } else {
        match t {
            ParamView::List(items) => layouts_of_children(t, (n - 1) as nat) + layouts_of(
                items[n - 1],
            ),
            ParamView::Struct(entries) => layouts_of_children(t, (n - 1) as nat) + layouts_of(
                entries[n - 1].1,
            ),
            _ => Seq::empty(),
        }
    }
}

/// The reference table of a tree: each distinct key list once, in the order
/// in which a walk first meets it.
pub open spec fn layout_table(t: ParamView) -> Seq<Seq<Hash40>> {
    absorb(Seq::empty(), layouts_of(t))
}

/// The string table of a tree: each distinct string once, in the order in
/// which a walk first meets it.
pub open spec fn string_table(t: ParamView) -> Seq<Seq<char>> {
    absorb(Seq::empty(), strings_of(t))
}

/// The bytes of the first `n` strings of a table, each closed by a zero byte.
pub open spec fn string_region(table: Seq<Seq<char>>, n: nat) -> Seq<u8>
    decreases n,
{
    if n == 0 || n > table.len() {
        Seq::empty()
    } else {
        string_region(table, (n - 1) as nat) + encode_utf8(table[n - 1]).push(0u8)
    }
}

/// The offset in the string region at which `text` is found.
pub open spec fn string_offset(table: Seq<Seq<char>>, text: Seq<char>) -> nat {
    string_region(table, first_index(table, text) as nat).len()
}

/// The bytes of the first `n` keys of a key list.
pub open spec fn encode_keys(keys: Seq<Hash40>, n: nat) -> Seq<u8>
    decreases n,
{
    if n == 0 || n > keys.len() {
        Seq::empty()
    } else {
        encode_keys(keys, (n - 1) as nat) + le_bytes(keys[n - 1].0 as int, HASH_WIDTH as nat)
    }
}

/// The bytes of the first `n` key lists of a reference table.
pub open spec fn encode_layouts(table: Seq<Seq<Hash40>>, n: nat) -> Seq<u8>
    decreases n,
{
    if n == 0 || n > table.len() {
        Seq::empty()
    } else {
        encode_layouts(table, (n - 1) as nat) + le_bytes(table[n - 1].len() as int, 4)
            + encode_keys(table[n - 1], table[n - 1].len())
    }
}

/// The bytes of a node, written against a reference table and a string table.
pub open spec fn encode_node(
    t: ParamView,
    layouts: Seq<Seq<Hash40>>,
    strings: Seq<Seq<char>>,
) -> Seq<u8>
    decreases t, t.arity() + 1,
{
    match t {
        ParamView::Bool(b) => seq![TAG_BOOL, if b { 1u8 } else { 0u8 }],
        ParamView::I8(v) => seq![TAG_I8] + le_bytes(to_unsigned(v as int, 1), 1),
        ParamView::U8(v) => seq![TAG_U8, v],
        ParamView::I16(v) => seq![TAG_I16] + le_bytes(to_unsigned(v as int, 2), 2),
        ParamView::U16(v) => seq![TAG_U16] + le_bytes(v as int, 2),
        ParamView::I32(v) => seq![TAG_I32] + le_bytes(to_unsigned(v as int, 4), 4),
        ParamView::U32(v) => seq![TAG_U32] + le_bytes(v as int, 4),
        ParamView::Float(bits) => seq![TAG_FLOAT] + le_bytes(bits as int, 4),
        ParamView::Hash(h) => seq![TAG_HASH] + le_bytes(h.0 as int, HASH_WIDTH as nat),
        ParamView::Str(text) => seq![TAG_STR] + le_bytes(string_offset(strings, text) as int, 4),
        ParamView::List(items) => seq![TAG_LIST] + le_bytes(items.len() as int, 4)
            + encode_children(t, t.arity(), layouts, strings),
        ParamView::Struct(entries) => seq![TAG_STRUCT] + le_bytes(
            first_index(layouts, t.keys()),
            4,
        ) + encode_children(t, t.arity(), layouts, strings),
    }
}

/// The bytes of the first `n` children of `t`, one after the other.
pub open spec fn encode_children(
    t: ParamView,
    n: nat,
    layouts: Seq<Seq<Hash40>>,
    strings: Seq<Seq<char>>,
) -> Seq<u8>
    decreases t, n,
{
    if n == 0 || n > t.arity() {
        Seq::empty()
    } else {
        match t {
            ParamView::List(items) => encode_children(t, (n - 1) as nat, layouts, strings)
                + encode_node(items[n - 1], layouts, strings),
            ParamView::Struct(entries) => encode_children(t, (n - 1) as nat, layouts, strings)
                + encode_node(entries[n - 1].1, layouts, strings),
            _ => Seq::empty(),
        }
    }
}

/// Whether a tree can be encoded: its root is a struct, every node can be
/// written down, and the three counts of the header fit in 32 bits each.
pub open spec fn encodable(t: ParamView) -> bool {
    &&& t is Struct
    &&& t.wf()
    &&& t.node_count() <= u32::MAX
    &&& layout_table(t).len() <= u32::MAX
    &&& string_region(string_table(t), string_table(t).len()).len() <= u32::MAX
}

/// The bytes of an encoded tree: header, reference table, string region,
/// root node.
pub open spec fn encode_tree(t: ParamView) -> Seq<u8> {
    let layouts = layout_table(t);
    let strings = string_table(t);
    let region = string_region(strings, strings.len());
    magic() + le_bytes(t.node_count() as int, 4) + le_bytes(layouts.len() as int, 4) + le_bytes(
        region.len() as int,
        4,
    ) + encode_layouts(layouts, layouts.len()) + region + encode_node(t, layouts, strings)
}

} // verus!
