//! What holds of every tree that reading gives.
use vstd::prelude::*;
use vstd::utf8::*;
use crate::format::{
    decode_bytes, decode_children, decode_layouts, decode_node, header_counts, keys_at, nul_pos,
    string_at, zip_entries, HASH_WIDTH, HEADER_LEN,
};
use crate::hash40::Hash40;
use crate::param::ParamView;
use crate::roundtrip::keys_fit;
use crate::wire::{le_value, lemma_le_value_bound, lemma_pow256_values};

verus! {

/// The scan for a zero byte ends at or after its start, inside the region or
/// at its end, and passes over no zero byte.
pub proof fn lemma_nul_pos(region: Seq<u8>, from: int)
    requires
        0 <= from <= region.len(),
    ensures
        from <= nul_pos(region, from) <= region.len(),
        nul_pos(region, from) < region.len() ==> region[nul_pos(region, from)] == 0,
        forall|j: int| from <= j < nul_pos(region, from) ==> region[j] != 0,
    decreases region.len() - from,
{
    if from < region.len() && region[from] != 0 {
        lemma_nul_pos(region, from + 1);
    }
}

/// A string that is read from the string region holds no zero byte.
pub proof fn lemma_string_at_wf(region: Seq<u8>, off: int)
    requires
        string_at(region, off) is Some,
    ensures
        !encode_utf8(string_at(region, off)->Some_0).contains(0u8),
{
    if off <= region.len() {
        lemma_nul_pos(region, off);
        let end = nul_pos(region, off);
        let raw = region.subrange(off, end);
        decode_utf8_encode_utf8(raw);
        if raw.contains(0u8) {
            let j = choose|j: int| 0 <= j < raw.len() && raw[j] == 0u8;
            assert(region[off + j] == 0);
        }
    }
}

/// The key lists that are read from a buffer can be written down.
pub proof fn lemma_decode_layouts_fit(bytes: Seq<u8>, pos: int, count: nat)
    requires
        decode_layouts(bytes, pos, count) is Ok,
    ensures
        decode_layouts(bytes, pos, count)->Ok_0.0.len() == count,
        forall|i: int|
            0 <= i < count ==> keys_fit(#[trigger] decode_layouts(bytes, pos, count)->Ok_0.0[i]),
        pos <= decode_layouts(bytes, pos, count)->Ok_0.1,
        count > 0 ==> decode_layouts(bytes, pos, count)->Ok_0.1 <= bytes.len(),
    decreases count,
{
    if count > 0 {
        lemma_le_value_bound(bytes, pos, 4);
        lemma_pow256_values();
        let width = le_value(bytes, pos, 4) as nat;
        let first = keys_at(bytes, pos + 4, width);
        let next = pos + 4 + HASH_WIDTH * width;
        lemma_decode_layouts_fit(bytes, next, (count - 1) as nat);
        let rest = decode_layouts(bytes, next, (count - 1) as nat)->Ok_0.0;
        let table = decode_layouts(bytes, pos, count)->Ok_0.0;
        assert(table == seq![first] + rest);
        assert forall|j: int| 0 <= j < first.len() implies (#[trigger] first[j]).wf() by {
            lemma_le_value_bound(bytes, pos + 4 + HASH_WIDTH * j, HASH_WIDTH as nat);
        }
        assert(keys_fit(first));
        assert forall|i: int| 0 <= i < count implies keys_fit(#[trigger] table[i]) by {
            if i > 0 {
                assert(table[i] == rest[i - 1]);
            }
        }
    }
}

/// Whether every key list of a reference table can be written down.
pub open spec fn table_fits(layouts: Seq<Seq<Hash40>>) -> bool {
    forall|i: int| 0 <= i < layouts.len() ==> keys_fit(#[trigger] layouts[i])
}

/// A node that is read from a buffer takes at least one byte and ends
/// inside the buffer; and it is well formed, if the key lists of the
/// reference table can be written down.
pub proof fn lemma_decode_node_sound(
    bytes: Seq<u8>,
    pos: int,
    layouts: Seq<Seq<Hash40>>,
    strings: Seq<u8>,
)
    requires
        decode_node(bytes, pos, layouts, strings) is Ok,
    ensures
        pos < decode_node(bytes, pos, layouts, strings)->Ok_0.1 <= bytes.len(),
        table_fits(layouts) ==> decode_node(bytes, pos, layouts, strings)->Ok_0.0.wf(),
    decreases bytes.len() - pos, 0nat,
{
    let (t, end) = decode_node(bytes, pos, layouts, strings)->Ok_0;
    let at = pos + 1;
    lemma_pow256_values();
    match t {
        ParamView::Hash(h) => {
            lemma_le_value_bound(bytes, at, HASH_WIDTH as nat);
        },
        ParamView::Str(text) => {
            lemma_string_at_wf(strings, le_value(bytes, at, 4));
        },
        ParamView::List(items) => {
            lemma_le_value_bound(bytes, at, 4);
            let count = le_value(bytes, at, 4) as nat;
            lemma_decode_children_sound(bytes, at + 4, count, layouts, strings);
        },
        ParamView::Struct(entries) => {
            lemma_le_value_bound(bytes, at, 4);
            let index = le_value(bytes, at, 4);
            let keys = layouts[index];
            lemma_decode_children_sound(bytes, at + 4, keys.len(), layouts, strings);
            let values = decode_children(bytes, at + 4, keys.len(), layouts, strings)->Ok_0.0;
            assert(entries == zip_entries(keys, values));
            if table_fits(layouts) {
                assert(keys_fit(keys));
                assert forall|i: int| 0 <= i < entries.len() implies (
                #[trigger] entries[i]).0.wf() && entries[i].1.wf() by {
                    assert(keys[i].wf());
                    assert(values[i].wf());
                }
            }
        },
        _ => {},
    }
}

/// The nodes that are read in a row are as many as were asked for and end
/// inside the buffer; and they are well formed, if the key lists of the
/// reference table can be written down.
pub proof fn lemma_decode_children_sound(
    bytes: Seq<u8>,
    pos: int,
    count: nat,
    layouts: Seq<Seq<Hash40>>,
    strings: Seq<u8>,
)
    requires
        decode_children(bytes, pos, count, layouts, strings) is Ok,
    ensures
        decode_children(bytes, pos, count, layouts, strings)->Ok_0.0.len() == count,
        table_fits(layouts) ==> forall|i: int|
            0 <= i < count ==> (#[trigger] decode_children(
                bytes,
                pos,
                count,
                layouts,
                strings,
            )->Ok_0.0[i]).wf(),
        pos <= decode_children(bytes, pos, count, layouts, strings)->Ok_0.1,
        count > 0 ==> decode_children(bytes, pos, count, layouts, strings)->Ok_0.1 <= bytes.len(),
    decreases bytes.len() - pos, count + 1,
{
    if count > 0 {
        lemma_decode_node_sound(bytes, pos, layouts, strings);
        let (first, next) = decode_node(bytes, pos, layouts, strings)->Ok_0;
        lemma_decode_children_sound(bytes, next, (count - 1) as nat, layouts, strings);
        let rest = decode_children(bytes, next, (count - 1) as nat, layouts, strings)->Ok_0.0;
        let all = decode_children(bytes, pos, count, layouts, strings)->Ok_0.0;
        assert(all == seq![first] + rest);
        if table_fits(layouts) {
            assert forall|i: int| 0 <= i < count implies (#[trigger] all[i]).wf() by {
                if i > 0 {
                    assert(all[i] == rest[i - 1]);
                }
            }
        }
    }
}

/// No buffer gives a tree that is not well formed: what decoding gives is a
/// struct, every hash in it has only its low 40 bits set, no string in it
/// holds a zero byte, and its nodes are as many as the header says.
pub proof fn lemma_decoded_is_wf(bytes: Seq<u8>)
    requires
        decode_bytes(bytes) is Ok,
    ensures
        decode_bytes(bytes)->Ok_0 is Struct,
        decode_bytes(bytes)->Ok_0.wf(),
        decode_bytes(bytes)->Ok_0.node_count() <= u32::MAX,
{
    let lists = header_counts(bytes).1;
    let text = header_counts(bytes).2;
    lemma_le_value_bound(bytes, 8, 4);
    lemma_pow256_values();
    lemma_decode_layouts_fit(bytes, HEADER_LEN as int, lists);
    let (layouts, strings_at) = decode_layouts(bytes, HEADER_LEN as int, lists)->Ok_0;
    let root_at = strings_at + text;
    lemma_decode_node_sound(bytes, root_at, layouts, bytes.subrange(strings_at, root_at));
}

} // verus!
