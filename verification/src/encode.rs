//! The writer: from a parameter tree to bytes.
use vstd::prelude::*;
use vstd::utf8::*;
use crate::format::{
    absorb, decode_bytes, encodable, DecodeError, encode_children, encode_keys, encode_layouts,
    encode_node, encode_tree, first_index, first_index_from, layouts_of, layouts_of_children, magic,
    string_region, strings_of, strings_of_children, HASH_WIDTH, TAG_BOOL, TAG_FLOAT, TAG_HASH,
    TAG_I16, TAG_I32, TAG_I8, TAG_LIST, TAG_STR, TAG_STRUCT, TAG_U16, TAG_U32, TAG_U8,
};
use crate::hash40::Hash40;
use crate::param::{ParamValue, ParamView};
use crate::roundtrip::{lemma_child_served, lemma_region_prefix, lemma_round_trip, tables_serve};
use crate::tables::{
    layouts_view, lemma_absorb_concat, lemma_absorb_holds_items, lemma_absorb_one,
    lemma_first_index_found, strings_view,
};
use crate::wire::{lemma_pow256_values, pow256, to_unsigned, write_le};

verus! {

/// The keys of the entries of a struct, in order.
pub open spec fn entry_keys(entries: Seq<(Hash40, ParamValue)>) -> Seq<Hash40> {
    Seq::new(entries.len(), |i: int| entries[i].0)
}

/// Copies the keys of the entries of a struct, in order.
pub fn keys_of(entries: &Vec<(Hash40, ParamValue)>) -> (keys: Vec<Hash40>)
    ensures
        keys@ == entry_keys(entries@),
{
    let n: usize = entries.len();
    let mut keys: Vec<Hash40> = Vec::new();
    let mut i: usize = 0;
    while i < n
        invariant
            i <= n,
            n == entries@.len(),
            keys@.len() == i,
            forall|k: int| 0 <= k < i ==> keys@[k] == entries@[k].0,
        decreases n - i,
    {
        keys.push(entries[i].0);
        i = i + 1;
    }
    assert(keys@ =~= entry_keys(entries@));
    keys
}

/// Tests whether two key lists hold the same keys in the same order.
pub fn same_keys(a: &Vec<Hash40>, b: &Vec<Hash40>) -> (same: bool)
    ensures
        same == (a@ == b@),
{
    let n: usize = a.len();
    if b.len() != n {
        return false;
    }
    let mut i: usize = 0;
    while i < n
        invariant
            i <= n,
            n == a@.len(),
            n == b@.len(),
            forall|k: int| 0 <= k < i ==> a@[k] == b@[k],
        decreases n - i,
    {
        if a[i].0 != b[i].0 {
            return false;
        }
        i = i + 1;
    }
    assert(a@ =~= b@);
    true
}

/// Finds the first place of a key list in a reference table; the table's
/// length if it is not there.
pub fn find_layout(table: &Vec<Vec<Hash40>>, keys: &Vec<Hash40>) -> (place: usize)
    ensures
        place == first_index(layouts_view(table@), keys@),
        place <= table@.len(),
{
    let n: usize = table.len();
    let ghost view = layouts_view(table@);
    let mut i: usize = 0;
    while i < n
        invariant
            i <= n,
            n == table@.len(),
            view == layouts_view(table@),
            first_index(view, keys@) == first_index_from(view, keys@, i as int),
        decreases n - i,
    {
        assert(view[i as int] == table@[i as int]@);
        if same_keys(&table[i], keys) {
            return i;
        }
        i = i + 1;
    }
    n
}

/// Finds the first place of a string in a string table; the table's length
/// if it is not there.
pub fn find_string(table: &Vec<String>, text: &String) -> (place: usize)
    ensures
        place == first_index(strings_view(table@), text@),
        place <= table@.len(),
{
    let n: usize = table.len();
    let ghost view = strings_view(table@);
    let mut i: usize = 0;
    while i < n
        invariant
            i <= n,
            n == table@.len(),
            view == strings_view(table@),
            first_index(view, text@) == first_index_from(view, text@, i as int),
        decreases n - i,
    {
        assert(view[i as int] == table@[i as int]@);
        if table[i] == *text {
            return i;
        }
        i = i + 1;
    }
    n
}

/// Takes the strings of a tree into a string table, in the order in which a
/// walk meets them, each only if the table does not hold it yet.
pub fn collect_strings(t: &ParamValue, table: &mut Vec<String>)
    ensures
        strings_view(final(table)@) == absorb(strings_view(old(table)@), strings_of(t@)),
    decreases t,
{
    let ghost start = strings_view(table@);
    match t {
        ParamValue::Str(text) => {
            let place: usize = find_string(table, text);
            proof {
                lemma_absorb_one(start, text@);
            }
            if place == table.len() {
                table.push(text.clone());
                assert(strings_view(table@) =~= start.push(text@));
            }
        },
        ParamValue::List(items) => {
            let n: usize = items.len();
            let mut i: usize = 0;
            while i < n
                invariant
                    i <= n,
                    n == items@.len(),
                    *t == ParamValue::List(*items),
                    strings_view(table@) == absorb(start, strings_of_children(t@, i as nat)),
                decreases n - i,
            {
                assert(t@->List_0[i as int] == items@[i as int]@);
                proof {
                    lemma_absorb_concat(
                        start,
                        strings_of_children(t@, i as nat),
                        strings_of(items@[i as int]@),
                    );
                }
                collect_strings(&items[i], table);
                i = i + 1;
            }
        },
        ParamValue::Struct(entries) => {
            let n: usize = entries.len();
            let mut i: usize = 0;
            while i < n
                invariant
                    i <= n,
                    n == entries@.len(),
                    *t == ParamValue::Struct(*entries),
                    strings_view(table@) == absorb(start, strings_of_children(t@, i as nat)),
                decreases n - i,
            {
                assert(t@->Struct_0[i as int].1 == entries@[i as int].1@);
                proof {
                    lemma_absorb_concat(
                        start,
                        strings_of_children(t@, i as nat),
                        strings_of(entries@[i as int].1@),
                    );
                }
                collect_strings(&entries[i].1, table);
                i = i + 1;
            }
        },
        _ => {},
    }
}

/// Takes the key lists of the structs of a tree into a reference table, in
/// the order in which a walk meets them, each only if the table does not
/// hold it yet.
pub fn collect_layouts(t: &ParamValue, table: &mut Vec<Vec<Hash40>>)
    ensures
        layouts_view(final(table)@) == absorb(layouts_view(old(table)@), layouts_of(t@)),
    decreases t,
{
    let ghost start = layouts_view(table@);
    match t {
        ParamValue::List(items) => {
            let n: usize = items.len();
            let mut i: usize = 0;
            while i < n
                invariant
                    i <= n,
                    n == items@.len(),
                    *t == ParamValue::List(*items),
                    layouts_view(table@) == absorb(start, layouts_of_children(t@, i as nat)),
                decreases n - i,
            {
                assert(t@->List_0[i as int] == items@[i as int]@);
                proof {
                    lemma_absorb_concat(
                        start,
                        layouts_of_children(t@, i as nat),
                        layouts_of(items@[i as int]@),
                    );
                }
                collect_layouts(&items[i], table);
                i = i + 1;
            }
        },
        ParamValue::Struct(entries) => {
            let keys: Vec<Hash40> = keys_of(entries);
            assert(keys@ =~= t@.keys());
            let place: usize = find_layout(table, &keys);
            proof {
                lemma_absorb_one(start, keys@);
            }
            if place == table.len() {
                table.push(keys);
                assert(layouts_view(table@) =~= start.push(t@.keys()));
            }
            let ghost own = layouts_view(table@);
            let n: usize = entries.len();
            let mut i: usize = 0;
            while i < n
                invariant
                    i <= n,
                    n == entries@.len(),
                    *t == ParamValue::Struct(*entries),
                    layouts_view(table@) == absorb(own, layouts_of_children(t@, i as nat)),
                decreases n - i,
            {
                assert(t@->Struct_0[i as int].1 == entries@[i as int].1@);
                proof {
                    lemma_absorb_concat(
                        own,
                        layouts_of_children(t@, i as nat),
                        layouts_of(entries@[i as int].1@),
                    );
                }
                collect_layouts(&entries[i].1, table);
                i = i + 1;
            }
            proof {
                lemma_absorb_concat(
                    start,
                    seq![t@.keys()],
                    layouts_of_children(t@, t@.arity()),
                );
            }
        },
        _ => {},
    }
}

/// Whether `offsets` holds, for each string of the table and for the end of
/// the table, the place in the string region where it starts.
pub open spec fn offsets_of(offsets: Seq<u32>, strings: Seq<Seq<char>>) -> bool {
    &&& offsets.len() == strings.len() + 1
    &&& forall|k: int|
        0 <= k <= strings.len() ==> #[trigger] offsets[k] == string_region(strings, k as nat).len()
}

/// Lays out the string region: the offset at which each string starts, and
/// last the size of the region. `None` if the region is larger than 32 bits
/// can say.
pub fn string_offsets(strings: &Vec<String>) -> (res: Option<Vec<u32>>)
    ensures
        match res {
            Some(offsets) => offsets_of(offsets@, strings_view(strings@)),
            None => string_region(strings_view(strings@), strings@.len()).len() > u32::MAX,
        },
{
    let n: usize = strings.len();
    let ghost table = strings_view(strings@);
    let mut offsets: Vec<u32> = Vec::new();
    let mut at: u32 = 0;
    let mut k: usize = 0;
    while k < n
        invariant
            k <= n,
            n == strings@.len(),
            table == strings_view(strings@),
            at == string_region(table, k as nat).len(),
            offsets@.len() == k,
            forall|j: int|
                0 <= j < k ==> #[trigger] offsets@[j] == string_region(table, j as nat).len(),
        decreases n - k,
    {
        offsets.push(at);
        let size: usize = strings[k].as_str().as_bytes().len();
        assert(table[k as int] == strings@[k as int]@);
        assert(string_region(table, (k + 1) as nat).len() == at + size + 1);
        if size as u64 >= 0xFFFF_FFFF - at as u64 {
            proof {
                lemma_region_prefix(table, (k + 1) as nat, n as nat);
            }
            return None;
        }
        at = at + size as u32 + 1;
        k = k + 1;
    }
    offsets.push(at);
    Some(offsets)
}

/// Appends the string region of a table: each string in UTF-8, closed by a
/// zero byte.
pub fn write_strings(strings: &Vec<String>, out: &mut Vec<u8>)
    ensures
        final(out)@ == old(out)@ + string_region(strings_view(strings@), strings@.len()),
{
    let n: usize = strings.len();
    let ghost table = strings_view(strings@);
    let ghost start = out@;
    let mut k: usize = 0;
    assert(out@ =~= start + string_region(table, 0));
    while k < n
        invariant
            k <= n,
            n == strings@.len(),
            table == strings_view(strings@),
            out@ == start + string_region(table, k as nat),
        decreases n - k,
    {
        assert(table[k as int] == strings@[k as int]@);
        let ghost before = out@;
        out.extend_from_slice(strings[k].as_str().as_bytes());
        out.push(0);
        assert(out@ =~= start + string_region(table, (k + 1) as nat)) by {
            assert(out@ =~= before + encode_utf8(table[k as int]).push(0u8));
        }
        k = k + 1;
    }
}

/// Appends a reference table: for each key list its length, then its keys.
pub fn write_layouts(table: &Vec<Vec<Hash40>>, out: &mut Vec<u8>)
    ensures
        final(out)@ == old(out)@ + encode_layouts(layouts_view(table@), table@.len()),
{
    let n: usize = table.len();
    let ghost view = layouts_view(table@);
    let ghost start = out@;
    let mut k: usize = 0;
    assert(out@ =~= start + encode_layouts(view, 0));
    while k < n
        invariant
            k <= n,
            n == table@.len(),
            view == layouts_view(table@),
            out@ == start + encode_layouts(view, k as nat),
        decreases n - k,
    {
        let keys: &Vec<Hash40> = &table[k];
        assert(view[k as int] == keys@);
        let ghost before = out@;
        let width: usize = keys.len();
        write_le(out, width as u64, 4);
        let ghost head = out@;
        let mut j: usize = 0;
        assert(out@ =~= head + encode_keys(keys@, 0));
        while j < width
            invariant
                j <= width,
                width == keys@.len(),
                out@ == head + encode_keys(keys@, j as nat),
            decreases width - j,
        {
            let ghost so_far = out@;
            write_le(out, keys[j].0, HASH_WIDTH);
            assert(out@ =~= head + encode_keys(keys@, (j + 1) as nat));
            j = j + 1;
        }
        assert(out@ =~= start + encode_layouts(view, (k + 1) as nat));
        k = k + 1;
    }
}

/// The unsigned number whose `width` bytes are the two's complement form of `v`.
fn unsigned_of(v: i64, width: usize) -> (raw: u64)
    requires
        1 <= width <= 4,
        -pow256(width as nat) <= 2 * v < pow256(width as nat),
    ensures
        raw == to_unsigned(v as int, width as nat),
{
    proof {
        lemma_pow256_values();
    }
    let modulus: i64 = if width == 1 {
        0x100
    } else if width == 2 {
        0x1_0000
    } else if width == 3 {
        0x100_0000
    } else {
        0x1_0000_0000
    };
    if v < 0 {
        (v + modulus) as u64
    } else {
        v as u64
    }
}

/// Appends the bytes of a node, written against a reference table and a
/// string table that hold what the tree needs.
pub fn write_node(
    t: &ParamValue,
    layouts: &Vec<Vec<Hash40>>,
    strings: &Vec<String>,
    offsets: &Vec<u32>,
    out: &mut Vec<u8>,
)
    requires
        tables_serve(t@, layouts_view(layouts@), strings_view(strings@)),
        offsets_of(offsets@, strings_view(strings@)),
    ensures
        final(out)@ == old(out)@ + encode_node(
            t@,
            layouts_view(layouts@),
            strings_view(strings@),
        ),
    decreases t,
{
    let ghost start = out@;
    let ghost table = layouts_view(layouts@);
    let ghost texts = strings_view(strings@);
    proof {
        lemma_pow256_values();
    }
    match t {
        ParamValue::Bool(b) => {
            out.push(TAG_BOOL);
            out.push(if *b { 1 } else { 0 });
            assert(out@ =~= start + encode_node(t@, table, texts));
        },
        ParamValue::I8(v) => {
            out.push(TAG_I8);
            write_le(out, unsigned_of(*v as i64, 1), 1);
            assert(out@ =~= start + encode_node(t@, table, texts));
        },
        ParamValue::U8(v) => {
            out.push(TAG_U8);
            out.push(*v);
            assert(out@ =~= start + encode_node(t@, table, texts));
        },
        ParamValue::I16(v) => {
            out.push(TAG_I16);
            write_le(out, unsigned_of(*v as i64, 2), 2);
            assert(out@ =~= start + encode_node(t@, table, texts));
        },
        ParamValue::U16(v) => {
            out.push(TAG_U16);
            write_le(out, *v as u64, 2);
            assert(out@ =~= start + encode_node(t@, table, texts));
        },
        ParamValue::I32(v) => {
            out.push(TAG_I32);
            write_le(out, unsigned_of(*v as i64, 4), 4);
            assert(out@ =~= start + encode_node(t@, table, texts));
        },
        ParamValue::U32(v) => {
            out.push(TAG_U32);
            write_le(out, *v as u64, 4);
            assert(out@ =~= start + encode_node(t@, table, texts));
        },
        ParamValue::Float(bits) => {
            out.push(TAG_FLOAT);
            write_le(out, *bits as u64, 4);
            assert(out@ =~= start + encode_node(t@, table, texts));
        },
        ParamValue::Hash(h) => {
            out.push(TAG_HASH);
            write_le(out, h.0, HASH_WIDTH);
            assert(out@ =~= start + encode_node(t@, table, texts));
        },
        ParamValue::Str(text) => {
            proof {
                assert(strings_of(t@)[0] == text@);
                lemma_first_index_found(texts, text@);
            }
            let place: usize = find_string(strings, text);
            out.push(TAG_STR);
            write_le(out, offsets[place] as u64, 4);
            assert(out@ =~= start + encode_node(t@, table, texts));
        },
        ParamValue::List(items) => {
            let n: usize = items.len();
            out.push(TAG_LIST);
            write_le(out, n as u64, 4);
            let ghost head = out@;
            assert(out@ =~= head + encode_children(t@, 0, table, texts));
            let mut i: usize = 0;
            while i < n
                invariant
                    i <= n,
                    n == items@.len(),
                    *t == ParamValue::List(*items),
                    table == layouts_view(layouts@),
                    texts == strings_view(strings@),
                    tables_serve(t@, table, texts),
                    offsets_of(offsets@, texts),
                    out@ == head + encode_children(t@, i as nat, table, texts),
                decreases n - i,
            {
                assert(t@->List_0[i as int] == items@[i as int]@);
                proof {
                    lemma_child_served(t@, i as int, table, texts);
                }
                write_node(&items[i], layouts, strings, offsets, out);
                assert(out@ =~= head + encode_children(t@, (i + 1) as nat, table, texts));
                i = i + 1;
            }
            assert(out@ =~= start + encode_node(t@, table, texts));
        },
        ParamValue::Struct(entries) => {
            let keys: Vec<Hash40> = keys_of(entries);
            assert(keys@ =~= t@.keys());
            let place: usize = find_layout(layouts, &keys);
            let n: usize = entries.len();
            out.push(TAG_STRUCT);
            write_le(out, place as u64, 4);
            let ghost head = out@;
            assert(out@ =~= head + encode_children(t@, 0, table, texts));
            let mut i: usize = 0;
            while i < n
                invariant
                    i <= n,
                    n == entries@.len(),
                    *t == ParamValue::Struct(*entries),
                    table == layouts_view(layouts@),
                    texts == strings_view(strings@),
                    tables_serve(t@, table, texts),
                    offsets_of(offsets@, texts),
                    out@ == head + encode_children(t@, i as nat, table, texts),
                decreases n - i,
            {
                assert(t@->Struct_0[i as int].1 == entries@[i as int].1@);
                proof {
                    lemma_child_served(t@, i as int, table, texts);
                }
                write_node(&entries[i].1, layouts, strings, offsets, out);
                assert(out@ =~= head + encode_children(t@, (i + 1) as nat, table, texts));
                i = i + 1;
            }
            assert(out@ =~= start + encode_node(t@, table, texts));
        },
    }
}

/// Appends the eight bytes that every encoded tree begins with.
fn write_magic(out: &mut Vec<u8>)
    ensures
        final(out)@ == old(out)@ + magic(),
{
    out.push(0x70);
    out.push(0x61);
    out.push(0x72);
    out.push(0x61);
    out.push(0x63);
    out.push(0x6f);
    out.push(0x62);
    out.push(0x6e);
    assert(out@ =~= old(out)@ + magic());
}

/// Encodes a tree, if it can be encoded.
///
/// The reference table holds each distinct key list once, and the string
/// region each distinct string once, both in the order in which a walk of
/// the tree first meets them. The result is `None` exactly when the tree
/// cannot be encoded: its root is no struct, a hash has a bit above the low
/// 40 set, a string holds a zero byte, or a count does not fit in 32 bits.
pub fn try_encode(root: &ParamValue) -> (res: Option<Vec<u8>>)
    ensures
        res is Some <==> encodable(root@),
        res is Some ==> res->Some_0@ == encode_tree(root@) && decode_bytes(res->Some_0@) == Ok::<
            ParamView,
            DecodeError,
        >(root@),
{
    proof {
        if encodable(root@) {
            lemma_round_trip(root@);
        }
    }
    match root {
        ParamValue::Struct(_) => {},
        _ => {
            return None;
        },
    }
    if !root.is_wf() {
        return None;
    }
    let left: u64 = match root.count_within(0xFFFF_FFFF) {
        None => {
            return None;
        },
        Some(left) => left,
    };
    let nodes: u64 = 0xFFFF_FFFF - left;
    let mut layouts: Vec<Vec<Hash40>> = Vec::new();
    assert(layouts_view(layouts@) =~= Seq::<Seq<Hash40>>::empty());
    collect_layouts(root, &mut layouts);
    let mut strings: Vec<String> = Vec::new();
    assert(strings_view(strings@) =~= Seq::<Seq<char>>::empty());
    collect_strings(root, &mut strings);
    if layouts.len() as u64 > 0xFFFF_FFFF {
        return None;
    }
    let offsets: Vec<u32> = match string_offsets(&strings) {
        None => {
            return None;
        },
        Some(offsets) => offsets,
    };
    proof {
        lemma_absorb_holds_items(Seq::<Seq<Hash40>>::empty(), layouts_of(root@));
        lemma_absorb_holds_items(Seq::<Seq<char>>::empty(), strings_of(root@));
    }
    let mut out: Vec<u8> = Vec::new();
    write_magic(&mut out);
    write_le(&mut out, nodes, 4);
    write_le(&mut out, layouts.len() as u64, 4);
    write_le(&mut out, offsets[strings.len()] as u64, 4);
    write_layouts(&layouts, &mut out);
    write_strings(&strings, &mut out);
    write_node(root, &layouts, &strings, &offsets, &mut out);
    assert(out@ =~= encode_tree(root@));
    Some(out)
}

/// Encodes a tree that can be encoded. Reading the result back gives the
/// tree again.
pub fn encode(root: &ParamValue) -> (out: Vec<u8>)
    requires
        encodable(root@),
    ensures
        out@ == encode_tree(root@),
        decode_bytes(out@) == Ok::<ParamView, DecodeError>(root@),
{
    proof {
        lemma_round_trip(root@);
    }
    match try_encode(root) {
        Some(out) => out,
        None => Vec::new(),
    }
}

} // verus!
