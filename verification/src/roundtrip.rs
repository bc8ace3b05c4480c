//! What holds of writing a tree and reading it back.
use vstd::prelude::*;
use vstd::utf8::*;
use crate::format::{
    decode_bytes, decode_children, decode_layouts, decode_node, encodable, encode_children,
    encode_keys, encode_layouts, encode_node, encode_tree, first_index, header_counts, is_tag,
    keys_at, layout_table, layouts_of, layouts_of_children, magic, nul_pos, string_at,
    string_offset, string_region, string_table, strings_of, strings_of_children, zip_entries,
    DecodeError, HASH_WIDTH, HEADER_LEN, TAG_FLOAT, TAG_HASH, TAG_I16, TAG_I32, TAG_I8, TAG_LIST,
    TAG_STR, TAG_STRUCT, TAG_U16, TAG_U32,
};
use crate::hash40::Hash40;
use crate::param::ParamView;
use crate::tables::{
    lemma_absorb_holds_items, lemma_absorb_holds_only, lemma_absorb_no_repeats,
    lemma_first_index_found,
};
use crate::wire::{
    le_bytes, le_value, lemma_le_bytes_len, lemma_le_round_trip, lemma_le_value_same,
    lemma_pow256_values, lemma_signed_round_trip, pow256, to_unsigned,
};

verus! {

/// The string region grows at its end: the region of fewer strings is the
/// beginning of the region of more.
pub proof fn lemma_region_prefix(table: Seq<Seq<char>>, a: nat, b: nat)
    requires
        a <= b <= table.len(),
    ensures
        string_region(table, a).len() <= string_region(table, b).len(),
        string_region(table, b).subrange(0, string_region(table, a).len() as int)
            == string_region(table, a),
    decreases b - a,
{
    if a == b {
        assert(string_region(table, b).subrange(0, string_region(table, a).len() as int)
            =~= string_region(table, a));
    } else {
        lemma_region_prefix(table, a, (b - 1) as nat);
        let shorter = string_region(table, (b - 1) as nat);
        let longer = string_region(table, b);
        let first = string_region(table, a);
        assert(longer.subrange(0, first.len() as int) =~= shorter.subrange(0, first.len() as int));
    }
}

/// A scan over bytes that are not zero stops at the first zero byte.
pub proof fn lemma_nul_scan(region: Seq<u8>, from: int, stop: int)
    requires
        0 <= from <= stop < region.len(),
        forall|j: int| from <= j < stop ==> region[j] != 0,
        region[stop] == 0,
    ensures
        nul_pos(region, from) == stop,
    decreases stop - from,
{
    if from < stop {
        lemma_nul_scan(region, from + 1, stop);
    }
}

/// A string without a zero byte is read back from the place in the string
/// region where the table put it.
pub proof fn lemma_string_at_offset(table: Seq<Seq<char>>, k: int)
    requires
        0 <= k < table.len(),
        !encode_utf8(table[k]).contains(0u8),
    ensures
        string_at(
            string_region(table, table.len()),
            string_region(table, k as nat).len() as int,
        ) == Some(table[k]),
{
    let region = string_region(table, table.len());
    let before = string_region(table, k as nat);
    let upto = string_region(table, (k + 1) as nat);
    let raw = encode_utf8(table[k]);
    let off = before.len() as int;
    lemma_region_prefix(table, (k + 1) as nat, table.len());
    assert(upto == before + raw.push(0u8));
    assert(upto.len() == off + raw.len() + 1);
    assert forall|j: int| off <= j < off + raw.len() implies region[j] != 0 by {
        assert(region[j] == region.subrange(0, upto.len() as int)[j]);
        assert(upto[j] == raw[j - off]);
        assert(raw.contains(raw[j - off]));
    }
    assert(region[off + raw.len()] == 0) by {
        assert(region[off + raw.len()] == region.subrange(0, upto.len() as int)[off + raw.len()]);
    }
    lemma_nul_scan(region, off, off + raw.len());
    assert(region.subrange(off, off + raw.len()) =~= raw) by {
        assert forall|j: int| 0 <= j < raw.len() implies region.subrange(off, off + raw.len())[j]
            == raw[j] by {
            assert(region[off + j] == region.subrange(0, upto.len() as int)[off + j]);
        }
    }
    encode_utf8_valid_utf8(table[k]);
    encode_utf8_decode_utf8(table[k]);
}

/// A part of a part of a buffer is a part of the buffer.
pub proof fn lemma_part_of_part(bytes: Seq<u8>, pos: int, whole: Seq<u8>, a: int, b: int)
    requires
        0 <= pos,
        pos + whole.len() <= bytes.len(),
        bytes.subrange(pos, pos + whole.len()) == whole,
        0 <= a <= b <= whole.len(),
    ensures
        bytes.subrange(pos + a, pos + b) == whole.subrange(a, b),
{
    assert forall|j: int| 0 <= j < b - a implies bytes.subrange(pos + a, pos + b)[j]
        == whole.subrange(a, b)[j] by {
        assert(bytes.subrange(pos, pos + whole.len())[a + j] == bytes[pos + a + j]);
    }
    assert(bytes.subrange(pos + a, pos + b) =~= whole.subrange(a, b));
}

/// A field that holds the bytes of a number in its range reads as that number.
pub proof fn lemma_field_read(bytes: Seq<u8>, pos: int, v: int, width: nat)
    requires
        0 <= pos,
        pos + width <= bytes.len(),
        bytes.subrange(pos, pos + width) == le_bytes(v, width),
        0 <= v < pow256(width),
    ensures
        le_value(bytes, pos, width) == v,
{
    let field = le_bytes(v, width);
    lemma_le_bytes_len(v, width);
    assert forall|k: int| pos <= k < pos + width implies #[trigger] bytes[k] == field[k - pos
        + 0] by {
        assert(bytes.subrange(pos, pos + width)[k - pos] == bytes[k]);
    }
    lemma_le_value_same(bytes, pos, field, 0, width);
    lemma_le_round_trip(v, width);
}

/// Each key takes five bytes, and the bytes of fewer keys are the beginning
/// of the bytes of more.
pub proof fn lemma_keys_prefix(keys: Seq<Hash40>, a: nat, b: nat)
    requires
        a <= b <= keys.len(),
    ensures
        encode_keys(keys, a).len() == HASH_WIDTH * a,
        encode_keys(keys, b).len() == HASH_WIDTH * b,
        encode_keys(keys, b).subrange(0, HASH_WIDTH * a) == encode_keys(keys, a),
    decreases b,
{
    if b == 0 {
        assert(encode_keys(keys, b).subrange(0, 0) =~= encode_keys(keys, a));
    } else if a == b {
        lemma_keys_prefix(keys, (a - 1) as nat, (b - 1) as nat);
        lemma_le_bytes_len(keys[b - 1].0 as int, HASH_WIDTH as nat);
        assert(encode_keys(keys, b).subrange(0, HASH_WIDTH * a) =~= encode_keys(keys, a));
    } else {
        lemma_keys_prefix(keys, a, (b - 1) as nat);
        lemma_le_bytes_len(keys[b - 1].0 as int, HASH_WIDTH as nat);
        assert(encode_keys(keys, b).subrange(0, HASH_WIDTH * a) =~= encode_keys(
            keys,
            (b - 1) as nat,
        ).subrange(0, HASH_WIDTH * a));
    }
}

/// Keys of 40 bits are read back as they were written.
pub proof fn lemma_keys_round_trip(bytes: Seq<u8>, pos: int, keys: Seq<Hash40>)
    requires
        0 <= pos,
        pos + HASH_WIDTH * keys.len() <= bytes.len(),
        bytes.subrange(pos, pos + HASH_WIDTH * keys.len()) == encode_keys(keys, keys.len()),
        forall|i: int| 0 <= i < keys.len() ==> (#[trigger] keys[i]).wf(),
    ensures
        keys_at(bytes, pos, keys.len()) == keys,
{
    let all = encode_keys(keys, keys.len());
    lemma_keys_prefix(keys, keys.len(), keys.len());
    assert forall|i: int| 0 <= i < keys.len() implies #[trigger] keys_at(
        bytes,
        pos,
        keys.len(),
    )[i] == keys[i] by {
        lemma_keys_prefix(keys, (i + 1) as nat, keys.len());
        lemma_keys_prefix(keys, i as nat, (i + 1) as nat);
        let upto = encode_keys(keys, (i + 1) as nat);
        let field = le_bytes(keys[i].0 as int, HASH_WIDTH as nat);
        lemma_le_bytes_len(keys[i].0 as int, HASH_WIDTH as nat);
        assert(upto == encode_keys(keys, i as nat) + field);
        assert(all.subrange(HASH_WIDTH * i, HASH_WIDTH * i + HASH_WIDTH) =~= field) by {
            assert forall|j: int| 0 <= j < HASH_WIDTH implies all[HASH_WIDTH * i + j]
                == field[j] by {
                assert(all.subrange(0, HASH_WIDTH * (i + 1))[HASH_WIDTH * i + j] == all[HASH_WIDTH
                    * i + j]);
            }
        }
        lemma_part_of_part(bytes, pos, all, HASH_WIDTH * i, HASH_WIDTH * i + HASH_WIDTH);
        lemma_pow256_values();
        assert(keys[i].wf());
        lemma_field_read(bytes, pos + HASH_WIDTH * i, keys[i].0 as int, HASH_WIDTH as nat);
    }
    assert(keys_at(bytes, pos, keys.len()) =~= keys);
}

/// The bytes of one key list of a reference table: its length, then its keys.
pub open spec fn encode_layout(keys: Seq<Hash40>) -> Seq<u8> {
    le_bytes(keys.len() as int, 4) + encode_keys(keys, keys.len())
}

/// The bytes of fewer key lists are the beginning of the bytes of more, and
/// each further list adds its own bytes.
pub proof fn lemma_layouts_prefix(table: Seq<Seq<Hash40>>, a: nat, b: nat)
    requires
        a <= b <= table.len(),
    ensures
        encode_layouts(table, a).len() <= encode_layouts(table, b).len(),
        encode_layouts(table, b).subrange(0, encode_layouts(table, a).len() as int)
            == encode_layouts(table, a),
        a < b ==> encode_layouts(table, (a + 1) as nat) == encode_layouts(table, a)
            + encode_layout(table[a as int]),
    decreases b - a,
{
    if a == b {
        assert(encode_layouts(table, b).subrange(0, encode_layouts(table, a).len() as int)
            =~= encode_layouts(table, a));
    } else {
        lemma_layouts_prefix(table, a, (b - 1) as nat);
        let shorter = encode_layouts(table, (b - 1) as nat);
        let longer = encode_layouts(table, b);
        let first = encode_layouts(table, a);
        assert(longer =~= shorter + encode_layout(table[b - 1]));
        assert(longer.subrange(0, first.len() as int) =~= shorter.subrange(0, first.len() as int));
        assert(encode_layouts(table, (a + 1) as nat) =~= encode_layouts(table, a) + encode_layout(
            table[a as int],
        ));
    }
}

/// A reference table is read back as it was written: from the place where
/// its first `k` key lists end, reading gives the lists that are left.
pub proof fn lemma_layouts_round_trip(bytes: Seq<u8>, pos: int, table: Seq<Seq<Hash40>>, k: nat)
    requires
        0 <= pos,
        k <= table.len(),
        pos + encode_layouts(table, table.len()).len() <= bytes.len(),
        bytes.subrange(pos, pos + encode_layouts(table, table.len()).len()) == encode_layouts(
            table,
            table.len(),
        ),
        forall|i: int| 0 <= i < table.len() ==> (#[trigger] table[i]).len() <= u32::MAX,
        forall|i: int, j: int|
            0 <= i < table.len() && 0 <= j < table[i].len() ==> (#[trigger] table[i][j]).wf(),
    ensures
        decode_layouts(
            bytes,
            pos + encode_layouts(table, k).len(),
            (table.len() - k) as nat,
        ) == Ok::<(Seq<Seq<Hash40>>, int), DecodeError>(
            (
                table.subrange(k as int, table.len() as int),
                pos + encode_layouts(table, table.len()).len(),
            ),
        ),
    decreases table.len() - k,
{
    let all = encode_layouts(table, table.len());
    let n = table.len();
    if k == n {
        assert(table.subrange(k as int, n as int) =~= Seq::<Seq<Hash40>>::empty());
    } else {
        let keys = table[k as int];
        let at = pos + encode_layouts(table, k).len();
        let upto = encode_layouts(table, (k + 1) as nat);
        lemma_layouts_prefix(table, k, n);
        lemma_layouts_prefix(table, (k + 1) as nat, n);
        lemma_le_bytes_len(keys.len() as int, 4);
        lemma_keys_prefix(keys, keys.len(), keys.len());
        lemma_pow256_values();
        let start = encode_layouts(table, k).len() as int;
        assert(upto.len() == start + 4 + HASH_WIDTH * keys.len());
        assert(all.subrange(start, start + 4) =~= le_bytes(keys.len() as int, 4)) by {
            assert forall|j: int| 0 <= j < 4 implies all[start + j] == le_bytes(
                keys.len() as int,
                4,
            )[j] by {
                assert(all.subrange(0, upto.len() as int)[start + j] == all[start + j]);
            }
        }
        assert(all.subrange(start + 4, start + 4 + HASH_WIDTH * keys.len()) =~= encode_keys(
            keys,
            keys.len(),
        )) by {
            assert forall|j: int| 0 <= j < HASH_WIDTH * keys.len() implies all[start + 4 + j]
                == encode_keys(keys, keys.len())[j] by {
                assert(all.subrange(0, upto.len() as int)[start + 4 + j] == all[start + 4 + j]);
            }
        }
        lemma_part_of_part(bytes, pos, all, start, start + 4);
        lemma_part_of_part(bytes, pos, all, start + 4, start + 4 + HASH_WIDTH * keys.len());
        lemma_field_read(bytes, at, keys.len() as int, 4);
        assert forall|j: int| 0 <= j < keys.len() implies (#[trigger] keys[j]).wf() by {
            assert(table[k as int][j].wf());
        }
        lemma_keys_round_trip(bytes, at + 4, keys);
        lemma_layouts_round_trip(bytes, pos, table, k + 1);
        assert(seq![keys] + table.subrange(k as int + 1, n as int) =~= table.subrange(
            k as int,
            n as int,
        ));
    }
}

/// Whether the tables hold every string and every key list of the tree.
pub open spec fn tables_serve(
    t: ParamView,
    layouts: Seq<Seq<Hash40>>,
    strings: Seq<Seq<char>>,
) -> bool {
    &&& forall|i: int|
        0 <= i < strings_of(t).len() ==> strings.contains(#[trigger] strings_of(t)[i])
    &&& forall|i: int|
        0 <= i < layouts_of(t).len() ==> layouts.contains(#[trigger] layouts_of(t)[i])
}

/// The children of a list or a struct, in order.
pub open spec fn children_of(t: ParamView) -> Seq<ParamView> {
    Seq::new(t.arity(), |i: int| t.child(i))
}

/// The strings of a child are among the strings under the children.
pub proof fn lemma_strings_of_child(t: ParamView, i: int, n: nat)
    requires
        0 <= i < n <= t.arity(),
    ensures
        forall|j: int|
            0 <= j < strings_of(t.child(i)).len() ==> strings_of_children(t, n).contains(
                #[trigger] strings_of(t.child(i))[j],
            ),
    decreases n,
{
    let whole = strings_of_children(t, n);
    let front = strings_of_children(t, (n - 1) as nat);
    let last = strings_of(t.child(n - 1));
    assert(whole == front + last);
    if i == n - 1 {
        assert forall|j: int| 0 <= j < last.len() implies whole.contains(#[trigger] last[j]) by {
            assert(whole[front.len() + j] == last[j]);
        }
    } else {
        lemma_strings_of_child(t, i, (n - 1) as nat);
        let mine = strings_of(t.child(i));
        assert forall|j: int| 0 <= j < mine.len() implies whole.contains(#[trigger] mine[j]) by {
            assert(front.contains(mine[j]));
            let k = choose|k: int| 0 <= k < front.len() && front[k] == mine[j];
            assert(whole[k] == mine[j]);
        }
    }
}

/// The key lists of a child are among the key lists under the children.
pub proof fn lemma_layouts_of_child(t: ParamView, i: int, n: nat)
    requires
        0 <= i < n <= t.arity(),
    ensures
        forall|j: int|
            0 <= j < layouts_of(t.child(i)).len() ==> layouts_of_children(t, n).contains(
                #[trigger] layouts_of(t.child(i))[j],
            ),
    decreases n,
{
    let whole = layouts_of_children(t, n);
    let front = layouts_of_children(t, (n - 1) as nat);
    let last = layouts_of(t.child(n - 1));
    assert(whole == front + last);
    if i == n - 1 {
        assert forall|j: int| 0 <= j < last.len() implies whole.contains(#[trigger] last[j]) by {
            assert(whole[front.len() + j] == last[j]);
        }
    } else {
        lemma_layouts_of_child(t, i, (n - 1) as nat);
        let mine = layouts_of(t.child(i));
        assert forall|j: int| 0 <= j < mine.len() implies whole.contains(#[trigger] mine[j]) by {
            assert(front.contains(mine[j]));
            let k = choose|k: int| 0 <= k < front.len() && front[k] == mine[j];
            assert(whole[k] == mine[j]);
        }
    }
}

/// Tables that serve a tree serve each of its children, and a well-formed
/// tree has well-formed children.
pub proof fn lemma_child_served(
    t: ParamView,
    i: int,
    layouts: Seq<Seq<Hash40>>,
    strings: Seq<Seq<char>>,
)
    requires
        0 <= i < t.arity(),
        tables_serve(t, layouts, strings),
    ensures
        tables_serve(t.child(i), layouts, strings),
        t.wf() ==> t.child(i).wf(),
{
    let c = t.child(i);
    lemma_strings_of_child(t, i, t.arity());
    lemma_layouts_of_child(t, i, t.arity());
    assert forall|j: int| 0 <= j < strings_of(c).len() implies strings.contains(
        #[trigger] strings_of(c)[j],
    ) by {
        let under = strings_of_children(t, t.arity());
        assert(under.contains(strings_of(c)[j]));
        let k = choose|k: int| 0 <= k < under.len() && under[k] == strings_of(c)[j];
        assert(strings_of(t)[k] == under[k]);
    }
    assert forall|j: int| 0 <= j < layouts_of(c).len() implies layouts.contains(
        #[trigger] layouts_of(c)[j],
    ) by {
        let under = layouts_of_children(t, t.arity());
        assert(under.contains(layouts_of(c)[j]));
        let k = choose|k: int| 0 <= k < under.len() && under[k] == layouts_of(c)[j];
        if t is Struct {
            assert(layouts_of(t)[k + 1] == under[k]);
        } else {
            assert(layouts_of(t)[k] == under[k]);
        }
    }
    if t.wf() {
        match t {
            ParamView::List(items) => {
                assert(items[i].wf());
            },
            ParamView::Struct(entries) => {
                assert(entries[i].0.wf() && entries[i].1.wf());
            },
            _ => {},
        }
    }
}

/// The bytes of fewer children are the beginning of the bytes of more, and
/// each further child adds its own bytes.
pub proof fn lemma_children_prefix(
    t: ParamView,
    a: nat,
    b: nat,
    layouts: Seq<Seq<Hash40>>,
    strings: Seq<Seq<char>>,
)
    requires
        a <= b <= t.arity(),
    ensures
        encode_children(t, a, layouts, strings).len() <= encode_children(
            t,
            b,
            layouts,
            strings,
        ).len(),
        encode_children(t, b, layouts, strings).subrange(
            0,
            encode_children(t, a, layouts, strings).len() as int,
        ) == encode_children(t, a, layouts, strings),
        a < b ==> encode_children(t, (a + 1) as nat, layouts, strings) == encode_children(
            t,
            a,
            layouts,
            strings,
        ) + encode_node(t.child(a as int), layouts, strings),
    decreases b - a,
{
    let first = encode_children(t, a, layouts, strings);
    let longer = encode_children(t, b, layouts, strings);
    if a == b {
        assert(longer.subrange(0, first.len() as int) =~= first);
    } else {
        lemma_children_prefix(t, a, (b - 1) as nat, layouts, strings);
        let shorter = encode_children(t, (b - 1) as nat, layouts, strings);
        assert(longer =~= shorter + encode_node(t.child(b - 1), layouts, strings));
        assert(longer.subrange(0, first.len() as int) =~= shorter.subrange(0, first.len() as int));
        assert(encode_children(t, (a + 1) as nat, layouts, strings) =~= first + encode_node(
            t.child(a as int),
            layouts,
            strings,
        ));
    }
}

/// A tag and the field after it are read back as they were written.
pub proof fn lemma_tagged_field(
    bytes: Seq<u8>,
    pos: int,
    enc: Seq<u8>,
    tag: u8,
    v: int,
    width: nat,
)
    requires
        0 <= pos,
        pos + enc.len() <= bytes.len(),
        bytes.subrange(pos, pos + enc.len()) == enc,
        enc.len() >= 1 + width,
        enc.subrange(0, 1 + width as int) == seq![tag] + le_bytes(v, width),
        0 <= v < pow256(width),
    ensures
        bytes[pos] == tag,
        le_value(bytes, pos + 1, width) == v,
{
    let head = seq![tag] + le_bytes(v, width);
    lemma_le_bytes_len(v, width);
    assert(bytes[pos] == bytes.subrange(pos, pos + enc.len())[0]);
    assert(enc[0] == enc.subrange(0, 1 + width as int)[0]);
    assert(head[0] == tag);
    assert(enc.subrange(1, 1 + width as int) =~= le_bytes(v, width)) by {
        assert forall|j: int| 0 <= j < width implies enc.subrange(1, 1 + width as int)[j] == le_bytes(
            v,
            width,
        )[j] by {
            assert(enc.subrange(0, 1 + width as int)[1 + j] == head[1 + j]);
        }
    }
    lemma_part_of_part(bytes, pos, enc, 1, 1 + width as int);
    lemma_field_read(bytes, pos + 1, v, width);
}

/// Whether the places in the two tables can be written in 32 bits.
pub open spec fn tables_fit(layouts: Seq<Seq<Hash40>>, strings: Seq<Seq<char>>) -> bool {
    &&& layouts.len() <= u32::MAX
    &&& string_region(strings, strings.len()).len() <= u32::MAX
}

/// A node is read back as it was written: where a buffer holds the bytes of
/// a well-formed tree, written against tables that serve it, reading at that
/// place against the same tables gives the tree, and ends where its bytes end.
pub proof fn lemma_node_round_trip(
    t: ParamView,
    layouts: Seq<Seq<Hash40>>,
    strings: Seq<Seq<char>>,
    bytes: Seq<u8>,
    pos: int,
)
    requires
        t.wf(),
        tables_serve(t, layouts, strings),
        tables_fit(layouts, strings),
        0 <= pos,
        pos + encode_node(t, layouts, strings).len() <= bytes.len(),
        bytes.subrange(pos, pos + encode_node(t, layouts, strings).len()) == encode_node(
            t,
            layouts,
            strings,
        ),
    ensures
        encode_node(t, layouts, strings).len() >= 1,
        decode_node(bytes, pos, layouts, string_region(strings, strings.len())) == Ok::<
            (ParamView, int),
            DecodeError,
        >((t, pos + encode_node(t, layouts, strings).len())),
    decreases t, t.arity() + 1,
{
    let enc = encode_node(t, layouts, strings);
    let region = string_region(strings, strings.len());
    lemma_pow256_values();
    match t {
        ParamView::Bool(b) => {
            assert(bytes.subrange(pos, pos + enc.len())[0] == bytes[pos]);
            assert(bytes.subrange(pos, pos + enc.len())[1] == bytes[pos + 1]);
        },
        ParamView::U8(v) => {
            assert(bytes.subrange(pos, pos + enc.len())[0] == bytes[pos]);
            assert(bytes.subrange(pos, pos + enc.len())[1] == bytes[pos + 1]);
        },
        ParamView::I8(v) => {
            lemma_signed_round_trip(v as int, 1);
            lemma_le_bytes_len(to_unsigned(v as int, 1), 1);
            assert(enc.subrange(0, 2) =~= enc);
            lemma_tagged_field(bytes, pos, enc, TAG_I8, to_unsigned(v as int, 1), 1);
        },
        ParamView::I16(v) => {
            lemma_signed_round_trip(v as int, 2);
            lemma_le_bytes_len(to_unsigned(v as int, 2), 2);
            assert(enc.subrange(0, 3) =~= enc);
            lemma_tagged_field(bytes, pos, enc, TAG_I16, to_unsigned(v as int, 2), 2);
        },
        ParamView::U16(v) => {
            lemma_le_bytes_len(v as int, 2);
            assert(enc.subrange(0, 3) =~= enc);
            lemma_tagged_field(bytes, pos, enc, TAG_U16, v as int, 2);
        },
        ParamView::I32(v) => {
            lemma_signed_round_trip(v as int, 4);
            lemma_le_bytes_len(to_unsigned(v as int, 4), 4);
            assert(enc.subrange(0, 5) =~= enc);
            lemma_tagged_field(bytes, pos, enc, TAG_I32, to_unsigned(v as int, 4), 4);
        },
        ParamView::U32(v) => {
            lemma_le_bytes_len(v as int, 4);
            assert(enc.subrange(0, 5) =~= enc);
            lemma_tagged_field(bytes, pos, enc, TAG_U32, v as int, 4);
        },
        ParamView::Float(bits) => {
            lemma_le_bytes_len(bits as int, 4);
            assert(enc.subrange(0, 5) =~= enc);
            lemma_tagged_field(bytes, pos, enc, TAG_FLOAT, bits as int, 4);
        },
        ParamView::Hash(h) => {
            lemma_le_bytes_len(h.0 as int, HASH_WIDTH as nat);
            assert(enc.subrange(0, 6) =~= enc);
            lemma_tagged_field(bytes, pos, enc, TAG_HASH, h.0 as int, HASH_WIDTH as nat);
        },
        ParamView::Str(text) => {
            assert(strings_of(t)[0] == text);
            assert(strings.contains(text));
            lemma_first_index_found(strings, text);
            let k = first_index(strings, text);
            let off = string_offset(strings, text) as int;
            lemma_region_prefix(strings, k as nat, strings.len());
            lemma_string_at_offset(strings, k);
            lemma_le_bytes_len(off, 4);
            assert(enc.subrange(0, 5) =~= enc);
            lemma_tagged_field(bytes, pos, enc, TAG_STR, off, 4);
        },
        ParamView::List(items) => {
            let under = encode_children(t, t.arity(), layouts, strings);
            lemma_le_bytes_len(items.len() as int, 4);
            assert(enc.subrange(0, 5) =~= seq![TAG_LIST] + le_bytes(items.len() as int, 4));
            lemma_tagged_field(bytes, pos, enc, TAG_LIST, items.len() as int, 4);
            assert(enc.subrange(5, enc.len() as int) =~= under);
            lemma_part_of_part(bytes, pos, enc, 5, enc.len() as int);
            lemma_children_round_trip(t, 0, layouts, strings, bytes, pos + 5);
            assert(children_of(t).subrange(0, t.arity() as int) =~= items);
        },
        ParamView::Struct(entries) => {
            let under = encode_children(t, t.arity(), layouts, strings);
            assert(layouts_of(t)[0] == t.keys());
            assert(layouts.contains(t.keys()));
            lemma_first_index_found(layouts, t.keys());
            let index = first_index(layouts, t.keys());
            lemma_le_bytes_len(index, 4);
            assert(enc.subrange(0, 5) =~= seq![TAG_STRUCT] + le_bytes(index, 4));
            lemma_tagged_field(bytes, pos, enc, TAG_STRUCT, index, 4);
            assert(enc.subrange(5, enc.len() as int) =~= under);
            lemma_part_of_part(bytes, pos, enc, 5, enc.len() as int);
            lemma_children_round_trip(t, 0, layouts, strings, bytes, pos + 5);
            assert(zip_entries(t.keys(), children_of(t).subrange(0, t.arity() as int))
                =~= entries);
        },
    }
}

/// The children of a node are read back as they were written: from the
/// place where the first `k` of them end, reading gives those that are left.
pub proof fn lemma_children_round_trip(
    t: ParamView,
    k: nat,
    layouts: Seq<Seq<Hash40>>,
    strings: Seq<Seq<char>>,
    bytes: Seq<u8>,
    pos: int,
)
    requires
        t.wf(),
        tables_serve(t, layouts, strings),
        tables_fit(layouts, strings),
        k <= t.arity(),
        0 <= pos,
        pos + encode_children(t, t.arity(), layouts, strings).len() <= bytes.len(),
        bytes.subrange(pos, pos + encode_children(t, t.arity(), layouts, strings).len())
            == encode_children(t, t.arity(), layouts, strings),
    ensures
        decode_children(
            bytes,
            pos + encode_children(t, k, layouts, strings).len(),
            (t.arity() - k) as nat,
            layouts,
            string_region(strings, strings.len()),
        ) == Ok::<(Seq<ParamView>, int), DecodeError>(
            (
                children_of(t).subrange(k as int, t.arity() as int),
                pos + encode_children(t, t.arity(), layouts, strings).len(),
            ),
        ),
    decreases t, t.arity() - k,
{
    let n = t.arity();
    let all = encode_children(t, n, layouts, strings);
    if k == n {
        assert(children_of(t).subrange(k as int, n as int) =~= Seq::<ParamView>::empty());
    } else {
        let c = t.child(k as int);
        let done = encode_children(t, k, layouts, strings);
        let upto = encode_children(t, (k + 1) as nat, layouts, strings);
        let mine = encode_node(c, layouts, strings);
        lemma_children_prefix(t, k, n, layouts, strings);
        lemma_children_prefix(t, (k + 1) as nat, n, layouts, strings);
        lemma_child_served(t, k as int, layouts, strings);
        assert(upto == done + mine);
        assert(all.subrange(done.len() as int, upto.len() as int) =~= mine) by {
            assert forall|j: int| 0 <= j < mine.len() implies all[done.len() + j] == mine[j] by {
                assert(all.subrange(0, upto.len() as int)[done.len() + j] == all[done.len() + j]);
            }
        }
        lemma_part_of_part(bytes, pos, all, done.len() as int, upto.len() as int);
        lemma_node_round_trip(c, layouts, strings, bytes, pos + done.len());
        lemma_children_round_trip(t, k + 1, layouts, strings, bytes, pos);
        assert(seq![c] + children_of(t).subrange(k as int + 1, n as int) =~= children_of(
            t,
        ).subrange(k as int, n as int));
    }
}

/// Whether a key list can be written down: 32 bits count its keys, and each
/// key has only its low 40 bits set.
pub open spec fn keys_fit(keys: Seq<Hash40>) -> bool {
    &&& keys.len() <= u32::MAX
    &&& forall|j: int| 0 <= j < keys.len() ==> (#[trigger] keys[j]).wf()
}

/// The key lists of a well-formed tree can be written down.
pub proof fn lemma_layouts_of_fit(t: ParamView)
    requires
        t.wf(),
    ensures
        forall|i: int| 0 <= i < layouts_of(t).len() ==> keys_fit(#[trigger] layouts_of(t)[i]),
    decreases t, t.arity() + 1,
{
    lemma_layouts_of_children_fit(t, t.arity());
    match t {
        ParamView::Struct(entries) => {
            assert forall|j: int| 0 <= j < t.keys().len() implies (#[trigger] t.keys()[j]).wf() by {
                assert(entries[j].0.wf());
            }
            assert(keys_fit(t.keys()));
            let under = layouts_of_children(t, t.arity());
            assert forall|i: int| 0 <= i < layouts_of(t).len() implies keys_fit(
                #[trigger] layouts_of(t)[i],
            ) by {
                if i > 0 {
                    assert(layouts_of(t)[i] == under[i - 1]);
                    assert(keys_fit(under[i - 1]));
                } else {
                    assert(layouts_of(t)[i] == t.keys());
                }
            }
        },
        _ => {
            assert(layouts_of(t) == layouts_of_children(t, t.arity()));
        },
    }
}

/// The key lists under the first `n` children of a well-formed tree can be
/// written down.
pub proof fn lemma_layouts_of_children_fit(t: ParamView, n: nat)
    requires
        t.wf(),
        n <= t.arity(),
    ensures
        forall|i: int|
            0 <= i < layouts_of_children(t, n).len() ==> keys_fit(
                #[trigger] layouts_of_children(t, n)[i],
            ),
    decreases t, n,
{
    if n > 0 {
        let c = t.child(n - 1);
        match t {
            ParamView::List(items) => {
                assert(items[n - 1].wf());
            },
            ParamView::Struct(entries) => {
                assert(entries[n - 1].0.wf() && entries[n - 1].1.wf());
            },
            _ => {},
        }
        lemma_layouts_of_children_fit(t, (n - 1) as nat);
        lemma_layouts_of_fit(c);
        let front = layouts_of_children(t, (n - 1) as nat);
        let whole = layouts_of_children(t, n);
        assert(whole == front + layouts_of(c));
        assert forall|i: int| 0 <= i < whole.len() implies keys_fit(#[trigger] whole[i]) by {
            if i < front.len() {
                assert(whole[i] == front[i]);
            } else {
                assert(whole[i] == layouts_of(c)[i - front.len()]);
            }
        }
    }
}

/// The tables of a tree are canonical: the reference table holds every key
/// list of the tree's structs, nothing else, and nothing twice, so that
/// structs with the same keys in the same order share one place in it; and
/// so does the string table for the tree's strings.
pub proof fn lemma_tables_canonical(t: ParamView)
    ensures
        tables_serve(t, layout_table(t), string_table(t)),
        layout_table(t).no_duplicates(),
        string_table(t).no_duplicates(),
        forall|i: int|
            0 <= i < layout_table(t).len() ==> layouts_of(t).contains(
                #[trigger] layout_table(t)[i],
            ),
        forall|i: int|
            0 <= i < string_table(t).len() ==> strings_of(t).contains(
                #[trigger] string_table(t)[i],
            ),
{
    lemma_absorb_holds_items(Seq::<Seq<Hash40>>::empty(), layouts_of(t));
    lemma_absorb_holds_items(Seq::<Seq<char>>::empty(), strings_of(t));
    lemma_absorb_holds_only(Seq::<Seq<Hash40>>::empty(), layouts_of(t));
    lemma_absorb_holds_only(Seq::<Seq<char>>::empty(), strings_of(t));
    lemma_absorb_no_repeats(Seq::<Seq<Hash40>>::empty(), layouts_of(t));
    lemma_absorb_no_repeats(Seq::<Seq<char>>::empty(), strings_of(t));
}

/// The place in an encoded tree at which its root node begins.
pub open spec fn root_offset(t: ParamView) -> int {
    HEADER_LEN + encode_layouts(layout_table(t), layout_table(t).len()).len() + string_region(
        string_table(t),
        string_table(t).len(),
    ).len()
}

/// An encoded tree ends with the bytes of its root node, which begin at the
/// root's place.
pub proof fn lemma_tree_len(t: ParamView)
    ensures
        encode_tree(t).len() == root_offset(t) + encode_node(
            t,
            layout_table(t),
            string_table(t),
        ).len(),
        encode_tree(t).subrange(root_offset(t), encode_tree(t).len() as int) == encode_node(
            t,
            layout_table(t),
            string_table(t),
        ),
{
    let layouts = layout_table(t);
    let strings = string_table(t);
    let region = string_region(strings, strings.len());
    let table_bytes = encode_layouts(layouts, layouts.len());
    let node_bytes = encode_node(t, layouts, strings);
    let whole = encode_tree(t);
    lemma_le_bytes_len(t.node_count() as int, 4);
    lemma_le_bytes_len(layouts.len() as int, 4);
    lemma_le_bytes_len(region.len() as int, 4);
    assert(whole.len() == 20 + table_bytes.len() + region.len() + node_bytes.len());
    assert(whole.subrange(root_offset(t), whole.len() as int) =~= node_bytes);
}

/// What stands before the root node is read back as it was written: in a
/// buffer that begins as the encoded tree does, up to the root node, the
/// header gives the tree's three counts, the reference table is the tree's,
/// and the string region is the tree's.
pub proof fn lemma_preamble(t: ParamView, bytes: Seq<u8>)
    requires
        encodable(t),
        root_offset(t) <= bytes.len(),
        bytes.subrange(0, root_offset(t)) == encode_tree(t).subrange(0, root_offset(t)),
    ensures
        HEADER_LEN <= root_offset(t) < encode_tree(t).len(),
        encode_tree(t).subrange(root_offset(t), encode_tree(t).len() as int) == encode_node(
            t,
            layout_table(t),
            string_table(t),
        ),
        bytes.subrange(0, 8) == magic(),
        header_counts(bytes) == (
            t.node_count(),
            layout_table(t).len(),
            string_region(string_table(t), string_table(t).len()).len(),
        ),
        decode_layouts(bytes, HEADER_LEN as int, layout_table(t).len()) == Ok::<
            (Seq<Seq<Hash40>>, int),
            DecodeError,
        >(
            (
                layout_table(t),
                root_offset(t) - string_region(string_table(t), string_table(t).len()).len(),
            ),
        ),
        bytes.subrange(
            root_offset(t) - string_region(string_table(t), string_table(t).len()).len(),
            root_offset(t),
        ) == string_region(string_table(t), string_table(t).len()),
        tables_serve(t, layout_table(t), string_table(t)),
        tables_fit(layout_table(t), string_table(t)),
{
    let layouts = layout_table(t);
    let strings = string_table(t);
    let region = string_region(strings, strings.len());
    let table_bytes = encode_layouts(layouts, layouts.len());
    let node_bytes = encode_node(t, layouts, strings);
    let nodes = le_bytes(t.node_count() as int, 4);
    let lists = le_bytes(layouts.len() as int, 4);
    let text = le_bytes(region.len() as int, 4);
    let whole = encode_tree(t);
    let strings_at: int = 20 + table_bytes.len() as int;
    let root_at: int = strings_at + region.len();
    lemma_pow256_values();
    lemma_le_bytes_len(t.node_count() as int, 4);
    lemma_le_bytes_len(layouts.len() as int, 4);
    lemma_le_bytes_len(region.len() as int, 4);
    lemma_le_bytes_len(first_index(layouts, t.keys()), 4);
    assert(whole == magic() + nodes + lists + text + table_bytes + region + node_bytes);
    assert(whole.len() == root_at + node_bytes.len());
    assert(whole.subrange(root_at, whole.len() as int) =~= node_bytes);
    assert forall|i: int| 0 <= i < root_at implies bytes[i] == whole[i] by {
        assert(bytes.subrange(0, root_at)[i] == bytes[i]);
        assert(whole.subrange(0, root_at)[i] == whole[i]);
    }
    assert(bytes.subrange(0, 8) =~= magic());
    assert(bytes.subrange(8, 12) =~= nodes);
    assert(bytes.subrange(12, 16) =~= lists);
    assert(bytes.subrange(16, 20) =~= text);
    lemma_field_read(bytes, 8, t.node_count() as int, 4);
    lemma_field_read(bytes, 12, layouts.len() as int, 4);
    lemma_field_read(bytes, 16, region.len() as int, 4);
    assert(bytes.subrange(20, strings_at) =~= table_bytes);
    assert(bytes.subrange(strings_at, root_at) =~= region);
    lemma_layouts_of_fit(t);
    lemma_absorb_holds_only(Seq::<Seq<Hash40>>::empty(), layouts_of(t));
    assert forall|i: int| 0 <= i < layouts.len() implies keys_fit(#[trigger] layouts[i]) by {
        assert(layouts_of(t).contains(layouts[i]));
        let k = choose|k: int| 0 <= k < layouts_of(t).len() && layouts_of(t)[k] == layouts[i];
        assert(keys_fit(layouts_of(t)[k]));
    }
    assert forall|i: int, j: int|
        0 <= i < layouts.len() && 0 <= j < layouts[i].len() implies (
    #[trigger] layouts[i][j]).wf() by {
        assert(keys_fit(layouts[i]));
    }
    assert forall|i: int| 0 <= i < layouts.len() implies (#[trigger] layouts[i]).len()
        <= u32::MAX by {
        assert(keys_fit(layouts[i]));
    }
    lemma_layouts_round_trip(bytes, 20, layouts, 0);
    assert(layouts.subrange(0, layouts.len() as int) =~= layouts);
    lemma_absorb_holds_items(Seq::<Seq<Hash40>>::empty(), layouts_of(t));
    lemma_absorb_holds_items(Seq::<Seq<char>>::empty(), strings_of(t));
}

/// Writing a tree and reading the bytes back gives the tree: the same tags,
/// the same values, the same order, at every level.
pub proof fn lemma_round_trip(t: ParamView)
    requires
        encodable(t),
    ensures
        decode_bytes(encode_tree(t)) == Ok::<ParamView, DecodeError>(t),
{
    let bytes = encode_tree(t);
    let node_bytes = encode_node(t, layout_table(t), string_table(t));
    let root_at = root_offset(t);
    lemma_tree_len(t);
    lemma_preamble(t, bytes);
    lemma_node_round_trip(t, layout_table(t), string_table(t), bytes, root_at);
    assert(bytes[root_at] == node_bytes[0]) by {
        assert(bytes.subrange(root_at, bytes.len() as int)[0] == bytes[root_at]);
    }
}

/// A byte that is no tag, put in place of the tag of any node of an encoded
/// tree, makes decoding fail with an unknown tag. `off` is the offset of the
/// node from the beginning of the root node.
pub proof fn lemma_unknown_tag(t: ParamView, off: int, tag: u8)
    requires
        encodable(t),
        node_starts_at(t, layout_table(t), string_table(t), off),
        !is_tag(tag),
    ensures
        0 <= root_offset(t) + off < encode_tree(t).len(),
        decode_bytes(encode_tree(t).update(root_offset(t) + off, tag)) == Err::<
            ParamView,
            DecodeError,
        >(DecodeError::UnknownTag),
{
    let whole = encode_tree(t);
    let root_at = root_offset(t);
    let bytes = whole.update(root_at + off, tag);
    let layouts = layout_table(t);
    let strings = string_table(t);
    let node_bytes = encode_node(t, layouts, strings);
    lemma_tree_len(t);
    lemma_node_start_in_range(t, layouts, strings, off);
    lemma_preamble(t, whole);
    assert(bytes.subrange(0, root_at) =~= whole.subrange(0, root_at));
    lemma_preamble(t, bytes);
    assert(bytes.subrange(root_at, root_at + node_bytes.len()) =~= node_bytes.update(off, tag)) by {
        assert forall|i: int| 0 <= i < node_bytes.len() implies bytes[root_at + i]
            == node_bytes.update(off, tag)[i] by {
            assert(whole.subrange(root_at, whole.len() as int)[i] == whole[root_at + i]);
        }
    }
    if off == 0 {
        assert(bytes[root_at] == tag);
    } else {
        assert(bytes[root_at] == node_bytes[0]) by {
            assert(whole.subrange(root_at, whole.len() as int)[0] == whole[root_at]);
        }
        lemma_bad_tag_node(t, layouts, strings, bytes, root_at, off, tag);
    }
}

/// A buffer shorter than the header is truncated, whatever it holds.
pub proof fn lemma_short_buffer(bytes: Seq<u8>)
    requires
        bytes.len() < HEADER_LEN,
    ensures
        decode_bytes(bytes) == Err::<ParamView, DecodeError>(DecodeError::Truncated),
{
}

/// Whether a node of the tree begins at offset `off` of the tree's bytes:
/// the tree itself at offset zero, and the nodes of its children where the
/// children lie, after the five bytes of a list's or a struct's own header.
pub open spec fn node_starts_at(
    t: ParamView,
    layouts: Seq<Seq<Hash40>>,
    strings: Seq<Seq<char>>,
    off: int,
) -> bool
    decreases t, t.arity() + 1,
{
    off == 0 || child_starts_at(t, t.arity(), layouts, strings, off - 5)
}

/// Whether a node of one of the first `n` children of `t` begins at offset
/// `off` of the bytes of the children.
pub open spec fn child_starts_at(
    t: ParamView,
    n: nat,
    layouts: Seq<Seq<Hash40>>,
    strings: Seq<Seq<char>>,
    off: int,
) -> bool
    decreases t, n,
{
    if n == 0 || n > t.arity() {
        false
    } else {
        let before = encode_children(t, (n - 1) as nat, layouts, strings).len();
        match t {
            ParamView::List(items) => child_starts_at(t, (n - 1) as nat, layouts, strings, off)
                || node_starts_at(items[n - 1], layouts, strings, off - before),
            ParamView::Struct(entries) => child_starts_at(
                t,
                (n - 1) as nat,
                layouts,
                strings,
                off,
            ) || node_starts_at(entries[n - 1].1, layouts, strings, off - before),
            _ => false,
        }
    }
}

/// A list or a struct is written as five bytes of header and then its
/// children.
pub proof fn lemma_container_len(
    t: ParamView,
    layouts: Seq<Seq<Hash40>>,
    strings: Seq<Seq<char>>,
)
    requires
        t is List || t is Struct,
    ensures
        encode_node(t, layouts, strings).len() == 5 + encode_children(
            t,
            t.arity(),
            layouts,
            strings,
        ).len(),
        encode_node(t, layouts, strings).subrange(
            5,
            encode_node(t, layouts, strings).len() as int,
        ) == encode_children(t, t.arity(), layouts, strings),
{
    let enc = encode_node(t, layouts, strings);
    let under = encode_children(t, t.arity(), layouts, strings);
    match t {
        ParamView::List(items) => {
            lemma_le_bytes_len(items.len() as int, 4);
        },
        ParamView::Struct(entries) => {
            lemma_le_bytes_len(first_index(layouts, t.keys()), 4);
        },
        _ => {},
    }
    assert(enc.subrange(5, enc.len() as int) =~= under);
}

/// A node begins inside the bytes of its tree.
pub proof fn lemma_node_start_in_range(
    t: ParamView,
    layouts: Seq<Seq<Hash40>>,
    strings: Seq<Seq<char>>,
    off: int,
)
    requires
        node_starts_at(t, layouts, strings, off),
    ensures
        0 <= off < encode_node(t, layouts, strings).len(),
    decreases t, t.arity() + 1,
{
    if off == 0 {
        match t {
            ParamView::I8(v) => {
                lemma_le_bytes_len(to_unsigned(v as int, 1), 1);
            },
            _ => {},
        }
        assert(encode_node(t, layouts, strings).len() >= 1);
    } else {
        lemma_container_len(t, layouts, strings);
        lemma_child_start_in_range(t, t.arity(), layouts, strings, off - 5);
    }
}

/// A node of the first `n` children begins inside the bytes of those
/// children.
pub proof fn lemma_child_start_in_range(
    t: ParamView,
    n: nat,
    layouts: Seq<Seq<Hash40>>,
    strings: Seq<Seq<char>>,
    off: int,
)
    requires
        child_starts_at(t, n, layouts, strings, off),
    ensures
        0 <= off < encode_children(t, n, layouts, strings).len(),
        t is List || t is Struct,
    decreases t, n,
{
    let before = encode_children(t, (n - 1) as nat, layouts, strings).len();
    lemma_children_prefix(t, (n - 1) as nat, n, layouts, strings);
    if child_starts_at(t, (n - 1) as nat, layouts, strings, off) {
        lemma_child_start_in_range(t, (n - 1) as nat, layouts, strings, off);
    } else {
        lemma_node_start_in_range(t.child(n - 1), layouts, strings, off - before);
    }
}

/// The child in which a node of the first `n` children begins.
pub proof fn lemma_child_of_start(
    t: ParamView,
    n: nat,
    layouts: Seq<Seq<Hash40>>,
    strings: Seq<Seq<char>>,
    off: int,
) -> (k: int)
    requires
        child_starts_at(t, n, layouts, strings, off),
    ensures
        0 <= k < n <= t.arity(),
        node_starts_at(
            t.child(k),
            layouts,
            strings,
            off - encode_children(t, k as nat, layouts, strings).len(),
        ),
    decreases n,
{
    if child_starts_at(t, (n - 1) as nat, layouts, strings, off) {
        lemma_child_of_start(t, (n - 1) as nat, layouts, strings, off)
    } else {
        n - 1
    }
}

/// A byte that is no tag, put where a node begins, makes the reading of
/// that node fail with an unknown tag, wherever in the node's tree it is.
pub proof fn lemma_bad_tag_node(
    t: ParamView,
    layouts: Seq<Seq<Hash40>>,
    strings: Seq<Seq<char>>,
    bytes: Seq<u8>,
    pos: int,
    off: int,
    tag: u8,
)
    requires
        t.wf(),
        tables_serve(t, layouts, strings),
        tables_fit(layouts, strings),
        node_starts_at(t, layouts, strings, off),
        !is_tag(tag),
        0 <= pos,
        pos + encode_node(t, layouts, strings).len() <= bytes.len(),
        bytes.subrange(pos, pos + encode_node(t, layouts, strings).len()) == encode_node(
            t,
            layouts,
            strings,
        ).update(off, tag),
    ensures
        decode_node(bytes, pos, layouts, string_region(strings, strings.len())) == Err::<
            (ParamView, int),
            DecodeError,
        >(DecodeError::UnknownTag),
    decreases t, t.arity() + 1,
{
    let enc = encode_node(t, layouts, strings);
    let bad = enc.update(off, tag);
    lemma_node_start_in_range(t, layouts, strings, off);
    if off == 0 {
        assert(bytes[pos] == bytes.subrange(pos, pos + enc.len())[0]);
        assert(bad[0] == tag);
    } else {
        let under = encode_children(t, t.arity(), layouts, strings);
        lemma_container_len(t, layouts, strings);
        lemma_child_start_in_range(t, t.arity(), layouts, strings, off - 5);
        lemma_pow256_values();
        let k = lemma_child_of_start(t, t.arity(), layouts, strings, off - 5);
        assert(bad.subrange(5, bad.len() as int) =~= under.update(off - 5, tag));
        lemma_part_of_part(bytes, pos, bad, 5, bad.len() as int);
        assert(bad.subrange(0, 5) =~= enc.subrange(0, 5));
        match t {
            ParamView::List(items) => {
                lemma_le_bytes_len(items.len() as int, 4);
                assert(enc.subrange(0, 5) =~= seq![TAG_LIST] + le_bytes(items.len() as int, 4));
                lemma_tagged_field(bytes, pos, bad, TAG_LIST, items.len() as int, 4);
            },
            ParamView::Struct(entries) => {
                assert(layouts_of(t)[0] == t.keys());
                assert(layouts.contains(t.keys()));
                lemma_first_index_found(layouts, t.keys());
                let index = first_index(layouts, t.keys());
                lemma_le_bytes_len(index, 4);
                assert(enc.subrange(0, 5) =~= seq![TAG_STRUCT] + le_bytes(index, 4));
                lemma_tagged_field(bytes, pos, bad, TAG_STRUCT, index, 4);
            },
            _ => {},
        }
        lemma_children_fail(t, 0, k, layouts, strings, bytes, pos + 5, off - 5, tag);
    }
}

/// Where a byte that is no tag stands at the beginning of a node of the
/// child at place `k`, reading the children from place `j` on, which is not
/// after `k`, fails with an unknown tag.
pub proof fn lemma_children_fail(
    t: ParamView,
    j: int,
    k: int,
    layouts: Seq<Seq<Hash40>>,
    strings: Seq<Seq<char>>,
    bytes: Seq<u8>,
    pos: int,
    off: int,
    tag: u8,
)
    requires
        t.wf(),
        tables_serve(t, layouts, strings),
        tables_fit(layouts, strings),
        0 <= j <= k < t.arity(),
        node_starts_at(
            t.child(k),
            layouts,
            strings,
            off - encode_children(t, k as nat, layouts, strings).len(),
        ),
        !is_tag(tag),
        0 <= pos,
        pos + encode_children(t, t.arity(), layouts, strings).len() <= bytes.len(),
        bytes.subrange(pos, pos + encode_children(t, t.arity(), layouts, strings).len())
            == encode_children(t, t.arity(), layouts, strings).update(off, tag),
    ensures
        decode_children(
            bytes,
            pos + encode_children(t, j as nat, layouts, strings).len(),
            (t.arity() - j) as nat,
            layouts,
            string_region(strings, strings.len()),
        ) == Err::<(Seq<ParamView>, int), DecodeError>(DecodeError::UnknownTag),
    decreases t, k - j,
{
    let n = t.arity();
    let all = encode_children(t, n, layouts, strings);
    let bad = all.update(off, tag);
    let c = t.child(j);
    let done = encode_children(t, j as nat, layouts, strings);
    let upto = encode_children(t, (j + 1) as nat, layouts, strings);
    let mine = encode_node(c, layouts, strings);
    let start_k = encode_children(t, k as nat, layouts, strings).len();
    lemma_children_prefix(t, j as nat, n, layouts, strings);
    lemma_children_prefix(t, (j + 1) as nat, n, layouts, strings);
    lemma_children_prefix(t, j as nat, k as nat, layouts, strings);
    lemma_children_prefix(t, k as nat, n, layouts, strings);
    lemma_children_prefix(t, (k + 1) as nat, n, layouts, strings);
    lemma_child_served(t, j, layouts, strings);
    lemma_node_start_in_range(t.child(k), layouts, strings, off - start_k);
    assert(upto == done + mine);
    assert(all.subrange(done.len() as int, upto.len() as int) =~= mine) by {
        assert forall|i: int| 0 <= i < mine.len() implies all[done.len() + i] == mine[i] by {
            assert(all.subrange(0, upto.len() as int)[done.len() + i] == all[done.len() + i]);
        }
    }
    if j < k {
        lemma_children_prefix(t, (j + 1) as nat, k as nat, layouts, strings);
        assert(bad.subrange(done.len() as int, upto.len() as int) =~= mine);
        lemma_part_of_part(bytes, pos, bad, done.len() as int, upto.len() as int);
        lemma_node_round_trip(c, layouts, strings, bytes, pos + done.len());
        lemma_children_fail(t, j + 1, k, layouts, strings, bytes, pos, off, tag);
    } else {
        assert(bad.subrange(done.len() as int, upto.len() as int) =~= mine.update(
            off - start_k,
            tag,
        ));
        lemma_part_of_part(bytes, pos, bad, done.len() as int, upto.len() as int);
        lemma_bad_tag_node(c, layouts, strings, bytes, pos + done.len(), off - start_k, tag);
    }
}

} // verus!
