//! The reader: from bytes to a parameter tree.
use vstd::prelude::*;
use crate::format::{
    decode_bytes, decode_children, decode_layouts, decode_node, keys_at, magic, nul_pos, string_at,
    zip_entries, DecodeError, HASH_WIDTH, HEADER_LEN, TAG_BOOL, TAG_FLOAT, TAG_HASH, TAG_I16,
    TAG_I32, TAG_I8, TAG_LIST, TAG_STR, TAG_STRUCT, TAG_U16, TAG_U32, TAG_U8,
};
use crate::hash40::Hash40;
use crate::param::{ParamValue, ParamView};
use crate::strings::string_from_utf8;
use crate::tables::layouts_view;
use crate::wellformed::lemma_decoded_is_wf;
use crate::wire::{le_value, lemma_pow256_values, pow256, read_le, to_signed};

verus! {

/// Reads the string at offset `off` of the string region, which is the bytes
/// from `start` up to `end`.
pub fn read_string(bytes: &[u8], start: usize, end: usize, off: u32) -> (text: Option<String>)
    requires
        start <= end <= bytes@.len(),
    ensures
        match text {
            Some(t) => string_at(bytes@.subrange(start as int, end as int), off as int) == Some(
                t@,
            ),
            None => string_at(bytes@.subrange(start as int, end as int), off as int) is None,
        },
{
    let ghost region = bytes@.subrange(start as int, end as int);
    let size: usize = end - start;
    if off as usize >= size {
        return None;
    }
    let first: usize = start + off as usize;
    let mut stop: usize = first;
    while stop < end && bytes[stop] != 0
        invariant
            start <= first <= stop <= end <= bytes@.len(),
            region == bytes@.subrange(start as int, end as int),
            nul_pos(region, off as int) == nul_pos(region, stop - start),
        decreases end - stop,
    {
        assert(region[stop - start] == bytes@[stop as int]);
        stop = stop + 1;
    }
    if stop >= end {
        return None;
    }
    assert(region[stop - start] == bytes@[stop as int]);
    let mut raw: Vec<u8> = Vec::new();
    let mut i: usize = first;
    while i < stop
        invariant
            start <= first <= i <= stop < end <= bytes@.len(),
            region == bytes@.subrange(start as int, end as int),
            raw@ == region.subrange(first - start, i - start),
        decreases stop - i,
    {
        let ghost before = raw@;
        raw.push(bytes[i]);
        assert(raw@ =~= region.subrange(first - start, i + 1 - start));
        i = i + 1;
    }
    string_from_utf8(raw)
}

/// The result of reading a table of which `done` is the part read so far
/// and `rest` the result for what follows.
spec fn after_layouts(
    done: Seq<Seq<Hash40>>,
    rest: Result<(Seq<Seq<Hash40>>, int), DecodeError>,
) -> Result<(Seq<Seq<Hash40>>, int), DecodeError> {
    match rest {
        Ok((more, end)) => Ok((done + more, end)),
        Err(e) => Err(e),
    }
}

/// Reading one more key list moves it from the rest to the part read.
proof fn lemma_layouts_step(bytes: Seq<u8>, at: int, left: nat, done: Seq<Seq<Hash40>>)
    requires
        left > 0,
        0 <= at,
        at + 4 + HASH_WIDTH * le_value(bytes, at, 4) <= bytes.len(),
    ensures
        after_layouts(done, decode_layouts(bytes, at, left)) == after_layouts(
            done.push(keys_at(bytes, at + 4, le_value(bytes, at, 4) as nat)),
            decode_layouts(
                bytes,
                at + 4 + HASH_WIDTH * le_value(bytes, at, 4),
                (left - 1) as nat,
            ),
        ),
{
    crate::wire::lemma_le_value_bound(bytes, at, 4);
    let keys = le_value(bytes, at, 4) as nat;
    let list = keys_at(bytes, at + 4, keys);
    match decode_layouts(bytes, at + 4 + HASH_WIDTH * keys, (left - 1) as nat) {
        Ok((rest, end)) => {
            assert(done + (seq![list] + rest) =~= done.push(list) + rest);
        },
        Err(e) => {},
    }
}

/// Reads the reference table of `count` key lists that starts at `pos`.
pub fn read_layouts(bytes: &[u8], pos: usize, count: u32) -> (res: Result<
    (Vec<Vec<Hash40>>, usize),
    DecodeError,
>)
    requires
        pos <= bytes@.len(),
    ensures
        match res {
            Ok((table, end)) => decode_layouts(bytes@, pos as int, count as nat) == Ok::<
                (Seq<Seq<Hash40>>, int),
                DecodeError,
            >((layouts_view(table@), end as int)) && end <= bytes@.len(),
            Err(e) => decode_layouts(bytes@, pos as int, count as nat) == Err::<
                (Seq<Seq<Hash40>>, int),
                DecodeError,
            >(e),
        },
{
    let n: usize = bytes.len();
    let mut table: Vec<Vec<Hash40>> = Vec::new();
    let mut at: usize = pos;
    let mut done: u32 = 0;
    assert(layouts_view(table@) + Seq::<Seq<Hash40>>::empty() =~= layouts_view(table@));
    assert(layouts_view(table@) =~= Seq::<Seq<Hash40>>::empty());
    while done < count
        invariant
            pos <= at <= n,
            n == bytes@.len(),
            done <= count,
            decode_layouts(bytes@, pos as int, count as nat) == after_layouts(
                layouts_view(table@),
                decode_layouts(bytes@, at as int, (count - done) as nat),
            ),
        decreases count - done,
    {
        if n - at < 4 {
            return Err(DecodeError::Truncated);
        }
        let keys: u64 = read_le(bytes, at, 4);
        proof {
            lemma_pow256_values();
        }
        if keys > ((n - at - 4) / HASH_WIDTH) as u64 {
            return Err(DecodeError::Truncated);
        }
        let width: usize = keys as usize;
        let mut list: Vec<Hash40> = Vec::new();
        let mut k: usize = 0;
        while k < width
            invariant
                k <= width,
                at + 4 + HASH_WIDTH * width <= n,
                n == bytes@.len(),
                list@ =~= keys_at(bytes@, at + 4, k as nat),
            decreases width - k,
        {
            let key: u64 = read_le(bytes, at + 4 + HASH_WIDTH * k, HASH_WIDTH);
            list.push(Hash40(key));
            k = k + 1;
        }
        proof {
            lemma_layouts_step(
                bytes@,
                at as int,
                (count - done) as nat,
                layouts_view(table@),
            );
            assert(layouts_view(table@.push(list)) =~= layouts_view(table@).push(list@));
        }
        table.push(list);
        at = at + 4 + HASH_WIDTH * width;
        done = done + 1;
    }
    assert(layouts_view(table@) + Seq::<Seq<Hash40>>::empty() =~= layouts_view(table@));
    Ok((table, at))
}

/// The values of a row of nodes.
pub open spec fn values_view(items: Seq<ParamValue>) -> Seq<ParamView> {
    Seq::new(items.len(), |i: int| items[i]@)
}

/// The result of reading a row of nodes of which `done` is the part read so
/// far and `rest` the result for what follows.
spec fn after_children(
    done: Seq<ParamView>,
    rest: Result<(Seq<ParamView>, int), DecodeError>,
) -> Result<(Seq<ParamView>, int), DecodeError> {
    match rest {
        Ok((more, end)) => Ok((done + more, end)),
        Err(e) => Err(e),
    }
}

/// Reading one more node moves it from the rest to the part read.
proof fn lemma_children_step(
    bytes: Seq<u8>,
    at: int,
    left: nat,
    layouts: Seq<Seq<Hash40>>,
    strings: Seq<u8>,
    done: Seq<ParamView>,
)
    requires
        left > 0,
        decode_node(bytes, at, layouts, strings) is Ok,
        at < decode_node(bytes, at, layouts, strings)->Ok_0.1 <= bytes.len(),
    ensures
        after_children(done, decode_children(bytes, at, left, layouts, strings))
            == after_children(
            done.push(decode_node(bytes, at, layouts, strings)->Ok_0.0),
            decode_children(
                bytes,
                decode_node(bytes, at, layouts, strings)->Ok_0.1,
                (left - 1) as nat,
                layouts,
                strings,
            ),
        ),
{
    let (first, next) = decode_node(bytes, at, layouts, strings)->Ok_0;
    match decode_children(bytes, next, (left - 1) as nat, layouts, strings) {
        Ok((rest, end)) => {
            assert(done + (seq![first] + rest) =~= done.push(first) + rest);
        },
        Err(e) => {},
    }
}

/// Turns the two's complement form `raw` of `width` bytes into the number
/// that it denotes.
fn signed_of(raw: u64, width: usize) -> (v: i64)
    requires
        1 <= width <= 4,
        raw < pow256(width as nat),
    ensures
        v == to_signed(raw as int, width as nat),
        -pow256(width as nat) <= 2 * v < pow256(width as nat),
{
    proof {
        lemma_pow256_values();
    }
    let modulus: u64 = if width == 1 {
        0x100
    } else if width == 2 {
        0x1_0000
    } else if width == 3 {
        0x100_0000
    } else {
        0x1_0000_0000
    };
    if 2 * raw >= modulus {
        raw as i64 - modulus as i64
    } else {
        raw as i64
    }
}

/// Reads the node that starts at `pos`. The string region is the bytes from
/// `strings_at` up to `strings_end`.
pub fn read_node(
    bytes: &[u8],
    pos: usize,
    layouts: &Vec<Vec<Hash40>>,
    strings_at: usize,
    strings_end: usize,
) -> (res: Result<(ParamValue, usize), DecodeError>)
    requires
        strings_at <= strings_end <= bytes@.len(),
    ensures
        match res {
            Ok((value, end)) => decode_node(
                bytes@,
                pos as int,
                layouts_view(layouts@),
                bytes@.subrange(strings_at as int, strings_end as int),
            ) == Ok::<(ParamView, int), DecodeError>((value@, end as int)) && pos < end
                <= bytes@.len(),
            Err(e) => decode_node(
                bytes@,
                pos as int,
                layouts_view(layouts@),
                bytes@.subrange(strings_at as int, strings_end as int),
            ) == Err::<(ParamView, int), DecodeError>(e),
        },
    decreases bytes@.len() - pos,
{
    let n: usize = bytes.len();
    let ghost table = layouts_view(layouts@);
    let ghost strings = bytes@.subrange(strings_at as int, strings_end as int);
    if pos >= n {
        return Err(DecodeError::Truncated);
    }
    let tag: u8 = bytes[pos];
    let at: usize = pos + 1;
    let left: usize = n - at;
    proof {
        lemma_pow256_values();
    }
    if tag == TAG_BOOL {
        if left < 1 {
            return Err(DecodeError::Truncated);
        }
        Ok((ParamValue::Bool(bytes[at] != 0), at + 1))
    } else if tag == TAG_I8 {
        if left < 1 {
            return Err(DecodeError::Truncated);
        }
        let v: i64 = signed_of(read_le(bytes, at, 1), 1);
        Ok((ParamValue::I8(v as i8), at + 1))
    } else if tag == TAG_U8 {
        if left < 1 {
            return Err(DecodeError::Truncated);
        }
        Ok((ParamValue::U8(bytes[at]), at + 1))
    } else if tag == TAG_I16 {
        if left < 2 {
            return Err(DecodeError::Truncated);
        }
        let v: i64 = signed_of(read_le(bytes, at, 2), 2);
        Ok((ParamValue::I16(v as i16), at + 2))
    } else if tag == TAG_U16 {
        if left < 2 {
            return Err(DecodeError::Truncated);
        }
        let v: u64 = read_le(bytes, at, 2);
        Ok((ParamValue::U16(v as u16), at + 2))
    } else if tag == TAG_I32 {
        if left < 4 {
            return Err(DecodeError::Truncated);
        }
        let v: i64 = signed_of(read_le(bytes, at, 4), 4);
        Ok((ParamValue::I32(v as i32), at + 4))
    } else if tag == TAG_U32 {
        if left < 4 {
            return Err(DecodeError::Truncated);
        }
        let v: u64 = read_le(bytes, at, 4);
        Ok((ParamValue::U32(v as u32), at + 4))
    } else if tag == TAG_FLOAT {
        if left < 4 {
            return Err(DecodeError::Truncated);
        }
        let v: u64 = read_le(bytes, at, 4);
        Ok((ParamValue::Float(v as u32), at + 4))
    } else if tag == TAG_HASH {
        if left < HASH_WIDTH {
            return Err(DecodeError::Truncated);
        }
        let v: u64 = read_le(bytes, at, HASH_WIDTH);
        Ok((ParamValue::Hash(Hash40(v)), at + HASH_WIDTH))
    } else if tag == TAG_STR {
        if left < 4 {
            return Err(DecodeError::Truncated);
        }
        let off: u64 = read_le(bytes, at, 4);
        match read_string(bytes, strings_at, strings_end, off as u32) {
            Some(text) => Ok((ParamValue::Str(text), at + 4)),
            None => Err(DecodeError::InvalidStringOffset),
        }
    } else if tag == TAG_LIST {
        if left < 4 {
            return Err(DecodeError::Truncated);
        }
        let count: u64 = read_le(bytes, at, 4);
        let mut items: Vec<ParamValue> = Vec::new();
        let mut next: usize = at + 4;
        let mut done: u64 = 0;
        assert(values_view(items@) =~= Seq::<ParamView>::empty());
        assert(values_view(items@) + Seq::<ParamView>::empty() =~= values_view(items@));
        while done < count
            invariant
                pos < next <= n,
                n == bytes@.len(),
                done <= count,
                strings_at <= strings_end <= bytes@.len(),
                table == layouts_view(layouts@),
                strings == bytes@.subrange(strings_at as int, strings_end as int),
                at == pos + 1,
                at + 4 <= n,
                bytes@[pos as int] == TAG_LIST,
                count == le_value(bytes@, at as int, 4),
                decode_children(bytes@, at + 4, count as nat, table, strings) == after_children(
                    values_view(items@),
                    decode_children(bytes@, next as int, (count - done) as nat, table, strings),
                ),
            decreases count - done,
        {
            match read_node(bytes, next, layouts, strings_at, strings_end) {
                Err(e) => {
                    return Err(e);
                },
                Ok((item, end)) => {
                    proof {
                        lemma_children_step(
                            bytes@,
                            next as int,
                            (count - done) as nat,
                            table,
                            strings,
                            values_view(items@),
                        );
                        assert(values_view(items@.push(item)) =~= values_view(items@).push(
                            item@,
                        ));
                    }
                    items.push(item);
                    next = end;
                    done = done + 1;
                },
            }
        }
        assert(values_view(items@) + Seq::<ParamView>::empty() =~= values_view(items@));
        assert(ParamValue::List(items)@ == ParamView::List(values_view(items@))) by {
            assert(ParamValue::List(items)@->List_0 =~= values_view(items@));
        }
        Ok((ParamValue::List(items), next))
    } else if tag == TAG_STRUCT {
        if left < 4 {
            return Err(DecodeError::Truncated);
        }
        let index: u64 = read_le(bytes, at, 4);
        if index >= layouts.len() as u64 {
            return Err(DecodeError::BadReference);
        }
        let keys: &Vec<Hash40> = &layouts[index as usize];
        assert(table[index as int] == keys@);
        let count: usize = keys.len();
        let mut entries: Vec<(Hash40, ParamValue)> = Vec::new();
        let ghost mut values: Seq<ParamView> = Seq::empty();
        let mut next: usize = at + 4;
        let mut done: usize = 0;
        assert(values + Seq::<ParamView>::empty() =~= values);
        while done < count
            invariant
                pos < next <= n,
                n == bytes@.len(),
                done <= count,
                count == keys@.len(),
                strings_at <= strings_end <= bytes@.len(),
                table == layouts_view(layouts@),
                strings == bytes@.subrange(strings_at as int, strings_end as int),
                at == pos + 1,
                at + 4 <= n,
                bytes@[pos as int] == TAG_STRUCT,
                index == le_value(bytes@, at as int, 4),
                index < table.len(),
                table[index as int] == keys@,
                entries@.len() == done,
                values.len() == done,
                forall|i: int|
                    0 <= i < done ==> (#[trigger] entries@[i]).0 == keys@[i] && entries@[i].1@
                        == values[i],
                decode_children(bytes@, at + 4, count as nat, table, strings) == after_children(
                    values,
                    decode_children(bytes@, next as int, (count - done) as nat, table, strings),
                ),
            decreases count - done,
        {
            match read_node(bytes, next, layouts, strings_at, strings_end) {
                Err(e) => {
                    return Err(e);
                },
                Ok((item, end)) => {
                    proof {
                        lemma_children_step(
                            bytes@,
                            next as int,
                            (count - done) as nat,
                            table,
                            strings,
                            values,
                        );
                        values = values.push(item@);
                    }
                    entries.push((keys[done], item));
                    next = end;
                    done = done + 1;
                },
            }
        }
        assert(values + Seq::<ParamView>::empty() =~= values);
        assert(ParamValue::Struct(entries)@ == ParamView::Struct(zip_entries(keys@, values))) by {
            assert(ParamValue::Struct(entries)@->Struct_0 =~= zip_entries(keys@, values));
        }
        Ok((ParamValue::Struct(entries), next))
    } else {
        Err(DecodeError::UnknownTag)
    }
}

/// Tests whether the buffer begins with the format's eight bytes.
fn has_magic(bytes: &[u8]) -> (yes: bool)
    requires
        bytes@.len() >= 8,
    ensures
        yes == (bytes@.subrange(0, 8) == magic()),
{
    let yes: bool = bytes[0] == 0x70 && bytes[1] == 0x61 && bytes[2] == 0x72 && bytes[3] == 0x61
        && bytes[4] == 0x63 && bytes[5] == 0x6f && bytes[6] == 0x62 && bytes[7] == 0x6e;
    proof {
        let head = bytes@.subrange(0, 8);
        if yes {
            assert(head =~= magic());
        } else {
            assert(head[0] == bytes@[0] && head[1] == bytes@[1] && head[2] == bytes@[2] && head[3]
                == bytes@[3] && head[4] == bytes@[4] && head[5] == bytes@[5] && head[6]
                == bytes@[6] && head[7] == bytes@[7]);
        }
    }
    yes
}

/// Decodes a buffer into the tree that it holds.
///
/// The result is all or nothing: a buffer that is not an encoded tree gives
/// the reason and no part of a tree. A tree that comes out is a struct and
/// well formed. Bytes after the root node are not looked at.
pub fn decode(bytes: &[u8]) -> (res: Result<ParamValue, DecodeError>)
    ensures
        match res {
            Ok(root) => decode_bytes(bytes@) == Ok::<ParamView, DecodeError>(root@),
            Err(e) => decode_bytes(bytes@) == Err::<ParamView, DecodeError>(e),
        },
        res is Ok ==> res->Ok_0@ is Struct && res->Ok_0@.wf(),
        bytes@.len() < HEADER_LEN ==> res == Err::<ParamValue, DecodeError>(DecodeError::Truncated),
{
    proof {
        if decode_bytes(bytes@) is Ok {
            lemma_decoded_is_wf(bytes@);
        }
    }
    let n: usize = bytes.len();
    if n < HEADER_LEN {
        return Err(DecodeError::Truncated);
    }
    if !has_magic(bytes) {
        return Err(DecodeError::UnknownTag);
    }
    let nodes: u64 = read_le(bytes, 8, 4);
    let lists: u64 = read_le(bytes, 12, 4);
    let text: u64 = read_le(bytes, 16, 4);
    proof {
        lemma_pow256_values();
    }
    match read_layouts(bytes, HEADER_LEN, lists as u32) {
        Err(e) => Err(e),
        Ok((layouts, strings_at)) => {
            if text >= (n - strings_at) as u64 {
                return Err(DecodeError::Truncated);
            }
            let root_at: usize = strings_at + text as usize;
            if bytes[root_at] != TAG_STRUCT {
                return Err(DecodeError::UnknownTag);
            }
            match read_node(bytes, root_at, &layouts, strings_at, root_at) {
                Err(e) => Err(e),
                Ok((root, end)) => {
                    match root.count_within(nodes) {
                        Some(left) => {
                            if left == 0 {
                                Ok(root)
                            } else {
                                Err(DecodeError::Truncated)
                            }
                        },
                        None => Err(DecodeError::Truncated),
                    }
                },
            }
        },
    }
}

} // verus!
