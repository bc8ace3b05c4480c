//! The label table: readable names for hashes, loaded from text.
//!
//! The text is made of lines, `<hex-hash>,<label>`. A line is split at its
//! first comma only. A line without a comma, or whose part before the comma
//! is no hash, is passed over; the other lines of the same text still count.
//! Where two lines name the same hash, the later one wins.
use std::collections::HashMap;
use vstd::prelude::*;
use vstd::slice::*;
use vstd::std_specs::hash::*;
use vstd::string::*;
use vstd::utf8::*;
use crate::format::{first_index, first_index_from};
use crate::hash40::{hex_text, parse_hex, parse_hex_bytes, Hash40};
use crate::strings::{lemma_cut_at_ascii, string_from_utf8};
use crate::tables::lemma_first_index_from;

verus! {

/// The byte that parts the hash of a line from its label.
pub const COMMA: u8 = 0x2C;

/// The byte that ends a line.
pub const NEWLINE: u8 = 0x0A;

/// The byte that may stand before the end of a line, and is then no part of it.
pub const CARRIAGE_RETURN: u8 = 0x0D;

/// The hash and the label that a line gives, if it gives any.
pub open spec fn line_entry(line: Seq<u8>) -> Option<(Hash40, Seq<char>)> {
    let comma = first_index(line, COMMA);
    if comma >= line.len() {
        None
    } else {
        match parse_hex(line.subrange(0, comma)) {
            Err(_) => None,
            Ok(hash) => if valid_utf8(line.subrange(comma + 1, line.len() as int)) {
                Some((hash, decode_utf8(line.subrange(comma + 1, line.len() as int))))
            } else {
                None
            },
        }
    }
}

/// The labels after one more line.
pub open spec fn apply_line(labels: Map<u64, Seq<char>>, line: Seq<u8>) -> Map<u64, Seq<char>> {
    match line_entry(line) {
        Some((hash, label)) => labels.insert(hash.0, label),
        None => labels,
    }
}

/// The labels after the lines, taken from first to last.
pub open spec fn load_lines(labels: Map<u64, Seq<char>>, lines: Seq<Seq<u8>>) -> Map<
    u64,
    Seq<char>,
>
    decreases lines.len(),
{
    if lines.len() == 0 {
        labels
    } else {
        apply_line(load_lines(labels, lines.drop_last()), lines.last())
    }
}

/// The line without the carriage return at its end, if it has one.
pub open spec fn strip_cr(line: Seq<u8>) -> Seq<u8> {
    if line.len() > 0 && line.last() == CARRIAGE_RETURN {
        line.drop_last()
    } else {
        line
    }
}

/// The lines of a text: each ends before a newline or at the end of the
/// text. What follows the last newline is a line only if it is not empty.
pub open spec fn split_lines(text: Seq<u8>) -> Seq<Seq<u8>>
    decreases text.len(),
    via split_lines_ends
{
    if text.len() == 0 {
        Seq::empty()
    } else {
        let end = first_index(text, NEWLINE);
        if end >= text.len() {
            seq![strip_cr(text)]
        } else {
            seq![strip_cr(text.subrange(0, end))] + split_lines(
                text.subrange(end + 1, text.len() as int),
            )
        }
    }
}

#[via_fn]
proof fn split_lines_ends(text: Seq<u8>) {
    lemma_first_index_from(text, NEWLINE, 0);
}

/// The UTF-8 form of each string of a list.
pub open spec fn lines_of(lines: Seq<String>) -> Seq<Seq<u8>> {
    Seq::new(lines.len(), |i: int| encode_utf8(lines[i]@))
}

/// Taking a first line and then the rest is taking them all.
pub proof fn lemma_load_first(labels: Map<u64, Seq<char>>, first: Seq<u8>, rest: Seq<Seq<u8>>)
    ensures
        load_lines(labels, seq![first] + rest) == load_lines(apply_line(labels, first), rest),
    decreases rest.len(),
{
    let all = seq![first] + rest;
    if rest.len() == 0 {
        assert(all.drop_last() =~= Seq::<Seq<u8>>::empty());
        assert(load_lines(labels, all.drop_last()) == labels);
    } else {
        assert(all.drop_last() =~= seq![first] + rest.drop_last());
        assert(all.last() == rest.last());
        lemma_load_first(labels, first, rest.drop_last());
    }
}

/// In a line of text the label is always there to take: a line that is
/// UTF-8 gives a label exactly when it has a comma and the part before its
/// first comma is a hash.
pub proof fn lemma_line_entry_of_text(line: Seq<u8>)
    requires
        valid_utf8(line),
    ensures
        line_entry(line) is Some <==> first_index(line, COMMA) < line.len() && parse_hex(
            line.subrange(0, first_index(line, COMMA)),
        ) is Ok,
{
    lemma_first_index_from(line, COMMA, 0);
    let comma = first_index(line, COMMA);
    if comma < line.len() {
        lemma_cut_at_ascii(line, comma);
    }
}

/// The lines of a text that is UTF-8 are UTF-8.
pub proof fn lemma_split_lines_of_text(text: Seq<u8>)
    requires
        valid_utf8(text),
    ensures
        forall|i: int|
            0 <= i < split_lines(text).len() ==> valid_utf8(#[trigger] split_lines(text)[i]),
    decreases text.len(),
{
    if text.len() > 0 {
        lemma_first_index_from(text, NEWLINE, 0);
        let end = first_index(text, NEWLINE);
        let whole = if end >= text.len() {
            text
        } else {
            text.subrange(0, end)
        };
        let rest = text.subrange(end + 1, text.len() as int);
        if end < text.len() {
            lemma_cut_at_ascii(text, end);
            lemma_split_lines_of_text(rest);
        }
        if whole.len() > 0 && whole.last() == CARRIAGE_RETURN {
            lemma_cut_at_ascii(whole, whole.len() - 1);
            assert(whole.subrange(0, whole.len() - 1) =~= whole.drop_last());
        }
        assert(valid_utf8(strip_cr(whole)));
        let lines = split_lines(text);
        assert forall|i: int| 0 <= i < lines.len() implies valid_utf8(#[trigger] lines[i]) by {
            if i > 0 {
                assert(lines[i] == split_lines(rest)[i - 1]);
            }
        }
    }
}

/// Loading lines into a table gives the table overlaid with what the lines
/// alone give.
pub proof fn lemma_load_overlays(labels: Map<u64, Seq<char>>, lines: Seq<Seq<u8>>)
    ensures
        load_lines(labels, lines) == labels.union_prefer_right(
            load_lines(Map::<u64, Seq<char>>::empty(), lines),
        ),
    decreases lines.len(),
{
    let alone = load_lines(Map::<u64, Seq<char>>::empty(), lines);
    if lines.len() == 0 {
        assert(labels =~= labels.union_prefer_right(alone));
    } else {
        lemma_load_overlays(labels, lines.drop_last());
        assert(load_lines(labels, lines) =~= labels.union_prefer_right(alone));
    }
}

/// Loading is idempotent: loading the same lines a second time changes
/// nothing.
pub proof fn lemma_load_twice(labels: Map<u64, Seq<char>>, lines: Seq<Seq<u8>>)
    ensures
        load_lines(load_lines(labels, lines), lines) == load_lines(labels, lines),
{
    let alone = load_lines(Map::<u64, Seq<char>>::empty(), lines);
    let once = load_lines(labels, lines);
    lemma_load_overlays(labels, lines);
    lemma_load_overlays(once, lines);
    assert(once.union_prefer_right(alone) =~= once);
}

/// The later label wins: a hash has the label of the last line that names it.
pub proof fn lemma_later_label_wins(labels: Map<u64, Seq<char>>, lines: Seq<Seq<u8>>, j: int)
    requires
        0 <= j < lines.len(),
        line_entry(lines[j]) is Some,
        forall|k: int|
            j < k < lines.len() && line_entry(#[trigger] lines[k]) is Some ==> line_entry(
                lines[k],
            )->Some_0.0.0 != line_entry(lines[j])->Some_0.0.0,
    ensures
        load_lines(labels, lines).contains_key(line_entry(lines[j])->Some_0.0.0),
        load_lines(labels, lines)[line_entry(lines[j])->Some_0.0.0] == line_entry(
            lines[j],
        )->Some_0.1,
    decreases lines.len(),
{
    if j < lines.len() - 1 {
        let front = lines.drop_last();
        assert(front[j] == lines[j]);
        assert forall|k: int| j < k < front.len() && line_entry(#[trigger] front[k]) is Some implies line_entry(
            front[k],
        )->Some_0.0.0 != line_entry(front[j])->Some_0.0.0 by {
            assert(front[k] == lines[k]);
        }
        lemma_later_label_wins(labels, front, j);
        assert(lines.last() == lines[lines.len() - 1]);
    }
}

/// A line that gives no label changes nothing, wherever it stands among
/// the lines.
pub proof fn lemma_bad_line_skipped(
    labels: Map<u64, Seq<char>>,
    before: Seq<Seq<u8>>,
    line: Seq<u8>,
    after: Seq<Seq<u8>>,
)
    requires
        line_entry(line) is None,
    ensures
        load_lines(labels, before + seq![line] + after) == load_lines(labels, before + after),
    decreases after.len(),
{
    let with = before + seq![line] + after;
    let without = before + after;
    if after.len() == 0 {
        assert(with.drop_last() =~= before);
        assert(without =~= before);
        assert(with.last() == line);
    } else {
        assert(with.drop_last() =~= before + seq![line] + after.drop_last());
        assert(without.drop_last() =~= before + after.drop_last());
        assert(with.last() == after.last());
        assert(without.last() == after.last());
        lemma_bad_line_skipped(labels, before, line, after.drop_last());
    }
}

/// A table of labels for hashes.
pub struct LabelTable {
    map: HashMap<u64, String>,
}

impl View for LabelTable {
    type V = Map<u64, Seq<char>>;

    closed spec fn view(&self) -> Map<u64, Seq<char>> {
        self.map@.map_values(|label: String| label@)
    }
}

/// Finds the first place at or after `from` that holds `byte`; the length
/// of `bytes` if there is none.
pub fn find_byte(bytes: &[u8], from: usize, byte: u8) -> (place: usize)
    requires
        from <= bytes@.len(),
    ensures
        from <= place <= bytes@.len(),
        place - from == first_index(bytes@.subrange(from as int, bytes@.len() as int), byte),
{
    let n: usize = bytes.len();
    let ghost rest = bytes@.subrange(from as int, n as int);
    let mut i: usize = from;
    while i < n
        invariant
            from <= i <= n,
            n == bytes@.len(),
            rest == bytes@.subrange(from as int, n as int),
            first_index(rest, byte) == first_index_from(rest, byte, i - from),
        decreases n - i,
    {
        assert(rest[i - from] == bytes@[i as int]);
        if bytes[i] == byte {
            return i;
        }
        i = i + 1;
    }
    n
}

impl LabelTable {
    /// A table without labels.
    pub fn new() -> (table: LabelTable)
        ensures
            table@ == Map::<u64, Seq<char>>::empty(),
    {
        let table = LabelTable { map: HashMap::new() };
        assert(table@ =~= Map::<u64, Seq<char>>::empty());
        table
    }

    /// Gives a hash a label; a label that the hash had before is replaced.
    pub fn insert(&mut self, hash: Hash40, label: String)
        ensures
            final(self)@ == old(self)@.insert(hash.0, label@),
    {
        broadcast use group_hash_axioms;

        self.map.insert(hash.0, label);
        assert(self@ =~= old(self)@.insert(hash.0, label@));
    }

    /// The label of a hash, if it has one.
    pub fn get(&self, hash: Hash40) -> (label: Option<&String>)
        ensures
            match label {
                Some(text) => self@.contains_key(hash.0) && self@[hash.0] == text@,
                None => !self@.contains_key(hash.0),
            },
    {
        broadcast use group_hash_axioms;

        self.map.get(&hash.0)
    }

    /// Takes one line into the table, or passes over it.
    pub fn load_line(&mut self, line: &[u8])
        ensures
            final(self)@ == apply_line(old(self)@, line@),
    {
        let n: usize = line.len();
        let comma: usize = find_byte(line, 0, COMMA);
        assert(line@.subrange(0, n as int) =~= line@);
        if comma >= n {
            return;
        }
        match parse_hex_bytes(slice_subrange(line, 0, comma)) {
            Err(_) => {},
            Ok(hash) => {
                let raw: Vec<u8> = slice_to_vec(slice_subrange(line, comma + 1, n));
                match string_from_utf8(raw) {
                    None => {},
                    Some(label) => {
                        self.insert(hash, label);
                    },
                }
            },
        }
    }

    /// Takes the lines into the table, from first to last.
    pub fn load(&mut self, lines: &Vec<String>)
        ensures
            final(self)@ == load_lines(old(self)@, lines_of(lines@)),
    {
        let n: usize = lines.len();
        let ghost all = lines_of(lines@);
        let mut i: usize = 0;
        assert(all.subrange(0, 0) =~= Seq::<Seq<u8>>::empty());
        while i < n
            invariant
                i <= n,
                n == lines@.len(),
                all == lines_of(lines@),
                self@ == load_lines(old(self)@, all.subrange(0, i as int)),
            decreases n - i,
        {
            assert(all.subrange(0, i + 1).drop_last() =~= all.subrange(0, i as int));
            assert(all.subrange(0, i + 1).last() == encode_utf8(lines@[i as int]@));
            self.load_line(lines[i].as_str().as_bytes());
            i = i + 1;
        }
        assert(all.subrange(0, n as int) =~= all);
    }
}

/// The text that stands for a hash: its label if it has one, otherwise
/// `0x` and its ten hexadecimal digits.
pub open spec fn display_text(hash: Hash40, labels: Map<u64, Seq<char>>) -> Seq<char> {
    if labels.contains_key(hash.0) {
        labels[hash.0]
    } else {
        hex_text(hash.0)
    }
}

impl Hash40 {
    /// The text that stands for the hash: its label if the table has one,
    /// otherwise `0x` and its ten hexadecimal digits in lower case.
    pub fn to_display_string(&self, table: &LabelTable) -> (text: String)
        ensures
            text@ == display_text(*self, table@),
    {
        match table.get(*self) {
            Some(label) => label.clone(),
            None => self.to_hex_string(),
        }
    }
}

/// Takes the lines of a text into the table.
///
/// A line that gives no label is passed over; nothing is reported, and the
/// lines around it are taken as if it were not there.
pub fn load_labels(table: &mut LabelTable, text: &str)
    ensures
        final(table)@ == load_lines(old(table)@, split_lines(text.spec_bytes())),
{
    let bytes: &[u8] = text.as_bytes();
    let n: usize = bytes.len();
    let mut at: usize = 0;
    assert(bytes@.subrange(0, n as int) =~= bytes@);
    while at < n
        invariant
            at <= n,
            n == bytes@.len(),
            load_lines(old(table)@, split_lines(bytes@)) == load_lines(
                table@,
                split_lines(bytes@.subrange(at as int, n as int)),
            ),
        decreases n - at,
    {
        let ghost rest = bytes@.subrange(at as int, n as int);
        let end: usize = find_byte(bytes, at, NEWLINE);
        let stop: usize = if end > at && bytes[end - 1] == CARRIAGE_RETURN {
            end - 1
        } else {
            end
        };
        let line: &[u8] = slice_subrange(bytes, at, stop);
        proof {
            let whole = if end >= n {
                rest
            } else {
                rest.subrange(0, end - at)
            };
            assert(whole =~= bytes@.subrange(at as int, end as int));
            assert(line@ =~= strip_cr(whole));
            if end < n {
                assert(rest.subrange(end - at + 1, rest.len() as int) =~= bytes@.subrange(
                    end + 1,
                    n as int,
                ));
                lemma_load_first(
                    table@,
                    line@,
                    split_lines(bytes@.subrange(end + 1, n as int)),
                );
            } else {
                lemma_load_first(table@, line@, Seq::<Seq<u8>>::empty());
                assert(seq![line@] + Seq::<Seq<u8>>::empty() =~= seq![line@]);
            }
        }
        table.load_line(line);
        if end >= n {
            at = n;
            assert(bytes@.subrange(n as int, n as int) =~= Seq::<u8>::empty());
        } else {
            at = end + 1;
        }
    }
    assert(bytes@.subrange(n as int, n as int) =~= Seq::<u8>::empty());
}

} // verus!
