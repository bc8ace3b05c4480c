//! The two tables of an encoded tree, and facts about tables without
//! repeats and about finding an item in one.
use vstd::prelude::*;
use vstd::string::*;
use crate::format::{absorb, first_index, first_index_from};
use crate::hash40::Hash40;

verus! {

/// The key lists of a table, each as a sequence.
pub open spec fn layouts_view(table: Seq<Vec<Hash40>>) -> Seq<Seq<Hash40>> {
    Seq::new(table.len(), |i: int| table[i]@)
}

/// The strings of a table, each as a sequence of characters.
pub open spec fn strings_view(table: Seq<String>) -> Seq<Seq<char>> {
    Seq::new(table.len(), |i: int| table[i]@)
}

/// After taking items into a table, the table holds each of them.
pub proof fn lemma_absorb_holds_items<T>(table: Seq<T>, items: Seq<T>)
    ensures
        forall|j: int| 0 <= j < items.len() ==> absorb(table, items).contains(#[trigger] items[j]),
    decreases items.len(),
{
    if items.len() > 0 {
        let front = items.drop_last();
        let before = absorb(table, front);
        let after = absorb(table, items);
        lemma_absorb_holds_items(table, front);
        assert forall|j: int| 0 <= j < items.len() implies after.contains(#[trigger] items[j]) by {
            if j < front.len() {
                assert(before.contains(front[j]));
                let k = choose|k: int| 0 <= k < before.len() && before[k] == front[j];
                assert(after[k] == items[j]);
            } else {
                if before.contains(items.last()) {
                } else {
                    assert(after[before.len() as int] == items[j]);
                }
            }
        }
    }
}

/// A table made by taking items holds nothing but what it held before and
/// those items.
pub proof fn lemma_absorb_holds_only<T>(table: Seq<T>, items: Seq<T>)
    ensures
        forall|i: int|
            0 <= i < absorb(table, items).len() ==> table.contains(
                #[trigger] absorb(table, items)[i],
            ) || items.contains(absorb(table, items)[i]),
    decreases items.len(),
{
    if items.len() > 0 {
        let front = items.drop_last();
        let before = absorb(table, front);
        let after = absorb(table, items);
        lemma_absorb_holds_only(table, front);
        assert forall|i: int| 0 <= i < after.len() implies table.contains(#[trigger] after[i])
            || items.contains(after[i]) by {
            if i < before.len() {
                assert(after[i] == before[i]);
                if !table.contains(before[i]) {
                    assert(front.contains(before[i]));
                    let k = choose|k: int| 0 <= k < front.len() && front[k] == before[i];
                    assert(items[k] == after[i]);
                }
            } else {
                assert(after[i] == items[items.len() - 1]);
            }
        }
    }
}

/// Taking items into a table that holds nothing twice gives a table that
/// holds nothing twice.
pub proof fn lemma_absorb_no_repeats<T>(table: Seq<T>, items: Seq<T>)
    requires
        table.no_duplicates(),
    ensures
        absorb(table, items).no_duplicates(),
    decreases items.len(),
{
    if items.len() > 0 {
        lemma_absorb_no_repeats(table, items.drop_last());
        let before = absorb(table, items.drop_last());
        let after = absorb(table, items);
        if !before.contains(items.last()) {
            assert forall|i: int, j: int| 0 <= i < after.len() && 0 <= j < after.len() && i
                != j implies after[i] != after[j] by {
                if i < before.len() && j < before.len() {
                    assert(before[i] != before[j]);
                } else if i < before.len() {
                    assert(before.contains(before[i]));
                } else {
                    assert(before.contains(before[j]));
                }
            }
        }
    }
}

/// Taking two runs of items one after the other is taking their
/// concatenation.
pub proof fn lemma_absorb_concat<T>(table: Seq<T>, a: Seq<T>, b: Seq<T>)
    ensures
        absorb(table, a + b) == absorb(absorb(table, a), b),
    decreases b.len(),
{
    if b.len() == 0 {
        assert(a + b =~= a);
    } else {
        assert((a + b).drop_last() =~= a + b.drop_last());
        assert((a + b).last() == b.last());
        lemma_absorb_concat(table, a, b.drop_last());
    }
}

/// Searching from `from` finds the first place at or after it that holds `x`.
pub proof fn lemma_first_index_from<T>(table: Seq<T>, x: T, from: int)
    requires
        0 <= from,
    ensures
        from <= first_index_from(table, x, from) || table.len() <= first_index_from(
            table,
            x,
            from,
        ),
        first_index_from(table, x, from) <= table.len() || from > table.len(),
        first_index_from(table, x, from) < table.len() ==> table[first_index_from(table, x, from)]
            == x,
        forall|k: int| from <= k < first_index_from(table, x, from) && k < table.len() ==> table[k] != x,
    decreases table.len() - from,
{
    if from < table.len() && table[from] != x {
        lemma_first_index_from(table, x, from + 1);
    }
}

/// An item that a table holds is found in it, at a place that holds it.
pub proof fn lemma_first_index_found<T>(table: Seq<T>, x: T)
    requires
        table.contains(x),
    ensures
        0 <= first_index(table, x) < table.len(),
        table[first_index(table, x)] == x,
{
    lemma_first_index_from(table, x, 0);
    let k = choose|k: int| 0 <= k < table.len() && table[k] == x;
    if first_index(table, x) >= table.len() {
        assert(table[k] != x);
    }
}

/// Taking one item into a table adds it at the end, unless the table holds
/// it; and the table holds it exactly when the search for it ends inside
/// the table.
pub proof fn lemma_absorb_one<T>(table: Seq<T>, x: T)
    ensures
        table.contains(x) <==> first_index(table, x) < table.len(),
        absorb(table, seq![x]) == if first_index(table, x) < table.len() {
            table
        } else {
            table.push(x)
        },
{
    lemma_first_index_from(table, x, 0);
    if table.contains(x) {
        lemma_first_index_found(table, x);
    }
    let one = seq![x];
    assert(one.drop_last() =~= Seq::<T>::empty());
    assert(absorb(table, one.drop_last()) == table);
    assert(one.last() == x);
}

} // verus!
