//! The transition table as a list of rows.

use crate::fsa::nfa::Lable;
use vstd::prelude::*;

verus! {

/// Every key has a target at least, and none twice.
pub open spec fn tidy_table(table: Map<(usize, Lable), Seq<usize>>) -> bool {
    forall|key: (usize, Lable)| #[trigger]
        table.dom().contains(key) ==> table[key].len() > 0 && table[key].no_duplicates()
}

/// The table that a list of rows stands for: read in order, a later row
/// replaces an earlier one with the same key.
pub open spec fn table_of(rows: Seq<((usize, Lable), Vec<usize>)>) -> Map<(usize, Lable), Seq<usize>>
    decreases rows.len(),
{
    if rows.len() == 0 {
        Map::empty()
    } else {
        table_of(rows.drop_last()).insert(rows.last().0, rows.last().1@)
    }
}

/// A key that no row has is not in the table.
pub proof fn lemma_table_absent(rows: Seq<((usize, Lable), Vec<usize>)>, key: (usize, Lable))
    requires
        forall|j: int| 0 <= j < rows.len() ==> rows[j].0 != key,
    ensures
        !table_of(rows).dom().contains(key),
    decreases rows.len(),
{
    if rows.len() > 0 {
        lemma_table_absent(rows.drop_last(), key);
    }
}

/// The last row with a key gives the key's targets.
pub proof fn lemma_table_last(rows: Seq<((usize, Lable), Vec<usize>)>, i: int, key: (usize, Lable))
    requires
        0 <= i < rows.len(),
        rows[i].0 == key,
        forall|j: int| i < j < rows.len() ==> rows[j].0 != key,
    ensures
        table_of(rows).dom().contains(key),
        table_of(rows)[key] == rows[i].1@,
    decreases rows.len(),
{
    if i < rows.len() - 1 {
        lemma_table_last(rows.drop_last(), i, key);
    }
}

/// New targets in the last row with a key are new targets for the key in
/// the table.
pub proof fn lemma_table_update(rows: Seq<((usize, Lable), Vec<usize>)>, i: int, row: ((usize, Lable), Vec<usize>))
    requires
        0 <= i < rows.len(),
        rows[i].0 == row.0,
        forall|j: int| i < j < rows.len() ==> rows[j].0 != row.0,
    ensures
        table_of(rows.update(i, row)) =~= table_of(rows).insert(row.0, row.1@),
    decreases rows.len(),
{
    let updated = rows.update(i, row);
    if i < rows.len() - 1 {
        lemma_table_update(rows.drop_last(), i, row);
        assert(updated.drop_last() =~= rows.drop_last().update(i, row));
    } else {
        assert(updated.drop_last() =~= rows.drop_last());
    }
}

/// The table of two lists of rows, one after the other, is the table of the
/// first with that of the second laid over it.
pub proof fn lemma_table_concat(a: Seq<((usize, Lable), Vec<usize>)>, b: Seq<((usize, Lable), Vec<usize>)>)
    ensures
        table_of(a + b) =~= table_of(a).union_prefer_right(table_of(b)),
    decreases b.len(),
{
    if b.len() == 0 {
        assert(a + b =~= a);
    } else {
        lemma_table_concat(a, b.drop_last());
        assert((a + b).drop_last() =~= a + b.drop_last());
    }
}

/// Every row has a target at least, and none twice.
pub open spec fn tidy_rows(rows: Seq<((usize, Lable), Vec<usize>)>) -> bool {
    forall|i: int|
        0 <= i < rows.len() ==> (#[trigger] rows[i]).1@.len() > 0 && rows[i].1@.no_duplicates()
}

/// Tidy rows make a tidy table.
pub proof fn lemma_table_tidy(rows: Seq<((usize, Lable), Vec<usize>)>)
    requires
        tidy_rows(rows),
    ensures
        tidy_table(table_of(rows)),
    decreases rows.len(),
{
    if rows.len() > 0 {
        assert(tidy_rows(rows.drop_last())) by {
            assert forall|i: int| 0 <= i < rows.drop_last().len() implies (
            #[trigger] rows.drop_last()[i]).1@.len() > 0 && rows.drop_last()[i].1@.no_duplicates() by {
                assert(rows.drop_last()[i] == rows[i]);
            }
        }
        lemma_table_tidy(rows.drop_last());
        let last = rows.last();
        assert(last == rows[rows.len() - 1]);
    }
}

/// A tidy row more leaves the rows tidy.
pub proof fn lemma_tidy_push(rows: Seq<((usize, Lable), Vec<usize>)>, row: ((usize, Lable), Vec<usize>))
    requires
        tidy_rows(rows),
        row.1@.len() > 0,
        row.1@.no_duplicates(),
    ensures
        tidy_rows(rows.push(row)),
{
    assert forall|i: int| 0 <= i < rows.push(row).len() implies (#[trigger] rows.push(
        row,
    )[i]).1@.len() > 0 && rows.push(row)[i].1@.no_duplicates() by {
        if i < rows.len() {
            assert(rows.push(row)[i] == rows[i]);
        }
    }
}

/// Tidy rows after tidy rows are tidy rows.
pub proof fn lemma_tidy_concat(a: Seq<((usize, Lable), Vec<usize>)>, b: Seq<((usize, Lable), Vec<usize>)>)
    requires
        tidy_rows(a),
        tidy_rows(b),
    ensures
        tidy_rows(a + b),
{
    assert forall|i: int| 0 <= i < (a + b).len() implies (#[trigger] (a + b)[i]).1@.len() > 0 && (a
        + b)[i].1@.no_duplicates() by {
        if i < a.len() {
            assert((a + b)[i] == a[i]);
        } else {
            assert((a + b)[i] == b[i - a.len()]);
        }
    }
}

} // verus!
