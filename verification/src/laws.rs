//! What holds of every table, every index and every query: the laws that
//! relate selection through an index, selection by a scan, and the result of
//! a query.

use crate::index::{
    indexes, is_sorted, lemma_index_covers_rows, lemma_sorted_by_value, rows_of_entries, Entry,
    IndexedTableView,
};
use crate::query::{FilterType, QueryView};
use crate::query_engine::{
    above, admits, all_rows, bisect, equal_selection, execute_outcome, first_missing,
    greater_selection, index_selection, lemma_bisect_hits, lemma_run_end, lemma_run_start,
    lemma_selection_from_index, positions_of, projection, row_test, run_end, run_start,
    scan_selection, selected_rows,
};
use crate::table::TableView;
use crate::value::{lemma_unordered_is_equal, Datum};
use vstd::prelude::*;

verus! {

/// A scan selects exactly the rows whose field in the column passes the
/// filter, and it selects them in table order, so none of them twice.
pub proof fn lemma_scan_selects_matching_rows(t: TableView, c: int, op: FilterType, value: Datum)
    ensures
        forall|r: int|
            #[trigger] scan_selection(t, c, op, value).contains(r) <==> 0 <= r < t.rows.len()
                && admits(op, value, t.rows[r][c]),
        forall|i: int, j: int|
            0 <= i < j < scan_selection(t, c, op, value).len() ==> #[trigger] scan_selection(
                t,
                c,
                op,
                value,
            )[i] < #[trigger] scan_selection(t, c, op, value)[j],
        scan_selection(t, c, op, value).no_duplicates(),
{
    let test = row_test(t, c, op, value);
    let rows = all_rows(t.rows.len());
    let kept = rows.filter(test);
    lemma_filtered_rows_ascend(t.rows.len(), test);
    assert forall|r: int| #[trigger] kept.contains(r) <==> 0 <= r < t.rows.len() && admits(
        op,
        value,
        t.rows[r][c],
    ) by {
        if kept.contains(r) {
            let i = choose|i: int| 0 <= i < kept.len() && kept[i] == r;
            rows.lemma_filter_pred(test, i);
            rows.lemma_filter_contains_rev(test, r);
        }
        if 0 <= r < t.rows.len() && admits(op, value, t.rows[r][c]) {
            assert(rows[r] == r);
            rows.lemma_filter_contains(test, r);
        }
    }
}

/// The positions that a test keeps of the first `n` are in ascending order
/// and below `n`.
proof fn lemma_filtered_rows_ascend(n: nat, test: spec_fn(int) -> bool)
    ensures
        forall|i: int|
            0 <= i < all_rows(n).filter(test).len() ==> 0 <= #[trigger] all_rows(n).filter(
                test,
            )[i] < n,
        forall|i: int, j: int|
            0 <= i < j < all_rows(n).filter(test).len() ==> #[trigger] all_rows(n).filter(test)[i]
                < #[trigger] all_rows(n).filter(test)[j],
    decreases n,
{
    reveal(Seq::filter);
    let kept = all_rows(n).filter(test);
    if n > 0 {
        let shorter = all_rows((n - 1) as nat);
        let before = shorter.filter(test);
        assert(all_rows(n).drop_last() =~= shorter);
        assert(all_rows(n).last() == n - 1);
        lemma_filtered_rows_ascend((n - 1) as nat, test);
        assert(kept == if test(n - 1) {
            before.push(n - 1)
        } else {
            before
        });
        assert forall|i: int| 0 <= i < kept.len() implies 0 <= #[trigger] kept[i] < n by {
            if i < before.len() {
                assert(kept[i] == before[i]);
            }
        }
        assert forall|i: int, j: int| 0 <= i < j < kept.len() implies #[trigger] kept[i]
            < #[trigger] kept[j] by {
            assert(kept[i] == before[i]);
            if j < before.len() {
                assert(kept[j] == before[j]);
            }
        }
    } else {
        assert(kept.len() == 0);
    }
}

/// Where no two entries name the same row, the rows of the entries that a
/// test keeps are all different.
proof fn lemma_filtered_rows_distinct(entries: Seq<Entry>, test: spec_fn(Entry) -> bool)
    requires
        rows_of_entries(entries).no_duplicates(),
    ensures
        rows_of_entries(entries.filter(test)).no_duplicates(),
    decreases entries.len(),
{
    reveal(Seq::filter);
    if entries.len() > 0 {
        let shorter = entries.drop_last();
        let kept = shorter.filter(test);
        assert forall|i: int, j: int|
            0 <= i < shorter.len() && 0 <= j < shorter.len() && i != j implies rows_of_entries(
            shorter,
        )[i] != rows_of_entries(shorter)[j] by {
            assert(rows_of_entries(entries)[i] == shorter[i].row);
            assert(rows_of_entries(entries)[j] == shorter[j].row);
        }
        lemma_filtered_rows_distinct(shorter, test);
        if test(entries.last()) {
            let all = rows_of_entries(kept.push(entries.last()));
            assert forall|i: int, j: int| 0 <= i < all.len() && 0 <= j < all.len() && i != j implies all[i]
                != all[j] by {
                let last = entries.len() - 1;
                if i < kept.len() && j < kept.len() {
                    assert(rows_of_entries(kept)[i] != rows_of_entries(kept)[j]);
                } else {
                    let inner = if i < kept.len() {
                        i
                    } else {
                        j
                    };
                    assert(kept.contains(kept[inner]));
                    shorter.lemma_filter_contains_rev(test, kept[inner]);
                    let k = choose|k: int| 0 <= k < shorter.len() && shorter[k] == kept[inner];
                    assert(rows_of_entries(entries)[k] == kept[inner].row);
                    assert(rows_of_entries(entries)[last] == entries.last().row);
                }
            }
        }
    }
}

/// In a sorted index, bisection meets an entry of a value wherever the
/// index holds that value between the bounds.
pub proof fn lemma_bisect_finds(entries: Seq<Entry>, value: Datum, low: int, high: int, k: int)
    requires
        is_sorted(entries),
        0 <= low <= k < high <= entries.len(),
        entries[k].value == value,
    ensures
        bisect(entries, value, low, high) is Some,
    decreases high - low,
{
    let middle = low + (high - low) / 2;
    if entries[middle].value.precedes(value) {
        if k <= middle {
            lemma_sorted_by_value(entries, k, middle);
        }
        lemma_bisect_finds(entries, value, middle + 1, high, k);
    } else if value.precedes(entries[middle].value) {
        if k >= middle {
            lemma_sorted_by_value(entries, middle, k);
        }
        lemma_bisect_finds(entries, value, low, middle, k);
    }
}

/// In a sorted index, the run of equal entries around a place that holds
/// the value holds every entry of that value.
pub proof fn lemma_run_holds_all(entries: Seq<Entry>, value: Datum, hit: int, k: int)
    requires
        is_sorted(entries),
        0 <= hit < entries.len(),
        0 <= k < entries.len(),
        entries[hit].value == value,
        entries[k].value == value,
    ensures
        run_start(entries, value, hit) <= k < run_end(entries, value, hit),
{
    let start = run_start(entries, value, hit);
    let end = run_end(entries, value, hit);
    lemma_run_start(entries, value, hit);
    lemma_run_end(entries, value, hit);
    if k < start {
        lemma_sorted_by_value(entries, k, start - 1);
        lemma_sorted_by_value(entries, start - 1, hit);
        lemma_unordered_is_equal(entries[start - 1].value, value);
    }
    if k >= end {
        lemma_sorted_by_value(entries, hit, end);
        lemma_sorted_by_value(entries, end, k);
        lemma_unordered_is_equal(entries[end].value, value);
    }
}

/// The place in the index of the entry whose row stands at place `i` of
/// what an `Equal` filter selects, for a run from `start` around `hit`.
pub open spec fn place_of(start: int, hit: int, i: int) -> int {
    if i == 0 {
        hit
    } else if i <= hit - start {
        hit - i
    } else {
        start + i
    }
}

/// What an `Equal` filter selects is the run of equal entries, each entry
/// once: as long as the run, and at each place the row of the entry that
/// `place_of` names.
pub proof fn lemma_equal_selection_is_run(entries: Seq<Entry>, value: Datum)
    requires
        bisect(entries, value, 0, entries.len() as int) is Some,
    ensures
        ({
            let hit = bisect(entries, value, 0, entries.len() as int)->0;
            let start = run_start(entries, value, hit);
            let end = run_end(entries, value, hit);
            let selected = equal_selection(entries, value);
            &&& 0 <= start <= hit < end <= entries.len()
            &&& selected.len() == end - start
            &&& forall|i: int|
                0 <= i < selected.len() ==> start <= place_of(start, hit, i) < end
                    && #[trigger] selected[i] == entries[place_of(start, hit, i)].row
        }),
{
    let hit = bisect(entries, value, 0, entries.len() as int)->0;
    lemma_bisect_hits(entries, value, 0, entries.len() as int);
    let start = run_start(entries, value, hit);
    let end = run_end(entries, value, hit);
    lemma_run_start(entries, value, hit);
    lemma_run_end(entries, value, hit);
    let left = rows_of_entries(entries.subrange(start, hit));
    let selected = equal_selection(entries, value);
    assert forall|i: int| 0 <= i < selected.len() implies start <= place_of(start, hit, i) < end
        && #[trigger] selected[i] == entries[place_of(start, hit, i)].row by {
        if 0 < i && i <= hit - start {
            assert(left.reverse()[i - 1] == left[left.len() - 1 - (i - 1)]);
        }
    }
}

/// An index selects exactly the rows whose field in the indexed column
/// passes the filter, and none of them twice.
pub proof fn lemma_index_selects_matching_rows(
    entries: Seq<Entry>,
    t: TableView,
    c: int,
    op: FilterType,
    value: Datum,
)
    requires
        indexes(entries, t, c),
    ensures
        forall|r: int|
            #[trigger] index_selection(entries, op, value).contains(r) <==> 0 <= r < t.rows.len()
                && admits(op, value, t.rows[r][c]),
        index_selection(entries, op, value).no_duplicates(),
{
    let selected = index_selection(entries, op, value);
    let rows = rows_of_entries(entries);
    lemma_index_covers_rows(entries, t, c);
    assert forall|r: int| #[trigger] selected.contains(r) <==> 0 <= r < t.rows.len() && admits(
        op,
        value,
        t.rows[r][c],
    ) by {
        if selected.contains(r) {
            let i = choose|i: int| 0 <= i < selected.len() && selected[i] == r;
            lemma_selection_from_index(entries, op, value, i);
        }
        if 0 <= r < t.rows.len() && admits(op, value, t.rows[r][c]) {
            assert(rows.contains(r));
            let k = choose|k: int| 0 <= k < rows.len() && rows[k] == r;
            assert(entries[k].row == r);
            match op {
                FilterType::Greater => {
                    entries.lemma_filter_contains(above(value), k);
                    let kept = entries.filter(above(value));
                    let j = choose|j: int| 0 <= j < kept.len() && kept[j] == entries[k];
                    assert(greater_selection(entries, value)[j] == r);
                },
                FilterType::Equal => {
                    lemma_bisect_finds(entries, value, 0, entries.len() as int, k);
                    let hit = bisect(entries, value, 0, entries.len() as int)->0;
                    lemma_bisect_hits(entries, value, 0, entries.len() as int);
                    lemma_run_holds_all(entries, value, hit, k);
                    lemma_equal_selection_is_run(entries, value);
                    let start = run_start(entries, value, hit);
                    let i = if k == hit {
                        0
                    } else if k < hit {
                        hit - k
                    } else {
                        k - start
                    };
                    assert(place_of(start, hit, i) == k);
                    assert(selected[i] == r);
                },
            }
        }
    }
    match op {
        FilterType::Greater => {
            lemma_filtered_rows_distinct(entries, above(value));
        },
        FilterType::Equal => {
            if bisect(entries, value, 0, entries.len() as int) is Some {
                lemma_equal_selection_is_run(entries, value);
                let hit = bisect(entries, value, 0, entries.len() as int)->0;
                let start = run_start(entries, value, hit);
                assert forall|i: int, j: int|
                    0 <= i < selected.len() && 0 <= j < selected.len() && i != j implies selected[i]
                    != selected[j] by {
                    let k = place_of(start, hit, i);
                    let l = place_of(start, hit, j);
                    assert(k != l);
                    assert(rows[k] == selected[i]);
                    assert(rows[l] == selected[j]);
                }
            }
        },
    }
}

/// The index of a column and a scan of the table select the same rows for
/// the same filter, each of them once; only the order may differ.
pub proof fn lemma_index_and_scan_agree(
    entries: Seq<Entry>,
    t: TableView,
    c: int,
    op: FilterType,
    value: Datum,
)
    requires
        indexes(entries, t, c),
    ensures
        index_selection(entries, op, value).to_set() == scan_selection(t, c, op, value).to_set(),
        index_selection(entries, op, value).no_duplicates(),
        scan_selection(t, c, op, value).no_duplicates(),
        index_selection(entries, op, value).len() == scan_selection(t, c, op, value).len(),
{
    let by_index = index_selection(entries, op, value);
    let by_scan = scan_selection(t, c, op, value);
    lemma_index_selects_matching_rows(entries, t, c, op, value);
    lemma_scan_selects_matching_rows(t, c, op, value);
    assert(by_index.to_set() =~= by_scan.to_set());
    by_index.unique_seq_to_set();
    by_scan.unique_seq_to_set();
}

/// Of the names that a query projects, `first_missing` is the first that is
/// no column of the table; it is `None` where every name is a column.
pub proof fn lemma_first_missing(t: TableView, names: Seq<Seq<char>>)
    ensures
        match first_missing(t, names) {
            Some(name) => exists|k: int|
                {
                    &&& 0 <= k < names.len()
                    &&& #[trigger] names[k] == name
                    &&& !t.column_names().contains(name)
                    &&& forall|j: int|
                        0 <= j < k ==> t.column_names().contains(#[trigger] names[j])
                },
            None => forall|k: int|
                0 <= k < names.len() ==> t.column_names().contains(#[trigger] names[k]),
        },
    decreases names.len(),
{
    if names.len() > 0 {
        let shorter = names.drop_last();
        lemma_first_missing(t, shorter);
        t.column_names().index_of_first_ensures(names.last());
        match first_missing(t, shorter) {
            Some(name) => {
                let k = choose|k: int|
                    {
                        &&& 0 <= k < shorter.len()
                        &&& #[trigger] shorter[k] == name
                        &&& !t.column_names().contains(name)
                        &&& forall|j: int|
                            0 <= j < k ==> t.column_names().contains(#[trigger] shorter[j])
                    };
                assert(names[k] == name);
                assert forall|j: int| 0 <= j < k implies t.column_names().contains(
                    #[trigger] names[j],
                ) by {
                    assert(names[j] == shorter[j]);
                }
            },
            None => {
                assert forall|j: int| 0 <= j < names.len() - 1 implies t.column_names().contains(
                    #[trigger] names[j],
                ) by {
                    assert(names[j] == shorter[j]);
                }
                if t.position_of(names.last()) is None {
                    assert(names[names.len() - 1] == names.last());
                }
            },
        }
    }
}

/// A query fails exactly where it names a column that the table does not
/// have, and the error names such a column: the filter's where that is
/// missing, else the first missing one of the projection. A filter that no
/// row passes is no failure.
pub proof fn lemma_execute_fails_on_unknown_column_only(q: QueryView, t: IndexedTableView)
    ensures
        execute_outcome(q, t) is Ok <==> (q.filter is Some ==> t.table.column_names().contains(
            q.filter->0.column_name,
        )) && (forall|k: int|
            0 <= k < q.column_names.len() ==> t.table.column_names().contains(
                #[trigger] q.column_names[k],
            )),
        execute_outcome(q, t) matches Err(name) ==> !t.table.column_names().contains(name) && (
        (q.filter is Some && q.filter->0.column_name == name) || q.column_names.contains(name)),
{
    lemma_first_missing(t.table, q.column_names);
    if q.filter is Some {
        t.table.column_names().index_of_first_ensures(q.filter->0.column_name);
    }
}

/// A query with a filter returns the projection of exactly the rows whose
/// field in the filter's column passes the filter, each row once.
pub proof fn lemma_execute_returns_matching_rows(q: QueryView, t: IndexedTableView)
    requires
        t.well_formed(),
        q.filter is Some,
        execute_outcome(q, t) is Ok,
    ensures
        ({
            let f = q.filter->0;
            let c = t.table.position_of(f.column_name)->0;
            let rows = selected_rows(t, q.filter)->0;
            &&& t.table.position_of(f.column_name) is Some
            &&& 0 <= c < t.table.columns.len()
            &&& execute_outcome(q, t)->Ok_0 == projection(
                t.table,
                rows,
                positions_of(t.table, q.column_names),
            )
            &&& rows.no_duplicates()
            &&& forall|r: int|
                #[trigger] rows.contains(r) <==> 0 <= r < t.table.rows.len() && admits(
                    f.filter_type,
                    f.value,
                    t.table.rows[r][c],
                )
        }),
{
    let f = q.filter->0;
    t.table.column_names().index_of_first_ensures(f.column_name);
    let c = t.table.position_of(f.column_name)->0;
    lemma_index_selects_matching_rows(t.indices[c].entries, t.table, c, f.filter_type, f.value);
}

/// A query without a filter, on columns that the table has, returns all
/// rows in table order, each with the values of the named columns in the
/// order of the names.
pub proof fn lemma_execute_without_filter(q: QueryView, t: IndexedTableView)
    requires
        q.filter is None,
        first_missing(t.table, q.column_names) is None,
    ensures
        execute_outcome(q, t) is Ok,
        execute_outcome(q, t)->Ok_0.len() == t.table.rows.len(),
        forall|r: int|
            0 <= r < t.table.rows.len() ==> (#[trigger] execute_outcome(q, t)->Ok_0[r]).len()
                == q.column_names.len(),
        forall|r: int, k: int|
            0 <= r < t.table.rows.len() && 0 <= k < q.column_names.len() ==> #[trigger] execute_outcome(
                q,
                t,
            )->Ok_0[r][k] == t.table.rows[r][t.table.position_of(q.column_names[k])->0],
{
}

/// A query whose filter no row passes returns the empty result.
pub proof fn lemma_execute_with_no_match(q: QueryView, t: IndexedTableView)
    requires
        t.well_formed(),
        q.filter is Some,
        execute_outcome(q, t) is Ok,
        forall|r: int|
            0 <= r < t.table.rows.len() ==> !admits(
                q.filter->0.filter_type,
                q.filter->0.value,
                (#[trigger] t.table.rows[r])[t.table.position_of(q.filter->0.column_name)->0],
            ),
    ensures
        execute_outcome(q, t)->Ok_0 == Seq::<Seq<Datum>>::empty(),
{
    lemma_execute_returns_matching_rows(q, t);
    let rows = selected_rows(t, q.filter)->0;
    if rows.len() > 0 {
        assert(rows.contains(rows[0]));
    }
    assert(execute_outcome(q, t)->Ok_0 =~= Seq::<Seq<Datum>>::empty());
}

} // verus!
