//! Query execution: selects the rows that a filter admits, through the
//! sorted index of the filter's column or by a scan of the table, and
//! projects them to the columns asked for.

use crate::index::{
    entries_of, is_sorted, lemma_sorted_by_value, rows_of_entries, Entry, Index, IndexedTable,
    IndexedTableView,
};
use crate::query::{Filter, FilterType, FilterView, Query, QueryView};
use crate::table::{ColumnNotFound, TableView};
use crate::text::{joined, texts_of};
use crate::value::{
    display_text, lemma_precedes_asymmetric, lemma_precedes_irreflexive, lemma_precedes_total,
    lemma_precedes_transitive, Datum, Place, Value,
};
use vstd::prelude::*;
use vstd::string::StringExecFns;

verus! {

/// One row of a result: the values of the projected columns, in the order
/// in which the query names them.
#[derive(Debug, PartialEq)]
pub struct ResultSetRow {
    pub fields: Vec<Value>,
}

impl View for ResultSetRow {
    type V = Seq<Datum>;

    open spec fn view(&self) -> Seq<Datum> {
        self.fields@.map_values(|v: Value| v@)
    }
}

/// The result of a query: the projected rows, in the order of selection.
#[derive(Debug, PartialEq)]
pub struct ResultSet {
    pub rows: Vec<ResultSetRow>,
}

impl View for ResultSet {
    type V = Seq<Seq<Datum>>;

    open spec fn view(&self) -> Seq<Seq<Datum>> {
        self.rows@.map_values(|r: ResultSetRow| r@)
    }
}

/// The texts of `values` as they are shown, in their order.
pub open spec fn shown(values: Seq<Datum>) -> Seq<Seq<char>> {
    values.map_values(|d: Datum| display_text(d))
}

/// How a row of a result is shown: its values, with a comma between
/// neighbours.
pub open spec fn row_text(values: Seq<Datum>) -> Seq<char> {
    joined(shown(values), ","@)
}

impl ResultSetRow {
    /// The row as one line: its values as they are shown, separated by
    /// commas.
    pub fn display(&self) -> (s: String)
        ensures
            s@ == row_text(self@),
    {
        let mut s = String::new();
        let ghost all = shown(self@);
        let mut i: usize = 0;
        assert(s@ =~= joined(all.subrange(0, 0), ","@));
        while i < self.fields.len()
            invariant
                0 <= i <= self.fields.len(),
                all == shown(self@),
                s@ == joined(all.subrange(0, i as int), ","@),
            decreases self.fields.len() - i,
        {
            let ghost before = all.subrange(0, i as int);
            let ghost after = all.subrange(0, i + 1);
            let ghost text = s@;
            assert(after.drop_last() =~= before);
            assert(after.last() == display_text(self.fields[i as int]@));
            if i > 0 {
                s.append(",");
            }
            self.fields[i].append_to(&mut s);
            proof {
                if i == 0 {
                    assert(text =~= Seq::<char>::empty());
                    assert(s@ =~= joined(after, ","@));
                } else {
                    assert(s@ =~= joined(after, ","@));
                }
            }
            i = i + 1;
        }
        assert(all.subrange(0, i as int) =~= all);
        s
    }
}

/// Whether a field passes a filter with operator `op` and value `value`.
pub open spec fn admits(op: FilterType, value: Datum, field: Datum) -> bool {
    match op {
        FilterType::Greater => value.precedes(field),
        FilterType::Equal => field == value,
    }
}

/// The row positions `0` up to `n`, in order.
pub open spec fn all_rows(n: nat) -> Seq<int> {
    Seq::new(n, |r: int| r)
}

/// The test that a scan makes of row `r`: whether its field in column `c`
/// passes the filter.
pub open spec fn row_test(t: TableView, c: int, op: FilterType, value: Datum) -> spec_fn(
    int,
) -> bool {
    |r: int| admits(op, value, t.rows[r][c])
}

/// What a scan selects: the positions of the rows whose field in column `c`
/// passes the filter, in table order.
pub open spec fn scan_selection(t: TableView, c: int, op: FilterType, value: Datum) -> Seq<int> {
    all_rows(t.rows.len()).filter(row_test(t, c, op, value))
}

/// The test of an index entry: whether its value is strictly greater than
/// `value`.
pub open spec fn above(value: Datum) -> spec_fn(Entry) -> bool {
    |e: Entry| value.precedes(e.value)
}

/// What an index selects for a `Greater` filter: the rows of the entries
/// whose value is strictly greater than `value`, in index order.
pub open spec fn greater_selection(entries: Seq<Entry>, value: Datum) -> Seq<int> {
    rows_of_entries(entries.filter(above(value)))
}

/// The place where bisection of `entries` between `low` and `high` meets an
/// entry of value `value`: the middle entry where it has that value, and
/// otherwise what bisection finds in the half where the value must lie.
pub open spec fn bisect(entries: Seq<Entry>, value: Datum, low: int, high: int) -> Option<int>
    decreases high - low,
{
    if low >= high {
        None
    } else {
        let middle = low + (high - low) / 2;
        if entries[middle].value.precedes(value) {
            bisect(entries, value, middle + 1, high)
        } else if value.precedes(entries[middle].value) {
            bisect(entries, value, low, middle)
        } else {
            Some(middle)
        }
    }
}

/// The first place of the run of entries of value `value` that `hit` lies
/// in.
pub open spec fn run_start(entries: Seq<Entry>, value: Datum, hit: int) -> int
    decreases hit,
{
    if hit > 0 && entries[hit - 1].value == value {
        run_start(entries, value, hit - 1)
    } else {
        hit
    }
}

/// The place behind the run of entries of value `value` that `hit` lies in.
pub open spec fn run_end(entries: Seq<Entry>, value: Datum, hit: int) -> int
    decreases entries.len() - hit,
{
    if hit + 1 < entries.len() && entries[hit + 1].value == value {
        run_end(entries, value, hit + 1)
    } else {
        hit + 1
    }
}

/// What an index selects for an `Equal` filter: nothing where bisection
/// meets no entry of that value; otherwise the row of the entry that it
/// meets, then the rows of the equal entries before it, nearest first, then
/// those of the equal entries after it.
pub open spec fn equal_selection(entries: Seq<Entry>, value: Datum) -> Seq<int> {
    match bisect(entries, value, 0, entries.len() as int) {
        None => Seq::empty(),
        Some(hit) => seq![entries[hit].row] + rows_of_entries(
            entries.subrange(run_start(entries, value, hit), hit),
        ).reverse() + rows_of_entries(entries.subrange(hit + 1, run_end(entries, value, hit))),
    }
}

/// What an index selects for a filter with operator `op` and value `value`.
pub open spec fn index_selection(entries: Seq<Entry>, op: FilterType, value: Datum) -> Seq<int> {
    match op {
        FilterType::Greater => greater_selection(entries, value),
        FilterType::Equal => equal_selection(entries, value),
    }
}

/// The row positions in `ids`, as integers.
pub open spec fn ids_of(ids: Seq<usize>) -> Seq<int> {
    ids.map_values(|i: usize| i as int)
}

/// The rows that a query selects: all rows in table order without a filter;
/// with one, what the index of the filter's column selects. `None` where
/// the table has no column of the filter's name.
pub open spec fn selected_rows(t: IndexedTableView, filter: Option<FilterView>) -> Option<
    Seq<int>,
> {
    match filter {
        None => Some(all_rows(t.table.rows.len())),
        Some(f) => match t.table.position_of(f.column_name) {
            None => None,
            Some(c) => Some(index_selection(t.indices[c].entries, f.filter_type, f.value)),
        },
    }
}

/// The first of `names` that is no column of `t`, if there is one.
pub open spec fn first_missing(t: TableView, names: Seq<Seq<char>>) -> Option<Seq<char>>
    decreases names.len(),
{
    if names.len() == 0 {
        None
    } else {
        match first_missing(t, names.drop_last()) {
            Some(name) => Some(name),
            None => if t.position_of(names.last()) is None {
                Some(names.last())
            } else {
                None
            },
        }
    }
}

/// The positions of the columns called `names`, in the order of the names.
pub open spec fn positions_of(t: TableView, names: Seq<Seq<char>>) -> Seq<int> {
    names.map_values(|name: Seq<char>| t.position_of(name)->0)
}

/// The rows `rows` of `t`, each reduced to the columns at `positions`, in
/// that order.
pub open spec fn projection(t: TableView, rows: Seq<int>, positions: Seq<int>) -> Seq<Seq<Datum>> {
    rows.map_values(|r: int| positions.map_values(|c: int| t.rows[r][c]))
}

/// What a query returns: the selected rows, projected to the columns that
/// the query names; or the name of the column that the table lacks, the
/// filter's column before the projected ones, these in their order.
pub open spec fn execute_outcome(q: QueryView, t: IndexedTableView) -> Result<
    Seq<Seq<Datum>>,
    Seq<char>,
> {
    match selected_rows(t, q.filter) {
        None => Err(q.filter->0.column_name),
        Some(rows) => match first_missing(t.table, q.column_names) {
            Some(name) => Err(name),
            None => Ok(projection(t.table, rows, positions_of(t.table, q.column_names))),
        },
    }
}

/// A value before one that is at most a third comes before the third.
proof fn lemma_precedes_then_at_most(a: Datum, b: Datum, c: Datum)
    requires
        a.precedes(b),
        b.at_most(c),
    ensures
        a.precedes(c),
{
    lemma_precedes_total(b, c);
    if b != c {
        lemma_precedes_transitive(a, b, c);
    }
}

/// Where a test fails on the first `k` elements and holds on all others,
/// the filter keeps exactly the elements from `k` on.
proof fn lemma_filter_keeps_suffix<A>(s: Seq<A>, test: spec_fn(A) -> bool, k: int)
    requires
        0 <= k <= s.len(),
        forall|i: int| 0 <= i < k ==> !test(#[trigger] s[i]),
        forall|i: int| k <= i < s.len() ==> test(#[trigger] s[i]),
    ensures
        s.filter(test) == s.skip(k),
    decreases s.len(),
{
    reveal(Seq::filter);
    if s.len() > 0 {
        let shorter = s.drop_last();
        if k == s.len() {
            lemma_filter_keeps_suffix(shorter, test, k - 1);
            assert(shorter.skip(k - 1) =~= s.skip(k));
        } else {
            lemma_filter_keeps_suffix(shorter, test, k);
            assert(shorter.skip(k).push(s.last()) =~= s.skip(k));
        }
    } else {
        assert(s.filter(test) =~= s.skip(k));
    }
}

/// The rows of the entries of `index` whose value is strictly greater than
/// `value`, in index order.
pub fn filter_using_index_greater_than<'a>(value: &Value, index: &Index<'a>) -> (row_ids: Vec<
    usize,
>)
    ensures
        ids_of(row_ids@) == greater_selection(index@.entries, value@),
{
    let entries = index.entries();
    let ghost all = entries_of(entries@);
    let mut low: usize = 0;
    let mut high: usize = entries.len();
    while low < high
        invariant
            0 <= low <= high <= entries.len(),
            all == entries_of(entries@),
            is_sorted(all),
            forall|k: int| 0 <= k < low ==> !value@.precedes((#[trigger] all[k]).value),
            forall|k: int| high <= k < all.len() ==> value@.precedes((#[trigger] all[k]).value),
        decreases high - low,
    {
        let middle = low + (high - low) / 2;
        if value.less_than(entries[middle].value) {
            proof {
                assert forall|k: int| middle <= k < all.len() implies value@.precedes(
                    (#[trigger] all[k]).value,
                ) by {
                    lemma_sorted_by_value(all, middle as int, k);
                    lemma_precedes_then_at_most(value@, all[middle as int].value, all[k].value);
                }
            }
            high = middle;
        } else {
            proof {
                assert forall|k: int| 0 <= k < middle + 1 implies !value@.precedes(
                    (#[trigger] all[k]).value,
                ) by {
                    lemma_sorted_by_value(all, k, middle as int);
                    if value@.precedes(all[k].value) {
                        lemma_precedes_then_at_most(value@, all[k].value, all[middle as int].value);
                    }
                }
            }
            low = middle + 1;
        }
    }
    proof {
        lemma_filter_keeps_suffix(all, above(value@), low as int);
    }
    let mut row_ids: Vec<usize> = Vec::new();
    let mut k: usize = low;
    while k < entries.len()
        invariant
            low <= k <= entries.len(),
            all == entries_of(entries@),
            ids_of(row_ids@) == rows_of_entries(all.subrange(low as int, k as int)),
        decreases entries.len() - k,
    {
        let ghost before = ids_of(row_ids@);
        row_ids.push(entries[k].row_index);
        assert(ids_of(row_ids@) =~= before.push(all[k as int].row));
        assert(rows_of_entries(all.subrange(low as int, k + 1)) =~= rows_of_entries(
            all.subrange(low as int, k as int),
        ).push(all[k as int].row));
        k = k + 1;
    }
    assert(all.subrange(low as int, k as int) =~= all.skip(low as int));
    row_ids
}

/// The rows of the entries of `index` whose value is `value`: first the row
/// of the entry that bisection meets, then the rows of the equal entries
/// before it, nearest first, then those of the equal entries after it.
pub fn filter_using_index_equal_to<'a>(value: &Value, index: &Index<'a>) -> (row_ids: Vec<usize>)
    ensures
        ids_of(row_ids@) == equal_selection(index@.entries, value@),
{
    let entries = index.entries();
    let ghost all = entries_of(entries@);
    let mut row_ids: Vec<usize> = Vec::new();
    let mut low: usize = 0;
    let mut high: usize = entries.len();
    let mut found: Option<usize> = None;
    while low < high && found.is_none()
        invariant
            0 <= low <= high <= entries.len(),
            all == entries_of(entries@),
            found is Some ==> found->0 < entries.len(),
            bisect(all, value@, 0, all.len() as int) == if found is Some {
                Some(found->0 as int)
            } else {
                bisect(all, value@, low as int, high as int)
            },
        decreases (if found is Some { 0int } else { 1int }), high - low,
    {
        let middle = low + (high - low) / 2;
        match entries[middle].value.place(value) {
            Place::Before => {
                low = middle + 1;
            },
            Place::After => {
                proof {
                    lemma_precedes_asymmetric(all[middle as int].value, value@);
                }
                high = middle;
            },
            Place::Same => {
                proof {
                    lemma_precedes_irreflexive(value@);
                }
                found = Some(middle);
            },
        }
    }
    let hit = match found {
        None => {
            assert(ids_of(row_ids@) =~= Seq::empty());
            return row_ids;
        },
        Some(hit) => hit,
    };
    row_ids.push(entries[hit].row_index);
    assert(ids_of(row_ids@) =~= seq![all[hit as int].row]);
    let mut first: usize = hit;
    assert(rows_of_entries(all.subrange(first as int, hit as int)).reverse() =~= Seq::empty());
    while first > 0 && *entries[first - 1].value == *value
        invariant
            0 <= first <= hit < entries.len(),
            all == entries_of(entries@),
            run_start(all, value@, hit as int) == run_start(all, value@, first as int),
            ids_of(row_ids@) == seq![all[hit as int].row] + rows_of_entries(
                all.subrange(first as int, hit as int),
            ).reverse(),
        decreases first,
    {
        let ghost before = ids_of(row_ids@);
        let ghost run = rows_of_entries(all.subrange(first as int, hit as int));
        first = first - 1;
        row_ids.push(entries[first].row_index);
        proof {
            let longer = rows_of_entries(all.subrange(first as int, hit as int));
            assert(ids_of(row_ids@) =~= before.push(all[first as int].row));
            assert(longer =~= seq![all[first as int].row] + run);
            assert(longer.reverse() =~= run.reverse().push(all[first as int].row));
        }
    }
    let ghost left = ids_of(row_ids@);
    let mut last: usize = hit;
    assert(rows_of_entries(all.subrange(hit + 1, last + 1)) =~= Seq::empty());
    assert(ids_of(row_ids@) =~= left + rows_of_entries(all.subrange(hit + 1, last + 1)));
    while last + 1 < entries.len() && *entries[last + 1].value == *value
        invariant
            hit <= last < entries.len(),
            all == entries_of(entries@),
            run_end(all, value@, hit as int) == run_end(all, value@, last as int),
            ids_of(row_ids@) == left + rows_of_entries(all.subrange(hit + 1, last + 1)),
        decreases entries.len() - last,
    {
        let ghost before = ids_of(row_ids@);
        let ghost run = rows_of_entries(all.subrange(hit + 1, last + 1));
        last = last + 1;
        row_ids.push(entries[last].row_index);
        proof {
            assert(ids_of(row_ids@) =~= before.push(all[last as int].row));
            assert(rows_of_entries(all.subrange(hit + 1, last + 1)) =~= run.push(
                all[last as int].row,
            ));
        }
    }
    row_ids
}

/// The rows that `index` selects for `filter`.
pub fn filter_using_index<'a>(filter: &Filter, index: &Index<'a>) -> (row_ids: Vec<usize>)
    ensures
        ids_of(row_ids@) == index_selection(
            index@.entries,
            filter@.filter_type,
            filter@.value,
        ),
{
    match filter.filter_type {
        FilterType::Greater => filter_using_index_greater_than(&filter.value, index),
        FilterType::Equal => filter_using_index_equal_to(&filter.value, index),
    }
}

/// The rows that pass `filter`, found by a scan of the table, in table
/// order; or the error that tells that the table has no such column.
pub fn filter_by_scanning<'a>(table: &IndexedTable<'a>, filter: &Filter) -> (r: Result<
    Vec<usize>,
    ColumnNotFound,
>)
    ensures
        match r {
            Ok(row_ids) => {
                &&& table@.table.position_of(filter@.column_name) is Some
                &&& ids_of(row_ids@) == scan_selection(
                    table@.table,
                    table@.table.position_of(filter@.column_name)->0,
                    filter@.filter_type,
                    filter@.value,
                )
            },
            Err(e) => {
                &&& table@.table.position_of(filter@.column_name) is None
                &&& e.name@ == filter@.column_name
                &&& texts_of(e.available_columns@) == table@.table.column_names()
            },
        },
{
    let underlying = table.underlying();
    let column_position = match underlying.find_column_position(&filter.column_name) {
        Ok(position) => position,
        Err(e) => {
            return Err(e);
        },
    };
    proof {
        crate::table::names_of(underlying@.columns).index_of_first_ensures(filter@.column_name);
    }
    let ghost t = underlying@;
    let ghost test = row_test(t, column_position as int, filter@.filter_type, filter@.value);
    let ghost rows = all_rows(t.rows.len());
    let mut row_ids: Vec<usize> = Vec::new();
    let count = underlying.row_count();
    let mut row_id: usize = 0;
    proof {
        reveal(Seq::filter);
        assert(rows.subrange(0, 0).filter(test) =~= Seq::empty());
    }
    while row_id < count
        invariant
            0 <= row_id <= count,
            count == t.rows.len(),
            t == underlying@,
            column_position < t.columns.len(),
            rows == all_rows(t.rows.len()),
            test == row_test(t, column_position as int, filter@.filter_type, filter@.value),
            ids_of(row_ids@) == rows.subrange(0, row_id as int).filter(test),
        decreases count - row_id,
    {
        let field = underlying.field(row_id, column_position);
        let is_row_matched_by_filter = match filter.filter_type {
            FilterType::Greater => field.greater_than(&filter.value),
            FilterType::Equal => *field == filter.value,
        };
        proof {
            reveal(Seq::filter);
            let before = rows.subrange(0, row_id as int);
            let after = rows.subrange(0, row_id + 1);
            assert(after.drop_last() =~= before);
            assert(after.last() == row_id);
            assert(is_row_matched_by_filter == test(row_id as int));
        }
        if is_row_matched_by_filter {
            let ghost before = ids_of(row_ids@);
            row_ids.push(row_id);
            assert(ids_of(row_ids@) =~= before.push(row_id as int));
        }
        row_id = row_id + 1;
    }
    assert(rows.subrange(0, row_id as int) =~= rows);
    Ok(row_ids)
}

/// The rows that `filter` selects from `table`: through the index of the
/// filter's column where the table has one, else by a scan.
pub fn apply_filter<'a>(table: &IndexedTable<'a>, filter: &Filter) -> (r: Result<
    Vec<usize>,
    ColumnNotFound,
>)
    ensures
        match r {
            Ok(row_ids) => {
                &&& selected_rows(table@, Some(filter@)) == Some(ids_of(row_ids@))
                &&& forall|i: int|
                    0 <= i < row_ids.len() ==> (#[trigger] row_ids[i]) < table@.table.rows.len()
            },
            Err(e) => {
                &&& selected_rows(table@, Some(filter@)) is None
                &&& e.name@ == filter@.column_name
                &&& texts_of(e.available_columns@) == table@.table.column_names()
            },
        },
{
    let indices = table.indices();
    proof {
        let names = crate::index::index_names(table@.indices);
        assert(names =~= table@.table.column_names());
    }
    match indices.get(&filter.column_name) {
        Some(column_index) => {
            let row_ids = filter_using_index(filter, column_index);
            proof {
                crate::table::names_of(table@.table.columns).index_of_first_ensures(
                    filter@.column_name,
                );
                assert(selected_rows(table@, Some(filter@)) == Some(ids_of(row_ids@)));
                lemma_selection_in_range(table@, filter@);
                assert forall|i: int| 0 <= i < row_ids.len() implies (#[trigger] row_ids[i])
                    < table@.table.rows.len() by {
                    let rows = selected_rows(table@, Some(filter@))->0;
                    assert(rows[i] == row_ids[i]);
                }
            }
            Ok(row_ids)
        },
        None => filter_by_scanning(table, filter),
    }
}

/// The rows `row_ids` of `table`, each reduced to the columns called
/// `column_names`, in the order of those names; or the error that tells
/// which of the names is the first that the table does not have.
pub fn project_rows<'a>(
    table: &IndexedTable<'a>,
    row_ids: &Vec<usize>,
    column_names: &Vec<String>,
) -> (r: Result<ResultSet, ColumnNotFound>)
    requires
        forall|i: int| 0 <= i < row_ids.len() ==> (#[trigger] row_ids[i]) < table@.table.rows.len(),
    ensures
        match r {
            Ok(result) => {
                &&& first_missing(table@.table, texts_of(column_names@)) is None
                &&& result@ == projection(
                    table@.table,
                    ids_of(row_ids@),
                    positions_of(table@.table, texts_of(column_names@)),
                )
            },
            Err(e) => {
                &&& first_missing(table@.table, texts_of(column_names@)) == Some(e.name@)
                &&& texts_of(e.available_columns@) == table@.table.column_names()
            },
        },
{
    let underlying = table.underlying();
    let ghost t = underlying@;
    let ghost names = texts_of(column_names@);
    let mut column_positions: Vec<usize> = Vec::new();
    let mut n: usize = 0;
    while n < column_names.len()
        invariant
            0 <= n <= column_names.len(),
            t == underlying@,
            t == table@.table,
            names == texts_of(column_names@),
            column_positions.len() == n,
            first_missing(t, names.subrange(0, n as int)) is None,
            forall|i: int|
                0 <= i < n ==> t.position_of(names[i]) == Some(
                    (#[trigger] column_positions[i]) as int,
                ) && column_positions[i] < t.columns.len(),
        decreases column_names.len() - n,
    {
        let ghost before = names.subrange(0, n as int);
        let ghost after = names.subrange(0, n + 1);
        assert(after.drop_last() =~= before);
        assert(after.last() == column_names[n as int]@);
        match underlying.find_column_position(&column_names[n]) {
            Ok(position) => {
                proof {
                    crate::table::names_of(t.columns).index_of_first_ensures(names[n as int]);
                }
                column_positions.push(position);
            },
            Err(e) => {
                proof {
                    assert(first_missing(t, after) == Some(names[n as int]));
                    lemma_first_missing_stays(t, names, n + 1);
                }
                return Err(e);
            },
        }
        n = n + 1;
    }
    assert(names.subrange(0, n as int) =~= names);
    let ghost positions = positions_of(t, names);
    let mut rows: Vec<ResultSetRow> = Vec::new();
    let mut i: usize = 0;
    while i < row_ids.len()
        invariant
            0 <= i <= row_ids.len(),
            t == underlying@,
            names == texts_of(column_names@),
            positions == positions_of(t, names),
            column_positions.len() == column_names.len(),
            forall|i: int|
                0 <= i < row_ids.len() ==> (#[trigger] row_ids[i]) < t.rows.len(),
            forall|i: int|
                0 <= i < column_positions.len() ==> t.position_of(names[i]) == Some(
                    (#[trigger] column_positions[i]) as int,
                ) && column_positions[i] < t.columns.len(),
            rows.len() == i,
            forall|k: int|
                0 <= k < i ==> (#[trigger] rows[k])@ == positions.map_values(
                    |c: int| t.rows[row_ids[k] as int][c],
                ),
        decreases row_ids.len() - i,
    {
        let row_id = row_ids[i];
        let mut row_projection: Vec<Value> = Vec::new();
        let mut p: usize = 0;
        while p < column_positions.len()
            invariant
                0 <= p <= column_positions.len(),
                t == underlying@,
                row_id < t.rows.len(),
                positions == positions_of(t, names),
                column_positions.len() == names.len(),
                forall|i: int|
                    0 <= i < column_positions.len() ==> t.position_of(names[i]) == Some(
                        (#[trigger] column_positions[i]) as int,
                    ) && column_positions[i] < t.columns.len(),
                row_projection.len() == p,
                forall|k: int|
                    0 <= k < p ==> (#[trigger] row_projection[k])@
                        == t.rows[row_id as int][positions[k]],
            decreases column_positions.len() - p,
        {
            let field = underlying.field(row_id, column_positions[p]);
            row_projection.push(field.clone());
            p = p + 1;
        }
        let row = ResultSetRow { fields: row_projection };
        assert(row@ =~= positions.map_values(|c: int| t.rows[row_id as int][c]));
        rows.push(row);
        i = i + 1;
    }
    let result = ResultSet { rows };
    assert(result@ =~= projection(t, ids_of(row_ids@), positions));
    Ok(result)
}

/// Runs `query` on `table`: selects the rows that the filter admits, or all
/// rows where the query has no filter, and returns of each the columns that
/// the query names. Fails where the query names a column that the table
/// does not have.
pub fn execute<'a>(query: &Query, table: &IndexedTable<'a>) -> (r: Result<
    ResultSet,
    ColumnNotFound,
>)
    ensures
        match r {
            Ok(result) => execute_outcome(query@, table@) == Ok::<Seq<Seq<Datum>>, Seq<char>>(
                result@,
            ),
            Err(e) => {
                &&& execute_outcome(query@, table@) == Err::<Seq<Seq<Datum>>, Seq<char>>(e.name@)
                &&& texts_of(e.available_columns@) == table@.table.column_names()
            },
        },
{
    let row_ids = match &query.filter {
        Some(filter) => match apply_filter(table, filter) {
            Ok(row_ids) => row_ids,
            Err(e) => {
                return Err(e);
            },
        },
        None => {
            let count = table.underlying().row_count();
            let mut row_ids: Vec<usize> = Vec::new();
            let mut row_id: usize = 0;
            while row_id < count
                invariant
                    0 <= row_id <= count,
                    row_ids.len() == row_id,
                    forall|i: int| 0 <= i < row_id ==> (#[trigger] row_ids[i]) == i,
                decreases count - row_id,
            {
                row_ids.push(row_id);
                row_id = row_id + 1;
            }
            assert(ids_of(row_ids@) =~= all_rows(table@.table.rows.len()));
            row_ids
        },
    };
    project_rows(table, &row_ids, &query.column_names)
}

/// A missing name among the first `n` names is the first missing name of
/// all.
proof fn lemma_first_missing_stays(t: TableView, names: Seq<Seq<char>>, n: int)
    requires
        0 <= n <= names.len(),
        first_missing(t, names.subrange(0, n)) is Some,
    ensures
        first_missing(t, names) == first_missing(t, names.subrange(0, n)),
    decreases names.len(),
{
    if n == names.len() {
        assert(names.subrange(0, n) =~= names);
    } else {
        assert(names.drop_last().subrange(0, n) =~= names.subrange(0, n));
        lemma_first_missing_stays(t, names.drop_last(), n);
    }
}

/// What an index selects are positions of rows of the table.
pub proof fn lemma_selection_in_range(t: IndexedTableView, f: FilterView)
    requires
        t.well_formed(),
        selected_rows(t, Some(f)) is Some,
    ensures
        forall|i: int|
            0 <= i < selected_rows(t, Some(f))->0.len() ==> 0 <= (#[trigger] selected_rows(
                t,
                Some(f),
            )->0[i]) < t.table.rows.len(),
{
    let names = t.table.column_names();
    names.index_of_first_ensures(f.column_name);
    let c = t.table.position_of(f.column_name)->0;
    let entries = t.indices[c].entries;
    crate::index::lemma_index_covers_rows(entries, t.table, c);
    let rows = selected_rows(t, Some(f))->0;
    assert forall|i: int| 0 <= i < rows.len() implies 0 <= (#[trigger] rows[i])
        < t.table.rows.len() by {
        lemma_selection_from_index(entries, f.filter_type, f.value, i);
    }
}

/// Each row that an index selects is the row of one of its entries, and that
/// entry's value passes the filter.
pub proof fn lemma_selection_from_index(entries: Seq<Entry>, op: FilterType, value: Datum, i: int)
    requires
        0 <= i < index_selection(entries, op, value).len(),
    ensures
        exists|k: int|
            0 <= k < entries.len() && (#[trigger] entries[k]).row == index_selection(
                entries,
                op,
                value,
            )[i] && admits(op, value, entries[k].value),
{
    match op {
        FilterType::Greater => {
            let kept = entries.filter(above(value));
            assert(kept.contains(kept[i]));
            entries.lemma_filter_contains_rev(above(value), kept[i]);
            entries.lemma_filter_pred(above(value), i);
            let k = choose|k: int| 0 <= k < entries.len() && entries[k] == kept[i];
            assert(entries[k].row == greater_selection(entries, value)[i]);
        },
        FilterType::Equal => {
            let hit = bisect(entries, value, 0, entries.len() as int)->0;
            lemma_bisect_hits(entries, value, 0, entries.len() as int);
            let start = run_start(entries, value, hit);
            let end = run_end(entries, value, hit);
            lemma_run_start(entries, value, hit);
            lemma_run_end(entries, value, hit);
            let left = rows_of_entries(entries.subrange(start, hit));
            let right = rows_of_entries(entries.subrange(hit + 1, end));
            if i == 0 {
                assert(entries[hit].row == equal_selection(entries, value)[i]);
            } else if i < 1 + left.len() {
                let k = hit - i;
                assert(left.reverse()[i - 1] == left[left.len() - 1 - (i - 1)]);
                assert(entries[k].row == equal_selection(entries, value)[i]);
            } else {
                let k = hit + 1 + (i - 1 - left.len());
                assert(entries[k].row == equal_selection(entries, value)[i]);
            }
        },
    }
}

/// Where bisection meets an entry, that entry lies between the bounds and
/// has the value sought.
pub proof fn lemma_bisect_hits(entries: Seq<Entry>, value: Datum, low: int, high: int)
    requires
        0 <= low <= high <= entries.len(),
    ensures
        bisect(entries, value, low, high) matches Some(hit) ==> low <= hit < high
            && entries[hit].value == value,
    decreases high - low,
{
    if low < high {
        let middle = low + (high - low) / 2;
        if entries[middle].value.precedes(value) {
            lemma_bisect_hits(entries, value, middle + 1, high);
        } else if value.precedes(entries[middle].value) {
            lemma_bisect_hits(entries, value, low, middle);
        } else {
            lemma_precedes_total(entries[middle].value, value);
        }
    }
}

/// The run of equal entries starts at or before `hit`, holds the value at
/// every place from its start to `hit`, and the entry before it, if there is
/// one, has another value.
pub proof fn lemma_run_start(entries: Seq<Entry>, value: Datum, hit: int)
    requires
        0 <= hit < entries.len(),
    ensures
        0 <= run_start(entries, value, hit) <= hit,
        forall|k: int|
            run_start(entries, value, hit) <= k < hit ==> (#[trigger] entries[k]).value == value,
        run_start(entries, value, hit) > 0 ==> entries[run_start(entries, value, hit) - 1].value
            != value,
    decreases hit,
{
    if hit > 0 && entries[hit - 1].value == value {
        lemma_run_start(entries, value, hit - 1);
    }
}

/// The run of equal entries ends behind `hit`, holds the value at every
/// place from behind `hit` to its end, and the entry behind it, if there is
/// one, has another value.
pub proof fn lemma_run_end(entries: Seq<Entry>, value: Datum, hit: int)
    requires
        0 <= hit < entries.len(),
    ensures
        hit < run_end(entries, value, hit) <= entries.len(),
        forall|k: int|
            hit < k < run_end(entries, value, hit) ==> (#[trigger] entries[k]).value == value,
        run_end(entries, value, hit) < entries.len() ==> entries[run_end(
            entries,
            value,
            hit,
        )].value != value,
    decreases entries.len() - hit,
{
    if hit + 1 < entries.len() && entries[hit + 1].value == value {
        lemma_run_end(entries, value, hit + 1);
    }
}

} // verus!
