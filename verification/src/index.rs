//! Sorted indices: for each column the rows of the table, ordered by the
//! value they hold in that column.

use crate::table::{Table, TableView};
use crate::value::{
    lemma_precedes_asymmetric, lemma_precedes_irreflexive, lemma_precedes_total,
    lemma_precedes_transitive, Datum, Value,
};
use std::cmp::Ordering;
use vstd::prelude::*;

verus! {

/// What a [`ValueInRow`] stands for: a value and the position of the row
/// that holds it.
pub struct Entry {
    pub value: Datum,
    pub row: int,
}

impl Entry {
    /// The strict order of index entries: by value, and among equal values
    /// by row position.
    pub open spec fn precedes(self, other: Entry) -> bool {
        self.value.precedes(other.value) || (self.value == other.value && self.row < other.row)
    }

    /// The order of index entries with equality.
    pub open spec fn at_most(self, other: Entry) -> bool {
        !other.precedes(self)
    }
}

/// Whether each entry of `s` is at most every later one.
pub open spec fn is_sorted(s: Seq<Entry>) -> bool {
    forall|i: int, j: int| 0 <= i < j < s.len() ==> (#[trigger] s[i]).at_most(#[trigger] s[j])
}

/// The entries of column `c` of `t` in row order: for each row its value in
/// that column, with the row's position.
pub open spec fn column_entries(t: TableView, c: int) -> Seq<Entry> {
    Seq::new(t.rows.len(), |r: int| Entry { value: t.rows[r][c], row: r })
}

/// Whether `entries` is the index of column `c` of `t`: the column's entries,
/// each once, sorted by value and among equal values by row position.
pub open spec fn indexes(entries: Seq<Entry>, t: TableView, c: int) -> bool {
    &&& is_sorted(entries)
    &&& entries.to_multiset() == column_entries(t, c).to_multiset()
}

/// The row positions of `entries`, in their order.
pub open spec fn rows_of_entries(entries: Seq<Entry>) -> Seq<int> {
    entries.map_values(|e: Entry| e.row)
}

/// Of two entries at most one comes before the other.
pub proof fn lemma_entry_asymmetric(a: Entry, b: Entry)
    ensures
        !(a.precedes(b) && b.precedes(a)),
{
    lemma_precedes_asymmetric(a.value, b.value);
    lemma_precedes_irreflexive(a.value);
}

/// Any two entries are ordered or equal.
pub proof fn lemma_entry_total(a: Entry, b: Entry)
    ensures
        a.precedes(b) || b.precedes(a) || a == b,
{
    lemma_precedes_total(a.value, b.value);
}

/// The strict order of entries is transitive.
pub proof fn lemma_entry_transitive(a: Entry, b: Entry, c: Entry)
    requires
        a.precedes(b),
        b.precedes(c),
    ensures
        a.precedes(c),
{
    if a.value.precedes(b.value) && b.value.precedes(c.value) {
        lemma_precedes_transitive(a.value, b.value, c.value);
    }
}

/// The order of entries with equality is transitive.
pub proof fn lemma_entry_at_most_transitive(a: Entry, b: Entry, c: Entry)
    requires
        a.at_most(b),
        b.at_most(c),
    ensures
        a.at_most(c),
{
    lemma_entry_total(a, b);
    lemma_entry_total(b, c);
    if c.precedes(a) {
        if a != b && b != c {
            lemma_entry_transitive(c, a, b);
            lemma_entry_asymmetric(b, c);
        }
    }
}

/// The entries of a sorted sequence are in the order of their values.
pub proof fn lemma_sorted_by_value(s: Seq<Entry>, i: int, j: int)
    requires
        is_sorted(s),
        0 <= i <= j < s.len(),
    ensures
        s[i].value.at_most(s[j].value),
{
    lemma_precedes_irreflexive(s[i].value);
    if i < j {
        assert(s[i].at_most(s[j]));
    }
}

/// What an index of a column holds: as many entries as the table has rows;
/// each entry names a row and holds that row's value; every row has its
/// entry, and no two entries name the same row.
pub proof fn lemma_index_covers_rows(entries: Seq<Entry>, t: TableView, c: int)
    requires
        indexes(entries, t, c),
    ensures
        entries.len() == t.rows.len(),
        forall|k: int|
            0 <= k < entries.len() ==> 0 <= (#[trigger] entries[k]).row < t.rows.len()
                && entries[k].value == t.rows[entries[k].row][c],
        forall|r: int| 0 <= r < t.rows.len() ==> #[trigger] rows_of_entries(entries).contains(r),
        rows_of_entries(entries).no_duplicates(),
{
    broadcast use vstd::seq_lib::group_to_multiset_ensures;

    let column = column_entries(t, c);
    vstd::seq_lib::to_multiset_len(entries);
    vstd::seq_lib::to_multiset_len(column);
    assert forall|k: int| 0 <= k < entries.len() implies 0 <= (#[trigger] entries[k]).row
        < t.rows.len() && entries[k].value == t.rows[entries[k].row][c] by {
        assert(entries.contains(entries[k]));
        assert(entries.to_multiset().count(entries[k]) > 0);
        assert(column.contains(entries[k]));
        let r = choose|r: int| 0 <= r < column.len() && column[r] == entries[k];
        assert(column[r].row == r);
    }
    let rows = rows_of_entries(entries);
    assert forall|r: int| 0 <= r < t.rows.len() implies #[trigger] rows.contains(r) by {
        assert(column.contains(column[r]));
        assert(column.to_multiset().count(column[r]) > 0);
        assert(entries.contains(column[r]));
        let k = choose|k: int| 0 <= k < entries.len() && entries[k] == column[r];
        assert(rows[k] == r);
    }
    assert(column.no_duplicates()) by {
        assert forall|i: int, j: int| 0 <= i < column.len() && 0 <= j < column.len() && i != j implies column[i] != column[j] by {
            assert(column[i].row == i);
            assert(column[j].row == j);
        }
    }
    column.lemma_multiset_has_no_duplicates();
    entries.lemma_multiset_has_no_duplicates_conv();
    assert forall|k: int, l: int| 0 <= k < rows.len() && 0 <= l < rows.len() && k != l implies rows[k]
        != rows[l] by {
        if entries[k].row == entries[l].row {
            assert(entries[k].value == entries[l].value);
            assert(entries[k] == entries[l]);
        }
    }
}

/// A column has one index only: two sorted sequences of the same entries,
/// no entry twice, are the same sequence.
pub proof fn lemma_index_is_unique(a: Seq<Entry>, b: Seq<Entry>, t: TableView, c: int)
    requires
        indexes(a, t, c),
        indexes(b, t, c),
    ensures
        a == b,
    decreases a.len(),
{
    broadcast use vstd::seq_lib::group_to_multiset_ensures;

    lemma_index_covers_rows(a, t, c);
    lemma_index_covers_rows(b, t, c);
    assert(a.len() == b.len());
    assert forall|k: int| 0 <= k < a.len() implies a[k] == b[k] by {
        lemma_same_place(a, b, t, c, k);
    }
    assert(a =~= b);
}

/// The number of entries of `s` that come before `e`.
pub open spec fn rank(s: Seq<Entry>, e: Entry) -> nat
    decreases s.len(),
{
    if s.len() == 0 {
        0
    } else {
        rank(s.drop_last(), e) + if s.last().precedes(e) {
            1nat
        } else {
            0nat
        }
    }
}

/// The rank of an entry depends on the entries only, not on their order.
proof fn lemma_rank_of_multiset(a: Seq<Entry>, b: Seq<Entry>, e: Entry)
    requires
        a.to_multiset() == b.to_multiset(),
    ensures
        rank(a, e) == rank(b, e),
    decreases a.len(),
{
    broadcast use vstd::seq_lib::group_to_multiset_ensures;

    vstd::seq_lib::to_multiset_len(a);
    vstd::seq_lib::to_multiset_len(b);
    if a.len() > 0 {
        let x = a.last();
        assert(a.contains(x));
        assert(b.to_multiset().count(x) > 0);
        assert(b.contains(x));
        let i = choose|i: int| 0 <= i < b.len() && b[i] == x;
        assert(a.drop_last().push(x) =~= a);
        assert(a.drop_last().to_multiset().insert(x) =~= a.to_multiset());
        assert(b.remove(i).to_multiset() =~= b.to_multiset().remove(x));
        assert(a.drop_last().to_multiset() =~= a.to_multiset().remove(x));
        lemma_rank_of_multiset(a.drop_last(), b.remove(i), e);
        lemma_rank_remove(b, i, e);
    }
}

/// Taking one entry out lowers the rank by one where that entry comes before
/// `e`, and leaves it otherwise.
proof fn lemma_rank_remove(s: Seq<Entry>, i: int, e: Entry)
    requires
        0 <= i < s.len(),
    ensures
        rank(s, e) == rank(s.remove(i), e) + if s[i].precedes(e) {
            1nat
        } else {
            0nat
        },
    decreases s.len(),
{
    if i == s.len() - 1 {
        assert(s.remove(i) =~= s.drop_last());
    } else {
        assert(s.remove(i).drop_last() =~= s.drop_last().remove(i));
        assert(s.remove(i).last() == s.last());
        lemma_rank_remove(s.drop_last(), i, e);
    }
}

/// In a sorted sequence without repeated entries, the entry at place `k` has
/// exactly `k` entries before it.
proof fn lemma_rank_in_sorted(s: Seq<Entry>, k: int, n: int)
    requires
        is_sorted(s),
        s.no_duplicates(),
        0 <= k < s.len(),
        0 <= n <= s.len(),
    ensures
        rank(s.subrange(0, n), s[k]) == if n <= k {
            n
        } else {
            k
        },
    decreases n,
{
    if n > 0 {
        let prefix = s.subrange(0, n);
        assert(prefix.drop_last() =~= s.subrange(0, n - 1));
        assert(prefix.last() == s[n - 1]);
        lemma_rank_in_sorted(s, k, n - 1);
        if n - 1 < k {
            assert(s[n - 1].at_most(s[k]));
            lemma_entry_total(s[n - 1], s[k]);
        } else if n - 1 > k {
            assert(s[k].at_most(s[n - 1]));
        } else {
            lemma_entry_asymmetric(s[k], s[k]);
        }
    }
}

/// Two indices of one column hold the same entry at each place.
proof fn lemma_same_place(a: Seq<Entry>, b: Seq<Entry>, t: TableView, c: int, k: int)
    requires
        indexes(a, t, c),
        indexes(b, t, c),
        0 <= k < a.len(),
    ensures
        a.len() == b.len(),
        a[k] == b[k],
{
    broadcast use vstd::seq_lib::group_to_multiset_ensures;

    let column = column_entries(t, c);
    assert(column.no_duplicates()) by {
        assert forall|i: int, j: int| 0 <= i < column.len() && 0 <= j < column.len() && i != j implies column[i] != column[j] by {
            assert(column[i].row == i);
            assert(column[j].row == j);
        }
    }
    column.lemma_multiset_has_no_duplicates();
    a.lemma_multiset_has_no_duplicates_conv();
    b.lemma_multiset_has_no_duplicates_conv();
    vstd::seq_lib::to_multiset_len(a);
    vstd::seq_lib::to_multiset_len(b);
    let e = a[k];
    assert(a.contains(e));
    assert(b.to_multiset().count(e) > 0);
    assert(b.contains(e));
    let l = choose|l: int| 0 <= l < b.len() && b[l] == e;
    lemma_rank_in_sorted(a, k, a.len() as int);
    lemma_rank_in_sorted(b, l, b.len() as int);
    assert(a.subrange(0, a.len() as int) =~= a);
    assert(b.subrange(0, b.len() as int) =~= b);
    lemma_rank_of_multiset(a, b, e);
}

/// An entry of an index: a value of the column, and the position of the row
/// that holds it.
#[derive(Debug, PartialEq, Clone, Copy)]
pub struct ValueInRow<'a> {
    pub value: &'a Value,
    pub row_index: usize,
}

impl<'a> View for ValueInRow<'a> {
    type V = Entry;

    open spec fn view(&self) -> Entry {
        Entry { value: self.value@, row: self.row_index as int }
    }
}

/// The views of `entries`, in their order.
pub open spec fn entries_of<'a>(entries: Seq<ValueInRow<'a>>) -> Seq<Entry> {
    entries.map_values(|e: ValueInRow<'a>| e@)
}

/// Whether entry `a` comes strictly before entry `b`: by value, and among
/// equal values by row position.
pub fn entry_less<'a>(a: &ValueInRow<'a>, b: &ValueInRow<'a>) -> (r: bool)
    ensures
        r == a@.precedes(b@),
{
    proof {
        lemma_precedes_asymmetric(a.value@, b.value@);
        lemma_precedes_irreflexive(a.value@);
    }
    match a.value.cmp(b.value) {
        Ordering::Less => true,
        Ordering::Equal => a.row_index < b.row_index,
        Ordering::Greater => false,
    }
}

/// Merges two sorted runs of entries into one.
fn merge_runs<'a>(left: &Vec<ValueInRow<'a>>, right: &Vec<ValueInRow<'a>>) -> (out: Vec<
    ValueInRow<'a>,
>)
    requires
        is_sorted(entries_of(left@)),
        is_sorted(entries_of(right@)),
        left.len() + right.len() <= usize::MAX,
    ensures
        is_sorted(entries_of(out@)),
        entries_of(out@).to_multiset() == entries_of(left@).to_multiset().add(
            entries_of(right@).to_multiset(),
        ),
{
    broadcast use {vstd::seq_lib::group_to_multiset_ensures, vstd::multiset::group_multiset_axioms};

    let ghost l = entries_of(left@);
    let ghost r = entries_of(right@);
    let mut out: Vec<ValueInRow<'a>> = Vec::new();
    let mut i: usize = 0;
    let mut j: usize = 0;
    assert(l.subrange(0, 0) =~= Seq::empty());
    assert(r.subrange(0, 0) =~= Seq::empty());
    assert(entries_of(out@) =~= Seq::empty());
    while i < left.len() || j < right.len()
        invariant
            0 <= i <= left.len(),
            0 <= j <= right.len(),
            left.len() + right.len() <= usize::MAX,
            l == entries_of(left@),
            r == entries_of(right@),
            is_sorted(l),
            is_sorted(r),
            out.len() == i + j,
            is_sorted(entries_of(out@)),
            forall|k: int, a: int|
                0 <= k < out.len() && i <= a < l.len() ==> (#[trigger] entries_of(out@)[k]).at_most(
                    #[trigger] l[a],
                ),
            forall|k: int, b: int|
                0 <= k < out.len() && j <= b < r.len() ==> (#[trigger] entries_of(out@)[k]).at_most(
                    #[trigger] r[b],
                ),
            entries_of(out@).to_multiset() == l.subrange(0, i as int).to_multiset().add(
                r.subrange(0, j as int).to_multiset(),
            ),
        decreases left.len() - i + right.len() - j,
    {
        let ghost before = entries_of(out@);
        let from_left = if i == left.len() {
            false
        } else if j == right.len() {
            true
        } else {
            !entry_less(&right[j], &left[i])
        };
        if from_left {
            let e = left[i];
            out.push(e);
            proof {
                let x = l[i as int];
                assert(entries_of(out@) =~= before.push(x));
                assert(l.subrange(0, i + 1) =~= l.subrange(0, i as int).push(x));
                assert forall|k: int, b: int| 0 <= k < out.len() && j <= b < r.len() implies (
                #[trigger] entries_of(out@)[k]).at_most(#[trigger] r[b]) by {
                    if k == out.len() - 1 {
                        assert(x.at_most(r[j as int]));
                        if j < b {
                            assert(r[j as int].at_most(r[b]));
                        } else {
                            lemma_entry_asymmetric(r[b], r[b]);
                        }
                        lemma_entry_at_most_transitive(x, r[j as int], r[b]);
                    } else {
                        assert(before[k].at_most(r[b]));
                    }
                }
                assert forall|k: int, a: int| 0 <= k < out.len() && i + 1 <= a < l.len() implies (
                #[trigger] entries_of(out@)[k]).at_most(#[trigger] l[a]) by {
                    if k < out.len() - 1 {
                        assert(before[k].at_most(l[a]));
                    }
                }
                assert forall|p: int, q: int| 0 <= p < q < out.len() implies (
                #[trigger] entries_of(out@)[p]).at_most(#[trigger] entries_of(out@)[q]) by {
                    if q == out.len() - 1 {
                        assert(before[p].at_most(l[i as int]));
                    } else {
                        assert(before[p].at_most(before[q]));
                    }
                }
                vstd::seq_lib::to_multiset_build(before, x);
                vstd::seq_lib::to_multiset_build(l.subrange(0, i as int), x);
                assert(entries_of(out@).to_multiset() =~= l.subrange(0, i + 1).to_multiset().add(
                    r.subrange(0, j as int).to_multiset(),
                ));
            }
            i = i + 1;
        } else {
            let e = right[j];
            out.push(e);
            proof {
                let y = r[j as int];
                assert(entries_of(out@) =~= before.push(y));
                assert(r.subrange(0, j + 1) =~= r.subrange(0, j as int).push(y));
                assert forall|k: int, a: int| 0 <= k < out.len() && i <= a < l.len() implies (
                #[trigger] entries_of(out@)[k]).at_most(#[trigger] l[a]) by {
                    if k == out.len() - 1 {
                        lemma_entry_asymmetric(y, l[i as int]);
                        assert(y.at_most(l[i as int]));
                        if i < a {
                            assert(l[i as int].at_most(l[a]));
                        } else {
                            lemma_entry_asymmetric(l[a], l[a]);
                        }
                        lemma_entry_at_most_transitive(y, l[i as int], l[a]);
                    } else {
                        assert(before[k].at_most(l[a]));
                    }
                }
                assert forall|k: int, b: int| 0 <= k < out.len() && j + 1 <= b < r.len() implies (
                #[trigger] entries_of(out@)[k]).at_most(#[trigger] r[b]) by {
                    if k < out.len() - 1 {
                        assert(before[k].at_most(r[b]));
                    }
                }
                assert forall|p: int, q: int| 0 <= p < q < out.len() implies (
                #[trigger] entries_of(out@)[p]).at_most(#[trigger] entries_of(out@)[q]) by {
                    if q == out.len() - 1 {
                        assert(before[p].at_most(r[j as int]));
                    } else {
                        assert(before[p].at_most(before[q]));
                    }
                }
                vstd::seq_lib::to_multiset_build(before, y);
                vstd::seq_lib::to_multiset_build(r.subrange(0, j as int), y);
                assert(entries_of(out@).to_multiset() =~= l.subrange(0, i as int).to_multiset().add(
                    r.subrange(0, j + 1).to_multiset(),
                ));
            }
            j = j + 1;
        }
    }
    assert(l.subrange(0, i as int) =~= l);
    assert(r.subrange(0, j as int) =~= r);
    out
}

/// Copies the entries of `v` from position `from` up to `to`.
fn copy_run<'a>(v: &Vec<ValueInRow<'a>>, from: usize, to: usize) -> (out: Vec<ValueInRow<'a>>)
    requires
        from <= to <= v.len(),
    ensures
        out@ == v@.subrange(from as int, to as int),
{
    let mut out: Vec<ValueInRow<'a>> = Vec::new();
    let mut k: usize = from;
    while k < to
        invariant
            from <= k <= to,
            to <= v.len(),
            out@ == v@.subrange(from as int, k as int),
        decreases to - k,
    {
        let e = v[k];
        out.push(e);
        assert(out@ =~= v@.subrange(from as int, k + 1));
        k = k + 1;
    }
    out
}

/// Sorts entries by value, and among equal values by row position.
pub fn sort_entries<'a>(entries: Vec<ValueInRow<'a>>) -> (out: Vec<ValueInRow<'a>>)
    ensures
        is_sorted(entries_of(out@)),
        entries_of(out@).to_multiset() == entries_of(entries@).to_multiset(),
    decreases entries.len(),
{
    if entries.len() <= 1 {
        return entries;
    }
    let middle = entries.len() / 2;
    let left = copy_run(&entries, 0, middle);
    let right = copy_run(&entries, middle, entries.len());
    proof {
        assert(entries@ =~= left@ + right@);
        assert(entries_of(entries@) =~= entries_of(left@) + entries_of(right@));
        vstd::seq_lib::lemma_multiset_commutative(entries_of(left@), entries_of(right@));
    }
    let ghost halves = (entries_of(left@), entries_of(right@));
    let left = sort_entries(left);
    let right = sort_entries(right);
    proof {
        vstd::seq_lib::to_multiset_len(halves.0);
        vstd::seq_lib::to_multiset_len(halves.1);
        vstd::seq_lib::to_multiset_len(entries_of(left@));
        vstd::seq_lib::to_multiset_len(entries_of(right@));
    }
    merge_runs(&left, &right)
}

/// What an [`Index`] stands for: the column's name and its sorted entries.
pub struct IndexView {
    pub column_name: Seq<char>,
    pub entries: Seq<Entry>,
}

/// The index of one column: the column's values with their row positions,
/// sorted by value and among equal values by row position.
#[derive(Debug, PartialEq)]
pub struct Index<'a> {
    column_name: String,
    sorted_column_values: Vec<ValueInRow<'a>>,
}

impl<'a> View for Index<'a> {
    type V = IndexView;

    closed spec fn view(&self) -> IndexView {
        IndexView {
            column_name: self.column_name@,
            entries: entries_of(self.sorted_column_values@),
        }
    }
}

impl<'a> Index<'a> {
    /// What holds of every index: its entries are sorted.
    #[verifier::type_invariant]
    pub open spec fn well_formed(&self) -> bool {
        is_sorted(self@.entries)
    }

    /// Builds the index of column `column` of `table`.
    pub fn build(table: &'a Table, column: usize) -> (index: Index<'a>)
        requires
            column < table@.columns.len(),
        ensures
            index@.column_name == table@.columns[column as int].name,
            indexes(index@.entries, table@, column as int),
    {
        let rows = table.rows();
        let mut column_values: Vec<ValueInRow<'a>> = Vec::new();
        let mut row_index: usize = 0;
        while row_index < rows.len()
            invariant
                0 <= row_index <= rows.len(),
                column < table@.columns.len(),
                crate::table::rows_of(rows@) == table@.rows,
                entries_of(column_values@) == column_entries(table@, column as int).subrange(
                    0,
                    row_index as int,
                ),
            decreases rows.len() - row_index,
        {
            let ghost before = entries_of(column_values@);
            let value = table.field(row_index, column);
            column_values.push(ValueInRow { value, row_index });
            proof {
                let e = Entry {
                    value: table@.rows[row_index as int][column as int],
                    row: row_index as int,
                };
                assert(entries_of(column_values@) =~= before.push(e));
                assert(entries_of(column_values@) =~= column_entries(table@, column as int).subrange(
                    0,
                    row_index + 1,
                ));
            }
            row_index = row_index + 1;
        }
        proof {
            let all = column_entries(table@, column as int);
            assert(all.subrange(0, row_index as int) =~= all);
        }
        let sorted_column_values = sort_entries(column_values);
        let columns = table.columns();
        assert(crate::table::columns_of(columns@)[column as int] == columns[column as int]@);
        Index { column_name: columns[column].name.clone(), sorted_column_values }
    }

    /// The name of the indexed column.
    pub fn column_name(&self) -> (name: &String)
        ensures
            name@ == self@.column_name,
    {
        &self.column_name
    }

    /// The entries of the index, in sorted order.
    pub fn entries(&self) -> (entries: &Vec<ValueInRow<'a>>)
        ensures
            entries_of(entries@) == self@.entries,
            is_sorted(self@.entries),
    {
        proof {
            use_type_invariant(self);
        }
        &self.sorted_column_values
    }
}

/// The views of `indices`, in their order.
pub open spec fn indices_of<'a>(indices: Seq<Index<'a>>) -> Seq<IndexView> {
    indices.map_values(|index: Index<'a>| index@)
}

/// Whether `indices` are the indices of `t`: one for each column, in the
/// columns' order, each under its column's name.
pub open spec fn describes(indices: Seq<IndexView>, t: TableView) -> bool {
    &&& indices.len() == t.columns.len()
    &&& forall|c: int|
        0 <= c < indices.len() ==> (#[trigger] indices[c]).column_name == t.columns[c].name
            && indexes(indices[c].entries, t, c)
}

/// The names of the indexed columns, in the indices' order.
pub open spec fn index_names(indices: Seq<IndexView>) -> Seq<Seq<char>> {
    indices.map_values(|index: IndexView| index.column_name)
}

/// The indices of a table, one for each column.
#[derive(Debug, PartialEq)]
pub struct TableIndices<'a> {
    column_indices: Vec<Index<'a>>,
}

impl<'a> View for TableIndices<'a> {
    type V = Seq<IndexView>;

    closed spec fn view(&self) -> Seq<IndexView> {
        indices_of(self.column_indices@)
    }
}

impl<'a> TableIndices<'a> {
    /// Builds the index of every column of `table`.
    pub fn build_for(table: &'a Table) -> (indices: TableIndices<'a>)
        ensures
            describes(indices@, table@),
    {
        let mut column_indices: Vec<Index<'a>> = Vec::new();
        let mut column: usize = 0;
        let width = table.column_count();
        while column < width
            invariant
                0 <= column <= width,
                width == table@.columns.len(),
                column_indices.len() == column,
                forall|c: int|
                    0 <= c < column ==> (#[trigger] column_indices[c])@.column_name
                        == table@.columns[c].name && indexes(
                        column_indices[c]@.entries,
                        table@,
                        c,
                    ),
            decreases width - column,
        {
            let index = Index::build(table, column);
            column_indices.push(index);
            column = column + 1;
        }
        TableIndices { column_indices }
    }

    /// The number of indices.
    pub fn len(&self) -> (n: usize)
        ensures
            n == self@.len(),
    {
        self.column_indices.len()
    }

    /// The index at position `position`.
    pub fn at(&self, position: usize) -> (index: &Index<'a>)
        requires
            position < self@.len(),
        ensures
            index@ == self@[position as int],
    {
        &self.column_indices[position]
    }

    /// The first index under the name `column_name`, if there is one.
    pub fn get(&self, column_name: &String) -> (r: Option<&Index<'a>>)
        ensures
            match r {
                Some(index) => {
                    &&& index_names(self@).index_of_first(column_name@) is Some
                    &&& index@ == self@[index_names(self@).index_of_first(column_name@)->0]
                },
                None => index_names(self@).index_of_first(column_name@) is None,
            },
    {
        let ghost names = index_names(self@);
        let mut c: usize = 0;
        while c < self.column_indices.len()
            invariant
                0 <= c <= self.column_indices.len(),
                names == index_names(self@),
                forall|i: int| 0 <= i < c ==> names[i] != column_name@,
            decreases self.column_indices.len() - c,
        {
            assert(names[c as int] == self.column_indices[c as int]@.column_name);
            if *self.column_indices[c].column_name() == *column_name {
                proof {
                    assert(names.contains(column_name@));
                    names.index_of_first_ensures(column_name@);
                }
                return Some(&self.column_indices[c]);
            }
            c = c + 1;
        }
        proof {
            names.index_of_first_ensures(column_name@);
        }
        None
    }
}

/// What an [`IndexedTable`] stands for: the table and the indices of its
/// columns.
pub struct IndexedTableView {
    pub table: TableView,
    pub indices: Seq<IndexView>,
}

impl IndexedTableView {
    /// The table is well formed, and the indices are those of its columns.
    pub open spec fn well_formed(self) -> bool {
        &&& self.table.well_formed()
        &&& describes(self.indices, self.table)
    }
}

/// A table together with the indices of its columns.
#[derive(Debug, PartialEq)]
pub struct IndexedTable<'a> {
    underlying: &'a Table,
    indices: TableIndices<'a>,
}

impl<'a> View for IndexedTable<'a> {
    type V = IndexedTableView;

    closed spec fn view(&self) -> IndexedTableView {
        IndexedTableView { table: self.underlying@, indices: self.indices@ }
    }
}

impl<'a> IndexedTable<'a> {
    /// What holds of every indexed table: the table is well formed, and the
    /// indices are those of its columns.
    #[verifier::type_invariant]
    pub open spec fn well_formed(&self) -> bool {
        self@.well_formed()
    }

    /// The table that the indices are built over.
    pub fn underlying(&self) -> (table: &'a Table)
        ensures
            table@ == self@.table,
            self@.well_formed(),
    {
        proof {
            use_type_invariant(self);
        }
        self.underlying
    }

    /// The indices of the table's columns.
    pub fn indices(&self) -> (indices: &TableIndices<'a>)
        ensures
            indices@ == self@.indices,
            self@.well_formed(),
    {
        proof {
            use_type_invariant(self);
        }
        &self.indices
    }
}

impl Table {
    /// Builds the indices of all columns and joins them to the table.
    pub fn build_indices<'a>(&'a self) -> (indexed: IndexedTable<'a>)
        ensures
            indexed@.table == self@,
            indexed@.well_formed(),
    {
        let indices = TableIndices::build_for(self);
        proof {
            use_type_invariant(self);
        }
        IndexedTable { underlying: self, indices }
    }
}

} // verus!
