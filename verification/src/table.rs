//! Tables: typed columns over rows of values, built once from raw text
//! records and read-only afterwards.

use crate::decimal::{append_decimal, decimal_text};
use crate::text::{append_joined, joined, texts_of};
use crate::value::{number_error_text, parse_outcome, Datum, NumberError, Value};
use vstd::prelude::*;
use vstd::string::StringExecFns;

verus! {

/// The type of a column: `Integer` where every row holds a number in it.
#[derive(Debug, PartialEq, Eq, Clone, Copy, Structural)]
pub enum ColumnType {
    Integer,
    Text,
}

/// A column of a table: its name and its type.
#[derive(Debug, PartialEq)]
pub struct Column {
    pub name: String,
    pub column_type: ColumnType,
}

/// What a [`Column`] stands for.
pub struct ColumnView {
    pub name: Seq<char>,
    pub column_type: ColumnType,
}

impl View for Column {
    type V = ColumnView;

    open spec fn view(&self) -> ColumnView {
        ColumnView { name: self.name@, column_type: self.column_type }
    }
}

/// A row of a table: one value for each column, in the columns' order.
#[derive(Debug, PartialEq)]
pub struct Row {
    pub fields: Vec<Value>,
}

impl View for Row {
    type V = Seq<Datum>;

    open spec fn view(&self) -> Seq<Datum> {
        self.fields@.map_values(|v: Value| v@)
    }
}

/// The names of `columns`, in their order.
pub open spec fn names_of(columns: Seq<ColumnView>) -> Seq<Seq<char>> {
    columns.map_values(|c: ColumnView| c.name)
}

/// The type of column `c` over `rows`: `Integer` where every row holds a
/// number there, `Text` otherwise. A column without rows is `Integer`.
pub open spec fn inferred_type(rows: Seq<Seq<Datum>>, c: int) -> ColumnType {
    if forall|r: int| 0 <= r < rows.len() ==> (#[trigger] rows[r])[c] is Integer {
        ColumnType::Integer
    } else {
        ColumnType::Text
    }
}

/// The columns that `headers` name over `rows`, each with its inferred type.
pub open spec fn inferred_columns(headers: Seq<Seq<char>>, rows: Seq<Seq<Datum>>) -> Seq<
    ColumnView,
> {
    Seq::new(
        headers.len(),
        |c: int| ColumnView { name: headers[c], column_type: inferred_type(rows, c) },
    )
}

/// What a [`Table`] stands for: its columns and its rows, in source order.
pub struct TableView {
    pub columns: Seq<ColumnView>,
    pub rows: Seq<Seq<Datum>>,
}

impl TableView {
    /// Every row has one value for each column, and each column has the type
    /// that its values give it.
    pub open spec fn well_formed(self) -> bool {
        &&& forall|r: int|
            0 <= r < self.rows.len() ==> (#[trigger] self.rows[r]).len() == self.columns.len()
        &&& forall|c: int|
            0 <= c < self.columns.len() ==> (#[trigger] self.columns[c]).column_type
                == inferred_type(self.rows, c)
    }

    /// The columns' names, in declaration order.
    pub open spec fn column_names(self) -> Seq<Seq<char>> {
        names_of(self.columns)
    }

    /// The position of the first column called `name`, if there is one.
    pub open spec fn position_of(self, name: Seq<char>) -> Option<int> {
        self.column_names().index_of_first(name)
    }
}

/// A query names a column that the table does not have.
#[derive(Debug, PartialEq)]
pub struct ColumnNotFound {
    /// The name that was asked for.
    pub name: String,
    /// The names of the table's columns, in declaration order.
    pub available_columns: Vec<String>,
}

/// The message that reports a missing column `name` of a table with the
/// columns `available`.
pub open spec fn column_not_found_text(name: Seq<char>, available: Seq<Seq<char>>) -> Seq<char> {
    "Cannot find column "@ + name + ", it does not exist in the table, existing columns "@
        + joined(available, ", "@)
}

impl ColumnNotFound {
    /// The error as a sentence: the missing name, then the names that exist,
    /// separated by a comma and a blank.
    pub fn message(&self) -> (s: String)
        ensures
            s@ == column_not_found_text(self.name@, texts_of(self.available_columns@)),
    {
        let mut s = String::from_str("Cannot find column ");
        s.append(self.name.as_str());
        s.append(", it does not exist in the table, existing columns ");
        append_joined(&mut s, &self.available_columns, ", ");
        assert(s@ =~= column_not_found_text(self.name@, texts_of(self.available_columns@)));
        s
    }
}

/// Why a table could not be built from its records.
#[derive(Debug, PartialEq, Eq, Clone, Copy, Structural)]
pub enum LoadError {
    /// Record `record` has `found` fields where the header has `expected`.
    FieldCount { record: usize, expected: usize, found: usize },
    /// Field `field` of record `record` is a run of digits that is no value.
    InvalidField { record: usize, field: usize, error: NumberError },
}

/// The sentence that reports `e`.
pub open spec fn load_error_text(e: LoadError) -> Seq<char> {
    match e {
        LoadError::FieldCount { record, expected, found } => "record "@ + decimal_text(
            record as nat,
        ) + " has "@ + decimal_text(found as nat) + " fields, but the header has "@
            + decimal_text(expected as nat),
        LoadError::InvalidField { record, field, error } => "record "@ + decimal_text(
            record as nat,
        ) + ", field "@ + decimal_text(field as nat) + ": "@ + number_error_text(error),
    }
}

impl LoadError {
    /// The error as a sentence: the record, counted from zero, and what is
    /// wrong with it.
    pub fn message(&self) -> (s: String)
        ensures
            s@ == load_error_text(*self),
    {
        let mut s = String::from_str("record ");
        match self {
            LoadError::FieldCount { record, expected, found } => {
                append_decimal(&mut s, *record as u64);
                s.append(" has ");
                append_decimal(&mut s, *found as u64);
                s.append(" fields, but the header has ");
                append_decimal(&mut s, *expected as u64);
            },
            LoadError::InvalidField { record, field, error } => {
                append_decimal(&mut s, *record as u64);
                s.append(", field ");
                append_decimal(&mut s, *field as u64);
                s.append(": ");
                let reason = error.message();
                s.append(reason.as_str());
            },
        }
        assert(s@ =~= load_error_text(*self));
        s
    }
}

/// The first field of `record` that is no value, with the reason.
pub open spec fn first_invalid_field(record: Seq<Seq<char>>) -> Option<(int, NumberError)>
    decreases record.len(),
{
    if record.len() == 0 {
        None
    } else {
        match first_invalid_field(record.drop_last()) {
            Some(found) => Some(found),
            None => match parse_outcome(record.last()) {
                Ok(_) => None,
                Err(error) => Some((record.len() - 1, error)),
            },
        }
    }
}

/// What is wrong with record number `k`, for a header of `width` columns: a
/// wrong number of fields, or else its first invalid field.
pub open spec fn record_fault(width: nat, record: Seq<Seq<char>>, k: int) -> Option<LoadError> {
    if record.len() != width {
        Some(LoadError::FieldCount { record: k as usize, expected: width as usize, found: record.len() as usize })
    } else {
        match first_invalid_field(record) {
            Some((field, error)) => Some(
                LoadError::InvalidField { record: k as usize, field: field as usize, error },
            ),
            None => None,
        }
    }
}

/// The values of a record without fault, field by field.
pub open spec fn parsed_record(record: Seq<Seq<char>>) -> Seq<Datum> {
    record.map_values(|field: Seq<char>| parse_outcome(field)->Ok_0)
}

/// The texts of the records, as sequences.
pub open spec fn records_of(records: Seq<Vec<String>>) -> Seq<Seq<Seq<char>>> {
    records.map_values(|record: Vec<String>| texts_of(record@))
}

/// What loading makes of `records` under a header of `width` columns: the
/// rows of values where no record has a fault, and otherwise the fault of the
/// first record that has one.
pub open spec fn rows_outcome(width: nat, records: Seq<Seq<Seq<char>>>) -> Result<
    Seq<Seq<Datum>>,
    LoadError,
>
    decreases records.len(),
{
    if records.len() == 0 {
        Ok(Seq::empty())
    } else {
        match rows_outcome(width, records.drop_last()) {
            Err(e) => Err(e),
            Ok(rows) => match record_fault(width, records.last(), records.len() - 1) {
                Some(e) => Err(e),
                None => Ok(rows.push(parsed_record(records.last()))),
            },
        }
    }
}

/// What loading makes of a header and its records: the table of the parsed
/// rows with the columns inferred from them, or the first record's fault.
pub open spec fn load_outcome(headers: Seq<Seq<char>>, records: Seq<Seq<Seq<char>>>) -> Result<
    TableView,
    LoadError,
> {
    match rows_outcome(headers.len(), records) {
        Err(e) => Err(e),
        Ok(rows) => Ok(TableView { columns: inferred_columns(headers, rows), rows }),
    }
}

/// The rows of a successful load are the records parsed one by one, and none
/// of them has a fault.
pub proof fn lemma_rows_outcome_ok(width: nat, records: Seq<Seq<Seq<char>>>)
    requires
        rows_outcome(width, records) is Ok,
    ensures
        rows_outcome(width, records)->Ok_0.len() == records.len(),
        forall|k: int|
            0 <= k < records.len() ==> record_fault(width, #[trigger] records[k], k) is None,
        forall|k: int|
            0 <= k < records.len() ==> #[trigger] rows_outcome(width, records)->Ok_0[k]
                == parsed_record(records[k]),
    decreases records.len(),
{
    if records.len() > 0 {
        let shorter = records.drop_last();
        lemma_rows_outcome_ok(width, shorter);
        assert forall|k: int| 0 <= k < records.len() implies record_fault(
            width,
            #[trigger] records[k],
            k,
        ) is None by {
            if k < shorter.len() {
                assert(records[k] == shorter[k]);
            }
        }
    }
}

/// A failed load reports the first record with a fault.
pub proof fn lemma_rows_outcome_err(width: nat, records: Seq<Seq<Seq<char>>>)
    requires
        rows_outcome(width, records) is Err,
    ensures
        exists|k: int|
            {
                &&& 0 <= k < records.len()
                &&& #[trigger] record_fault(width, records[k], k) == Some(
                    rows_outcome(width, records)->Err_0,
                )
                &&& forall|j: int| 0 <= j < k ==> record_fault(width, #[trigger] records[j], j) is None
            },
    decreases records.len(),
{
    let shorter = records.drop_last();
    if rows_outcome(width, shorter) is Err {
        lemma_rows_outcome_err(width, shorter);
        let k = choose|k: int|
            {
                &&& 0 <= k < shorter.len()
                &&& #[trigger] record_fault(width, shorter[k], k) == Some(
                    rows_outcome(width, shorter)->Err_0,
                )
                &&& forall|j: int| 0 <= j < k ==> record_fault(width, #[trigger] shorter[j], j) is None
            };
        assert(record_fault(width, records[k], k) == Some(rows_outcome(width, records)->Err_0));
        assert forall|j: int| 0 <= j < k implies record_fault(width, #[trigger] records[j], j) is None by {
            assert(records[j] == shorter[j]);
        }
    } else {
        lemma_rows_outcome_ok(width, shorter);
        let k = records.len() - 1;
        assert(record_fault(width, records[k], k) == Some(rows_outcome(width, records)->Err_0));
        assert forall|j: int| 0 <= j < k implies record_fault(width, #[trigger] records[j], j) is None by {
            assert(records[j] == shorter[j]);
        }
    }
}

/// A table: columns and rows. Every row has one value for each column.
#[derive(Debug, PartialEq)]
pub struct Table {
    columns: Vec<Column>,
    rows: Vec<Row>,
}

impl View for Table {
    type V = TableView;

    closed spec fn view(&self) -> TableView {
        TableView {
            columns: self.columns@.map_values(|c: Column| c@),
            rows: self.rows@.map_values(|r: Row| r@),
        }
    }
}

/// The views of `rows`, in their order.
pub open spec fn rows_of(rows: Seq<Row>) -> Seq<Seq<Datum>> {
    rows.map_values(|r: Row| r@)
}

/// The views of `columns`, in their order.
pub open spec fn columns_of(columns: Seq<Column>) -> Seq<ColumnView> {
    columns.map_values(|c: Column| c@)
}

impl Table {
    /// What holds of every table: each row has one value for each column,
    /// and each column has the type that its values give it.
    #[verifier::type_invariant]
    pub open spec fn well_formed(&self) -> bool {
        self@.well_formed()
    }

    /// Builds a table from a header row and the data records under it.
    ///
    /// Each field becomes a value, each header a column whose type is
    /// inferred from the values under it. The load fails on the first record
    /// that has not as many fields as the header, or that holds a run of
    /// digits which is no value.
    pub fn load_from(headers: &Vec<String>, records: &Vec<Vec<String>>) -> (r: Result<Table, LoadError>)
        ensures
            match r {
                Ok(table) => load_outcome(texts_of(headers@), records_of(records@)) == Ok::<
                    TableView,
                    LoadError,
                >(table@),
                Err(e) => load_outcome(texts_of(headers@), records_of(records@)) == Err::<
                    TableView,
                    LoadError,
                >(e),
            },
    {
        match Table::parse_rows(records, headers.len()) {
            Err(e) => Err(e),
            Ok(rows) => {
                proof {
                    let all = records_of(records@);
                    lemma_rows_outcome_ok(headers.len() as nat, all);
                    assert forall|r: int| 0 <= r < rows.len() implies (#[trigger] rows[r])@.len()
                        == headers.len() by {
                        assert(record_fault(headers.len() as nat, all[r], r) is None);
                        assert(rows_of(rows@)[r] == parsed_record(all[r]));
                    }
                }
                let columns = Table::parse_columns(headers, &rows);
                let table = Table { columns, rows };
                proof {
                    assert(table@.columns =~= inferred_columns(texts_of(headers@), rows_of(rows@)));
                }
                Ok(table)
            },
        }
    }

    /// Parses one record of `width` fields into a row.
    fn parse_record(record: &Vec<String>, width: usize, k: usize) -> (r: Result<Row, LoadError>)
        ensures
            match r {
                Ok(row) => record_fault(width as nat, texts_of(record@), k as int) is None && row@
                    == parsed_record(texts_of(record@)),
                Err(e) => record_fault(width as nat, texts_of(record@), k as int) == Some(e),
            },
    {
        let ghost texts = texts_of(record@);
        if record.len() != width {
            return Err(LoadError::FieldCount { record: k, expected: width, found: record.len() });
        }
        let mut fields: Vec<Value> = Vec::new();
        let mut j: usize = 0;
        while j < record.len()
            invariant
                0 <= j <= record.len(),
                record.len() == width,
                texts == texts_of(record@),
                fields.len() == j,
                first_invalid_field(texts.subrange(0, j as int)) is None,
                forall|i: int|
                    0 <= i < j ==> (#[trigger] fields[i])@ == parse_outcome(texts[i])->Ok_0,
            decreases record.len() - j,
        {
            let ghost before = texts.subrange(0, j as int);
            let ghost after = texts.subrange(0, j + 1);
            assert(after.drop_last() =~= before);
            assert(after.last() == record[j as int]@);
            match Value::parse_value(record[j].clone()) {
                Ok(value) => {
                    fields.push(value);
                },
                Err(error) => {
                    proof {
                        assert(first_invalid_field(after) == Some((j as int, error)));
                        lemma_first_invalid_field_stays(texts, j + 1);
                    }
                    return Err(LoadError::InvalidField { record: k, field: j, error });
                },
            }
            j = j + 1;
        }
        let row = Row { fields };
        proof {
            assert(texts.subrange(0, j as int) =~= texts);
            assert(row@ =~= parsed_record(texts));
        }
        Ok(row)
    }

    /// Parses the records into rows, each of `width` values.
    fn parse_rows(records: &Vec<Vec<String>>, width: usize) -> (r: Result<Vec<Row>, LoadError>)
        ensures
            match r {
                Ok(rows) => rows_outcome(width as nat, records_of(records@)) == Ok::<
                    Seq<Seq<Datum>>,
                    LoadError,
                >(rows_of(rows@)),
                Err(e) => rows_outcome(width as nat, records_of(records@)) == Err::<
                    Seq<Seq<Datum>>,
                    LoadError,
                >(e),
            },
    {
        let ghost all = records_of(records@);
        let mut rows: Vec<Row> = Vec::new();
        let mut k: usize = 0;
        assert(rows_of(rows@) =~= Seq::empty());
        while k < records.len()
            invariant
                0 <= k <= records.len(),
                all == records_of(records@),
                rows_outcome(width as nat, all.subrange(0, k as int)) == Ok::<
                    Seq<Seq<Datum>>,
                    LoadError,
                >(rows_of(rows@)),
            decreases records.len() - k,
        {
            let ghost before = all.subrange(0, k as int);
            let ghost after = all.subrange(0, k + 1);
            assert(after.drop_last() =~= before);
            assert(after.last() == texts_of(records[k as int]@));
            match Table::parse_record(&records[k], width, k) {
                Ok(row) => {
                    let ghost old_rows = rows_of(rows@);
                    rows.push(row);
                    assert(rows_of(rows@) =~= old_rows.push(row@));
                },
                Err(e) => {
                    proof {
                        lemma_rows_outcome_err_stays(width as nat, all, k + 1);
                    }
                    return Err(e);
                },
            }
            k = k + 1;
        }
        assert(all.subrange(0, k as int) =~= all);
        Ok(rows)
    }

    /// Gives each header its column, with the type that `rows` give it.
    fn parse_columns(headers: &Vec<String>, rows: &Vec<Row>) -> (columns: Vec<Column>)
        requires
            forall|r: int| 0 <= r < rows.len() ==> (#[trigger] rows[r])@.len() == headers.len(),
        ensures
            columns_of(columns@) == inferred_columns(texts_of(headers@), rows_of(rows@)),
    {
        let mut columns: Vec<Column> = Vec::new();
        let mut c: usize = 0;
        while c < headers.len()
            invariant
                0 <= c <= headers.len(),
                columns.len() == c,
                forall|r: int| 0 <= r < rows.len() ==> (#[trigger] rows[r])@.len() == headers.len(),
                forall|i: int|
                    0 <= i < c ==> (#[trigger] columns[i])@ == (ColumnView {
                        name: headers[i]@,
                        column_type: inferred_type(rows_of(rows@), i),
                    }),
            decreases headers.len() - c,
        {
            let mut is_integer_column = true;
            let mut r: usize = 0;
            while r < rows.len()
                invariant
                    0 <= r <= rows.len(),
                    c < headers.len(),
                    forall|r: int|
                        0 <= r < rows.len() ==> (#[trigger] rows[r])@.len() == headers.len(),
                    is_integer_column == (forall|k: int|
                        0 <= k < r ==> (#[trigger] rows_of(rows@)[k])[c as int] is Integer),
                decreases rows.len() - r,
            {
                assert(rows[r as int]@.len() == headers.len());
                assert(rows_of(rows@)[r as int][c as int] == rows[r as int].fields[c as int]@);
                match &rows[r].fields[c] {
                    Value::Integer(_) => {},
                    Value::Text(_) => {
                        is_integer_column = false;
                    },
                }
                r = r + 1;
            }
            let column_type = if is_integer_column {
                ColumnType::Integer
            } else {
                ColumnType::Text
            };
            columns.push(Column { name: headers[c].clone(), column_type });
            c = c + 1;
        }
        assert(columns_of(columns@) =~= inferred_columns(texts_of(headers@), rows_of(rows@)));
        columns
    }

    /// The table's columns, in declaration order.
    pub fn columns(&self) -> (columns: &Vec<Column>)
        ensures
            columns_of(columns@) == self@.columns,
            self@.well_formed(),
    {
        proof {
            use_type_invariant(self);
        }
        &self.columns
    }

    /// The table's rows, in source order.
    pub fn rows(&self) -> (rows: &Vec<Row>)
        ensures
            rows_of(rows@) == self@.rows,
            self@.well_formed(),
    {
        proof {
            use_type_invariant(self);
        }
        &self.rows
    }

    /// The number of rows.
    pub fn row_count(&self) -> (n: usize)
        ensures
            n == self@.rows.len(),
    {
        self.rows.len()
    }

    /// The number of columns.
    pub fn column_count(&self) -> (n: usize)
        ensures
            n == self@.columns.len(),
    {
        self.columns.len()
    }

    /// The value of row `row` in column `column`.
    pub fn field(&self, row: usize, column: usize) -> (value: &Value)
        requires
            row < self@.rows.len(),
            column < self@.columns.len(),
        ensures
            value@ == self@.rows[row as int][column as int],
    {
        proof {
            use_type_invariant(self);
            assert(self@.rows[row as int].len() == self@.columns.len());
        }
        &self.rows[row].fields[column]
    }

    /// The names of the table's columns, in declaration order.
    pub fn column_names(&self) -> (names: Vec<String>)
        ensures
            texts_of(names@) == self@.column_names(),
    {
        let mut names: Vec<String> = Vec::new();
        let mut c: usize = 0;
        while c < self.columns.len()
            invariant
                0 <= c <= self.columns.len(),
                names.len() == c,
                forall|i: int| 0 <= i < c ==> (#[trigger] names[i])@ == self.columns[i].name@,
            decreases self.columns.len() - c,
        {
            names.push(self.columns[c].name.clone());
            c = c + 1;
        }
        assert(texts_of(names@) =~= self@.column_names());
        names
    }

    /// Finds the position of the first column called `name`.
    ///
    /// Where the table has no such column, the error carries the name and
    /// the names of the columns that do exist.
    pub fn find_column_position(&self, name: &String) -> (r: Result<usize, ColumnNotFound>)
        ensures
            match r {
                Ok(position) => self@.position_of(name@) == Some(position as int),
                Err(e) => {
                    &&& self@.position_of(name@) is None
                    &&& e.name@ == name@
                    &&& texts_of(e.available_columns@) == self@.column_names()
                },
            },
    {
        let ghost names = self@.column_names();
        let mut c: usize = 0;
        while c < self.columns.len()
            invariant
                0 <= c <= self.columns.len(),
                names == self@.column_names(),
                forall|i: int| 0 <= i < c ==> names[i] != name@,
            decreases self.columns.len() - c,
        {
            assert(names[c as int] == self.columns[c as int].name@);
            if self.columns[c].name == *name {
                proof {
                    assert(names.contains(name@));
                    names.index_of_first_ensures(name@);
                }
                return Ok(c);
            }
            c = c + 1;
        }
        proof {
            names.index_of_first_ensures(name@);
        }
        Err(ColumnNotFound { name: name.clone(), available_columns: self.column_names() })
    }
}

/// A fault among the first `i` fields is the record's first fault.
proof fn lemma_first_invalid_field_stays(record: Seq<Seq<char>>, i: int)
    requires
        0 <= i <= record.len(),
        first_invalid_field(record.subrange(0, i)) is Some,
    ensures
        first_invalid_field(record) == first_invalid_field(record.subrange(0, i)),
    decreases record.len(),
{
    if i == record.len() {
        assert(record.subrange(0, i) =~= record);
    } else {
        assert(record.drop_last().subrange(0, i) =~= record.subrange(0, i));
        lemma_first_invalid_field_stays(record.drop_last(), i);
    }
}

/// A fault among the first `k` records is the load's fault.
proof fn lemma_rows_outcome_err_stays(width: nat, records: Seq<Seq<Seq<char>>>, k: int)
    requires
        0 <= k <= records.len(),
        rows_outcome(width, records.subrange(0, k)) is Err,
    ensures
        rows_outcome(width, records) == rows_outcome(width, records.subrange(0, k)),
    decreases records.len(),
{
    if k == records.len() {
        assert(records.subrange(0, k) =~= records);
    } else {
        assert(records.drop_last().subrange(0, k) =~= records.subrange(0, k));
        lemma_rows_outcome_err_stays(width, records.drop_last(), k);
    }
}

} // verus!
