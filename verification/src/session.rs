//! One turn of a query session: what to answer to a line of input, given
//! the table that the session holds.

use crate::index::{IndexedTable, IndexedTableView};
use crate::query::{fault_text, parse_result, Query};
use crate::query_engine::{execute, execute_outcome, row_text, ResultSet};
use crate::table::column_not_found_text;
use crate::text::{append_joined, joined, split_words, strs_of, texts_of, words};
use crate::value::{text_equal, Datum};
use vstd::prelude::*;
use vstd::string::{StringExecFns, StringSliceAdditionalSpecFns};
use vstd::utf8::encode_utf8;

verus! {

/// What the session does with a line of input.
#[derive(Debug, PartialEq)]
pub enum Reply {
    /// The session ends.
    Exit,
    /// The query was run: the text to print.
    Output(String),
    /// The line is no query, or the query names an unknown column: the
    /// sentence to report.
    Failure(String),
}

/// What a [`Reply`] stands for.
pub enum ReplyView {
    Exit,
    Output(Seq<char>),
    Failure(Seq<char>),
}

impl View for Reply {
    type V = ReplyView;

    open spec fn view(&self) -> ReplyView {
        match self {
            Reply::Exit => ReplyView::Exit,
            Reply::Output(text) => ReplyView::Output(text@),
            Reply::Failure(text) => ReplyView::Failure(text@),
        }
    }
}

/// Whether the words of a line ask to end the session: the one word `exit`,
/// `quit` or `q`.
pub open spec fn is_exit(tokens: Seq<Seq<char>>) -> bool {
    tokens.len() == 1 && (tokens[0] == "exit"@ || tokens[0] == "quit"@ || tokens[0] == "q"@)
}

/// A line of `n` dashes.
pub open spec fn dashes(n: nat) -> Seq<char> {
    Seq::new(n, |i: int| '-')
}

/// The rows of a result, each on a line of its own.
pub open spec fn result_lines(rows: Seq<Seq<Datum>>) -> Seq<char>
    decreases rows.len(),
{
    if rows.len() == 0 {
        Seq::empty()
    } else {
        result_lines(rows.drop_last()) + row_text(rows.last()) + "\n"@
    }
}

/// The header of a result: the names of its columns with commas between
/// them.
pub open spec fn header_of(column_names: Seq<Seq<char>>) -> Seq<char> {
    joined(column_names, ","@)
}

/// How a result is printed: the header, under it a line of dashes as long
/// as the header has bytes, then the rows, one on each line.
pub open spec fn rendering(column_names: Seq<Seq<char>>, rows: Seq<Seq<Datum>>) -> Seq<char> {
    header_of(column_names) + "\n"@ + dashes(encode_utf8(header_of(column_names)).len()) + "\n"@
        + result_lines(rows)
}

/// The answer to the line `input` in a session on the table `t`: the end of
/// the session for an exit command; else the printed result of the query
/// that the line writes, or the sentence that tells why there is none.
pub open spec fn reply_to(input: Seq<char>, t: IndexedTableView) -> ReplyView {
    if is_exit(words(input)) {
        ReplyView::Exit
    } else {
        match parse_result(words(input)) {
            Err(fault) => ReplyView::Failure(
                "Query parsing error: "@ + fault_text(fault, words(input)),
            ),
            Ok(query) => match execute_outcome(query, t) {
                Err(name) => ReplyView::Failure(
                    "Query execution error: "@ + column_not_found_text(
                        name,
                        t.table.column_names(),
                    ),
                ),
                Ok(rows) => ReplyView::Output(rendering(query.column_names, rows)),
            },
        }
    }
}

/// Whether the words of a line ask to end the session.
pub fn is_exit_command(tokens: &Vec<&str>) -> (r: bool)
    ensures
        r == is_exit(strs_of(tokens@)),
{
    if tokens.len() != 1 {
        return false;
    }
    assert(strs_of(tokens@)[0] == tokens[0]@);
    text_equal(tokens[0], "exit") || text_equal(tokens[0], "quit") || text_equal(tokens[0], "q")
}

/// The text that prints `result` under the names of its columns.
pub fn render(column_names: &Vec<String>, result: &ResultSet) -> (text: String)
    ensures
        text@ == rendering(texts_of(column_names@), result@),
{
    let mut header = String::new();
    append_joined(&mut header, column_names, ",");
    let ghost title = header@;
    assert(title =~= header_of(texts_of(column_names@)));
    let width = header.as_str().as_bytes().len();
    assert(width == encode_utf8(title).len());
    let mut text = header;
    text.append("\n");
    let ghost top = text@;
    let mut n: usize = 0;
    assert(text@ =~= top + dashes(0));
    while n < width
        invariant
            0 <= n <= width,
            text@ == top + dashes(n as nat),
        decreases width - n,
    {
        proof {
            reveal_strlit("-");
        }
        text.append("-");
        n = n + 1;
        assert(text@ =~= top + dashes(n as nat));
    }
    text.append("\n");
    let ghost head = text@;
    assert(head =~= title + "\n"@ + dashes(encode_utf8(title).len()) + "\n"@);
    let ghost rows = result@;
    let mut i: usize = 0;
    assert(rows.subrange(0, 0) =~= Seq::empty());
    assert(text@ =~= head + result_lines(rows.subrange(0, 0)));
    while i < result.rows.len()
        invariant
            0 <= i <= result.rows.len(),
            rows == result@,
            text@ == head + result_lines(rows.subrange(0, i as int)),
        decreases result.rows.len() - i,
    {
        let ghost before = rows.subrange(0, i as int);
        let ghost after = rows.subrange(0, i + 1);
        assert(after.drop_last() =~= before);
        assert(after.last() == result.rows[i as int]@);
        let line = result.rows[i].display();
        text.append(line.as_str());
        text.append("\n");
        assert(text@ =~= head + result_lines(after));
        i = i + 1;
    }
    assert(rows.subrange(0, i as int) =~= rows);
    assert(text@ =~= rendering(texts_of(column_names@), result@));
    text
}

/// Answers one line of input in a session on `table`.
pub fn respond<'a>(input: &str, table: &IndexedTable<'a>) -> (reply: Reply)
    ensures
        reply@ == reply_to(input@, table@),
{
    let tokens = split_words(input);
    if is_exit_command(&tokens) {
        return Reply::Exit;
    }
    match Query::parse(input) {
        Err(e) => {
            let mut sentence = String::from_str("Query parsing error: ");
            let reason = e.message();
            sentence.append(reason.as_str());
            Reply::Failure(sentence)
        },
        Ok(query) => match execute(&query, table) {
            Err(e) => {
                let mut sentence = String::from_str("Query execution error: ");
                let reason = e.message();
                sentence.append(reason.as_str());
                Reply::Failure(sentence)
            },
            Ok(result) => Reply::Output(render(&query.column_names, &result)),
        },
    }
}

} // verus!
