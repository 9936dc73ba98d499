//! Queries in structured form: the columns to project, and an optional
//! filter on one column.

use crate::decimal::{append_decimal, decimal_text};
use crate::text::{owned_tokens, split_words, strs_of, texts_of, words};
use crate::value::{Datum, Value};
use vstd::prelude::*;
use vstd::std_specs::iter::IteratorSpec;
use vstd::string::{StrSliceExecFns, StringExecFns};

verus! {

broadcast use vstd::string::group_string_axioms;

/// The operator of a filter.
#[derive(Debug, PartialEq, Eq, Clone, Copy, Structural)]
pub enum FilterType {
    /// The field is strictly greater than the filter's value.
    Greater,
    /// The field equals the filter's value.
    Equal,
}

/// A filter: a column, an operator and a value to hold the column against.
#[derive(Debug, PartialEq)]
pub struct Filter {
    pub column_name: String,
    pub value: Value,
    pub filter_type: FilterType,
}

/// What a [`Filter`] stands for.
pub struct FilterView {
    pub column_name: Seq<char>,
    pub value: Datum,
    pub filter_type: FilterType,
}

impl View for Filter {
    type V = FilterView;

    open spec fn view(&self) -> FilterView {
        FilterView {
            column_name: self.column_name@,
            value: self.value@,
            filter_type: self.filter_type,
        }
    }
}

/// A query: the names of the columns to return, in order, and a filter that
/// selects the rows, if any.
#[derive(Debug, PartialEq)]
pub struct Query {
    pub column_names: Vec<String>,
    pub filter: Option<Filter>,
}

/// What a [`Query`] stands for.
pub struct QueryView {
    pub column_names: Seq<Seq<char>>,
    pub filter: Option<FilterView>,
}

impl View for Query {
    type V = QueryView;

    open spec fn view(&self) -> QueryView {
        QueryView {
            column_names: texts_of(self.column_names@),
            filter: match self.filter {
                Some(filter) => Some(filter@),
                None => None,
            },
        }
    }
}

/// What is wrong with the words of a query.
#[derive(Debug, PartialEq, Eq, Clone, Copy, Structural)]
pub enum SyntaxError {
    /// There is no word where the projection should begin.
    MissingProjection,
    /// The word where the projection should begin is not `PROJECT`.
    ExpectedProject,
    /// The word behind the projection is not `FILTER`.
    ExpectedFilter,
    /// No word follows `FILTER`.
    MissingFilterColumn,
    /// No word follows the filter's column.
    MissingOperator,
    /// The word behind the filter's column is neither `>` nor `=`.
    UnknownOperator,
    /// No word follows the filter's operator.
    MissingValue,
    /// Words are left behind a complete query.
    UnexpectedSuffix,
}

/// Why a text is no query, as a plain value.
pub enum ParseFault {
    /// `PROJECT` is followed by no column name.
    EmptyProjection,
    /// The filter's value is a run of digits that is no value.
    InvalidValue(crate::value::NumberError),
    /// The words do not follow the grammar; `position` is the place that the
    /// error reports.
    Syntax { kind: SyntaxError, position: int },
}

/// Why a text is no query.
#[derive(Debug, PartialEq)]
pub enum ParseError {
    /// `PROJECT` is followed by no column name.
    EmptyProjection,
    /// The filter's value is a run of digits that is no value.
    InvalidValue(crate::value::NumberError),
    /// The words do not follow the grammar. `tokens` are the words of the
    /// text, `position` is the place that the error reports.
    Syntax { kind: SyntaxError, tokens: Vec<String>, position: usize },
}

impl View for ParseError {
    type V = ParseFault;

    open spec fn view(&self) -> ParseFault {
        match self {
            ParseError::EmptyProjection => ParseFault::EmptyProjection,
            ParseError::InvalidValue(e) => ParseFault::InvalidValue(*e),
            ParseError::Syntax { kind, tokens, position } => ParseFault::Syntax {
                kind: *kind,
                position: *position as int,
            },
        }
    }
}

impl ParseError {
    /// The words that the error carries: those of the text, where the error
    /// is one of syntax.
    pub open spec fn held_tokens(&self) -> Seq<Seq<char>> {
        match self {
            ParseError::Syntax { kind, tokens, position } => texts_of(tokens@),
            _ => Seq::empty(),
        }
    }

    /// Whether the error, where it is one of syntax, carries the words
    /// `tokens`.
    pub open spec fn carries(&self, tokens: Seq<Seq<char>>) -> bool {
        self is Syntax ==> self.held_tokens() == tokens
    }
}

/// How a syntax error of kind `kind` begins its sentence.
pub open spec fn syntax_lead(kind: SyntaxError) -> Seq<char> {
    match kind {
        SyntaxError::MissingProjection => "Could not parse projection part"@,
        SyntaxError::ExpectedProject => "Expected to find keyword PROJECT"@,
        SyntaxError::ExpectedFilter => "Expected to find keyword FILTER"@,
        SyntaxError::MissingFilterColumn => "Could not find column in the filter"@,
        SyntaxError::MissingOperator => "Could not find operator '>' or '=' in the filter"@,
        SyntaxError::UnknownOperator => "Unknown filter operator"@,
        SyntaxError::MissingValue => "Could not find value to filter by in the filter"@,
        SyntaxError::UnexpectedSuffix => "Unexpected suffix found"@,
    }
}

/// The sentence that reports a syntax error of kind `kind` at `position`,
/// given the listing of the words.
pub open spec fn syntax_text(kind: SyntaxError, listing: Seq<char>, position: nat) -> Seq<char> {
    syntax_lead(kind) + " in "@ + listing + " at position "@ + decimal_text(position)
}

/// How a list of words is written out for a reader: what the standard
/// library's `Debug` formatting makes of a list of strings.
pub uninterp spec fn debug_listing(tokens: Seq<Seq<char>>) -> Seq<char>;

/// Formats `tokens` with [`std::fmt::Debug`], as `format!("{:?}", ..)` does
/// for a vector of strings: the words in double quotes, with escapes,
/// between square brackets. The contract only gives the result its name.
#[verifier::external_body]
fn debug_format(tokens: &Vec<String>) -> (s: String)
    ensures
        s@ == debug_listing(texts_of(tokens@)),
{
    format!("{:?}", tokens)
}

/// The sentence that reports a syntax error of kind `kind` at `position`,
/// given the listing of the words.
pub fn syntax_message(kind: SyntaxError, listing: &str, position: usize) -> (s: String)
    ensures
        s@ == syntax_text(kind, listing@, position as nat),
{
    let lead = match kind {
        SyntaxError::MissingProjection => "Could not parse projection part",
        SyntaxError::ExpectedProject => "Expected to find keyword PROJECT",
        SyntaxError::ExpectedFilter => "Expected to find keyword FILTER",
        SyntaxError::MissingFilterColumn => "Could not find column in the filter",
        SyntaxError::MissingOperator => "Could not find operator '>' or '=' in the filter",
        SyntaxError::UnknownOperator => "Unknown filter operator",
        SyntaxError::MissingValue => "Could not find value to filter by in the filter",
        SyntaxError::UnexpectedSuffix => "Unexpected suffix found",
    };
    let mut s = String::from_str(lead);
    s.append(" in ");
    s.append(listing);
    s.append(" at position ");
    append_decimal(&mut s, position as u64);
    assert(s@ =~= syntax_text(kind, listing@, position as nat));
    s
}

/// The sentence that reports the fault `fault` of a text with the words
/// `tokens`.
pub open spec fn fault_text(fault: ParseFault, tokens: Seq<Seq<char>>) -> Seq<char> {
    match fault {
        ParseFault::EmptyProjection => "Projection column list is empty"@,
        ParseFault::InvalidValue(e) => crate::value::number_error_text(e),
        ParseFault::Syntax { kind, position } => syntax_text(
            kind,
            debug_listing(tokens),
            position as nat,
        ),
    }
}

impl ParseError {
    /// The error as a sentence. A syntax error lists the words of the text
    /// and names the place where it was found.
    pub fn message(&self) -> (s: String)
        ensures
            s@ == fault_text(self@, self.held_tokens()),
    {
        match self {
            ParseError::EmptyProjection => String::from_str("Projection column list is empty"),
            ParseError::InvalidValue(e) => e.message(),
            ParseError::Syntax { kind, tokens, position } => {
                let listing = debug_format(tokens);
                syntax_message(*kind, listing.as_str(), *position)
            },
        }
    }
}

/// Whether `token` ends in a comma.
pub open spec fn ends_with_comma(token: Seq<char>) -> bool {
    token.len() > 0 && token.last() == ','
}

/// The column names that the words from place `at` on list, and the place
/// behind the list. A word that ends in a comma gives its name without the
/// comma and the list goes on; any other word but `FILTER` gives the last
/// name; `FILTER`, or the end of the words, ends the list.
pub open spec fn projection_from(tokens: Seq<Seq<char>>, at: int) -> (Seq<Seq<char>>, int)
    decreases tokens.len() - at,
{
    if at < 0 || at >= tokens.len() {
        (Seq::empty(), at)
    } else if ends_with_comma(tokens[at]) {
        let rest = projection_from(tokens, at + 1);
        (seq![tokens[at].drop_last()] + rest.0, rest.1)
    } else if tokens[at] != "FILTER"@ {
        (seq![tokens[at]], at + 1)
    } else {
        (Seq::empty(), at)
    }
}

/// What the projection part at place `position` of the words gives: the
/// column names and the place behind them, or what is wrong.
pub open spec fn projection_outcome(tokens: Seq<Seq<char>>, position: int) -> Result<
    (Seq<Seq<char>>, int),
    ParseFault,
> {
    if position >= tokens.len() {
        Err(ParseFault::Syntax { kind: SyntaxError::MissingProjection, position })
    } else if tokens[position] != "PROJECT"@ {
        Err(ParseFault::Syntax { kind: SyntaxError::ExpectedProject, position })
    } else if projection_from(tokens, position + 1).0.len() == 0 {
        Err(ParseFault::EmptyProjection)
    } else {
        Ok(projection_from(tokens, position + 1))
    }
}

/// The operator that `token` writes, if it writes one.
pub open spec fn operator_of(token: Seq<char>) -> Option<FilterType> {
    if token == ">"@ {
        Some(FilterType::Greater)
    } else if token == "="@ {
        Some(FilterType::Equal)
    } else {
        None
    }
}

/// The number of double quotes that `s` begins with.
pub open spec fn leading_quotes(s: Seq<char>) -> nat
    decreases s.len(),
{
    if s.len() > 0 && s[0] == '"' {
        1 + leading_quotes(s.drop_first())
    } else {
        0
    }
}

/// The number of double quotes that `s` ends with.
pub open spec fn trailing_quotes(s: Seq<char>) -> nat
    decreases s.len(),
{
    if s.len() > 0 && s.last() == '"' {
        1 + trailing_quotes(s.drop_last())
    } else {
        0
    }
}

/// `s` without the double quotes that it begins and ends with.
pub open spec fn unquoted(s: Seq<char>) -> Seq<char> {
    if leading_quotes(s) == s.len() {
        Seq::empty()
    } else {
        s.subrange(leading_quotes(s) as int, s.len() - trailing_quotes(s))
    }
}

/// What the filter part at place `position` of the words gives: no filter
/// where the words end there; else the filter that the four words `FILTER`,
/// column, operator and value write, and the place behind them; or what is
/// wrong.
pub open spec fn filter_outcome(tokens: Seq<Seq<char>>, position: int) -> Result<
    (Option<FilterView>, int),
    ParseFault,
> {
    if position >= tokens.len() {
        Ok((None, position))
    } else if tokens[position] != "FILTER"@ {
        Err(ParseFault::Syntax { kind: SyntaxError::ExpectedFilter, position })
    } else if position + 1 >= tokens.len() {
        Err(ParseFault::Syntax { kind: SyntaxError::MissingFilterColumn, position: position + 1 })
    } else if position + 2 >= tokens.len() {
        Err(ParseFault::Syntax { kind: SyntaxError::MissingOperator, position })
    } else if operator_of(tokens[position + 2]) is None {
        Err(ParseFault::Syntax { kind: SyntaxError::UnknownOperator, position: position + 2 })
    } else if position + 3 >= tokens.len() {
        Err(ParseFault::Syntax { kind: SyntaxError::MissingValue, position: position + 3 })
    } else {
        match crate::value::parse_outcome(unquoted(tokens[position + 3])) {
            Err(e) => Err(ParseFault::InvalidValue(e)),
            Ok(value) => Ok(
                (
                    Some(
                        FilterView {
                            column_name: tokens[position + 1],
                            value,
                            filter_type: operator_of(tokens[position + 2])->0,
                        },
                    ),
                    position + 4,
                ),
            ),
        }
    }
}

/// What the words from place `position` on give: a query and the place
/// behind it, or what is wrong.
pub open spec fn query_outcome(tokens: Seq<Seq<char>>, position: int) -> Result<
    (QueryView, int),
    ParseFault,
> {
    match projection_outcome(tokens, position) {
        Err(e) => Err(e),
        Ok((column_names, behind_projection)) => match filter_outcome(tokens, behind_projection) {
            Err(e) => Err(e),
            Ok((filter, behind_filter)) => Ok((QueryView { column_names, filter }, behind_filter)),
        },
    }
}

/// What a text with the words `tokens` gives: the query that they write,
/// or what is wrong with them. Words behind a complete query are an error.
pub open spec fn parse_result(tokens: Seq<Seq<char>>) -> Result<QueryView, ParseFault> {
    match query_outcome(tokens, 0) {
        Err(e) => Err(e),
        Ok((query, behind)) => if behind == tokens.len() {
            Ok(query)
        } else {
            Err(ParseFault::Syntax { kind: SyntaxError::UnexpectedSuffix, position: behind })
        },
    }
}

/// The syntax error of kind `kind` at `position` in the words `tokens`.
fn syntax_error(kind: SyntaxError, tokens: &Vec<&str>, position: usize) -> (e: ParseError)
    ensures
        e@ == (ParseFault::Syntax { kind, position: position as int }),
        e.carries(strs_of(tokens@)),
{
    ParseError::Syntax { kind, tokens: owned_tokens(tokens), position }
}

/// `token` without its last character, where that is a comma.
pub fn strip_comma<'a>(token: &'a str) -> (r: Option<&'a str>)
    ensures
        match r {
            Some(name) => ends_with_comma(token@) && name@ == token@.drop_last(),
            None => !ends_with_comma(token@),
        },
{
    let length = token.unicode_len();
    if length > 0 && token.get_char(length - 1) == ',' {
        Some(token.substring_char(0, length - 1))
    } else {
        None
    }
}

/// `token` without the double quotes that it begins and ends with.
pub fn strip_quotes<'a>(token: &'a str) -> (r: &'a str)
    ensures
        r@ == unquoted(token@),
{
    let ghost s = token@;
    let length = token.unicode_len();
    let mut chars = token.chars();
    let mut i: usize = 0;
    let mut leading: usize = 0;
    let mut trailing: usize = 0;
    assert(s.subrange(0, 0) =~= Seq::empty());
    loop
        invariant_except_break
            chars.remaining() == s.skip(i as int),
        invariant
            s == token@,
            length == s.len(),
            0 <= i <= length,
            chars.obeys_prophetic_iter_laws(),
            leading <= i,
            trailing <= i,
            leading == leading_quotes(s.subrange(0, i as int)),
            trailing == trailing_quotes(s.subrange(0, i as int)),
            leading < i ==> leading == leading_quotes(s),
        ensures
            i == length,
        decreases length - i,
    {
        match chars.next() {
            None => {
                break ;
            },
            Some(c) => {
                proof {
                    let before = s.subrange(0, i as int);
                    let after = s.subrange(0, i + 1);
                    assert(s.skip(i as int).drop_first() =~= s.skip(i + 1));
                    assert(after.drop_last() =~= before);
                    assert(after.last() == c);
                    assert(after =~= before.push(c));
                    lemma_leading_quotes_push(before, c);
                    if leading == i && c != '"' {
                        lemma_leading_quotes_prefix(s, i as int);
                    }
                }
                if c == '"' {
                    if leading == i {
                        leading = leading + 1;
                    }
                    trailing = trailing + 1;
                } else {
                    trailing = 0;
                }
                i = i + 1;
            },
        }
    }
    assert(s.subrange(0, i as int) =~= s);
    if leading == length {
        proof {
            reveal_strlit("");
        }
        let empty = "";
        assert(empty@ =~= Seq::<char>::empty());
        empty
    } else {
        proof {
            lemma_quotes_apart(s);
        }
        token.substring_char(leading, length - trailing)
    }
}

/// Counting leading quotes over one more character: the count grows where
/// all characters so far are quotes and the next one is too.
proof fn lemma_leading_quotes_push(s: Seq<char>, c: char)
    ensures
        leading_quotes(s.push(c)) == if leading_quotes(s) == s.len() && c == '"' {
            s.len() + 1
        } else {
            leading_quotes(s)
        },
        leading_quotes(s) <= s.len(),
    decreases s.len(),
{
    let longer = s.push(c);
    if s.len() > 0 && s[0] == '"' {
        lemma_leading_quotes_push(s.drop_first(), c);
        assert(longer.drop_first() =~= s.drop_first().push(c));
        assert(longer[0] == '"');
        assert(leading_quotes(longer) == 1 + leading_quotes(longer.drop_first()));
    } else if s.len() == 0 {
        assert(longer.drop_first() =~= Seq::<char>::empty());
        assert(longer[0] == c);
        assert(leading_quotes(longer.drop_first()) == 0);
    } else {
        assert(longer[0] == s[0]);
    }
}

/// Where the first `i` characters are quotes and the next is not, the text
/// begins with exactly `i` quotes.
proof fn lemma_leading_quotes_prefix(s: Seq<char>, i: int)
    requires
        0 <= i < s.len(),
        leading_quotes(s.subrange(0, i)) == i,
        s[i] != '"',
    ensures
        leading_quotes(s) == i,
    decreases i,
{
    if i > 0 {
        let prefix = s.subrange(0, i);
        assert(prefix[0] == s[0]);
        assert(prefix.drop_first() =~= s.drop_first().subrange(0, i - 1));
        lemma_leading_quotes_prefix(s.drop_first(), i - 1);
    }
}

/// In a text that is not made of quotes alone, the quotes at its beginning
/// and those at its end do not meet.
proof fn lemma_quotes_apart(s: Seq<char>)
    requires
        leading_quotes(s) != s.len(),
    ensures
        leading_quotes(s) + trailing_quotes(s) <= s.len(),
    decreases s.len(),
{
    lemma_leading_quotes_push(s, ' ');
    if s.len() > 0 && s.last() == '"' {
        let shorter = s.drop_last();
        lemma_leading_quotes_push(shorter, '"');
        assert(shorter.push('"') =~= s);
        lemma_quotes_apart(shorter);
    }
}

impl FilterType {
    /// The operator that `input` writes: `>` or `=`.
    pub fn from(input: &str) -> (r: Option<FilterType>)
        ensures
            r == operator_of(input@),
    {
        if crate::value::text_equal(input, ">") {
            Some(FilterType::Greater)
        } else if crate::value::text_equal(input, "=") {
            Some(FilterType::Equal)
        } else {
            None
        }
    }
}

impl Query {
    /// Reads a query from a text of the form
    /// `PROJECT <col>[, <col>...] [FILTER <col> (> | =) <value>]`.
    pub fn parse(input: &str) -> (r: Result<Query, ParseError>)
        ensures
            match r {
                Ok(query) => parse_result(words(input@)) == Ok::<QueryView, ParseFault>(query@),
                Err(e) => parse_result(words(input@)) == Err::<QueryView, ParseFault>(e@)
                    && e.carries(words(input@)),
            },
    {
        let tokens = split_words(input);
        match Query::parse_query(&tokens, 0) {
            Err(e) => Err(e),
            Ok((query, final_position)) => {
                if final_position == tokens.len() {
                    Ok(query)
                } else {
                    Err(syntax_error(SyntaxError::UnexpectedSuffix, &tokens, final_position))
                }
            },
        }
    }

    /// Reads a query from the words at place `position` on, and tells the
    /// place behind it.
    pub fn parse_query(tokens: &Vec<&str>, position: usize) -> (r: Result<
        (Query, usize),
        ParseError,
    >)
        ensures
            match r {
                Ok((query, behind)) => query_outcome(strs_of(tokens@), position as int) == Ok::<
                    (QueryView, int),
                    ParseFault,
                >((query@, behind as int)) && behind <= tokens.len(),
                Err(e) => query_outcome(strs_of(tokens@), position as int) == Err::<
                    (QueryView, int),
                    ParseFault,
                >(e@) && e.carries(strs_of(tokens@)),
            },
    {
        let (column_names, position_after_projection) = match Query::parse_projection(
            tokens,
            position,
        ) {
            Ok(found) => found,
            Err(e) => {
                return Err(e);
            },
        };
        let (filter, position_after_filter) = match Query::parse_filter(
            tokens,
            position_after_projection,
        ) {
            Ok(found) => found,
            Err(e) => {
                return Err(e);
            },
        };
        Ok((Query { column_names, filter }, position_after_filter))
    }

    /// Reads the projection part, `PROJECT` and a list of column names, from
    /// the words at place `position` on.
    pub fn parse_projection(tokens: &Vec<&str>, position: usize) -> (r: Result<
        (Vec<String>, usize),
        ParseError,
    >)
        ensures
            match r {
                Ok((names, behind)) => projection_outcome(strs_of(tokens@), position as int)
                    == Ok::<(Seq<Seq<char>>, int), ParseFault>(
                    (texts_of(names@), behind as int),
                ) && behind <= tokens.len(),
                Err(e) => projection_outcome(strs_of(tokens@), position as int) == Err::<
                    (Seq<Seq<char>>, int),
                    ParseFault,
                >(e@) && e.carries(strs_of(tokens@)),
            },
    {
        let ghost all = strs_of(tokens@);
        if position >= tokens.len() {
            return Err(syntax_error(SyntaxError::MissingProjection, tokens, position));
        }
        if !crate::value::text_equal(tokens[position], "PROJECT") {
            return Err(syntax_error(SyntaxError::ExpectedProject, tokens, position));
        }
        let mut current_position = position + 1;
        let mut column_names: Vec<String> = Vec::new();
        let mut all_columns_read = false;
        let ghost whole = projection_from(all, position + 1);
        assert(texts_of(column_names@) =~= Seq::empty());
        assert(Seq::<Seq<char>>::empty() + whole.0 =~= whole.0);
        while current_position < tokens.len() && !all_columns_read
            invariant
                position < current_position <= tokens.len(),
                all == strs_of(tokens@),
                whole == projection_from(all, position + 1),
                !all_columns_read ==> whole == (
                    texts_of(column_names@) + projection_from(
                        all,
                        current_position as int,
                    ).0,
                    projection_from(all, current_position as int).1,
                ),
                all_columns_read ==> whole == (
                    texts_of(column_names@),
                    current_position as int,
                ),
            decreases
                    (if all_columns_read {
                        0int
                    } else {
                        1int
                    }),
                    tokens.len() - current_position,
        {
            let ghost names = texts_of(column_names@);
            let ghost rest = projection_from(all, current_position + 1);
            let current_token = tokens[current_position];
            assert(all[current_position as int] == current_token@);
            match strip_comma(current_token) {
                Some(name) => {
                    column_names.push(String::from_str(name));
                    proof {
                        assert(texts_of(column_names@) =~= names.push(name@));
                        assert(names.push(name@) + rest.0 =~= names + (seq![name@] + rest.0));
                    }
                    current_position = current_position + 1;
                },
                None => {
                    if !crate::value::text_equal(current_token, "FILTER") {
                        column_names.push(String::from_str(current_token));
                        proof {
                            assert(texts_of(column_names@) =~= names.push(
                                current_token@,
                            ));
                            assert(names.push(current_token@) =~= names + seq![current_token@]);
                        }
                        all_columns_read = true;
                        current_position = current_position + 1;
                    } else {
                        proof {
                            assert(names + Seq::<Seq<char>>::empty() =~= names);
                        }
                        all_columns_read = true;
                    }
                },
            }
        }
        proof {
            if !all_columns_read {
                assert(texts_of(column_names@) + Seq::<Seq<char>>::empty()
                    =~= texts_of(column_names@));
            }
        }
        if column_names.len() == 0 {
            Err(ParseError::EmptyProjection)
        } else {
            Ok((column_names, current_position))
        }
    }

    /// Reads the filter part, `FILTER` with a column, an operator and a
    /// value, from the words at place `position` on; no filter where the
    /// words end there.
    pub fn parse_filter(tokens: &Vec<&str>, position: usize) -> (r: Result<
        (Option<Filter>, usize),
        ParseError,
    >)
        ensures
            match r {
                Ok((filter, behind)) => filter_outcome(strs_of(tokens@), position as int) == Ok::<
                    (Option<FilterView>, int),
                    ParseFault,
                >(
                    (
                        match filter {
                            Some(f) => Some(f@),
                            None => None,
                        },
                        behind as int,
                    ),
                ) && (position <= tokens.len() ==> behind <= tokens.len()),
                Err(e) => filter_outcome(strs_of(tokens@), position as int) == Err::<
                    (Option<FilterView>, int),
                    ParseFault,
                >(e@) && e.carries(strs_of(tokens@)),
            },
    {
        let ghost all = strs_of(tokens@);
        if position >= tokens.len() {
            return Ok((None, position));
        }
        assert(all[position as int] == tokens[position as int]@);
        if !crate::value::text_equal(tokens[position], "FILTER") {
            return Err(syntax_error(SyntaxError::ExpectedFilter, tokens, position));
        }
        if position + 1 >= tokens.len() {
            return Err(syntax_error(SyntaxError::MissingFilterColumn, tokens, position + 1));
        }
        let column = tokens[position + 1];
        assert(all[position + 1] == column@);
        if position + 2 >= tokens.len() {
            return Err(syntax_error(SyntaxError::MissingOperator, tokens, position));
        }
        assert(all[position + 2] == tokens[position + 2]@);
        let filter_type = match FilterType::from(tokens[position + 2]) {
            Some(filter_type) => filter_type,
            None => {
                return Err(syntax_error(SyntaxError::UnknownOperator, tokens, position + 2));
            },
        };
        if position + 3 >= tokens.len() {
            return Err(syntax_error(SyntaxError::MissingValue, tokens, position + 3));
        }
        assert(all[position + 3] == tokens[position + 3]@);
        let value_input = strip_quotes(tokens[position + 3]);
        let value = match Value::parse_value(String::from_str(value_input)) {
            Ok(value) => value,
            Err(e) => {
                return Err(ParseError::InvalidValue(e));
            },
        };
        Ok((Some(Filter { column_name: String::from_str(column), filter_type, value }), position + 4))
    }
}

} // verus!
