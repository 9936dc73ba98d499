//! The scalar values that a table holds, and their total order.

use crate::decimal::{
    append_decimal, decimal_text, decimal_value, digit_of, is_digit_char, is_digits,
};
use std::cmp::Ordering;
use vstd::prelude::*;
use vstd::std_specs::iter::IteratorSpec;
use vstd::string::StringExecFns;

verus! {

broadcast use vstd::string::group_string_axioms;

/// What a [`Value`] stands for: a number, or a text as its sequence of
/// characters.
pub enum Datum {
    Integer(u64),
    Text(Seq<char>),
}

/// A scalar of a table: an unsigned integer or a text.
#[derive(Debug)]
pub enum Value {
    Integer(u64),
    Text(String),
}

impl View for Value {
    type V = Datum;

    open spec fn view(&self) -> Datum {
        match self {
            Value::Integer(n) => Datum::Integer(*n),
            Value::Text(s) => Datum::Text(s@),
        }
    }
}

/// Where one value stands relative to another in the order of values.
#[derive(Debug, Clone, Copy, PartialEq, Eq, Structural)]
pub enum Place {
    Before,
    Same,
    After,
}

/// Why a run of digits is not taken as an integer value.
#[derive(Debug, Clone, Copy, PartialEq, Eq, Structural)]
pub enum NumberError {
    /// More than one digit, the first of them `0`.
    LeadingZero,
    /// The number does not fit in 64 bits.
    OutOfRange,
}

/// The sentence that reports `e`.
pub open spec fn number_error_text(e: NumberError) -> Seq<char> {
    match e {
        NumberError::LeadingZero => "number has a leading zero"@,
        NumberError::OutOfRange => "number too large to fit in target type"@,
    }
}

impl NumberError {
    /// The error as a sentence.
    pub fn message(&self) -> (s: String)
        ensures
            s@ == number_error_text(*self),
    {
        match self {
            NumberError::LeadingZero => String::from_str("number has a leading zero"),
            NumberError::OutOfRange => String::from_str("number too large to fit in target type"),
        }
    }
}

/// Whether text `a` comes before text `b`, given that they agree on their
/// first `i` characters: the first place where they differ decides, by code
/// point, and a text comes after each of its proper prefixes.
pub open spec fn text_precedes_from(a: Seq<char>, b: Seq<char>, i: int) -> bool
    decreases a.len() - i,
{
    if i >= b.len() {
        false
    } else if i >= a.len() {
        true
    } else if a[i] != b[i] {
        a[i] < b[i]
    } else {
        text_precedes_from(a, b, i + 1)
    }
}

/// Whether text `a` comes strictly before text `b` in lexicographic order of
/// code points.
pub open spec fn text_precedes(a: Seq<char>, b: Seq<char>) -> bool {
    text_precedes_from(a, b, 0)
}

impl Datum {
    /// The strict order of values: numbers by magnitude, texts
    /// lexicographically, and every number before every text.
    pub open spec fn precedes(self, other: Datum) -> bool {
        match (self, other) {
            (Datum::Integer(x), Datum::Integer(y)) => x < y,
            (Datum::Text(x), Datum::Text(y)) => text_precedes(x, y),
            (Datum::Integer(_), Datum::Text(_)) => true,
            (Datum::Text(_), Datum::Integer(_)) => false,
        }
    }

    /// The order of values with equality: `other` does not come before `self`.
    pub open spec fn at_most(self, other: Datum) -> bool {
        !other.precedes(self)
    }
}

/// What parsing makes of the text `s`: an integer where `s` is a run of
/// digits, the text itself otherwise. A run of digits with a leading zero, or
/// one whose number does not fit in 64 bits, is an error.
pub open spec fn parse_outcome(s: Seq<char>) -> Result<Datum, NumberError> {
    if !is_digits(s) {
        Ok(Datum::Text(s))
    } else if s.len() > 1 && s[0] == '0' {
        Err(NumberError::LeadingZero)
    } else if decimal_value(s) > u64::MAX {
        Err(NumberError::OutOfRange)
    } else {
        Ok(Datum::Integer(decimal_value(s) as u64))
    }
}

/// How a value is shown: a number by its decimal digits, a text as it is.
pub open spec fn display_text(d: Datum) -> Seq<char> {
    match d {
        Datum::Integer(n) => decimal_text(n as nat),
        Datum::Text(s) => s,
    }
}

proof fn lemma_text_asymmetric_from(a: Seq<char>, b: Seq<char>, i: int)
    requires
        0 <= i,
    ensures
        !(text_precedes_from(a, b, i) && text_precedes_from(b, a, i)),
    decreases a.len() - i,
{
    if i < a.len() && i < b.len() && a[i] == b[i] {
        lemma_text_asymmetric_from(a, b, i + 1);
    }
}

proof fn lemma_text_transitive_from(a: Seq<char>, b: Seq<char>, c: Seq<char>, i: int)
    requires
        0 <= i,
        text_precedes_from(a, b, i),
        text_precedes_from(b, c, i),
    ensures
        text_precedes_from(a, c, i),
    decreases a.len() - i,
{
    if i < a.len() && a[i] == b[i] && b[i] == c[i] {
        lemma_text_transitive_from(a, b, c, i + 1);
    }
}

proof fn lemma_text_total_from(a: Seq<char>, b: Seq<char>, i: int)
    requires
        0 <= i <= a.len(),
        i <= b.len(),
        forall|k: int| 0 <= k < i ==> a[k] == b[k],
    ensures
        text_precedes_from(a, b, i) || text_precedes_from(b, a, i) || a == b,
    decreases a.len() - i,
{
    if i < a.len() && i < b.len() {
        if a[i] == b[i] {
            lemma_text_total_from(a, b, i + 1);
        }
    } else if i == a.len() && i == b.len() {
        assert(a =~= b);
    }
}

/// Whether place `k` decides that text `a` comes before text `b`: the texts
/// agree before `k`, and at `k` either `a` ends while `b` goes on, or `a` has
/// the character of the smaller code point.
pub open spec fn decides_at(a: Seq<char>, b: Seq<char>, k: int) -> bool {
    &&& 0 <= k <= a.len()
    &&& k < b.len()
    &&& forall|j: int| 0 <= j < k ==> a[j] == b[j]
    &&& k == a.len() || a[k] < b[k]
}

proof fn lemma_text_precedes_has_place(a: Seq<char>, b: Seq<char>, i: int)
    requires
        0 <= i <= a.len(),
        forall|j: int| 0 <= j < i ==> a[j] == b[j],
        text_precedes_from(a, b, i),
    ensures
        exists|k: int| decides_at(a, b, k),
    decreases a.len() - i,
{
    if i < a.len() && a[i] == b[i] {
        lemma_text_precedes_has_place(a, b, i + 1);
    } else {
        assert(decides_at(a, b, i));
    }
}

proof fn lemma_place_gives_text_precedes(a: Seq<char>, b: Seq<char>, i: int, k: int)
    requires
        0 <= i <= k,
        decides_at(a, b, k),
    ensures
        text_precedes_from(a, b, i),
    decreases k - i,
{
    if i < k {
        lemma_place_gives_text_precedes(a, b, i + 1, k);
    }
}

/// A text comes before another exactly where some place decides so: the
/// first place at which the two differ.
pub proof fn lemma_text_precedes_by_first_difference(a: Seq<char>, b: Seq<char>)
    ensures
        text_precedes(a, b) <==> exists|k: int| decides_at(a, b, k),
{
    if text_precedes(a, b) {
        lemma_text_precedes_has_place(a, b, 0);
    }
    if exists|k: int| decides_at(a, b, k) {
        let k = choose|k: int| decides_at(a, b, k);
        lemma_place_gives_text_precedes(a, b, 0, k);
    }
}

/// No value comes before itself.
pub proof fn lemma_precedes_irreflexive(a: Datum)
    ensures
        !a.precedes(a),
{
    if let Datum::Text(s) = a {
        lemma_text_asymmetric_from(s, s, 0);
    }
}

/// Of two values at most one comes before the other.
pub proof fn lemma_precedes_asymmetric(a: Datum, b: Datum)
    ensures
        !(a.precedes(b) && b.precedes(a)),
{
    if let (Datum::Text(s), Datum::Text(t)) = (a, b) {
        lemma_text_asymmetric_from(s, t, 0);
    }
}

/// The strict order is transitive.
pub proof fn lemma_precedes_transitive(a: Datum, b: Datum, c: Datum)
    requires
        a.precedes(b),
        b.precedes(c),
    ensures
        a.precedes(c),
{
    if let (Datum::Text(s), Datum::Text(t), Datum::Text(u)) = (a, b, c) {
        lemma_text_transitive_from(s, t, u, 0);
    }
}

/// Any two values are ordered or equal.
pub proof fn lemma_precedes_total(a: Datum, b: Datum)
    ensures
        a.precedes(b) || b.precedes(a) || a == b,
{
    if let (Datum::Text(s), Datum::Text(t)) = (a, b) {
        lemma_text_total_from(s, t, 0);
    }
}

/// Two values that are ordered neither way are the same value.
pub proof fn lemma_unordered_is_equal(a: Datum, b: Datum)
    ensures
        (!a.precedes(b) && !b.precedes(a)) <==> a == b,
{
    lemma_precedes_total(a, b);
    lemma_precedes_irreflexive(a);
}

/// A number that is shown and read again is the same number.
pub proof fn lemma_display_then_parse(n: u64)
    ensures
        parse_outcome(display_text(Datum::Integer(n))) == Ok::<Datum, NumberError>(
            Datum::Integer(n),
        ),
{
    crate::decimal::lemma_decimal_text_is_digits(n as nat);
    crate::decimal::lemma_decimal_round_trip(n as nat);
}

/// Orders two texts lexicographically by code point.
pub fn text_order(x: &str, y: &str) -> (r: Ordering)
    ensures
        match r {
            Ordering::Less => text_precedes(x@, y@),
            Ordering::Equal => x@ == y@,
            Ordering::Greater => text_precedes(y@, x@),
        },
{
    let mut xs = x.chars();
    let mut ys = y.chars();
    let ghost mut i: int = 0;
    loop
        invariant
            0 <= i <= x@.len(),
            i <= y@.len(),
            xs.obeys_prophetic_iter_laws(),
            ys.obeys_prophetic_iter_laws(),
            xs.remaining() == x@.skip(i),
            ys.remaining() == y@.skip(i),
            forall|k: int| 0 <= k < i ==> x@[k] == y@[k],
            text_precedes(x@, y@) == text_precedes_from(x@, y@, i),
            text_precedes(y@, x@) == text_precedes_from(y@, x@, i),
        decreases x@.len() - i,
    {
        let a = xs.next();
        let b = ys.next();
        match (a, b) {
            (None, None) => {
                assert(x@ =~= y@);
                return Ordering::Equal;
            },
            (Some(_), None) => {
                return Ordering::Greater;
            },
            (None, Some(_)) => {
                return Ordering::Less;
            },
            (Some(c), Some(d)) => {
                if c != d {
                    if c < d {
                        return Ordering::Less;
                    } else {
                        return Ordering::Greater;
                    }
                }
                proof {
                    assert(x@.skip(i).drop_first() =~= x@.skip(i + 1));
                    assert(y@.skip(i).drop_first() =~= y@.skip(i + 1));
                    i = i + 1;
                }
            },
        }
    }
}

/// Whether two texts are the same sequence of characters.
pub fn text_equal(x: &str, y: &str) -> (r: bool)
    ensures
        r == (x@ == y@),
{
    proof {
        lemma_precedes_irreflexive(Datum::Text(x@));
    }
    match text_order(x, y) {
        Ordering::Equal => true,
        _ => false,
    }
}

impl Value {
    /// Orders two values: numbers by magnitude, texts lexicographically, every
    /// number before every text.
    pub fn cmp(&self, other: &Value) -> (r: Ordering)
        ensures
            match r {
                Ordering::Less => self@.precedes(other@),
                Ordering::Equal => self@ == other@,
                Ordering::Greater => other@.precedes(self@),
            },
    {
        proof {
            lemma_precedes_asymmetric(self@, other@);
            lemma_precedes_irreflexive(self@);
        }
        match (self, other) {
            (Value::Integer(x), Value::Integer(y)) => {
                if *x < *y {
                    Ordering::Less
                } else if *x == *y {
                    Ordering::Equal
                } else {
                    Ordering::Greater
                }
            },
            (Value::Text(x), Value::Text(y)) => text_order(x.as_str(), y.as_str()),
            (Value::Integer(_), Value::Text(_)) => Ordering::Less,
            (Value::Text(_), Value::Integer(_)) => Ordering::Greater,
        }
    }

    /// Where `self` stands relative to `other`.
    pub fn place(&self, other: &Value) -> (r: Place)
        ensures
            match r {
                Place::Before => self@.precedes(other@),
                Place::Same => self@ == other@,
                Place::After => other@.precedes(self@),
            },
    {
        match self.cmp(other) {
            Ordering::Less => Place::Before,
            Ordering::Equal => Place::Same,
            Ordering::Greater => Place::After,
        }
    }

    /// Whether `self` comes strictly before `other`.
    pub fn less_than(&self, other: &Value) -> (r: bool)
        ensures
            r == self@.precedes(other@),
    {
        proof {
            lemma_precedes_asymmetric(self@, other@);
            lemma_precedes_irreflexive(self@);
        }
        match self.cmp(other) {
            Ordering::Less => true,
            _ => false,
        }
    }

    /// Whether `self` comes strictly after `other`.
    pub fn greater_than(&self, other: &Value) -> (r: bool)
        ensures
            r == other@.precedes(self@),
    {
        other.less_than(self)
    }

    /// Reads a value from a text: an integer where the text is a run of
    /// digits, the text itself otherwise.
    pub fn parse_value(value: String) -> (r: Result<Value, NumberError>)
        ensures
            match r {
                Ok(v) => parse_outcome(value@) == Ok::<Datum, NumberError>(v@),
                Err(e) => parse_outcome(value@) == Err::<Datum, NumberError>(e),
            },
    {
        let ghost s = value@;
        let mut chars = value.as_str().chars();
        let mut seen: usize = 0;
        let mut leading_zero = false;
        let mut too_large = false;
        let mut number: u64 = 0;
        let mut all_digits = true;
        let ghost mut i: int = 0;
        loop
            invariant_except_break
                all_digits,
                chars.remaining() == s.skip(i),
            invariant
                0 <= i <= s.len(),
                chars.obeys_prophetic_iter_laws(),
                seen == if i < 2 { i } else { 2 },
                forall|k: int| 0 <= k < i ==> crate::decimal::is_digit(#[trigger] s[k]),
                leading_zero == (i > 0 && s[0] == '0'),
                too_large == (decimal_value(s.subrange(0, i)) > u64::MAX),
                !too_large ==> number == decimal_value(s.subrange(0, i)),
            ensures
                all_digits ==> i == s.len(),
                !all_digits ==> !is_digits(s),
            decreases s.len() - i,
        {
            match chars.next() {
                None => {
                    break ;
                },
                Some(c) => {
                    if !is_digit_char(c) {
                        all_digits = false;
                        break ;
                    }
                    let d = digit_of(c);
                    proof {
                        assert(s.skip(i).drop_first() =~= s.skip(i + 1));
                        assert(s.subrange(0, i + 1).drop_last() =~= s.subrange(0, i));
                        assert(s.subrange(0, i + 1).last() == c);
                    }
                    if seen == 0 {
                        leading_zero = d == 0;
                    }
                    if seen < 2 {
                        seen = seen + 1;
                    }
                    if !too_large {
                        match number.checked_mul(10) {
                            None => {
                                too_large = true;
                            },
                            Some(tens) => match tens.checked_add(d) {
                                None => {
                                    too_large = true;
                                },
                                Some(sum) => {
                                    number = sum;
                                },
                            },
                        }
                    }
                    proof {
                        i = i + 1;
                    }
                },
            }
        }
        proof {
            if all_digits {
                assert(s.subrange(0, i) =~= s);
            }
        }
        if !all_digits || seen == 0 {
            Ok(Value::Text(value))
        } else if leading_zero && seen > 1 {
            Err(NumberError::LeadingZero)
        } else if too_large {
            Err(NumberError::OutOfRange)
        } else {
            Ok(Value::Integer(number))
        }
    }

    /// Appends the value as it is shown to `out`.
    pub fn append_to(&self, out: &mut String)
        ensures
            final(out)@ == old(out)@ + display_text(self@),
    {
        match self {
            Value::Integer(n) => append_decimal(out, *n),
            Value::Text(s) => out.append(s.as_str()),
        }
    }

    /// The value as it is shown: a number by its decimal digits, a text as it
    /// is, without quotes.
    pub fn display(&self) -> (s: String)
        ensures
            s@ == display_text(self@),
    {
        let mut s = String::new();
        self.append_to(&mut s);
        assert(s@ =~= display_text(self@));
        s
    }
}

impl Clone for Value {
    fn clone(&self) -> (r: Self)
        ensures
            r == *self,
    {
        match self {
            Value::Integer(n) => Value::Integer(*n),
            Value::Text(s) => Value::Text(s.clone()),
        }
    }
}

impl PartialEq for Value {
    fn eq(&self, other: &Self) -> (r: bool) {
        match (self, other) {
            (Value::Integer(x), Value::Integer(y)) => *x == *y,
            (Value::Text(x), Value::Text(y)) => *x == *y,
            _ => false,
        }
    }
}

impl vstd::std_specs::cmp::PartialEqSpecImpl for Value {
    open spec fn obeys_eq_spec() -> bool {
        true
    }

    open spec fn eq_spec(&self, other: &Self) -> bool {
        self@ == other@
    }
}

impl Eq for Value {

}

impl PartialOrd for Value {
    fn partial_cmp(&self, other: &Self) -> (r: Option<Ordering>) {
        proof {
            lemma_precedes_asymmetric(self@, other@);
            lemma_precedes_irreflexive(self@);
        }
        Some(self.cmp(other))
    }
}

impl vstd::std_specs::cmp::PartialOrdSpecImpl for Value {
    open spec fn obeys_partial_cmp_spec() -> bool {
        true
    }

    open spec fn partial_cmp_spec(&self, other: &Self) -> Option<Ordering> {
        if self@.precedes(other@) {
            Some(Ordering::Less)
        } else if other@.precedes(self@) {
            Some(Ordering::Greater)
        } else {
            Some(Ordering::Equal)
        }
    }
}

} // verus!
