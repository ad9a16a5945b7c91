//! JSON values that the feeds leave untyped.
//!
//! The values themselves belong to `serde_json`. What the library reads of one is copied
//! into a `Cell`.

use crate::measure::Real;
use crate::text::opt_text;
use crate::types::contents;
use serde_json::Value;
use vstd::prelude::*;

verus! {

/// A JSON value of `serde_json`.
#[verifier::external_type_specification]
#[verifier::external_body]
pub struct ExValue(serde_json::Value);

/// What the library reads of a JSON value.
#[derive(Debug)]
pub enum Cell {
    Text(String),
    Bool(bool),
    /// A number: as a 64-bit integer and as a measurement, where it can be one, and in
    /// decimal notation.
    Number { whole: Option<i64>, measured: Option<Real>, text: String },
    /// Null, an array or an object.
    Other,
}

/// The content of a `Cell`.
pub enum CellView {
    Text(Seq<char>),
    Bool(bool),
    Number { whole: Option<i64>, measured: Option<Real>, text: Seq<char> },
    Other,
}

impl View for Cell {
    type V = CellView;

    open spec fn view(&self) -> CellView {
        match *self {
            Cell::Text(t) => CellView::Text(t@),
            Cell::Bool(b) => CellView::Bool(b),
            Cell::Number { whole, measured, text } => CellView::Number {
                whole,
                measured,
                text: text@,
            },
            Cell::Other => CellView::Other,
        }
    }
}

impl CellView {
    /// The text of a text.
    pub open spec fn text(self) -> Option<Seq<char>> {
        match self {
            CellView::Text(t) => Some(t),
            _ => None,
        }
    }

    /// The truth value of a truth value.
    pub open spec fn truth(self) -> Option<bool> {
        match self {
            CellView::Bool(b) => Some(b),
            _ => None,
        }
    }

    /// The measurement of a number.
    pub open spec fn measured(self) -> Option<Real> {
        match self {
            CellView::Number { whole, measured, text } => measured,
            _ => None,
        }
    }

    /// The integer of a number.
    pub open spec fn whole(self) -> Option<i64> {
        match self {
            CellView::Number { whole, measured, text } => whole,
            _ => None,
        }
    }

    /// The decimal notation of a number.
    pub open spec fn notation(self) -> Option<Seq<char>> {
        match self {
            CellView::Number { whole, measured, text } => Some(text),
            _ => None,
        }
    }
}

/// What a JSON value holds.
pub uninterp spec fn json_content(v: Value) -> CellView;

/// What the JSON values of a list hold.
pub open spec fn json_contents(values: Seq<Value>) -> Seq<CellView> {
    values.map_values(|v: Value| json_content(v))
}

/// `serde_json::Value::as_str`: the text of a string value, and nothing of any other.
#[verifier::external_body]
fn value_text(v: &Value) -> (r: Option<String>)
    ensures
        opt_text(r) == json_content(*v).text(),
{
    v.as_str().map(|s| s.to_string())
}

/// `serde_json::Value::as_bool`: the truth value of a boolean value, and nothing of any
/// other.
#[verifier::external_body]
fn value_truth(v: &Value) -> (r: Option<bool>)
    ensures
        r == json_content(*v).truth(),
{
    v.as_bool()
}

/// `serde_json::Value::as_i64`: the integer of a number value that is an integer of this
/// range, and nothing of any other.
#[verifier::external_body]
fn value_whole(v: &Value) -> (r: Option<i64>)
    ensures
        r == json_content(*v).whole(),
{
    v.as_i64()
}

/// `serde_json::Value::as_f64`: the double-precision number of a number value, here by
/// its bit pattern, and nothing of any other.
#[verifier::external_body]
fn value_measured(v: &Value) -> (r: Option<Real>)
    ensures
        r == json_content(*v).measured(),
{
    v.as_f64().map(|x| Real { bits: x.to_bits() })
}

/// `serde_json::Value::as_number` with the number's `to_string`: the decimal notation of
/// a number value, and nothing of any other.
#[verifier::external_body]
fn value_notation(v: &Value) -> (r: Option<String>)
    ensures
        opt_text(r) == json_content(*v).notation(),
{
    v.as_number().map(|n| n.to_string())
}

/// What the library reads of a JSON value.
pub fn read_value(v: &Value) -> (r: Cell)
    ensures
        r@ == json_content(*v),
{
    match value_text(v) {
        Some(t) => Cell::Text(t),
        None => match value_truth(v) {
            Some(b) => Cell::Bool(b),
            None => match value_notation(v) {
                Some(text) => Cell::Number {
                    whole: value_whole(v),
                    measured: value_measured(v),
                    text,
                },
                None => Cell::Other,
            },
        },
    }
}

/// What the library reads of an optional JSON value.
pub fn read_optional(v: &Option<Value>) -> (r: Option<Cell>)
    ensures
        opt_cell(r) == opt_content(*v),
{
    match v {
        Some(v) => Some(read_value(v)),
        None => None,
    }
}

/// What an optional JSON value holds.
pub open spec fn opt_content(v: Option<Value>) -> Option<CellView> {
    match v {
        Some(v) => Some(json_content(v)),
        None => None,
    }
}

/// The content of an optional cell.
pub open spec fn opt_cell(c: Option<Cell>) -> Option<CellView> {
    match c {
        Some(c) => Some(c@),
        None => None,
    }
}

/// What the library reads of the JSON values of a list.
pub fn read_values(values: &[Value]) -> (r: Vec<Cell>)
    ensures
        contents(r@) == json_contents(values@),
{
    let mut out: Vec<Cell> = Vec::new();
    let n: usize = values.len();
    let mut i: usize = 0;
    while i < n
        invariant
            n == values@.len(),
            i <= n,
            contents(out@) =~= json_contents(values@).take(i as int),
        decreases n - i,
    {
        let cell = read_value(&values[i]);
        let ghost before = contents(out@);
        out.push(cell);
        proof {
            let all = json_contents(values@);
            assert(contents(out@) =~= before.push(cell@));
            assert(all.take(i + 1) =~= all.take(i as int).push(all[i as int]));
        }
        i = i + 1;
    }
    assert(json_contents(values@).take(n as int) =~= json_contents(values@));
    out
}

impl Cell {
    /// The text of a text.
    pub fn as_text(&self) -> (r: Option<&String>)
        ensures
            match r {
                Some(t) => self@.text() == Some(t@),
                None => self@.text() is None,
            },
    {
        match self {
            Cell::Text(t) => Some(t),
            _ => None,
        }
    }

    /// The truth value of a truth value.
    pub fn as_truth(&self) -> (r: Option<bool>)
        ensures
            r == self@.truth(),
    {
        match self {
            Cell::Bool(b) => Some(*b),
            _ => None,
        }
    }

    /// The measurement of a number.
    pub fn as_measured(&self) -> (r: Option<Real>)
        ensures
            r == self@.measured(),
    {
        match self {
            Cell::Number { whole, measured, text } => *measured,
            _ => None,
        }
    }

    /// The integer of a number.
    pub fn as_whole(&self) -> (r: Option<i64>)
        ensures
            r == self@.whole(),
    {
        match self {
            Cell::Number { whole, measured, text } => *whole,
            _ => None,
        }
    }
}

/// The content of a cell is that of its variant.
pub proof fn content_of_cell(c: Cell)
    ensures
        c matches Cell::Text(t) ==> c@ == CellView::Text(t@),
        c matches Cell::Bool(b) ==> c@ == CellView::Bool(b),
        c matches Cell::Number { whole, measured, text } ==> c@ == (CellView::Number {
            whole,
            measured,
            text: text@,
        }),
        c is Other ==> c@ == CellView::Other,
{
}

/// The values of a list are read one by one, and so are those that may be missing.
pub proof fn values_are_read_one_by_one(values: Seq<Value>, v: Option<Value>)
    ensures
        json_contents(values).len() == values.len(),
        forall|i: int|
            0 <= i < values.len() ==> #[trigger] json_contents(values)[i] == json_content(values[i]),
        v is Some ==> opt_content(v) == Some(json_content(v->0)),
        v is None ==> opt_content(v) is None,
{
}

} // verus!
