//! Candle records as the exchange reports them, and their rendering.

use vstd::prelude::*;
use crate::wire::{literal_millis, literal_millis_exec};

verus! {

/// A number as the exchange wrote it. A literal without fraction or exponent
/// whose value fits in 64 bits is an `Int`; any other literal is kept as its
/// own text in `Float`, so that nothing is lost when it is rendered again.
#[derive(Debug, Clone, PartialEq, Eq)]
pub enum FloatOrInt {
    Int(i64),
    Float(String),
}

/// What a `FloatOrInt` stands for: an integer, or the text of another literal.
pub enum NumberValue {
    Int(int),
    Literal(Seq<char>),
}

impl View for FloatOrInt {
    type V = NumberValue;

    open spec fn view(&self) -> NumberValue {
        match self {
            FloatOrInt::Int(i) => NumberValue::Int(*i as int),
            FloatOrInt::Float(t) => NumberValue::Literal(t@),
        }
    }
}

/// The text a number is rendered as, in a table, a spreadsheet cell or a log.
pub open spec fn value_text(v: NumberValue) -> Seq<char> {
    match v {
        NumberValue::Int(i) => int_text(i),
        NumberValue::Literal(t) => t,
    }
}

/// One slice's worth of records, each in the wire order
/// `[timestamp, close, open, high, low, volume]`.
#[derive(Debug, Clone)]
pub struct CandleData(pub Vec<[FloatOrInt; 6]>);

/// The values of one record, in wire order.
pub open spec fn record_view(r: [FloatOrInt; 6]) -> Seq<NumberValue> {
    r@.map_values(|x: FloatOrInt| x@)
}

impl View for CandleData {
    type V = Seq<Seq<NumberValue>>;

    open spec fn view(&self) -> Seq<Seq<NumberValue>> {
        self.0@.map_values(|r: [FloatOrInt; 6]| record_view(r))
    }
}

/// The character of a decimal digit `d` (`0 <= d < 10`).
pub open spec fn digit_char(d: int) -> char {
    ((d + 48) as u8) as char
}

/// Decimal text of a natural number, without leading zeros.
pub open spec fn nat_text(n: nat) -> Seq<char>
    decreases n,
{
    if n < 10 {
        seq![digit_char(n as int)]
    } else {
        nat_text(n / 10).push(digit_char((n % 10) as int))
    }
}

/// Decimal text of an integer: a minus sign before a negative magnitude.
pub open spec fn int_text(i: int) -> Seq<char> {
    if i < 0 {
        seq!['-'] + nat_text((-i) as nat)
    } else {
        nat_text(i as nat)
    }
}

/// Relies on `String::push`: appends one character.
#[verifier::external_body]
pub(crate) fn push_char(s: &mut String, c: char)
    ensures
        final(s)@ == old(s)@.push(c),
{
    s.push(c);
}

fn push_nat_text(out: &mut String, n: u64)
    ensures
        final(out)@ == old(out)@ + nat_text(n as nat),
    decreases n,
{
    if n >= 10 {
        push_nat_text(out, n / 10);
    }
    let d: u8 = (n % 10) as u8;
    push_char(out, (d + 48) as char);
    assert(n >= 10 ==> nat_text(n as nat) == nat_text((n / 10) as nat).push(digit_char((n % 10) as int)));
}

/// The decimal text of `v`.
pub fn int_to_text(v: i64) -> (r: String)
    ensures
        r@ == int_text(v as int),
{
    let mut out = String::new();
    if v < 0 {
        push_char(&mut out, '-');
        let mag: u64 = (0i128 - v as i128) as u64;
        push_nat_text(&mut out, mag);
    } else {
        push_nat_text(&mut out, v as u64);
    }
    out
}

/// One record in logical field order. The wire order puts `close` before
/// `open`; `LogicalCandle::from_wire` is the one place where that is undone.
#[derive(Debug, Clone, PartialEq, Eq)]
pub struct LogicalCandle {
    pub open: FloatOrInt,
    pub close: FloatOrInt,
    pub high: FloatOrInt,
    pub low: FloatOrInt,
    pub volume: FloatOrInt,
    pub timestamp: FloatOrInt,
}

/// The values of a record in logical order:
/// `[open, close, high, low, volume, timestamp]`.
pub open spec fn logical_view(c: LogicalCandle) -> Seq<NumberValue> {
    seq![c.open@, c.close@, c.high@, c.low@, c.volume@, c.timestamp@]
}

/// The remap from wire order `[timestamp, close, open, high, low, volume]` to
/// logical order `[open, close, high, low, volume, timestamp]`.
pub open spec fn logical_order<T>(w: Seq<T>) -> Seq<T> {
    seq![w[2], w[1], w[3], w[4], w[5], w[0]]
}

/// The text of the UTC date and time of a millisecond timestamp, as chrono
/// writes a `DateTime<Utc>` (`2020-11-01 00:00:01 UTC`); `None` out of range.
pub uninterp spec fn utc_time_text(ms: int) -> Option<Seq<char>>;

/// Relies on chrono's `DateTime::from_timestamp_millis`, which returns `None`
/// on an out-of-range timestamp, and on the `Display` of `DateTime<Utc>`.
#[verifier::external_body]
fn utc_time(ms: i64) -> (r: Option<String>)
    ensures
        match r {
            Some(t) => utc_time_text(ms as int) == Some(t@),
            None => utc_time_text(ms as int) is None,
        },
{
    match chrono::DateTime::from_timestamp_millis(ms) {
        Some(d) => Some(d.to_string()),
        None => None,
    }
}

/// The date and time a record's timestamp stands for, a fraction of a
/// millisecond dropped; `None` where it is out of range.
pub open spec fn time_text(v: NumberValue) -> Option<Seq<char>> {
    match v {
        NumberValue::Int(ms) => utc_time_text(ms),
        NumberValue::Literal(t) => match literal_millis(t) {
            Some(ms) => utc_time_text(ms),
            None => None,
        },
    }
}

/// The date cell of a timestamp: its date and time, or, where it has none,
/// the timestamp as written.
pub open spec fn date_cell(v: NumberValue) -> Seq<char> {
    match time_text(v) {
        Some(t) => t,
        None => value_text(v),
    }
}

pub open spec fn texts(v: Seq<String>) -> Seq<Seq<char>> {
    v.map_values(|x: String| x@)
}

/// Which output a row is laid out for.
#[derive(Debug, Clone, Copy, PartialEq, Eq)]
pub enum RowLayout {
    /// The live console table: open, close, high, low, volume, ticker,
    /// interval, date and time.
    Console,
    /// The spreadsheet: open, close, high, low, volume, interval, ticker,
    /// date and time.
    Sheet,
}

/// The cells of a row for a record given in logical order.
pub open spec fn row_cells(layout: RowLayout, l: Seq<NumberValue>, ticker: Seq<char>, interval: Seq<char>) -> Seq<Seq<char>> {
    match layout {
        RowLayout::Console => seq![value_text(l[0]), value_text(l[1]), value_text(l[2]),
            value_text(l[3]), value_text(l[4]), ticker, interval, date_cell(l[5])],
        RowLayout::Sheet => seq![value_text(l[0]), value_text(l[1]), value_text(l[2]),
            value_text(l[3]), value_text(l[4]), interval, ticker, date_cell(l[5])],
    }
}

/// The rows of a batch given in wire order, one per record.
pub open spec fn batch_rows(layout: RowLayout, b: Seq<Seq<NumberValue>>, ticker: Seq<char>, interval: Seq<char>) -> Seq<Seq<Seq<char>>> {
    Seq::new(b.len(), |i: int| row_cells(layout, logical_order(b[i]), ticker, interval))
}

impl LogicalCandle {
    /// Takes a record out of wire order `[timestamp, close, open, high, low, volume]`.
    pub fn from_wire(record: &[FloatOrInt; 6]) -> (r: LogicalCandle)
        ensures
            logical_view(r) == logical_order(record_view(*record)),
    {
        broadcast use vstd::array::group_array_axioms;

        let r = LogicalCandle {
            open: record[2].duplicate(),
            close: record[1].duplicate(),
            high: record[3].duplicate(),
            low: record[4].duplicate(),
            volume: record[5].duplicate(),
            timestamp: record[0].duplicate(),
        };
        assert(logical_view(r) == seq![record@[2]@, record@[1]@, record@[3]@, record@[4]@,
            record@[5]@, record@[0]@]);
        r
    }

    /// The date and time of the record's timestamp.
    pub fn time(&self) -> (r: Option<String>)
        ensures
            match r {
                Some(t) => time_text(self.timestamp@) == Some(t@),
                None => time_text(self.timestamp@) is None,
            },
    {
        match &self.timestamp {
            FloatOrInt::Int(ms) => utc_time(*ms),
            FloatOrInt::Float(t) => match literal_millis_exec(t.as_str()) {
                Some(ms) => utc_time(ms),
                None => None,
            },
        }
    }

    /// The date cell of the record.
    pub fn date(&self) -> (r: String)
        ensures
            r@ == date_cell(self.timestamp@),
    {
        match self.time() {
            Some(t) => t,
            None => self.timestamp.to_text(),
        }
    }

    /// The row for this record in the given layout.
    pub fn row(&self, layout: RowLayout, ticker: &str, interval: &str) -> (r: Vec<String>)
        ensures
            texts(r@) == row_cells(layout, logical_view(*self), ticker@, interval@),
    {
        let t = self.date();
        let row = match layout {
            RowLayout::Console => vec![self.open.to_text(), self.close.to_text(), self.high.to_text(),
                self.low.to_text(), self.volume.to_text(), ticker.to_string(), interval.to_string(), t],
            RowLayout::Sheet => vec![self.open.to_text(), self.close.to_text(), self.high.to_text(),
                self.low.to_text(), self.volume.to_text(), interval.to_string(), ticker.to_string(), t],
        };
        assert(texts(row@) == row_cells(layout, logical_view(*self), ticker@, interval@));
        row
    }
}

impl CandleData {
    /// The rows of every record of the batch, in order, in the given layout.
    pub fn rows(&self, layout: RowLayout, ticker: &str, interval: &str) -> (r: Vec<Vec<String>>)
        ensures
            r@.map_values(|row: Vec<String>| texts(row@)) == batch_rows(layout, self@, ticker@, interval@),
    {
        let ghost b = self@;
        let mut out: Vec<Vec<String>> = Vec::new();
        let mut i: usize = 0;
        while i < self.0.len()
            invariant
                i <= self.0@.len(),
                b == self@,
                b.len() == self.0@.len(),
                out@.map_values(|row: Vec<String>| texts(row@)) == Seq::new(i as nat,
                    |j: int| row_cells(layout, logical_order(b[j]), ticker@, interval@)),
            decreases self.0@.len() - i,
        {
            let c = LogicalCandle::from_wire(&self.0[i]);
            assert(b[i as int] == record_view(self.0@[i as int]));
            let row = c.row(layout, ticker, interval);
            let ghost before = out@.map_values(|row: Vec<String>| texts(row@));
            out.push(row);
            assert(out@.map_values(|row: Vec<String>| texts(row@)) == before.push(texts(row@)));
            assert(out@.map_values(|row: Vec<String>| texts(row@)) == Seq::new((i + 1) as nat,
                |j: int| row_cells(layout, logical_order(b[j]), ticker@, interval@)));
            i = i + 1;
        }
        out
    }
}

impl FloatOrInt {
    /// A copy of the number.
    pub fn duplicate(&self) -> (r: FloatOrInt)
        ensures
            r@ == self@,
    {
        match self {
            FloatOrInt::Int(i) => FloatOrInt::Int(*i),
            FloatOrInt::Float(t) => FloatOrInt::Float(t.clone()),
        }
    }

    /// The text of the number: an integer in decimal, any other literal as written.
    pub fn to_text(&self) -> (r: String)
        ensures
            r@ == value_text(self@),
    {
        match self {
            FloatOrInt::Int(i) => int_to_text(*i),
            FloatOrInt::Float(t) => t.clone(),
        }
    }
}

} // verus!
