//! The candle endpoint's response format: a JSON array of rows, each row an
//! array of exactly six numbers, with JSON whitespace allowed between tokens.

use vstd::prelude::*;
use crate::candle::{CandleData, FloatOrInt, NumberValue, record_view, value_text, nat_text, int_text, digit_char};

verus! {

pub open spec fn is_ws(b: u8) -> bool {
    b == 0x20 || b == 0x09 || b == 0x0a || b == 0x0d
}

pub open spec fn is_digit(b: u8) -> bool {
    0x30 <= b <= 0x39
}

/// First position at or after `i` that holds no whitespace (or the end).
pub open spec fn skip_ws(s: Seq<u8>, i: int) -> int
    decreases s.len() - i,
{
    if 0 <= i < s.len() && is_ws(s[i]) {
        skip_ws(s, i + 1)
    } else {
        i
    }
}

/// First position at or after `i` that holds no decimal digit (or the end).
pub open spec fn digits_end(s: Seq<u8>, i: int) -> int
    decreases s.len() - i,
{
    if 0 <= i < s.len() && is_digit(s[i]) {
        digits_end(s, i + 1)
    } else {
        i
    }
}

/// The value of the decimal digits `s[a..b]`.
pub open spec fn digits_value(s: Seq<u8>, a: int, b: int) -> int
    decreases b - a,
{
    if b <= a {
        0
    } else {
        digits_value(s, a, b - 1) * 10 + (s[b - 1] - 48)
    }
}

pub open spec fn bytes_text(t: Seq<u8>) -> Seq<char> {
    t.map_values(|x: u8| x as char)
}

pub open spec fn byte_at(s: Seq<u8>, i: int, b: u8) -> bool {
    0 <= i < s.len() && s[i] == b
}

/// Where the sign, integer digits, fraction and exponent of a JSON number
/// that starts at `i` end: `(a, b, c, k, e)`, with `s[a..b]` the integer
/// digits, `s[b..c]` the fraction with its point, `s[c..k]` the exponent
/// marker and sign, and `e` the end of the literal.
pub open spec fn number_parts(s: Seq<u8>, i: int) -> (int, int, int, int, int) {
    let a = if byte_at(s, i, 0x2d) { i + 1 } else { i };
    let b = digits_end(s, a);
    let c = if byte_at(s, b, 0x2e) { digits_end(s, b + 1) } else { b };
    let has_exp = byte_at(s, c, 0x65) || byte_at(s, c, 0x45);
    let k = if !has_exp { c } else if byte_at(s, c + 1, 0x2b) || byte_at(s, c + 1, 0x2d) {
        c + 2
    } else {
        c + 1
    };
    let e = if has_exp { digits_end(s, k) } else { c };
    (a, b, c, k, e)
}

/// Whether the parts found by `number_parts` form a JSON number: integer
/// digits without a leading zero, and digits after a point or an exponent.
pub open spec fn number_well_formed(s: Seq<u8>, i: int) -> bool {
    let (a, b, c, k, e) = number_parts(s, i);
    &&& b > a
    &&& (s[a] == 0x30 ==> b == a + 1)
    &&& (c != b ==> c > b + 1)
    &&& (k != c ==> e > k)
}

/// The value of the JSON number at `i`: an integer where the literal has no
/// fraction or exponent, fits in 64 bits and is not `-0`; the literal's text
/// otherwise.
pub open spec fn number_value(s: Seq<u8>, i: int) -> NumberValue {
    let (a, b, c, k, e) = number_parts(s, i);
    let m = digits_value(s, a, b);
    let v = if a > i { -m } else { m };
    if c == b && k == c && i64::MIN <= v <= i64::MAX && !(a > i && m == 0) {
        NumberValue::Int(v)
    } else {
        NumberValue::Literal(bytes_text(s.subrange(i, e)))
    }
}

/// The JSON number at `i` and the position after it.
pub open spec fn number_at(s: Seq<u8>, i: int) -> Option<(NumberValue, int)> {
    if number_well_formed(s, i) {
        Some((number_value(s, i), number_parts(s, i).4))
    } else {
        None
    }
}

pub proof fn lemma_skip_ws(s: Seq<u8>, i: int)
    requires
        0 <= i <= s.len(),
    ensures
        i <= skip_ws(s, i) <= s.len(),
        forall|k: int| i <= k < skip_ws(s, i) ==> is_ws(#[trigger] s[k]),
        skip_ws(s, i) < s.len() ==> !is_ws(s[skip_ws(s, i)]),
    decreases s.len() - i,
{
    if i < s.len() && is_ws(s[i]) {
        lemma_skip_ws(s, i + 1);
    }
}

pub proof fn lemma_digits_end(s: Seq<u8>, i: int)
    requires
        0 <= i <= s.len(),
    ensures
        i <= digits_end(s, i) <= s.len(),
        forall|k: int| i <= k < digits_end(s, i) ==> is_digit(#[trigger] s[k]),
    decreases s.len() - i,
{
    if i < s.len() && is_digit(s[i]) {
        lemma_digits_end(s, i + 1);
    }
}

pub proof fn lemma_digits_value_grows(s: Seq<u8>, a: int, b: int)
    requires
        a <= b,
        forall|k: int| a <= k < b ==> is_digit(#[trigger] s[k]),
    ensures
        digits_value(s, a, b) >= 0,
        b > a ==> digits_value(s, a, b) >= digits_value(s, a, b - 1),
    decreases b - a,
{
    if b > a {
        lemma_digits_value_grows(s, a, b - 1);
    }
}

pub proof fn lemma_digits_value_mono(s: Seq<u8>, a: int, p: int, q: int)
    requires
        a <= p <= q,
        forall|k: int| a <= k < q ==> is_digit(#[trigger] s[k]),
    ensures
        digits_value(s, a, q) >= digits_value(s, a, p),
    decreases q - p,
{
    if q > p {
        lemma_digits_value_mono(s, a, p, q - 1);
        lemma_digits_value_grows(s, a, q);
    }
}

/// One row item starting at `i`: whitespace, a number, whitespace, then a
/// comma, or for the last item the closing bracket; and the position after it.
pub open spec fn item_at(s: Seq<u8>, i: int, last: bool) -> Option<(NumberValue, int)> {
    match number_at(s, skip_ws(s, i)) {
        None => None,
        Some((v, e)) => {
            let k = skip_ws(s, e);
            if byte_at(s, k, if last { 0x5d } else { 0x2c }) {
                Some((v, k + 1))
            } else {
                None
            }
        },
    }
}

/// The six items of a row whose opening bracket ends before `i`.
pub open spec fn row_items_at(s: Seq<u8>, i: int) -> Option<(Seq<NumberValue>, int)> {
    match item_at(s, i, false) {
        None => None,
        Some((v0, p1)) => match item_at(s, p1, false) {
            None => None,
            Some((v1, p2)) => match item_at(s, p2, false) {
                None => None,
                Some((v2, p3)) => match item_at(s, p3, false) {
                    None => None,
                    Some((v3, p4)) => match item_at(s, p4, false) {
                        None => None,
                        Some((v4, p5)) => match item_at(s, p5, true) {
                            None => None,
                            Some((v5, p6)) => Some((seq![v0, v1, v2, v3, v4, v5], p6)),
                        },
                    },
                },
            },
        },
    }
}

/// A bracketed row after optional whitespace at `i`, and the position after it.
pub open spec fn row_at(s: Seq<u8>, i: int) -> Option<(Seq<NumberValue>, int)> {
    let j = skip_ws(s, i);
    if byte_at(s, j, 0x5b) {
        row_items_at(s, j + 1)
    } else {
        None
    }
}

/// The rows from `i` on: rows separated by commas, up to and including the
/// closing bracket of the outer array; and the position after that bracket.
pub open spec fn rows_at(s: Seq<u8>, i: int) -> Option<(Seq<Seq<NumberValue>>, int)>
    decreases s.len() - i,
    when 0 <= i <= s.len()
{
    match row_at(s, i) {
        None => None,
        Some((r, e)) => {
            let k = skip_ws(s, e);
            proof {
                lemma_row_at_ends_after(s, i);
                lemma_skip_ws(s, e);
            }
            if byte_at(s, k, 0x2c) {
                match rows_at(s, k + 1) {
                    None => None,
                    Some((rest, m)) => Some((seq![r] + rest, m)),
                }
            } else if byte_at(s, k, 0x5d) {
                Some((seq![r], k + 1))
            } else {
                None
            }
        },
    }
}

/// The records of a whole response body, or `None` where the body is not an
/// array of six-number rows surrounded by nothing but whitespace.
pub open spec fn candles_of(s: Seq<u8>) -> Option<Seq<Seq<NumberValue>>> {
    let j = skip_ws(s, 0);
    if !byte_at(s, j, 0x5b) {
        None
    } else if byte_at(s, skip_ws(s, j + 1), 0x5d) {
        if skip_ws(s, skip_ws(s, j + 1) + 1) == s.len() {
            Some(Seq::empty())
        } else {
            None
        }
    } else {
        match rows_at(s, j + 1) {
            None => None,
            Some((rows, e)) => if skip_ws(s, e) == s.len() {
                Some(rows)
            } else {
                None
            },
        }
    }
}

pub proof fn lemma_row_at_ends_after(s: Seq<u8>, i: int)
    requires
        0 <= i <= s.len(),
        row_at(s, i) is Some,
    ensures
        i < row_at(s, i).unwrap().1 <= s.len(),
{
    lemma_skip_ws(s, i);
    let j = skip_ws(s, i);
    lemma_item_at(s, j + 1, false);
    let p1 = item_at(s, j + 1, false).unwrap().1;
    lemma_item_at(s, p1, false);
    let p2 = item_at(s, p1, false).unwrap().1;
    lemma_item_at(s, p2, false);
    let p3 = item_at(s, p2, false).unwrap().1;
    lemma_item_at(s, p3, false);
    let p4 = item_at(s, p3, false).unwrap().1;
    lemma_item_at(s, p4, false);
    let p5 = item_at(s, p4, false).unwrap().1;
    lemma_item_at(s, p5, true);
}

pub proof fn lemma_item_at(s: Seq<u8>, i: int, last: bool)
    requires
        0 <= i <= s.len(),
    ensures
        item_at(s, i, last) is Some ==> i < item_at(s, i, last).unwrap().1 <= s.len(),
{
    lemma_skip_ws(s, i);
    let j = skip_ws(s, i);
    lemma_number_parts(s, j);
    let e = number_parts(s, j).4;
    lemma_skip_ws(s, e);
}

/// The digits of a number's mantissa: the integer digits `s[a..b]`, then the
/// fraction digits after the point, if any.
pub open spec fn mantissa(s: Seq<u8>, a: int, b: int, c: int) -> Seq<u8> {
    if c > b {
        s.subrange(a, b) + s.subrange(b + 1, c)
    } else {
        s.subrange(a, b)
    }
}

/// The first `p` digits of `d` followed by zeros without end.
pub open spec fn padded(d: Seq<u8>, p: int) -> Seq<u8> {
    Seq::new(p as nat, |j: int| if j < d.len() { d[j] } else { 0x30u8 })
}

/// The signed exponent of a number whose exponent marker stands at `s[c..k]`
/// and digits at `s[k..e]`; zero where it has none.
pub open spec fn exponent(s: Seq<u8>, c: int, k: int, e: int) -> int {
    if k == c {
        0
    } else if byte_at(s, c + 1, 0x2d) {
        -digits_value(s, k, e)
    } else {
        digits_value(s, k, e)
    }
}

/// The value of a text that is one JSON number, truncated toward zero: the
/// mantissa's digits before the point once the exponent has moved it.
pub open spec fn whole_part(s: Seq<u8>) -> Option<int> {
    if number_well_formed(s, 0) && number_parts(s, 0).4 == s.len() {
        let (a, b, c, k, e) = number_parts(s, 0);
        let p = (b - a) + exponent(s, c, k, e);
        let m = if p <= 0 { 0 } else { digits_value(padded(mantissa(s, a, b, c), p), 0, p) };
        Some(if a > 0 { -m } else { m })
    } else {
        None
    }
}

pub open spec fn ascii_bytes(t: Seq<char>) -> Seq<u8> {
    Seq::new(t.len(), |i: int| t[i] as u8)
}

/// The whole milliseconds a timestamp written as `t` stands for: its value
/// truncated toward zero, where `t` is a JSON number and that fits in 64 bits.
pub open spec fn literal_millis(t: Seq<char>) -> Option<int> {
    if vstd::utf8::is_ascii_chars(t) {
        match whole_part(ascii_bytes(t)) {
            Some(v) => if i64::MIN <= v <= i64::MAX {
                Some(v)
            } else {
                None
            },
            None => None,
        }
    } else {
        None
    }
}

pub open spec fn pow10(n: nat) -> nat
    decreases n,
{
    if n == 0 {
        1
    } else {
        10 * pow10((n - 1) as nat)
    }
}

proof fn lemma_pow10_large(n: nat)
    requires
        n >= 19,
    ensures
        pow10(n) >= 10_000_000_000_000_000_000,
    decreases n,
{
    if n == 19 {
        reveal_with_fuel(pow10, 20);
    } else {
        lemma_pow10_large((n - 1) as nat);
    }
}

proof fn lemma_zero_tail(pad: Seq<u8>, dlen: int, j: int, p: int)
    requires
        0 <= dlen <= j <= p,
        pad.len() == p,
        forall|q: int| dlen <= q < p ==> #[trigger] pad[q] == 0x30,
        digits_value(pad, 0, j) == 0,
    ensures
        digits_value(pad, 0, p) == 0,
    decreases p - j,
{
    if j < p {
        lemma_zero_tail(pad, dlen, j + 1, p);
    }
}

pub proof fn lemma_number_parts(s: Seq<u8>, i: int)
    requires
        0 <= i <= s.len(),
    ensures
        ({
            let (a, b, c, k, e) = number_parts(s, i);
            i <= a <= b <= c <= k <= e <= s.len()
        }),
{
    let (a, b, c, k, e) = number_parts(s, i);
    lemma_digits_end(s, a);
    if byte_at(s, b, 0x2e) {
        lemma_digits_end(s, b + 1);
    }
    if k <= s.len() {
        lemma_digits_end(s, k);
    }
}

proof fn lemma_digits_text(s: Seq<u8>, a: int, b: int)
    requires
        0 <= a < b <= s.len(),
        forall|k: int| a <= k < b ==> is_digit(#[trigger] s[k]),
        s[a] != 0x30 || b == a + 1,
    ensures
        digits_value(s, a, b) >= 0,
        b > a + 1 ==> digits_value(s, a, b) >= 10,
        nat_text(digits_value(s, a, b) as nat) == bytes_text(s.subrange(a, b)),
    decreases b - a,
{
    lemma_digits_value_grows(s, a, b);
    let n = digits_value(s, a, b);
    let d = s[b - 1] - 48;
    if b == a + 1 {
        assert(digits_value(s, a, a) == 0);
        assert(n == d);
        assert(bytes_text(s.subrange(a, b)) == seq![s[a] as char]);
        assert(digit_char(n) == s[a] as char);
    } else {
        lemma_digits_text(s, a, b - 1);
        let m = digits_value(s, a, b - 1);
        if b - 1 == a + 1 {
            assert(digits_value(s, a, a) == 0);
            assert(m == s[a] - 48);
            assert(m >= 1);
        }
        assert(m >= 1);
        assert(n == m * 10 + d);
        assert(n / 10 == m && n % 10 == d);
        assert(n >= 10);
        assert(s.subrange(a, b) == s.subrange(a, b - 1).push(s[b - 1]));
        assert(bytes_text(s.subrange(a, b)) == bytes_text(s.subrange(a, b - 1)).push(s[b - 1] as char));
        assert(digit_char(d) == s[b - 1] as char);
    }
}

/// Rendering a number read from the wire gives back the literal it was read
/// from, character for character.
pub proof fn lemma_render_round_trip(s: Seq<u8>, i: int)
    requires
        0 <= i <= s.len(),
        number_at(s, i) is Some,
    ensures
        value_text(number_at(s, i).unwrap().0) == bytes_text(s.subrange(i, number_at(s, i).unwrap().1)),
{
    lemma_number_parts(s, i);
    let (a, b, c, k, e) = number_parts(s, i);
    lemma_digits_end(s, a);
    let m = digits_value(s, a, b);
    let v = if a > i { -m } else { m };
    if c == b && k == c && i64::MIN <= v <= i64::MAX && !(a > i && m == 0) {
        lemma_digits_text(s, a, b);
        assert(e == b);
        if a > i {
            assert(m != 0);
            assert(int_text(v) == seq!['-'] + nat_text(m as nat));
            assert(s.subrange(i, e) == seq![s[i]] + s.subrange(a, b));
            assert(bytes_text(s.subrange(i, e)) == seq![s[i] as char] + bytes_text(s.subrange(a, b)));
            assert(s[i] as char == '-');
        } else {
            assert(s.subrange(i, e) == s.subrange(a, b));
        }
    }
}

/// `v` is the value of a JSON number that the body holds at `j`, ending at `e`.
pub open spec fn read_from(s: Seq<u8>, v: NumberValue, j: int, e: int) -> bool {
    0 <= j <= s.len() && number_at(s, j) == Some((v, e))
}

proof fn lemma_item_read(s: Seq<u8>, i: int, last: bool)
    requires
        0 <= i <= s.len(),
        item_at(s, i, last) is Some,
    ensures
        exists|j: int, e: int| read_from(s, item_at(s, i, last).unwrap().0, j, e),
{
    lemma_skip_ws(s, i);
    let j = skip_ws(s, i);
    let e = number_at(s, j).unwrap().1;
    assert(read_from(s, item_at(s, i, last).unwrap().0, j, e));
}

proof fn lemma_row_read(s: Seq<u8>, i: int, f: int)
    requires
        0 <= i <= s.len(),
        row_at(s, i) is Some,
        0 <= f < 6,
    ensures
        exists|j: int, e: int| read_from(s, row_at(s, i).unwrap().0[f], j, e),
{
    lemma_skip_ws(s, i);
    let j = skip_ws(s, i);
    let p0 = j + 1;
    lemma_item_at(s, p0, false);
    let p1 = item_at(s, p0, false).unwrap().1;
    lemma_item_at(s, p1, false);
    let p2 = item_at(s, p1, false).unwrap().1;
    lemma_item_at(s, p2, false);
    let p3 = item_at(s, p2, false).unwrap().1;
    lemma_item_at(s, p3, false);
    let p4 = item_at(s, p3, false).unwrap().1;
    lemma_item_at(s, p4, false);
    let p5 = item_at(s, p4, false).unwrap().1;
    lemma_item_at(s, p5, true);
    assert(row_at(s, i).unwrap().0 == seq![item_at(s, p0, false).unwrap().0, item_at(s, p1, false).unwrap().0,
        item_at(s, p2, false).unwrap().0, item_at(s, p3, false).unwrap().0, item_at(s, p4, false).unwrap().0,
        item_at(s, p5, true).unwrap().0]);
    if f == 0 {
        lemma_item_read(s, p0, false);
    } else if f == 1 {
        lemma_item_read(s, p1, false);
    } else if f == 2 {
        lemma_item_read(s, p2, false);
    } else if f == 3 {
        lemma_item_read(s, p3, false);
    } else if f == 4 {
        lemma_item_read(s, p4, false);
    } else {
        lemma_item_read(s, p5, true);
    }
}

proof fn lemma_rows_read(s: Seq<u8>, i: int, k: int, f: int)
    requires
        0 <= i <= s.len(),
        rows_at(s, i) is Some,
        0 <= k < rows_at(s, i).unwrap().0.len(),
        0 <= f < 6,
    ensures
        rows_at(s, i).unwrap().0[k].len() == 6,
        exists|j: int, e: int| read_from(s, rows_at(s, i).unwrap().0[k][f], j, e),
    decreases s.len() - i,
{
    let (r, e) = row_at(s, i).unwrap();
    lemma_row_at_ends_after(s, i);
    lemma_skip_ws(s, e);
    let q = skip_ws(s, e);
    if k == 0 {
        lemma_row_read(s, i, f);
        lemma_row_len(s, i);
        assert(rows_at(s, i).unwrap().0[0] == r);
    } else {
        assert(byte_at(s, q, 0x2c));
        lemma_rows_read(s, q + 1, k - 1, f);
        assert(rows_at(s, i).unwrap().0 == seq![r] + rows_at(s, q + 1).unwrap().0);
        assert(rows_at(s, i).unwrap().0[k] == rows_at(s, q + 1).unwrap().0[k - 1]);
    }
}

proof fn lemma_row_len(s: Seq<u8>, i: int)
    requires
        row_at(s, i) is Some,
    ensures
        row_at(s, i).unwrap().0.len() == 6,
{
}

/// Every number of every record read from a body was read from a literal the
/// body holds, and renders as exactly that literal.
pub proof fn lemma_records_render_as_read(s: Seq<u8>, k: int, f: int)
    requires
        candles_of(s) is Some,
        0 <= k < candles_of(s).unwrap().len(),
        0 <= f < 6,
    ensures
        exists|j: int, e: int| #[trigger] read_from(s, candles_of(s).unwrap()[k][f], j, e)
            && value_text(candles_of(s).unwrap()[k][f]) == bytes_text(s.subrange(j, e)),
{
    lemma_skip_ws(s, 0);
    let j0 = skip_ws(s, 0);
    lemma_rows_read(s, j0 + 1, k, f);
    let v = candles_of(s).unwrap()[k][f];
    let (j, e) = choose|j: int, e: int| read_from(s, v, j, e);
    lemma_render_round_trip(s, j);
    assert(read_from(s, v, j, e));
}

fn skip_ws_exec(s: &[u8], i: usize) -> (j: usize)
    requires
        i <= s@.len(),
    ensures
        j == skip_ws(s@, i as int),
{
    let mut j = i;
    while j < s.len() && (s[j] == 0x20 || s[j] == 0x09 || s[j] == 0x0a || s[j] == 0x0d)
        invariant
            i <= j <= s@.len(),
            skip_ws(s@, j as int) == skip_ws(s@, i as int),
        decreases s@.len() - j,
    {
        j = j + 1;
    }
    j
}

fn digits_end_exec(s: &[u8], i: usize) -> (j: usize)
    requires
        i <= s@.len(),
    ensures
        j == digits_end(s@, i as int),
{
    let mut j = i;
    while j < s.len() && 0x30 <= s[j] && s[j] <= 0x39
        invariant
            i <= j <= s@.len(),
            digits_end(s@, j as int) == digits_end(s@, i as int),
        decreases s@.len() - j,
    {
        j = j + 1;
    }
    j
}

fn byte_at_exec(s: &[u8], i: usize, b: u8) -> (r: bool)
    ensures
        r == byte_at(s@, i as int, b),
        s@.len() <= usize::MAX,
{
    i < s.len() && s[i] == b
}

/// The text of `s[i..e]`.
fn literal_text(s: &[u8], i: usize, e: usize) -> (r: String)
    requires
        i <= e <= s@.len(),
    ensures
        r@ == bytes_text(s@.subrange(i as int, e as int)),
{
    let mut out = String::new();
    let mut k = i;
    while k < e
        invariant
            i <= k <= e <= s@.len(),
            out@ == bytes_text(s@.subrange(i as int, k as int)),
        decreases e - k,
    {
        crate::candle::push_char(&mut out, s[k] as char);
        assert(s@.subrange(i as int, k + 1) == s@.subrange(i as int, k as int).push(s@[k as int]));
        k = k + 1;
    }
    out
}

/// The value of the digits `s[a..b]` if it is at most `limit`.
fn digits_value_upto(s: &[u8], a: usize, b: usize, limit: u128) -> (r: Option<u128>)
    requires
        a <= b <= s@.len(),
        forall|k: int| a <= k < b ==> is_digit(#[trigger] s@[k]),
        limit < u128::MAX / 10 * 9,
    ensures
        match r {
            Some(v) => v == digits_value(s@, a as int, b as int) && v <= limit,
            None => digits_value(s@, a as int, b as int) > limit,
        },
{
    let mut acc: u128 = 0;
    let mut p = a;
    while p < b
        invariant
            a <= p <= b <= s@.len(),
            forall|k: int| a <= k < b ==> is_digit(#[trigger] s@[k]),
            limit < u128::MAX / 10 * 9,
            acc == digits_value(s@, a as int, p as int),
            acc <= limit,
        decreases b - p,
    {
        assert(is_digit(s@[p as int]));
        let d: u128 = (s[p] - 0x30) as u128;
        if acc > limit / 10 {
            proof {
                lemma_digits_value_grows(s@, a as int, p as int + 1);
                lemma_digits_value_mono(s@, a as int, p as int + 1, b as int);
            }
            return None;
        }
        let next = acc * 10 + d;
        if next > limit {
            proof {
                lemma_digits_value_mono(s@, a as int, p as int + 1, b as int);
            }
            return None;
        }
        acc = next;
        p = p + 1;
    }
    Some(acc)
}

/// The parts of the JSON number that starts at `i`, as `number_parts` gives them.
fn number_parts_exec(s: &[u8], i: usize) -> (r: (usize, usize, usize, usize, usize))
    requires
        i <= s@.len(),
    ensures
        number_parts(s@, i as int) == (r.0 as int, r.1 as int, r.2 as int, r.3 as int, r.4 as int),
        i <= r.0 <= r.1 <= r.2 <= r.3 <= r.4 <= s@.len(),
{
    proof {
        lemma_number_parts(s@, i as int);
    }
    let negative = byte_at_exec(s, i, 0x2d);
    let a = if negative { i + 1 } else { i };
    let b = digits_end_exec(s, a);
    let has_frac = byte_at_exec(s, b, 0x2e);
    let c = if has_frac { digits_end_exec(s, b + 1) } else { b };
    let has_exp = byte_at_exec(s, c, 0x65) || byte_at_exec(s, c, 0x45);
    let k = if !has_exp {
        c
    } else if byte_at_exec(s, c + 1, 0x2b) || byte_at_exec(s, c + 1, 0x2d) {
        c + 2
    } else {
        c + 1
    };
    let e = if has_exp { digits_end_exec(s, k) } else { c };
    (a, b, c, k, e)
}

/// Whether the parts `number_parts_exec` found form a JSON number.
fn number_well_formed_exec(s: &[u8], i: usize, parts: (usize, usize, usize, usize, usize)) -> (r: bool)
    requires
        i <= s@.len(),
        number_parts(s@, i as int) == (parts.0 as int, parts.1 as int, parts.2 as int, parts.3 as int, parts.4 as int),
        i <= parts.0 <= parts.1 <= parts.2 <= parts.3 <= parts.4 <= s@.len(),
    ensures
        r == number_well_formed(s@, i as int),
{
    let (a, b, c, k, e) = parts;
    !(b == a || (s[a] == 0x30 && b > a + 1) || (c != b && c == b + 1) || (k != c && e == k))
}

/// The JSON number at `i` and the position after it.
fn number_exec(s: &[u8], i: usize) -> (r: Option<(FloatOrInt, usize)>)
    requires
        i <= s@.len(),
    ensures
        match number_at(s@, i as int) {
            None => r is None,
            Some((v, e)) => r matches Some((x, e2)) && x@ == v && e2 == e,
        },
{
    let parts = number_parts_exec(s, i);
    if !number_well_formed_exec(s, i, parts) {
        return None;
    }
    let (a, b, c, k, e) = parts;
    let negative = a > i;
    proof {
        lemma_digits_end(s@, a as int);
    }
    if c == b && k == c {
        let limit: u128 = if negative { 0x8000_0000_0000_0000 } else { 0x7fff_ffff_ffff_ffff };
        match digits_value_upto(s, a, b, limit) {
            Some(m) => {
                if !(negative && m == 0) {
                    let v: i64 = if negative { (0i128 - m as i128) as i64 } else { m as i64 };
                    return Some((FloatOrInt::Int(v), e));
                }
            },
            None => {},
        }
    }
    Some((FloatOrInt::Float(literal_text(s, i, e)), e))
}

/// The whole milliseconds a timestamp written as `t` stands for.
pub fn literal_millis_exec(t: &str) -> (r: Option<i64>)
    ensures
        match literal_millis(t@) {
            Some(v) => r == Some(v as i64),
            None => r is None,
        },
{
    if !t.is_ascii() {
        return None;
    }
    let s = t.as_bytes();
    proof {
        vstd::string::is_ascii_spec_bytes(t);
        assert(s@ == ascii_bytes(t@));
    }
    let n = s.len();
    let parts = number_parts_exec(s, 0);
    if !number_well_formed_exec(s, 0, parts) {
        return None;
    }
    let (a, b, c, k, e) = parts;
    if e != n {
        return None;
    }
    let negative = a > 0;
    let limit: u128 = if negative { 0x8000_0000_0000_0000 } else { 0x7fff_ffff_ffff_ffff };
    proof {
        lemma_digits_end(s@, a as int);
        if c > b {
            lemma_digits_end(s@, b + 1);
        }
        if k < n {
            lemma_digits_end(s@, k as int);
        }
    }
    let ilen: usize = b - a;
    let flen: usize = if c > b { c - b - 1 } else { 0 };
    let dlen: usize = ilen + flen;
    let ghost d = mantissa(s@, a as int, b as int, c as int);
    assert(d.len() == dlen);
    assert forall|q: int| 0 <= q < d.len() implies is_digit(#[trigger] d[q]) by {
        if q < ilen {
            assert(d[q] == s@[a + q]);
        } else {
            assert(d[q] == s@[b + 1 + q - ilen]);
        }
    }
    let ghost x = exponent(s@, c as int, k as int, e as int);
    let ghost p = ilen + x;
    let cap: u128 = 1_000_000_000_000_000_000_000;
    let mut huge = false;
    let p_eff: i128 = if k == c {
        ilen as i128
    } else {
        let exp_negative = byte_at_exec(s, c + 1, 0x2d);
        match digits_value_upto(s, k, e, cap) {
            Some(m) => if exp_negative {
                ilen as i128 - m as i128
            } else {
                ilen as i128 + m as i128
            },
            None => if exp_negative {
                assert(p <= 0);
                return Some(0);
            } else {
                huge = true;
                dlen as i128 + 20
            },
        }
    };
    if p_eff <= 0 {
        return Some(0);
    }
    let ghost pad = padded(d, p);
    assert forall|q: int| 0 <= q < p implies is_digit(#[trigger] pad[q]) by {
        if q < d.len() {
            assert(is_digit(d[q]));
        }
    }
    assert(whole_part(s@) == Some(if negative { -digits_value(pad, 0, p) } else { digits_value(pad, 0, p) }));
    let mut acc: u128 = 0;
    let mut j: i128 = 0;
    while j < p_eff
        invariant
            vstd::utf8::is_ascii_chars(t@),
            s@ == ascii_bytes(t@),
            p > 0,
            whole_part(s@) == Some(if negative { -digits_value(pad, 0, p) } else { digits_value(pad, 0, p) }),
            limit == if negative { 0x8000_0000_0000_0000u128 } else { 0x7fff_ffff_ffff_ffffu128 },
            0 <= j <= p_eff <= p,
            huge ==> p_eff == dlen + 20 && p > dlen + 20,
            !huge ==> p_eff == p,
            pad == padded(d, p),
            d.len() == dlen,
            dlen == ilen + flen,
            ilen == b - a,
            a <= b <= s@.len(),
            c > b ==> c <= s@.len() && flen == c - b - 1,
            c <= b ==> flen == 0,
            d == mantissa(s@, a as int, b as int, c as int),
            forall|q: int| 0 <= q < p ==> is_digit(#[trigger] pad[q]),
            acc == digits_value(pad, 0, j as int),
            acc <= limit,
            limit <= 0x8000_0000_0000_0000,
            j >= dlen && acc > 0 ==> acc >= pow10((j - dlen) as nat),
        decreases p_eff - j,
    {
        if j >= dlen as i128 && acc == 0 {
            proof {
                lemma_zero_tail(pad, dlen as int, j as int, p);
            }
            return Some(0);
        }
        let digit: u128 = if j < dlen as i128 {
            let jj = j as usize;
            if jj < ilen {
                assert(pad[j as int] == s@[a + jj]);
                (s[a + jj] - 0x30) as u128
            } else {
                assert(pad[j as int] == s@[b + 1 + jj - ilen]);
                (s[b + 1 + (jj - ilen)] - 0x30) as u128
            }
        } else {
            assert(pad[j as int] == 0x30);
            0
        };
        assert(digits_value(pad, 0, j + 1) == acc * 10 + digit);
        if acc > limit / 10 {
            proof {
                lemma_digits_value_grows(pad, 0, j + 1);
                lemma_digits_value_mono(pad, 0, j + 1, p);
            }
            return None;
        }
        let next = acc * 10 + digit;
        if next > limit {
            proof {
                lemma_digits_value_mono(pad, 0, j + 1, p);
            }
            return None;
        }
        acc = next;
        j = j + 1;
    }
    if huge {
        if acc == 0 {
            proof {
                lemma_zero_tail(pad, dlen as int, j as int, p);
            }
            return Some(0);
        }
        proof {
            lemma_pow10_large(20);
        }
        assert(false);
    }
    if negative {
        Some((0i128 - acc as i128) as i64)
    } else {
        Some(acc as i64)
    }
}

fn item_exec(s: &[u8], i: usize, last: bool) -> (r: Option<(FloatOrInt, usize)>)
    requires
        i <= s@.len(),
    ensures
        match item_at(s@, i as int, last) {
            None => r is None,
            Some((v, e)) => r matches Some((x, e2)) && x@ == v && e2 == e && e2 <= s@.len(),
        },
{
    let j = skip_ws_exec(s, i);
    proof {
        lemma_skip_ws(s@, i as int);
        lemma_number_parts(s@, j as int);
    }
    match number_exec(s, j) {
        None => None,
        Some((x, e)) => {
            let k = skip_ws_exec(s, e);
            proof {
                lemma_skip_ws(s@, e as int);
            }
            if byte_at_exec(s, k, if last { 0x5d } else { 0x2c }) {
                Some((x, k + 1))
            } else {
                None
            }
        },
    }
}

fn row_exec(s: &[u8], i: usize) -> (r: Option<([FloatOrInt; 6], usize)>)
    requires
        i <= s@.len(),
    ensures
        match row_at(s@, i as int) {
            None => r is None,
            Some((v, e)) => r matches Some((x, e2)) && record_view(x) == v && e2 == e && e2 <= s@.len(),
        },
{
    let j = skip_ws_exec(s, i);
    proof {
        lemma_skip_ws(s@, i as int);
    }
    if !byte_at_exec(s, j, 0x5b) {
        return None;
    }
    let (x0, p1) = match item_exec(s, j + 1, false) { Some(t) => t, None => return None };
    let (x1, p2) = match item_exec(s, p1, false) { Some(t) => t, None => return None };
    let (x2, p3) = match item_exec(s, p2, false) { Some(t) => t, None => return None };
    let (x3, p4) = match item_exec(s, p3, false) { Some(t) => t, None => return None };
    let (x4, p5) = match item_exec(s, p4, false) { Some(t) => t, None => return None };
    let (x5, p6) = match item_exec(s, p5, true) { Some(t) => t, None => return None };
    let row = [x0, x1, x2, x3, x4, x5];
    assert(record_view(row) == seq![x0@, x1@, x2@, x3@, x4@, x5@]);
    Some((row, p6))
}

/// Reads a candle response body. `None` where the body is not a JSON array of
/// rows of exactly six numbers (whitespace allowed between tokens).
#[verifier::rlimit(40)]
pub fn parse_candles(s: &[u8]) -> (r: Option<CandleData>)
    ensures
        match candles_of(s@) {
            None => r is None,
            Some(rows) => r matches Some(d) && d@ == rows,
        },
{
    let n = s.len();
    let j = skip_ws_exec(s, 0);
    proof {
        lemma_skip_ws(s@, 0);
    }
    if !byte_at_exec(s, j, 0x5b) {
        return None;
    }
    let k = skip_ws_exec(s, j + 1);
    proof {
        lemma_skip_ws(s@, j + 1);
    }
    if byte_at_exec(s, k, 0x5d) {
        let t = skip_ws_exec(s, k + 1);
        if t == n {
            let d = CandleData(Vec::new());
            assert(d@ == Seq::<Seq<NumberValue>>::empty());
            return Some(d);
        } else {
            return None;
        }
    }
    let mut rows: Vec<[FloatOrInt; 6]> = Vec::new();
    let mut pos = j + 1;
    let ghost start = j + 1;
    let mut end: usize = 0;
    loop
        invariant_except_break
            start <= pos <= n,
            rows_at(s@, start as int) == match rows_at(s@, pos as int) {
                None => None,
                Some((rest, m)) => Some((CandleData(rows)@ + rest, m)),
            },
        invariant
            n == s@.len(),
            start == j + 1,
            j == skip_ws(s@, 0),
            byte_at(s@, j as int, 0x5b),
            !byte_at(s@, skip_ws(s@, start as int), 0x5d),
        ensures
            start <= n,
            end <= n,
            rows_at(s@, start as int) == Some((CandleData(rows)@, end as int)),
        decreases n - pos,
    {
        let ghost old_rows = CandleData(rows)@;
        match row_exec(s, pos) {
            None => {
                assert(rows_at(s@, pos as int) is None);
                return None;
            },
            Some((row, e)) => {
                let k = skip_ws_exec(s, e);
                proof {
                    lemma_skip_ws(s@, e as int);
                    lemma_row_at_ends_after(s@, pos as int);
                }
                let ghost v = record_view(row);
                rows.push(row);
                assert(CandleData(rows)@ == old_rows.push(v));
                if byte_at_exec(s, k, 0x2c) {
                    proof {
                        match rows_at(s@, k + 1) {
                            None => {},
                            Some((rest, m)) => {
                                assert(rows_at(s@, pos as int) == Some((seq![v] + rest, m)));
                                assert(old_rows + (seq![v] + rest) == old_rows.push(v) + rest);
                            },
                        }
                    }
                    pos = k + 1;
                } else if byte_at_exec(s, k, 0x5d) {
                    assert(rows_at(s@, pos as int) == Some((seq![v], k + 1)));
                    assert(old_rows + seq![v] == old_rows.push(v));
                    end = k + 1;
                    break;
                } else {
                    assert(rows_at(s@, pos as int) is None);
                    return None;
                }
            },
        }
    }
    let t = skip_ws_exec(s, end);
    if t == n {
        Some(CandleData(rows))
    } else {
        None
    }
}

} // verus!
