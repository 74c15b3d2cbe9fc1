//! What the exchange accepts: its time intervals, its base currencies, and
//! the check of a symbol against its own listing.

use vstd::prelude::*;
use vstd::string::StringExecFns;
use crate::exchange::{upper_of, to_upper};

verus! {

/// "1m", "5m", "15m", "30m", "1h", "3h", "6h", "12h", "1D", "7D", "14D", "1M"
pub open spec fn interval_names() -> Seq<Seq<char>> {
    seq!["1m"@, "5m"@, "15m"@, "30m"@, "1h"@, "3h"@, "6h"@, "12h"@, "1D"@, "7D"@, "14D"@, "1M"@]
}

/// "USD", "UST", "EUR", "CNHT", "GBP", "JPY", "DAI", "BTC", "EOS", "ETH",
/// "XCH", "USTF0"
pub open spec fn currency_names() -> Seq<Seq<char>> {
    seq!["USD"@, "UST"@, "EUR"@, "CNHT"@, "GBP"@, "JPY"@, "DAI"@, "BTC"@, "EOS"@, "ETH"@,
        "XCH"@, "USTF0"@]
}

/// The time intervals the exchange offers.
pub fn intervals() -> (r: Vec<&'static str>)
    ensures
        r@.map_values(|s: &str| s@) == interval_names(),
{
    let r = vec!["1m", "5m", "15m", "30m", "1h", "3h", "6h", "12h", "1D", "7D", "14D", "1M"];
    assert(r@.map_values(|s: &str| s@) == interval_names());
    r
}

/// The base currencies the exchange quotes against.
pub fn list_of_currency() -> (r: Vec<&'static str>)
    ensures
        r@.map_values(|s: &str| s@) == currency_names(),
{
    let r = vec!["USD", "UST", "EUR", "CNHT", "GBP", "JPY", "DAI", "BTC", "EOS", "ETH", "XCH", "USTF0"];
    assert(r@.map_values(|s: &str| s@) == currency_names());
    r
}

fn str_eq(a: &str, b: &str) -> (r: bool)
    ensures
        r == (a@ == b@),
{
    String::from_str(a) == String::from_str(b)
}

/// Whether `list` holds `x`.
fn listed(list: &Vec<&str>, x: &str) -> (r: bool)
    ensures
        r == list@.map_values(|s: &str| s@).contains(x@),
{
    let ghost names = list@.map_values(|s: &str| s@);
    let mut i: usize = 0;
    while i < list.len()
        invariant
            i <= list@.len(),
            names == list@.map_values(|s: &str| s@),
            forall|j: int| 0 <= j < i ==> names[j] != x@,
        decreases list@.len() - i,
    {
        if str_eq(list[i], x) {
            assert(names[i as int] == x@);
            return true;
        }
        i = i + 1;
    }
    false
}

/// Whether the interval is one the exchange offers (case counts: `1M` is a
/// month, `1m` a minute).
pub fn check_interval(interval: &str) -> (r: bool)
    ensures
        r == interval_names().contains(interval@),
{
    listed(&intervals(), interval)
}

/// Whether the base currency, in upper case, is one the exchange quotes.
pub fn check_base_currency(base_currency: &str) -> (r: bool)
    ensures
        r == currency_names().contains(upper_of(base_currency@)),
{
    let upper = to_upper(base_currency);
    listed(&list_of_currency(), upper.as_str())
}

/// The lower-case form of a text, as `str::to_lowercase` gives it.
pub uninterp spec fn lower_of(s: Seq<char>) -> Seq<char>;

/// Relies on `str::to_lowercase`: its result depends on the characters alone.
#[verifier::external_body]
fn to_lower(s: &str) -> (r: String)
    ensures
        r@ == lower_of(s@),
{
    s.to_lowercase()
}

/// Whether `p` occurs in `t` as a run of consecutive characters.
pub open spec fn occurs_in(p: Seq<char>, t: Seq<char>) -> bool {
    exists|i: int| 0 <= i && i + p.len() <= t.len() && #[trigger] t.subrange(i, i + p.len()) == p
}

/// Relies on `str::contains` with a `&str` pattern: whether the pattern is a
/// substring of the text.
#[verifier::external_body]
fn str_contains(t: &str, p: &str) -> (r: bool)
    ensures
        r == occurs_in(p@, t@),
{
    t.contains(p)
}

/// Whether the symbol, in lower case, occurs in the exchange's listing of
/// symbols; `false` where no listing could be had.
pub fn check_symbol(symbol: &str, all_symbols: Option<&str>) -> (r: bool)
    ensures
        r == match all_symbols {
            Some(t) => occurs_in(lower_of(symbol@), t@),
            None => false,
        },
{
    match all_symbols {
        Some(t) => {
            let lower = to_lower(symbol);
            str_contains(t, lower.as_str())
        },
        None => false,
    }
}

/// Whether symbol, base currency and interval are all accepted; the request
/// is refused before any data is asked for otherwise.
pub fn check_values_exist_on_the_exchange(symbol: &str, base_currency: &str, interval: &str, all_symbols: Option<&str>) -> (r: bool)
    ensures
        r == ((match all_symbols {
            Some(t) => occurs_in(lower_of(symbol@), t@),
            None => false,
        }) && currency_names().contains(upper_of(base_currency@))
            && interval_names().contains(interval@)),
{
    check_symbol(symbol, all_symbols) && check_base_currency(base_currency) && check_interval(interval)
}

/// Whether the whole request is the one made with no argument given.
pub fn check_default_arguments(symbol: &str, base_currency: &str, interval: &str, parsed_start_date: i64, parsed_end_date: i64) -> (r: bool)
    ensures
        r == (symbol@ == "BTC"@ && base_currency@ == "USD"@ && interval@ == "1D"@
            && parsed_start_date == 1604188801000 && parsed_end_date == 1609459202000),
{
    str_eq(symbol, "BTC") && str_eq(base_currency, "USD") && str_eq(interval, "1D")
        && parsed_start_date == 1604188801000 && parsed_end_date == 1609459202000
}

/// The trading pair: the symbol followed by the base currency.
pub fn ticker_of(symbol: &str, base_currency: &str) -> (r: String)
    ensures
        r@ == symbol@ + base_currency@,
{
    String::from_str(symbol).concat(base_currency)
}

/// The name the outputs of a request are stored under: `ticker-interval`.
pub fn output_name(ticker: &str, interval: &str) -> (r: String)
    ensures
        r@ == ticker@ + "-"@ + interval@,
{
    String::from_str(ticker).concat("-").concat(interval)
}

} // verus!
