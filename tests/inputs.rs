use crypto_candlesticks::about::{buy_me_a_coffee, create_schema, info, repo_info, SCHEMA};
use crypto_candlesticks::dates::{check_and_transform_dates, DateError, EARLIEST_DAY};
use crypto_candlesticks::symbols::{
    check_base_currency, check_default_arguments, check_interval, check_symbol,
    check_values_exist_on_the_exchange, intervals, list_of_currency, output_name, ticker_of,
};

/// 2021-06-01, as chrono counts days from the common era.
const TODAY: i32 = 737942;

#[test]
fn intervals_allowed() {
    assert_eq!(intervals().len(), 12);
    for i in ["1m", "5m", "15m", "30m", "1h", "3h", "6h", "12h", "1D", "7D", "14D", "1M"] {
        assert!(check_interval(i));
    }
    assert!(!check_interval("10D"));
    assert!(!check_interval("103m"));
    assert!(!check_interval("1d"));
}

#[test]
fn base_currency_in_any_case() {
    assert_eq!(list_of_currency()[11], "USTF0");
    assert!(check_base_currency("usd"));
    assert!(check_base_currency("USD"));
    assert!(check_base_currency("ustf0"));
    assert!(!check_base_currency("USDR"));
    assert!(!check_base_currency("USdfasdfsdafD"));
}

#[test]
fn symbol_in_listing() {
    let listing = "[\"btcusd\",\"ltcusd\",\"ethusd\"]";
    assert!(check_symbol("BTC", Some(listing)));
    assert!(check_symbol("ltc", Some(listing)));
    assert!(!check_symbol("notbtc", Some(listing)));
    assert!(!check_symbol("BTC", None));
}

#[test]
fn every_value_must_exist() {
    let listing = "btcusd ethusd";
    assert!(check_values_exist_on_the_exchange("btc", "usd", "30m", Some(listing)));
    assert!(!check_values_exist_on_the_exchange("notbtc", "usd", "30m", Some(listing)));
    assert!(!check_values_exist_on_the_exchange("btc", "USDR", "30m", Some(listing)));
    assert!(!check_values_exist_on_the_exchange("btc", "usd", "10D", Some(listing)));
}

#[test]
fn dates_become_millisecond_bounds() {
    assert_eq!(
        check_and_transform_dates("2020-11-01", "2021-01-01", TODAY),
        Ok((1604188801000, 1609459202000))
    );
}

#[test]
fn dates_are_held_within_range() {
    // before 2016 becomes 2016-01-01; after today becomes today
    assert_eq!(
        check_and_transform_dates("1980-02-01", "2030-01-01", TODAY),
        Ok((1451606401000, 1622505602000))
    );
    assert_eq!(EARLIEST_DAY, 735964);
}

#[test]
fn unreadable_dates_are_refused() {
    assert_eq!(check_and_transform_dates("2021-02-300", "2021-02-01", TODAY), Err(DateError::Format));
    assert_eq!(check_and_transform_dates("2021-10-01", "2021-20-01", TODAY), Err(DateError::Format));
    assert_eq!(check_and_transform_dates("01/01/2021", "2021-02-01", TODAY), Err(DateError::Format));
}

#[test]
fn default_request_is_recognised() {
    assert!(check_default_arguments("BTC", "USD", "1D", 1604188801000, 1609459202000));
    assert!(!check_default_arguments("ETH", "USD", "1D", 1604188801000, 1609459202000));
    assert!(!check_default_arguments("BTC", "USD", "1D", 1604188801000, 1609459202001));
}

#[test]
fn ticker_and_output_names() {
    let t = ticker_of("BTC", "USD");
    assert_eq!(t, "BTCUSD");
    assert_eq!(output_name(&t, "1D"), "BTCUSD-1D");
}

#[test]
fn fixed_texts() {
    assert!(info().starts_with("Download cryptocurrency candlestick data from Bitfinex."));
    assert!(repo_info().contains("crypto-candlesticks-rust/issues"));
    assert!(buy_me_a_coffee().starts_with("Thank you for using crypto-candlesticks"));
    assert_eq!(create_schema(), SCHEMA);
    assert!(create_schema().starts_with("CREATE TABLE IF NOT EXISTS Candlestick("));
}
