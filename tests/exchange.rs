use crypto_candlesticks::exchange::{AttemptOutcome, Bitfinex, RetryDecision, RetryPolicy};

#[test]
fn candle_request_names_the_pair_in_upper_case() {
    let url = Bitfinex::new().candles_url("btcusd", "1D", 1604188801000, 1604275201000);
    assert_eq!(
        url,
        "https://api.bitfinex.com/v2/candles/trade:1D:tBTCUSD/hist?limit=10000&start=1604188801000&end=1604275201000&sort=-1"
    );
}

#[test]
fn symbols_request() {
    assert_eq!(Bitfinex::new().symbols_url(), "https://api.bitfinex.com/v1/symbols");
}

/// Runs the attempts of one request against `answer`, which gives the outcome
/// of each attempt by its number; returns the verdict, the attempts made and
/// the milliseconds waited in between.
fn run(policy: &RetryPolicy, answer: impl Fn(u32) -> AttemptOutcome) -> (RetryDecision, u32, u64) {
    let mut attempt: u32 = 1;
    let mut waited: u64 = 0;
    loop {
        match policy.decide(attempt, answer(attempt)) {
            RetryDecision::RetryAfter(ms) => {
                waited += ms;
                attempt += 1;
            }
            d => return (d, attempt, waited),
        }
    }
}

#[test]
fn standard_policy() {
    let p = RetryPolicy::standard();
    assert_eq!(p.max_attempts, 15);
    assert_eq!(p.retry_delay_ms, 1000);
}

#[test]
fn fifteen_transport_failures_give_up_after_fifteen_attempts() {
    let p = RetryPolicy::standard();
    for attempt in 1..15 {
        assert_eq!(p.decide(attempt, AttemptOutcome::TransportFailure), RetryDecision::RetryAfter(1000));
    }
    assert_eq!(p.decide(15, AttemptOutcome::TransportFailure), RetryDecision::GiveUp);
    let (verdict, attempts, waited) = run(&p, |_| AttemptOutcome::TransportFailure);
    assert_eq!(verdict, RetryDecision::GiveUp);
    assert_eq!(attempts, 15);
    assert_eq!(waited, 14 * 1000);
}

#[test]
fn other_status_is_no_data_without_retry() {
    let p = RetryPolicy::standard();
    let (verdict, attempts, waited) = run(&p, |_| AttemptOutcome::Status(500));
    assert_eq!(verdict, RetryDecision::NoData);
    assert_eq!(attempts, 1);
    assert_eq!(waited, 0);
}

#[test]
fn success_after_transient_failures() {
    let p = RetryPolicy::standard();
    let (verdict, attempts, waited) = run(&p, |n| {
        if n < 4 { AttemptOutcome::TransportFailure } else { AttemptOutcome::Status(200) }
    });
    assert_eq!(verdict, RetryDecision::Accept);
    assert_eq!(attempts, 4);
    assert_eq!(waited, 3000);
}

#[test]
fn symbol_fetch_twice_against_the_same_state_is_identical() {
    let p = RetryPolicy { max_attempts: 3, retry_delay_ms: 0 };
    let listing = "btcusd,ethusd,ltcusd";
    let fetch = || {
        let (verdict, _, _) = run(&p, |_| AttemptOutcome::Status(200));
        match verdict {
            RetryDecision::Accept => Some(listing.to_string()),
            _ => None,
        }
    };
    let first = fetch();
    let second = fetch();
    assert_eq!(first, second);
    assert_eq!(first.as_deref(), Some(listing));
}
