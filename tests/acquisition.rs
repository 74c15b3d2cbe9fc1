use crypto_candlesticks::candle::CandleData;
use crypto_candlesticks::exchange::{AttemptOutcome, Bitfinex, RetryDecision, RetryPolicy};
use crypto_candlesticks::pagination::{
    AcquisitionError, DriverState, Pacing, Pagination, RATE_LIMIT_MS, STEP_SIZE,
};
use crypto_candlesticks::wire::parse_candles;

/// Drives a request to its end against `exchange`, which answers each slice
/// with a batch, or with `None` where the slice fails. Returns the outcome and
/// the slices asked for.
fn drive(
    start: i64,
    end: i64,
    width: i64,
    exchange: impl Fn(i64, i64) -> Option<CandleData>,
) -> (Result<Vec<CandleData>, AcquisitionError>, Vec<(i64, i64)>) {
    let mut p = Pagination::new(start, end, width);
    let mut asked = Vec::new();
    while let Some((a, b)) = p.next_slice() {
        asked.push((a, b));
        match exchange(a, b) {
            Some(batch) => {
                p.record(batch);
            }
            None => p.abort(),
        }
    }
    (p.finish(), asked)
}

fn empty(_: i64, _: i64) -> Option<CandleData> {
    Some(CandleData(Vec::new()))
}

#[test]
fn constants() {
    assert_eq!(STEP_SIZE, 86_400_000);
    assert_eq!(RATE_LIMIT_MS, 1300);
}

#[test]
fn slice_counts() {
    let w = 100;
    for (start, end, expected) in [(0, 0, 1), (0, 50, 1), (0, 99, 1), (0, 150, 2), (0, 250, 3), (5, 1004, 10)] {
        let (r, asked) = drive(start, end, w, empty);
        assert_eq!(asked.len(), expected);
        assert_eq!(r.unwrap().len(), expected);
        let ceil = ((end - start + w - 1) / w).max(1) as usize;
        assert_eq!(asked.len(), ceil);
    }
}

#[test]
fn range_of_whole_widths_is_that_many_slices() {
    let (r, asked) = drive(0, 200, 100, empty);
    assert_eq!(asked, vec![(0, 100), (100, 200)]);
    assert_eq!(r.unwrap().len(), 2);
    let (r, asked) = drive(0, 100, 100, empty);
    assert_eq!(asked, vec![(0, 100)]);
    assert_eq!(r.unwrap().len(), 1);
}

#[test]
fn empty_batches_keep_their_place() {
    let (r, _) = drive(0, 250, 100, |a, _| {
        if a == 100 { parse_candles(b"[[1,2,3,4,5,6]]") } else { empty(0, 0) }
    });
    let batches = r.unwrap();
    assert_eq!(batches.iter().map(|b| b.0.len()).collect::<Vec<_>>(), vec![0, 1, 0]);
}

#[test]
fn standard_pacing() {
    let p = Pacing::standard();
    assert_eq!(p.slice_width_ms, STEP_SIZE);
    assert_eq!(p.courtesy_delay_ms, RATE_LIMIT_MS);
}

#[test]
fn start_equal_to_end_is_one_slice() {
    let (r, asked) = drive(1604188801000, 1604188801000, STEP_SIZE, empty);
    assert_eq!(asked, vec![(1604188801000, 1604188801000 + STEP_SIZE)]);
    assert_eq!(r.unwrap().len(), 1);
}

#[test]
fn start_after_end_asks_nothing() {
    let (r, asked) = drive(10, 5, 100, empty);
    assert!(asked.is_empty());
    assert!(r.unwrap().is_empty());
}

#[test]
fn failing_slice_aborts_with_nothing_kept() {
    let (r, asked) = drive(0, 1000, 100, |a, _| if a < 300 { empty(0, 0) } else { None });
    assert_eq!(asked.len(), 4);
    assert_eq!(r.unwrap_err(), AcquisitionError::SliceFailed);

    let mut p = Pagination::new(0, 1000, 100);
    p.record(CandleData(Vec::new()));
    p.abort();
    assert_eq!(p.status(), DriverState::Aborted);
    assert!(p.batches_so_far().is_empty());
    assert!(p.next_slice().is_none());
}

#[test]
fn exchange_refusing_every_attempt_leaves_nothing_to_store() {
    // every attempt is answered with status 503: no data, and the whole
    // acquisition is aborted, so no record reaches storage or the sheet
    let policy = RetryPolicy::standard();
    let (r, asked) = drive(1604188801000, 1604275201000, STEP_SIZE, |_, _| {
        match policy.decide(1, AttemptOutcome::Status(503)) {
            RetryDecision::Accept => Some(CandleData(Vec::new())),
            _ => None,
        }
    });
    assert_eq!(asked.len(), 1);
    let stored: usize = r.map(|v| v.iter().map(|b| b.0.len()).sum()).unwrap_or(0);
    assert_eq!(stored, 0);
}

#[test]
fn record_reports_whether_more_slices_follow() {
    let mut p = Pagination::new(0, 150, 100);
    assert_eq!(p.status(), DriverState::Running);
    assert!(p.record(CandleData(Vec::new())));
    assert_eq!(p.status(), DriverState::Running);
    assert!(!p.record(CandleData(Vec::new())));
    assert_eq!(p.status(), DriverState::Succeeded);
    assert!(p.next_slice().is_none());
    assert_eq!(p.finish().unwrap().len(), 2);
}

#[test]
fn one_day_request_against_a_stub_exchange() {
    let body = b"[[1604275200000,13780,13737,13800,13700,25.5],[1604232000000,13737,13761.5,13773,13720,12.3],[1604188800000,13761.5,13700,13790,13650,40]]";
    let url = Bitfinex::new().candles_url("BTCUSD", "1D", 1604188801000, 1604188801000 + STEP_SIZE);
    assert!(url.contains("start=1604188801000&end=1604275201000"));
    let (r, asked) = drive(1604188801000, 1604275201000, STEP_SIZE, |_, _| parse_candles(body));
    assert_eq!(asked, vec![(1604188801000, 1604275201000)]);
    let batches = r.unwrap();
    assert_eq!(batches.len(), 1);
    assert_eq!(batches[0].0.len(), 3);
    let c = crypto_candlesticks::candle::LogicalCandle::from_wire(&batches[0].0[1]);
    assert_eq!(c.open.to_text(), "13761.5");
    assert_eq!(c.close.to_text(), "13737");
    assert_eq!(c.high.to_text(), "13773");
    assert_eq!(c.low.to_text(), "13720");
    assert_eq!(c.volume.to_text(), "12.3");
    assert_eq!(c.timestamp.to_text(), "1604232000000");
}
