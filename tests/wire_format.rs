use crypto_candlesticks::candle::{int_to_text, FloatOrInt, LogicalCandle, RowLayout};
use crypto_candlesticks::wire::{literal_millis_exec, parse_candles};

fn whole(i: i64) -> FloatOrInt {
    FloatOrInt::Int(i)
}

fn lit(s: &str) -> FloatOrInt {
    FloatOrInt::Float(s.to_string())
}

#[test]
fn parses_mixed_integer_and_fraction_row() {
    let d = parse_candles(b"[[1604188800000,13737,13761.5,13773,13720,12.3]]").unwrap();
    assert_eq!(d.0.len(), 1);
    assert_eq!(
        d.0[0],
        [whole(1604188800000), whole(13737), lit("13761.5"), whole(13773), whole(13720), lit("12.3")]
    );
}

#[test]
fn parses_with_whitespace_between_tokens() {
    let body = b" [ [1, 2 ,3,4,5,6] ,\n\t[7,8,9,10,11,12.0]\r\n] ";
    let d = parse_candles(body).unwrap();
    assert_eq!(d.0.len(), 2);
    assert_eq!(d.0[1][5], lit("12.0"));
    assert_eq!(d.0[1][0], whole(7));
}

#[test]
fn empty_array_is_an_empty_batch() {
    assert_eq!(parse_candles(b"[]").unwrap().0.len(), 0);
    assert_eq!(parse_candles(b"  [ \n ]  ").unwrap().0.len(), 0);
}

#[test]
fn rows_must_have_exactly_six_numbers() {
    assert!(parse_candles(b"[[1,2,3,4,5]]").is_none());
    assert!(parse_candles(b"[[1,2,3,4,5,6,7]]").is_none());
    assert!(parse_candles(b"[[]]").is_none());
}

#[test]
fn malformed_bodies_are_refused() {
    assert!(parse_candles(b"").is_none());
    assert!(parse_candles(b"{\"error\":\"ratelimit\"}").is_none());
    assert!(parse_candles(b"[[1,2,3,4,5,6]").is_none());
    assert!(parse_candles(b"[[1,2,3,4,5,6]]x").is_none());
    assert!(parse_candles(b"[[1,2,3,4,5,6],]").is_none());
    assert!(parse_candles(b"[[01,2,3,4,5,6]]").is_none());
    assert!(parse_candles(b"[[1.,2,3,4,5,6]]").is_none());
    assert!(parse_candles(b"[[1e,2,3,4,5,6]]").is_none());
    assert!(parse_candles(b"[[-,2,3,4,5,6]]").is_none());
    assert!(parse_candles(b"[[\"1\",2,3,4,5,6]]").is_none());
    assert!(parse_candles(b"[[null,2,3,4,5,6]]").is_none());
}

#[test]
fn number_forms() {
    let d = parse_candles(
        b"[[-9223372036854775808,9223372036854775807,9223372036854775808,1E+5,-0.5e-3,0]]",
    )
    .unwrap();
    assert_eq!(d.0[0][0], whole(i64::MIN));
    assert_eq!(d.0[0][1], whole(i64::MAX));
    assert_eq!(d.0[0][2], lit("9223372036854775808"));
    assert_eq!(d.0[0][3], lit("1E+5"));
    assert_eq!(d.0[0][4], lit("-0.5e-3"));
    assert_eq!(d.0[0][5], whole(0));
}

#[test]
fn integer_renders_as_integer_and_fraction_as_written() {
    assert_eq!(whole(100).to_text(), "100");
    assert_eq!(lit("100.5").to_text(), "100.5");
    assert_eq!(whole(-42).to_text(), "-42");
    assert_eq!(int_to_text(0), "0");
    assert_eq!(int_to_text(i64::MIN), "-9223372036854775808");
    assert_eq!(int_to_text(i64::MAX), "9223372036854775807");
}

#[test]
fn rendering_parsed_numbers_gives_back_their_literals() {
    let literals = ["1604188800000", "100", "100.5", "-3", "0.000123", "2.5E-7"];
    let body = format!("[[{}]]", literals.join(","));
    let d = parse_candles(body.as_bytes()).unwrap();
    for (k, l) in literals.iter().enumerate() {
        assert_eq!(d.0[0][k].to_text(), *l);
    }
}

#[test]
fn negative_zero_keeps_its_literal() {
    let d = parse_candles(b"[[-0,1,2,3,4,5]]").unwrap();
    assert_eq!(d.0[0][0], lit("-0"));
    assert_eq!(d.0[0][0].to_text(), "-0");
}

#[test]
fn whole_milliseconds_of_literals() {
    assert_eq!(literal_millis_exec("12.9"), Some(12));
    assert_eq!(literal_millis_exec("-12.9"), Some(-12));
    assert_eq!(literal_millis_exec("1e3"), Some(1000));
    assert_eq!(literal_millis_exec("1.5E+1"), Some(15));
    assert_eq!(literal_millis_exec("123e-2"), Some(1));
    assert_eq!(literal_millis_exec("1.604188801E12"), Some(1604188801000));
    assert_eq!(literal_millis_exec("9223372036854775807.9"), Some(i64::MAX));
    assert_eq!(literal_millis_exec("-9223372036854775808.5"), Some(i64::MIN));
    assert_eq!(literal_millis_exec("9223372036854775808"), None);
    assert_eq!(literal_millis_exec("-0"), Some(0));
    assert_eq!(literal_millis_exec("0.0e99999999999999999999999"), Some(0));
    assert_eq!(literal_millis_exec("1e99999999999999999999999"), None);
    assert_eq!(literal_millis_exec("7e-99999999999999999999999"), Some(0));
    assert_eq!(literal_millis_exec("12x"), None);
    assert_eq!(literal_millis_exec(""), None);
}

#[test]
fn wire_order_is_remapped_to_logical_order() {
    let record = [whole(1604188800000), whole(2), whole(1), whole(3), whole(4), lit("5.5")];
    let c = LogicalCandle::from_wire(&record);
    assert_eq!(c.timestamp, whole(1604188800000));
    assert_eq!(c.close, whole(2));
    assert_eq!(c.open, whole(1));
    assert_eq!(c.high, whole(3));
    assert_eq!(c.low, whole(4));
    assert_eq!(c.volume, lit("5.5"));
}

#[test]
fn console_and_sheet_rows() {
    let record = [whole(1604188801000), whole(13737), lit("13761.5"), whole(13773), whole(13720), lit("12.3")];
    let c = LogicalCandle::from_wire(&record);
    let row = c.row(RowLayout::Console, "BTCUSD", "1D");
    assert_eq!(
        row,
        vec!["13761.5", "13737", "13773", "13720", "12.3", "BTCUSD", "1D", "2020-11-01 00:00:01 UTC"]
    );
    let row = c.row(RowLayout::Sheet, "BTCUSD", "1D");
    assert_eq!(
        row,
        vec!["13761.5", "13737", "13773", "13720", "12.3", "1D", "BTCUSD", "2020-11-01 00:00:01 UTC"]
    );
}

#[test]
fn fractional_timestamp_is_dated_by_its_whole_milliseconds() {
    let record = [lit("1604188801000.5"), whole(1), whole(2), whole(3), whole(4), whole(5)];
    let c = LogicalCandle::from_wire(&record);
    assert_eq!(c.time().unwrap(), "2020-11-01 00:00:01 UTC");
    let row = c.row(RowLayout::Console, "BTCUSD", "1D");
    assert_eq!(row[7], "2020-11-01 00:00:01 UTC");
    let record = [lit("1.604188801E12"), whole(1), whole(2), whole(3), whole(4), whole(5)];
    assert_eq!(LogicalCandle::from_wire(&record).date(), "2020-11-01 00:00:01 UTC");
}

#[test]
fn timestamp_without_date_is_shown_as_written() {
    let record = [lit("1e400"), whole(1), whole(2), whole(3), whole(4), whole(5)];
    let c = LogicalCandle::from_wire(&record);
    assert!(c.time().is_none());
    assert_eq!(c.row(RowLayout::Sheet, "BTCUSD", "1D")[7], "1e400");
    let record = [whole(i64::MAX), whole(1), whole(2), whole(3), whole(4), whole(5)];
    assert_eq!(LogicalCandle::from_wire(&record).date(), "9223372036854775807");
}

#[test]
fn batch_rows_follow_record_order() {
    let d = parse_candles(b"[[1604275200000,2,1,3,0.5,7],[1604188800000,20,10,30,5,70.25]]").unwrap();
    let rows = d.rows(RowLayout::Sheet, "ETHUSD", "1h");
    assert_eq!(rows.len(), 2);
    assert_eq!(rows[0], vec!["1", "2", "3", "0.5", "7", "1h", "ETHUSD", "2020-11-02 00:00:00 UTC"]);
    assert_eq!(rows[1], vec!["10", "20", "30", "5", "70.25", "1h", "ETHUSD", "2020-11-01 00:00:00 UTC"]);
    let odd = parse_candles(b"[[1604275200000,2,1,3,0.5,7],[1.5,20,10,30,5,70.25]]").unwrap();
    let rows = odd.rows(RowLayout::Console, "ETHUSD", "1h");
    assert_eq!(rows.len(), 2);
    assert_eq!(rows[1][7], "1970-01-01 00:00:00.001 UTC");
}
