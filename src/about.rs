//! Fixed texts: the command's help, the closing message and the table schema.

use vstd::prelude::*;

verus! {

pub const INFO: &'static str = "Download cryptocurrency candlestick data from Bitfinex.
    If the data is obtained successfully, it will be converted to a .csv and a sqlite3 database.";

pub const REPO_INFO: &'static str = "Question? Improvements? Feel free to open a PR or issue at: https://github.com/Corfucinas/crypto-candlesticks-rust/issues";

pub const COFFEE: &'static str = "Thank you for using crypto-candlesticks
Consider supporting your developers
ETH: 0x06Acb31587a96808158BdEd07e53668d8ce94cFE
";

pub const SCHEMA: &'static str = "CREATE TABLE IF NOT EXISTS Candlestick(
    ID INTEGER NOT NULL PRIMARY KEY AUTOINCREMENT,
    Timestamp REAL,
    Open REAL,
    Close REAL,
    High REAL,
    Low REAL,
    Volume REAL,
    Ticker TEXT,
    Interval TEXT)";

/// The statement that stores one record: timestamp, open, close, high, low,
/// volume, ticker, interval.
pub const INSERT: &'static str = "INSERT INTO Candlestick (Timestamp, Open, Close, High, Low, Volume, Ticker, Interval)
            VALUES (?1, ?2, ?3, ?4, ?5, ?6, ?7, ?8)";

/// What the command does, for its help.
pub fn info() -> (r: &'static str)
    ensures
        r@ == INFO@,
{
    INFO
}

/// Where to ask questions, after the help.
pub fn repo_info() -> (r: &'static str)
    ensures
        r@ == REPO_INFO@,
{
    REPO_INFO
}

/// The message shown once everything is written.
pub fn buy_me_a_coffee() -> (r: &'static str)
    ensures
        r@ == COFFEE@,
{
    COFFEE
}

/// The table every record is stored in.
pub fn create_schema() -> (r: &'static str)
    ensures
        r@ == SCHEMA@,
{
    SCHEMA
}

} // verus!
