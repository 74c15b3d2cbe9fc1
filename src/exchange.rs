//! The exchange client's own logic: its endpoints, the requests it makes, and
//! how it decides, attempt by attempt, between a retry and a verdict. The
//! requests themselves are sent by the caller.

use vstd::prelude::*;
use vstd::string::StringExecFns;
use crate::candle::{int_text, int_to_text};

verus! {

/// Most records the exchange returns for one request.
pub const MAX_RECORDS: i64 = 10000;

/// The upper-case form of a text, as `str::to_uppercase` gives it.
pub uninterp spec fn upper_of(s: Seq<char>) -> Seq<char>;

/// Relies on `str::to_uppercase`: its result depends on the characters alone.
#[verifier::external_body]
pub(crate) fn to_upper(s: &str) -> (r: String)
    ensures
        r@ == upper_of(s@),
{
    s.to_uppercase()
}

#[derive(Debug, Clone, Copy)]
pub struct Bitfinex<'a> {
    api_v1: &'a str,
    api_v2: &'a str,
}

impl<'a> Bitfinex<'a> {
    pub closed spec fn api_v1(&self) -> Seq<char> {
        self.api_v1@
    }

    pub closed spec fn api_v2(&self) -> Seq<char> {
        self.api_v2@
    }

    pub fn new() -> (r: Self)
        ensures
            r.api_v1() == "https://api.bitfinex.com/v1"@,
            r.api_v2() == "https://api.bitfinex.com/v2"@,
    {
        Bitfinex { api_v1: "https://api.bitfinex.com/v1", api_v2: "https://api.bitfinex.com/v2" }
    }

    /// The request for every symbol the exchange lists.
    pub fn symbols_url(&self) -> (r: String)
        ensures
            r@ == self.api_v1() + "/symbols"@,
    {
        String::from_str(self.api_v1).concat("/symbols")
    }

    /// The request for the candles of `ticker` at `time_interval` between
    /// `start_time` and `end_time` (milliseconds, both inclusive), at most
    /// `MAX_RECORDS` of them, newest first.
    pub fn candles_url(&self, ticker: &str, time_interval: &str, start_time: i64, end_time: i64) -> (r: String)
        ensures
            r@ == self.api_v2() + "/candles/trade:"@ + time_interval@ + ":t"@ + upper_of(ticker@)
                + "/hist?limit="@ + int_text(MAX_RECORDS as int) + "&start="@ + int_text(start_time as int)
                + "&end="@ + int_text(end_time as int) + "&sort=-1"@,
    {
        let mut url = String::from_str(self.api_v2);
        url.append("/candles/trade:");
        url.append(time_interval);
        url.append(":t");
        let upper = to_upper(ticker);
        url.append(upper.as_str());
        url.append("/hist?limit=");
        let limit = int_to_text(MAX_RECORDS);
        url.append(limit.as_str());
        url.append("&start=");
        let s = int_to_text(start_time);
        url.append(s.as_str());
        url.append("&end=");
        let e = int_to_text(end_time);
        url.append(e.as_str());
        url.append("&sort=-1");
        url
    }
}

/// What one attempt at a request came to.
#[derive(Debug, Clone, Copy, PartialEq, Eq)]
pub enum AttemptOutcome {
    /// No response: the connection failed or timed out.
    TransportFailure,
    /// A response with this HTTP status.
    Status(u16),
}

/// What to do after an attempt.
#[derive(Debug, Clone, Copy, PartialEq, Eq)]
pub enum RetryDecision {
    /// Status 200: the body is the answer.
    Accept,
    /// Another status: there is no data, and no retry.
    NoData,
    /// Wait this many milliseconds, then try again.
    RetryAfter(u64),
    /// Every attempt is spent: the exchange cannot be reached.
    GiveUp,
}

/// How often, and how far apart, a request is tried.
#[derive(Debug, Clone, Copy, PartialEq, Eq)]
pub struct RetryPolicy {
    /// Attempts in all, the first one included.
    pub max_attempts: u32,
    /// Pause between two attempts, in milliseconds.
    pub retry_delay_ms: u64,
}

/// The decision after attempt number `attempt` (counted from one).
pub open spec fn decision(p: RetryPolicy, attempt: int, o: AttemptOutcome) -> RetryDecision {
    match o {
        AttemptOutcome::Status(code) => if code == 200 {
            RetryDecision::Accept
        } else {
            RetryDecision::NoData
        },
        AttemptOutcome::TransportFailure => if attempt < p.max_attempts {
            RetryDecision::RetryAfter(p.retry_delay_ms)
        } else {
            RetryDecision::GiveUp
        },
    }
}

/// Where a fetch ends when its attempts from number `from + 1` on meet
/// `answers[from]`, `answers[from + 1]`, ...: the first decision that is not a
/// retry, and the number of the attempt that made it.
pub open spec fn fetch_verdict(p: RetryPolicy, answers: Seq<AttemptOutcome>, from: nat) -> Option<(RetryDecision, nat)>
    decreases answers.len() - from,
{
    if from >= answers.len() {
        None
    } else {
        match decision(p, from + 1 as int, answers[from as int]) {
            RetryDecision::RetryAfter(_) => fetch_verdict(p, answers, (from + 1) as nat),
            d => Some((d, (from + 1) as nat)),
        }
    }
}

/// The verdict against an exchange that answers every attempt alike.
pub open spec fn steady_verdict(p: RetryPolicy, a: AttemptOutcome) -> (RetryDecision, nat) {
    match a {
        AttemptOutcome::TransportFailure => (RetryDecision::GiveUp, p.max_attempts as nat),
        _ => (decision(p, 1, a), 1),
    }
}

impl RetryPolicy {
    /// Fifteen attempts in all, one second apart.
    pub fn standard() -> (r: RetryPolicy)
        ensures
            r.max_attempts == 15,
            r.retry_delay_ms == 1000,
    {
        RetryPolicy { max_attempts: 15, retry_delay_ms: 1000 }
    }

    /// The decision after attempt number `attempt` (counted from one).
    pub fn decide(&self, attempt: u32, outcome: AttemptOutcome) -> (d: RetryDecision)
        ensures
            d == decision(*self, attempt as int, outcome),
    {
        match outcome {
            AttemptOutcome::Status(code) => if code == 200 {
                RetryDecision::Accept
            } else {
                RetryDecision::NoData
            },
            AttemptOutcome::TransportFailure => if attempt < self.max_attempts {
                RetryDecision::RetryAfter(self.retry_delay_ms)
            } else {
                RetryDecision::GiveUp
            },
        }
    }
}

proof fn lemma_steady_failures(p: RetryPolicy, answers: Seq<AttemptOutcome>, from: nat)
    requires
        from < p.max_attempts <= answers.len(),
        forall|i: int| 0 <= i < answers.len() ==> answers[i] == AttemptOutcome::TransportFailure,
    ensures
        fetch_verdict(p, answers, from) == Some((RetryDecision::GiveUp, p.max_attempts as nat)),
    decreases p.max_attempts - from,
{
    if from + 1 < p.max_attempts {
        lemma_steady_failures(p, answers, (from + 1) as nat);
    }
}

/// A fetch against an exchange whose state does not change ends the same way
/// every time: at the first attempt with that answer's verdict, or, when no
/// attempt connects, by giving up after exactly `max_attempts` attempts. So two
/// fetches against the same state yield the same answer.
pub proof fn lemma_steady_exchange(p: RetryPolicy, answers: Seq<AttemptOutcome>, a: AttemptOutcome)
    requires
        1 <= p.max_attempts <= answers.len(),
        forall|i: int| 0 <= i < answers.len() ==> answers[i] == a,
    ensures
        fetch_verdict(p, answers, 0) == Some(steady_verdict(p, a)),
{
    match a {
        AttemptOutcome::TransportFailure => lemma_steady_failures(p, answers, 0),
        _ => {},
    }
}

} // verus!
