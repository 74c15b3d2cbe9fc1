//! The pagination driver: splits `[start, end]` into fixed-width slices, one
//! exchange call each, and gathers the batches in slice order. It is a state
//! machine (`Running`, then `Succeeded` or `Aborted`); the caller performs the
//! calls and the courtesy pauses between them.

use vstd::prelude::*;
use crate::candle::CandleData;

verus! {

/// One calendar day in milliseconds: the width of a slice.
pub const STEP_SIZE: i64 = 86_400_000;

/// Pause between two slice calls, in milliseconds, so as not to be rate limited.
pub const RATE_LIMIT_MS: u64 = 1300;

/// How a request is paced: the width of a slice and the pause between two
/// slice calls, both in milliseconds.
#[derive(Debug, Clone, Copy, PartialEq, Eq)]
pub struct Pacing {
    pub slice_width_ms: i64,
    pub courtesy_delay_ms: u64,
}

impl Pacing {
    /// Slices of one day, 1.3 seconds apart.
    pub fn standard() -> (r: Pacing)
        ensures
            r.slice_width_ms == STEP_SIZE,
            r.courtesy_delay_ms == RATE_LIMIT_MS,
    {
        Pacing { slice_width_ms: STEP_SIZE, courtesy_delay_ms: RATE_LIMIT_MS }
    }
}

/// Whether the driver fetches slice `k` (counted from zero) of `[start, end]`:
/// the first slice always, each later one while its start is before `end`.
pub open spec fn opens_slice(start: int, end: int, width: int, k: int) -> bool {
    start <= end && 0 <= k && (k == 0 || start + k * width < end)
}

/// How many slices `[start, end]` is cut into: the number of widths the range
/// spans, rounded up, and at least one.
pub open spec fn slice_count(start: int, end: int, width: int) -> nat {
    if start > end {
        0
    } else if start == end {
        1
    } else {
        ((end - start + width - 1) / width) as nat
    }
}

/// The bounds of slice `k`: both inclusive, as the exchange is asked.
pub open spec fn slice_bounds(start: int, width: int, k: int) -> (int, int) {
    (start + k * width, start + (k + 1) * width)
}

#[derive(Debug, Clone, Copy, PartialEq, Eq)]
pub enum DriverState {
    Running,
    Succeeded,
    Aborted,
}

/// Why an acquisition produced nothing.
#[derive(Debug, Clone, Copy, PartialEq, Eq)]
pub enum AcquisitionError {
    /// A slice could not be fetched; no batch of the request is kept.
    SliceFailed,
}

pub struct Pagination {
    start: i64,
    end: i64,
    width: i64,
    cursor: i64,
    batches: Vec<CandleData>,
    state: DriverState,
}

impl Pagination {
    pub closed spec fn start(&self) -> int {
        self.start as int
    }

    pub closed spec fn end(&self) -> int {
        self.end as int
    }

    pub closed spec fn width(&self) -> int {
        self.width as int
    }

    pub closed spec fn state(&self) -> DriverState {
        self.state
    }

    /// The batches gathered so far, in slice order.
    pub closed spec fn batches(&self) -> Seq<CandleData> {
        self.batches@
    }

    /// The driver's invariant: the cursor stands at the start of the next
    /// slice, and the state says whether that slice is still in the range.
    pub closed spec fn wf(&self) -> bool {
        let n = self.batches@.len() as int;
        let count = slice_count(self.start as int, self.end as int, self.width as int) as int;
        &&& self.width > 0
        &&& self.end + self.width <= i64::MAX
        &&& (self.state == DriverState::Aborted ==> n == 0)
        &&& (self.state != DriverState::Aborted ==> self.cursor == self.start + n * self.width)
        &&& (self.state == DriverState::Running ==> n < count && self.cursor <= self.end)
        &&& (self.state == DriverState::Succeeded ==> n == count)
    }

    /// A driver for `[start, end]` cut into slices of `width` milliseconds.
    pub fn new(start: i64, end: i64, width: i64) -> (r: Pagination)
        requires
            width > 0,
            end + width <= i64::MAX,
        ensures
            r.wf(),
            r.start() == start,
            r.end() == end,
            r.width() == width,
            r.batches().len() == 0,
            r.state() == (if start <= end { DriverState::Running } else { DriverState::Succeeded }),
    {
        if start <= end {
            proof {
                lemma_slice_count(start as int, end as int, width as int, 0);
            }
        }
        Pagination {
            start,
            end,
            width,
            cursor: start,
            batches: Vec::new(),
            state: if start <= end { DriverState::Running } else { DriverState::Succeeded },
        }
    }

    /// The bounds of the next slice to fetch, while the driver runs.
    pub fn next_slice(&self) -> (r: Option<(i64, i64)>)
        requires
            self.wf(),
        ensures
            self.state() == DriverState::Running ==> r == Some(
                (slice_bounds(self.start(), self.width(), self.batches().len() as int).0 as i64,
                 slice_bounds(self.start(), self.width(), self.batches().len() as int).1 as i64)),
            self.state() == DriverState::Running ==> opens_slice(self.start(), self.end(), self.width(),
                self.batches().len() as int),
            self.state() != DriverState::Running ==> r is None,
    {
        match self.state {
            DriverState::Running => {
                proof {
                    lemma_slice_count(self.start as int, self.end as int, self.width as int,
                        self.batches@.len() as int);
                }
                assert(self.cursor + self.width == self.start + (self.batches@.len() + 1) * self.width)
                    by (nonlinear_arith)
                    requires
                        self.cursor == self.start + self.batches@.len() * self.width,
                ;
                Some((self.cursor, self.cursor + self.width))
            },
            _ => None,
        }
    }

    /// Appends the batch of the slice just fetched (even an empty one) and
    /// moves to the next slice. Returns whether another slice is to come, in
    /// which case the caller pauses before fetching it.
    pub fn record(&mut self, batch: CandleData) -> (more: bool)
        requires
            old(self).wf(),
            old(self).state() == DriverState::Running,
        ensures
            final(self).wf(),
            final(self).start() == old(self).start(),
            final(self).end() == old(self).end(),
            final(self).width() == old(self).width(),
            final(self).batches() == old(self).batches().push(batch),
            more == (final(self).state() == DriverState::Running),
            more == (final(self).start() + final(self).batches().len() * final(self).width()
                < final(self).end()),
            final(self).state() == DriverState::Running || final(self).state() == DriverState::Succeeded,
            final(self).state() == DriverState::Succeeded ==> final(self).batches().len()
                == slice_count(final(self).start(), final(self).end(), final(self).width()),
    {
        let ghost n = self.batches@.len() as int;
        self.batches.push(batch);
        assert(self.cursor + self.width == self.start + (n + 1) * self.width)
            by (nonlinear_arith)
            requires
                self.cursor == self.start + n * self.width,
        ;
        self.cursor = self.cursor + self.width;
        proof {
            lemma_slice_count(self.start as int, self.end as int, self.width as int, n + 1);
            lemma_slice_count(self.start as int, self.end as int, self.width as int, n);
        }
        if self.cursor < self.end {
            true
        } else {
            self.state = DriverState::Succeeded;
            false
        }
    }

    /// Gives the acquisition up after a slice failed: nothing of it is kept.
    pub fn abort(&mut self)
        requires
            old(self).wf(),
        ensures
            final(self).wf(),
            final(self).state() == DriverState::Aborted,
            final(self).batches().len() == 0,
    {
        self.batches = Vec::new();
        self.state = DriverState::Aborted;
    }

    /// Where the driver stands: running, or stopped with or without its data.
    pub fn status(&self) -> (r: DriverState)
        ensures
            r == self.state(),
    {
        self.state
    }

    /// What has been gathered so far, for progress display.
    pub fn batches_so_far(&self) -> (r: &Vec<CandleData>)
        ensures
            r@ == self.batches(),
    {
        &self.batches
    }

    /// The outcome once the driver has stopped: every batch, in slice order,
    /// or the error of an aborted acquisition.
    pub fn finish(self) -> (r: Result<Vec<CandleData>, AcquisitionError>)
        requires
            self.wf(),
            self.state() != DriverState::Running,
        ensures
            self.state() == DriverState::Succeeded ==> (r matches Ok(v) && v@ == self.batches()
                && v@.len() == slice_count(self.start(), self.end(), self.width())),
            self.state() == DriverState::Succeeded && self.start() <= self.end() ==> (r matches Ok(v)
                && v@.len() == if self.end() == self.start() {
                    1
                } else {
                    (self.end() - self.start() + self.width() - 1) / self.width()
                }),
            self.state() == DriverState::Aborted ==> r == Err::<Vec<CandleData>, AcquisitionError>(
                AcquisitionError::SliceFailed),
    {
        match self.state {
            DriverState::Aborted => Err(AcquisitionError::SliceFailed),
            _ => Ok(self.batches),
        }
    }
}

proof fn lemma_ceil(d: int, w: int, n: int)
    requires
        d > 0,
        w > 0,
        n >= 0,
    ensures
        (n * w < d) == (n < (d + w - 1) / w),
{
    let q = (d + w - 1) / w;
    let r = (d + w - 1) % w;
    vstd::arithmetic::div_mod::lemma_fundamental_div_mod(d + w - 1, w);
    assert(0 <= r < w);
    assert(d + w - 1 == w * q + r);
    if n < q {
        assert(n * w <= (q - 1) * w) by (nonlinear_arith)
            requires
                n <= q - 1,
                w > 0,
        ;
        assert((q - 1) * w == w * q - w) by (nonlinear_arith);
    } else {
        assert(n * w >= q * w) by (nonlinear_arith)
            requires
                n >= q,
                w > 0,
        ;
        assert(q * w == w * q) by (nonlinear_arith);
    }
}

/// The driver fetches exactly the slices numbered below
/// `max(1, ceil((end - start) / width))`: slice `k` is fetched if and only if
/// `k` is below that count.
pub proof fn lemma_slice_count(start: int, end: int, width: int, k: int)
    requires
        start <= end,
        width > 0,
        k >= 0,
    ensures
        opens_slice(start, end, width, k) == (k < slice_count(start, end, width)),
        slice_count(start, end, width) == if end - start == 0 {
            1
        } else {
            (end - start + width - 1) / width
        },
        slice_count(start, end, width) >= 1,
{
    if end > start {
        lemma_ceil(end - start, width, k);
        lemma_ceil(end - start, width, 0);
    } else {
        assert(k * width >= 0) by (nonlinear_arith)
            requires
                k >= 0,
                width > 0,
        ;
    }
}

/// A range of a single instant is one slice, `[start, start + width]`.
pub proof fn lemma_single_instant(start: int, width: int)
    requires
        width > 0,
    ensures
        slice_count(start, start, width) == 1,
        slice_bounds(start, width, 0) == (start, start + width),
{
}

} // verus!
