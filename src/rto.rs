//! The retransmission timeout estimator of RFC 6298, in microseconds.
use vstd::prelude::*;

verus! {

/// The timeout before any round-trip time has been measured: one second.
pub const INITIAL_RTO_US: u64 = 1_000_000;

/// The least timeout that a measurement can set: one second.
pub const MIN_RTO_US: u64 = 1_000_000;

/// The cap on the timeout after backoff: sixty seconds.
pub const MAX_RTO_US: u64 = 60_000_000;

/// The clock granularity G of RFC 6298: ten milliseconds.
pub const CLOCK_GRANULARITY_US: u64 = 10_000;

/// Smoothed round-trip time, its variation, and the current timeout, all in
/// microseconds.
#[derive(Clone, Copy, Debug)]
pub struct RtoEstimator {
    pub srtt: u64,
    pub rttvar: u64,
    pub rto: u128,
}

pub open spec fn max(a: int, b: int) -> int {
    if a >= b {
        a
    } else {
        b
    }
}

pub open spec fn min(a: int, b: int) -> int {
    if a <= b {
        a
    } else {
        b
    }
}

/// `RTO = max(SRTT + max(4 * RTTVAR, G), 1 s)`.
pub open spec fn rto_from(srtt: int, rttvar: int) -> int {
    max(srtt + max(4 * rttvar, CLOCK_GRANULARITY_US as int), MIN_RTO_US as int)
}

/// The absolute difference of two integers.
pub open spec fn abs_diff(a: int, b: int) -> int {
    if a >= b {
        a - b
    } else {
        b - a
    }
}

impl RtoEstimator {
    /// The timeout stays below 2^68, above anything that measurements of
    /// 64-bit round-trip times can produce.
    pub open spec fn wf(&self) -> bool {
        self.rto <= 0x10_0000_0000_0000_0000
    }

    /// The estimator is backing off, or has no measurement yet: the next
    /// measurement starts it afresh.
    pub open spec fn restarts(&self) -> bool {
        self.srtt == 0 || self.rto > rto_from(self.srtt as int, self.rttvar as int)
    }

    /// The estimator after a round-trip time of `r` microseconds was
    /// measured.
    pub open spec fn sampled(&self, r: u64) -> RtoEstimator {
        let (srtt, rttvar) = if self.restarts() {
            (r as int, r as int / 2)
        } else {
            (
                (7 * self.srtt as int + r as int) / 8,
                (3 * self.rttvar as int + abs_diff(self.srtt as int, r as int)) / 4,
            )
        };
        RtoEstimator { srtt: srtt as u64, rttvar: rttvar as u64, rto: rto_from(srtt, rttvar) as u128 }
    }

    /// The estimator after a retransmission: the timeout doubles, up to
    /// sixty seconds.
    pub open spec fn backed_off(&self) -> RtoEstimator {
        RtoEstimator { rto: min(2 * self.rto, MAX_RTO_US as int) as u128, ..*self }
    }

    /// An estimator with no measurement and the initial timeout.
    pub fn new() -> (r: Self)
        ensures
            r == (RtoEstimator { srtt: 0, rttvar: 0, rto: INITIAL_RTO_US as u128 }),
            r.wf(),
    {
        RtoEstimator { srtt: 0, rttvar: 0, rto: INITIAL_RTO_US as u128 }
    }

    /// Takes a round-trip time measurement of `r` microseconds.
    pub fn on_sample(&mut self, r: u64)
        requires
            old(self).wf(),
        ensures
            *final(self) == old(self).sampled(r),
            final(self).wf(),
    {
        let restart = self.srtt == 0 || self.rto > Self::rto_of(self.srtt, self.rttvar);
        if restart {
            self.srtt = r;
            self.rttvar = r / 2;
        } else {
            let diff = if self.srtt >= r {
                self.srtt - r
            } else {
                r - self.srtt
            };
            let rttvar = ((3 * self.rttvar as u128 + diff as u128) / 4) as u64;
            let srtt = ((7 * self.srtt as u128 + r as u128) / 8) as u64;
            self.rttvar = rttvar;
            self.srtt = srtt;
        }
        self.rto = Self::rto_of(self.srtt, self.rttvar);
    }

    /// Doubles the timeout after a retransmission, up to sixty seconds.
    pub fn backoff(&mut self)
        requires
            old(self).wf(),
        ensures
            *final(self) == old(self).backed_off(),
            final(self).wf(),
    {
        let doubled = 2 * self.rto;
        self.rto = if doubled <= MAX_RTO_US as u128 {
            doubled
        } else {
            MAX_RTO_US as u128
        };
    }

    fn rto_of(srtt: u64, rttvar: u64) -> (r: u128)
        ensures
            r as int == rto_from(srtt as int, rttvar as int),
            r <= 0x10_0000_0000_0000_0000,
    {
        let var4 = 4 * rttvar as u128;
        let spread = if var4 >= CLOCK_GRANULARITY_US as u128 {
            var4
        } else {
            CLOCK_GRANULARITY_US as u128
        };
        let rto = srtt as u128 + spread;
        if rto >= MIN_RTO_US as u128 {
            rto
        } else {
            MIN_RTO_US as u128
        }
    }
}

} // verus!
