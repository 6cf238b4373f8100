//! What authorities, relays and clients share: the epoch schedule and the board's messages.
//!
//! Times are whole seconds since the Unix epoch, in UTC.
use std::time::{SystemTime, UNIX_EPOCH};
use vstd::prelude::*;

verus! {

/// A message that reaches the board, stamped when it was sent.
#[derive(Clone, Debug, PartialEq, Eq)]
pub struct Message {
    pub timestamp: u128,
    pub content: String,
}

/// Minutes from one registration to the next.
pub const EPOCH_DURATION: u32 = 60;

/// Seconds after the registration at which the authorities start allocating.
pub const ALLOCATION_START_OFFSET: i64 = 600;

/// Seconds after the registration at which the allocations are done.
pub const ALLOCATION_FINISH_OFFSET: i64 = 900;

/// Seconds after the registration at which the new allocations take over.
pub const SWITCHOVER_OFFSET: i64 = 1800;

/// The latest registration time whose epoch, and the one after it, can be written down.
pub const LATEST_REGISTRATION: i64 = 0x7FFF_FFFF_FFFF_0000;

/// Relies on `std::time::SystemTime::now` and `duration_since(UNIX_EPOCH)`: the milliseconds
/// since the Unix epoch, or nothing when the clock is set before it.
#[verifier::external_body]
fn millis_since_unix_epoch() -> (r: Option<u128>) {
    SystemTime::now().duration_since(UNIX_EPOCH).ok().map(|d| d.as_millis())
}

/// Relies on `std::time::SystemTime::now` and `duration_since(UNIX_EPOCH)`: the whole seconds
/// since the Unix epoch, or nothing when the clock is set before it or the count does not fit an
/// `i64`.
#[verifier::external_body]
fn unix_now() -> (r: Option<i64>)
    ensures
        r matches Some(t) ==> t >= 0,
{
    SystemTime::now().duration_since(UNIX_EPOCH).ok().and_then(|d| i64::try_from(d.as_secs()).ok())
}

/// The milliseconds since the Unix epoch, or nothing when the clock is set before it.
pub fn timestamp() -> (r: Option<u128>) {
    millis_since_unix_epoch()
}

/// The times of one epoch.
#[derive(Clone, Copy, Debug, PartialEq, Eq)]
pub struct Epoch {
    registration_time: i64,
    allocation_start_time: i64,
    allocation_finish_time: i64,
    switchover_time: i64,
}

/// The first time after `now` that is half past an hour.
pub open spec fn next_half_hour(now: int) -> int {
    now + 3600 - (now - 1800) % 3600
}

impl Epoch {
    pub closed spec fn spec_registration(self) -> int {
        self.registration_time as int
    }

    /// The other times follow from the registration.
    pub closed spec fn wf(self) -> bool {
        &&& self.allocation_start_time == self.registration_time + ALLOCATION_START_OFFSET
        &&& self.allocation_finish_time == self.registration_time + ALLOCATION_FINISH_OFFSET
        &&& self.switchover_time == self.registration_time + SWITCHOVER_OFFSET
        &&& self.registration_time <= LATEST_REGISTRATION
    }

    /// The epoch that registers at `registration_time`: allocation starts ten minutes later and
    /// ends five minutes after that; the switch-over comes half an hour after the registration.
    pub fn from_registration(registration_time: i64) -> (r: Epoch)
        requires
            registration_time <= LATEST_REGISTRATION,
        ensures
            r.wf(),
            r.spec_registration() == registration_time,
    {
        Epoch {
            registration_time,
            allocation_start_time: registration_time + ALLOCATION_START_OFFSET,
            allocation_finish_time: registration_time + ALLOCATION_FINISH_OFFSET,
            switchover_time: registration_time + SWITCHOVER_OFFSET,
        }
    }

    /// The epoch whose registration is the first half past an hour after `now`.
    pub fn next_after(now: i64) -> (r: Epoch)
        requires
            now <= LATEST_REGISTRATION - 3600,
        ensures
            r.wf(),
            r.spec_registration() == next_half_hour(now as int),
            now < r.spec_registration() <= now + 3600,
            (r.spec_registration() - 1800) % 3600 == 0,
    {
        let shifted: i128 = now as i128 - 1800;
        let truncated: i128 = shifted % 3600;
        let minute_offset: i128 = if truncated < 0 {
            truncated + 3600
        } else {
            truncated
        };
        proof {
            assert(minute_offset == (now as int - 1800) % 3600);
            vstd::arithmetic::div_mod::lemma_fundamental_div_mod(now - 1800, 3600);
            let q = (now as int - 1800) / 3600;
            assert(next_half_hour(now as int) - 1800 == 3600 * (q + 1));
            vstd::arithmetic::div_mod::lemma_mod_multiples_basic(q + 1, 3600);
        }
        let registration = (now as i128 + 3600 - minute_offset) as i64;
        Epoch::from_registration(registration)
    }

    /// The next epoch from the current time, or nothing when the clock is set before the Unix
    /// epoch or beyond what an epoch can be written with.
    pub fn next() -> (r: Option<Epoch>)
        ensures
            r matches Some(e) ==> e.wf(),
    {
        let now = match unix_now() {
            Some(now) => now,
            None => return None,
        };
        if now > LATEST_REGISTRATION - 3600 {
            return None;
        }
        Some(Epoch::next_after(now))
    }

    /// The epoch an hour after this one.
    pub fn succeeding(&self) -> (r: Option<Epoch>)
        requires
            self.wf(),
        ensures
            self.spec_registration() + 3600 <= LATEST_REGISTRATION ==> (r matches Some(e) && e.wf()
                && e.spec_registration() == self.spec_registration() + 3600),
            self.spec_registration() + 3600 > LATEST_REGISTRATION ==> r is None,
    {
        if self.registration_time > LATEST_REGISTRATION - 3600 {
            return None;
        }
        Some(Epoch::from_registration(self.registration_time + (EPOCH_DURATION as i64) * 60))
    }

    pub fn registration_time(&self) -> (r: i64)
        ensures
            r == self.spec_registration(),
    {
        self.registration_time
    }

    pub fn allocation_start_time(&self) -> (r: i64)
        requires
            self.wf(),
        ensures
            r == self.spec_registration() + ALLOCATION_START_OFFSET,
    {
        self.allocation_start_time
    }

    pub fn allocation_finish_time(&self) -> (r: i64)
        requires
            self.wf(),
        ensures
            r == self.spec_registration() + ALLOCATION_FINISH_OFFSET,
    {
        self.allocation_finish_time
    }

    pub fn switchover_time(&self) -> (r: i64)
        requires
            self.wf(),
        ensures
            r == self.spec_registration() + SWITCHOVER_OFFSET,
    {
        self.switchover_time
    }
}

} // verus!
