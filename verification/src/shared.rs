//! Clocks that the rest of the program keeps, as far as the message layer reads them.
use vstd::prelude::*;

use crate::ids::{Tick, Time};

verus! {

/// Keeps the current time.
pub struct TimeManager {
    current_time: Time,
}

impl TimeManager {
    pub closed spec fn current_time(&self) -> Time {
        self.current_time
    }

    /// Returns a clock that shows `current_time`.
    pub fn new(current_time: Time) -> (r: Self)
        ensures
            r.current_time() == current_time,
    {
        TimeManager { current_time }
    }

    /// Returns the current time.
    pub fn get_current_time(&self) -> (r: Time)
        ensures
            r == self.current_time(),
    {
        self.current_time
    }
}

/// Keeps the estimate of the time that a packet and its answer take.
pub struct PingManager {
    rtt: Time,
}

impl PingManager {
    pub closed spec fn rtt(&self) -> Time {
        self.rtt
    }

    /// Returns an estimate of `rtt`.
    pub fn new(rtt: Time) -> (r: Self)
        ensures
            r.rtt() == rtt,
    {
        PingManager { rtt }
    }

    /// Returns the round trip time.
    pub fn get_rtt(&self) -> (r: Time)
        ensures
            r == self.rtt(),
    {
        self.rtt
    }
}

/// Keeps the current tick.
pub struct TickManager {
    current_tick: Tick,
}

impl TickManager {
    pub closed spec fn current_tick(&self) -> Tick {
        self.current_tick
    }

    /// Returns a manager at `current_tick`.
    pub fn new(current_tick: Tick) -> (r: Self)
        ensures
            r.current_tick() == current_tick,
    {
        TickManager { current_tick }
    }
}

} // verus!
