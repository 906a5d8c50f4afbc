//! Intersection control: agents post the lanes they enter during a tick, and the
//! intersection state serves every posted request when it steps.
use vstd::prelude::*;
use crate::network::LaneID;

verus! {

/// A fixed time-step count.
pub type Tick = u64;

pub struct IntersectionSimState {
    /// Requests posted during the current tick, in posting order.
    pub requests: Vec<LaneID>,
    /// How many requests the last step served.
    pub last_served: usize,
}

impl IntersectionSimState {
    pub fn new() -> (r: IntersectionSimState)
        ensures
            r.requests@.len() == 0,
            r.last_served == 0,
    {
        IntersectionSimState { requests: Vec::new(), last_served: 0 }
    }

    /// Posts a request to enter lane `l`.
    pub fn post(&mut self, l: LaneID)
        ensures
            final(self).requests@ == old(self).requests@.push(l),
            final(self).last_served == old(self).last_served,
    {
        self.requests.push(l);
    }

    /// Serves every request posted since the last step.
    pub fn step(&mut self, time: Tick)
        ensures
            final(self).requests@.len() == 0,
            final(self).last_served == old(self).requests@.len(),
    {
        self.last_served = self.requests.len();
        self.requests.clear();
    }
}

} // verus!
