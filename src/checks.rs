//! Threshold checks: each one waits for a favorable or an adverse price move
//! and records which of the two came first.
use vstd::prelude::*;

use crate::quote::PriceChange;

verus! {

/// Waits for a rise: favorable when the bid change reaches `threshold_up`,
/// adverse when the ask change falls to `threshold_down`.
#[derive(Clone, Copy, Debug, PartialEq, Eq)]
pub struct CheckUp {
    pub ordinal: u8,
    pub threshold_up: i64,
    pub threshold_down: i64,
    pub result: Option<bool>,
}

impl CheckUp {
    /// What one price change decides; the favorable move wins a tie.
    pub open spec fn outcome(self, bid_change: int, ask_change: int) -> Option<bool> {
        if bid_change >= self.threshold_up {
            Some(true)
        } else if ask_change <= self.threshold_down {
            Some(false)
        } else {
            None
        }
    }

    pub fn new(ordinal: u8, threshold_up: i64, threshold_down: i64) -> (r: Self)
        ensures
            r == (CheckUp { ordinal, threshold_up, threshold_down, result: None }),
    {
        Self { ordinal, threshold_up, threshold_down, result: None }
    }

    /// Feeds one price change; returns whether the check is still waiting.
    /// A resolved check keeps its result until `reset`.
    pub fn track(&mut self, bid_change: i64, ask_change: i64) -> (still_active: bool)
        ensures
            old(self).result is Some ==> *final(self) == *old(self),
            old(self).result is None ==> *final(self) == (CheckUp {
                result: old(self).outcome(bid_change as int, ask_change as int),
                ..*old(self)
            }),
            still_active == (final(self).result is None),
    {
        if self.result.is_some() {
            false
        } else if bid_change >= self.threshold_up {
            self.result = Some(true);
            false
        } else if ask_change <= self.threshold_down {
            self.result = Some(false);
            false
        } else {
            true
        }
    }

    pub fn reset(&mut self)
        ensures
            *final(self) == (CheckUp { result: None, ..*old(self) }),
    {
        self.result = None;
    }

    pub fn ordinal(&self) -> (r: u8)
        ensures
            r == self.ordinal,
    {
        self.ordinal
    }

    pub fn result(&self) -> (r: bool)
        requires
            self.result is Some,
        ensures
            r == self.result.unwrap(),
    {
        self.result.unwrap()
    }
}

/// Waits for a fall: favorable when the ask change falls to `threshold_down`,
/// adverse when the bid change reaches `threshold_up`.
#[derive(Clone, Copy, Debug, PartialEq, Eq)]
pub struct CheckDown {
    pub ordinal: u8,
    pub threshold_down: i64,
    pub threshold_up: i64,
    pub result: Option<bool>,
}

impl CheckDown {
    /// What one price change decides; the favorable move wins a tie.
    pub open spec fn outcome(self, bid_change: int, ask_change: int) -> Option<bool> {
        if ask_change <= self.threshold_down {
            Some(true)
        } else if bid_change >= self.threshold_up {
            Some(false)
        } else {
            None
        }
    }

    pub fn new(ordinal: u8, threshold_down: i64, threshold_up: i64) -> (r: Self)
        ensures
            r == (CheckDown { ordinal, threshold_down, threshold_up, result: None }),
    {
        Self { ordinal, threshold_down, threshold_up, result: None }
    }

    /// Feeds one price change; returns whether the check is still waiting.
    /// A resolved check keeps its result until `reset`.
    pub fn track(&mut self, bid_change: i64, ask_change: i64) -> (still_active: bool)
        ensures
            old(self).result is Some ==> *final(self) == *old(self),
            old(self).result is None ==> *final(self) == (CheckDown {
                result: old(self).outcome(bid_change as int, ask_change as int),
                ..*old(self)
            }),
            still_active == (final(self).result is None),
    {
        if self.result.is_some() {
            false
        } else if ask_change <= self.threshold_down {
            self.result = Some(true);
            false
        } else if bid_change >= self.threshold_up {
            self.result = Some(false);
            false
        } else {
            true
        }
    }

    pub fn reset(&mut self)
        ensures
            *final(self) == (CheckDown { result: None, ..*old(self) }),
    {
        self.result = None;
    }

    pub fn ordinal(&self) -> (r: u8)
        ensures
            r == self.ordinal,
    {
        self.ordinal
    }

    pub fn result(&self) -> (r: bool)
        requires
            self.result is Some,
        ensures
            r == self.result.unwrap(),
    {
        self.result.unwrap()
    }
}

/// A check of either direction, as the check bank holds them.
#[derive(Clone, Copy, Debug, PartialEq, Eq)]
pub enum Check {
    Up(CheckUp),
    Down(CheckDown),
}

impl Check {
    /// `None` while the check waits, `Some(true)` when the favorable move came
    /// first, `Some(false)` when the adverse one did.
    pub open spec fn resolution(self) -> Option<bool> {
        match self {
            Check::Up(c) => c.result,
            Check::Down(c) => c.result,
        }
    }

    pub open spec fn ordinal_of(self) -> u8 {
        match self {
            Check::Up(c) => c.ordinal,
            Check::Down(c) => c.ordinal,
        }
    }

    pub open spec fn outcome(self, bid_change: int, ask_change: int) -> Option<bool> {
        match self {
            Check::Up(c) => c.outcome(bid_change, ask_change),
            Check::Down(c) => c.outcome(bid_change, ask_change),
        }
    }

    /// The check after it has seen one price change.
    pub open spec fn after(self, bid_change: int, ask_change: int) -> Check {
        if self.resolution() is Some {
            self
        } else {
            match self {
                Check::Up(c) => Check::Up(CheckUp { result: c.outcome(bid_change, ask_change), ..c }),
                Check::Down(c) => Check::Down(
                    CheckDown { result: c.outcome(bid_change, ask_change), ..c },
                ),
            }
        }
    }

    /// The check with its result cleared.
    pub open spec fn cleared(self) -> Check {
        match self {
            Check::Up(c) => Check::Up(CheckUp { result: None, ..c }),
            Check::Down(c) => Check::Down(CheckDown { result: None, ..c }),
        }
    }

    /// The check after it has seen each of `changes` in turn.
    pub open spec fn after_all(self, changes: Seq<PriceChange>) -> Check
        decreases changes.len(),
    {
        if changes.len() == 0 {
            self
        } else {
            let c = changes.last();
            self.after_all(changes.drop_last()).after(c.bid_change as int, c.ask_change as int)
        }
    }

    /// Whether the check still waits for a decision.
    pub fn is_active(&self) -> (r: bool)
        ensures
            r == (self.resolution() is None),
    {
        match self {
            Check::Up(c) => c.result.is_none(),
            Check::Down(c) => c.result.is_none(),
        }
    }

    pub fn track(&mut self, bid_change: i64, ask_change: i64) -> (still_active: bool)
        ensures
            *final(self) == old(self).after(bid_change as int, ask_change as int),
            still_active == (final(self).resolution() is None),
    {
        match self {
            Check::Up(c) => c.track(bid_change, ask_change),
            Check::Down(c) => c.track(bid_change, ask_change),
        }
    }

    pub fn reset(&mut self)
        ensures
            *final(self) == old(self).cleared(),
    {
        match self {
            Check::Up(c) => c.reset(),
            Check::Down(c) => c.reset(),
        }
    }

    pub fn ordinal(&self) -> (r: u8)
        ensures
            r == self.ordinal_of(),
    {
        match self {
            Check::Up(c) => c.ordinal(),
            Check::Down(c) => c.ordinal(),
        }
    }

    pub fn result(&self) -> (r: bool)
        requires
            self.resolution() is Some,
        ensures
            r == self.resolution().unwrap(),
    {
        match self {
            Check::Up(c) => c.result(),
            Check::Down(c) => c.result(),
        }
    }
}

/// Once a check is resolved, no further price change alters it: its result,
/// and so what `result()` returns, stays as it is until the check is reset.
pub proof fn lemma_resolution_is_stable(check: Check, changes: Seq<PriceChange>)
    requires
        check.resolution() is Some,
    ensures
        check.after_all(changes) == check,
        check.after_all(changes).resolution() == check.resolution(),
    decreases changes.len(),
{
    if changes.len() > 0 {
        lemma_resolution_is_stable(check, changes.drop_last());
    }
}

} // verus!
