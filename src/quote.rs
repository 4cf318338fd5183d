//! Quote events and the price changes measured against a window's origin.
//!
//! Prices are fixed-point integers in ten-thousandths of a currency unit
//! (`1_000_000` is `100.00`). Price changes and check thresholds are integers
//! in hundredths (`208` is `2.08`).
use vstd::prelude::*;

verus! {

/// Price units per hundredth: a price difference is divided by this and
/// rounded to give a change in hundredths.
pub const UNITS_PER_HUNDREDTH: i128 = 100;

/// Rounds a difference given in price units to hundredths, halves away from zero.
pub open spec fn round_hundredths(d: int) -> int {
    if d >= 0 {
        (d + 50) / 100
    } else {
        -((-d + 50) / 100)
    }
}

/// `a - b`, in hundredths, rounded to the nearest hundredth (halves away from zero).
pub fn rounded_diff(a: i64, b: i64) -> (r: i64)
    ensures
        r == round_hundredths(a - b),
{
    let d: i128 = a as i128 - b as i128;
    if d >= 0 {
        let q: u128 = (d as u128 + 50) / (UNITS_PER_HUNDREDTH as u128);
        q as i64
    } else {
        let q: u128 = ((-d) as u128 + 50) / (UNITS_PER_HUNDREDTH as u128);
        -(q as i64)
    }
}

/// A quote as the stream delivers it, together with what the trading calendar
/// says of it: the trading day it falls on and whether it lies in a session.
#[derive(Clone, Copy, Debug, PartialEq, Eq)]
pub struct QuoteEvent {
    pub event_id: u64,
    pub offset: u64,
    pub bid: i64,
    pub ask: i64,
    pub bid_time: u64,
    pub ask_time: u64,
    pub trading_day: u32,
    pub in_session: bool,
}

/// The reference prices of a window: those of its origin quote.
#[derive(Clone, Copy, Debug, PartialEq, Eq)]
pub struct QuoteValues {
    pub bid: i64,
    pub ask: i64,
}

/// A quote's move against a window's reference prices, in hundredths.
#[derive(Clone, Copy, Debug, PartialEq, Eq)]
pub struct PriceChange {
    pub bid_change: i64,
    pub ask_change: i64,
}

impl QuoteValues {
    pub open spec fn of(event: QuoteEvent) -> QuoteValues {
        QuoteValues { bid: event.bid, ask: event.ask }
    }

    /// The reference prices that `event` gives a window it starts.
    pub fn convert_from(event: &QuoteEvent) -> (r: QuoteValues)
        ensures
            r == QuoteValues::of(*event),
    {
        QuoteValues { bid: event.bid, ask: event.ask }
    }
}

impl PriceChange {
    /// The move of `event` against the reference prices `start`: the bid is measured
    /// against the reference ask, the ask against the reference bid.
    pub open spec fn between(start: QuoteValues, event: QuoteEvent) -> PriceChange {
        PriceChange {
            bid_change: round_hundredths(event.bid - start.ask) as i64,
            ask_change: round_hundredths(event.ask - start.bid) as i64,
        }
    }

    pub fn measure(start: &QuoteValues, event: &QuoteEvent) -> (r: PriceChange)
        ensures
            r == PriceChange::between(*start, *event),
            r.bid_change == round_hundredths(event.bid - start.ask),
            r.ask_change == round_hundredths(event.ask - start.bid),
    {
        PriceChange {
            bid_change: rounded_diff(event.bid, start.ask),
            ask_change: rounded_diff(event.ask, start.bid),
        }
    }
}

} // verus!
