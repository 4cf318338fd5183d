//! The check bank and the window controller: a window is an origin quote, the
//! quotes buffered since it, and the checks judged against its prices.
use std::collections::VecDeque;

use vstd::prelude::*;

use crate::checks::Check;
use crate::quote::{PriceChange, QuoteEvent, QuoteValues};

verus! {

/// Where a finished window's label comes from: the origin quote and the range
/// of stream offsets that the window spans.
#[derive(Clone, Copy, Debug, PartialEq, Eq)]
pub struct LabelIds {
    pub event_id: u64,
    pub offset_from: u64,
    pub offset_to: u64,
}

/// Whether every check of `checks` has reached a decision.
pub open spec fn all_resolved(checks: Seq<Check>) -> bool {
    forall|i: int| 0 <= i < checks.len() ==> (#[trigger] checks[i]).resolution() is Some
}

/// Each check of `checks` after it has seen `change`.
pub open spec fn after_change(checks: Seq<Check>, change: PriceChange) -> Seq<Check> {
    Seq::new(
        checks.len(),
        |i: int| checks[i].after(change.bid_change as int, change.ask_change as int),
    )
}

/// Each check of `checks` with its result cleared.
pub open spec fn cleared_all(checks: Seq<Check>) -> Seq<Check> {
    Seq::new(checks.len(), |i: int| checks[i].cleared())
}

/// The checks of one window, in the order they were configured. The active
/// set is the checks without a result, the complete set those with one.
pub struct HandleEvents {
    pub checks: Vec<Check>,
}

impl HandleEvents {
    pub fn new(checks: Vec<Check>) -> (r: Self)
        ensures
            r.checks@ == checks@,
    {
        HandleEvents { checks }
    }

    /// Whether no check is active any more.
    pub fn is_done(&self) -> (r: bool)
        ensures
            r == all_resolved(self.checks@),
    {
        let mut i: usize = 0;
        while i < self.checks.len()
            invariant
                i <= self.checks.len(),
                forall|j: int| 0 <= j < i ==> (#[trigger] self.checks@[j]).resolution() is Some,
            decreases self.checks.len() - i,
        {
            if self.checks[i].is_active() {
                return false;
            }
            i = i + 1;
        }
        true
    }

    /// Returns every check to the active set.
    pub fn reset(&mut self)
        ensures
            final(self).checks@ == cleared_all(old(self).checks@),
    {
        let n = self.checks.len();
        let mut i: usize = 0;
        while i < n
            invariant
                n == old(self).checks@.len(),
                i <= n,
                self.checks@.len() == n,
                forall|j: int| 0 <= j < i ==> self.checks@[j] == old(self).checks@[j].cleared(),
                forall|j: int| i <= j < n ==> self.checks@[j] == old(self).checks@[j],
            decreases n - i,
        {
            let mut c = self.checks[i];
            c.reset();
            self.checks.set(i, c);
            i = i + 1;
        }
        assert(self.checks@ =~= cleared_all(old(self).checks@));
    }

    /// Judges every active check against the move of `event` from the reference
    /// prices `start`; returns whether some check is still active.
    pub fn process(&mut self, start: &QuoteValues, event: &QuoteEvent) -> (still_filling: bool)
        ensures
            final(self).checks@ == after_change(
                old(self).checks@,
                PriceChange::between(*start, *event),
            ),
            still_filling == !all_resolved(final(self).checks@),
    {
        let change = PriceChange::measure(start, event);
        let n = self.checks.len();
        let mut i: usize = 0;
        while i < n
            invariant
                n == old(self).checks@.len(),
                i <= n,
                self.checks@.len() == n,
                forall|j: int|
                    0 <= j < i ==> self.checks@[j] == old(self).checks@[j].after(
                        change.bid_change as int,
                        change.ask_change as int,
                    ),
                forall|j: int| i <= j < n ==> self.checks@[j] == old(self).checks@[j],
            decreases n - i,
        {
            let mut c = self.checks[i];
            c.track(change.bid_change, change.ask_change);
            self.checks.set(i, c);
            i = i + 1;
        }
        assert(self.checks@ =~= after_change(old(self).checks@, change));
        !self.is_done()
    }
}

/// A window as a mathematical value: the buffered quotes, oldest first (the
/// first of them is the origin), and the checks judged against the origin.
pub ghost struct WindowView {
    pub events: Seq<QuoteEvent>,
    pub checks: Seq<Check>,
}

impl WindowView {
    /// A window with nothing buffered and the given checks.
    pub open spec fn fresh(checks: Seq<Check>) -> WindowView {
        WindowView { events: Seq::empty(), checks }
    }

    /// Complete: there is an origin and no check is active.
    pub open spec fn is_complete(self) -> bool {
        self.events.len() > 0 && all_resolved(self.checks)
    }

    /// The buffered offsets strictly increase from the oldest to the newest.
    pub open spec fn in_stream_order(self) -> bool {
        forall|i: int, j: int|
            0 <= i < j < self.events.len() ==> (#[trigger] self.events[i]).offset
                < (#[trigger] self.events[j]).offset
    }

    /// `event` comes after everything buffered.
    pub open spec fn accepts(self, event: QuoteEvent) -> bool {
        self.events.len() > 0 ==> self.events.last().offset < event.offset
    }

    /// Whether `event` can join the window of the current origin: there is an
    /// origin, and `event` lies in a session on the origin's trading day.
    pub open spec fn belongs(self, event: QuoteEvent) -> bool {
        &&& self.events.len() > 0
        &&& event.in_session
        &&& event.trading_day == self.events[0].trading_day
    }

    /// The window after `event` arrives. An event that cannot join the current
    /// window starts a new one as its origin, with every check active again.
    /// Otherwise the checks are judged against its move from the origin, and it
    /// is buffered.
    pub open spec fn ingested(self, event: QuoteEvent) -> WindowView {
        if self.belongs(event) {
            WindowView {
                events: self.events.push(event),
                checks: after_change(
                    self.checks,
                    PriceChange::between(QuoteValues::of(self.events[0]), event),
                ),
            }
        } else {
            WindowView { events: seq![event], checks: cleared_all(self.checks) }
        }
    }

    /// The window after each of `events` has arrived in turn.
    pub open spec fn replayed(self, events: Seq<QuoteEvent>) -> WindowView
        decreases events.len(),
    {
        if events.len() == 0 {
            self
        } else {
            self.replayed(events.drop_last()).ingested(events.last())
        }
    }

    /// The next window: the origin is dropped, every check is active again, and
    /// the quotes buffered after the origin arrive anew, the first of them
    /// becoming the new origin.
    pub open spec fn slid(self) -> WindowView {
        WindowView::fresh(cleared_all(self.checks)).replayed(self.events.drop_first())
    }

    pub open spec fn ids(self) -> LabelIds {
        LabelIds {
            event_id: self.events[0].event_id,
            offset_from: self.events[0].offset,
            offset_to: self.events.last().offset,
        }
    }
}

/// Owns the quotes buffered for the current origin and the check bank.
pub struct WindowController {
    pub proc: HandleEvents,
    pub events: VecDeque<QuoteEvent>,
}

impl View for WindowController {
    type V = WindowView;

    open spec fn view(&self) -> WindowView {
        WindowView { events: self.events@, checks: self.proc.checks@ }
    }
}

impl WindowController {
    pub fn new(checks: Vec<Check>) -> (r: Self)
        ensures
            r@ == WindowView::fresh(checks@),
    {
        WindowController { proc: HandleEvents::new(checks), events: VecDeque::new() }
    }

    /// Takes the next quote of the stream; returns whether the window is complete.
    pub fn ingest(&mut self, event: QuoteEvent) -> (complete: bool)
        ensures
            final(self)@ == old(self)@.ingested(event),
            complete == final(self)@.is_complete(),
            old(self)@.in_stream_order() && old(self)@.accepts(event)
                ==> final(self)@.in_stream_order(),
    {
        let n = self.events.len();
        let joins = n > 0 && event.in_session && event.trading_day == self.events[0].trading_day;
        if joins {
            let start = QuoteValues::convert_from(&self.events[0]);
            self.proc.process(&start, &event);
            self.events.push_back(event);
        } else {
            self.events.clear();
            self.events.push_back(event);
            self.proc.reset();
        }
        proof {
            assert(self@ =~= old(self)@.ingested(event));
        }
        self.proc.is_done()
    }

    /// The origin and the offsets of the oldest and the newest buffered quote.
    pub fn ids(&self) -> (r: LabelIds)
        requires
            self@.events.len() > 0,
        ensures
            r == self@.ids(),
            self@.in_stream_order() ==> r.offset_from <= r.offset_to,
    {
        let front = self.events[0];
        let back = self.events[self.events.len() - 1];
        LabelIds { event_id: front.event_id, offset_from: front.offset, offset_to: back.offset }
    }

    /// Moves a complete window on to the next origin, from the buffered quotes
    /// alone; returns whether the new window is complete already.
    pub fn slide(&mut self) -> (complete: bool)
        requires
            old(self)@.is_complete(),
        ensures
            final(self)@ == old(self)@.slid(),
            complete == final(self)@.is_complete(),
            old(self)@.in_stream_order() ==> final(self)@.in_stream_order(),
    {
        self.events.pop_front();
        let rest = self.events.split_off(0);
        self.proc.reset();
        let ghost start = WindowView::fresh(cleared_all(old(self)@.checks));
        assert(self.events@ =~= Seq::<QuoteEvent>::empty());
        assert(self@ == start);
        let mut i: usize = 0;
        while i < rest.len()
            invariant
                i <= rest@.len(),
                old(self)@.events.len() > 0,
                rest@ == old(self)@.events.drop_first(),
                self@ == start.replayed(rest@.take(i as int)),
                i > 0 ==> self@.events.len() > 0 && self@.events.last() == rest@[i - 1],
                i == 0 ==> self@.events.len() == 0,
                old(self)@.in_stream_order() ==> self@.in_stream_order(),
            decreases rest@.len() - i,
        {
            let event = rest[i];
            assert(rest@.take(i + 1).drop_last() =~= rest@.take(i as int));
            proof {
                if i > 0 && old(self)@.in_stream_order() {
                    assert(old(self)@.events[i as int] == rest@[i - 1]);
                    assert(old(self)@.events[i + 1] == rest@[i as int]);
                }
            }
            self.ingest(event);
            i = i + 1;
        }
        assert(rest@.take(rest@.len() as int) =~= rest@);
        self.proc.is_done() && self.events.len() > 0
    }
}

/// Feeding quotes in two runs gives the window that feeding them in one run gives.
pub proof fn lemma_replayed_append(w: WindowView, first: Seq<QuoteEvent>, then: Seq<QuoteEvent>)
    ensures
        w.replayed(first + then) == w.replayed(first).replayed(then),
    decreases then.len(),
{
    if then.len() == 0 {
        assert(first + then =~= first);
    } else {
        assert((first + then).drop_last() =~= first + then.drop_last());
        lemma_replayed_append(w, first, then.drop_last());
    }
}

/// Every quote that a window buffers after a run of quotes was either buffered
/// before or is one of the run.
pub proof fn lemma_replayed_draws_from(w: WindowView, events: Seq<QuoteEvent>)
    ensures
        forall|i: int|
            0 <= i < w.replayed(events).events.len() ==> w.events.contains(
                #[trigger] w.replayed(events).events[i],
            ) || events.contains(w.replayed(events).events[i]),
    decreases events.len(),
{
    if events.len() > 0 {
        let prev = w.replayed(events.drop_last());
        lemma_replayed_draws_from(w, events.drop_last());
        let next = w.replayed(events);
        assert forall|i: int| 0 <= i < next.events.len() implies w.events.contains(
            #[trigger] next.events[i],
        ) || events.contains(next.events[i]) by {
            if i == next.events.len() - 1 {
                assert(events[events.len() - 1] == next.events[i]);
            } else {
                assert(next.events[i] == prev.events[i]);
                if events.drop_last().contains(prev.events[i]) {
                    let k = choose|k: int|
                        0 <= k < events.drop_last().len() && events.drop_last()[k]
                            == prev.events[i];
                    assert(events[k] == prev.events[i]);
                }
            }
        }
    }
}

/// Neither a quote nor a slide changes the window's configuration: the checks
/// with their results cleared stay the same.
pub proof fn lemma_configuration_is_kept(w: WindowView, event: QuoteEvent)
    ensures
        cleared_all(w.ingested(event).checks) == cleared_all(w.checks),
        cleared_all(w.slid().checks) == cleared_all(w.checks),
{
    lemma_cleared_all_after_replay(WindowView::fresh(cleared_all(w.checks)), w.events.drop_first());
    assert(cleared_all(cleared_all(w.checks)) =~= cleared_all(w.checks));
    assert(cleared_all(w.ingested(event).checks) =~= cleared_all(w.checks));
}

proof fn lemma_cleared_all_after_replay(w: WindowView, events: Seq<QuoteEvent>)
    ensures
        cleared_all(w.replayed(events).checks) == cleared_all(w.checks),
    decreases events.len(),
{
    if events.len() > 0 {
        let prev = w.replayed(events.drop_last());
        lemma_cleared_all_after_replay(w, events.drop_last());
        assert(cleared_all(prev.ingested(events.last()).checks) =~= cleared_all(prev.checks));
    }
}

/// A window's label spans its buffer: the origin's offset is the first, the
/// newest quote's the last, and every buffered offset lies between the two.
pub proof fn lemma_ids_span_the_buffer(w: WindowView)
    requires
        w.in_stream_order(),
        w.events.len() > 0,
    ensures
        w.ids().offset_from == w.events[0].offset,
        w.ids().offset_to == w.events[w.events.len() - 1].offset,
        w.ids().offset_from <= w.ids().offset_to,
        forall|i: int|
            0 <= i < w.events.len() ==> w.ids().offset_from <= (#[trigger] w.events[i]).offset
                <= w.ids().offset_to,
{
    assert forall|i: int| 0 <= i < w.events.len() implies w.ids().offset_from <= (
    #[trigger] w.events[i]).offset <= w.ids().offset_to by {
        if 0 < i {
            assert(w.events[0].offset < w.events[i].offset);
        }
        if i < w.events.len() - 1 {
            assert(w.events[i].offset < w.events[w.events.len() - 1].offset);
        }
    }
}

/// Windows stay in stream order: a quote that comes after everything
/// buffered, or a slide, leaves the buffer's offsets strictly increasing.
pub proof fn lemma_stream_order_is_kept(w: WindowView, event: QuoteEvent)
    requires
        w.in_stream_order(),
    ensures
        w.accepts(event) ==> w.ingested(event).in_stream_order(),
        w.events.len() > 0 ==> w.slid().in_stream_order(),
{
    if w.accepts(event) && w.belongs(event) {
        let n = w.ingested(event);
        assert forall|i: int, j: int|
            0 <= i < j < n.events.len() implies (#[trigger] n.events[i]).offset
            < (#[trigger] n.events[j]).offset by {
            if j == n.events.len() - 1 && i < j - 1 {
                assert(w.events[i].offset < w.events[w.events.len() - 1].offset);
            }
        }
    }
    if w.events.len() > 0 {
        let rest = w.events.drop_first();
        lemma_slid_in_order(w, WindowView::fresh(cleared_all(w.checks)), rest.len() as int);
        assert(rest.take(rest.len() as int) =~= rest);
    }
}

/// A quote that comes after everything buffered leaves the origin's offset
/// where it is or moves it forward.
pub proof fn lemma_quote_keeps_origin_order(w: WindowView, event: QuoteEvent)
    requires
        w.in_stream_order(),
        w.events.len() > 0,
        w.accepts(event),
    ensures
        w.ingested(event).events[0].offset >= w.events[0].offset,
{
    lemma_ids_span_the_buffer(w);
}

/// A slide moves the origin strictly forward.
pub proof fn lemma_slide_moves_origin_forward(w: WindowView)
    requires
        w.in_stream_order(),
        w.events.len() > 0,
    ensures
        w.slid().events.len() > 0 ==> w.slid().events[0].offset > w.events[0].offset,
{
    let rest = w.events.drop_first();
    let start = WindowView::fresh(cleared_all(w.checks));
    lemma_replayed_draws_from(start, rest);
    let s = w.slid();
    if s.events.len() > 0 {
        assert(start.events.contains(s.events[0]) || rest.contains(s.events[0]));
        let k = choose|k: int| 0 <= k < rest.len() && rest[k] == s.events[0];
        assert(w.events[k + 1] == s.events[0]);
    }
}

/// Resuming after a crash gives what an uninterrupted run gives: started
/// afresh with the configured checks and fed the quotes that follow a complete
/// window's origin, a controller holds exactly the window that sliding that
/// window on holds, whatever quotes come later.
pub proof fn lemma_restart_matches_slide(
    w: WindowView,
    config: Seq<Check>,
    later: Seq<QuoteEvent>,
)
    requires
        w.is_complete(),
        cleared_all(w.checks) == config,
    ensures
        WindowView::fresh(config).replayed(w.events.drop_first() + later) == w.slid().replayed(
            later,
        ),
{
    lemma_replayed_append(WindowView::fresh(config), w.events.drop_first(), later);
}

proof fn lemma_slid_in_order(w: WindowView, start: WindowView, m: int)
    requires
        w.in_stream_order(),
        w.events.len() > 0,
        start.events.len() == 0,
        0 <= m < w.events.len(),
    ensures
        start.replayed(w.events.drop_first().take(m)).in_stream_order(),
        m > 0 ==> start.replayed(w.events.drop_first().take(m)).events.len() > 0
            && start.replayed(w.events.drop_first().take(m)).events.last() == w.events[m],
    decreases m,
{
    let rest = w.events.drop_first();
    if m > 0 {
        lemma_slid_in_order(w, start, m - 1);
        assert(rest.take(m).drop_last() =~= rest.take(m - 1));
        let prev = start.replayed(rest.take(m - 1));
        let e = w.events[m];
        assert(rest.take(m).last() == e);
        if prev.belongs(e) {
            let n = prev.ingested(e);
            assert forall|i: int, j: int|
                0 <= i < j < n.events.len() implies (#[trigger] n.events[i]).offset
                < (#[trigger] n.events[j]).offset by {
                if j == n.events.len() - 1 && i < j - 1 {
                    assert(prev.events[i].offset < prev.events[prev.events.len() - 1].offset);
                }
            }
        }
    } else {
        assert(rest.take(m) =~= Seq::<QuoteEvent>::empty());
    }
}

} // verus!
