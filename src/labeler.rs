//! The decisions of the labelling run: which quotes to take, when a label is
//! due, what it holds, and when to stop. The driver around it reads the stream,
//! persists and publishes the labels, and reports back.
use vstd::prelude::*;

use crate::checks::Check;
use crate::handler::{
    lemma_configuration_is_kept, lemma_quote_keeps_origin_order, lemma_replayed_draws_from,
    lemma_slide_moves_origin_forward, lemma_stream_order_is_kept, LabelIds, WindowController, WindowView,
    cleared_all,
};
use crate::quote::QuoteEvent;

verus! {

/// Whether some check of `checks` with ordinal `i` found the favorable move first.
pub open spec fn favored(checks: Seq<Check>, i: int) -> bool {
    exists|j: int|
        0 <= j < checks.len() && (#[trigger] checks[j]).ordinal_of() == i
            && checks[j].resolution() == Some(true)
}

/// The label of a window whose checks are `checks`: one slot per ordinal, `1`
/// where the favorable move came first, `0` where the adverse one did or where
/// no check decided.
pub open spec fn label_of(checks: Seq<Check>, width: nat) -> Seq<u8> {
    Seq::new(width, |i: int| if favored(checks, i) { 1u8 } else { 0u8 })
}

/// Every check's ordinal is a slot of a label of `width` slots.
pub open spec fn ordinals_below(checks: Seq<Check>, width: nat) -> bool {
    forall|j: int| 0 <= j < checks.len() ==> (#[trigger] checks[j]).ordinal_of() < width
}

/// A finished window's label with where it comes from and when it was made.
#[derive(Debug, PartialEq, Eq)]
pub struct LabelRecord {
    pub event_id: u64,
    pub timestamp: u64,
    pub offset_from: u64,
    pub offset_to: u64,
    pub label: Vec<u8>,
}

/// Builds the label of a window whose checks are `checks`.
pub fn make_label(checks: &[Check], width: usize) -> (r: Vec<u8>)
    requires
        ordinals_below(checks@, width as nat),
    ensures
        r@ == label_of(checks@, width as nat),
{
    let mut lab: Vec<u8> = Vec::new();
    let mut i: usize = 0;
    while i < width
        invariant
            i <= width,
            lab@.len() == i,
            forall|k: int| 0 <= k < i ==> lab@[k] == 0u8,
        decreases width - i,
    {
        lab.push(0u8);
        i = i + 1;
    }
    assert(lab@ =~= label_of(checks@.take(0), width as nat));
    let mut j: usize = 0;
    while j < checks.len()
        invariant
            j <= checks@.len(),
            ordinals_below(checks@, width as nat),
            lab@ == label_of(checks@.take(j as int), width as nat),
        decreases checks@.len() - j,
    {
        let check = checks[j];
        let ghost before = checks@.take(j as int);
        let ghost after = checks@.take(j + 1);
        assert(after =~= before.push(check));
        if !check.is_active() && check.result() {
            let slot = check.ordinal() as usize;
            lab.set(slot, 1u8);
            assert forall|i: int| 0 <= i < width implies lab@[i] == label_of(after, width as nat)[i] by {
                if i != slot as int && favored(after, i) {
                    let k = choose|k: int|
                        0 <= k < after.len() && (#[trigger] after[k]).ordinal_of() == i
                            && after[k].resolution() == Some(true);
                    assert(before[k] == after[k]);
                }
                if i == slot as int {
                    assert(after[j as int] == check);
                }
            }
        } else {
            assert forall|i: int| 0 <= i < width implies lab@[i] == label_of(after, width as nat)[i] by {
                if favored(after, i) {
                    let k = choose|k: int|
                        0 <= k < after.len() && (#[trigger] after[k]).ordinal_of() == i
                            && after[k].resolution() == Some(true);
                    assert(k != j);
                    assert(before[k] == after[k]);
                }
            }
        }
        assert(lab@ =~= label_of(after, width as nat));
        j = j + 1;
    }
    assert(checks@.take(checks@.len() as int) =~= checks@);
    lab
}

/// Where reading resumes: just past the origin of the last stored label, or,
/// with none stored, `warmup` quotes into what the stream still holds.
pub open spec fn resume_at(stored_max_from: Option<u64>, oldest: u64, warmup: u64) -> int {
    match stored_max_from {
        Some(m) => m + 1,
        None => oldest + warmup,
    }
}

pub fn resume_offset(stored_max_from: Option<u64>, oldest: u64, warmup: u64) -> (r: u64)
    requires
        resume_at(stored_max_from, oldest, warmup) <= u64::MAX,
    ensures
        r == resume_at(stored_max_from, oldest, warmup),
{
    match stored_max_from {
        Some(m) => m + 1,
        None => oldest + warmup,
    }
}

/// What the driver does next.
#[derive(Clone, Copy, Debug, PartialEq, Eq)]
pub enum Step {
    /// Read the next quote of the stream and hand it to `on_event`.
    Pull,
    /// Persist and publish `make_labeled`, then call `on_persisted`.
    Emit,
    /// The run has emitted as many labels as it was asked for.
    Stop,
}

/// The run as a mathematical value.
pub ghost struct LabelerView {
    pub window: WindowView,
    pub width: nat,
    pub remaining: Option<u64>,
    pub last_offset: Option<u64>,
}

impl LabelerView {
    /// The run's invariant: the buffer is in stream order, no later than the
    /// last quote taken, and every ordinal is a slot of the label.
    pub open spec fn wf(self) -> bool {
        &&& self.window.in_stream_order()
        &&& self.last_offset is None ==> self.window.events.len() == 0
        &&& forall|i: int|
            0 <= i < self.window.events.len() ==> (#[trigger] self.window.events[i]).offset
                <= self.last_offset.unwrap()
        &&& ordinals_below(self.window.checks, self.width)
    }

    /// A quote that is not past the last one taken is a redelivery and is
    /// ignored; any other is ingested.
    pub open spec fn is_new(self, event: QuoteEvent) -> bool {
        self.last_offset is None || self.last_offset.unwrap() < event.offset
    }

    pub open spec fn received(self, event: QuoteEvent) -> LabelerView {
        if self.is_new(event) {
            LabelerView {
                window: self.window.ingested(event),
                last_offset: Some(event.offset),
                ..self
            }
        } else {
            self
        }
    }

    /// Whether the label just persisted is the last one the run owes.
    pub open spec fn stops(self) -> bool {
        self.remaining matches Some(n) && n <= 1
    }

    pub open spec fn persisted(self) -> LabelerView {
        if self.stops() {
            LabelerView { remaining: Some(0), ..self }
        } else {
            LabelerView {
                window: self.window.slid(),
                remaining: match self.remaining {
                    Some(n) => Some((n - 1) as u64),
                    None => None,
                },
                ..self
            }
        }
    }

    pub open spec fn step(self) -> Step {
        if self.window.is_complete() {
            Step::Emit
        } else {
            Step::Pull
        }
    }

    /// The run after each input in turn: a quote read from the stream, or
    /// `None` for the acknowledgement that a due label was persisted.
    pub open spec fn run(self, inputs: Seq<Option<QuoteEvent>>) -> LabelerView
        decreases inputs.len(),
    {
        if inputs.len() == 0 {
            self
        } else {
            let prev = self.run(inputs.drop_last());
            match inputs.last() {
                Some(event) => prev.received(event),
                None => if prev.window.is_complete() {
                    prev.persisted()
                } else {
                    prev
                },
            }
        }
    }

    /// The least offset the next label can start at.
    pub open spec fn origin_floor(self) -> int {
        if self.window.events.len() > 0 {
            self.window.events[0].offset as int
        } else {
            match self.last_offset {
                Some(m) => m + 1,
                None => 0,
            }
        }
    }
}

/// Feeds the window controller from the stream and tells the driver when a
/// label is due.
pub struct Labeler {
    pub window: WindowController,
    pub width: usize,
    pub remaining: Option<u64>,
    pub last_offset: Option<u64>,
}

impl View for Labeler {
    type V = LabelerView;

    open spec fn view(&self) -> LabelerView {
        LabelerView {
            window: self.window@,
            width: self.width as nat,
            remaining: self.remaining,
            last_offset: self.last_offset,
        }
    }
}

impl Labeler {
    /// A run over `checks`, whose ordinals index a label with one slot per
    /// check, that stops after `run_count` labels, or never without one.
    pub fn new(checks: Vec<Check>, run_count: Option<u64>) -> (r: Labeler)
        requires
            ordinals_below(checks@, checks@.len()),
        ensures
            r@ == (LabelerView {
                window: WindowView::fresh(checks@),
                width: checks@.len(),
                remaining: run_count,
                last_offset: None,
            }),
            r@.wf(),
    {
        let width = checks.len();
        Labeler { window: WindowController::new(checks), width, remaining: run_count, last_offset: None }
    }

    /// Takes the next quote of the stream.
    pub fn on_event(&mut self, event: QuoteEvent) -> (r: Step)
        requires
            old(self)@.wf(),
        ensures
            final(self)@ == old(self)@.received(event),
            r == final(self)@.step(),
            final(self)@.wf(),
    {
        let fresh = match self.last_offset {
            Some(m) => m < event.offset,
            None => true,
        };
        if fresh {
            self.window.ingest(event);
            self.last_offset = Some(event.offset);
        }
        proof {
            lemma_received_keeps_the_run(old(self)@, event);
        }
        if self.window.proc.is_done() && self.window.events.len() > 0 {
            Step::Emit
        } else {
            Step::Pull
        }
    }

    /// The record of the complete window, made at `timestamp`.
    pub fn make_labeled(&self, timestamp: u64) -> (r: LabelRecord)
        requires
            self@.wf(),
            self@.window.is_complete(),
        ensures
            r.event_id == self@.window.ids().event_id,
            r.offset_from == self@.window.ids().offset_from,
            r.offset_to == self@.window.ids().offset_to,
            r.offset_from <= r.offset_to,
            r.timestamp == timestamp,
            r.label@ == label_of(self@.window.checks, self@.width),
    {
        let LabelIds { event_id, offset_from, offset_to } = self.window.ids();
        LabelRecord {
            event_id,
            timestamp,
            offset_from,
            offset_to,
            label: make_label(self.window.proc.checks.as_slice(), self.width),
        }
    }

    /// The label of the complete window has been persisted and published.
    pub fn on_persisted(&mut self) -> (r: Step)
        requires
            old(self)@.wf(),
            old(self)@.window.is_complete(),
        ensures
            final(self)@ == old(self)@.persisted(),
            r == if old(self)@.stops() {
                Step::Stop
            } else {
                final(self)@.step()
            },
            final(self)@.wf(),
    {
        match self.remaining {
            Some(n) => {
                if n <= 1 {
                    self.remaining = Some(0);
                    return Step::Stop;
                }
                self.remaining = Some(n - 1);
            },
            None => {},
        }
        let complete = self.window.slide();
        proof {
            lemma_persisted_keeps_the_run(old(self)@);
        }
        if complete {
            Step::Emit
        } else {
            Step::Pull
        }
    }
}

/// Labels come out in order of their first offsets: along any run of quotes
/// and acknowledgements, the least offset at which the next label can start
/// never goes back, a due label starts exactly there, and so a label due later
/// never starts before one due earlier.
pub proof fn lemma_labels_in_offset_order(l: LabelerView, inputs: Seq<Option<QuoteEvent>>)
    requires
        l.wf(),
    ensures
        l.run(inputs).wf(),
        l.run(inputs).origin_floor() >= l.origin_floor(),
        l.window.is_complete() ==> l.window.ids().offset_from == l.origin_floor(),
        l.window.is_complete() && l.run(inputs).window.is_complete() ==> l.run(
            inputs,
        ).window.ids().offset_from >= l.window.ids().offset_from,
    decreases inputs.len(),
{
    if inputs.len() > 0 {
        lemma_labels_in_offset_order(l, inputs.drop_last());
        let prev = l.run(inputs.drop_last());
        match inputs.last() {
            Some(event) => {
                lemma_received_keeps_the_run(prev, event);
                lemma_floor_after_quote(prev, event);
            },
            None => {
                if prev.window.is_complete() {
                    lemma_persisted_keeps_the_run(prev);
                    lemma_floor_after_persist(prev);
                }
            },
        }
    }
}

proof fn lemma_floor_after_quote(l: LabelerView, event: QuoteEvent)
    requires
        l.wf(),
    ensures
        l.received(event).origin_floor() >= l.origin_floor(),
{
    if l.is_new(event) && l.window.events.len() > 0 {
        lemma_quote_keeps_origin_order(l.window, event);
        assert(l.window.events[l.window.events.len() - 1].offset <= l.last_offset.unwrap());
    }
}

proof fn lemma_floor_after_persist(l: LabelerView)
    requires
        l.wf(),
        l.window.is_complete(),
    ensures
        l.persisted().origin_floor() >= l.origin_floor(),
{
    if !l.stops() {
        let w = l.window;
        lemma_slide_moves_origin_forward(w);
        assert(w.events[0].offset <= l.last_offset.unwrap());
    }
}

/// The checks' ordinals are those of their configuration.
proof fn lemma_ordinals_follow_configuration(checks: Seq<Check>, other: Seq<Check>, width: nat)
    requires
        cleared_all(checks) == cleared_all(other),
        ordinals_below(other, width),
    ensures
        ordinals_below(checks, width),
{
    assert(other.len() == cleared_all(other).len());
    assert(checks.len() == cleared_all(checks).len());
    assert forall|j: int| 0 <= j < checks.len() implies (#[trigger] checks[j]).ordinal_of()
        < width by {
        assert(cleared_all(checks)[j] == checks[j].cleared());
        assert(cleared_all(other)[j] == other[j].cleared());
    }
}

proof fn lemma_received_keeps_the_run(l: LabelerView, event: QuoteEvent)
    requires
        l.wf(),
    ensures
        l.received(event).wf(),
{
    if l.is_new(event) {
        lemma_stream_order_is_kept(l.window, event);
        lemma_configuration_is_kept(l.window, event);
        let n = l.received(event);
        lemma_ordinals_follow_configuration(n.window.checks, l.window.checks, l.width);
        assert forall|i: int| 0 <= i < n.window.events.len() implies (
        #[trigger] n.window.events[i]).offset <= n.last_offset.unwrap() by {
            if i < n.window.events.len() - 1 {
                assert(n.window.events[i] == l.window.events[i]);
            }
        }
    }
}

proof fn lemma_persisted_keeps_the_run(l: LabelerView)
    requires
        l.wf(),
        l.window.is_complete(),
    ensures
        l.persisted().wf(),
{
    if !l.stops() {
        let w = l.window;
        lemma_stream_order_is_kept(w, w.events[0]);
        lemma_configuration_is_kept(w, w.events[0]);
        lemma_ordinals_follow_configuration(w.slid().checks, w.checks, l.width);
        let start = WindowView::fresh(cleared_all(w.checks));
        lemma_replayed_draws_from(start, w.events.drop_first());
        assert forall|i: int| 0 <= i < w.slid().events.len() implies (
        #[trigger] w.slid().events[i]).offset <= l.last_offset.unwrap() by {
            let e = w.slid().events[i];
            assert(start.events.contains(e) || w.events.drop_first().contains(e));
            let k = choose|k: int|
                0 <= k < w.events.drop_first().len() && w.events.drop_first()[k] == e;
            assert(w.events[k + 1] == e);
        }
    }
}

} // verus!
