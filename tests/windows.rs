use tick_labeler::checks::{Check, CheckDown, CheckUp};
use tick_labeler::handler::{HandleEvents, LabelIds, WindowController};
use tick_labeler::labeler::{make_label, resume_offset, Labeler, Step};
use tick_labeler::quote::{QuoteEvent, QuoteValues};

fn quote_on(day: u32, offset: u64, bid: i64, ask: i64) -> QuoteEvent {
    QuoteEvent {
        event_id: 1000 + offset,
        offset,
        bid,
        ask,
        bid_time: offset * 10,
        ask_time: offset * 10 + 1,
        trading_day: day,
        in_session: true,
    }
}

fn quote(offset: u64, bid: i64, ask: i64) -> QuoteEvent {
    quote_on(1, offset, bid, ask)
}

/// The eight checks of the production configuration, thresholds in hundredths.
fn eight_checks() -> Vec<Check> {
    vec![
        Check::Down(CheckDown::new(0, -40, 20)),
        Check::Down(CheckDown::new(1, -20, 10)),
        Check::Down(CheckDown::new(2, -10, 5)),
        Check::Down(CheckDown::new(3, -2, 1)),
        Check::Up(CheckUp::new(4, 2, -1)),
        Check::Up(CheckUp::new(5, 10, -5)),
        Check::Up(CheckUp::new(6, 20, -10)),
        Check::Up(CheckUp::new(7, 40, -20)),
    ]
}

/// Four quotes at 100.00, then one 0.40 higher.
fn flat_then_jump() -> Vec<QuoteEvent> {
    vec![
        quote(10, 1_000_000, 1_000_000),
        quote(11, 1_000_000, 1_000_000),
        quote(12, 1_000_000, 1_000_000),
        quote(13, 1_000_000, 1_000_000),
        quote(14, 1_004_000, 1_004_000),
    ]
}

#[test]
fn scenario_up_check_resolves_favorable() {
    let mut w = WindowController::new(vec![Check::Up(CheckUp::new(0, 200, -100))]);
    assert!(!w.ingest(quote(1, 1_000_000, 1_000_200)));
    assert!(w.ingest(quote(2, 1_021_000, 1_021_200)));
    assert!(w.proc.checks[0].result());
    assert_eq!(make_label(&w.proc.checks, 1), vec![1u8]);
}

#[test]
fn scenario_fall_resolves_down_favorable_and_up_adverse() {
    let checks = vec![
        Check::Down(CheckDown::new(0, -100, 100)),
        Check::Up(CheckUp::new(1, 200, -100)),
    ];
    let mut w = WindowController::new(checks);
    let origin = quote(1, 1_000_000, 1_000_200);
    assert!(!w.ingest(origin));
    let fall = quote(2, 985_000, 985_200);
    let change = tick_labeler::quote::PriceChange::measure(&QuoteValues::convert_from(&origin), &fall);
    assert_eq!(change.bid_change, -152);
    assert_eq!(change.ask_change, -148);
    assert!(w.ingest(fall));
    assert!(w.proc.checks[0].result());
    assert!(!w.proc.checks[1].result());
    assert_eq!(make_label(&w.proc.checks, 2), vec![1u8, 0u8]);
}

#[test]
fn scenario_next_day_starts_a_new_window() {
    let mut w = WindowController::new(eight_checks());
    assert!(!w.ingest(quote_on(1, 1, 1_000_000, 1_000_000)));
    assert!(!w.ingest(quote_on(1, 2, 1_000_100, 1_000_100)));
    assert!(!w.proc.checks[3].is_active());
    let next_day = quote_on(2, 3, 1_000_000, 1_000_000);
    assert!(!w.ingest(next_day));
    assert_eq!(w.events.len(), 1);
    assert_eq!(w.events[0], next_day);
    assert!(w.proc.checks.iter().all(|c| c.is_active()));
    assert_eq!(w.ids(), LabelIds { event_id: 1003, offset_from: 3, offset_to: 3 });
}

#[test]
fn out_of_session_quote_starts_a_new_window() {
    let mut w = WindowController::new(eight_checks());
    w.ingest(quote(1, 1_000_000, 1_000_000));
    w.ingest(quote(2, 1_000_000, 1_000_000));
    let mut late = quote(3, 1_010_000, 1_010_000);
    late.in_session = false;
    assert!(!w.ingest(late));
    assert_eq!(w.events.len(), 1);
    assert_eq!(w.ids().offset_from, 3);
    assert!(w.proc.checks.iter().all(|c| c.is_active()));
}

#[test]
fn scenario_slide_emits_from_the_buffer() {
    let events = flat_then_jump();
    let mut w = WindowController::new(eight_checks());
    let mut done = false;
    for e in events.iter() {
        done = w.ingest(*e);
    }
    assert!(done);
    assert_eq!(w.events.len(), 5);
    assert_eq!(w.ids(), LabelIds { event_id: 1010, offset_from: 10, offset_to: 14 });
    assert_eq!(make_label(&w.proc.checks, 8), vec![0, 0, 0, 0, 1, 1, 1, 1]);
    assert!(w.slide());
    assert_eq!(w.events.len(), 4);
    assert_eq!(w.events[0], events[1]);
    assert_eq!(w.ids(), LabelIds { event_id: 1011, offset_from: 11, offset_to: events[4].offset });
    assert_eq!(make_label(&w.proc.checks, 8), vec![0, 0, 0, 0, 1, 1, 1, 1]);
}

#[test]
fn slide_that_does_not_complete_asks_for_more() {
    let mut w = WindowController::new(vec![Check::Up(CheckUp::new(0, 40, -40))]);
    w.ingest(quote(1, 1_000_000, 1_000_000));
    assert!(w.ingest(quote(2, 1_004_000, 1_004_000)));
    assert!(!w.slide());
    assert_eq!(w.ids(), LabelIds { event_id: 1002, offset_from: 2, offset_to: 2 });
    assert!(w.proc.checks[0].is_active());
}

#[test]
fn slide_of_a_single_quote_empties_the_window() {
    let mut w = WindowController::new(Vec::new());
    assert!(w.ingest(quote(1, 1_000_000, 1_000_000)));
    assert!(!w.slide());
    assert_eq!(w.events.len(), 0);
}

#[test]
fn ids_bound_the_buffer() {
    let mut w = WindowController::new(eight_checks());
    for e in flat_then_jump().iter() {
        w.ingest(*e);
        let ids = w.ids();
        assert!(ids.offset_from <= ids.offset_to);
        assert_eq!(ids.offset_from, w.events[0].offset);
        assert_eq!(ids.offset_to, w.events[w.events.len() - 1].offset);
    }
}

#[test]
fn bank_reset_makes_every_check_active() {
    let mut bank = HandleEvents::new(eight_checks());
    let start = QuoteValues { bid: 1_000_000, ask: 1_000_000 };
    assert!(!bank.process(&start, &quote(1, 1_004_000, 1_004_000)));
    assert!(bank.is_done());
    bank.reset();
    assert!(!bank.is_done());
    assert!(bank.checks.iter().all(|c| c.is_active()));
}

#[test]
fn bank_keeps_filling_on_small_moves() {
    let mut bank = HandleEvents::new(eight_checks());
    let start = QuoteValues { bid: 1_000_000, ask: 1_000_000 };
    assert!(bank.process(&start, &quote(1, 1_000_100, 1_000_100)));
    assert!(!bank.checks[3].is_active());
    assert!(!bank.checks[3].result());
    assert!(bank.checks[4].is_active());
    assert!(bank.checks[5].is_active());
}

#[test]
fn make_label_leaves_unresolved_slots_neutral() {
    let mut checks = eight_checks();
    checks[4].track(2, 0);
    checks[0].track(20, 20);
    assert_eq!(make_label(&checks, 8), vec![0, 0, 0, 0, 1, 0, 0, 0]);
    assert_eq!(make_label(&[], 3), vec![0, 0, 0]);
}

#[test]
fn resume_offset_follows_the_store() {
    assert_eq!(resume_offset(Some(41), 7, 0), 42);
    assert_eq!(resume_offset(None, 7, 0), 7);
    assert_eq!(resume_offset(None, 7, 100), 107);
    assert_eq!(resume_offset(Some(u64::MAX - 1), 0, 0), u64::MAX);
}

/// Runs a labeler over `events`, persisting every due label; returns them.
fn run(labeler: &mut Labeler, events: &[QuoteEvent]) -> (Vec<(u64, u64, Vec<u8>)>, Step) {
    let mut out = Vec::new();
    let mut last = Step::Pull;
    for e in events.iter() {
        let mut step = labeler.on_event(*e);
        while step == Step::Emit {
            let r = labeler.make_labeled(77);
            assert_eq!(r.timestamp, 77);
            out.push((r.offset_from, r.offset_to, r.label));
            step = labeler.on_persisted();
        }
        last = step;
        if step == Step::Stop {
            break;
        }
    }
    (out, last)
}

#[test]
fn labeler_emits_several_labels_without_new_reads() {
    let mut labeler = Labeler::new(eight_checks(), None);
    let (labels, last) = run(&mut labeler, &flat_then_jump());
    assert_eq!(last, Step::Pull);
    let all_up = vec![0u8, 0, 0, 0, 1, 1, 1, 1];
    assert_eq!(
        labels,
        vec![
            (10, 14, all_up.clone()),
            (11, 14, all_up.clone()),
            (12, 14, all_up.clone()),
            (13, 14, all_up.clone()),
        ]
    );
    assert_eq!(labeler.window.events.len(), 1);
}

#[test]
fn labeler_offsets_from_never_decrease() {
    let mut events = flat_then_jump();
    events.push(quote(15, 1_004_000, 1_004_000));
    events.push(quote_on(2, 16, 990_000, 990_000));
    events.push(quote_on(2, 17, 985_000, 985_000));
    let mut labeler = Labeler::new(eight_checks(), None);
    let (labels, _) = run(&mut labeler, &events);
    assert!(labels.len() >= 5);
    for pair in labels.windows(2) {
        assert!(pair[0].0 <= pair[1].0);
        assert!(pair[0].0 <= pair[0].1);
    }
    assert_eq!(labels.last().unwrap(), &(16, 17, vec![1, 1, 1, 1, 0, 0, 0, 0]));
}

#[test]
fn labeler_ignores_redelivered_quotes() {
    let events = flat_then_jump();
    let mut labeler = Labeler::new(eight_checks(), None);
    assert_eq!(labeler.on_event(events[0]), Step::Pull);
    assert_eq!(labeler.on_event(events[1]), Step::Pull);
    assert_eq!(labeler.on_event(events[1]), Step::Pull);
    assert_eq!(labeler.on_event(events[0]), Step::Pull);
    assert_eq!(labeler.window.events.len(), 2);
    assert_eq!(labeler.last_offset, Some(11));
}

#[test]
fn labeler_stops_after_run_count() {
    let mut labeler = Labeler::new(eight_checks(), Some(2));
    let (labels, last) = run(&mut labeler, &flat_then_jump());
    assert_eq!(last, Step::Stop);
    assert_eq!(labels.len(), 2);
    assert_eq!(labels[1].0, 11);
    assert_eq!(labeler.remaining, Some(0));
}

#[test]
fn labeler_with_zero_run_count_stops_after_one_label() {
    let mut labeler = Labeler::new(eight_checks(), Some(0));
    let (labels, last) = run(&mut labeler, &flat_then_jump());
    assert_eq!(last, Step::Stop);
    assert_eq!(labels.len(), 1);
}

#[test]
fn restart_after_crash_gives_the_same_label() {
    let events = flat_then_jump();
    let mut labeler = Labeler::new(eight_checks(), None);
    for e in events.iter() {
        labeler.on_event(*e);
    }
    let first = labeler.make_labeled(1);
    assert_eq!(labeler.on_persisted(), Step::Emit);
    let uninterrupted = labeler.make_labeled(2);

    let resume = resume_offset(Some(first.offset_from), 0, 0);
    let mut restarted = Labeler::new(eight_checks(), None);
    let mut step = Step::Pull;
    for e in events.iter().filter(|e| e.offset >= resume) {
        step = restarted.on_event(*e);
    }
    assert_eq!(step, Step::Emit);
    let again = restarted.make_labeled(2);
    assert_eq!(again, uninterrupted);
}
