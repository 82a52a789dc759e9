use tracespan::event::{AsyncOutcome, SpanId, Timestamp, TraceEvent};
use tracespan::spans::{Anomaly, SpanStyle, State, Wakeup};

fn at(secs: u64) -> Timestamp {
    Timestamp { secs, nanos: 0 }
}

fn async_start(id: u64, parent: u64, ts: u64) -> TraceEvent {
    TraceEvent::AsyncStart {
        name: "fetch".to_string(),
        id: SpanId(id),
        parent_id: SpanId(parent),
        ts: at(ts),
        metadata: "{\"url\":\"x\"}".to_string(),
    }
}

#[test]
fn start_then_end_finishes_a_span() {
    let mut s = State::new();
    assert_eq!(s.add_event(TraceEvent::ThreadStart { name: "main".to_string(), id: SpanId(1), ts: at(1) }), Ok(()));
    assert_eq!(s.len(), 1);
    assert_eq!(s.active_spans.len(), 1);
    assert_eq!(s.add_event(TraceEvent::ThreadEnd { id: SpanId(1), ts: at(4) }), Ok(()));
    assert_eq!(s.active_spans.len(), 0);
    assert_eq!(s.finished_spans.len(), 1);
    let sp = &s.finished_spans[0];
    assert_eq!(sp.style, SpanStyle::ThreadFinished);
    assert_eq!(sp.start, at(1));
    assert_eq!(sp.end, at(4));
    assert_eq!(sp.message, b"main".to_vec());
    assert_eq!(sp.parent_id, None);
    assert_eq!(s.end_time, at(4));
}

#[test]
fn async_outcomes_give_styles() {
    let mut s = State::new();
    for id in 1..4 {
        s.add_event(async_start(id, 0, 0)).unwrap();
    }
    s.add_event(TraceEvent::AsyncEnd { id: SpanId(1), ts: at(1), outcome: AsyncOutcome::Success }).unwrap();
    s.add_event(TraceEvent::AsyncEnd { id: SpanId(2), ts: at(2), outcome: AsyncOutcome::Cancelled }).unwrap();
    s.add_event(TraceEvent::AsyncEnd { id: SpanId(3), ts: at(3), outcome: AsyncOutcome::Error("boom".to_string()) }).unwrap();
    let styles: Vec<SpanStyle> = s.finished_spans.iter().map(|x| x.style).collect();
    assert_eq!(styles, vec![SpanStyle::AsyncSuccess, SpanStyle::AsyncCancel, SpanStyle::AsyncError]);
    assert_eq!(s.finished_spans[0].message, b"fetch {\"url\":\"x\"}".to_vec());
    assert_eq!(s.finished_spans[0].parent_id, Some(SpanId(0)));
}

#[test]
fn end_without_start_is_reported_and_dropped() {
    let mut s = State::new();
    assert_eq!(s.add_event(TraceEvent::SyncEnd { id: SpanId(9), ts: at(2) }), Err(Anomaly::UnknownSpan(SpanId(9))));
    assert_eq!(s.len(), 0);
    assert_eq!(s.end_time, at(2));
}

#[test]
fn mismatched_end_is_reported_and_dropped() {
    let mut s = State::new();
    s.add_event(async_start(1, 0, 0)).unwrap();
    assert_eq!(s.add_event(TraceEvent::SyncEnd { id: SpanId(1), ts: at(2) }), Err(Anomaly::StyleMismatch(SpanId(1))));
    assert_eq!(s.active_spans.len(), 1);
    assert_eq!(s.finished_spans.len(), 0);
}

#[test]
fn wakeups_attach_to_the_waking_span() {
    let mut s = State::new();
    s.add_event(TraceEvent::SyncStart { name: "a".to_string(), id: SpanId(1), parent_id: SpanId(0), ts: at(0), metadata: "null".to_string() }).unwrap();
    s.add_event(TraceEvent::Wakeup { waking_span: SpanId(1), parked_span: SpanId(7), ts: at(3) }).unwrap();
    assert_eq!(
        s.add_event(TraceEvent::Wakeup { waking_span: SpanId(5), parked_span: SpanId(1), ts: at(4) }),
        Err(Anomaly::UnknownWakingSpan(SpanId(5)))
    );
    s.add_event(TraceEvent::SyncEnd { id: SpanId(1), ts: at(5) }).unwrap();
    assert_eq!(s.finished_spans[0].wakeups, vec![Wakeup { target: SpanId(7), ts: at(3) }]);
    assert_eq!(s.finished_spans[0].style, SpanStyle::SyncFinished);
    assert_eq!(s.finished_spans[0].message, b"a null".to_vec());
}

#[test]
fn on_cpu_events_change_nothing_but_time() {
    let mut s = State::new();
    s.add_event(async_start(1, 0, 0)).unwrap();
    s.add_event(TraceEvent::AsyncOnCPU { id: SpanId(1), ts: at(8) }).unwrap();
    s.add_event(TraceEvent::AsyncOffCPU { id: SpanId(1), ts: at(9) }).unwrap();
    assert_eq!(s.len(), 1);
    assert_eq!(s.end_time, at(9));
}

#[test]
fn open_count_follows_starts_and_matched_ends() {
    let mut s = State::new();
    s.add_event(async_start(1, 0, 0)).unwrap();
    s.add_event(async_start(2, 0, 1)).unwrap();
    s.add_event(async_start(3, 0, 2)).unwrap();
    s.add_event(TraceEvent::AsyncEnd { id: SpanId(2), ts: at(3), outcome: AsyncOutcome::Success }).unwrap();
    let _ = s.add_event(TraceEvent::AsyncEnd { id: SpanId(8), ts: at(3), outcome: AsyncOutcome::Success });
    assert_eq!(s.active_spans.len(), 2);
    assert_eq!(s.finished_spans.len(), 1);
    assert_eq!(s.len(), 3);
}

#[test]
fn select_clips_active_spans_and_filters_finished_ones() {
    let mut s = State::new();
    s.add_event(TraceEvent::ThreadStart { name: "t".to_string(), id: SpanId(1), ts: at(0) }).unwrap();
    s.add_event(TraceEvent::ThreadStart { name: "u".to_string(), id: SpanId(2), ts: at(1) }).unwrap();
    s.add_event(TraceEvent::ThreadEnd { id: SpanId(2), ts: at(3) }).unwrap();
    s.add_event(TraceEvent::ThreadStart { name: "v".to_string(), id: SpanId(3), ts: at(20) }).unwrap();
    let picked = s.select(at(2), at(10));
    assert_eq!(picked.len(), 2);
    assert_eq!(picked[0].id, SpanId(1));
    assert_eq!(picked[0].end, at(10));
    assert_eq!(picked[0].style, SpanStyle::ThreadInProgress);
    assert_eq!(picked[1].id, SpanId(2));
    assert_eq!(picked[1].style, SpanStyle::ThreadFinished);
    let none = s.select(at(3), at(10));
    assert_eq!(none.len(), 1);
}

#[test]
fn borrow_copies_a_span() {
    let mut s = State::new();
    s.add_event(TraceEvent::ThreadStart { name: "t".to_string(), id: SpanId(1), ts: at(0) }).unwrap();
    s.add_event(TraceEvent::ThreadEnd { id: SpanId(1), ts: at(2) }).unwrap();
    let copy = s.finished_spans[0].borrow();
    assert_eq!(copy.id, SpanId(1));
    assert_eq!(copy.message, b"t".to_vec());
    assert_eq!(copy.end, at(2));
}

#[test]
fn bump_time_keeps_the_latest() {
    let mut s = State::new();
    s.bump_time(Timestamp { secs: 2, nanos: 5 });
    s.bump_time(Timestamp { secs: 1, nanos: 999 });
    assert_eq!(s.end_time, Timestamp { secs: 2, nanos: 5 });
}

#[test]
fn timestamps_order_by_seconds_then_nanos() {
    let a = Timestamp { secs: 1, nanos: 999_999_999 };
    let b = Timestamp { secs: 2, nanos: 0 };
    assert!(a.is_before(&b));
    assert!(!b.is_before(&a));
    assert!(a.is_at_or_before(&a));
    assert_eq!(b.time_key(), 2 * 4294967296);
}

#[test]
fn event_accessors() {
    let e = async_start(4, 2, 7);
    assert_eq!(e.ts(), at(7));
    assert_eq!(e.id(), Some(SpanId(4)));
    assert_eq!(e.parent_id(), Some(SpanId(2)));
    let w = TraceEvent::Wakeup { waking_span: SpanId(1), parked_span: SpanId(2), ts: at(3) };
    assert_eq!(w.id(), None);
    assert_eq!(w.parent_id(), None);
    assert_eq!(w.ts(), at(3));
    let t = TraceEvent::ThreadStart { name: "x".to_string(), id: SpanId(5), ts: at(1) };
    assert_eq!(t.parent_id(), None);
}

#[test]
fn duplicate_start_is_reported_and_dropped() {
    let mut s = State::new();
    s.add_event(TraceEvent::ThreadStart { name: "t".to_string(), id: SpanId(1), ts: at(0) }).unwrap();
    s.add_event(TraceEvent::Wakeup { waking_span: SpanId(1), parked_span: SpanId(2), ts: at(1) }).unwrap();
    assert_eq!(
        s.add_event(TraceEvent::ThreadStart { name: "again".to_string(), id: SpanId(1), ts: at(2) }),
        Err(Anomaly::DuplicateStart(SpanId(1)))
    );
    assert_eq!(s.len(), 1);
    assert_eq!(s.active_spans[0].message, b"t".to_vec());
    assert_eq!(s.active_spans[0].wakeups.len(), 1);
    assert_eq!(s.end_time, at(2));
}
