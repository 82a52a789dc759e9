//! Folding a stream of trace events into active and finished spans.
use vstd::prelude::*;
use vstd::utf8::encode_utf8;

use crate::event::{AsyncOutcome, SpanId, Timestamp, TraceEvent};

verus! {

/// A wakeup edge, recorded on the waking span: it woke `target` at `ts`.
#[derive(Clone, Copy, Debug, PartialEq, Eq, Structural)]
pub struct Wakeup {
    pub target: SpanId,
    pub ts: Timestamp,
}

#[derive(Clone, Copy, Debug, PartialEq, Eq, Structural)]
pub enum SpanStyle {
    ThreadInProgress,
    ThreadFinished,
    SyncInProgress,
    SyncFinished,
    AsyncInProgress,
    AsyncSuccess,
    AsyncCancel,
    AsyncError,
}

/// A span, finished or shown as in progress up to a given time.
#[derive(Debug)]
pub struct Span {
    pub id: SpanId,
    pub parent_id: Option<SpanId>,
    pub start: Timestamp,
    pub end: Timestamp,
    pub message: Vec<u8>,
    pub wakeups: Vec<Wakeup>,
    pub style: SpanStyle,
}

pub ghost struct SpanView {
    pub id: SpanId,
    pub parent_id: Option<SpanId>,
    pub start: Timestamp,
    pub end: Timestamp,
    pub message: Seq<u8>,
    pub wakeups: Seq<Wakeup>,
    pub style: SpanStyle,
}

impl View for Span {
    type V = SpanView;

    open spec fn view(&self) -> SpanView {
        SpanView {
            id: self.id,
            parent_id: self.parent_id,
            start: self.start,
            end: self.end,
            message: self.message@,
            wakeups: self.wakeups@,
            style: self.style,
        }
    }
}

fn copy_bytes(v: &Vec<u8>) -> (r: Vec<u8>)
    ensures
        r@ == v@,
{
    let mut r: Vec<u8> = Vec::new();
    let mut i: usize = 0;
    while i < v.len()
        invariant
            i <= v.len(),
            r@ == v@.take(i as int),
        decreases v.len() - i,
    {
        r.push(v[i]);
        i = i + 1;
        assert(r@ =~= v@.take(i as int));
    }
    assert(v@.take(i as int) =~= v@);
    r
}

fn copy_wakeups(v: &Vec<Wakeup>) -> (r: Vec<Wakeup>)
    ensures
        r@ == v@,
{
    let mut r: Vec<Wakeup> = Vec::new();
    let mut i: usize = 0;
    while i < v.len()
        invariant
            i <= v.len(),
            r@ == v@.take(i as int),
        decreases v.len() - i,
    {
        r.push(v[i]);
        i = i + 1;
        assert(r@ =~= v@.take(i as int));
    }
    assert(v@.take(i as int) =~= v@);
    r
}

impl Span {
    /// A copy of the span.
    pub fn borrow(&self) -> (r: Span)
        ensures
            r@ == self@,
    {
        Span {
            id: self.id,
            parent_id: self.parent_id,
            start: self.start,
            end: self.end,
            message: copy_bytes(&self.message),
            wakeups: copy_wakeups(&self.wakeups),
            style: self.style,
        }
    }
}

/// The open half of a span: its start event, its message and the wakeups it has made.
#[derive(Debug)]
pub struct ActiveSpan {
    pub event: TraceEvent,
    pub message: Vec<u8>,
    pub wakeups: Vec<Wakeup>,
}

pub ghost struct ActiveView {
    pub event: TraceEvent,
    pub message: Seq<u8>,
    pub wakeups: Seq<Wakeup>,
}

impl View for ActiveSpan {
    type V = ActiveView;

    open spec fn view(&self) -> ActiveView {
        ActiveView { event: self.event, message: self.message@, wakeups: self.wakeups@ }
    }
}

pub open spec fn in_progress_style(e: TraceEvent) -> SpanStyle {
    match e {
        TraceEvent::AsyncStart { .. } => SpanStyle::AsyncInProgress,
        TraceEvent::SyncStart { .. } => SpanStyle::SyncInProgress,
        _ => SpanStyle::ThreadInProgress,
    }
}

/// An active span shown as running until `ts`.
pub open spec fn in_progress_view(a: ActiveView, ts: Timestamp) -> SpanView {
    SpanView {
        id: a.event.spec_id().unwrap(),
        parent_id: a.event.spec_parent_id(),
        start: a.event.spec_ts(),
        end: ts,
        message: a.message,
        wakeups: a.wakeups,
        style: in_progress_style(a.event),
    }
}

/// The style of a span opened by `start` and closed by `end`; `None` where they do not match.
pub open spec fn finished_style(start: TraceEvent, end: TraceEvent) -> Option<SpanStyle> {
    match start {
        TraceEvent::AsyncStart { .. } => match end {
            TraceEvent::AsyncEnd { outcome, .. } => Some(
                match outcome {
                    AsyncOutcome::Success => SpanStyle::AsyncSuccess,
                    AsyncOutcome::Cancelled => SpanStyle::AsyncCancel,
                    AsyncOutcome::Error(_) => SpanStyle::AsyncError,
                },
            ),
            _ => None,
        },
        TraceEvent::SyncStart { .. } => Some(SpanStyle::SyncFinished),
        TraceEvent::ThreadStart { .. } => Some(SpanStyle::ThreadFinished),
        _ => None,
    }
}

/// The message of a span: its name and metadata, or the name alone for a thread.
pub open spec fn start_message(e: TraceEvent) -> Seq<u8> {
    match e {
        TraceEvent::AsyncStart { name, metadata, .. } => encode_utf8(name@) + seq![32u8]
            + encode_utf8(metadata@),
        TraceEvent::SyncStart { name, metadata, .. } => encode_utf8(name@) + seq![32u8]
            + encode_utf8(metadata@),
        TraceEvent::ThreadStart { name, .. } => encode_utf8(name@),
        _ => Seq::empty(),
    }
}

impl ActiveSpan {
    fn in_progress(&self, ts: Timestamp) -> (r: Span)
        requires
            self.event.is_start(),
        ensures
            r@ == in_progress_view(self@, ts),
    {
        let style = match &self.event {
            TraceEvent::AsyncStart { .. } => SpanStyle::AsyncInProgress,
            TraceEvent::SyncStart { .. } => SpanStyle::SyncInProgress,
            _ => SpanStyle::ThreadInProgress,
        };
        Span {
            id: self.event.id().unwrap(),
            parent_id: self.event.parent_id(),
            start: self.event.ts(),
            end: ts,
            message: copy_bytes(&self.message),
            wakeups: copy_wakeups(&self.wakeups),
            style,
        }
    }
}

/// A recoverable inconsistency met while folding an event; the event is dropped.
#[derive(Clone, Copy, Debug, PartialEq, Eq, Structural)]
pub enum Anomaly {
    /// An end event for a span that is not active.
    UnknownSpan(SpanId),
    /// A start event for a span that is already active.
    DuplicateStart(SpanId),
    /// A wakeup from a span that is not active.
    UnknownWakingSpan(SpanId),
    /// An end event of another kind than the span's start event.
    StyleMismatch(SpanId),
}

/// The reconstructor: the spans still open and those already closed.
#[derive(Debug)]
pub struct State {
    pub active_spans: Vec<ActiveSpan>,
    pub finished_spans: Vec<Span>,
    pub end_time: Timestamp,
}

pub ghost struct StateView {
    pub active: Seq<ActiveView>,
    pub finished: Seq<SpanView>,
    pub end_time: Timestamp,
}

impl View for State {
    type V = StateView;

    open spec fn view(&self) -> StateView {
        StateView {
            active: self.active_spans@.map_values(|a: ActiveSpan| a@),
            finished: self.finished_spans@.map_values(|s: Span| s@),
            end_time: self.end_time,
        }
    }
}

/// Every active span was opened by a start event, and no two share an id.
pub open spec fn active_wf(active: Seq<ActiveView>) -> bool {
    &&& forall|i: int| 0 <= i < active.len() ==> (#[trigger] active[i]).event.is_start()
    &&& forall|i: int, j: int|
        0 <= i < active.len() && 0 <= j < active.len() && i != j
            ==> (#[trigger] active[i]).event.spec_id() != (#[trigger] active[j]).event.spec_id()
}

/// Whether the active span with id `id` stands at index `k`.
pub open spec fn active_at(active: Seq<ActiveView>, id: SpanId, k: int) -> bool {
    0 <= k < active.len() && active[k].event.spec_id() == Some(id)
}

/// The index of the active span with id `id`, or -1.
pub open spec fn position(active: Seq<ActiveView>, id: SpanId) -> int {
    if exists|k: int| active_at(active, id, k) {
        choose|k: int| active_at(active, id, k)
    } else {
        -1
    }
}

pub open spec fn later(a: Timestamp, b: Timestamp) -> Timestamp {
    if b.key() > a.key() {
        b
    } else {
        a
    }
}

/// The state after one event.
pub open spec fn step(s: StateView, e: TraceEvent) -> StateView {
    let s1 = StateView { end_time: later(s.end_time, e.spec_ts()), ..s };
    if e.is_start() {
        let a = ActiveView { event: e, message: start_message(e), wakeups: Seq::empty() };
        let k = position(s.active, e.spec_id().unwrap());
        if k >= 0 {
            s1
        } else {
            StateView { active: s.active.push(a), ..s1 }
        }
    } else if e.is_end() {
        let k = position(s.active, e.spec_id().unwrap());
        if k < 0 {
            s1
        } else {
            let a = s.active[k];
            match finished_style(a.event, e) {
                None => s1,
                Some(style) => StateView {
                    active: s.active.remove(k),
                    finished: s.finished.push(
                        SpanView {
                            id: e.spec_id().unwrap(),
                            parent_id: a.event.spec_parent_id(),
                            start: a.event.spec_ts(),
                            end: e.spec_ts(),
                            message: a.message,
                            wakeups: a.wakeups,
                            style,
                        },
                    ),
                    ..s1
                },
            }
        }
    } else {
        match e {
            TraceEvent::Wakeup { waking_span, parked_span, ts } => {
                let k = position(s.active, waking_span);
                if k < 0 {
                    s1
                } else {
                    let a = s.active[k];
                    let w = Wakeup { target: parked_span, ts };
                    StateView {
                        active: s.active.update(k, ActiveView { wakeups: a.wakeups.push(w), ..a }),
                        ..s1
                    }
                }
            },
            _ => s1,
        }
    }
}

/// What is reported for an event: the anomaly, if the event was dropped.
pub open spec fn report(s: StateView, e: TraceEvent) -> Result<(), Anomaly> {
    if e.is_start() {
        let id = e.spec_id().unwrap();
        if position(s.active, id) >= 0 {
            Err(Anomaly::DuplicateStart(id))
        } else {
            Ok(())
        }
    } else if e.is_end() {
        let id = e.spec_id().unwrap();
        let k = position(s.active, id);
        if k < 0 {
            Err(Anomaly::UnknownSpan(id))
        } else if finished_style(s.active[k].event, e) is None {
            Err(Anomaly::StyleMismatch(id))
        } else {
            Ok(())
        }
    } else {
        match e {
            TraceEvent::Wakeup { waking_span, .. } => if position(s.active, waking_span) < 0 {
                Err(Anomaly::UnknownWakingSpan(waking_span))
            } else {
                Ok(())
            },
            _ => Ok(()),
        }
    }
}

/// The spans of `active` that start before `end`, shown as running until `end`.
pub open spec fn select_active(active: Seq<ActiveView>, end: Timestamp) -> Seq<SpanView>
    decreases active.len(),
{
    if active.len() == 0 {
        Seq::empty()
    } else {
        let rest = select_active(active.drop_last(), end);
        let a = active.last();
        if a.event.spec_ts().key() < end.key() {
            rest.push(in_progress_view(a, end))
        } else {
            rest
        }
    }
}

/// The spans of `finished` that overlap the window from `start` to `end`.
pub open spec fn select_finished(finished: Seq<SpanView>, start: Timestamp, end: Timestamp) -> Seq<
    SpanView,
>
    decreases finished.len(),
{
    if finished.len() == 0 {
        Seq::empty()
    } else {
        let rest = select_finished(finished.drop_last(), start, end);
        let s = finished.last();
        if s.start.key() < end.key() && s.end.key() > start.key() {
            rest.push(s)
        } else {
            rest
        }
    }
}

fn push_str_bytes(out: &mut Vec<u8>, s: &str)
    ensures
        final(out)@ == old(out)@ + encode_utf8(s@),
{
    let b = s.as_bytes();
    let mut i: usize = 0;
    while i < b.len()
        invariant
            i <= b@.len(),
            b@ == encode_utf8(s@),
            out@ == old(out)@ + b@.take(i as int),
        decreases b.len() - i,
    {
        out.push(b[i]);
        i = i + 1;
        assert(out@ =~= old(out)@ + b@.take(i as int));
    }
    assert(b@.take(i as int) =~= b@);
}

fn message_of(e: &TraceEvent) -> (r: Vec<u8>)
    ensures
        r@ == start_message(*e),
{
    let mut r: Vec<u8> = Vec::new();
    match e {
        TraceEvent::AsyncStart { name, metadata, .. } | TraceEvent::SyncStart {
            name,
            metadata,
            ..
        } => {
            push_str_bytes(&mut r, name.as_str());
            r.push(32u8);
            push_str_bytes(&mut r, metadata.as_str());
            assert(r@ =~= start_message(*e));
        },
        TraceEvent::ThreadStart { name, .. } => {
            push_str_bytes(&mut r, name.as_str());
            assert(r@ =~= start_message(*e));
        },
        _ => {
            assert(r@ =~= start_message(*e));
        },
    }
    r
}

fn is_start_event(e: &TraceEvent) -> (r: bool)
    ensures
        r == e.is_start(),
{
    match e {
        TraceEvent::AsyncStart { .. } | TraceEvent::SyncStart { .. } | TraceEvent::ThreadStart {
            ..
        } => true,
        _ => false,
    }
}

fn is_end_event(e: &TraceEvent) -> (r: bool)
    ensures
        r == e.is_end(),
{
    match e {
        TraceEvent::AsyncEnd { .. } | TraceEvent::SyncEnd { .. } | TraceEvent::ThreadEnd {
            ..
        } => true,
        _ => false,
    }
}

fn style_of(start: &TraceEvent, end: &TraceEvent) -> (r: Option<SpanStyle>)
    ensures
        r == finished_style(*start, *end),
{
    match start {
        TraceEvent::AsyncStart { .. } => match end {
            TraceEvent::AsyncEnd { outcome, .. } => match outcome {
                AsyncOutcome::Success => Some(SpanStyle::AsyncSuccess),
                AsyncOutcome::Cancelled => Some(SpanStyle::AsyncCancel),
                AsyncOutcome::Error(_) => Some(SpanStyle::AsyncError),
            },
            _ => None,
        },
        TraceEvent::SyncStart { .. } => Some(SpanStyle::SyncFinished),
        TraceEvent::ThreadStart { .. } => Some(SpanStyle::ThreadFinished),
        _ => None,
    }
}

proof fn lemma_position(active: Seq<ActiveView>, id: SpanId, k: int)
    requires
        active_wf(active),
        active_at(active, id, k),
    ensures
        position(active, id) == k,
{
    let j = choose|j: int| active_at(active, id, j);
    assert(active_at(active, id, j));
    assert(active[j].event.spec_id() == active[k].event.spec_id());
}

/// Whether `e` opens a span that is not already active.
pub open spec fn opens(s: StateView, e: TraceEvent) -> bool {
    e.is_start() && position(s.active, e.spec_id().unwrap()) < 0
}

/// Whether `e` closes an active span with an end of the matching kind.
pub open spec fn closes(s: StateView, e: TraceEvent) -> bool {
    &&& e.is_end()
    &&& position(s.active, e.spec_id().unwrap()) >= 0
    &&& finished_style(s.active[position(s.active, e.spec_id().unwrap())].event, e) is Some
}

/// The state after a stream of events.
pub open spec fn replay(s: StateView, events: Seq<TraceEvent>) -> StateView
    decreases events.len(),
{
    if events.len() == 0 {
        s
    } else {
        step(replay(s, events.drop_last()), events.last())
    }
}

/// How many events of the stream open a span.
pub open spec fn count_opens(s: StateView, events: Seq<TraceEvent>) -> nat
    decreases events.len(),
{
    if events.len() == 0 {
        0
    } else {
        count_opens(s, events.drop_last()) + if opens(replay(s, events.drop_last()), events.last()) {
            1nat
        } else {
            0nat
        }
    }
}

/// How many events of the stream close a span.
pub open spec fn count_closes(s: StateView, events: Seq<TraceEvent>) -> nat
    decreases events.len(),
{
    if events.len() == 0 {
        0
    } else {
        count_closes(s, events.drop_last()) + if closes(
            replay(s, events.drop_last()),
            events.last(),
        ) {
            1nat
        } else {
            0nat
        }
    }
}

/// Each start of a span that is not open adds one open span, each matching end turns one open
/// span into a finished one, and no other event changes either count.
pub proof fn lemma_step_counts(s: StateView, e: TraceEvent)
    ensures
        step(s, e).active.len() + (if closes(s, e) { 1int } else { 0int }) == s.active.len() + (
        if opens(s, e) { 1int } else { 0int }),
        step(s, e).finished.len() == s.finished.len() + (if closes(s, e) { 1int } else { 0int }),
{
    if e.is_start() || e.is_end() {
        let k = position(s.active, e.spec_id().unwrap());
        if k >= 0 {
            assert(active_at(s.active, e.spec_id().unwrap(), k));
        }
    } else {
        match e {
            TraceEvent::Wakeup { waking_span, .. } => {
                let k = position(s.active, waking_span);
                if k >= 0 {
                    assert(active_at(s.active, waking_span, k));
                }
            },
            _ => {},
        }
    }
}

/// Over any stream of events, the open spans number the openings less the closings, and the
/// finished spans number the closings: so the total grows by one with each opening.
pub proof fn lemma_open_count(s: StateView, events: Seq<TraceEvent>)
    ensures
        replay(s, events).active.len() + count_closes(s, events) == s.active.len() + count_opens(
            s,
            events,
        ),
        replay(s, events).finished.len() == s.finished.len() + count_closes(s, events),
        replay(s, events).active.len() + replay(s, events).finished.len() == s.active.len()
            + s.finished.len() + count_opens(s, events),
    decreases events.len(),
{
    if events.len() > 0 {
        lemma_open_count(s, events.drop_last());
        lemma_step_counts(replay(s, events.drop_last()), events.last());
    }
}

proof fn lemma_step_wf(s: StateView, e: TraceEvent)
    requires
        active_wf(s.active),
    ensures
        active_wf(step(s, e).active),
{
    let t = step(s, e);
    if e.is_start() {
        let k = position(s.active, e.spec_id().unwrap());
        if k >= 0 {
            assert(active_at(s.active, e.spec_id().unwrap(), k));
        } else {
            assert forall|i: int| 0 <= i < s.active.len() implies (#[trigger] s.active[i]).event.spec_id()
                != e.spec_id() by {
                if s.active[i].event.spec_id() == e.spec_id() {
                    assert(active_at(s.active, e.spec_id().unwrap(), i));
                }
            }
        }
        assert(active_wf(t.active));
    } else if e.is_end() {
        let k = position(s.active, e.spec_id().unwrap());
        if k >= 0 && finished_style(s.active[k].event, e) is Some {
            assert(active_at(s.active, e.spec_id().unwrap(), k));
            assert forall|i: int| 0 <= i < t.active.len() implies (#[trigger] t.active[i]) == s.active[
                if i < k { i } else { i + 1 }] by {}
        }
        assert(active_wf(t.active));
    } else {
        match e {
            TraceEvent::Wakeup { waking_span, .. } => {
                let k = position(s.active, waking_span);
                if k >= 0 {
                    assert(active_at(s.active, waking_span, k));
                }
            },
            _ => {},
        }
        assert(active_wf(t.active));
    }
}

impl State {
    pub open spec fn wf(&self) -> bool {
        &&& active_wf(self@.active)
        &&& self.active_spans.len() + self.finished_spans.len() <= usize::MAX
    }

    pub fn new() -> (r: State)
        ensures
            r.wf(),
            r@.active.len() == 0,
            r@.finished.len() == 0,
            r@.end_time == (Timestamp { secs: 0, nanos: 0 }),
    {
        State {
            active_spans: Vec::new(),
            finished_spans: Vec::new(),
            end_time: Timestamp { secs: 0, nanos: 0 },
        }
    }

    /// Raises `end_time` to `ts` if `ts` is later.
    pub fn bump_time(&mut self, ts: Timestamp)
        ensures
            final(self).end_time == later(old(self).end_time, ts),
            final(self).active_spans == old(self).active_spans,
            final(self).finished_spans == old(self).finished_spans,
    {
        if self.end_time.is_before(&ts) {
            self.end_time = ts;
        }
    }

    fn find_active(&self, id: SpanId) -> (r: Option<usize>)
        requires
            self.wf(),
        ensures
            match r {
                Some(k) => active_at(self@.active, id, k as int) && position(self@.active, id)
                    == k as int,
                None => position(self@.active, id) == -1,
            },
    {
        let mut i: usize = 0;
        while i < self.active_spans.len()
            invariant
                self.wf(),
                i <= self.active_spans.len(),
                forall|j: int| 0 <= j < i ==> !active_at(self@.active, id, j),
            decreases self.active_spans.len() - i,
        {
            if self.active_spans[i].event.id() == Some(id) {
                proof {
                    assert(active_at(self@.active, id, i as int));
                    lemma_position(self@.active, id, i as int);
                }
                return Some(i);
            }
            i = i + 1;
        }
        assert(!exists|k: int| active_at(self@.active, id, k));
        None
    }

    /// Folds one event into the state. Returns the anomaly where the event is dropped.
    #[verifier::spinoff_prover]
    pub fn add_event(&mut self, event: TraceEvent) -> (r: Result<(), Anomaly>)
        requires
            old(self).wf(),
            old(self).active_spans.len() + old(self).finished_spans.len() < usize::MAX,
        ensures
            final(self).wf(),
            final(self)@ == step(old(self)@, event),
            r == report(old(self)@, event),
    {
        let ghost s = self@;
        proof {
            lemma_step_wf(s, event);
        }
        self.bump_time(event.ts());
        if is_start_event(&event) {
            let id = event.id().unwrap();
            if let Some(_) = self.find_active(id) {
                return Err(Anomaly::DuplicateStart(id));
            }
            let message = message_of(&event);
            let a = ActiveSpan { event, message, wakeups: Vec::new() };
            self.active_spans.push(a);
            proof {
                let t = step(s, event);
                assert(self@.active =~= t.active);
                assert(self@.finished =~= t.finished);
            }
            Ok(())
        } else if is_end_event(&event) {
            let id = event.id().unwrap();
            match self.find_active(id) {
                None => Err(Anomaly::UnknownSpan(id)),
                Some(k) => {
                    match style_of(&self.active_spans[k].event, &event) {
                        None => Err(Anomaly::StyleMismatch(id)),
                        Some(style) => {
                            let start = self.active_spans.remove(k);
                            let span = Span {
                                id,
                                parent_id: start.event.parent_id(),
                                start: start.event.ts(),
                                end: event.ts(),
                                message: start.message,
                                wakeups: start.wakeups,
                                style,
                            };
                            self.finished_spans.push(span);
                            proof {
                                let t = step(s, event);
                                assert(self@.active =~= t.active);
                                assert(self@.finished =~= t.finished);
                            }
                            Ok(())
                        },
                    }
                },
            }
        } else {
            match event {
                TraceEvent::Wakeup { waking_span, parked_span, ts } => {
                    match self.find_active(waking_span) {
                        None => Err(Anomaly::UnknownWakingSpan(waking_span)),
                        Some(k) => {
                            let mut a = self.active_spans.remove(k);
                            a.wakeups.push(Wakeup { target: parked_span, ts });
                            self.active_spans.insert(k, a);
                            proof {
                                let t = step(s, event);
                                assert(self@.active =~= t.active);
                                assert(self@.finished =~= t.finished);
                            }
                            Ok(())
                        },
                    }
                },
                _ => Ok(()),
            }
        }
    }

    /// The number of spans, active and finished.
    pub fn len(&self) -> (r: usize)
        requires
            self.wf(),
        ensures
            r == self@.active.len() + self@.finished.len(),
    {
        self.active_spans.len() + self.finished_spans.len()
    }

    /// The spans that overlap the window from `start` to `end`: the active ones that start
    /// before `end`, shown as running until `end`, then the finished ones.
    pub fn select(&self, start: Timestamp, end: Timestamp) -> (r: Vec<Span>)
        requires
            self.wf(),
        ensures
            r@.map_values(|s: Span| s@) == select_active(self@.active, end) + select_finished(
                self@.finished,
                start,
                end,
            ),
    {
        let mut r: Vec<Span> = Vec::new();
        let mut i: usize = 0;
        while i < self.active_spans.len()
            invariant
                self.wf(),
                i <= self.active_spans.len(),
                r@.map_values(|s: Span| s@) == select_active(self@.active.take(i as int), end),
            decreases self.active_spans.len() - i,
        {
            let a = &self.active_spans[i];
            proof {
                assert(self@.active.take(i as int + 1).drop_last() =~= self@.active.take(i as int));
                assert(self@.active[i as int].event.is_start());
            }
            if a.event.ts().is_before(&end) {
                r.push(a.in_progress(end));
            }
            i = i + 1;
            assert(r@.map_values(|s: Span| s@) =~= select_active(self@.active.take(i as int), end));
        }
        assert(self@.active.take(i as int) =~= self@.active);
        let ghost na = r@.len();
        let mut j: usize = 0;
        while j < self.finished_spans.len()
            invariant
                self.wf(),
                j <= self.finished_spans.len(),
                na <= r@.len(),
                r@.map_values(|s: Span| s@) == select_active(self@.active, end) + select_finished(
                    self@.finished.take(j as int),
                    start,
                    end,
                ),
            decreases self.finished_spans.len() - j,
        {
            let s = &self.finished_spans[j];
            proof {
                assert(self@.finished.take(j as int + 1).drop_last() =~= self@.finished.take(
                    j as int,
                ));
            }
            let ghost prev = r@.map_values(|s: Span| s@);
            if s.start.is_before(&end) && start.is_before(&s.end) {
                r.push(s.borrow());
                assert(r@.map_values(|s: Span| s@) =~= prev.push(self@.finished[j as int]));
            } else {
                assert(r@.map_values(|s: Span| s@) =~= prev);
            }
            j = j + 1;
            assert(r@.map_values(|s: Span| s@) =~= select_active(self@.active, end)
                + select_finished(self@.finished.take(j as int), start, end));
        }
        assert(self@.finished.take(j as int) =~= self@.finished);
        r
    }
}

} // verus!
