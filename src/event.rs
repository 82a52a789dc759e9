//! The trace event schema and its accessors.
use vstd::prelude::*;

verus! {

/// Opaque identity of a span, unique within one trace.
#[derive(Clone, Copy, Debug, PartialEq, Eq, Structural, Hash)]
pub struct SpanId(pub u64);

/// A duration since the trace epoch, as whole seconds and nanoseconds.
#[derive(Clone, Copy, Debug, PartialEq, Eq, Structural, Hash)]
pub struct Timestamp {
    pub secs: u64,
    pub nanos: u32,
}

impl Timestamp {
    /// The position of the timestamp on the time line: ordered as `(secs, nanos)`.
    pub open spec fn key(self) -> int {
        self.secs as int * 0x1_0000_0000 + self.nanos as int
    }

    pub fn time_key(&self) -> (r: u128)
        ensures
            r as int == self.key(),
    {
        (self.secs as u128) * 0x1_0000_0000 + (self.nanos as u128)
    }

    pub fn is_before(&self, other: &Timestamp) -> (r: bool)
        ensures
            r == (self.key() < other.key()),
    {
        self.time_key() < other.time_key()
    }

    pub fn is_at_or_before(&self, other: &Timestamp) -> (r: bool)
        ensures
            r == (self.key() <= other.key()),
    {
        self.time_key() <= other.time_key()
    }
}

/// How an asynchronous span ended.
#[derive(Clone, Debug)]
pub enum AsyncOutcome {
    Success,
    Cancelled,
    Error(String),
}

/// One event of a trace. `metadata` is the JSON text of the event's metadata.
#[derive(Clone, Debug)]
pub enum TraceEvent {
    AsyncStart { name: String, id: SpanId, parent_id: SpanId, ts: Timestamp, metadata: String },
    AsyncOnCPU { id: SpanId, ts: Timestamp },
    AsyncOffCPU { id: SpanId, ts: Timestamp },
    AsyncEnd { id: SpanId, ts: Timestamp, outcome: AsyncOutcome },
    SyncStart { name: String, id: SpanId, parent_id: SpanId, ts: Timestamp, metadata: String },
    SyncEnd { id: SpanId, ts: Timestamp },
    ThreadStart { name: String, id: SpanId, ts: Timestamp },
    ThreadEnd { id: SpanId, ts: Timestamp },
    Wakeup { waking_span: SpanId, parked_span: SpanId, ts: Timestamp },
}

impl TraceEvent {
    pub open spec fn spec_ts(&self) -> Timestamp {
        match *self {
            TraceEvent::AsyncStart { ts, .. } => ts,
            TraceEvent::AsyncOnCPU { ts, .. } => ts,
            TraceEvent::AsyncOffCPU { ts, .. } => ts,
            TraceEvent::AsyncEnd { ts, .. } => ts,
            TraceEvent::SyncStart { ts, .. } => ts,
            TraceEvent::SyncEnd { ts, .. } => ts,
            TraceEvent::ThreadStart { ts, .. } => ts,
            TraceEvent::ThreadEnd { ts, .. } => ts,
            TraceEvent::Wakeup { ts, .. } => ts,
        }
    }

    pub open spec fn spec_id(&self) -> Option<SpanId> {
        match *self {
            TraceEvent::AsyncStart { id, .. } => Some(id),
            TraceEvent::AsyncOnCPU { id, .. } => Some(id),
            TraceEvent::AsyncOffCPU { id, .. } => Some(id),
            TraceEvent::AsyncEnd { id, .. } => Some(id),
            TraceEvent::SyncStart { id, .. } => Some(id),
            TraceEvent::SyncEnd { id, .. } => Some(id),
            TraceEvent::ThreadStart { id, .. } => Some(id),
            TraceEvent::ThreadEnd { id, .. } => Some(id),
            TraceEvent::Wakeup { .. } => None,
        }
    }

    pub open spec fn spec_parent_id(&self) -> Option<SpanId> {
        match *self {
            TraceEvent::AsyncStart { parent_id, .. } => Some(parent_id),
            TraceEvent::SyncStart { parent_id, .. } => Some(parent_id),
            _ => None,
        }
    }

    /// Whether the event opens a span.
    pub open spec fn is_start(&self) -> bool {
        ||| self is AsyncStart
        ||| self is SyncStart
        ||| self is ThreadStart
    }

    /// Whether the event closes a span.
    pub open spec fn is_end(&self) -> bool {
        ||| self is AsyncEnd
        ||| self is SyncEnd
        ||| self is ThreadEnd
    }

    pub fn ts(&self) -> (r: Timestamp)
        ensures
            r == self.spec_ts(),
    {
        match self {
            TraceEvent::AsyncStart { ts, .. }
            | TraceEvent::AsyncOnCPU { ts, .. }
            | TraceEvent::AsyncOffCPU { ts, .. }
            | TraceEvent::AsyncEnd { ts, .. }
            | TraceEvent::SyncStart { ts, .. }
            | TraceEvent::SyncEnd { ts, .. }
            | TraceEvent::ThreadStart { ts, .. }
            | TraceEvent::ThreadEnd { ts, .. }
            | TraceEvent::Wakeup { ts, .. } => *ts,
        }
    }

    pub fn id(&self) -> (r: Option<SpanId>)
        ensures
            r == self.spec_id(),
    {
        match self {
            TraceEvent::AsyncStart { id, .. }
            | TraceEvent::AsyncOnCPU { id, .. }
            | TraceEvent::AsyncOffCPU { id, .. }
            | TraceEvent::AsyncEnd { id, .. }
            | TraceEvent::SyncStart { id, .. }
            | TraceEvent::SyncEnd { id, .. }
            | TraceEvent::ThreadStart { id, .. }
            | TraceEvent::ThreadEnd { id, .. } => Some(*id),
            TraceEvent::Wakeup { .. } => None,
        }
    }

    pub fn parent_id(&self) -> (r: Option<SpanId>)
        ensures
            r == self.spec_parent_id(),
    {
        match self {
            TraceEvent::AsyncStart { parent_id, .. } | TraceEvent::SyncStart { parent_id, .. } => {
                Some(*parent_id)
            },
            _ => None,
        }
    }
}

} // verus!
