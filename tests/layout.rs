use tracespan::event::{SpanId, Timestamp};
use tracespan::layout::{lay_out, Sweep};
use tracespan::spans::{Span, SpanStyle};

fn span(id: u64, parent: Option<u64>, start: u64, end: u64) -> Span {
    Span {
        id: SpanId(id),
        parent_id: parent.map(SpanId),
        start: Timestamp { secs: start, nanos: 0 },
        end: Timestamp { secs: end, nanos: 0 },
        message: vec![],
        wakeups: vec![],
        style: SpanStyle::SyncFinished,
    }
}

#[test]
fn rows_follow_sweep_and_paths() {
    let l = lay_out(vec![span(3, None, 10, 20), span(2, None, 5, 15), span(1, None, 0, 10), span(4, Some(1), 1, 3)]);
    let ids: Vec<u64> = l.spans.iter().map(|s| s.span.id.0).collect();
    let rows: Vec<u16> = l.spans.iter().map(|s| s.row).collect();
    assert_eq!(ids, vec![1, 4, 2, 3]);
    assert_eq!(rows, vec![0, 1, 2, 0]);
    assert_eq!(l.total_rows, 3);
}

#[test]
fn touching_spans_share_a_row() {
    let l = lay_out(vec![span(1, None, 0, 5), span(2, None, 5, 9)]);
    assert_eq!(l.total_rows, 1);
    assert_eq!(l.spans[1].row, 0);
}

#[test]
fn overlapping_spans_get_different_rows() {
    let l = lay_out(vec![span(1, None, 0, 5), span(2, None, 4, 9), span(3, None, 4, 6)]);
    assert_eq!(l.total_rows, 3);
    for i in 0..3 {
        for j in (i + 1)..3 {
            if l.spans[i].row == l.spans[j].row {
                assert!(l.spans[i].span.end.secs <= l.spans[j].span.start.secs);
            }
        }
    }
}

#[test]
fn unknown_parent_is_laid_out_as_root() {
    let l = lay_out(vec![span(1, Some(77), 0, 5), span(2, None, 6, 8)]);
    assert_eq!(l.total_rows, 1);
}

#[test]
fn empty_input_has_no_rows() {
    let l = lay_out(vec![]);
    assert_eq!(l.total_rows, 0);
    assert!(l.spans.is_empty());
}

#[test]
fn sweep_reuses_smallest_released_row() {
    let mut sw = Sweep::new();
    assert_eq!(sw.allocate(&span(1, None, 0, 10)), 0);
    assert_eq!(sw.allocate(&span(2, None, 1, 4)), 1);
    assert_eq!(sw.allocate(&span(3, None, 2, 8)), 2);
    // rows 1 and 2 have ended by 9; row 1 is the smallest
    assert_eq!(sw.allocate(&span(4, None, 9, 12)), 1);
    assert_eq!(sw.allocate(&span(5, None, 9, 12)), 2);
    // nothing has ended by 9 any more: a fresh row
    assert_eq!(sw.allocate(&span(6, None, 9, 13)), 3);
}
