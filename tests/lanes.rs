use tracespan::lanes::{Chunk, Database, Interval, Layout, RowAssignment, RowId, Task, TaskId, ThreadId};

fn iv(begin: u64, end: u64) -> Interval {
    Interval { begin, end }
}

fn task(id: u32, parent: Option<u32>, begin: u64, end: u64, on_cpu: Option<Vec<Interval>>) -> Task {
    Task { id: TaskId(id), parent: parent.map(TaskId), span: iv(begin, end), on_cpu }
}

#[test]
fn chunk_detects_closed_overlaps() {
    let mut c = Chunk::new();
    c.add(iv(10, 20), TaskId(0));
    c.add(iv(30, 40), TaskId(1));
    c.add(iv(0, 5), TaskId(2));
    assert!(c.has_overlap(iv(20, 25)));
    assert!(c.has_overlap(iv(25, 30)));
    assert!(c.has_overlap(iv(0, 0)));
    assert!(!c.has_overlap(iv(21, 29)));
    assert!(!c.has_overlap(iv(41, 50)));
    assert!(!c.has_overlap(iv(6, 9)));
}

#[test]
fn roots_get_threads_and_overlapping_children_get_rows() {
    let db = Database {
        tasks: vec![
            task(0, None, 0, 100, None),
            task(1, Some(0), 10, 20, None),
            task(2, Some(0), 15, 30, None),
            task(3, Some(0), 40, 50, None),
            task(4, None, 0, 10, None),
        ],
    };
    let l = Layout::new(&db);
    assert_eq!(l.thread_count(), 2);
    // the root, the row reserved for its children, and one more for the overlapping child
    assert_eq!(l.row_count(0), 3);
    assert_eq!(l.row_count(1), 1);
}

#[test]
fn on_cpu_parts_share_the_row_of_their_task() {
    let db = Database {
        tasks: vec![
            task(0, None, 0, 100, Some(vec![iv(0, 10), iv(50, 60)])),
            task(1, None, 200, 300, None),
        ],
    };
    let l = Layout::new(&db);
    assert_eq!(l.thread_count(), 2);
    assert_eq!(l.row_count(0), 1);
}

#[test]
fn empty_database_has_no_threads() {
    let l = Layout::new(&Database { tasks: vec![] });
    assert_eq!(l.thread_count(), 0);
}

#[test]
fn assignments_follow_roots_rows_and_reservations() {
    let db = Database {
        tasks: vec![
            task(0, None, 0, 100, None),
            task(1, Some(0), 10, 20, None),
            task(2, Some(0), 15, 30, None),
            task(3, Some(0), 40, 50, None),
            task(4, None, 0, 10, None),
            task(5, Some(4), 2, 3, None),
        ],
    };
    let l = Layout::new(&db);
    let a: Vec<RowAssignment> = (0..6).map(|i| l.assignment(i)).collect();
    assert_eq!(a[0], RowAssignment { thread: ThreadId(0), row: RowId(0), children: Some(RowId(1)) });
    assert_eq!(a[1], RowAssignment { thread: ThreadId(0), row: RowId(1), children: None });
    assert_eq!(a[2], RowAssignment { thread: ThreadId(0), row: RowId(2), children: None });
    assert_eq!(a[3], RowAssignment { thread: ThreadId(0), row: RowId(1), children: None });
    assert_eq!(a[4], RowAssignment { thread: ThreadId(1), row: RowId(0), children: Some(RowId(1)) });
    assert_eq!(a[5], RowAssignment { thread: ThreadId(1), row: RowId(1), children: None });
}
