use tracespan::event::{SpanId, Timestamp, TraceEvent};
use tracespan::tree::{EventTree, TreeError};

fn at(nanos: u32) -> Timestamp {
    Timestamp { secs: 0, nanos }
}

fn buf_thread_start(name: &str, id: usize) -> (TraceEvent, String) {
    let event = TraceEvent::ThreadStart { name: name.to_string(), id: SpanId(id as u64), ts: at(0) };
    let buf = format!("{{\"ThreadStart\":{{\"name\":\"{}\",\"id\":{},\"ts\":{{\"secs\":0,\"nanos\":0}},\"is_restart\":false}}}}", name, id);
    (event, buf)
}

fn buf_sync_start(name: &str, id: usize, parent_id: usize) -> (TraceEvent, String) {
    let event = TraceEvent::SyncStart {
        name: name.to_string(),
        id: SpanId(id as u64),
        parent_id: SpanId(parent_id as u64),
        ts: at(0),
        metadata: "null".to_string(),
    };
    let buf = format!("{{\"SyncStart\":{{\"name\":\"{}\",\"id\":{},\"parent_id\":{},\"ts\":{{\"secs\":0,\"nanos\":0}},\"metadata\":null}}}}", name, id, parent_id);
    (event, buf)
}

fn buf_sync_end(id: usize) -> (TraceEvent, String) {
    let event = TraceEvent::SyncEnd { id: SpanId(id as u64), ts: at(0) };
    let buf = format!("{{\"SyncEnd\":{{\"id\":{},\"ts\":{{\"secs\":0,\"nanos\":0}}}}}}", id);
    (event, buf)
}

fn buf_wakeup(waking_id: usize, parked_id: usize, ts: usize) -> (TraceEvent, String) {
    let event = TraceEvent::Wakeup {
        waking_span: SpanId(waking_id as u64),
        parked_span: SpanId(parked_id as u64),
        ts: at(ts as u32),
    };
    let buf = format!("{{\"Wakeup\":{{\"waking_span\":{},\"parked_span\":{},\"ts\":{{\"secs\":0,\"nanos\":{}}}}}}}", waking_id, parked_id, ts);
    (event, buf)
}

fn add(tree: &mut EventTree, item: (TraceEvent, String)) -> Result<(), TreeError> {
    tree.add(item.0, item.1)
}

#[test]
fn test_event_tree_multiple_roots() {
    let mut tree = EventTree::new(vec![]);
    let mut root_id = 0;
    for name in &["John", "Paul", "George", "Ringo"] {
        add(&mut tree, buf_thread_start(name, root_id)).expect("add");
        root_id += 1;
    }
    assert_eq!(tree.roots().len(), 4);
}

#[test]
fn test_event_tree_no_goals_no_problem() {
    let mut tree = EventTree::new(vec![]);
    let mut root_id = 0;
    for name in &["John", "Paul", "George", "Ringo"] {
        add(&mut tree, buf_thread_start(name, root_id)).expect("add");
        root_id += 1;
    }
    assert_eq!(tree.filter().len(), 4);
}

#[test]
fn test_event_child_basic() {
    let mut tree = EventTree::new(vec!["Graydon".to_string()]);
    add(&mut tree, buf_thread_start("Graydon", 0)).expect("add root");
    add(&mut tree, buf_sync_start("Niko", 1, 0)).expect("add child");
    add(&mut tree, buf_sync_start("Patrick", 2, 0)).expect("add child");
    assert_eq!(tree.filter().len(), 3);
}

#[test]
fn test_event_parent_basic() {
    let mut tree = EventTree::new(vec!["Niko".to_string()]);
    add(&mut tree, buf_thread_start("Graydon", 0)).expect("add root");
    add(&mut tree, buf_sync_start("Niko", 1, 0)).expect("add child");
    add(&mut tree, buf_sync_start("Patrick", 2, 0)).expect("add child");
    assert_eq!(tree.filter().len(), 2); // not include patrick
}

#[test]
fn test_event_not_include_duplicates() {
    let mut tree = EventTree::new(vec!["Niko".to_string(), "Patrick".to_string()]);
    add(&mut tree, buf_thread_start("Graydon", 0)).expect("add root");
    add(&mut tree, buf_sync_start("Niko", 1, 0)).expect("add child");
    add(&mut tree, buf_sync_start("Patrick", 2, 0)).expect("add child");
    assert_eq!(tree.filter().len(), 3);
}

#[test]
fn test_event_include_end_span() {
    let mut tree = EventTree::new(vec!["Niko".to_string()]);
    add(&mut tree, buf_thread_start("Graydon", 0)).expect("add root");
    add(&mut tree, buf_sync_start("Niko", 1, 0)).expect("add child");
    add(&mut tree, buf_sync_start("Patrick", 2, 0)).expect("add child");
    add(&mut tree, buf_sync_end(2)).expect("add child");
    add(&mut tree, buf_sync_end(1)).expect("add child");
    assert_eq!(tree.filter().len(), 3);
}

#[test]
fn test_event_wakeups() {
    let mut tree = EventTree::new_hide_wakeups(vec!["Niko".to_string()], vec!["Graydon".to_string()]);
    add(&mut tree, buf_thread_start("Graydon", 0)).expect("add root");
    add(&mut tree, buf_sync_start("Niko", 1, 0)).expect("add child");
    add(&mut tree, buf_sync_start("Patrick", 2, 0)).expect("add child");
    // include these
    for ts in 0..20 {
        add(&mut tree, buf_wakeup(1, 0, ts)).expect("add wakeup");
    }
    // don't include these - patrick not in goals
    for ts in 0..40 {
        add(&mut tree, buf_wakeup(1, 2, ts)).expect("add wakeup");
    }
    // don't include these - hiding wakeup from graydon
    for ts in 0..80 {
        add(&mut tree, buf_wakeup(0, 1, ts)).expect("add wakeup");
    }
    assert_eq!(tree.filter().len(), 22);
}

#[test]
fn filter_orders_payloads_by_time() {
    let mut tree = EventTree::new(vec!["Niko".to_string()]);
    add(&mut tree, buf_thread_start("Graydon", 0)).expect("root");
    add(&mut tree, buf_sync_start("Niko", 1, 0)).expect("child");
    add(&mut tree, buf_wakeup(1, 0, 7)).expect("late wakeup");
    add(&mut tree, buf_wakeup(1, 0, 3)).expect("early wakeup");
    let out = tree.filter();
    assert_eq!(out.len(), 4);
    assert!(out[2].contains("\"nanos\":3"));
    assert!(out[3].contains("\"nanos\":7"));
}

#[test]
fn filter_includes_whole_subtree_of_goal() {
    let mut tree = EventTree::new(vec!["Graydon".to_string()]);
    add(&mut tree, buf_thread_start("Graydon", 0)).expect("root");
    add(&mut tree, buf_sync_start("Niko", 1, 0)).expect("child");
    add(&mut tree, buf_sync_start("Aaron", 3, 1)).expect("grandchild");
    add(&mut tree, buf_thread_start("Other", 9)).expect("other root");
    assert_eq!(tree.filter().len(), 3);
}

#[test]
fn overlapping_goals_emit_each_node_once() {
    let mut tree = EventTree::new(vec!["Graydon".to_string(), "Niko".to_string()]);
    add(&mut tree, buf_thread_start("Graydon", 0)).expect("root");
    add(&mut tree, buf_sync_start("Niko", 1, 0)).expect("child");
    add(&mut tree, buf_sync_end(1)).expect("end");
    assert_eq!(tree.filter().len(), 3);
}

#[test]
fn goal_span_kept_when_its_wakeups_are_hidden() {
    let mut tree = EventTree::new_hide_wakeups(vec!["Niko".to_string()], vec!["Niko".to_string()]);
    add(&mut tree, buf_thread_start("Graydon", 0)).expect("root");
    add(&mut tree, buf_sync_start("Niko", 1, 0)).expect("child");
    add(&mut tree, buf_wakeup(1, 0, 5)).expect("hidden wakeup");
    add(&mut tree, buf_wakeup(0, 1, 6)).expect("shown wakeup");
    let out = tree.filter();
    assert_eq!(out.len(), 3);
    assert!(out.iter().any(|b| b.contains("\"Niko\"")));
}

#[test]
fn parentless_start_becomes_root() {
    let mut tree = EventTree::new(vec![]);
    add(&mut tree, buf_sync_start("Orphan", 5, 99)).expect("orphan");
    assert_eq!(tree.roots(), vec![SpanId(5)]);
    assert_eq!(tree.filter().len(), 1);
}

#[test]
fn duplicate_start_is_an_error() {
    let mut tree = EventTree::new(vec![]);
    add(&mut tree, buf_thread_start("Graydon", 0)).expect("root");
    match add(&mut tree, buf_sync_start("Again", 0, 0)) {
        Err(TreeError::DuplicateNode(buf)) => assert!(buf.contains("Again")),
        other => panic!("unexpected {:?}", other),
    }
    assert_eq!(tree.filter().len(), 1);
}

#[test]
fn end_without_start_is_an_error() {
    let mut tree = EventTree::new(vec![]);
    match add(&mut tree, buf_sync_end(4)) {
        Err(TreeError::UnknownNode(buf)) => assert!(buf.contains("SyncEnd")),
        other => panic!("unexpected {:?}", other),
    }
    assert_eq!(tree.filter().len(), 0);
}

#[test]
fn wakeup_to_unknown_span_is_dropped() {
    let mut tree = EventTree::new(vec![]);
    add(&mut tree, buf_thread_start("Graydon", 0)).expect("root");
    add(&mut tree, buf_wakeup(0, 42, 1)).expect("wakeup");
    assert_eq!(tree.filter().len(), 1);
}

#[test]
fn identical_wakeups_are_kept_once() {
    let mut tree = EventTree::new(vec![]);
    add(&mut tree, buf_thread_start("Graydon", 0)).expect("root");
    add(&mut tree, buf_sync_start("Niko", 1, 0)).expect("child");
    add(&mut tree, buf_wakeup(1, 0, 4)).expect("wakeup");
    add(&mut tree, buf_wakeup(1, 0, 4)).expect("same wakeup");
    add(&mut tree, buf_wakeup(1, 0, 5)).expect("later wakeup");
    assert_eq!(tree.filter().len(), 4);
}
