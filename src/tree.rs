//! The event tree: spans linked to their parents, and the causal neighbourhood of goal spans.
use vstd::prelude::*;

use crate::event::{SpanId, Timestamp, TraceEvent};
use crate::order::{sort_by_time, sorted_by_time, Timed};

verus! {

broadcast use vstd::std_specs::hash::group_hash_axioms;

/// A raw event payload with its timestamp.
pub struct EventResult {
    pub buf: String,
    pub ts: Timestamp,
}

impl Timed for EventResult {
    open spec fn time(&self) -> int {
        self.ts.key()
    }

    fn time_key(&self) -> (r: u128) {
        self.ts.time_key()
    }
}

/// The node of one span: its payloads, the start event first.
pub struct EventNode {
    pub id: SpanId,
    pub name: String,
    pub parent: Option<SpanId>,
    pub parent_pos: Option<usize>,
    pub children: Vec<SpanId>,
    pub events: Vec<EventResult>,
    pub goal: bool,
    pub hidden: bool,
}

/// A wakeup payload with the span that woke and the span it woke.
pub struct WakeupEvent {
    pub event: EventResult,
    pub waking_span: SpanId,
    pub parked_span: SpanId,
}

pub ghost struct NodeView {
    pub id: SpanId,
    pub name: Seq<char>,
    pub parent: Option<SpanId>,
    pub parent_pos: Option<int>,
    pub children: Seq<SpanId>,
    pub events: Seq<EventResult>,
}

impl View for EventNode {
    type V = NodeView;

    open spec fn view(&self) -> NodeView {
        NodeView {
            id: self.id,
            name: self.name@,
            parent: self.parent,
            parent_pos: match self.parent_pos {
                Some(p) => Some(p as int),
                None => None,
            },
            children: self.children@,
            events: self.events@,
        }
    }
}

/// The tree as a value: nodes in order of arrival, wakeups in order of arrival, the roots,
/// and the names of the goal spans and of the spans whose wakeups are hidden.
pub ghost struct TreeView {
    pub nodes: Seq<NodeView>,
    pub wakeups: Seq<WakeupEvent>,
    pub roots: Seq<SpanId>,
    pub goal_names: Seq<Seq<char>>,
    pub hide_names: Seq<Seq<char>>,
}

/// Why an event could not be added.
#[derive(Debug)]
pub enum TreeError {
    /// A start event for a span that is already in the tree; it carries the payload.
    DuplicateNode(String),
    /// An event for a span that is not in the tree; it carries the payload.
    UnknownNode(String),
}

/// The events of a trace as a tree of spans, with the wakeups between them, and a query for the
/// causal neighbourhood of the goal spans.
pub struct EventTree {
    nodes: Vec<EventNode>,
    index: std::collections::HashMap<u64, usize>,
    roots: Vec<SpanId>,
    wakeups: Vec<WakeupEvent>,
    goal_names: Vec<String>,
    hide_wakeups_from_names: Vec<String>,
}

impl View for EventTree {
    type V = TreeView;

    closed spec fn view(&self) -> TreeView {
        TreeView {
            nodes: self.nodes@.map_values(|n: EventNode| n@),
            wakeups: self.wakeups@,
            roots: self.roots@,
            goal_names: self.goal_names@.map_values(|s: String| s@),
            hide_names: self.hide_wakeups_from_names@.map_values(|s: String| s@),
        }
    }
}

/// The index of the node with id `id`, or -1.
pub open spec fn position(v: TreeView, id: SpanId) -> int {
    if exists|k: int| 0 <= k < v.nodes.len() && v.nodes[k].id == id {
        choose|k: int| 0 <= k < v.nodes.len() && v.nodes[k].id == id
    } else {
        -1
    }
}

/// Ids are unique, and a parent stands before its children.
pub open spec fn tree_wf(v: TreeView) -> bool {
    &&& forall|i: int, j: int|
        0 <= i < v.nodes.len() && 0 <= j < v.nodes.len() && i != j ==> (#[trigger] v.nodes[i]).id
            != (#[trigger] v.nodes[j]).id
    &&& forall|i: int|
        0 <= i < v.nodes.len() ==> match (#[trigger] v.nodes[i]).parent_pos {
            Some(p) => 0 <= p < i && v.nodes[i].parent == Some(v.nodes[p].id),
            None => v.nodes[i].parent is None,
        }
}

/// A goal span: its name is a goal name, or no goal names were given.
pub open spec fn is_goal(v: TreeView, i: int) -> bool {
    v.goal_names.len() == 0 || v.goal_names.contains(v.nodes[i].name)
}

/// A span whose wakeups are hidden.
pub open spec fn is_hidden(v: TreeView, i: int) -> bool {
    v.hide_names.contains(v.nodes[i].name)
}

/// Node `a` is node `i` or one of its ancestors.
pub open spec fn is_ancestor(nodes: Seq<NodeView>, a: int, i: int) -> bool
    decreases i,
{
    if a == i {
        true
    } else if 0 <= i < nodes.len() {
        match nodes[i].parent_pos {
            Some(p) => if 0 <= p < i {
                is_ancestor(nodes, a, p)
            } else {
                false
            },
            None => false,
        }
    } else {
        false
    }
}

/// Node `i` is a goal span or lies below one.
pub open spec fn under_goal(v: TreeView, i: int) -> bool
    decreases i,
{
    if 0 <= i < v.nodes.len() {
        is_goal(v, i) || match v.nodes[i].parent_pos {
            Some(p) => if 0 <= p < i {
                under_goal(v, p)
            } else {
                false
            },
            None => false,
        }
    } else {
        false
    }
}

/// Node `i` is a goal span or an ancestor of one.
pub open spec fn above_goal(v: TreeView, i: int) -> bool {
    exists|g: int| 0 <= g < v.nodes.len() && is_goal(v, g) && #[trigger] is_ancestor(v.nodes, i, g)
}

/// Node `i` is in the causal neighbourhood of the goal spans.
pub open spec fn included(v: TreeView, i: int) -> bool {
    0 <= i < v.nodes.len() && (above_goal(v, i) || under_goal(v, i))
}

/// A wakeup is shown when both of its spans are included and the waking one is not hidden.
pub open spec fn eligible(v: TreeView, w: WakeupEvent) -> bool {
    let a = position(v, w.waking_span);
    let b = position(v, w.parked_span);
    a >= 0 && b >= 0 && included(v, a) && included(v, b) && !is_hidden(v, a)
}

/// The payloads of the included nodes among the first `n`, node by node.
pub open spec fn collected_nodes(v: TreeView, n: int) -> Seq<EventResult>
    decreases n,
{
    if n <= 0 {
        Seq::empty()
    } else if included(v, n - 1) {
        collected_nodes(v, n - 1) + v.nodes[n - 1].events
    } else {
        collected_nodes(v, n - 1)
    }
}

/// The eligible wakeups among `ws`, in order.
pub open spec fn selected_wakeups(v: TreeView, ws: Seq<WakeupEvent>) -> Seq<WakeupEvent>
    decreases ws.len(),
{
    if ws.len() == 0 {
        Seq::empty()
    } else if eligible(v, ws.last()) {
        selected_wakeups(v, ws.drop_last()).push(ws.last())
    } else {
        selected_wakeups(v, ws.drop_last())
    }
}

/// Everything the filter emits, before it is ordered by time.
pub open spec fn collected(v: TreeView) -> Seq<EventResult> {
    collected_nodes(v, v.nodes.len() as int) + selected_wakeups(v, v.wakeups).map_values(
        |w: WakeupEvent| w.event,
    )
}

/// The node of a span that starts with payload `rec`.
pub open spec fn start_node(
    id: SpanId,
    name: Seq<char>,
    parent: Option<SpanId>,
    parent_pos: Option<int>,
    rec: EventResult,
) -> NodeView {
    NodeView { id, name, parent, parent_pos, children: Seq::empty(), events: seq![rec] }
}

/// A span starts: it becomes a child of its parent if the parent is in the tree, else a root.
pub open spec fn attach(
    v: TreeView,
    id: SpanId,
    name: Seq<char>,
    parent: Option<SpanId>,
    rec: EventResult,
) -> TreeView {
    let p = match parent {
        Some(pid) => position(v, pid),
        None => -1,
    };
    if position(v, id) >= 0 {
        v
    } else if p >= 0 {
        let pn = v.nodes[p];
        TreeView {
            nodes: v.nodes.update(p, NodeView { children: pn.children.push(id), ..pn }).push(
                start_node(id, name, parent, Some(p), rec),
            ),
            ..v
        }
    } else {
        TreeView {
            nodes: v.nodes.push(start_node(id, name, None, None, rec)),
            roots: v.roots.push(id),
            ..v
        }
    }
}

/// A payload joins the node of span `id`, if there is one.
pub open spec fn annotate(v: TreeView, id: SpanId, rec: EventResult) -> TreeView {
    let k = position(v, id);
    if k < 0 {
        v
    } else {
        let n = v.nodes[k];
        TreeView { nodes: v.nodes.update(k, NodeView { events: n.events.push(rec), ..n }), ..v }
    }
}

/// Two wakeups with the same spans, time and payload.
pub open spec fn same_wakeup(a: WakeupEvent, b: WakeupEvent) -> bool {
    &&& a.waking_span == b.waking_span
    &&& a.parked_span == b.parked_span
    &&& a.event.ts == b.event.ts
    &&& a.event.buf@ == b.event.buf@
}

/// The wakeups `ws` already hold one like `w`.
pub open spec fn has_wakeup(ws: Seq<WakeupEvent>, w: WakeupEvent) -> bool {
    exists|k: int| 0 <= k < ws.len() && same_wakeup(#[trigger] ws[k], w)
}

/// The tree after event `e` with payload `buf`. The wakeups form a set: one like a wakeup
/// already held is not added again.
pub open spec fn tree_step(v: TreeView, e: TraceEvent, buf: String) -> TreeView {
    let rec = EventResult { buf, ts: e.spec_ts() };
    match e {
        TraceEvent::ThreadStart { name, id, .. } => attach(v, id, name@, None, rec),
        TraceEvent::AsyncStart { name, id, parent_id, .. } => attach(v, id, name@, Some(parent_id), rec),
        TraceEvent::SyncStart { name, id, parent_id, .. } => attach(v, id, name@, Some(parent_id), rec),
        TraceEvent::Wakeup { waking_span, parked_span, .. } => {
            let w = WakeupEvent { event: rec, waking_span, parked_span };
            if has_wakeup(v.wakeups, w) {
                v
            } else {
                TreeView { wakeups: v.wakeups.push(w), ..v }
            }
        },
        _ => annotate(v, e.spec_id().unwrap(), rec),
    }
}

/// What adding event `e` with payload `buf` reports.
pub open spec fn tree_report(v: TreeView, e: TraceEvent, buf: String) -> Result<(), TreeError> {
    if e.is_start() {
        if position(v, e.spec_id().unwrap()) >= 0 {
            Err(TreeError::DuplicateNode(buf))
        } else {
            Ok(())
        }
    } else if e is Wakeup {
        Ok(())
    } else if position(v, e.spec_id().unwrap()) < 0 {
        Err(TreeError::UnknownNode(buf))
    } else {
        Ok(())
    }
}

proof fn lemma_position(v: TreeView, id: SpanId, k: int)
    requires
        tree_wf(v),
        0 <= k < v.nodes.len(),
        v.nodes[k].id == id,
    ensures
        position(v, id) == k,
{
    let j = choose|j: int| 0 <= j < v.nodes.len() && v.nodes[j].id == id;
    assert(v.nodes[j].id == v.nodes[k].id);
}

/// Node `x` is a goal, or one of its children from index `c` on lies above a goal.
pub open spec fn marked_above(v: TreeView, x: int, c: int) -> bool {
    is_goal(v, x) || exists|j: int| c <= j < v.nodes.len() && #[trigger] child_above(v, x, j)
}

/// Node `j` is a child of node `x` that is a goal or an ancestor of one.
pub open spec fn child_above(v: TreeView, x: int, j: int) -> bool {
    0 <= j < v.nodes.len() && v.nodes[j].parent_pos == Some(x) && above_goal(v, j)
}

proof fn lemma_ancestor_of_parent(v: TreeView, x: int, j: int, g: int)
    requires
        tree_wf(v),
        0 <= j < v.nodes.len(),
        v.nodes[j].parent_pos == Some(x),
        is_ancestor(v.nodes, j, g),
    ensures
        is_ancestor(v.nodes, x, g),
    decreases g,
{
    assert(0 <= x < j) by {
        assert(v.nodes[j].parent_pos == Some(x));
    }
    if g == j {
        assert(is_ancestor(v.nodes, x, x));
    } else {
        if 0 <= g < v.nodes.len() {
            match v.nodes[g].parent_pos {
                Some(p) => {
                    if 0 <= p < g {
                        lemma_ancestor_of_parent(v, x, j, p);
                    }
                },
                None => {},
            }
        }
    }
}

proof fn lemma_child_on_path(v: TreeView, x: int, g: int) -> (j: int)
    requires
        tree_wf(v),
        0 <= g < v.nodes.len(),
        is_ancestor(v.nodes, x, g),
        x != g,
    ensures
        0 <= j < v.nodes.len(),
        v.nodes[j].parent_pos == Some(x),
        is_ancestor(v.nodes, j, g),
    decreases g,
{
    let p = v.nodes[g].parent_pos.unwrap();
    assert(0 <= p < g);
    if p == x {
        g
    } else {
        let j = lemma_child_on_path(v, x, p);
        j
    }
}

/// A node lies above a goal exactly when it is a goal or one of its children lies above one.
proof fn lemma_above_goal(v: TreeView, x: int)
    requires
        tree_wf(v),
        0 <= x < v.nodes.len(),
    ensures
        above_goal(v, x) == (is_goal(v, x) || exists|j: int| #[trigger] child_above(v, x, j)),
{
    if above_goal(v, x) {
        let g = choose|g: int| 0 <= g < v.nodes.len() && is_goal(v, g) && #[trigger] is_ancestor(v.nodes, x, g);
        if g != x {
            let j = lemma_child_on_path(v, x, g);
            assert(child_above(v, x, j));
        }
    }
    if is_goal(v, x) {
        assert(is_ancestor(v.nodes, x, x));
    }
    if exists|j: int| #[trigger] child_above(v, x, j) {
        let j = choose|j: int| #[trigger] child_above(v, x, j);
        let g = choose|g: int| 0 <= g < v.nodes.len() && is_goal(v, g) && #[trigger] is_ancestor(v.nodes, j, g);
        lemma_ancestor_of_parent(v, x, j, g);
    }
}

proof fn lemma_collected_nodes_contains(v: TreeView, n: int, i: int, e: int)
    requires
        0 <= i < n <= v.nodes.len(),
        included(v, i),
        0 <= e < v.nodes[i].events.len(),
    ensures
        collected_nodes(v, n).contains(v.nodes[i].events[e]),
    decreases n,
{
    let prev = collected_nodes(v, n - 1);
    if i == n - 1 {
        assert(collected_nodes(v, n) == prev + v.nodes[i].events);
        assert(collected_nodes(v, n)[prev.len() + e] == v.nodes[i].events[e]);
    } else {
        lemma_collected_nodes_contains(v, n - 1, i, e);
        let k = choose|k: int| 0 <= k < prev.len() && prev[k] == v.nodes[i].events[e];
        if included(v, n - 1) {
            assert(collected_nodes(v, n)[k] == prev[k]);
        }
    }
}

/// A goal span is always included, whatever the hidden names: every payload of a goal span is
/// among what the filter emits.
pub proof fn lemma_goal_included(v: TreeView, g: int)
    requires
        0 <= g < v.nodes.len(),
        is_goal(v, g),
    ensures
        included(v, g),
        forall|e: int|
            0 <= e < v.nodes[g].events.len() ==> collected(v).contains(
                #[trigger] v.nodes[g].events[e],
            ),
{
    assert(is_ancestor(v.nodes, g, g));
    assert forall|e: int| 0 <= e < v.nodes[g].events.len() implies collected(v).contains(
        #[trigger] v.nodes[g].events[e],
    ) by {
        lemma_collected_nodes_contains(v, v.nodes.len() as int, g, e);
        let c = collected_nodes(v, v.nodes.len() as int);
        let k = choose|k: int| 0 <= k < c.len() && c[k] == v.nodes[g].events[e];
        assert(collected(v)[k] == c[k]);
    }
}

proof fn lemma_contains_concat(a: Seq<Seq<char>>, b: Seq<Seq<char>>, x: Seq<char>)
    ensures
        (a + b).contains(x) == (a.contains(x) || b.contains(x)),
{
    if (a + b).contains(x) {
        let k = choose|k: int| 0 <= k < (a + b).len() && (a + b)[k] == x;
        if k >= a.len() {
            assert(b[k - a.len()] == x);
        }
    }
    if a.contains(x) {
        let k = choose|k: int| 0 <= k < a.len() && a[k] == x;
        assert((a + b)[k] == x);
    }
    if b.contains(x) {
        let k = choose|k: int| 0 <= k < b.len() && b[k] == x;
        assert((a + b)[a.len() + k] == x);
    }
}

proof fn lemma_under_goal_union(v: TreeView, a: Seq<Seq<char>>, b: Seq<Seq<char>>, i: int)
    requires
        a.len() > 0,
        b.len() > 0,
        v.goal_names == a + b,
    ensures
        under_goal(v, i) == (under_goal(TreeView { goal_names: a, ..v }, i) || under_goal(
            TreeView { goal_names: b, ..v },
            i,
        )),
    decreases i,
{
    if 0 <= i < v.nodes.len() {
        lemma_contains_concat(a, b, v.nodes[i].name);
        match v.nodes[i].parent_pos {
            Some(p) => {
                if 0 <= p < i {
                    lemma_under_goal_union(v, a, b, p);
                }
            },
            None => {},
        }
    }
}

/// Goals named by two lists together select exactly the nodes that either list selects: where
/// the two selections overlap, a node is still one node, and its payloads are emitted once.
pub proof fn lemma_goal_union(v: TreeView, a: Seq<Seq<char>>, b: Seq<Seq<char>>, i: int)
    requires
        a.len() > 0,
        b.len() > 0,
        v.goal_names == a + b,
    ensures
        included(v, i) == (included(TreeView { goal_names: a, ..v }, i) || included(
            TreeView { goal_names: b, ..v },
            i,
        )),
{
    let va = TreeView { goal_names: a, ..v };
    let vb = TreeView { goal_names: b, ..v };
    lemma_under_goal_union(v, a, b, i);
    if above_goal(v, i) {
        let g = choose|g: int| 0 <= g < v.nodes.len() && is_goal(v, g) && #[trigger] is_ancestor(v.nodes, i, g);
        lemma_contains_concat(a, b, v.nodes[g].name);
        if is_goal(va, g) {
            assert(above_goal(va, i));
        } else {
            assert(above_goal(vb, i));
        }
    }
    if above_goal(va, i) {
        let g = choose|g: int| 0 <= g < va.nodes.len() && is_goal(va, g) && #[trigger] is_ancestor(va.nodes, i, g);
        lemma_contains_concat(a, b, v.nodes[g].name);
        assert(is_goal(v, g));
    }
    if above_goal(vb, i) {
        let g = choose|g: int| 0 <= g < vb.nodes.len() && is_goal(vb, g) && #[trigger] is_ancestor(vb.nodes, i, g);
        lemma_contains_concat(a, b, v.nodes[g].name);
        assert(is_goal(v, g));
    }
}

proof fn lemma_selected_contains(v: TreeView, ws: Seq<WakeupEvent>, w: WakeupEvent)
    ensures
        selected_wakeups(v, ws).contains(w) == (ws.contains(w) && eligible(v, w)),
    decreases ws.len(),
{
    if ws.len() > 0 {
        let rest = ws.drop_last();
        lemma_selected_contains(v, rest, w);
        let sel = selected_wakeups(v, ws);
        let prev = selected_wakeups(v, rest);
        if prev.contains(w) {
            let k = choose|k: int| 0 <= k < prev.len() && prev[k] == w;
            assert(sel[k] == w);
            let j = choose|j: int| 0 <= j < rest.len() && rest[j] == w;
            assert(ws[j] == w);
        }
        if sel.contains(w) && !prev.contains(w) {
            assert(sel == prev.push(ws.last()));
            assert(sel[prev.len() as int] == w);
            assert(ws[ws.len() - 1] == w);
        }
        if ws.contains(w) && eligible(v, w) {
            let j = choose|j: int| 0 <= j < ws.len() && ws[j] == w;
            if j < ws.len() - 1 {
                assert(rest[j] == w);
            } else {
                assert(sel == prev.push(ws.last()));
                assert(sel[prev.len() as int] == w);
            }
        }
    }
}

/// A wakeup is emitted exactly when both of its spans are included and the waking span is not
/// hidden.
pub proof fn lemma_wakeup_symmetry(v: TreeView, k: int)
    requires
        0 <= k < v.wakeups.len(),
    ensures
        selected_wakeups(v, v.wakeups).contains(v.wakeups[k]) == eligible(v, v.wakeups[k]),
{
    lemma_selected_contains(v, v.wakeups, v.wakeups[k]);
    assert(v.wakeups.contains(v.wakeups[k]));
}

fn contains_name(names: &Vec<String>, name: &String) -> (r: bool)
    ensures
        r == names@.map_values(|s: String| s@).contains(name@),
{
    let ghost view = names@.map_values(|s: String| s@);
    let mut i: usize = 0;
    while i < names.len()
        invariant
            i <= names@.len(),
            view == names@.map_values(|s: String| s@),
            forall|j: int| 0 <= j < i ==> view[j] != name@,
        decreases names.len() - i,
    {
        if names[i].eq(name) {
            assert(view[i as int] == name@);
            return true;
        }
        i = i + 1;
    }
    false
}

fn copy_result(e: &EventResult) -> (r: EventResult)
    ensures
        r == *e,
{
    EventResult { buf: e.buf.clone(), ts: e.ts }
}

impl EventTree {
    pub closed spec fn nodes_wf(&self) -> bool {
        forall|i: int|
            0 <= i < self.nodes@.len() ==> {
                &&& #[trigger] self.index@.contains_key(self.nodes@[i].id.0)
                &&& self.index@[self.nodes@[i].id.0] == i
                &&& self.nodes@[i].goal == is_goal(self@, i)
                &&& self.nodes@[i].hidden == is_hidden(self@, i)
            }
    }

    pub closed spec fn index_wf(&self) -> bool {
        forall|key: u64| #[trigger]
            self.index@.contains_key(key) ==> self.index@[key] < self.nodes@.len()
                && self.nodes@[self.index@[key] as int].id.0 == key
    }

    pub closed spec fn wf(&self) -> bool {
        &&& tree_wf(self@)
        &&& self.nodes_wf()
        &&& self.index_wf()
    }

    /// A tree for the goal names `goals` (none: every span is a goal) that hides the wakeups
    /// of the spans named in `hide_wakeups_from`.
    pub fn new_hide_wakeups(goals: Vec<String>, hide_wakeups_from: Vec<String>) -> (r: EventTree)
        ensures
            r.wf(),
            r@.nodes.len() == 0,
            r@.wakeups.len() == 0,
            r@.roots.len() == 0,
            r@.goal_names == goals@.map_values(|s: String| s@),
            r@.hide_names == hide_wakeups_from@.map_values(|s: String| s@),
    {
        EventTree {
            nodes: Vec::new(),
            index: std::collections::HashMap::new(),
            roots: Vec::new(),
            wakeups: Vec::new(),
            goal_names: goals,
            hide_wakeups_from_names: hide_wakeups_from,
        }
    }

    /// A tree for the goal names `goals` that hides the wakeups of spans named `Control`.
    pub fn new(goals: Vec<String>) -> (r: EventTree)
        ensures
            r.wf(),
            r@.nodes.len() == 0,
            r@.wakeups.len() == 0,
            r@.roots.len() == 0,
            r@.goal_names == goals@.map_values(|s: String| s@),
            r@.hide_names == seq!["Control"@],
    {
        let mut hidden_names: Vec<String> = Vec::new();
        hidden_names.push(String::from_str(("Control")));
        let r = EventTree::new_hide_wakeups(goals, hidden_names);
        assert(r@.hide_names =~= seq!["Control"@]);
        r
    }

    /// The roots of the tree, in order of arrival.
    pub fn roots(&self) -> (r: Vec<SpanId>)
        ensures
            r@ == self@.roots,
    {
        let mut r: Vec<SpanId> = Vec::new();
        let mut i: usize = 0;
        while i < self.roots.len()
            invariant
                i <= self.roots@.len(),
                r@ == self.roots@.take(i as int),
            decreases self.roots.len() - i,
        {
            r.push(self.roots[i]);
            i = i + 1;
            assert(r@ =~= self.roots@.take(i as int));
        }
        assert(self.roots@.take(i as int) =~= self.roots@);
        r
    }

    fn find(&self, id: SpanId) -> (r: Option<usize>)
        requires
            self.wf(),
        ensures
            match r {
                Some(k) => k < self@.nodes.len() && position(self@, id) == k as int
                    && self@.nodes[k as int].id == id,
                None => position(self@, id) == -1,
            },
    {
        match self.index.get(&id.0) {
            Some(k) => {
                let k = *k;
                proof {
                    assert(self@.nodes[k as int].id == id);
                    lemma_position(self@, id, k as int);
                }
                Some(k)
            },
            None => {
                proof {
                    assert forall|i: int| 0 <= i < self@.nodes.len() implies self@.nodes[i].id != id by {
                        assert(self.index@.contains_key(self.nodes@[i].id.0));
                    }
                }
                None
            },
        }
    }

    #[verifier::spinoff_prover]
    fn add_node(&mut self, id: SpanId, name: String, parent: Option<SpanId>, buf: String, ts: Timestamp) -> (r:
        Result<(), TreeError>)
        requires
            old(self).wf(),
        ensures
            final(self).wf(),
            final(self)@ == attach(old(self)@, id, name@, parent, EventResult { buf, ts }),
            r == (if position(old(self)@, id) >= 0 {
                Err(TreeError::DuplicateNode(buf))
            } else {
                Ok(())
            }),
    {
        let ghost v = self@;
        let ghost old_nodes = self.nodes@;
        let ghost old_index = self.index@;
        let ghost rec = EventResult { buf, ts };
        if let Some(_) = self.find(id) {
            return Err(TreeError::DuplicateNode(buf));
        }
        let pp: Option<usize> = match parent {
            Some(pid) => self.find(pid),
            None => None,
        };
        let goal = self.goal_names.len() == 0 || contains_name(&self.goal_names, &name);
        let hidden = contains_name(&self.hide_wakeups_from_names, &name);
        let pos = self.nodes.len();
        let node_parent = match pp {
            Some(_) => parent,
            None => None,
        };
        match pp {
            Some(k) => {
                self.nodes[k].children.push(id);
            },
            None => {
                self.roots.push(id);
            },
        }
        let mut events: Vec<EventResult> = Vec::new();
        events.push(EventResult { buf, ts });
        let ghost pn: Option<int> = match pp {
            Some(k) => Some(k as int),
            None => None,
        };
        self.nodes.push(
            EventNode {
                id,
                name,
                parent: node_parent,
                parent_pos: pp,
                children: Vec::new(),
                events,
                goal,
                hidden,
            },
        );
        self.index.insert(id.0, pos);
        proof {
            let t = attach(v, id, name@, parent, rec);
            assert(self@.nodes[pos as int].events =~= seq![rec]);
            assert(self@.nodes[pos as int].children =~= Seq::<SpanId>::empty());
            assert(self@.nodes =~= t.nodes);
            assert(self@.roots =~= t.roots);
            assert(self@ == t);
            assert forall|i: int| 0 <= i < pos implies self@.nodes[i].id != id by {}
            assert forall|i: int| 0 <= i < pos implies self@.nodes[i].name == v.nodes[i].name by {}
            assert forall|i: int| 0 <= i < pos implies self@.nodes[i].parent_pos == v.nodes[i].parent_pos
                && self@.nodes[i].parent == v.nodes[i].parent && self@.nodes[i].id == v.nodes[i].id by {}
            assert(tree_wf(self@));
            assert(self.index_wf()) by {
            assert forall|key: u64| #[trigger]
                self.index@.contains_key(key) implies self.index@[key] < self.nodes@.len()
                    && self.nodes@[self.index@[key] as int].id.0 == key by {
                if key != id.0 {
                    assert(old_index.contains_key(key));
                }
            }
            }
            assert(self.nodes_wf()) by {
            assert forall|i: int|
                0 <= i < self.nodes@.len() implies {
                    &&& #[trigger] self.index@.contains_key(self.nodes@[i].id.0)
                    &&& self.index@[self.nodes@[i].id.0] == i
                    &&& self.nodes@[i].goal == is_goal(self@, i)
                    &&& self.nodes@[i].hidden == is_hidden(self@, i)
                } by {
                if i < pos {
                    assert(self.nodes@[i].id == old_nodes[i].id);
                    assert(self.nodes@[i].goal == old_nodes[i].goal);
                    assert(self.nodes@[i].hidden == old_nodes[i].hidden);
                    assert(self.nodes@[i].name == old_nodes[i].name);
                    assert(old_index.contains_key(old_nodes[i].id.0));
                    assert(old_nodes[i].goal == is_goal(v, i));
                    assert(self.nodes@[i].id != id);
                    assert(self.index@.contains_key(old_nodes[i].id.0));
                } else {
                    assert(self@.goal_names == v.goal_names);
                }
            }
            }
        }
        assert(self.wf());
        Ok(())
    }

    fn add_to_node(&mut self, id: SpanId, buf: String, ts: Timestamp) -> (r: Result<(), TreeError>)
        requires
            old(self).wf(),
        ensures
            final(self).wf(),
            final(self)@ == annotate(old(self)@, id, EventResult { buf, ts }),
            r == (if position(old(self)@, id) < 0 {
                Err(TreeError::UnknownNode(buf))
            } else {
                Ok(())
            }),
    {
        let ghost v = self@;
        let ghost old_nodes = self.nodes@;
        let ghost old_index = self.index@;
        match self.find(id) {
            None => Err(TreeError::UnknownNode(buf)),
            Some(k) => {
                self.nodes[k].events.push(EventResult { buf, ts });
                proof {
                    let t = annotate(v, id, EventResult { buf, ts });
                    assert(self@.nodes =~= t.nodes);
                    assert(self@ == t);
                    assert(self.nodes_wf()) by {
                    assert forall|i: int|
                        0 <= i < self.nodes@.len() implies {
                            &&& #[trigger] self.index@.contains_key(self.nodes@[i].id.0)
                            &&& self.index@[self.nodes@[i].id.0] == i
                            &&& self.nodes@[i].goal == is_goal(self@, i)
                            &&& self.nodes@[i].hidden == is_hidden(self@, i)
                        } by {
                        assert(self.nodes@[i].id == old_nodes[i].id);
                        assert(self.nodes@[i].name == old_nodes[i].name);
                        assert(self.nodes@[i].goal == old_nodes[i].goal);
                        assert(self.nodes@[i].hidden == old_nodes[i].hidden);
                        assert(old_index.contains_key(old_nodes[i].id.0));
                    assert(old_nodes[i].goal == is_goal(v, i));
                        assert(self.index@.contains_key(old_nodes[i].id.0));
                    }
                    }
                }
                Ok(())
            },
        }
    }

    fn holds_wakeup(&self, w: &WakeupEvent) -> (r: bool)
        ensures
            r == has_wakeup(self@.wakeups, *w),
    {
        let mut k: usize = 0;
        while k < self.wakeups.len()
            invariant
                k <= self.wakeups@.len(),
                forall|j: int| 0 <= j < k ==> !same_wakeup(#[trigger] self.wakeups@[j], *w),
            decreases self.wakeups.len() - k,
        {
            let x = &self.wakeups[k];
            if x.waking_span == w.waking_span && x.parked_span == w.parked_span && x.event.ts
                == w.event.ts && x.event.buf.eq(&w.event.buf) {
                assert(same_wakeup(self.wakeups@[k as int], *w));
                return true;
            }
            k = k + 1;
        }
        false
    }

    /// Adds one event with its raw payload `buf`. A start event adds a node, as a child of its
    /// parent when the parent is in the tree and as a root otherwise; another event of a span
    /// joins that span's node; a wakeup is kept apart.
    pub fn add(&mut self, event: TraceEvent, buf: String) -> (r: Result<(), TreeError>)
        requires
            old(self).wf(),
        ensures
            final(self).wf(),
            final(self)@ == tree_step(old(self)@, event, buf),
            r == tree_report(old(self)@, event, buf),
    {
        let ts = event.ts();
        match event {
            TraceEvent::ThreadStart { name, id, .. } => self.add_node(id, name, None, buf, ts),
            TraceEvent::AsyncStart { name, id, parent_id, .. } => self.add_node(
                id,
                name,
                Some(parent_id),
                buf,
                ts,
            ),
            TraceEvent::SyncStart { name, id, parent_id, .. } => self.add_node(
                id,
                name,
                Some(parent_id),
                buf,
                ts,
            ),
            TraceEvent::Wakeup { waking_span, parked_span, .. } => {
                let ghost v = self@;
                let w = WakeupEvent { event: EventResult { buf, ts }, waking_span, parked_span };
                if self.holds_wakeup(&w) {
                    return Ok(());
                }
                self.wakeups.push(w);
                proof {
                    assert(self@.nodes == v.nodes);
                    assert(self@.goal_names == v.goal_names);
                    assert(self@.hide_names == v.hide_names);
                    assert(forall|i: int| 0 <= i < v.nodes.len() ==> is_goal(self@, i) == is_goal(v, i)
                        && is_hidden(self@, i) == is_hidden(v, i));
                }
                Ok(())
            },
            TraceEvent::AsyncOnCPU { id, .. } => self.add_to_node(id, buf, ts),
            TraceEvent::AsyncOffCPU { id, .. } => self.add_to_node(id, buf, ts),
            TraceEvent::AsyncEnd { id, .. } => self.add_to_node(id, buf, ts),
            TraceEvent::SyncEnd { id, .. } => self.add_to_node(id, buf, ts),
            TraceEvent::ThreadEnd { id, .. } => self.add_to_node(id, buf, ts),
        }
    }


    /// Whether node `i` is included, given the two marks.
    fn is_included(above: &Vec<bool>, under: &Vec<bool>, i: usize) -> (r: bool)
        requires
            i < above@.len(),
            i < under@.len(),
        ensures
            r == (above@[i as int] || under@[i as int]),
    {
        above[i] || under[i]
    }

    /// The causal neighbourhood of the goal spans, as payloads in ascending order of time: the
    /// events of every goal span, of its ancestors and of its descendants, each node once, and
    /// each wakeup whose two spans are among those nodes and whose waking span is not hidden.
    #[verifier::spinoff_prover]
    pub fn filter(&self) -> (r: Vec<String>)
        requires
            self.wf(),
        ensures
            exists|recs: Seq<EventResult>|
                {
                    &&& recs.to_multiset() == collected(self@).to_multiset()
                    &&& sorted_by_time(recs)
                    &&& r@.len() == recs.len()
                    &&& forall|i: int| 0 <= i < recs.len() ==> r@[i] == (#[trigger] recs[i]).buf
                },
    {
        let ghost v = self@;
        let n = self.nodes.len();
        let mut under: Vec<bool> = Vec::new();
        let mut i: usize = 0;
        while i < n
            invariant
                self.wf(),
                v == self@,
                n == v.nodes.len(),
                i <= n,
                under@.len() == i,
                forall|j: int| 0 <= j < i ==> under@[j] == under_goal(v, j),
            decreases n - i,
        {
            let node = &self.nodes[i];
            assert(self.index@.contains_key(self.nodes@[i as int].id.0));
            assert(self.nodes@[i as int]@ == v.nodes[i as int]);
            let ghost ni = v.nodes[i as int];
            let below_parent = match node.parent_pos {
                Some(p) => under[p],
                None => false,
            };
            proof {
                assert(node.goal == is_goal(v, i as int));
                match node.parent_pos {
                    Some(p) => {
                        assert(ni.parent_pos == Some(p as int));
                        assert(below_parent == under_goal(v, p as int));
                    },
                    None => {
                        assert(ni.parent_pos is None);
                    },
                }
                assert((node.goal || below_parent) == under_goal(v, i as int));
            }
            under.push(node.goal || below_parent);
            i = i + 1;
        }
        let mut above: Vec<bool> = Vec::new();
        let mut i: usize = 0;
        while i < n
            invariant
                self.wf(),
                v == self@,
                n == v.nodes.len(),
                i <= n,
                above@.len() == i,
                forall|j: int| 0 <= j < i ==> above@[j] == is_goal(v, j),
            decreases n - i,
        {
            assert(self.index@.contains_key(self.nodes@[i as int].id.0));
            above.push(self.nodes[i].goal);
            i = i + 1;
        }
        let mut c: usize = n;
        while c > 0
            invariant
                self.wf(),
                v == self@,
                n == v.nodes.len(),
                c <= n,
                above@.len() == n,
                forall|j: int| c <= j < n ==> above@[j] == above_goal(v, j),
                forall|x: int| 0 <= x < c ==> #[trigger] above@[x] == marked_above(v, x, c as int),
            decreases c,
        {
            let ghost oc = c as int;
            c = c - 1;
            let ghost before = above@;
            proof {
                let ci = c as int;
                lemma_above_goal(v, ci);
                assert(before[ci] == marked_above(v, ci, oc));
                if exists|j: int| #[trigger] child_above(v, ci, j) {
                    let j = choose|j: int| #[trigger] child_above(v, ci, j);
                    assert(v.nodes[j].parent_pos == Some(ci));
                    assert(oc <= j < n && child_above(v, ci, j));
                }
                assert(before[ci] == above_goal(v, ci));
            }
            let parent_pos = self.nodes[c].parent_pos;
            proof {
                assert(self.nodes@[c as int]@ == v.nodes[c as int]);
                assert(tree_wf(v));
            }
            if above[c] {
                match parent_pos {
                    Some(p) => {
                        above.set(p, true);
                    },
                    None => {},
                }
            }
            proof {
                assert forall|j: int| c <= j < n implies above@[j] == above_goal(v, j) by {
                    assert(above@[j] == before[j]);
                }
                assert forall|x: int| 0 <= x < c implies #[trigger] above@[x] == marked_above(v, x, c as int) by {
                    assert(before[x] == marked_above(v, x, oc));
                    if exists|j: int| c + 1 <= j < n && #[trigger] child_above(v, x, j) {
                        let j = choose|j: int| c + 1 <= j < n && #[trigger] child_above(v, x, j);
                        assert(c <= j < n && child_above(v, x, j));
                    }
                    if exists|j: int| c <= j < n && #[trigger] child_above(v, x, j) {
                        let j = choose|j: int| c <= j < n && #[trigger] child_above(v, x, j);
                        if j != c {
                            assert(c + 1 <= j < n && child_above(v, x, j));
                        } else {
                            assert(parent_pos == Some(x as usize));
                        }
                    }
                    if parent_pos == Some(x as usize) && before[c as int] {
                        assert(child_above(v, x, c as int));
                        assert(above@[x]);
                    } else {
                        assert(above@[x] == before[x]);
                        assert(!child_above(v, x, c as int));
                    }
                }
            }
        }
        let mut recs: Vec<EventResult> = Vec::new();
        let mut i: usize = 0;
        while i < n
            invariant
                self.wf(),
                v == self@,
                n == v.nodes.len(),
                i <= n,
                above@.len() == n,
                under@.len() == n,
                forall|j: int| 0 <= j < n ==> above@[j] == above_goal(v, j),
                forall|j: int| 0 <= j < n ==> under@[j] == under_goal(v, j),
                recs@ == collected_nodes(v, i as int),
            decreases n - i,
        {
            if EventTree::is_included(&above, &under, i) {
                let events = &self.nodes[i].events;
                let ghost base = recs@;
                let mut e: usize = 0;
                while e < events.len()
                    invariant
                        e <= events@.len(),
                        recs@ == base + events@.take(e as int),
                    decreases events.len() - e,
                {
                    recs.push(copy_result(&events[e]));
                    e = e + 1;
                    assert(recs@ =~= base + events@.take(e as int));
                }
                assert(events@.take(e as int) =~= events@);
            }
            i = i + 1;
        }
        let ghost base = recs@;
        let mut k: usize = 0;
        while k < self.wakeups.len()
            invariant
                self.wf(),
                v == self@,
                n == v.nodes.len(),
                k <= self.wakeups@.len(),
                above@.len() == n,
                under@.len() == n,
                forall|j: int| 0 <= j < n ==> above@[j] == above_goal(v, j),
                forall|j: int| 0 <= j < n ==> under@[j] == under_goal(v, j),
                recs@ == base + selected_wakeups(v, v.wakeups.take(k as int)).map_values(
                    |w: WakeupEvent| w.event,
                ),
            decreases self.wakeups.len() - k,
        {
            let w = &self.wakeups[k];
            let ghost prev = recs@;
            proof {
                assert(v.wakeups.take(k as int + 1).drop_last() =~= v.wakeups.take(k as int));
            }
            let a = self.find(w.waking_span);
            let b = self.find(w.parked_span);
            match (a, b) {
                (Some(a), Some(b)) => {
                    if EventTree::is_included(&above, &under, a) && EventTree::is_included(
                        &above,
                        &under,
                        b,
                    ) && !self.nodes[a].hidden {
                        recs.push(copy_result(&w.event));
                    }
                    assert(self.index@.contains_key(self.nodes@[a as int].id.0));
                },
                _ => {},
            }
            k = k + 1;
            assert(recs@ =~= base + selected_wakeups(v, v.wakeups.take(k as int)).map_values(
                |w: WakeupEvent| w.event,
            ));
        }
        proof {
            assert(v.wakeups.take(k as int) =~= v.wakeups);
        }
        let ghost all = recs@;
        sort_by_time(&mut recs);
        let mut r: Vec<String> = Vec::new();
        let mut i: usize = 0;
        while i < recs.len()
            invariant
                i <= recs@.len(),
                r@.len() == i,
                forall|j: int| 0 <= j < i ==> r@[j] == (#[trigger] recs@[j]).buf,
            decreases recs.len() - i,
        {
            r.push(recs[i].buf.clone());
            i = i + 1;
        }
        assert(all == collected(v));
        r
    }

}

} // verus!
