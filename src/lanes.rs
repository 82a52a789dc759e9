//! Row layout per thread, with on-CPU sub-spans and rows reserved for children.
use vstd::prelude::*;

verus! {

/// The index of a task in its database.
#[derive(Clone, Copy, Debug, PartialEq, Eq, Structural, Hash)]
pub struct TaskId(pub u32);

/// A closed interval of time, from `begin` to `end`.
#[derive(Clone, Copy, Debug, PartialEq, Eq, Structural)]
pub struct Interval {
    pub begin: u64,
    pub end: u64,
}

/// A task: its span, its parent, and the parts of its span it spent on a CPU, if recorded.
pub struct Task {
    pub id: TaskId,
    pub parent: Option<TaskId>,
    pub span: Interval,
    pub on_cpu: Option<Vec<Interval>>,
}

/// Tasks, each at the index of its id, parents before children.
pub struct Database {
    pub tasks: Vec<Task>,
}

/// An interval held by a chunk, with its task.
pub type Item = (u64, u64, TaskId);

/// Two closed intervals meet.
pub open spec fn overlaps(x: Item, b: u64, e: u64) -> bool {
    x.0 <= e && b <= x.1
}

/// Some interval of `s` meets the interval from `b` to `e`.
pub open spec fn overlaps_any(s: Seq<Item>, b: u64, e: u64) -> bool {
    exists|i: int| 0 <= i < s.len() && #[trigger] overlaps(s[i], b, e)
}

/// Intervals each well formed, apart from one another, in ascending order.
pub open spec fn chunk_wf(s: Seq<Item>) -> bool {
    &&& forall|i: int| 0 <= i < s.len() ==> (#[trigger] s[i]).0 <= s[i].1
    &&& forall|i: int, j: int| 0 <= i < j < s.len() ==> (#[trigger] s[i]).1 < (#[trigger] s[j]).0
}

/// Disjoint intervals in ascending order, each with its task.
pub struct Chunk {
    begins: Vec<u64>,
    ends: Vec<u64>,
    tasks: Vec<TaskId>,
}

impl View for Chunk {
    type V = Seq<Item>;

    closed spec fn view(&self) -> Seq<Item> {
        Seq::new(self.begins@.len(), |i: int| (self.begins@[i], self.ends@[i], self.tasks@[i]))
    }
}

impl Chunk {
    pub closed spec fn wf(&self) -> bool {
        &&& self.ends@.len() == self.begins@.len()
        &&& self.tasks@.len() == self.begins@.len()
        &&& chunk_wf(self@)
    }

    pub fn new() -> (r: Chunk)
        ensures
            r.wf(),
            r@ == Seq::<Item>::empty(),
    {
        let r = Chunk { begins: Vec::new(), ends: Vec::new(), tasks: Vec::new() };
        assert(r@ =~= Seq::<Item>::empty());
        r
    }

    /// The number of intervals that end before `x`.
    fn lower_bound(&self, x: u64) -> (r: usize)
        requires
            self.wf(),
        ensures
            r <= self@.len(),
            forall|i: int| 0 <= i < r ==> (#[trigger] self@[i]).1 < x,
            forall|i: int| r <= i < self@.len() ==> (#[trigger] self@[i]).1 >= x,
    {
        let mut lo: usize = 0;
        let mut hi: usize = self.ends.len();
        while lo < hi
            invariant
                self.wf(),
                lo <= hi <= self@.len(),
                forall|i: int| 0 <= i < lo ==> (#[trigger] self@[i]).1 < x,
                forall|i: int| hi <= i < self@.len() ==> (#[trigger] self@[i]).1 >= x,
            decreases hi - lo,
        {
            let mid = lo + (hi - lo) / 2;
            if self.ends[mid] < x {
                proof {
                    assert forall|i: int| 0 <= i < mid + 1 implies (#[trigger] self@[i]).1 < x by {
                        if i < mid {
                            assert(self@[i].1 < self@[mid as int].0);
                        }
                    }
                }
                lo = mid + 1;
            } else {
                proof {
                    assert forall|i: int| mid <= i < self@.len() implies (#[trigger] self@[i]).1 >= x by {
                        if i > mid {
                            assert(self@[mid as int].1 < self@[i].0);
                        }
                    }
                }
                hi = mid;
            }
        }
        lo
    }

    /// Whether some interval of the chunk meets `span`.
    pub fn has_overlap(&self, span: Interval) -> (r: bool)
        requires
            self.wf(),
        ensures
            r == overlaps_any(self@, span.begin, span.end),
    {
        let idx = self.lower_bound(span.begin);
        if idx == self.ends.len() {
            return false;
        }
        let r = self.begins[idx] <= span.end;
        proof {
            if r {
                assert(overlaps(self@[idx as int], span.begin, span.end));
            } else {
                assert forall|i: int| 0 <= i < self@.len() implies !#[trigger] overlaps(
                    self@[i],
                    span.begin,
                    span.end,
                ) by {
                    if i > idx {
                        assert(self@[idx as int].1 < self@[i].0);
                    }
                }
            }
        }
        r
    }

    /// Adds `span` for task `tid`; it must meet no interval of the chunk.
    pub fn add(&mut self, span: Interval, tid: TaskId)
        requires
            old(self).wf(),
            span.begin <= span.end,
            !overlaps_any(old(self)@, span.begin, span.end),
        ensures
            final(self).wf(),
            final(self)@.len() == old(self)@.len() + 1,
            forall|x: Item| #[trigger]
                final(self)@.contains(x) == (old(self)@.contains(x) || x == (
                span.begin,
                span.end,
                tid,
            )),
    {
        let ghost s = self@;
        let ghost it: Item = (span.begin, span.end, tid);
        let idx = self.lower_bound(span.begin);
        if idx < self.ends.len() {
            assert(!overlaps(s[idx as int], span.begin, span.end));
        }
        self.begins.insert(idx, span.begin);
        self.ends.insert(idx, span.end);
        self.tasks.insert(idx, tid);
        proof {
            assert(self@ =~= s.insert(idx as int, it));
            let t = self@;
            assert forall|i: int, j: int| 0 <= i < j < t.len() implies (#[trigger] t[i]).1 < (
            #[trigger] t[j]).0 by {
                if i < idx && j > idx {
                    assert(s[i].1 < span.begin);
                    if j - 1 > idx {
                        assert(s[idx as int].1 < s[j - 1].0);
                    }
                } else if i < idx && j == idx {
                    assert(s[i].1 < span.begin);
                } else if i == idx && j > idx {
                    assert(span.end < s[idx as int].0);
                    if j - 1 > idx {
                        assert(s[idx as int].1 < s[j - 1].0);
                    }
                } else if i > idx {
                    assert(t[i] == s[i - 1] && t[j] == s[j - 1]);
                } else {
                    assert(t[i] == s[i] && t[j] == s[j]);
                }
            }
            assert forall|x: Item| #[trigger]
                t.contains(x) == (s.contains(x) || x == it) by {
                if t.contains(x) {
                    let k = choose|k: int| 0 <= k < t.len() && t[k] == x;
                    if k < idx {
                        assert(s[k] == x);
                    } else if k > idx {
                        assert(s[k - 1] == x);
                    }
                }
                if s.contains(x) {
                    let k = choose|k: int| 0 <= k < s.len() && s[k] == x;
                    if k < idx {
                        assert(t[k] == x);
                    } else {
                        assert(t[k + 1] == x);
                    }
                }
                if x == it {
                    assert(t[idx as int] == x);
                }
            }
        }
    }
}

/// Whether `x` lies inside `span`.
pub open spec fn within(x: Interval, span: Interval) -> bool {
    span.begin <= x.begin && x.begin <= x.end && x.end <= span.end
}

/// A task is well formed: its span is an interval, and its on-CPU parts are intervals inside
/// it, apart from one another.
pub open spec fn task_wf(t: Task) -> bool {
    &&& t.span.begin <= t.span.end
    &&& match t.on_cpu {
        Some(v) => {
            &&& forall|k: int| 0 <= k < v@.len() ==> within(#[trigger] v@[k], t.span)
            &&& forall|k: int, l: int|
                0 <= k < v@.len() && 0 <= l < v@.len() && k != l ==> !overlaps(
                    (#[trigger] v@[k].begin, v@[k].end, t.id),
                    (#[trigger] v@[l]).begin,
                    v@[l].end,
                )
        },
        None => true,
    }
}

/// The intervals a task draws in the foreground: its on-CPU parts, or its whole span.
pub open spec fn fore_items(t: Task) -> Seq<Item> {
    match t.on_cpu {
        Some(v) => v@.map_values(|x: Interval| (x.begin, x.end, t.id)),
        None => seq![(t.span.begin, t.span.end, t.id)],
    }
}

/// The intervals a task draws in the background: its whole span, when it has on-CPU parts.
pub open spec fn back_items(t: Task) -> Seq<Item> {
    match t.on_cpu {
        Some(_) => seq![(t.span.begin, t.span.end, t.id)],
        None => Seq::empty(),
    }
}

pub ghost struct RowView {
    pub fore: Seq<Item>,
    pub back: Seq<Item>,
    pub reserve: Seq<Item>,
}

/// A row: the intervals drawn in the foreground and in the background, and those reserved
/// for children.
pub struct Row {
    fore: Chunk,
    back: Chunk,
    reserve: Chunk,
}

impl View for Row {
    type V = RowView;

    closed spec fn view(&self) -> RowView {
        RowView { fore: self.fore@, back: self.back@, reserve: self.reserve@ }
    }
}

/// The chunks of a row are well formed, and what two different tasks draw on it never meets.
pub open spec fn row_ok(r: RowView) -> bool {
    &&& chunk_wf(r.fore)
    &&& chunk_wf(r.back)
    &&& chunk_wf(r.reserve)
    &&& forall|x: Item, y: Item|
        r.fore.contains(x) && #[trigger] r.back.contains(y) && x.2 != y.2 ==> !#[trigger] overlaps(
            x,
            y.0,
            y.1,
        )
}

/// Some chunk of the row holds an interval that meets `span`.
pub open spec fn row_overlaps(r: RowView, span: Interval) -> bool {
    overlaps_any(r.fore, span.begin, span.end) || overlaps_any(r.back, span.begin, span.end)
        || overlaps_any(r.reserve, span.begin, span.end)
}

proof fn lemma_task_parts(t: Task, v: Vec<Interval>)
    requires
        task_wf(t),
        t.on_cpu == Some(v),
    ensures
        forall|k: int| 0 <= k < v@.len() ==> within(#[trigger] v@[k], t.span),
        forall|k: int, l: int|
            0 <= k < v@.len() && 0 <= l < v@.len() && k != l ==> !overlaps(
                (#[trigger] v@[k].begin, v@[k].end, t.id),
                (#[trigger] v@[l]).begin,
                v@[l].end,
            ),
{
    match t.on_cpu {
        Some(w) => {
            assert(w == v);
            assert(forall|k: int| 0 <= k < w@.len() ==> within(#[trigger] w@[k], t.span));
        },
        None => {},
    }
}

impl Row {
    pub closed spec fn wf(&self) -> bool {
        &&& self.fore.wf()
        &&& self.back.wf()
        &&& self.reserve.wf()
        &&& row_ok(self@)
    }

    pub fn new() -> (r: Row)
        ensures
            r.wf(),
            r@ == (RowView { fore: Seq::empty(), back: Seq::empty(), reserve: Seq::empty() }),
    {
        Row { fore: Chunk::new(), back: Chunk::new(), reserve: Chunk::new() }
    }

    /// Draws `task` on the row: its whole span in the background and its on-CPU parts in the
    /// foreground if it has any, else its whole span in the foreground.
    #[verifier::spinoff_prover]
    pub fn add(&mut self, task: &Task)
        requires
            old(self).wf(),
            task_wf(*task),
            !overlaps_any(old(self)@.fore, task.span.begin, task.span.end),
            !overlaps_any(old(self)@.back, task.span.begin, task.span.end),
        ensures
            final(self).wf(),
            forall|x: Item| #[trigger]
                final(self)@.fore.contains(x) == (old(self)@.fore.contains(x) || fore_items(
                    *task,
                ).contains(x)),
            forall|x: Item| #[trigger]
                final(self)@.back.contains(x) == (old(self)@.back.contains(x) || back_items(
                    *task,
                ).contains(x)),
            final(self)@.reserve == old(self)@.reserve,
    {
        let ghost r0 = self@;
        let ghost span = task.span;
        match &task.on_cpu {
            Some(on_cpu) => {
                proof {
                    lemma_task_parts(*task, *on_cpu);
                    assert forall|x: Item, l: int|
                        #[trigger] r0.fore.contains(x) && 0 <= l < on_cpu@.len() implies !overlaps(
                            x,
                            (#[trigger] on_cpu@[l]).begin,
                            on_cpu@[l].end,
                        ) by {
                        let j = choose|j: int| 0 <= j < r0.fore.len() && r0.fore[j] == x;
                        assert(!overlaps(r0.fore[j], span.begin, span.end));
                        assert(within(on_cpu@[l], span));
                    }
                    assert forall|x: Item| #[trigger] r0.fore.contains(x) implies !overlaps(
                        x,
                        span.begin,
                        span.end,
                    ) by {
                        let j = choose|j: int| 0 <= j < r0.fore.len() && r0.fore[j] == x;
                        assert(!overlaps(r0.fore[j], span.begin, span.end));
                    }
                }
                self.back.add(task.span, task.id);
                let ghost subs = on_cpu@.map_values(|x: Interval| (x.begin, x.end, task.id));
                let ghost b1 = self.back@;
                proof {
                    assert(self@.fore == r0.fore);
                    assert(subs.take(0) =~= Seq::<Item>::empty());
                }
                let mut k: usize = 0;
                while k < on_cpu.len()
                    invariant
                        task_wf(*task),
                        span == task.span,
                        task.on_cpu == Some(*on_cpu),
                        subs == on_cpu@.map_values(|x: Interval| (x.begin, x.end, task.id)),
                        self.fore.wf(),
                        self.back.wf(),
                        self.reserve.wf(),
                        self@.reserve == r0.reserve,
                        k <= on_cpu@.len(),
                        self.back@ == b1,
                        forall|x: Item| #[trigger]
                            b1.contains(x) == (r0.back.contains(x) || x == (
                                span.begin,
                                span.end,
                                task.id,
                            )),
                        forall|x: Item| #[trigger]
                            self@.fore.contains(x) == (r0.fore.contains(x) || subs.take(
                                k as int,
                            ).contains(x)),
                        forall|x: Item| #[trigger]
                            self@.fore.contains(x) ==> within(
                                Interval { begin: x.0, end: x.1 },
                                span,
                            ) && x.2 == task.id || !overlaps(x, span.begin, span.end),
                        forall|x: Item, l: int|
                            #[trigger] self@.fore.contains(x) && k <= l < on_cpu@.len() ==> !overlaps(
                                x,
                                (#[trigger] on_cpu@[l]).begin,
                                on_cpu@[l].end,
                            ),
                    decreases on_cpu.len() - k,
                {
                    let sub = on_cpu[k];
                    proof {
                        lemma_task_parts(*task, *on_cpu);
                        assert(within(on_cpu@[k as int], span));
                        assert forall|i: int|
                            0 <= i < self.fore@.len() implies !#[trigger] overlaps(
                                self.fore@[i],
                                sub.begin,
                                sub.end,
                            ) by {
                            assert(self@.fore.contains(self.fore@[i]));
                        }
                    }
                    let ghost f0 = self.fore@;
                    assert(f0 == self@.fore);
                    self.fore.add(sub, task.id);
                    proof {
                        assert(forall|x: Item| #[trigger] f0.contains(x) == (r0.fore.contains(x)
                            || subs.take(k as int).contains(x)));
                        assert(subs[k as int] == (sub.begin, sub.end, task.id));
                        let ghost tk = subs.take(k as int + 1);
                        assert(tk =~= subs.take(k as int).push(subs[k as int]));
                        assert forall|x: Item| #[trigger]
                            self@.fore.contains(x) == (r0.fore.contains(x) || tk.contains(x)) by {
                            if subs.take(k as int).contains(x) {
                                let j = choose|j: int|
                                    0 <= j < subs.take(k as int).len() && subs.take(k as int)[j] == x;
                                assert(tk[j] == x);
                            }
                            if tk.contains(x) {
                                let j = choose|j: int| 0 <= j < tk.len() && tk[j] == x;
                                if j < k {
                                    assert(subs.take(k as int)[j] == x);
                                }
                            }
                            if x == subs[k as int] {
                                assert(tk[k as int] == x);
                            }
                        }
                        assert forall|x: Item, l: int|
                            #[trigger] self@.fore.contains(x) && k + 1 <= l < on_cpu@.len()
                                implies !overlaps(
                                x,
                                (#[trigger] on_cpu@[l]).begin,
                                on_cpu@[l].end,
                            ) by {
                            if x == (sub.begin, sub.end, task.id) {
                                assert(!overlaps(
                                    (on_cpu@[k as int].begin, on_cpu@[k as int].end, task.id),
                                    on_cpu@[l].begin,
                                    on_cpu@[l].end,
                                ));
                            } else {
                                assert(f0.contains(x));
                            }
                        }
                    }
                    k = k + 1;
                }
                proof {
                    assert(subs.take(k as int) =~= subs);
                    assert(fore_items(*task) =~= subs);
                    assert forall|x: Item| #[trigger] back_items(*task).contains(x) == (x == (
                        span.begin,
                        span.end,
                        task.id,
                    )) by {
                        if x == (span.begin, span.end, task.id) {
                            assert(back_items(*task)[0] == x);
                        }
                    }
                    assert forall|x: Item, y: Item|
                        self@.fore.contains(x) && #[trigger] self@.back.contains(y) && x.2 != y.2
                            implies !#[trigger] overlaps(x, y.0, y.1) by {
                        if r0.back.contains(y) {
                            let j = choose|j: int| 0 <= j < r0.back.len() && r0.back[j] == y;
                            if !r0.fore.contains(x) {
                                assert(!overlaps(y, span.begin, span.end));
                            }
                        } else {
                            assert(y == (span.begin, span.end, task.id));
                            if r0.fore.contains(x) {
                                let j = choose|j: int| 0 <= j < r0.fore.len() && r0.fore[j] == x;
                                assert(!overlaps(r0.fore[j], span.begin, span.end));
                            }
                        }
                    }
                }
            },
            None => {
                self.fore.add(task.span, task.id);
                proof {
                    assert forall|x: Item| #[trigger]
                        self@.fore.contains(x) == (r0.fore.contains(x) || fore_items(*task).contains(x)) by {
                        if x == (span.begin, span.end, task.id) {
                            assert(fore_items(*task)[0] == x);
                        }
                    }
                    assert forall|x: Item, y: Item|
                        self@.fore.contains(x) && #[trigger] self@.back.contains(y) && x.2 != y.2
                            implies !#[trigger] overlaps(x, y.0, y.1) by {
                        if x == (span.begin, span.end, task.id) {
                            let j = choose|j: int| 0 <= j < r0.back.len() && r0.back[j] == y;
                            assert(!overlaps(r0.back[j], span.begin, span.end));
                        }
                    }
                    assert forall|x: Item| #[trigger]
                        self@.back.contains(x) == (r0.back.contains(x) || back_items(*task).contains(x)) by {}
                }
            },
        }
    }
}

#[derive(Clone, Copy, Debug, PartialEq, Eq, Structural, Hash)]
pub struct ThreadId(pub usize);

#[derive(Clone, Copy, Debug, PartialEq, Eq, Structural, Hash)]
pub struct RowId(pub usize);

#[derive(Clone, Copy, Debug, PartialEq, Eq, Structural, Hash)]
pub struct GroupId(pub u32);

/// Where a task was drawn: its thread, its row, and the row reserved for its children.
#[derive(Clone, Copy, Debug, PartialEq, Eq, Structural)]
pub struct RowAssignment {
    pub thread: ThreadId,
    pub row: RowId,
    pub children: Option<RowId>,
}

/// The rows of one root task and its descendants.
pub struct Thread {
    rows: Vec<Row>,
}

impl View for Thread {
    type V = Seq<RowView>;

    closed spec fn view(&self) -> Seq<RowView> {
        self.rows@.map_values(|r: Row| r@)
    }
}

pub open spec fn empty_row() -> RowView {
    RowView { fore: Seq::empty(), back: Seq::empty(), reserve: Seq::empty() }
}

/// Rows are only added, and what a row holds is only added to.
pub open spec fn grows(a: Seq<RowView>, b: Seq<RowView>) -> bool {
    &&& a.len() <= b.len()
    &&& forall|r: int, x: Item|
        0 <= r < a.len() && #[trigger] a[r].fore.contains(x) ==> b[r].fore.contains(x)
    &&& forall|r: int, x: Item|
        0 <= r < a.len() && #[trigger] a[r].back.contains(x) ==> b[r].back.contains(x)
    &&& forall|r: int, x: Item|
        0 <= r < a.len() && #[trigger] a[r].reserve.contains(x) ==> b[r].reserve.contains(x)
}

/// The main interval of a task, drawn in the foreground or the background of its row.
pub open spec fn main_item(t: Task) -> Item {
    (t.span.begin, t.span.end, t.id)
}

impl Thread {
    pub closed spec fn wf(&self) -> bool {
        forall|r: int| 0 <= r < self.rows@.len() ==> (#[trigger] self.rows@[r]).wf()
    }

    /// The first row on which `span` meets nothing, in any chunk; a new row if there is none.
    pub fn find_row(&mut self, span: Interval) -> (r: RowId)
        requires
            old(self).wf(),
        ensures
            final(self).wf(),
            r.0 <= old(self)@.len(),
            forall|k: int| 0 <= k < r.0 ==> row_overlaps(#[trigger] old(self)@[k], span),
            r.0 < old(self)@.len() ==> final(self)@ == old(self)@ && !row_overlaps(
                old(self)@[r.0 as int],
                span,
            ),
            r.0 == old(self)@.len() ==> final(self)@ == old(self)@.push(empty_row()),
    {
        let mut i: usize = 0;
        while i < self.rows.len()
            invariant
                self.wf(),
                self.rows == old(self).rows,
                i <= self.rows@.len(),
                forall|k: int| 0 <= k < i ==> row_overlaps(#[trigger] self@[k], span),
            decreases self.rows.len() - i,
        {
            let row = &self.rows[i];
            assert(row.wf());
            if !row.back.has_overlap(span) && !row.fore.has_overlap(span)
                && !row.reserve.has_overlap(span) {
                return RowId(i);
            }
            i = i + 1;
        }
        let ghost r0 = self@;
        self.rows.push(Row::new());
        proof {
            assert(self@ =~= r0.push(empty_row()));
        }
        RowId(i)
    }

    /// Whether `span` meets the foreground or the background of row `row`.
    fn row_conflicts(&self, row: RowId, span: Interval) -> (r: bool)
        requires
            self.wf(),
            row.0 < self@.len(),
        ensures
            r == (overlaps_any(self@[row.0 as int].fore, span.begin, span.end) || overlaps_any(
                self@[row.0 as int].back,
                span.begin,
                span.end,
            )),
    {
        let rw = &self.rows[row.0];
        assert(rw.wf());
        rw.fore.has_overlap(span) || rw.back.has_overlap(span)
    }

    fn add_task(&mut self, row: RowId, task: &Task)
        requires
            old(self).wf(),
            row.0 < old(self)@.len(),
            task_wf(*task),
            !overlaps_any(old(self)@[row.0 as int].fore, task.span.begin, task.span.end),
            !overlaps_any(old(self)@[row.0 as int].back, task.span.begin, task.span.end),
        ensures
            final(self).wf(),
            grows(old(self)@, final(self)@),
            final(self)@.len() == old(self)@.len(),
            forall|r: int| 0 <= r < old(self)@.len() && r != row.0 ==> #[trigger] final(self)@[r] == old(self)@[r],
            final(self)@[row.0 as int].reserve == old(self)@[row.0 as int].reserve,
            forall|x: Item| #[trigger]
                final(self)@[row.0 as int].fore.contains(x) == (old(self)@[row.0 as int].fore.contains(x)
                    || fore_items(*task).contains(x)),
            forall|x: Item| #[trigger]
                final(self)@[row.0 as int].back.contains(x) == (old(self)@[row.0 as int].back.contains(x)
                    || back_items(*task).contains(x)),
    {
        let ghost r0 = self@;
        assert(self.rows@[row.0 as int].wf());
        self.rows[row.0].add(task);
        proof {
            assert forall|r: int| 0 <= r < self.rows@.len() implies (#[trigger] self.rows@[r]).wf() by {
                if r != row.0 {
                    assert(self.rows@[r] == old(self).rows@[r]);
                }
            }
            assert forall|r: int, x: Item|
                0 <= r < r0.len() && #[trigger] r0[r].fore.contains(x) implies self@[r].fore.contains(
                x,
            ) by {
                if r != row.0 {
                    assert(self.rows@[r] == old(self).rows@[r]);
                }
            }
            assert forall|r: int, x: Item|
                0 <= r < r0.len() && #[trigger] r0[r].back.contains(x) implies self@[r].back.contains(
                x,
            ) by {
                if r != row.0 {
                    assert(self.rows@[r] == old(self).rows@[r]);
                }
            }
            assert forall|r: int, x: Item|
                0 <= r < r0.len() && #[trigger] r0[r].reserve.contains(x) implies self@[r].reserve.contains(
                x,
            ) by {
                if r != row.0 {
                    assert(self.rows@[r] == old(self).rows@[r]);
                }
            }
            assert forall|r: int| 0 <= r < r0.len() && r != row.0 implies #[trigger] self@[r] == r0[r] by {
                assert(self.rows@[r] == old(self).rows@[r]);
            }
        }
    }

    fn reserve(&mut self, row: RowId, task: &Task)
        requires
            old(self).wf(),
            row.0 < old(self)@.len(),
            task.span.begin <= task.span.end,
            !overlaps_any(old(self)@[row.0 as int].reserve, task.span.begin, task.span.end),
        ensures
            final(self).wf(),
            grows(old(self)@, final(self)@),
            final(self)@.len() == old(self)@.len(),
            forall|r: int| 0 <= r < old(self)@.len() && r != row.0 ==> #[trigger] final(self)@[r] == old(self)@[r],
            final(self)@[row.0 as int].fore == old(self)@[row.0 as int].fore,
            final(self)@[row.0 as int].back == old(self)@[row.0 as int].back,
            forall|x: Item| #[trigger]
                final(self)@[row.0 as int].reserve.contains(x) == (old(self)@[row.0 as int].reserve.contains(x)
                    || x == main_item(*task)),
    {
        let ghost r0 = self@;
        assert(self.rows@[row.0 as int].wf());
        self.rows[row.0].reserve.add(task.span, task.id);
        proof {
            assert forall|r: int| 0 <= r < self.rows@.len() implies (#[trigger] self.rows@[r]).wf() by {
                if r != row.0 {
                    assert(self.rows@[r] == old(self).rows@[r]);
                }
            }
            assert forall|r: int, x: Item|
                0 <= r < r0.len() && #[trigger] r0[r].fore.contains(x) implies self@[r].fore.contains(
                x,
            ) by {
                if r != row.0 {
                    assert(self.rows@[r] == old(self).rows@[r]);
                }
            }
            assert forall|r: int, x: Item|
                0 <= r < r0.len() && #[trigger] r0[r].back.contains(x) implies self@[r].back.contains(
                x,
            ) by {
                if r != row.0 {
                    assert(self.rows@[r] == old(self).rows@[r]);
                }
            }
            assert forall|r: int, x: Item|
                0 <= r < r0.len() && #[trigger] r0[r].reserve.contains(x) implies self@[r].reserve.contains(
                x,
            ) by {
                if r != row.0 {
                    assert(self.rows@[r] == old(self).rows@[r]);
                }
            }
            assert forall|r: int| 0 <= r < r0.len() && r != row.0 implies #[trigger] self@[r] == r0[r] by {
                assert(self.rows@[r] == old(self).rows@[r]);
            }
        }
    }
}

proof fn lemma_grows_trans(a: Seq<RowView>, b: Seq<RowView>, c: Seq<RowView>)
    requires
        grows(a, b),
        grows(b, c),
    ensures
        grows(a, c),
{
    assert forall|r: int, x: Item| 0 <= r < a.len() && #[trigger] a[r].fore.contains(x) implies c[r].fore.contains(x) by {
        assert(b[r].fore.contains(x));
    }
    assert forall|r: int, x: Item| 0 <= r < a.len() && #[trigger] a[r].back.contains(x) implies c[r].back.contains(x) by {
        assert(b[r].back.contains(x));
    }
    assert forall|r: int, x: Item| 0 <= r < a.len() && #[trigger] a[r].reserve.contains(x) implies c[r].reserve.contains(x) by {
        assert(b[r].reserve.contains(x));
    }
}

proof fn lemma_grows_push(a: Seq<RowView>, b: Seq<RowView>)
    requires
        b == a || b == a.push(empty_row()),
    ensures
        grows(a, b),
{
    assert forall|r: int, x: Item| 0 <= r < a.len() && #[trigger] a[r].fore.contains(x) implies b[r].fore.contains(x) by {
        assert(b[r] == a[r]);
    }
    assert forall|r: int, x: Item| 0 <= r < a.len() && #[trigger] a[r].back.contains(x) implies b[r].back.contains(x) by {
        assert(b[r] == a[r]);
    }
    assert forall|r: int, x: Item| 0 <= r < a.len() && #[trigger] a[r].reserve.contains(x) implies b[r].reserve.contains(x) by {
        assert(b[r] == a[r]);
    }
}

/// The rows of thread `th`.
pub open spec fn rows_of(threads: Seq<Thread>, th: int) -> Seq<RowView> {
    threads[th]@
}

/// The root of task `i`: its ancestor without a parent.
pub open spec fn root_of(tasks: Seq<Task>, i: int) -> int
    decreases i,
{
    if 0 <= i < tasks.len() {
        match tasks[i].parent {
            Some(p) => if 0 <= p.0 < i {
                root_of(tasks, p.0 as int)
            } else {
                i
            },
            None => i,
        }
    } else {
        i
    }
}

/// Where task `i`'s root stands among the roots, in order of ids.
pub open spec fn root_rank(tasks: Seq<Task>, i: int) -> int {
    root_count(tasks.take(root_of(tasks, i))) as int
}

/// Some task among the first `n` is a child of task `q`.
pub open spec fn child_before(tasks: Seq<Task>, q: int, n: int) -> bool {
    exists|j: int| 0 <= j < n && (#[trigger] tasks[j]).parent == Some(TaskId(q as u32))
}

/// Task `i` has a child.
pub open spec fn has_child(tasks: Seq<Task>, i: int) -> bool {
    child_before(tasks, i, tasks.len() as int)
}

/// `ch` is row `r`.
pub open spec fn reserved_at(ch: Option<RowId>, r: int) -> bool {
    match ch {
        Some(c) => c.0 == r,
        None => false,
    }
}

/// Row `r` of `t0`, or an empty row past its end.
pub open spec fn base_row(t0: Seq<RowView>, r: int) -> RowView {
    if r < t0.len() {
        t0[r]
    } else {
        empty_row()
    }
}

/// The rows `f` are the rows `t0`, perhaps with empty rows added, with `task` drawn on row
/// `row` and, when `ch` is a row, the task's span reserved on it.
pub open spec fn extends(t0: Seq<RowView>, f: Seq<RowView>, task: Task, row: int, ch: Option<RowId>) -> bool {
    &&& t0.len() <= f.len()
    &&& forall|r: int, x: Item|
        0 <= r < f.len() ==> (#[trigger] f[r].fore.contains(x) == (base_row(t0, r).fore.contains(x)
            || (r == row && fore_items(task).contains(x))))
    &&& forall|r: int, x: Item|
        0 <= r < f.len() ==> (#[trigger] f[r].back.contains(x) == (base_row(t0, r).back.contains(x)
            || (r == row && back_items(task).contains(x))))
    &&& forall|r: int, x: Item|
        0 <= r < f.len() ==> (#[trigger] f[r].reserve.contains(x) == (base_row(t0, r).reserve.contains(
            x,
        ) || (reserved_at(ch, r) && x == main_item(task))))
}

/// Interval `x` in the foreground of row `r` of thread `th` is drawn there by its own task.
pub open spec fn owns_fore(tasks: Seq<Task>, asg: Seq<RowAssignment>, th: int, r: int, x: Item) -> bool {
    let i = x.2.0 as int;
    &&& 0 <= i < asg.len()
    &&& asg[i].thread.0 == th
    &&& asg[i].row.0 == r
    &&& fore_items(tasks[i]).contains(x)
}

/// Interval `x` in the background of row `r` of thread `th` is drawn there by its own task.
pub open spec fn owns_back(tasks: Seq<Task>, asg: Seq<RowAssignment>, th: int, r: int, x: Item) -> bool {
    let i = x.2.0 as int;
    &&& 0 <= i < asg.len()
    &&& asg[i].thread.0 == th
    &&& asg[i].row.0 == r
    &&& back_items(tasks[i]).contains(x)
}

/// Interval `x` reserved on row `r` of thread `th` is the span of a task that reserved that row.
pub open spec fn owns_reserve(tasks: Seq<Task>, asg: Seq<RowAssignment>, th: int, r: int, x: Item) -> bool {
    let i = x.2.0 as int;
    &&& 0 <= i < asg.len()
    &&& asg[i].thread.0 == th
    &&& reserved_at(asg[i].children, r)
    &&& x == main_item(tasks[i])
}

/// The first tasks are placed as `asg` says, in the threads `tv`: each in the thread of its
/// root (thread `k` for the `k`-th root), a root on the first row of its thread; its on-CPU
/// parts (or its span) in the foreground of its row and its span in the background when it has
/// on-CPU parts; its span reserved on another row when it reserved one. Nothing else is drawn
/// or reserved.
pub open spec fn placement(tasks: Seq<Task>, tv: Seq<Seq<RowView>>, asg: Seq<RowAssignment>) -> bool {
    &&& forall|i: int|
        0 <= i < asg.len() ==> {
            let a = #[trigger] asg[i];
            let th = a.thread.0 as int;
            &&& 0 <= th < tv.len()
            &&& a.row.0 < tv[th].len()
            &&& th == root_rank(tasks, i)
            &&& (tasks[i].parent is None ==> a.row.0 == 0)
            &&& forall|x: Item| #[trigger]
                fore_items(tasks[i]).contains(x) ==> tv[th][a.row.0 as int].fore.contains(x)
            &&& forall|x: Item| #[trigger]
                back_items(tasks[i]).contains(x) ==> tv[th][a.row.0 as int].back.contains(x)
            &&& match a.children {
                Some(c) => c != a.row && c.0 < tv[th].len() && tv[th][c.0 as int].reserve.contains(
                    main_item(tasks[i]),
                ),
                None => true,
            }
        }
    &&& forall|th: int, r: int, x: Item|
        0 <= th < tv.len() && 0 <= r < tv[th].len() && #[trigger] tv[th][r].fore.contains(x)
            ==> owns_fore(tasks, asg, th, r, x)
    &&& forall|th: int, r: int, x: Item|
        0 <= th < tv.len() && 0 <= r < tv[th].len() && #[trigger] tv[th][r].back.contains(x)
            ==> owns_back(tasks, asg, th, r, x)
    &&& forall|th: int, r: int, x: Item|
        0 <= th < tv.len() && 0 <= r < tv[th].len() && #[trigger] tv[th][r].reserve.contains(x)
            ==> owns_reserve(tasks, asg, th, r, x)
}

/// The rows of every thread.
pub open spec fn views(threads: Seq<Thread>) -> Seq<Seq<RowView>> {
    threads.map_values(|t: Thread| t@)
}

proof fn lemma_items_of(t: Task, x: Item)
    ensures
        fore_items(t).contains(x) ==> x.2 == t.id,
        back_items(t).contains(x) ==> x == main_item(t),
{
    if fore_items(t).contains(x) {
        let k = choose|k: int| 0 <= k < fore_items(t).len() && fore_items(t)[k] == x;
    }
    if back_items(t).contains(x) {
        let k = choose|k: int| 0 <= k < back_items(t).len() && back_items(t)[k] == x;
    }
}

proof fn lemma_compose(
    t0: Seq<RowView>,
    a: Seq<RowView>,
    b: Seq<RowView>,
    c: Seq<RowView>,
    d: Seq<RowView>,
    task: Task,
    row: int,
    ch: Option<RowId>,
)
    requires
        a == t0 || a == t0.push(empty_row()),
        0 <= row < a.len(),
        b.len() == a.len(),
        forall|r: int| 0 <= r < a.len() && r != row ==> #[trigger] b[r] == a[r],
        b[row].reserve == a[row].reserve,
        forall|x: Item| #[trigger]
            b[row].fore.contains(x) == (a[row].fore.contains(x) || fore_items(task).contains(x)),
        forall|x: Item| #[trigger]
            b[row].back.contains(x) == (a[row].back.contains(x) || back_items(task).contains(x)),
        match ch {
            None => d == b,
            Some(cr) => {
                &&& (c == b || c == b.push(empty_row()))
                &&& cr.0 < c.len()
                &&& d.len() == c.len()
                &&& forall|r: int| 0 <= r < c.len() && r != cr.0 ==> #[trigger] d[r] == c[r]
                &&& d[cr.0 as int].fore == c[cr.0 as int].fore
                &&& d[cr.0 as int].back == c[cr.0 as int].back
                &&& forall|x: Item| #[trigger]
                    d[cr.0 as int].reserve.contains(x) == (c[cr.0 as int].reserve.contains(x) || x
                        == main_item(task))
            },
        },
    ensures
        extends(t0, d, task, row, ch),
{
    assert forall|r: int| 0 <= r < a.len() implies #[trigger] a[r] == base_row(t0, r) by {}
    assert forall|r: int| 0 <= r < a.len() implies (#[trigger] b[r]).reserve == base_row(t0, r).reserve
        by {
        if r != row {
            assert(b[r] == a[r]);
        }
    }
    assert forall|r: int| 0 <= r < d.len() implies {
        &&& (#[trigger] d[r]).fore == if r < a.len() { b[r].fore } else { Seq::<Item>::empty() }
        &&& d[r].back == if r < a.len() { b[r].back } else { Seq::<Item>::empty() }
        &&& forall|x: Item| #[trigger] d[r].reserve.contains(x) == ((if r < a.len() {
            b[r].reserve
        } else {
            Seq::<Item>::empty()
        }).contains(x) || (reserved_at(ch, r) && x == main_item(task)))
    } by {
        match ch {
            None => {},
            Some(cr) => {
                if r < a.len() {
                    assert(c[r] == b[r]);
                } else {
                    assert(c[r] == empty_row());
                }
                if r != cr.0 {
                    assert(d[r] == c[r]);
                }
            },
        }
    }
    assert forall|r: int, x: Item| 0 <= r < d.len() implies (#[trigger] d[r].reserve.contains(x) == (
    base_row(t0, r).reserve.contains(x) || (reserved_at(ch, r) && x == main_item(task)))) by {
        assert(d[r].reserve.contains(x) == ((if r < a.len() {
            b[r].reserve
        } else {
            Seq::<Item>::empty()
        }).contains(x) || (reserved_at(ch, r) && x == main_item(task))));
    }
    assert forall|r: int, x: Item| 0 <= r < d.len() implies (#[trigger] d[r].fore.contains(x) == (
    base_row(t0, r).fore.contains(x) || (r == row && fore_items(task).contains(x)))) by {
        assert(d[r].fore == if r < a.len() { b[r].fore } else { Seq::<Item>::empty() });
        if r < a.len() && r != row {
            assert(b[r] == a[r]);
        }
    }
    assert forall|r: int, x: Item| 0 <= r < d.len() implies (#[trigger] d[r].back.contains(x) == (
    base_row(t0, r).back.contains(x) || (r == row && back_items(task).contains(x)))) by {
        assert(d[r].back == if r < a.len() { b[r].back } else { Seq::<Item>::empty() });
        if r < a.len() && r != row {
            assert(b[r] == a[r]);
        }
    }
}

#[verifier::rlimit(60)]
#[verifier::spinoff_prover]
proof fn lemma_placement_step(
    tasks: Seq<Task>,
    tv: Seq<Seq<RowView>>,
    asg: Seq<RowAssignment>,
    tv2: Seq<Seq<RowView>>,
    a: RowAssignment,
    t0: Seq<RowView>,
)
    requires
        db_wf(tasks),
        asg.len() < tasks.len(),
        placement(tasks, tv, asg),
        a.thread.0 == root_rank(tasks, asg.len() as int),
        a.thread.0 <= tv.len(),
        a.thread.0 < tv.len() ==> t0 == tv[a.thread.0 as int] && tv2.len() == tv.len(),
        a.thread.0 == tv.len() ==> t0 == Seq::<RowView>::empty() && tv2.len() == tv.len() + 1,
        forall|x: int| 0 <= x < tv.len() && x != a.thread.0 ==> #[trigger] tv2[x] == tv[x],
        extends(t0, tv2[a.thread.0 as int], tasks[asg.len() as int], a.row.0 as int, a.children),
        a.row.0 < tv2[a.thread.0 as int].len(),
        tasks[asg.len() as int].parent is None ==> a.row.0 == 0,
        match a.children {
            Some(c) => c != a.row && c.0 < tv2[a.thread.0 as int].len(),
            None => true,
        },
    ensures
        placement(tasks, tv2, asg.push(a)),
{
    let k = asg.len() as int;
    let task = tasks[k];
    let th = a.thread.0 as int;
    let f = tv2[th];
    let asg2 = asg.push(a);
    assert(task.id.0 == k);
    assert forall|r: int| 0 <= r < t0.len() implies #[trigger] base_row(t0, r) == t0[r] by {}
    assert forall|i: int|
        0 <= i < asg2.len() implies {
            let b = #[trigger] asg2[i];
            let bt = b.thread.0 as int;
            &&& 0 <= bt < tv2.len()
            &&& b.row.0 < tv2[bt].len()
            &&& bt == root_rank(tasks, i)
            &&& (tasks[i].parent is None ==> b.row.0 == 0)
            &&& forall|x: Item| #[trigger]
                fore_items(tasks[i]).contains(x) ==> tv2[bt][b.row.0 as int].fore.contains(x)
            &&& forall|x: Item| #[trigger]
                back_items(tasks[i]).contains(x) ==> tv2[bt][b.row.0 as int].back.contains(x)
            &&& match b.children {
                Some(c) => c != b.row && c.0 < tv2[bt].len() && tv2[bt][c.0 as int].reserve.contains(
                    main_item(tasks[i]),
                ),
                None => true,
            }
        } by {
        if i < k {
            let b = asg[i];
            let bt = b.thread.0 as int;
            assert(asg2[i] == b);
            if bt == th {
                assert(t0 == tv[th]);
                assert forall|x: Item| #[trigger] fore_items(tasks[i]).contains(x) implies tv2[bt][b.row.0 as int].fore.contains(x) by {
                    assert(tv[bt][b.row.0 as int].fore.contains(x));
                }
                assert forall|x: Item| #[trigger] back_items(tasks[i]).contains(x) implies tv2[bt][b.row.0 as int].back.contains(x) by {
                    assert(tv[bt][b.row.0 as int].back.contains(x));
                }
                match b.children {
                    Some(c) => {
                        assert(tv[bt][c.0 as int].reserve.contains(main_item(tasks[i])));
                        assert(tv2[bt][c.0 as int].reserve.contains(main_item(tasks[i])));
                    },
                    None => {},
                }
            }
        } else {
            assert(asg2[i] == a);
            match a.children {
                Some(c) => {
                    assert(f[c.0 as int].reserve.contains(main_item(task)));
                },
                None => {},
            }
        }
    }
    assert forall|t: int, r: int, x: Item|
        0 <= t < tv2.len() && 0 <= r < tv2[t].len() && #[trigger] tv2[t][r].fore.contains(x)
            implies owns_fore(tasks, asg2, t, r, x) by {
        lemma_items_of(task, x);
        if t != th {
            assert(owns_fore(tasks, asg, t, r, x));
            assert(asg2[x.2.0 as int] == asg[x.2.0 as int]);
        } else if base_row(t0, r).fore.contains(x) {
            assert(r < t0.len() && t < tv.len());
            assert(owns_fore(tasks, asg, t, r, x));
            assert(asg2[x.2.0 as int] == asg[x.2.0 as int]);
        } else {
            assert(asg2[k] == a);
        }
    }
    assert forall|t: int, r: int, x: Item|
        0 <= t < tv2.len() && 0 <= r < tv2[t].len() && #[trigger] tv2[t][r].back.contains(x)
            implies owns_back(tasks, asg2, t, r, x) by {
        lemma_items_of(task, x);
        if t != th {
            assert(owns_back(tasks, asg, t, r, x));
            assert(asg2[x.2.0 as int] == asg[x.2.0 as int]);
        } else if base_row(t0, r).back.contains(x) {
            assert(r < t0.len() && t < tv.len());
            assert(owns_back(tasks, asg, t, r, x));
            assert(asg2[x.2.0 as int] == asg[x.2.0 as int]);
        } else {
            assert(asg2[k] == a);
        }
    }
    assert forall|t: int, r: int, x: Item|
        0 <= t < tv2.len() && 0 <= r < tv2[t].len() && #[trigger] tv2[t][r].reserve.contains(x)
            implies owns_reserve(tasks, asg2, t, r, x) by {
        if t != th {
            assert(owns_reserve(tasks, asg, t, r, x));
            assert(asg2[x.2.0 as int] == asg[x.2.0 as int]);
        } else if base_row(t0, r).reserve.contains(x) {
            assert(r < t0.len() && t < tv.len());
            assert(owns_reserve(tasks, asg, t, r, x));
            assert(asg2[x.2.0 as int] == asg[x.2.0 as int]);
        } else {
            assert(asg2[k] == a);
        }
    }
}

/// The database holds each task at the index of its id, a parent before its children, and
/// well-formed tasks.
pub open spec fn db_wf(tasks: Seq<Task>) -> bool {
    &&& tasks.len() <= u32::MAX
    &&& forall|i: int|
        0 <= i < tasks.len() ==> {
            &&& (#[trigger] tasks[i]).id.0 == i
            &&& task_wf(tasks[i])
            &&& match tasks[i].parent {
                Some(p) => p.0 < i,
                None => true,
            }
        }
}

/// The number of tasks without a parent.
pub open spec fn root_count(tasks: Seq<Task>) -> nat
    decreases tasks.len(),
{
    if tasks.len() == 0 {
        0
    } else {
        root_count(tasks.drop_last()) + if tasks.last().parent is None {
            1nat
        } else {
            0nat
        }
    }
}

/// Builds the layout of a database, one task at a time.
pub struct LayoutBuilder {
    children: Vec<Vec<TaskId>>,
    task_to_thread: Vec<ThreadId>,
    threads: Vec<Thread>,
    assignments: Vec<RowAssignment>,
}

impl LayoutBuilder {
    /// The builder has placed the first tasks of `tasks`, each as its assignment says, and
    /// reserved a row for the children of each that has some.
    pub closed spec fn wf(&self, tasks: Seq<Task>) -> bool {
        let k = self.assignments@.len();
        &&& self.task_to_thread@.len() == k
        &&& k <= tasks.len()
        &&& self.threads@.len() == root_count(tasks.take(k as int))
        &&& self.children@.len() == tasks.len()
        &&& forall|th: int| 0 <= th < self.threads@.len() ==> (#[trigger] self.threads@[th]).wf()
        &&& forall|i: int|
            0 <= i < k ==> {
                let a = #[trigger] self.assignments@[i];
                &&& a.thread == self.task_to_thread@[i]
                &&& a.children is Some == (self.children@[i]@.len() > 0)
            }
        &&& placement(tasks, views(self.threads@), self.assignments@)
    }

    /// Places the next task. A child goes to the row its parent reserved unless its span meets
    /// what is drawn there, then to the first row of the thread where it meets nothing; a root
    /// starts a thread of its own. A task with children then reserves its span on the first row
    /// where it meets nothing, for them.
    #[verifier::spinoff_prover]
    #[verifier::rlimit(100)]
    fn add(&mut self, task: &Task, tasks: Ghost<Seq<Task>>)
        requires
            old(self).wf(tasks@),
            db_wf(tasks@),
            old(self).assignments@.len() < tasks@.len(),
            *task == tasks@[old(self).assignments@.len() as int],
            match task.parent {
                Some(p) => old(self).children@[p.0 as int]@.len() > 0,
                None => true,
            },
        ensures
            final(self).wf(tasks@),
            final(self).assignments@.len() == old(self).assignments@.len() + 1,
            final(self).assignments@.drop_last() == old(self).assignments@,
            final(self).children == old(self).children,
            ({
                let a = final(self).assignments@.last();
                &&& a.children is Some == (old(self).children@[task.id.0 as int]@.len() > 0)
                &&& match a.children {
                    Some(c) => c != a.row && rows_of(final(self).threads@, a.thread.0 as int)[c.0 as int].reserve.contains(
                        main_item(*task),
                    ),
                    None => true,
                }
            }),
            ({
                let a = final(self).assignments@.last();
                match task.parent {
                    None => a.thread.0 == old(self).threads@.len() && a.row.0 == 0,
                    Some(p) => {
                        let c = old(self).assignments@[p.0 as int].children.unwrap();
                        let rows = rows_of(old(self).threads@, a.thread.0 as int);
                        &&& a.thread == old(self).assignments@[p.0 as int].thread
                        &&& if !overlaps_any(rows[c.0 as int].fore, task.span.begin, task.span.end)
                            && !overlaps_any(rows[c.0 as int].back, task.span.begin, task.span.end) {
                            a.row == c
                        } else {
                            &&& a.row.0 <= rows.len()
                            &&& forall|k: int| 0 <= k < a.row.0 ==> row_overlaps(#[trigger] rows[k], task.span)
                            &&& a.row.0 < rows.len() ==> !row_overlaps(rows[a.row.0 as int], task.span)
                        }
                    },
                }
            }),
    {
        proof {
            assert(tasks@[old(self).assignments@.len() as int].id.0 == old(self).assignments@.len());
        }
        let ghost k = self.assignments@.len() as int;
        let ghost th0 = self.threads@;
        let thread_id = match task.parent {
            Some(p) => self.task_to_thread[p.0 as usize],
            None => {
                let t = ThreadId(self.threads.len());
                self.threads.push(Thread { rows: Vec::new() });
                proof {
                    assert(self.threads@[t.0 as int]@ =~= Seq::<RowView>::empty());
                }
                t
            },
        };
        let ghost th1 = self.threads@;
        proof {
            match task.parent {
                Some(p) => {
                    let a = self.assignments@[p.0 as int];
                    assert(views(th0)[a.thread.0 as int] == rows_of(th0, a.thread.0 as int));
                    assert(root_of(tasks@, k) == root_of(tasks@, p.0 as int));
                },
                None => {
                    assert(root_of(tasks@, k) == k);
                },
            }
            assert(thread_id.0 == root_rank(tasks@, k));
            assert(self.threads@[thread_id.0 as int].wf());
        }
        self.task_to_thread.push(thread_id);
        let t = thread_id.0;
        let row = match task.parent {
            Some(p) => {
                let row_id = self.assignments[p.0 as usize].children.unwrap();
                if self.threads[t].row_conflicts(row_id, task.span) {
                    self.threads[t].find_row(task.span)
                } else {
                    row_id
                }
            },
            None => self.threads[t].find_row(task.span),
        };
        let ghost th2 = self.threads@;
        proof {
            lemma_grows_push(th1[t as int]@, th2[t as int]@);
        }
        self.threads[t].add_task(row, task);
        let ghost th3 = self.threads@;
        let ghost mut th35 = th3;
        let children = if self.children[task.id.0 as usize].len() > 0 {
            let child_row = self.threads[t].find_row(task.span);
            proof {
                th35 = self.threads@;
            }
            proof {
                lemma_grows_push(th3[t as int]@, th35[t as int]@);
            }
            self.threads[t].reserve(child_row, task);
            proof {
                lemma_grows_trans(th3[t as int]@, th35[t as int]@, self.threads@[t as int]@);
            }
            Some(child_row)
        } else {
            proof {
                lemma_grows_push(th3[t as int]@, self.threads@[t as int]@);
            }
            None
        };
        let ghost a0 = self.assignments@;
        let a = RowAssignment { thread: thread_id, row, children };
        proof {
            let th4 = self.threads@;
            let t0 = th1[t as int]@;
            let mi = main_item(*task);
            assert(task.span.begin <= task.span.end);
            if t < th0.len() {
                assert(th1[t as int] == th0[t as int]);
            } else {
                assert(t0 =~= Seq::<RowView>::empty());
            }
            // the task now overlaps its own row, so the row reserved for its children is another
            if task.on_cpu is Some {
                    assert(back_items(*task)[0] == mi);
                    assert(th3[t as int]@[row.0 as int].back.contains(mi));
                    let j = choose|j: int| 0 <= j < th3[t as int]@[row.0 as int].back.len()
                        && th3[t as int]@[row.0 as int].back[j] == mi;
                    assert(overlaps(th3[t as int]@[row.0 as int].back[j], task.span.begin, task.span.end));
            } else {
                    assert(fore_items(*task)[0] == mi);
                    assert(th3[t as int]@[row.0 as int].fore.contains(mi));
                    let j = choose|j: int| 0 <= j < th3[t as int]@[row.0 as int].fore.len()
                        && th3[t as int]@[row.0 as int].fore[j] == mi;
                    assert(overlaps(th3[t as int]@[row.0 as int].fore[j], task.span.begin, task.span.end));
            }
            assert(row_overlaps(th3[t as int]@[row.0 as int], task.span));
            lemma_compose(t0, th2[t as int]@, th3[t as int]@, th35[t as int]@, th4[t as int]@, *task, row.0 as int, children);
            assert forall|x: int| 0 <= x < th0.len() && x != t implies #[trigger] views(th4)[x] == views(th0)[x] by {
                assert(th4[x] == th0[x]);
            }
            assert forall|x: int| 0 <= x < th4.len() implies (#[trigger] th4[x]).wf() by {
                if x != t {
                    assert(th4[x] == th0[x]);
                }
            }
            assert(tasks@[k] == *task);
            lemma_placement_step(tasks@, views(th0), a0, views(th4), a, t0);
        }
        self.assignments.push(a);
        proof {
            assert(tasks@.take(k + 1).drop_last() =~= tasks@.take(k));
            assert(self.assignments@.drop_last() =~= a0);
            assert(self.assignments@ == a0.push(a));
            assert(views(self.threads@)[t as int] == rows_of(self.threads@, t as int));
        }
    }
}

/// The threads of a layout, and where each task was placed.
pub ghost struct LayoutView {
    pub threads: Seq<Seq<RowView>>,
    pub assignments: Seq<RowAssignment>,
}

/// The threads of a database, each a list of rows, and the row assignment of each task.
pub struct Layout {
    threads: Vec<Thread>,
    assignments: Vec<RowAssignment>,
}

impl View for Layout {
    type V = LayoutView;

    closed spec fn view(&self) -> LayoutView {
        LayoutView { threads: views(self.threads@), assignments: self.assignments@ }
    }
}

impl Layout {
    /// Lays out every task of `db`, in the order of their ids: thread `k` holds the `k`-th root
    /// and its descendants; each task is drawn on one row of its root's thread, a root on the
    /// first; a task with children reserves its span on another row; no two tasks drawn on one
    /// row meet there.
    #[verifier::spinoff_prover]
    pub fn new(db: &Database) -> (r: Layout)
        requires
            db_wf(db.tasks@),
        ensures
            r@.threads.len() == root_count(db.tasks@),
            r@.assignments.len() == db.tasks@.len(),
            forall|th: int, k: int|
                0 <= th < r@.threads.len() && 0 <= k < r@.threads[th].len() ==> row_ok(
                    #[trigger] r@.threads[th][k],
                ),
            placement(db.tasks@, r@.threads, r@.assignments),
            forall|i: int|
                0 <= i < db.tasks@.len() ==> ((#[trigger] r@.assignments[i]).children is Some
                    == has_child(db.tasks@, i)),
    {
        let n = db.tasks.len();
        let ghost tasks = db.tasks@;
        let mut children: Vec<Vec<TaskId>> = Vec::new();
        let mut i: usize = 0;
        while i < n
            invariant
                n == tasks.len(),
                tasks == db.tasks@,
                db_wf(tasks),
                i <= n,
                children@.len() == i,
                forall|j: int|
                    0 <= j < i ==> match (#[trigger] tasks[j]).parent {
                        Some(p) => children@[p.0 as int]@.len() > 0,
                        None => true,
                    },
                forall|q: int|
                    0 <= q < i ==> ((#[trigger] children@[q])@.len() > 0) == child_before(
                        tasks,
                        q,
                        i as int,
                    ),
            decreases n - i,
        {
            let ghost c0 = children@;
            let empty: Vec<TaskId> = Vec::new();
            children.push(empty);
            let ghost pushed = children@;
            let task = &db.tasks[i];
            assert(tasks[i as int].id.0 == i);
            assert(pushed[i as int]@.len() == 0);
            match task.parent {
                Some(p) => {
                    children[p.0 as usize].push(task.id);
                },
                None => {},
            }
            proof {
                assert forall|j: int|
                    0 <= j < i + 1 implies match (#[trigger] tasks[j]).parent {
                        Some(p) => children@[p.0 as int]@.len() > 0,
                        None => true,
                    } by {
                    if j < i {
                        match tasks[j].parent {
                            Some(p) => {
                                assert(c0[p.0 as int]@.len() > 0);
                                assert(children@[p.0 as int]@.len() >= c0[p.0 as int]@.len());
                            },
                            None => {},
                        }
                    }
                }
                assert forall|q: int|
                    0 <= q < i + 1 implies ((#[trigger] children@[q])@.len() > 0) == child_before(
                        tasks,
                        q,
                        i + 1,
                    ) by {
                    if child_before(tasks, q, i + 1) {
                        let j = choose|j: int|
                            0 <= j < i + 1 && (#[trigger] tasks[j]).parent == Some(TaskId(q as u32));
                        if j < i {
                            assert(child_before(tasks, q, i as int));
                        }
                    }
                    if child_before(tasks, q, i as int) {
                        let j = choose|j: int|
                            0 <= j < i && (#[trigger] tasks[j]).parent == Some(TaskId(q as u32));
                        assert(child_before(tasks, q, i + 1));
                    }
                    if q < i {
                        match tasks[i as int].parent {
                            Some(p) => {
                                if p.0 == q {
                                    assert(tasks[i as int].parent == Some(TaskId(q as u32)));
                                } else {
                                    assert(children@[q] == c0[q]);
                                }
                            },
                            None => {
                                assert(children@[q] == c0[q]);
                            },
                        }
                    } else {
                        assert(children@[q] == pushed[q]);
                    }
                }
            }
            i = i + 1;
        }
        let ghost final_children = children@;
        let mut b = LayoutBuilder {
            children,
            task_to_thread: Vec::new(),
            threads: Vec::new(),
            assignments: Vec::new(),
        };
        proof {
            assert(views(b.threads@) =~= Seq::<Seq<RowView>>::empty());
        }
        let mut i: usize = 0;
        while i < n
            invariant
                n == tasks.len(),
                tasks == db.tasks@,
                db_wf(tasks),
                i <= n,
                b.wf(tasks),
                b.assignments@.len() == i,
                b.children@ == final_children,
                final_children.len() == n,
                forall|j: int|
                    0 <= j < n ==> match (#[trigger] tasks[j]).parent {
                        Some(p) => final_children[p.0 as int]@.len() > 0,
                        None => true,
                    },
                forall|q: int|
                    0 <= q < n ==> ((#[trigger] final_children[q])@.len() > 0) == has_child(tasks, q),
            decreases n - i,
        {
            let task = &db.tasks[i];
            b.add(task, Ghost(tasks));
            i = i + 1;
        }
        let r = Layout { threads: b.threads, assignments: b.assignments };
        proof {
            assert(tasks.take(n as int) =~= tasks);
            assert forall|th: int, k: int|
                0 <= th < r@.threads.len() && 0 <= k < r@.threads[th].len() implies row_ok(
                #[trigger] r@.threads[th][k],
            ) by {
                assert(b.threads@[th].wf());
                assert(b.threads@[th].rows@[k].wf());
            }
            assert forall|j: int| 0 <= j < tasks.len() implies ((#[trigger] r@.assignments[j]).children
                is Some == has_child(tasks, j)) by {
                assert(b.assignments@[j].children is Some == (final_children[j]@.len() > 0));
            }
        }
        r
    }

    /// The number of threads.
    pub fn thread_count(&self) -> (r: usize)
        ensures
            r == self@.threads.len(),
    {
        self.threads.len()
    }

    /// The number of rows of thread `th`.
    pub fn row_count(&self, th: usize) -> (r: usize)
        requires
            th < self@.threads.len(),
        ensures
            r == self@.threads[th as int].len(),
    {
        self.threads[th].rows.len()
    }

    /// Where task `i` was placed.
    pub fn assignment(&self, i: usize) -> (r: RowAssignment)
        requires
            i < self@.assignments.len(),
        ensures
            r == self@.assignments[i as int],
    {
        self.assignments[i]
    }
}

} // verus!
