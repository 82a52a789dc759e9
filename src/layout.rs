//! Row layout by a sweep line per ancestor path.
use vstd::prelude::*;

use crate::event::Timestamp;
use crate::order::{sort_by_time, sorted_by_time, Timed};
use crate::spans::{Span, SpanView};

verus! {

broadcast use vstd::std_specs::hash::group_hash_axioms;

impl Timed for Span {
    open spec fn time(&self) -> int {
        self.start.key()
    }

    fn time_key(&self) -> (r: u128) {
        self.start.time_key()
    }
}

/// A span with the row it is drawn on.
pub struct LaidSpan {
    pub span: Span,
    pub row: u16,
}

/// Spans in ascending order of start, each with its row, and the number of rows.
pub struct Layout {
    pub spans: Vec<LaidSpan>,
    pub total_rows: u16,
}

/// The state of one row of a sweep: free for reuse, or taken until `end`.
pub ghost struct RowState {
    pub free: bool,
    pub end: Timestamp,
}

/// A row that was taken and whose span has ended by `start`.
pub open spec fn released(row: RowState, start: Timestamp) -> bool {
    !row.free && row.end.key() <= start.key()
}

/// A row that a span starting at `start` may take.
pub open spec fn available(row: RowState, start: Timestamp) -> bool {
    row.free || released(row, start)
}

/// What `Sweep::allocate` does: sweep `s` becomes `t`, and a span from `start` to `end`
/// gets `row`.
pub open spec fn allocated(s: Seq<RowState>, t: Seq<RowState>, row: int, start: Timestamp, end: Timestamp) -> bool {
    if exists|x: int| 0 <= x < s.len() && available(#[trigger] s[x], start) {
        &&& 0 <= row < s.len()
        &&& available(s[row], start)
        &&& forall|x: int| 0 <= x < row ==> !available(#[trigger] s[x], start)
        &&& t.len() == s.len()
        &&& t[row] == RowState { free: false, end }
        &&& forall|x: int|
            0 <= x < s.len() && x != row ==> #[trigger] t[x] == RowState {
                free: available(s[x], start),
                end: s[x].end,
            }
    } else {
        &&& row == s.len()
        &&& t == s.push(RowState { free: false, end })
    }
}

/// A sweep-line row allocator. Rows `0..ends.len()` have been used; `free[r]` says whether
/// row `r` is free, and `ends[r]` holds the end of the span that took it last.
pub struct Sweep {
    ends: Vec<Timestamp>,
    free: Vec<bool>,
}

impl View for Sweep {
    type V = Seq<RowState>;

    closed spec fn view(&self) -> Seq<RowState> {
        Seq::new(self.ends@.len(), |r: int| RowState { free: self.free@[r], end: self.ends@[r] })
    }
}

impl Sweep {
    pub closed spec fn wf(&self) -> bool {
        self.ends@.len() == self.free@.len()
    }

    pub fn new() -> (r: Sweep)
        ensures
            r.wf(),
            r@ == Seq::<RowState>::empty(),
    {
        let r = Sweep { ends: Vec::new(), free: Vec::new() };
        assert(r@ =~= Seq::<RowState>::empty());
        r
    }

    /// Gives `sp` a row. First every taken row whose span has ended by `sp`'s start is freed;
    /// then the smallest free row is taken, or a new row when none is free.
    pub fn allocate(&mut self, sp: &Span) -> (row: u16)
        requires
            old(self).wf(),
            old(self)@.len() < 65535,
        ensures
            final(self).wf(),
            allocated(old(self)@, final(self)@, row as int, sp.start, sp.end),
            row == old(self)@.len() ==> forall|x: int|
                0 <= x < old(self)@.len() ==> !(#[trigger] old(self)@[x]).free && old(self)@[x].end.key()
                    > sp.start.key(),
    {
        let ghost s = self@;
        let mut i: usize = 0;
        while i < self.ends.len()
            invariant
                self.wf(),
                self.ends@ == old(self).ends@,
                s == old(self)@,
                s.len() == self.ends@.len(),
                i <= self.ends@.len(),
                forall|x: int| 0 <= x < i ==> self.free@[x] == available(#[trigger] s[x], sp.start),
                forall|x: int| i <= x < self.free@.len() ==> self.free@[x] == (#[trigger] s[x]).free,
            decreases self.ends.len() - i,
        {
            if !self.free[i] && self.ends[i].is_at_or_before(&sp.start) {
                self.free.set(i, true);
            }
            i = i + 1;
        }
        let mut j: usize = 0;
        while j < self.free.len()
            invariant
                self.wf(),
                self.ends@ == old(self).ends@,
                j <= self.free@.len(),
                s == old(self)@,
                s.len() < 65535,
                self.free@.len() == s.len(),
                self.ends@.len() == s.len(),
                forall|x: int| 0 <= x < s.len() ==> self.free@[x] == available(#[trigger] s[x], sp.start),
                forall|x: int| 0 <= x < j ==> !available(#[trigger] s[x], sp.start),
            decreases self.free.len() - j,
        {
            if self.free[j] {
                self.free.set(j, false);
                self.ends.set(j, sp.end);
                proof {
                    let t = self@;
                    assert(available(s[j as int], sp.start));
                    assert(t.len() == s.len());
                    assert(t[j as int] == RowState { free: false, end: sp.end });
                    assert forall|x: int| 0 <= x < s.len() && x != j implies #[trigger] t[x]
                        == RowState { free: available(s[x], sp.start), end: s[x].end } by {}
                }
                return j as u16;
            }
            j = j + 1;
        }
        self.ends.push(sp.end);
        self.free.push(false);
        proof {
            assert(self@ =~= s.push(RowState { free: false, end: sp.end }));
        }
        j as u16
    }
}

/// The spans of the layout, in order.
pub open spec fn laid_spans(l: Seq<LaidSpan>) -> Seq<Span> {
    l.map_values(|x: LaidSpan| x.span)
}

/// Two spans of one row never overlap: the earlier one ends by the time the later one starts.
pub open spec fn rows_disjoint(l: Seq<LaidSpan>) -> bool {
    forall|i: int, j: int|
        0 <= i < j < l.len() && #[trigger] l[i].row == #[trigger] l[j].row ==> l[i].span.end.key()
            <= l[j].span.start.key()
}

/// Whether some span of the layout stands on row `q`.
pub open spec fn row_used(l: Seq<LaidSpan>, q: int) -> bool {
    exists|i: int| 0 <= i < l.len() && (#[trigger] l[i]).row == q
}

/// Rows are numbered densely, in the order in which they first appear.
pub open spec fn rows_dense(l: Seq<LaidSpan>, total: int) -> bool {
    &&& forall|i: int| 0 <= i < l.len() ==> (#[trigger] l[i]).row < total
    &&& forall|q: int| 0 <= q < total ==> #[trigger] row_used(l, q)
    &&& forall|j: int|
        0 <= j < l.len() && (forall|i: int| 0 <= i < j ==> l[i].row != (#[trigger] l[j]).row)
            ==> forall|i: int| 0 <= i < j ==> (#[trigger] l[i]).row < l[j].row
}

/// The bookkeeping of `lay_out` after some spans: the row (path) of each span, the sweep and the
/// paths of each scope (scope 0 holds the roots, scope `p + 1` the children of path `p`), and
/// for each path its scope, its row in that scope and the last span placed on it.
pub ghost struct LayoutModel {
    pub rows: Seq<u16>,
    pub sw: Seq<Seq<RowState>>,
    pub sr: Seq<Seq<usize>>,
    pub ps: Seq<int>,
    pub pr: Seq<int>,
    pub last: Seq<int>,
    pub np: int,
}

pub open spec fn state_of(m: LayoutModel, p: int) -> RowState {
    m.sw[m.ps[p]][m.pr[p]]
}

pub open spec fn inv_shape(k: int, m: LayoutModel) -> bool {
    &&& m.sw.len() == m.np + 1
    &&& m.sr.len() == m.np + 1
    &&& m.ps.len() == m.np
    &&& m.pr.len() == m.np
    &&& m.last.len() == m.np
    &&& 0 <= m.np <= k
    &&& m.rows.len() == k
}

pub open spec fn inv_scopes(m: LayoutModel) -> bool {
    &&& forall|sc: int|
        0 <= sc <= m.np ==> (#[trigger] m.sw[sc]).len() == m.sr[sc].len() && m.sw[sc].len() <= m.np
    &&& forall|sc: int, x: int|
        0 <= sc <= m.np && 0 <= x < m.sr[sc].len() ==> {
            let p = #[trigger] m.sr[sc][x];
            &&& p < m.np
            &&& m.ps[p as int] == sc
            &&& m.pr[p as int] == x
        }
}

pub open spec fn inv_paths(sp: Seq<Span>, k: int, m: LayoutModel) -> bool {
    forall|p: int|
        0 <= p < m.np ==> {
            &&& 0 <= #[trigger] m.ps[p] <= m.np
            &&& 0 <= m.pr[p] < m.sr[m.ps[p]].len()
            &&& m.sr[m.ps[p]][m.pr[p]] == p
            &&& 0 <= m.last[p] < k
            &&& m.rows[m.last[p]] == p
            &&& !state_of(m, p).free ==> state_of(m, p).end == sp[m.last[p]].end
        }
}

pub open spec fn inv_rows(k: int, m: LayoutModel) -> bool {
    forall|i: int| 0 <= i < k ==> (#[trigger] m.rows[i]) < m.np && i <= m.last[m.rows[i] as int]
}

pub open spec fn inv_free(sp: Seq<Span>, k: int, m: LayoutModel) -> bool {
    k < sp.len() ==> forall|i: int|
        0 <= i < k && (#[trigger] state_of(m, m.rows[i] as int)).free ==> sp[i].end.key()
            <= sp[k].start.key()
}

pub open spec fn inv_disjoint(sp: Seq<Span>, k: int, m: LayoutModel) -> bool {
    forall|i: int, j: int|
        0 <= i < j < k && #[trigger] m.rows[i] == #[trigger] m.rows[j] ==> sp[i].end.key()
            <= sp[j].start.key()
}

pub open spec fn inv_dense(k: int, m: LayoutModel) -> bool {
    forall|j: int|
        0 <= j < k && (forall|i: int| 0 <= i < j ==> m.rows[i] != (#[trigger] m.rows[j])) ==> forall|
            i: int,
        |
            0 <= i < j ==> (#[trigger] m.rows[i]) < m.rows[j]
}

pub open spec fn layout_inv(sp: Seq<Span>, k: int, m: LayoutModel) -> bool {
    &&& inv_shape(k, m)
    &&& inv_scopes(m)
    &&& inv_paths(sp, k, m)
    &&& inv_rows(k, m)
    &&& inv_free(sp, k, m)
    &&& inv_disjoint(sp, k, m)
    &&& inv_dense(k, m)
}

/// The bookkeeping after span `k` got row `row` of scope `scope`, whose sweep became `t`.
pub open spec fn layout_step(m: LayoutModel, k: int, scope: int, row: int, t: Seq<RowState>) -> LayoutModel {
    if row < m.sw[scope].len() {
        LayoutModel {
            rows: m.rows.push(m.sr[scope][row] as u16),
            sw: m.sw.update(scope, t),
            last: m.last.update(m.sr[scope][row] as int, k),
            ..m
        }
    } else {
        LayoutModel {
            rows: m.rows.push(m.np as u16),
            sw: m.sw.update(scope, t).push(Seq::empty()),
            sr: m.sr.update(scope, m.sr[scope].push(m.np as usize)).push(Seq::empty()),
            ps: m.ps.push(scope),
            pr: m.pr.push(row),
            last: m.last.push(k),
            np: m.np + 1,
        }
    }
}

#[verifier::rlimit(40)]
#[verifier::spinoff_prover]
proof fn lemma_layout_step(sp: Seq<Span>, k: int, m: LayoutModel, scope: int, row: int, t: Seq<RowState>)
    requires
        sorted_by_time(sp),
        sp.len() < 65535,
        0 <= k < sp.len(),
        layout_inv(sp, k, m),
        0 <= scope <= m.np,
        allocated(m.sw[scope], t, row, sp[k].start, sp[k].end),
    ensures
        layout_inv(sp, k + 1, layout_step(m, k, scope, row, t)),
{
    let m2 = layout_step(m, k, scope, row, t);
    let s = m.sw[scope];
    let fresh = row >= s.len();
    let path = if fresh { m.np } else { m.sr[scope][row] as int };
    assert(t[row] == RowState { free: false, end: sp[k].end });
    assert(m2.sw.len() == m2.np + 1);
    assert(m2.sr.len() == m2.np + 1);
    assert(m2.rows.len() == k + 1);
    assert(m2.rows[k] == path);
    assert forall|i: int| 0 <= i < k implies m2.rows[i] == m.rows[i] by {}
    if !fresh {
        assert(m.ps[path] == scope && m.pr[path] == row);
    }
    assert forall|sc: int|
        0 <= sc <= m2.np implies (#[trigger] m2.sw[sc]).len() == m2.sr[sc].len() && m2.sw[sc].len()
        <= m2.np by {}
    assert forall|sc: int, x: int|
        0 <= sc <= m2.np && 0 <= x < m2.sr[sc].len() implies {
            let p = #[trigger] m2.sr[sc][x];
            &&& p < m2.np
            &&& m2.ps[p as int] == sc
            &&& m2.pr[p as int] == x
        } by {
        if sc <= m.np && !(fresh && sc == scope && x == row) {
            assert(m2.sr[sc][x] == m.sr[sc][x]);
        }
    }
    assert forall|i: int|
        0 <= i < k + 1 implies (#[trigger] m2.rows[i]) < m2.np && i <= m2.last[m2.rows[i] as int] by {}
    if k + 1 < sp.len() {
        assert forall|i: int|
            0 <= i < k + 1 && (#[trigger] state_of(m2, m2.rows[i] as int)).free implies sp[i].end.key()
            <= sp[k + 1].start.key() by {
            assert(sp[k].start.key() <= sp[k + 1].start.key());
            let q = m2.rows[i] as int;
            if i < k {
                assert(m.sr[m.ps[q]][m.pr[q]] == q);
                if m.ps[q] == scope && q != path {
                    assert(m.pr[q] != row);
                }
                if !state_of(m, q).free {
                    assert(i <= m.last[q]);
                    if i < m.last[q] {
                        assert(sp[m.last[q]].start.key() <= sp[k].start.key());
                    }
                }
            }
        }
    }
    assert forall|i: int, j: int|
        0 <= i < j < k + 1 && #[trigger] m2.rows[i] == #[trigger] m2.rows[j] implies sp[i].end.key()
        <= sp[j].start.key() by {
        if j == k && !fresh {
            assert(m.rows[i] == path);
            assert(state_of(m, path) == s[row]);
            if !s[row].free {
                assert(i <= m.last[path]);
                if i < m.last[path] {
                    assert(sp[m.last[path]].start.key() <= sp[k].start.key());
                }
            }
        }
    }
    assert forall|j: int|
        0 <= j < k + 1 && (forall|i: int| 0 <= i < j ==> m2.rows[i] != (#[trigger] m2.rows[j])) implies forall|
        i: int,
    |
        0 <= i < j ==> (#[trigger] m2.rows[i]) < m2.rows[j] by {
        if j == k && !fresh {
            assert(m2.rows[m.last[path]] == m2.rows[j]);
        }
    }
    assert(inv_shape(k + 1, m2));
    assert(inv_scopes(m2));
    assert(inv_paths(sp, k + 1, m2)) by {
        assert forall|q: int|
            0 <= q < m2.np implies {
                &&& 0 <= #[trigger] m2.ps[q] <= m2.np
                &&& 0 <= m2.pr[q] < m2.sr[m2.ps[q]].len()
                &&& m2.sr[m2.ps[q]][m2.pr[q]] == q
                &&& 0 <= m2.last[q] < k + 1
                &&& m2.rows[m2.last[q]] == q
                &&& !state_of(m2, q).free ==> state_of(m2, q).end == sp[m2.last[q]].end
            } by {
            if q < m.np {
                assert(m.sr[m.ps[q]][m.pr[q]] == q);
                if q == path {
                    assert(state_of(m2, q) == t[row]);
                } else if m.ps[q] == scope {
                    let x = m.pr[q];
                    assert(x != row);
                    assert(state_of(m2, q) == t[x]);
                    assert(state_of(m, q) == s[x]);
                } else {
                    assert(state_of(m2, q) == state_of(m, q));
                }
            } else {
                assert(state_of(m2, q) == t[row]);
            }
        }
    }
    assert(inv_rows(k + 1, m2));
    assert(inv_free(sp, k + 1, m2));
    assert(inv_disjoint(sp, k + 1, m2));
    assert(inv_dense(k + 1, m2));
}

/// One allocation as a function: the sweep after it, and the row taken.
pub open spec fn alloc_result(s: Seq<RowState>, start: Timestamp, end: Timestamp) -> (Seq<RowState>, int) {
    if exists|x: int| 0 <= x < s.len() && available(#[trigger] s[x], start) {
        let row = choose|x: int|
            0 <= x < s.len() && available(#[trigger] s[x], start) && forall|y: int|
                0 <= y < x ==> !available(#[trigger] s[y], start);
        (
            Seq::new(
                s.len(),
                |x: int|
                    if x == row {
                        RowState { free: false, end }
                    } else {
                        RowState { free: available(s[x], start), end: s[x].end }
                    },
            ),
            row,
        )
    } else {
        (s.push(RowState { free: false, end }), s.len() as int)
    }
}

proof fn lemma_alloc_result(s: Seq<RowState>, t: Seq<RowState>, row: int, start: Timestamp, end: Timestamp)
    requires
        allocated(s, t, row, start, end),
    ensures
        alloc_result(s, start, end) == (t, row),
{
    if exists|x: int| 0 <= x < s.len() && available(#[trigger] s[x], start) {
        assert(0 <= row < s.len() && available(s[row], start) && forall|y: int|
            0 <= y < row ==> !available(#[trigger] s[y], start));
        let c = choose|x: int|
            0 <= x < s.len() && available(#[trigger] s[x], start) && forall|y: int|
                0 <= y < x ==> !available(#[trigger] s[y], start);
        if c < row {
            assert(!available(s[c], start));
        } else if row < c {
            assert(!available(s[row], start));
        }
        assert(c == row);
        assert(alloc_result(s, start, end).0 =~= t);
    }
}

/// The path of the row taken in the sweep of `scope`: the one that row already has, or a new
/// one.
pub open spec fn path_of(m: LayoutModel, scope: int, row: int) -> int {
    if row < m.sw[scope].len() {
        m.sr[scope][row] as int
    } else {
        m.np
    }
}

pub open spec fn initial_model() -> LayoutModel {
    LayoutModel {
        rows: Seq::empty(),
        sw: seq![Seq::empty()],
        sr: seq![Seq::empty()],
        ps: Seq::empty(),
        pr: Seq::empty(),
        last: Seq::empty(),
        np: 0,
    }
}

/// The bookkeeping after the first `k` spans, and the path given to each span id.
pub ghost struct SweepLayout {
    pub m: LayoutModel,
    pub paths: Map<u64, usize>,
}

/// The scope of a span: the children of its parent's path, or the roots when the parent has
/// no path.
pub open spec fn scope_of(paths: Map<u64, usize>, x: Span) -> int {
    match x.parent_id {
        Some(p) => if paths.contains_key(p.0) {
            paths[p.0] + 1
        } else {
            0
        },
        None => 0,
    }
}

/// The sweep layout of the spans `sp`, taken in order, after the first `k`.
pub open spec fn sweep_layout(sp: Seq<Span>, k: int) -> SweepLayout
    decreases k,
{
    if k <= 0 {
        SweepLayout { m: initial_model(), paths: Map::empty() }
    } else {
        let prev = sweep_layout(sp, k - 1);
        let x = sp[k - 1];
        let scope = scope_of(prev.paths, x);
        let ar = alloc_result(prev.m.sw[scope], x.start, x.end);
        SweepLayout {
            m: layout_step(prev.m, k - 1, scope, ar.1, ar.0),
            paths: prev.paths.insert(x.id.0, path_of(prev.m, scope, ar.1) as usize),
        }
    }
}

/// The row of each span of `sp` under the sweep layout.
pub open spec fn sweep_rows(sp: Seq<Span>) -> Seq<u16> {
    sweep_layout(sp, sp.len() as int).m.rows
}

/// Lays spans out in rows. Spans are taken in ascending order of start; each span gets a row
/// from the sweep of its parent's row path (the roots share one sweep), and its own path is the
/// parent's path extended by that row. Each distinct path is one row of the result.
#[verifier::spinoff_prover]
#[verifier::rlimit(80)]
pub fn lay_out(spans: Vec<Span>) -> (r: Layout)
    requires
        spans@.len() < 65535,
    ensures
        laid_spans(r.spans@).to_multiset() == spans@.to_multiset(),
        r.spans@.len() == spans@.len(),
        sorted_by_time(laid_spans(r.spans@)),
        rows_disjoint(r.spans@),
        rows_dense(r.spans@, r.total_rows as int),
        r.spans@.map_values(|x: LaidSpan| x.row) == sweep_rows(laid_spans(r.spans@)),
{
    let mut sorted = spans;
    sort_by_time(&mut sorted);
    let n = sorted.len();
    let mut rows: Vec<u16> = Vec::new();
    let mut sweeps: Vec<Sweep> = Vec::new();
    sweeps.push(Sweep::new());
    let mut scope_rows: Vec<Vec<usize>> = Vec::new();
    scope_rows.push(Vec::new());
    let mut span_path: std::collections::HashMap<u64, usize> = std::collections::HashMap::new();
    let mut npaths: usize = 0;
    let ghost mut ps: Seq<int> = Seq::empty();
    let ghost mut pr: Seq<int> = Seq::empty();
    let ghost mut last: Seq<int> = Seq::empty();
    let mut k: usize = 0;
    let ghost mut m = initial_model();
    proof {
        assert(span_path@ =~= Map::<u64, usize>::empty());
        assert(sweeps@.map_values(|w: Sweep| w@) =~= m.sw);
        assert(scope_rows@.map_values(|v: Vec<usize>| v@) =~= m.sr);
    }
    while k < n
        invariant
            n == sorted@.len(),
            n < 65535,
            sorted_by_time(sorted@),
            k <= n,
            layout_inv(sorted@, k as int, m),
            m.rows == rows@,
            m.sw == sweeps@.map_values(|w: Sweep| w@),
            m.sr == scope_rows@.map_values(|v: Vec<usize>| v@),
            m.np == npaths,
            m == sweep_layout(sorted@, k as int).m,
            span_path@ == sweep_layout(sorted@, k as int).paths,
            sweeps@.len() == npaths + 1,
            scope_rows@.len() == npaths + 1,
            forall|sc: int| 0 <= sc <= npaths ==> (#[trigger] sweeps@[sc]).wf(),
            forall|key: u64| #[trigger] span_path@.contains_key(key) ==> span_path@[key] < npaths,
        decreases n - k,
    {
        let sp = &sorted[k];
        let scope: usize = match sp.parent_id {
            Some(parent) => match span_path.get(&parent.0) {
                Some(q) => *q + 1,
                None => 0,
            },
            None => 0,
        };
        proof {
            assert(m.sw[scope as int] == sweeps@[scope as int]@);
            assert(m.sw[scope as int].len() <= m.np);
        }
        let ghost old_sweeps = sweeps@;
        let ghost old_scope_rows = scope_rows@;
        let row = sweeps[scope].allocate(sp);
        let ghost t = sweeps@[scope as int]@;
        proof {
            assert(m.sr[scope as int] == scope_rows@[scope as int]@);
        }
        let path: usize;
        if (row as usize) < scope_rows[scope].len() {
            path = scope_rows[scope][row as usize];
        } else {
            path = npaths;
            scope_rows[scope].push(path);
            sweeps.push(Sweep::new());
            scope_rows.push(Vec::new());
            npaths = npaths + 1;
        }
        proof {
            lemma_alloc_result(m.sw[scope as int], t, row as int, sp.start, sp.end);
            assert(sorted@[k as int] == *sp);
            assert(path == path_of(m, scope as int, row as int));
        }
        span_path.insert(sp.id.0, path);
        rows.push(path as u16);
        proof {
            lemma_layout_step(sorted@, k as int, m, scope as int, row as int, t);
            m = layout_step(m, k as int, scope as int, row as int, t);
            assert(rows@ =~= m.rows);
            assert(sweeps@.map_values(|w: Sweep| w@) =~= m.sw);
            assert(scope_rows@.map_values(|v: Vec<usize>| v@) =~= m.sr);
            assert forall|sc: int| 0 <= sc <= npaths implies (#[trigger] sweeps@[sc]).wf() by {
                if sc < old_sweeps.len() && sc != scope {
                    assert(sweeps@[sc] == old_sweeps[sc]);
                }
            }
        }
        k = k + 1;
    }
    let ghost old_sorted = sorted@;
    let mut rev: Vec<Span> = Vec::new();
    while sorted.len() > 0
        invariant
            sorted@.len() + rev@.len() == n,
            old_sorted.len() == n,
            forall|i: int| 0 <= i < rev@.len() ==> #[trigger] rev@[i] == old_sorted[n - 1 - i],
            forall|i: int| 0 <= i < sorted@.len() ==> #[trigger] sorted@[i] == old_sorted[i],
        decreases sorted@.len(),
    {
        let sp = sorted.pop().unwrap();
        rev.push(sp);
    }
    let mut out: Vec<LaidSpan> = Vec::new();
    while rev.len() > 0
        invariant
            rev@.len() + out@.len() == n,
            old_sorted.len() == n,
            rows@.len() == n,
            forall|i: int| 0 <= i < rev@.len() ==> #[trigger] rev@[i] == old_sorted[n - 1 - i],
            forall|i: int|
                0 <= i < out@.len() ==> (#[trigger] out@[i]).span == old_sorted[i] && out@[i].row
                    == rows@[i],
        decreases rev@.len(),
    {
        let sp = rev.pop().unwrap();
        let row = rows[out.len()];
        out.push(LaidSpan { span: sp, row });
    }
    proof {
        assert(laid_spans(out@) =~= old_sorted);
        assert(out@.map_values(|x: LaidSpan| x.row) =~= sweep_rows(old_sorted));
        assert forall|q: int| 0 <= q < npaths implies #[trigger] row_used(out@, q) by {
            assert(0 <= m.ps[q] <= m.np);
            assert(0 <= m.last[q] < out@.len());
            assert(out@[m.last[q]].row == q);
        }
    }
    Layout { spans: out, total_rows: npaths as u16 }
}

} // verus!
