use vstd::prelude::*;
use crate::types::{RecordBatch, Row, RowView, copy_row, rows_view};

verus! {

/// Which input of the join a batch came from.
#[derive(Clone, Copy, Debug, PartialEq, Eq, Structural)]
pub enum Side {
    Left,
    Right,
}

impl Side {
    /// The name of the side's state table.
    pub fn name(&self) -> (r: &'static str)
        ensures
            *self == Side::Left ==> r@ == "left"@,
            *self == Side::Right ==> r@ == "right"@,
    {
        match self {
            Side::Left => "left",
            Side::Right => "right",
        }
    }
}

/// The rows of `rows` whose event time is `t`, in order.
pub open spec fn rows_at(rows: Seq<RowView>, t: u64) -> Seq<RowView>
    decreases rows.len(),
{
    if rows.len() == 0 {
        Seq::empty()
    } else {
        let prev = rows_at(rows.drop_last(), t);
        if rows.last().timestamp == t {
            prev.push(rows.last())
        } else {
            prev
        }
    }
}

/// The sub-plan of one event time: the left and right rows handed to it.
#[derive(Debug)]
pub struct InstantComputeHolder {
    pub time: u64,
    pub left: Vec<Row>,
    pub right: Vec<Row>,
}

/// The value of an [`InstantComputeHolder`].
pub struct PlanView {
    pub time: u64,
    pub left: Seq<RowView>,
    pub right: Seq<RowView>,
}

impl View for InstantComputeHolder {
    type V = PlanView;

    open spec fn view(&self) -> PlanView {
        PlanView { time: self.time, left: rows_view(self.left@), right: rows_view(self.right@) }
    }
}

pub open spec fn plans_view(s: Seq<InstantComputeHolder>) -> Seq<PlanView> {
    Seq::new(s.len(), |i: int| s[i]@)
}

/// The rows of side `side` in plan `p` that belong to time `t`.
pub open spec fn plan_contrib(p: PlanView, side: Side, t: u64) -> Seq<RowView> {
    if p.time == t {
        match side {
            Side::Left => p.left,
            Side::Right => p.right,
        }
    } else {
        Seq::empty()
    }
}

/// The rows of side `side` waiting in the sub-plans for time `t`.
pub open spec fn plan_rows(plans: Seq<PlanView>, side: Side, t: u64) -> Seq<RowView>
    decreases plans.len(),
{
    if plans.len() == 0 {
        Seq::empty()
    } else {
        plan_rows(plans.drop_last(), side, t) + plan_contrib(plans.last(), side, t)
    }
}

/// Sub-plans are kept by strictly increasing time.
pub open spec fn plans_sorted(plans: Seq<PlanView>) -> bool {
    forall|i: int, j: int| 0 <= i < j < plans.len() ==> #[trigger] plans[i].time < #[trigger] plans[j].time
}

/// The times that have a sub-plan.
pub open spec fn plan_times(plans: Seq<PlanView>) -> Set<u64> {
    Set::new(|t: u64| exists|i: int| 0 <= i < plans.len() && #[trigger] plans[i].time == t)
}

/// Every sub-plan holds at least one row: sub-plans are opened by rows.
pub open spec fn plans_nonempty(plans: Seq<PlanView>) -> bool {
    forall|i: int| 0 <= i < plans.len() ==> #[trigger] plans[i].left.len() > 0 || plans[i].right.len() > 0
}

/// Whether some row of `rows` has event time `t`.
pub open spec fn has_time(rows: Seq<RowView>, t: u64) -> bool {
    exists|i: int| 0 <= i < rows.len() && #[trigger] rows[i].timestamp == t
}

/// When every sub-plan holds a row, a time has a sub-plan exactly when
/// rows of some side wait for it.
pub proof fn lemma_times_from_rows(plans: Seq<PlanView>, t: u64)
    requires
        plans_nonempty(plans),
    ensures
        plan_times(plans).contains(t) <==> (plan_rows(plans, Side::Left, t).len() > 0 || plan_rows(
            plans,
            Side::Right,
            t,
        ).len() > 0),
    decreases plans.len(),
{
    if plans.len() > 0 {
        let d = plans.drop_last();
        assert(plans_nonempty(d)) by {
            assert forall|i: int| 0 <= i < d.len() implies #[trigger] d[i].left.len() > 0 || d[i].right.len()
                > 0 by {
                assert(d[i] == plans[i]);
            }
        }
        lemma_times_from_rows(d, t);
        let last = plans[plans.len() - 1];
        assert(last.left.len() > 0 || last.right.len() > 0);
        if plan_times(plans).contains(t) {
            let i = choose|i: int| 0 <= i < plans.len() && #[trigger] plans[i].time == t;
            if i < plans.len() - 1 {
                assert(d[i].time == t);
                assert(plan_times(d).contains(t));
            }
        }
        if plan_times(d).contains(t) {
            let i = choose|i: int| 0 <= i < d.len() && #[trigger] d[i].time == t;
            assert(plans[i].time == t);
        }
        if last.time == t {
            assert(plans[plans.len() - 1].time == t);
        }
    }
}

/// Rows for time `t` exist exactly when some row has that time.
pub proof fn lemma_rows_at_nonempty(rows: Seq<RowView>, t: u64)
    ensures
        rows_at(rows, t).len() > 0 <==> has_time(rows, t),
    decreases rows.len(),
{
    if rows.len() > 0 {
        let d = rows.drop_last();
        lemma_rows_at_nonempty(d, t);
        if has_time(rows, t) {
            let i = choose|i: int| 0 <= i < rows.len() && #[trigger] rows[i].timestamp == t;
            if i < rows.len() - 1 {
                assert(d[i].timestamp == t);
            }
        }
        if has_time(d, t) {
            let i = choose|i: int| 0 <= i < d.len() && #[trigger] d[i].timestamp == t;
            assert(rows[i].timestamp == t);
        }
        if rows.last().timestamp == t {
            assert(rows[rows.len() - 1].timestamp == t);
        }
    }
}

proof fn lemma_plan_rows_split(a: Seq<PlanView>, b: Seq<PlanView>, side: Side, t: u64)
    ensures
        plan_rows(a + b, side, t) == plan_rows(a, side, t) + plan_rows(b, side, t),
    decreases b.len(),
{
    if b.len() == 0 {
        assert(a + b =~= a);
        assert(plan_rows(a, side, t) + plan_rows(b, side, t) =~= plan_rows(a, side, t));
    } else {
        assert((a + b).drop_last() =~= a + b.drop_last());
        lemma_plan_rows_split(a, b.drop_last(), side, t);
        assert(plan_rows(a + b, side, t) =~= plan_rows(a, side, t) + plan_rows(b, side, t));
    }
}

proof fn lemma_plan_rows_absent(plans: Seq<PlanView>, side: Side, t: u64)
    requires
        forall|i: int| 0 <= i < plans.len() ==> #[trigger] plans[i].time != t,
    ensures
        plan_rows(plans, side, t) == Seq::<RowView>::empty(),
    decreases plans.len(),
{
    if plans.len() > 0 {
        lemma_plan_rows_absent(plans.drop_last(), side, t);
        assert(plans[plans.len() - 1].time != t);
        assert(plan_rows(plans, side, t) =~= Seq::<RowView>::empty());
    }
}

proof fn lemma_plan_rows_single(p: PlanView, side: Side, t: u64)
    ensures
        plan_rows(seq![p], side, t) == plan_contrib(p, side, t),
{
    let s = seq![p];
    assert(s.drop_last() =~= Seq::<PlanView>::empty());
    assert(s.last() == p);
    assert(plan_rows(s.drop_last(), side, t) =~= Seq::<RowView>::empty());
    assert(plan_rows(s, side, t) =~= plan_contrib(p, side, t));
}

/// The contribution at `i` is replaced by `p`: the rows for every time
/// change as that one contribution does.
proof fn lemma_plan_rows_update(plans: Seq<PlanView>, i: int, p: PlanView, side: Side, t: u64)
    requires
        0 <= i < plans.len(),
    ensures
        plan_rows(plans, side, t) == plan_rows(plans.subrange(0, i), side, t) + plan_contrib(
            plans[i],
            side,
            t,
        ) + plan_rows(plans.subrange(i + 1, plans.len() as int), side, t),
        plan_rows(plans.update(i, p), side, t) == plan_rows(plans.subrange(0, i), side, t)
            + plan_contrib(p, side, t) + plan_rows(plans.subrange(i + 1, plans.len() as int), side, t),
{
    let a = plans.subrange(0, i);
    let c = plans.subrange(i + 1, plans.len() as int);
    assert(plans =~= a + seq![plans[i]] + c);
    assert(plans.update(i, p) =~= a + seq![p] + c);
    lemma_plan_rows_split(a + seq![plans[i]], c, side, t);
    lemma_plan_rows_split(a, seq![plans[i]], side, t);
    lemma_plan_rows_split(a + seq![p], c, side, t);
    lemma_plan_rows_split(a, seq![p], side, t);
    lemma_plan_rows_single(plans[i], side, t);
    lemma_plan_rows_single(p, side, t);
}

/// A new plan is inserted at `i`.
proof fn lemma_plan_rows_insert(plans: Seq<PlanView>, i: int, p: PlanView, side: Side, t: u64)
    requires
        0 <= i <= plans.len(),
    ensures
        plan_rows(plans, side, t) == plan_rows(plans.subrange(0, i), side, t) + plan_rows(
            plans.subrange(i, plans.len() as int),
            side,
            t,
        ),
        plan_rows(plans.insert(i, p), side, t) == plan_rows(plans.subrange(0, i), side, t)
            + plan_contrib(p, side, t) + plan_rows(plans.subrange(i, plans.len() as int), side, t),
{
    let a = plans.subrange(0, i);
    let c = plans.subrange(i, plans.len() as int);
    assert(plans =~= a + c);
    assert(plans.insert(i, p) =~= a + seq![p] + c);
    lemma_plan_rows_split(a, c, side, t);
    lemma_plan_rows_split(a + seq![p], c, side, t);
    lemma_plan_rows_split(a, seq![p], side, t);
    lemma_plan_rows_single(p, side, t);
}

/// The row `r` added to side `side`: one more row for its time.
pub open spec fn added(side: Side, r: RowView, s: Side, t: u64) -> Seq<RowView> {
    if s == side && t == r.timestamp {
        seq![r]
    } else {
        Seq::empty()
    }
}

proof fn lemma_extend_plan(before: Seq<PlanView>, i: int, np: PlanView, side: Side, rv: RowView)
    requires
        plans_sorted(before),
        0 <= i < before.len(),
        before[i].time == rv.timestamp,
        np.time == rv.timestamp,
        np.left == if side == Side::Left { before[i].left.push(rv) } else { before[i].left },
        np.right == if side == Side::Right { before[i].right.push(rv) } else { before[i].right },
    ensures
        plans_sorted(before.update(i, np)),
        forall|s: Side, u: u64|
            #[trigger] plan_rows(before.update(i, np), s, u) == plan_rows(before, s, u) + added(
                side,
                rv,
                s,
                u,
            ),
        forall|k: int| 0 <= k < before.len() ==> #[trigger] before.update(i, np)[k].time == before[k].time,
        plan_times(before.update(i, np)) == plan_times(before),
        plans_nonempty(before) ==> plans_nonempty(before.update(i, np)),
{
    assert(plan_times(before.update(i, np)) =~= plan_times(before)) by {
        assert forall|u: u64| plan_times(before.update(i, np)).contains(u) implies plan_times(before).contains(u) by {
            let k = choose|k: int| 0 <= k < before.len() && #[trigger] before.update(i, np)[k].time == u;
            assert(before[k].time == u);
        }
        assert forall|u: u64| plan_times(before).contains(u) implies plan_times(before.update(i, np)).contains(u) by {
            let k = choose|k: int| 0 <= k < before.len() && #[trigger] before[k].time == u;
            assert(before.update(i, np)[k].time == u);
        }
    }
    if plans_nonempty(before) {
        let after = before.update(i, np);
        assert forall|k: int| 0 <= k < after.len() implies #[trigger] after[k].left.len() > 0
            || after[k].right.len() > 0 by {
            if k != i {
                assert(after[k] == before[k]);
            }
        }
    }
    let after = before.update(i, np);
    let t = rv.timestamp;
    assert forall|s: Side, u: u64|
        #[trigger] plan_rows(after, s, u) == plan_rows(before, s, u) + added(side, rv, s, u) by {
        lemma_plan_rows_update(before, i, np, s, u);
        let tail = before.subrange(i + 1, before.len() as int);
        if u == t {
            assert forall|k: int| 0 <= k < tail.len() implies #[trigger] tail[k].time != u by {
                assert(before[i].time < before[i + 1 + k].time);
            }
            lemma_plan_rows_absent(tail, s, u);
        }
        assert(plan_rows(after, s, u) =~= plan_rows(before, s, u) + added(side, rv, s, u));
    }
    assert forall|a: int, b: int| 0 <= a < b < after.len() implies #[trigger] after[a].time
        < #[trigger] after[b].time by {
        assert(before[a].time < before[b].time);
    }
}

proof fn lemma_open_plan(before: Seq<PlanView>, i: int, np: PlanView, side: Side, rv: RowView)
    requires
        plans_sorted(before),
        0 <= i <= before.len(),
        forall|k: int| 0 <= k < i ==> #[trigger] before[k].time < rv.timestamp,
        i < before.len() ==> before[i].time > rv.timestamp,
        np.time == rv.timestamp,
        np.left == if side == Side::Left { seq![rv] } else { Seq::<RowView>::empty() },
        np.right == if side == Side::Right { seq![rv] } else { Seq::<RowView>::empty() },
    ensures
        plans_sorted(before.insert(i, np)),
        forall|s: Side, u: u64|
            #[trigger] plan_rows(before.insert(i, np), s, u) == plan_rows(before, s, u) + added(
                side,
                rv,
                s,
                u,
            ),
        plan_times(before.insert(i, np)) == plan_times(before).insert(rv.timestamp),
        !plan_times(before).contains(rv.timestamp),
        plans_nonempty(before) ==> plans_nonempty(before.insert(i, np)),
{
    let after = before.insert(i, np);
    assert(plan_times(after) =~= plan_times(before).insert(rv.timestamp)) by {
        assert forall|u: u64| plan_times(after).contains(u) implies plan_times(before).insert(
            rv.timestamp,
        ).contains(u) by {
            let k = choose|k: int| 0 <= k < after.len() && #[trigger] after[k].time == u;
            if k < i {
                assert(before[k].time == u);
            } else if k > i {
                assert(before[k - 1].time == u);
            }
        }
        assert forall|u: u64| plan_times(before).insert(rv.timestamp).contains(u) implies plan_times(
            after,
        ).contains(u) by {
            if u == rv.timestamp {
                assert(after[i].time == u);
            } else {
                let k = choose|k: int| 0 <= k < before.len() && #[trigger] before[k].time == u;
                if k < i {
                    assert(after[k].time == u);
                } else {
                    assert(after[k + 1].time == u);
                }
            }
        }
    }
    if plan_times(before).contains(rv.timestamp) {
        let k = choose|k: int| 0 <= k < before.len() && #[trigger] before[k].time == rv.timestamp;
        if k >= i && k > i {
            assert(before[i].time < before[k].time);
        }
    }
    if plans_nonempty(before) {
        assert forall|k: int| 0 <= k < after.len() implies #[trigger] after[k].left.len() > 0
            || after[k].right.len() > 0 by {
            if k < i {
                assert(after[k] == before[k]);
            } else if k > i {
                assert(after[k] == before[k - 1]);
            }
        }
    }
    let t = rv.timestamp;
    assert forall|s: Side, u: u64|
        #[trigger] plan_rows(after, s, u) == plan_rows(before, s, u) + added(side, rv, s, u) by {
        lemma_plan_rows_insert(before, i, np, s, u);
        let tail = before.subrange(i, before.len() as int);
        if u == t {
            assert forall|k: int| 0 <= k < tail.len() implies #[trigger] tail[k].time != u by {
                if k > 0 {
                    assert(before[i].time < before[i + k].time);
                }
            }
            lemma_plan_rows_absent(tail, s, u);
        }
        assert(plan_rows(after, s, u) =~= plan_rows(before, s, u) + added(side, rv, s, u));
    }
    assert forall|a: int, b: int| 0 <= a < b < after.len() implies #[trigger] after[a].time
        < #[trigger] after[b].time by {
        if a < i && b > i {
            assert(before[a].time < t);
            if b - 1 > i {
                assert(before[i].time < before[b - 1].time);
            }
        } else if a < i && b == i {
            assert(before[a].time < t);
        } else if a == i && b > i {
            if b - 1 > i {
                assert(before[i].time < before[b - 1].time);
            }
        } else if a > i {
            assert(before[a - 1].time < before[b - 1].time);
        } else {
            assert(before[a].time < before[b].time);
        }
    }
}

/// The sub-plans of a join, by strictly increasing time.
pub struct PlanRegistry {
    plans: Vec<InstantComputeHolder>,
}

impl View for PlanRegistry {
    type V = Seq<PlanView>;

    closed spec fn view(&self) -> Seq<PlanView> {
        plans_view(self.plans@)
    }
}

impl PlanRegistry {
    pub fn new() -> (r: PlanRegistry)
        ensures
            r@ == Seq::<PlanView>::empty(),
    {
        let r = PlanRegistry { plans: Vec::new() };
        proof {
            assert(r@ =~= Seq::<PlanView>::empty());
        }
        r
    }

    /// The number of open sub-plans.
    pub fn len(&self) -> (r: usize)
        ensures
            r == self@.len(),
    {
        self.plans.len()
    }

    fn position(&self, t: u64) -> (r: usize)
        requires
            plans_sorted(self@),
        ensures
            r <= self@.len(),
            forall|k: int| 0 <= k < r ==> #[trigger] self@[k].time < t,
            r < self@.len() ==> self@[r as int].time >= t,
    {
        let mut i: usize = 0;
        while i < self.plans.len() && self.plans[i].time < t
            invariant
                i <= self@.len(),
                forall|k: int| 0 <= k < i ==> #[trigger] self@[k].time < t,
            decreases self.plans.len() - i,
        {
            i = i + 1;
        }
        i
    }

    /// Takes out every sub-plan for a time before `t`, earliest first.
    pub fn close_before(&mut self, t: u64) -> (r: Vec<InstantComputeHolder>)
        requires
            plans_sorted(old(self)@),
        ensures
            plans_sorted(final(self)@),
            plans_sorted(plans_view(r@)),
            plans_view(r@) + final(self)@ == old(self)@,
            plans_nonempty(old(self)@) ==> plans_nonempty(final(self)@),
            plan_times(final(self)@) == plan_times(old(self)@).filter(|u: u64| u >= t),
            forall|i: int| 0 <= i < r@.len() ==> (#[trigger] r@[i]).time < t,
            forall|i: int| 0 <= i < final(self)@.len() ==> (#[trigger] final(self)@[i]).time >= t,
            forall|s: Side, u: u64|
                #[trigger] plan_rows(final(self)@, s, u) == if u >= t {
                    plan_rows(old(self)@, s, u)
                } else {
                    Seq::<RowView>::empty()
                },
    {
        let k = self.position(t);
        let ghost before = self@;
        let mut closed = self.plans.split_off(k);
        std::mem::swap(&mut closed, &mut self.plans);
        proof {
            let a = before.subrange(0, k as int);
            let b = before.subrange(k as int, before.len() as int);
            assert(plans_view(closed@) =~= a);
            assert(self@ =~= b);
            assert(a + b =~= before);
            assert forall|i: int| 0 <= i < closed@.len() implies (#[trigger] closed@[i]).time < t by {
                assert(plans_view(closed@)[i] == before[i]);
                assert(before[i].time < t);
            }
            assert forall|i: int| 0 <= i < self@.len() implies (#[trigger] self@[i]).time >= t by {
                assert(self@[i] == before[k + i]);
                if k + i > k {
                    assert(before[k as int].time < before[k + i].time);
                }
            }
            assert forall|x: int, y: int| 0 <= x < y < a.len() implies #[trigger] a[x].time
                < #[trigger] a[y].time by {
                assert(before[x].time < before[y].time);
            }
            assert forall|x: int, y: int| 0 <= x < y < b.len() implies #[trigger] b[x].time
                < #[trigger] b[y].time by {
                assert(before[k + x].time < before[k + y].time);
            }
            if plans_nonempty(before) {
                assert forall|i: int| 0 <= i < b.len() implies #[trigger] b[i].left.len() > 0
                    || b[i].right.len() > 0 by {
                    assert(b[i] == before[k + i]);
                }
            }
            assert(plan_times(b) =~= plan_times(before).filter(|u: u64| u >= t)) by {
                assert forall|u: u64| plan_times(b).contains(u) implies plan_times(before).filter(
                    |u: u64| u >= t,
                ).contains(u) by {
                    let i = choose|i: int| 0 <= i < b.len() && #[trigger] b[i].time == u;
                    assert(before[k + i].time == u);
                    assert(self@[i].time >= t);
                }
                assert forall|u: u64| plan_times(before).filter(|u: u64| u >= t).contains(u) implies plan_times(
                    b,
                ).contains(u) by {
                    let i = choose|i: int| 0 <= i < before.len() && #[trigger] before[i].time == u;
                    if i < k {
                        assert(before[i].time < t);
                    } else {
                        assert(b[i - k].time == u);
                    }
                }
            }
            assert forall|s: Side, u: u64|
                #[trigger] plan_rows(self@, s, u) == if u >= t {
                    plan_rows(before, s, u)
                } else {
                    Seq::<RowView>::empty()
                } by {
                lemma_plan_rows_split(a, b, s, u);
                if u >= t {
                    lemma_plan_rows_absent(a, s, u);
                    assert(plan_rows(before, s, u) =~= plan_rows(b, s, u));
                } else {
                    assert forall|i: int| 0 <= i < b.len() implies #[trigger] b[i].time != u by {
                        assert(self@[i].time >= t);
                    }
                    lemma_plan_rows_absent(b, s, u);
                }
            }
        }
        closed
    }

    /// Hands row `r` of side `side` to the sub-plan of its time, opening
    /// that sub-plan when it is the first row of its time.
    pub fn add_row(&mut self, side: Side, r: Row)
        requires
            plans_sorted(old(self)@),
        ensures
            plans_sorted(final(self)@),
            plan_times(final(self)@) == plan_times(old(self)@).insert(r.timestamp),
            plan_times(old(self)@).contains(r.timestamp) ==> final(self)@.len() == old(self)@.len(),
            !plan_times(old(self)@).contains(r.timestamp) ==> final(self)@.len() == old(self)@.len() + 1,
            plans_nonempty(old(self)@) ==> plans_nonempty(final(self)@),
            forall|s: Side, t: u64|
                #[trigger] plan_rows(final(self)@, s, t) == plan_rows(old(self)@, s, t) + added(
                    side,
                    r@,
                    s,
                    t,
                ),
    {
        let t = r.timestamp;
        let ghost rv = r@;
        let ghost before = self@;
        let i = self.position(t);
        if i < self.plans.len() && self.plans[i].time == t {
            let mut p = self.plans.remove(i);
            let ghost pv = p@;
            match side {
                Side::Left => p.left.push(r),
                Side::Right => p.right.push(r),
            }
            proof {
                assert(p@.left =~= if side == Side::Left { pv.left.push(rv) } else { pv.left });
                assert(p@.right =~= if side == Side::Right { pv.right.push(rv) } else { pv.right });
            }
            self.plans.insert(i, p);
            proof {
                assert(self@ =~= before.update(i as int, p@));
                lemma_extend_plan(before, i as int, p@, side, rv);
                assert(before[i as int].time == t);
                assert(plan_times(before).contains(t));
                assert(plan_times(before).insert(t) =~= plan_times(before));
            }
        } else {
            let mut left: Vec<Row> = Vec::new();
            let mut right: Vec<Row> = Vec::new();
            match side {
                Side::Left => left.push(r),
                Side::Right => right.push(r),
            }
            let p = InstantComputeHolder { time: t, left, right };
            proof {
                assert(p@.left =~= if side == Side::Left { seq![rv] } else { Seq::<RowView>::empty() });
                assert(p@.right =~= if side == Side::Right { seq![rv] } else { Seq::<RowView>::empty() });
            }
            self.plans.insert(i, p);
            proof {
                assert(self@ =~= before.insert(i as int, p@));
                lemma_open_plan(before, i as int, p@, side, rv);
            }
        }
    }
}

proof fn lemma_rows_at_absent(rows: Seq<RowView>, t: u64)
    requires
        forall|i: int| 0 <= i < rows.len() ==> #[trigger] rows[i].timestamp != t,
    ensures
        rows_at(rows, t) == Seq::<RowView>::empty(),
    decreases rows.len(),
{
    if rows.len() > 0 {
        lemma_rows_at_absent(rows.drop_last(), t);
        assert(rows[rows.len() - 1].timestamp != t);
    }
}

/// A batch kept in a side's state table, under its largest event time.
#[derive(Debug)]
pub struct TableEntry {
    pub time: u64,
    pub batch: RecordBatch,
}

impl View for TableEntry {
    type V = (u64, Seq<RowView>);

    open spec fn view(&self) -> (u64, Seq<RowView>) {
        (self.time, self.batch@)
    }
}

pub open spec fn table_view(s: Seq<TableEntry>) -> Seq<(u64, Seq<RowView>)> {
    Seq::new(s.len(), |i: int| s[i]@)
}

/// The rows for time `t` over all batches of a table, in insertion order.
pub open spec fn table_rows(table: Seq<(u64, Seq<RowView>)>, t: u64) -> Seq<RowView>
    decreases table.len(),
{
    if table.len() == 0 {
        Seq::empty()
    } else {
        table_rows(table.drop_last(), t) + rows_at(table.last().1, t)
    }
}

/// No row of a table entry is later than the time it is kept under.
pub open spec fn table_bounded(table: Seq<(u64, Seq<RowView>)>) -> bool {
    forall|i: int, j: int|
        0 <= i < table.len() && 0 <= j < table[i].1.len() ==> #[trigger] table[i].1[j].timestamp
            <= table[i].0
}

/// Whether some batch of a table holds a row of time `t`.
pub open spec fn table_has_time(table: Seq<(u64, Seq<RowView>)>, t: u64) -> bool {
    exists|i: int| 0 <= i < table.len() && has_time(#[trigger] table[i].1, t)
}

/// The distinct event times of the rows that a rebuilt join replays: the
/// times of the kept rows of either table that are still open.
pub open spec fn replayed_times(
    left: Seq<(u64, Seq<RowView>)>,
    right: Seq<(u64, Seq<RowView>)>,
    w: Option<u64>,
) -> Set<u64> {
    Set::new(|t: u64| is_open(w, t) && (table_has_time(left, t) || table_has_time(right, t)))
}

proof fn lemma_table_rows_nonempty(table: Seq<(u64, Seq<RowView>)>, t: u64)
    ensures
        table_rows(table, t).len() > 0 <==> table_has_time(table, t),
    decreases table.len(),
{
    if table.len() > 0 {
        let d = table.drop_last();
        lemma_table_rows_nonempty(d, t);
        lemma_rows_at_nonempty(table.last().1, t);
        if table_has_time(table, t) {
            let i = choose|i: int| 0 <= i < table.len() && has_time(#[trigger] table[i].1, t);
            if i < table.len() - 1 {
                assert(d[i] == table[i]);
                assert(table_has_time(d, t));
            }
        }
        if table_has_time(d, t) {
            let i = choose|i: int| 0 <= i < d.len() && has_time(#[trigger] d[i].1, t);
            assert(table[i] == d[i]);
        }
        if has_time(table.last().1, t) {
            assert(has_time(table[table.len() - 1].1, t));
        }
    }
}

/// Whether time `t` is still open under watermark `w`: sub-plans for
/// earlier times have been closed and emitted.
pub open spec fn is_open(w: Option<u64>, t: u64) -> bool {
    match w {
        Some(x) => t >= x,
        None => true,
    }
}

/// The rows of side `side` for time `t` that a join rebuilt from tables
/// and watermark holds: what the table holds for an open time, nothing
/// for a closed one.
pub open spec fn replayed_rows(table: Seq<(u64, Seq<RowView>)>, w: Option<u64>, t: u64) -> Seq<RowView> {
    if is_open(w, t) {
        table_rows(table, t)
    } else {
        Seq::empty()
    }
}

/// The state of an [`InstantJoin`] as plain values.
pub struct JoinView {
    pub plans: Seq<PlanView>,
    pub left_table: Seq<(u64, Seq<RowView>)>,
    pub right_table: Seq<(u64, Seq<RowView>)>,
    pub watermark: Option<u64>,
}

impl JoinView {
    pub open spec fn table(self, side: Side) -> Seq<(u64, Seq<RowView>)> {
        match side {
            Side::Left => self.left_table,
            Side::Right => self.right_table,
        }
    }

    /// The sub-plans hold exactly the rows of the tables for the times
    /// still open.
    pub open spec fn wf(self) -> bool {
        &&& plans_sorted(self.plans)
        &&& plans_nonempty(self.plans)
        &&& table_bounded(self.left_table)
        &&& table_bounded(self.right_table)
        &&& forall|s: Side, t: u64|
            #[trigger] plan_rows(self.plans, s, t) == replayed_rows(self.table(s), self.watermark, t)
    }
}

/// Why a batch was refused by the join.
#[derive(Clone, Copy, Debug, PartialEq, Eq, Structural)]
pub enum JoinError {
    /// The batch holds no rows, so it has no event time.
    EmptyBatch,
    /// A row is not later than the watermark.
    LateData,
    /// A checkpointed batch holds a row later than the time it is kept
    /// under.
    InvalidCheckpoint,
}

/// Field names and the positions of the event-time and key columns of a
/// join input.
#[derive(Clone, Debug, PartialEq, Eq)]
pub struct ArroyoSchema {
    pub fields: Vec<String>,
    pub timestamp_index: usize,
    pub key_indices: Vec<usize>,
}

/// The equal-time join: for every event time, all left rows of that time
/// joined with all right rows of that time, emitted once the watermark has
/// passed it.
pub struct InstantJoin {
    left_input_schema: ArroyoSchema,
    right_input_schema: ArroyoSchema,
    join_plan: Vec<u8>,
    execs: PlanRegistry,
    left_table: Vec<TableEntry>,
    right_table: Vec<TableEntry>,
    watermark: Option<u64>,
}

impl View for InstantJoin {
    type V = JoinView;

    closed spec fn view(&self) -> JoinView {
        JoinView {
            plans: self.execs@,
            left_table: table_view(self.left_table@),
            right_table: table_view(self.right_table@),
            watermark: self.watermark,
        }
    }
}

/// The smallest and largest event time of a non-empty batch.
pub open spec fn is_min_time(rows: Seq<RowView>, m: u64) -> bool {
    &&& forall|i: int| 0 <= i < rows.len() ==> m <= #[trigger] rows[i].timestamp
    &&& exists|i: int| 0 <= i < rows.len() && #[trigger] rows[i].timestamp == m
}

pub open spec fn is_max_time(rows: Seq<RowView>, m: u64) -> bool {
    &&& forall|i: int| 0 <= i < rows.len() ==> #[trigger] rows[i].timestamp <= m
    &&& exists|i: int| 0 <= i < rows.len() && #[trigger] rows[i].timestamp == m
}

/// Whether some row of `rows` is not later than watermark `w`.
pub open spec fn has_late_row(rows: Seq<RowView>, w: Option<u64>) -> bool {
    exists|i: int| 0 <= i < rows.len() && (w matches Some(x) && #[trigger] rows[i].timestamp <= x)
}

fn time_range(batch: &RecordBatch) -> (r: (u64, u64))
    requires
        batch@.len() > 0,
    ensures
        is_min_time(batch@, r.0),
        is_max_time(batch@, r.1),
{
    let mut lo = batch.rows[0].timestamp;
    let mut hi = batch.rows[0].timestamp;
    let mut i: usize = 1;
    proof {
        assert(batch@[0].timestamp == lo);
    }
    while i < batch.rows.len()
        invariant
            1 <= i <= batch.rows@.len(),
            forall|k: int| 0 <= k < i ==> lo <= #[trigger] batch@[k].timestamp && batch@[k].timestamp <= hi,
            exists|k: int| 0 <= k < i && #[trigger] batch@[k].timestamp == lo,
            exists|k: int| 0 <= k < i && #[trigger] batch@[k].timestamp == hi,
        decreases batch.rows.len() - i,
    {
        let t = batch.rows[i].timestamp;
        proof {
            assert(batch@[i as int].timestamp == t);
        }
        if t < lo {
            lo = t;
        }
        if t > hi {
            hi = t;
        }
        i = i + 1;
    }
    (lo, hi)
}

impl InstantJoin {
    /// A join with no rows yet, over inputs of the given schemas.
    /// `join_plan`, the serialized plan of the job, is only carried along:
    /// each sub-plan computes the fixed inner join on key of
    /// [`join_sub_plan`].
    pub fn new(left_input_schema: ArroyoSchema, right_input_schema: ArroyoSchema, join_plan: Vec<u8>) -> (r:
        InstantJoin)
        ensures
            r@.wf(),
            r@.plans.len() == 0,
            r@.left_table.len() == 0,
            r@.right_table.len() == 0,
            r@.watermark is None,
            r.spec_input_schema(Side::Left) == left_input_schema,
            r.spec_input_schema(Side::Right) == right_input_schema,
            r.spec_join_plan() == join_plan@,
    {
        let r = InstantJoin {
            left_input_schema,
            right_input_schema,
            join_plan,
            execs: PlanRegistry::new(),
            left_table: Vec::new(),
            right_table: Vec::new(),
            watermark: None,
        };
        proof {
            assert(r@.left_table =~= Seq::<(u64, Seq<RowView>)>::empty());
            assert(r@.right_table =~= Seq::<(u64, Seq<RowView>)>::empty());
            assert forall|s: Side, t: u64| #[trigger] plan_rows(r@.plans, s, t) == replayed_rows(
                r@.table(s),
                r@.watermark,
                t,
            ) by {
                assert(plan_rows(r@.plans, s, t) =~= Seq::<RowView>::empty());
                assert(table_rows(r@.table(s), t) =~= Seq::<RowView>::empty());
            }
        }
        r
    }

    pub closed spec fn spec_input_schema(&self, side: Side) -> ArroyoSchema {
        match side {
            Side::Left => self.left_input_schema,
            Side::Right => self.right_input_schema,
        }
    }

    pub closed spec fn spec_join_plan(&self) -> Seq<u8> {
        self.join_plan@
    }

    /// The schema of one input.
    pub fn input_schema(&self, side: Side) -> (r: &ArroyoSchema)
        ensures
            *r == self.spec_input_schema(side),
    {
        match side {
            Side::Left => &self.left_input_schema,
            Side::Right => &self.right_input_schema,
        }
    }

    /// The serialized plan carried along with the join; it is not run.
    pub fn join_plan(&self) -> (r: &Vec<u8>)
        ensures
            r@ == self.spec_join_plan(),
    {
        &self.join_plan
    }

    /// The watermark the join last saw.
    pub fn watermark(&self) -> (r: Option<u64>)
        ensures
            r == self@.watermark,
    {
        self.watermark
    }

    /// The number of open sub-plans.
    pub fn open_plans(&self) -> (r: usize)
        ensures
            r == self@.plans.len(),
    {
        self.execs.len()
    }

    fn add_rows(&mut self, side: Side, batch: &RecordBatch, w: Option<u64>)
        requires
            plans_sorted(old(self)@.plans),
        ensures
            plans_sorted(final(self)@.plans),
            plans_nonempty(old(self)@.plans) ==> plans_nonempty(final(self)@.plans),
            final(self)@.left_table == old(self)@.left_table,
            final(self)@.right_table == old(self)@.right_table,
            final(self)@.watermark == old(self)@.watermark,
            forall|s: Side, t: u64|
                #[trigger] plan_rows(final(self)@.plans, s, t) == plan_rows(old(self)@.plans, s, t) + if s
                    == side && is_open(w, t) {
                    rows_at(batch@, t)
                } else {
                    Seq::<RowView>::empty()
                },
    {
        let n = batch.rows.len();
        let mut k: usize = 0;
        let ghost start = self@.plans;
        while k < n
            invariant
                k <= n,
                n == batch@.len(),
                plans_sorted(self@.plans),
                plans_nonempty(old(self)@.plans) ==> plans_nonempty(self@.plans),
                self@.left_table == old(self)@.left_table,
                self@.right_table == old(self)@.right_table,
                self@.watermark == old(self)@.watermark,
                start == old(self)@.plans,
                forall|s: Side, t: u64|
                    #[trigger] plan_rows(self@.plans, s, t) == plan_rows(start, s, t) + if s == side
                        && is_open(w, t) {
                        rows_at(batch@.subrange(0, k as int), t)
                    } else {
                        Seq::<RowView>::empty()
                    },
            decreases n - k,
        {
            let ghost mid = self@.plans;
            let ts = batch.rows[k].timestamp;
            let open = match w {
                Some(x) => ts >= x,
                None => true,
            };
            if open {
                let row = copy_row(&batch.rows[k]);
                self.execs.add_row(side, row);
            }
            proof {
                let sub = batch@.subrange(0, k + 1);
                assert(sub.drop_last() =~= batch@.subrange(0, k as int));
                assert(sub.last() == batch@[k as int]);
                assert forall|s: Side, t: u64|
                    #[trigger] plan_rows(self@.plans, s, t) == plan_rows(start, s, t) + if s == side
                        && is_open(w, t) {
                        rows_at(sub, t)
                    } else {
                        Seq::<RowView>::empty()
                    } by {
                    if open {
                        assert(plan_rows(self@.plans, s, t) == plan_rows(mid, s, t) + added(
                            side,
                            batch@[k as int],
                            s,
                            t,
                        ));
                    }
                    if s == side && is_open(w, t) {
                        assert(plan_rows(self@.plans, s, t) =~= plan_rows(start, s, t) + rows_at(sub, t));
                    } else {
                        assert(plan_rows(self@.plans, s, t) =~= plan_rows(start, s, t)
                            + Seq::<RowView>::empty());
                    }
                }
            }
            k = k + 1;
        }
        proof {
            assert(batch@.subrange(0, n as int) =~= batch@);
        }
    }

    /// Takes a batch of one side. Refused when empty, or when some row is
    /// not later than the watermark. Otherwise the batch is kept in the
    /// side's table under its largest event time, and each row goes to the
    /// sub-plan of its event time.
    pub fn process_side(&mut self, side: Side, batch: RecordBatch) -> (r: Result<(), JoinError>)
        requires
            old(self)@.wf(),
        ensures
            final(self)@.wf(),
            batch@.len() == 0 ==> r == Err::<(), JoinError>(JoinError::EmptyBatch) && final(self)@
                == old(self)@,
            batch@.len() > 0 && has_late_row(batch@, old(self)@.watermark) ==> r == Err::<
                (),
                JoinError,
            >(JoinError::LateData) && final(self)@ == old(self)@,
            batch@.len() > 0 && !has_late_row(batch@, old(self)@.watermark) ==> {
                &&& r is Ok
                &&& final(self)@.watermark == old(self)@.watermark
                &&& exists|m: u64|
                    is_max_time(batch@, m) && final(self)@.table(side) == old(self)@.table(side).push(
                        (m, batch@),
                    )
                &&& final(self)@.table(other(side)) == old(self)@.table(other(side))
                &&& forall|s: Side, t: u64|
                    #[trigger] plan_rows(final(self)@.plans, s, t) == plan_rows(old(self)@.plans, s, t)
                        + if s == side {
                        rows_at(batch@, t)
                    } else {
                        Seq::<RowView>::empty()
                    }
                &&& plan_times(final(self)@.plans) == plan_times(old(self)@.plans) + Set::new(
                    |t: u64| has_time(batch@, t),
                )
            },
    {
        if batch.rows.len() == 0 {
            return Err(JoinError::EmptyBatch);
        }
        let (lo, hi) = time_range(&batch);
        if let Some(w) = self.watermark {
            if lo <= w {
                proof {
                    let i = choose|i: int| 0 <= i < batch@.len() && #[trigger] batch@[i].timestamp == lo;
                    assert(batch@[i].timestamp <= w);
                }
                return Err(JoinError::LateData);
            }
        }
        let ghost before = self@;
        let w = self.watermark;
        self.add_rows(side, &batch, w);
        let ghost bv = batch@;
        let entry = TableEntry { time: hi, batch };
        match side {
            Side::Left => self.left_table.push(entry),
            Side::Right => self.right_table.push(entry),
        }
        proof {
            assert(self@.table(side) =~= before.table(side).push((hi, bv)));
            assert(self@.table(other(side)) =~= before.table(other(side)));
            let tb = self@.table(side);
            assert forall|i: int, j: int|
                0 <= i < tb.len() && 0 <= j < tb[i].1.len() implies #[trigger] tb[i].1[j].timestamp
                <= tb[i].0 by {
                if i < tb.len() - 1 {
                    assert(tb[i] == before.table(side)[i]);
                }
            }
            assert forall|s: Side, t: u64|
                #[trigger] plan_rows(self@.plans, s, t) == plan_rows(before.plans, s, t) + if s == side {
                    rows_at(bv, t)
                } else {
                    Seq::<RowView>::empty()
                } by {
                if s == side && !is_open(w, t) {
                    assert forall|i: int| 0 <= i < bv.len() implies #[trigger] bv[i].timestamp != t by {
                        assert(!(w matches Some(x) && bv[i].timestamp <= x));
                    }
                    lemma_rows_at_absent(bv, t);
                }
                assert(plan_rows(self@.plans, s, t) =~= plan_rows(before.plans, s, t) + if s == side {
                    rows_at(bv, t)
                } else {
                    Seq::<RowView>::empty()
                });
            }
            assert forall|s: Side, t: u64| #[trigger] plan_rows(self@.plans, s, t) == replayed_rows(
                self@.table(s),
                self@.watermark,
                t,
            ) by {
                assert(plan_rows(before.plans, s, t) == replayed_rows(before.table(s), w, t));
                if s == side {
                    let tb = self@.table(s);
                    assert(tb.drop_last() =~= before.table(s));
                    assert(table_rows(tb, t) == table_rows(before.table(s), t) + rows_at(bv, t));
                    assert(plan_rows(self@.plans, s, t) =~= replayed_rows(tb, w, t));
                } else {
                    assert(plan_rows(self@.plans, s, t) =~= plan_rows(before.plans, s, t));
                }
            }
            assert(plan_times(self@.plans) =~= plan_times(before.plans) + Set::new(
                |t: u64| has_time(bv, t),
            )) by {
                assert forall|t: u64| plan_times(self@.plans).contains(t) == (plan_times(before.plans)
                    + Set::new(|t: u64| has_time(bv, t))).contains(t) by {
                    assert(Set::new(|t: u64| has_time(bv, t)).contains(t) == has_time(bv, t));
                    lemma_times_from_rows(self@.plans, t);
                    lemma_times_from_rows(before.plans, t);
                    lemma_rows_at_nonempty(bv, t);
                    assert(plan_rows(self@.plans, side, t) == plan_rows(before.plans, side, t)
                        + rows_at(bv, t));
                    assert(plan_rows(self@.plans, other(side), t) =~= plan_rows(
                        before.plans,
                        other(side),
                        t,
                    ));
                    assert(side == Side::Left || side == Side::Right);
                }
            }
        }
        Ok(())
    }
}

/// The entries of a table kept under a time not before `w`.
pub open spec fn evict(table: Seq<(u64, Seq<RowView>)>, w: u64) -> Seq<(u64, Seq<RowView>)>
    decreases table.len(),
{
    if table.len() == 0 {
        Seq::empty()
    } else {
        let prev = evict(table.drop_last(), w);
        if table.last().0 >= w {
            prev.push(table.last())
        } else {
            prev
        }
    }
}

proof fn lemma_evict(table: Seq<(u64, Seq<RowView>)>, w: u64)
    requires
        table_bounded(table),
    ensures
        table_bounded(evict(table, w)),
        forall|t: u64| t >= w ==> #[trigger] table_rows(evict(table, w), t) == table_rows(table, t),
    decreases table.len(),
{
    if table.len() > 0 {
        let d = table.drop_last();
        assert(table_bounded(d)) by {
            assert forall|i: int, j: int| 0 <= i < d.len() && 0 <= j < d[i].1.len() implies
                #[trigger] d[i].1[j].timestamp <= d[i].0 by {
                assert(d[i] == table[i]);
            }
        }
        lemma_evict(d, w);
        let last = table.last();
        let e = evict(table, w);
        assert(table_bounded(e)) by {
            assert forall|i: int, j: int| 0 <= i < e.len() && 0 <= j < e[i].1.len() implies
                #[trigger] e[i].1[j].timestamp <= e[i].0 by {
                if i < evict(d, w).len() {
                    assert(e[i] == evict(d, w)[i]);
                } else {
                    assert(e[i] == table[table.len() - 1]);
                }
            }
        }
        assert forall|t: u64| t >= w implies #[trigger] table_rows(evict(table, w), t) == table_rows(
            table,
            t,
        ) by {
            assert(table_rows(evict(d, w), t) == table_rows(d, t));
            if last.0 >= w {
                assert(evict(table, w).drop_last() =~= evict(d, w));
            } else {
                assert forall|j: int| 0 <= j < last.1.len() implies #[trigger] last.1[j].timestamp != t by {
                    assert(table[table.len() - 1].1[j].timestamp <= table[table.len() - 1].0);
                }
                lemma_rows_at_absent(last.1, t);
                assert(table_rows(table, t) =~= table_rows(d, t));
            }
        }
    }
}

fn evict_table(table: Vec<TableEntry>, w: u64) -> (r: Vec<TableEntry>)
    ensures
        table_view(r@) == evict(table_view(table@), w),
{
    let ghost orig = table_view(table@);
    let n = table.len();
    let mut rest = table;
    let mut kept: Vec<TableEntry> = Vec::new();
    let mut k: usize = 0;
    proof {
        assert(orig.subrange(0, 0) =~= Seq::<(u64, Seq<RowView>)>::empty());
        assert(table_view(kept@) =~= evict(orig.subrange(0, 0), w));
    }
    while k < n
        invariant
            k <= n,
            n == orig.len(),
            table_view(rest@) =~= orig.subrange(k as int, n as int),
            rest@.len() == n - k,
            forall|m: int| 0 <= m < rest@.len() ==> #[trigger] rest@[m]@ == orig[k + m],
            table_view(kept@) =~= evict(orig.subrange(0, k as int), w),
        decreases n - k,
    {
        assert(rest@[0]@ == orig[k as int]);
        let ghost rest0 = rest@;
        let e = rest.remove(0);
        proof {
            assert(e@ == orig[k as int]);
            let sub = orig.subrange(0, k + 1);
            assert(sub.drop_last() =~= orig.subrange(0, k as int));
            assert(sub.last() == orig[k as int]);
        }
        if e.time >= w {
            kept.push(e);
        }
        proof {
            assert forall|m: int| 0 <= m < rest@.len() implies #[trigger] rest@[m]@ == orig[k + 1 + m] by {
                assert(rest@[m] == rest0[m + 1]);
            }
            assert(table_view(rest@) =~= orig.subrange(k + 1, n as int));
        }
        k = k + 1;
    }
    proof {
        assert(orig.subrange(0, n as int) =~= orig);
    }
    kept
}

/// A joined row: the key and event time both sides share, and the values
/// of the left row and of the right row.
#[derive(Clone, Debug, PartialEq, Eq)]
pub struct JoinedRow {
    pub key: Vec<u8>,
    pub timestamp: u64,
    pub left: Vec<i64>,
    pub right: Vec<i64>,
}

/// The value of a [`JoinedRow`].
pub struct JoinedView {
    pub key: Seq<u8>,
    pub timestamp: u64,
    pub left: Seq<i64>,
    pub right: Seq<i64>,
}

impl View for JoinedRow {
    type V = JoinedView;

    open spec fn view(&self) -> JoinedView {
        JoinedView { key: self.key@, timestamp: self.timestamp, left: self.left@, right: self.right@ }
    }
}

pub open spec fn joined_view(s: Seq<JoinedRow>) -> Seq<JoinedView> {
    Seq::new(s.len(), |i: int| s[i]@)
}

/// Left row `l` joined with each right row of the same key, in order.
pub open spec fn matches_of(l: RowView, right: Seq<RowView>) -> Seq<JoinedView>
    decreases right.len(),
{
    if right.len() == 0 {
        Seq::empty()
    } else {
        let prev = matches_of(l, right.drop_last());
        let r = right.last();
        if r.key == l.key {
            prev.push(JoinedView { key: l.key, timestamp: l.timestamp, left: l.values, right: r.values })
        } else {
            prev
        }
    }
}

/// The inner join on key of two row sequences: left rows in order, each
/// with its matching right rows in order.
pub open spec fn join_pairs(left: Seq<RowView>, right: Seq<RowView>) -> Seq<JoinedView>
    decreases left.len(),
{
    if left.len() == 0 {
        Seq::empty()
    } else {
        join_pairs(left.drop_last(), right) + matches_of(left.last(), right)
    }
}

/// The output of a closed sub-plan: its left rows joined with its right
/// rows on key (a fixed inner equi-join, whatever plan the job carries).
pub fn join_sub_plan(plan: &InstantComputeHolder) -> (r: Vec<JoinedRow>)
    ensures
        joined_view(r@) == join_pairs(plan@.left, plan@.right),
{
    let left = &plan.left;
    let right = &plan.right;
    let ghost lv = plan@.left;
    let ghost rv = plan@.right;
    let mut out: Vec<JoinedRow> = Vec::new();
    let mut i: usize = 0;
    proof {
        assert(lv.subrange(0, 0) =~= Seq::<RowView>::empty());
        assert(joined_view(out@) =~= join_pairs(lv.subrange(0, 0), rv));
    }
    while i < left.len()
        invariant
            i <= left@.len(),
            lv == rows_view(left@),
            rv == rows_view(right@),
            joined_view(out@) =~= join_pairs(lv.subrange(0, i as int), rv),
        decreases left.len() - i,
    {
        let l = &left[i];
        let ghost base = joined_view(out@);
        let mut j: usize = 0;
        proof {
            assert(rv.subrange(0, 0) =~= Seq::<RowView>::empty());
            assert(joined_view(out@) =~= base + matches_of(l@, rv.subrange(0, 0)));
        }
        while j < right.len()
            invariant
                j <= right@.len(),
                i < left@.len(),
                *l == left@[i as int],
                lv == rows_view(left@),
                rv == rows_view(right@),
                joined_view(out@) =~= base + matches_of(l@, rv.subrange(0, j as int)),
            decreases right.len() - j,
        {
            let r = &right[j];
            proof {
                let sub = rv.subrange(0, j + 1);
                assert(sub.drop_last() =~= rv.subrange(0, j as int));
                assert(sub.last() == r@);
            }
            let ghost prev_out = joined_view(out@);
            if crate::timers::bytes_eq(&r.key, &l.key) {
                let key = l.key.clone();
                let lvals = l.values.clone();
                let rvals = r.values.clone();
                proof {
                    assert(key@ =~= l.key@);
                    assert(lvals@ =~= l.values@);
                    assert(rvals@ =~= r.values@);
                }
                let jr = JoinedRow { key, timestamp: l.timestamp, left: lvals, right: rvals };
                out.push(jr);
                proof {
                    assert(joined_view(out@) =~= prev_out.push(jr@));
                }
            } else {
                proof {
                    assert(joined_view(out@) =~= prev_out);
                }
            }
            proof {
                assert(joined_view(out@) =~= base + matches_of(l@, rv.subrange(0, j + 1)));
            }
            j = j + 1;
        }
        proof {
            assert(rv.subrange(0, right@.len() as int) =~= rv);
            let sub = lv.subrange(0, i + 1);
            assert(sub.drop_last() =~= lv.subrange(0, i as int));
            assert(sub.last() == l@);
        }
        i = i + 1;
    }
    proof {
        assert(lv.subrange(0, left@.len() as int) =~= lv);
    }
    out
}

/// The tables and watermark of a join, as written at a checkpoint.
#[derive(Debug)]
pub struct JoinCheckpoint {
    pub left: Vec<TableEntry>,
    pub right: Vec<TableEntry>,
    pub watermark: Option<u64>,
}

fn copy_batch(b: &RecordBatch) -> (r: RecordBatch)
    ensures
        r@ == b@,
{
    let mut rows: Vec<Row> = Vec::new();
    let mut i: usize = 0;
    while i < b.rows.len()
        invariant
            i <= b.rows@.len(),
            rows_view(rows@) =~= b@.subrange(0, i as int),
        decreases b.rows.len() - i,
    {
        let r = copy_row(&b.rows[i]);
        let ghost prev = rows_view(rows@);
        rows.push(r);
        proof {
            assert(rows_view(rows@) =~= prev.push(r@));
            assert(b@.subrange(0, i + 1) =~= b@.subrange(0, i as int).push(b@[i as int]));
        }
        i = i + 1;
    }
    proof {
        assert(b@.subrange(0, b.rows@.len() as int) =~= b@);
    }
    RecordBatch { rows }
}

fn copy_table(t: &Vec<TableEntry>) -> (r: Vec<TableEntry>)
    ensures
        table_view(r@) == table_view(t@),
{
    let mut out: Vec<TableEntry> = Vec::new();
    let mut i: usize = 0;
    while i < t.len()
        invariant
            i <= t@.len(),
            table_view(out@) =~= table_view(t@).subrange(0, i as int),
        decreases t.len() - i,
    {
        let batch = copy_batch(&t[i].batch);
        let ghost prev = table_view(out@);
        let e = TableEntry { time: t[i].time, batch };
        out.push(e);
        proof {
            assert(table_view(out@) =~= prev.push(e@));
            assert(table_view(t@).subrange(0, i + 1) =~= table_view(t@).subrange(0, i as int).push(
                table_view(t@)[i as int],
            ));
        }
        i = i + 1;
    }
    proof {
        assert(table_view(t@).subrange(0, t@.len() as int) =~= table_view(t@));
    }
    out
}

fn check_bounded(t: &Vec<TableEntry>) -> (r: bool)
    ensures
        r == table_bounded(table_view(t@)),
{
    let mut i: usize = 0;
    while i < t.len()
        invariant
            i <= t@.len(),
            forall|a: int, b: int|
                0 <= a < i && 0 <= b < table_view(t@)[a].1.len() ==> #[trigger] table_view(t@)[a].1[b].timestamp
                    <= table_view(t@)[a].0,
        decreases t.len() - i,
    {
        let e = &t[i];
        let mut j: usize = 0;
        while j < e.batch.rows.len()
            invariant
                i < t@.len(),
                *e == t@[i as int],
                j <= e.batch.rows@.len(),
                forall|b: int| 0 <= b < j ==> #[trigger] e.batch@[b].timestamp <= e.time,
            decreases e.batch.rows.len() - j,
        {
            if e.batch.rows[j].timestamp > e.time {
                proof {
                    assert(table_view(t@)[i as int].1[j as int].timestamp > table_view(t@)[i as int].0);
                }
                return false;
            }
            j = j + 1;
        }
        proof {
            assert forall|a: int, b: int|
                0 <= a < i + 1 && 0 <= b < table_view(t@)[a].1.len() implies #[trigger] table_view(
                t@,
            )[a].1[b].timestamp <= table_view(t@)[a].0 by {
                if a == i {
                    assert(e.batch@[b].timestamp <= e.time);
                }
            }
        }
        i = i + 1;
    }
    true
}

impl InstantJoin {
    /// Closes every time before the watermark: takes out the sub-plans of
    /// those times, earliest first, and drops from both tables the batches
    /// kept under an earlier time. A watermark below the one already seen
    /// changes nothing.
    pub fn handle_watermark(&mut self, w: u64) -> (r: Vec<InstantComputeHolder>)
        requires
            old(self)@.wf(),
        ensures
            final(self)@.wf(),
            final(self)@.watermark == Some(new_watermark(old(self)@.watermark, w)),
            plans_view(r@) + final(self)@.plans == old(self)@.plans,
            forall|i: int| 0 <= i < r@.len() ==> (#[trigger] r@[i]).time < new_watermark(
                old(self)@.watermark,
                w,
            ),
            forall|i: int| 0 <= i < final(self)@.plans.len() ==> (#[trigger] final(self)@.plans[i]).time
                >= new_watermark(old(self)@.watermark, w),
            plan_times(final(self)@.plans) == plan_times(old(self)@.plans).filter(
                |u: u64| u >= new_watermark(old(self)@.watermark, w),
            ),
            final(self)@.left_table == evict(old(self)@.left_table, new_watermark(old(self)@.watermark, w)),
            final(self)@.right_table == evict(old(self)@.right_table, new_watermark(old(self)@.watermark, w)),
    {
        let nw = match self.watermark {
            Some(x) => if x > w { x } else { w },
            None => w,
        };
        let ghost before = self@;
        let closed = self.execs.close_before(nw);
        let mut left: Vec<TableEntry> = Vec::new();
        std::mem::swap(&mut left, &mut self.left_table);
        self.left_table = evict_table(left, nw);
        let mut right: Vec<TableEntry> = Vec::new();
        std::mem::swap(&mut right, &mut self.right_table);
        self.right_table = evict_table(right, nw);
        self.watermark = Some(nw);
        proof {
            lemma_evict(before.left_table, nw);
            lemma_evict(before.right_table, nw);
            assert forall|s: Side, t: u64| #[trigger] plan_rows(self@.plans, s, t) == replayed_rows(
                self@.table(s),
                self@.watermark,
                t,
            ) by {
                assert(plan_rows(before.plans, s, t) == replayed_rows(before.table(s), before.watermark, t));
                if t >= nw {
                    assert(table_rows(self@.table(s), t) == table_rows(before.table(s), t));
                }
            }
        }
        closed
    }

    /// The tables and watermark to write at a checkpoint.
    pub fn checkpoint(&self) -> (r: JoinCheckpoint)
        ensures
            table_view(r.left@) == self@.left_table,
            table_view(r.right@) == self@.right_table,
            r.watermark == self@.watermark,
    {
        JoinCheckpoint {
            left: copy_table(&self.left_table),
            right: copy_table(&self.right_table),
            watermark: self.watermark,
        }
    }

    /// Rebuilds a join from a checkpoint: its tables and watermark are
    /// taken over, and every kept row of a time not yet closed is handed
    /// to its sub-plan again. Refused when a kept batch holds a row later
    /// than the time it is kept under.
    pub fn restore(
        left_input_schema: ArroyoSchema,
        right_input_schema: ArroyoSchema,
        join_plan: Vec<u8>,
        cp: JoinCheckpoint,
    ) -> (r: Result<InstantJoin, JoinError>)
        ensures
            !(table_bounded(table_view(cp.left@)) && table_bounded(table_view(cp.right@))) ==> r
                is Err,
            r is Err ==> r == Err::<InstantJoin, JoinError>(JoinError::InvalidCheckpoint),
            table_bounded(table_view(cp.left@)) && table_bounded(table_view(cp.right@)) ==> (r matches Ok(
                j,
            ) && j@.wf() && j@.left_table == table_view(cp.left@) && j@.right_table == table_view(
                cp.right@,
            ) && j@.watermark == cp.watermark && plan_times(j@.plans) == replayed_times(
                j@.left_table,
                j@.right_table,
                j@.watermark,
            )),
    {
        if !check_bounded(&cp.left) || !check_bounded(&cp.right) {
            return Err(JoinError::InvalidCheckpoint);
        }
        let w = cp.watermark;
        let mut j = InstantJoin::new(left_input_schema, right_input_schema, join_plan);
        let ghost lt = table_view(cp.left@);
        let ghost rt = table_view(cp.right@);
        j.replay(Side::Left, &cp.left, w);
        j.replay(Side::Right, &cp.right, w);
        j.left_table = cp.left;
        j.right_table = cp.right;
        j.watermark = w;
        proof {
            assert forall|s: Side, t: u64| #[trigger] plan_rows(j@.plans, s, t) == replayed_rows(
                j@.table(s),
                j@.watermark,
                t,
            ) by {
                assert(plan_rows(j@.plans, s, t) == Seq::<RowView>::empty() + replayed_rows(
                    j@.table(s),
                    w,
                    t,
                ));
                assert(plan_rows(j@.plans, s, t) =~= replayed_rows(j@.table(s), w, t));
            }
            assert(plan_times(j@.plans) =~= replayed_times(j@.left_table, j@.right_table, w)) by {
                assert forall|t: u64| plan_times(j@.plans).contains(t) <==> replayed_times(
                    j@.left_table,
                    j@.right_table,
                    w,
                ).contains(t) by {
                    lemma_times_from_rows(j@.plans, t);
                    lemma_table_rows_nonempty(j@.left_table, t);
                    lemma_table_rows_nonempty(j@.right_table, t);
                    assert(plan_rows(j@.plans, Side::Left, t) == replayed_rows(j@.left_table, w, t));
                    assert(plan_rows(j@.plans, Side::Right, t) == replayed_rows(j@.right_table, w, t));
                }
            }
        }
        Ok(j)
    }

    fn replay(&mut self, side: Side, table: &Vec<TableEntry>, w: Option<u64>)
        requires
            plans_sorted(old(self)@.plans),
        ensures
            plans_sorted(final(self)@.plans),
            plans_nonempty(old(self)@.plans) ==> plans_nonempty(final(self)@.plans),
            final(self)@.left_table == old(self)@.left_table,
            final(self)@.right_table == old(self)@.right_table,
            final(self)@.watermark == old(self)@.watermark,
            forall|s: Side, t: u64|
                #[trigger] plan_rows(final(self)@.plans, s, t) == plan_rows(old(self)@.plans, s, t) + if s
                    == side {
                    replayed_rows(table_view(table@), w, t)
                } else {
                    Seq::<RowView>::empty()
                },
    {
        let ghost tv = table_view(table@);
        let ghost start = self@.plans;
        let mut k: usize = 0;
        while k < table.len()
            invariant
                k <= table@.len(),
                tv == table_view(table@),
                plans_sorted(self@.plans),
                plans_nonempty(old(self)@.plans) ==> plans_nonempty(self@.plans),
                self@.left_table == old(self)@.left_table,
                self@.right_table == old(self)@.right_table,
                self@.watermark == old(self)@.watermark,
                start == old(self)@.plans,
                forall|s: Side, t: u64|
                    #[trigger] plan_rows(self@.plans, s, t) == plan_rows(start, s, t) + if s == side {
                        replayed_rows(tv.subrange(0, k as int), w, t)
                    } else {
                        Seq::<RowView>::empty()
                    },
            decreases table.len() - k,
        {
            let ghost mid = self@.plans;
            self.add_rows(side, &table[k].batch, w);
            proof {
                let sub = tv.subrange(0, k + 1);
                assert(sub.drop_last() =~= tv.subrange(0, k as int));
                assert(sub.last() == tv[k as int]);
                assert forall|s: Side, t: u64|
                    #[trigger] plan_rows(self@.plans, s, t) == plan_rows(start, s, t) + if s == side {
                        replayed_rows(sub, w, t)
                    } else {
                        Seq::<RowView>::empty()
                    } by {
                    assert(plan_rows(self@.plans, s, t) == plan_rows(mid, s, t) + if s == side && is_open(
                        w,
                        t,
                    ) {
                        rows_at(tv[k as int].1, t)
                    } else {
                        Seq::<RowView>::empty()
                    });
                    assert(plan_rows(self@.plans, s, t) =~= plan_rows(start, s, t) + if s == side {
                        replayed_rows(sub, w, t)
                    } else {
                        Seq::<RowView>::empty()
                    });
                }
            }
            k = k + 1;
        }
        proof {
            assert(tv.subrange(0, table@.len() as int) =~= tv);
        }
    }
}

/// The watermark a join holds after seeing `w`: it never moves back.
pub open spec fn new_watermark(old: Option<u64>, w: u64) -> u64 {
    match old {
        Some(x) => if x > w { x } else { w },
        None => w,
    }
}

/// Restarting loses and repeats nothing: a join rebuilt from the
/// checkpoint of a join (same tables, same watermark) holds, for every
/// side and event time, exactly the rows the live join holds, so the
/// sub-plans it closes at any later watermark join the same rows.
pub proof fn lemma_restart_idempotent(live: JoinView, restored: JoinView)
    requires
        live.wf(),
        restored.wf(),
        restored.left_table == live.left_table,
        restored.right_table == live.right_table,
        restored.watermark == live.watermark,
    ensures
        forall|s: Side, t: u64|
            #[trigger] plan_rows(restored.plans, s, t) == plan_rows(live.plans, s, t),
{
    assert forall|s: Side, t: u64|
        #[trigger] plan_rows(restored.plans, s, t) == plan_rows(live.plans, s, t) by {
        assert(restored.table(s) == live.table(s));
    }
}

/// The configuration an instant join is built from: the serialized join
/// plan and the schemas of both inputs.
#[derive(Clone, Debug, PartialEq, Eq)]
pub struct JoinOperatorConfig {
    pub join_plan: Vec<u8>,
    pub left_schema: Option<ArroyoSchema>,
    pub right_schema: Option<ArroyoSchema>,
}

/// Why a join could not be built.
#[derive(Clone, Copy, Debug, PartialEq, Eq, Structural)]
pub enum ConfigError {
    MissingLeftSchema,
    MissingRightSchema,
}

/// Builds instant joins from their configuration.
#[derive(Clone, Copy, Debug, PartialEq, Eq, Structural)]
pub struct InstantJoinConstructor;

impl InstantJoinConstructor {
    /// A fresh join for `config`; both input schemas are needed.
    pub fn with_config(&self, config: JoinOperatorConfig) -> (r: Result<InstantJoin, ConfigError>)
        ensures
            config.left_schema is None ==> r == Err::<InstantJoin, ConfigError>(
                ConfigError::MissingLeftSchema,
            ),
            config.left_schema is Some && config.right_schema is None ==> r == Err::<
                InstantJoin,
                ConfigError,
            >(ConfigError::MissingRightSchema),
            config.left_schema is Some && config.right_schema is Some ==> (r matches Ok(j) && j@.wf()
                && j@.plans.len() == 0 && j@.left_table.len() == 0 && j@.right_table.len() == 0
                && j@.watermark is None && Some(j.spec_input_schema(Side::Left)) == config.left_schema
                && Some(j.spec_input_schema(Side::Right)) == config.right_schema
                && j.spec_join_plan() == config.join_plan@),
    {
        let left = match config.left_schema {
            Some(s) => s,
            None => {
                return Err(ConfigError::MissingLeftSchema);
            },
        };
        let right = match config.right_schema {
            Some(s) => s,
            None => {
                return Err(ConfigError::MissingRightSchema);
            },
        };
        Ok(InstantJoin::new(left, right, config.join_plan))
    }
}

/// Which side input `index` of `total_inputs` feeds: the first half of
/// the inputs feed the left side, the second half the right; with fewer
/// than two inputs, or past both halves, none.
pub open spec fn spec_side_of_input(index: usize, total_inputs: usize) -> Option<Side> {
    let half = total_inputs as int / 2;
    if half == 0 {
        None
    } else if index < half {
        Some(Side::Left)
    } else if index < 2 * half {
        Some(Side::Right)
    } else {
        None
    }
}

/// The side that input `index` of `total_inputs` feeds, if any.
pub fn side_of_input(index: usize, total_inputs: usize) -> (r: Option<Side>)
    ensures
        r == spec_side_of_input(index, total_inputs),
{
    if total_inputs < 2 {
        return None;
    }
    let half = total_inputs / 2;
    let q = index / half;
    proof {
        assert(q == 0 <==> index < half) by (nonlinear_arith)
            requires q == index / half, half > 0;
        assert(q == 1 <==> half <= index < 2 * half) by (nonlinear_arith)
            requires q == index / half, half > 0;
    }
    if q == 0 {
        Some(Side::Left)
    } else if q == 1 {
        Some(Side::Right)
    } else {
        None
    }
}

/// Why a batch from some input was not taken.
#[derive(Clone, Copy, Debug, PartialEq, Eq, Structural)]
pub enum InputError {
    /// The input feeds neither side.
    NoSuchSide,
    Join(JoinError),
}

impl InstantJoin {
    /// Takes a batch from input `index` of `total_inputs`, on the side
    /// that input feeds.
    pub fn process_batch_index(&mut self, index: usize, total_inputs: usize, batch: RecordBatch) -> (r:
        Result<(), InputError>)
        requires
            old(self)@.wf(),
        ensures
            final(self)@.wf(),
            spec_side_of_input(index, total_inputs) is None ==> r == Err::<(), InputError>(
                InputError::NoSuchSide,
            ) && final(self)@ == old(self)@,
            spec_side_of_input(index, total_inputs) matches Some(side) ==> {
                &&& batch@.len() == 0 ==> r == Err::<(), InputError>(
                    InputError::Join(JoinError::EmptyBatch),
                ) && final(self)@ == old(self)@
                &&& batch@.len() > 0 && has_late_row(batch@, old(self)@.watermark) ==> r == Err::<
                    (),
                    InputError,
                >(InputError::Join(JoinError::LateData)) && final(self)@ == old(self)@
                &&& batch@.len() > 0 && !has_late_row(batch@, old(self)@.watermark) ==> {
                    &&& r is Ok
                    &&& final(self)@.watermark == old(self)@.watermark
                    &&& exists|m: u64|
                        is_max_time(batch@, m) && final(self)@.table(side) == old(self)@.table(
                            side,
                        ).push((m, batch@))
                    &&& final(self)@.table(other(side)) == old(self)@.table(other(side))
                    &&& forall|s: Side, t: u64|
                        #[trigger] plan_rows(final(self)@.plans, s, t) == plan_rows(
                            old(self)@.plans,
                            s,
                            t,
                        ) + if s == side {
                            rows_at(batch@, t)
                        } else {
                            Seq::<RowView>::empty()
                        }
                    &&& plan_times(final(self)@.plans) == plan_times(old(self)@.plans) + Set::new(
                        |t: u64| has_time(batch@, t),
                    )
                }
            },
    {
        match side_of_input(index, total_inputs) {
            None => Err(InputError::NoSuchSide),
            Some(side) => match self.process_side(side, batch) {
                Ok(()) => Ok(()),
                Err(e) => Err(InputError::Join(e)),
            },
        }
    }
}

/// The other input.
pub open spec fn other(side: Side) -> Side {
    match side {
        Side::Left => Side::Right,
        Side::Right => Side::Left,
    }
}

} // verus!
