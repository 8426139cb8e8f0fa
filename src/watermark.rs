use vstd::prelude::*;
use crate::types::Watermark;

verus! {

/// Folds per-input watermarks into one: the least event time among the
/// inputs, `Idle` inputs ignored, `Idle` if all are idle, and nothing
/// while some input has not reported yet.
pub open spec fn combine(ws: Seq<Option<Watermark>>) -> Option<Watermark>
    decreases ws.len(),
{
    if ws.len() == 0 {
        Some(Watermark::Idle)
    } else {
        match (combine(ws.drop_last()), ws.last()) {
            (Some(Watermark::EventTime(a)), Some(Watermark::EventTime(b))) => Some(
                Watermark::EventTime(if a <= b { a } else { b }),
            ),
            (Some(Watermark::EventTime(a)), Some(Watermark::Idle)) => Some(Watermark::EventTime(a)),
            (Some(Watermark::Idle), Some(w)) => Some(w),
            _ => None,
        }
    }
}

/// Holds a combined event time at or above the last one already reached.
pub open spec fn clamp(c: Option<Watermark>, last: Option<u64>) -> Option<Watermark> {
    match (c, last) {
        (Some(Watermark::EventTime(t)), Some(l)) => Some(
            Watermark::EventTime(if t < l { l } else { t }),
        ),
        _ => c,
    }
}

/// The last event time that a watermark value carries, if any.
pub open spec fn present_of(w: Option<Watermark>, last: Option<u64>) -> Option<u64> {
    match w {
        Some(Watermark::EventTime(t)) => Some(t),
        _ => last,
    }
}

/// The state of a [`WatermarkHolder`] as plain values.
pub struct HolderView {
    pub inputs: Seq<Option<Watermark>>,
    pub current: Option<Watermark>,
    pub last_present: Option<u64>,
}

impl HolderView {
    pub open spec fn wf(self) -> bool {
        &&& self.current == clamp(combine(self.inputs), self.last_present)
        &&& self.last_present == present_of(self.current, self.last_present)
    }

    /// The state after input `idx` reports `w`.
    pub open spec fn after_set(self, idx: int, w: Watermark) -> HolderView {
        let inputs = self.inputs.update(idx, Some(w));
        let current = clamp(combine(inputs), self.last_present);
        HolderView { inputs, current, last_present: present_of(current, self.last_present) }
    }

    /// What `set` hands back: the new task watermark when it changed.
    pub open spec fn emitted(self, idx: int, w: Watermark) -> Option<Watermark> {
        let next = self.after_set(idx, w);
        if next.current != self.current {
            next.current
        } else {
            None
        }
    }
}

/// Tracks the latest watermark of each input edge and derives the task
/// watermark from them.
pub struct WatermarkHolder {
    watermarks: Vec<Option<Watermark>>,
    cur_watermark: Option<Watermark>,
    last_present_watermark: Option<u64>,
}

impl View for WatermarkHolder {
    type V = HolderView;

    closed spec fn view(&self) -> HolderView {
        HolderView {
            inputs: self.watermarks@,
            current: self.cur_watermark,
            last_present: self.last_present_watermark,
        }
    }
}

fn combine_step(acc: Option<Watermark>, next: Option<Watermark>) -> (r: Option<Watermark>)
    ensures
        forall|ws: Seq<Option<Watermark>>|
            #![trigger ws.push(next)]
            combine(ws) == acc ==> combine(ws.push(next)) == r,
{
    proof {
        assert forall|ws: Seq<Option<Watermark>>|
            #![trigger ws.push(next)]
            combine(ws) == acc implies combine(ws.push(next)) == match (acc, next) {
                (Some(Watermark::EventTime(a)), Some(Watermark::EventTime(b))) => Some(
                    Watermark::EventTime(if a <= b { a } else { b }),
                ),
                (Some(Watermark::EventTime(a)), Some(Watermark::Idle)) => Some(
                    Watermark::EventTime(a),
                ),
                (Some(Watermark::Idle), Some(w)) => Some(w),
                _ => None,
            } by {
            assert(ws.push(next).drop_last() =~= ws);
        }
    }
    match (acc, next) {
        (Some(Watermark::EventTime(a)), Some(Watermark::EventTime(b))) => Some(
            Watermark::EventTime(if a <= b { a } else { b }),
        ),
        (Some(Watermark::EventTime(a)), Some(Watermark::Idle)) => Some(Watermark::EventTime(a)),
        (Some(Watermark::Idle), Some(w)) => Some(w),
        _ => None,
    }
}

fn combine_all(ws: &Vec<Option<Watermark>>) -> (r: Option<Watermark>)
    ensures
        r == combine(ws@),
{
    let mut acc: Option<Watermark> = Some(Watermark::Idle);
    let mut i: usize = 0;
    proof {
        assert(ws@.subrange(0, 0) =~= Seq::<Option<Watermark>>::empty());
    }
    while i < ws.len()
        invariant
            i <= ws.len(),
            acc == combine(ws@.subrange(0, i as int)),
        decreases ws.len() - i,
    {
        let next = ws[i];
        let r = combine_step(acc, next);
        proof {
            assert(ws@.subrange(0, i as int).push(next) =~= ws@.subrange(0, i + 1));
        }
        acc = r;
        i = i + 1;
    }
    proof {
        assert(ws@.subrange(0, ws.len() as int) =~= ws@);
    }
    acc
}

fn clamp_exec(c: Option<Watermark>, last: Option<u64>) -> (r: Option<Watermark>)
    ensures
        r == clamp(c, last),
{
    match (c, last) {
        (Some(Watermark::EventTime(t)), Some(l)) => Some(
            Watermark::EventTime(if t < l { l } else { t }),
        ),
        _ => c,
    }
}

impl WatermarkHolder {
    pub open spec fn wf(&self) -> bool {
        self@.wf()
    }

    /// A holder for the given per-input watermarks (all `None` for a fresh
    /// task; the restored minimum for a task that resumes a checkpoint).
    pub fn new(watermarks: Vec<Option<Watermark>>) -> (h: WatermarkHolder)
        ensures
            h.wf(),
            h@.inputs == watermarks@,
            h@.current == combine(watermarks@),
            h@.last_present == present_of(combine(watermarks@), None),
    {
        let c = combine_all(&watermarks);
        let last = match c {
            Some(Watermark::EventTime(t)) => Some(t),
            _ => None,
        };
        WatermarkHolder { watermarks, cur_watermark: c, last_present_watermark: last }
    }

    /// The number of inputs.
    pub fn input_count(&self) -> (r: usize)
        ensures
            r == self@.inputs.len(),
    {
        self.watermarks.len()
    }

    /// The current task watermark.
    pub fn watermark(&self) -> (r: Option<Watermark>)
        ensures
            r == self@.current,
    {
        self.cur_watermark
    }

    /// The last event time the task watermark has carried, even while the
    /// task is idle.
    pub fn last_present_watermark(&self) -> (r: Option<u64>)
        ensures
            r == self@.last_present,
    {
        self.last_present_watermark
    }

    /// Records watermark `w` for input `idx`. Gives `None` when there is no
    /// such input; otherwise `Some` of the new task watermark when it
    /// changed, or `Some(None)` when it did not.
    pub fn set(&mut self, idx: usize, w: Watermark) -> (r: Option<Option<Watermark>>)
        requires
            old(self).wf(),
        ensures
            final(self).wf(),
            idx >= old(self)@.inputs.len() ==> r is None && final(self)@ == old(self)@,
            idx < old(self)@.inputs.len() ==> r == Some(old(self)@.emitted(idx as int, w))
                && final(self)@ == old(self)@.after_set(idx as int, w),
    {
        if idx >= self.watermarks.len() {
            return None;
        }
        self.watermarks.set(idx, Some(w));
        let c = combine_all(&self.watermarks);
        let next = clamp_exec(c, self.last_present_watermark);
        let old_watermark = self.cur_watermark;
        self.cur_watermark = next;
        if let Some(Watermark::EventTime(t)) = next {
            self.last_present_watermark = Some(t);
        }
        if next != old_watermark {
            Some(next)
        } else {
            Some(None)
        }
    }
}

/// Replays a series of watermark reports `(input, watermark)` from state
/// `h`, giving the final state and the task watermarks emitted on the way.
pub open spec fn run(h: HolderView, updates: Seq<(int, Watermark)>) -> (HolderView, Seq<Watermark>)
    decreases updates.len(),
{
    if updates.len() == 0 {
        (h, Seq::empty())
    } else {
        let (prev, out) = run(h, updates.drop_last());
        let (idx, w) = updates.last();
        let next = prev.after_set(idx, w);
        match prev.emitted(idx, w) {
            Some(e) => (next, out.push(e)),
            None => (next, out),
        }
    }
}

/// True when the event times in `s` never decrease (idle marks aside).
pub open spec fn event_times_non_decreasing(s: Seq<Watermark>) -> bool {
    forall|i: int, j: int|
        0 <= i < j < s.len() ==> match (#[trigger] s[i], #[trigger] s[j]) {
            (Watermark::EventTime(a), Watermark::EventTime(b)) => a <= b,
            _ => true,
        }
}

proof fn lemma_after_set_progress(h: HolderView, idx: int, w: Watermark)
    requires
        h.wf(),
    ensures
        h.after_set(idx, w).wf(),
        h.last_present matches Some(l) ==> h.after_set(idx, w).last_present matches Some(m) && l <= m,
        h.emitted(idx, w) matches Some(Watermark::EventTime(t)) ==> h.after_set(idx, w).last_present
            == Some(t) && (h.last_present matches Some(l) ==> l <= t),
{
}

proof fn lemma_run_monotone(h: HolderView, updates: Seq<(int, Watermark)>)
    requires
        h.wf(),
    ensures
        run(h, updates).0.wf(),
        event_times_non_decreasing(run(h, updates).1),
        forall|i: int|
            0 <= i < run(h, updates).1.len() ==> match #[trigger] run(h, updates).1[i] {
                Watermark::EventTime(t) => run(h, updates).0.last_present matches Some(m) && t <= m
                    && (h.last_present matches Some(l) ==> l <= t),
                _ => true,
            },
        h.last_present matches Some(l) ==> run(h, updates).0.last_present matches Some(m) && l <= m,
    decreases updates.len(),
{
    if updates.len() > 0 {
        lemma_run_monotone(h, updates.drop_last());
        let (prev, out) = run(h, updates.drop_last());
        let (idx, w) = updates.last();
        lemma_after_set_progress(prev, idx, w);
    }
}

/// Whatever the inputs report, the task watermarks that a holder emits
/// carry event times that never decrease, and none falls below the last
/// event time the holder had already reached.
pub proof fn lemma_emitted_watermarks_monotone(h: HolderView, updates: Seq<(int, Watermark)>)
    requires
        h.wf(),
    ensures
        event_times_non_decreasing(run(h, updates).1),
        forall|i: int|
            0 <= i < run(h, updates).1.len() ==> match #[trigger] run(h, updates).1[i] {
                Watermark::EventTime(t) => h.last_present matches Some(l) ==> l <= t,
                _ => true,
            },
{
    lemma_run_monotone(h, updates);
}

} // verus!
