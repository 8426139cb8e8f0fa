use vstd::prelude::*;
use crate::types::{CheckpointBarrier, CheckpointEventType};
use crate::runtime::{ActionView, barrier_actions};

verus! {

/// A barrier that breaks the alignment protocol.
#[derive(Clone, Copy, Debug, PartialEq, Eq, Structural)]
pub enum AlignmentError {
    /// The input index names no input of the task.
    NoSuchInput,
    /// The input already delivered a barrier that is still aligning.
    AlreadyBlocked,
    /// Another input is aligning a different epoch.
    EpochMismatch,
    /// The epoch is not above the last completed one.
    StaleEpoch,
}

/// The alignment state of a [`CheckpointCounter`] as plain values.
pub struct CounterView {
    /// For each input, the epoch of the barrier it delivered and that is
    /// still waiting for the others.
    pub inputs: Seq<Option<u32>>,
    /// The epoch of the last completed alignment.
    pub last_completed: Option<u32>,
}

impl CounterView {
    pub open spec fn all_clear(self) -> bool {
        forall|i: int| 0 <= i < self.inputs.len() ==> #[trigger] self.inputs[i] is None
    }

    /// Every input that delivered a barrier delivered the same epoch.
    pub open spec fn wf(self) -> bool {
        forall|i: int, j: int|
            0 <= i < self.inputs.len() && 0 <= j < self.inputs.len() && #[trigger] self.inputs[i]
                is Some && #[trigger] self.inputs[j] is Some ==> self.inputs[i] == self.inputs[j]
    }

    /// Why a barrier of `epoch` on input `idx` is refused, if it is.
    pub open spec fn refusal(self, idx: int, epoch: u32) -> Option<AlignmentError> {
        if !(0 <= idx < self.inputs.len()) {
            Some(AlignmentError::NoSuchInput)
        } else if self.inputs[idx] is Some {
            Some(AlignmentError::AlreadyBlocked)
        } else if exists|j: int|
            0 <= j < self.inputs.len() && #[trigger] self.inputs[j] is Some && self.inputs[j]
                != Some(epoch) {
            Some(AlignmentError::EpochMismatch)
        } else if self.last_completed matches Some(l) && epoch <= l {
            Some(AlignmentError::StaleEpoch)
        } else {
            None
        }
    }

    /// Input `idx` with its barrier of `epoch` recorded.
    pub open spec fn marked(self, idx: int, epoch: u32) -> Seq<Option<u32>> {
        self.inputs.update(idx, Some(epoch))
    }

    /// The state after a barrier of `epoch` on input `idx` that is not
    /// refused: marked, or, when it was the last one awaited, all inputs
    /// released and the epoch completed.
    pub open spec fn after_mark(self, idx: int, epoch: u32) -> CounterView {
        if self.completes(idx, epoch) {
            CounterView {
                inputs: Seq::new(self.inputs.len(), |i: int| None),
                last_completed: Some(epoch),
            }
        } else {
            CounterView { inputs: self.marked(idx, epoch), last_completed: self.last_completed }
        }
    }

    /// True when, once input `idx` is marked, every input has delivered.
    pub open spec fn completes(self, idx: int, epoch: u32) -> bool {
        forall|i: int| 0 <= i < self.inputs.len() ==> #[trigger] self.marked(idx, epoch)[i] is Some
    }
}

/// Records, for the epoch being aligned, which inputs have delivered their
/// barrier.
pub struct CheckpointCounter {
    inputs: Vec<Option<u32>>,
    last_completed: Option<u32>,
}

impl View for CheckpointCounter {
    type V = CounterView;

    closed spec fn view(&self) -> CounterView {
        CounterView { inputs: self.inputs@, last_completed: self.last_completed }
    }
}

impl CheckpointCounter {
    /// A counter for `size` inputs, none of them blocked.
    pub fn new(size: usize) -> (c: CheckpointCounter)
        ensures
            c@.wf(),
            c@.inputs.len() == size,
            c@.all_clear(),
            c@.last_completed is None,
    {
        let mut inputs: Vec<Option<u32>> = Vec::new();
        let mut i: usize = 0;
        while i < size
            invariant
                i <= size,
                inputs@.len() == i,
                forall|k: int| 0 <= k < i ==> #[trigger] inputs@[k] is None,
            decreases size - i,
        {
            inputs.push(None);
            i = i + 1;
        }
        CheckpointCounter { inputs, last_completed: None }
    }

    /// The number of inputs.
    pub fn len(&self) -> (r: usize)
        ensures
            r == self@.inputs.len(),
    {
        self.inputs.len()
    }

    /// Whether input `idx` delivered a barrier whose alignment is not done.
    pub fn is_blocked(&self, idx: usize) -> (r: bool)
        ensures
            r == (idx < self@.inputs.len() && self@.inputs[idx as int] is Some),
    {
        idx < self.inputs.len() && self.inputs[idx].is_some()
    }

    /// Whether no alignment is in progress.
    pub fn all_clear(&self) -> (r: bool)
        ensures
            r == self@.all_clear(),
    {
        let mut i: usize = 0;
        while i < self.inputs.len()
            invariant
                i <= self.inputs.len(),
                forall|k: int| 0 <= k < i ==> #[trigger] self.inputs@[k] is None,
            decreases self.inputs.len() - i,
        {
            if self.inputs[i].is_some() {
                return false;
            }
            i = i + 1;
        }
        true
    }

    /// Records the barrier of input `idx`. Gives `Ok(true)` when this was
    /// the last input the epoch waited for: the alignment is then complete
    /// and every input is released.
    pub fn mark(&mut self, idx: usize, barrier: &CheckpointBarrier) -> (r: Result<bool, AlignmentError>)
        requires
            old(self)@.wf(),
        ensures
            final(self)@.wf(),
            final(self)@.inputs.len() == old(self)@.inputs.len(),
            match old(self)@.refusal(idx as int, barrier.epoch) {
                Some(e) => r == Err::<bool, AlignmentError>(e) && final(self)@ == old(self)@,
                None => final(self)@ == old(self)@.after_mark(idx as int, barrier.epoch) && if old(
                    self,
                )@.completes(idx as int, barrier.epoch) {
                    &&& r == Ok::<bool, AlignmentError>(true)
                    &&& final(self)@.all_clear()
                    &&& final(self)@.last_completed == Some(barrier.epoch)
                } else {
                    &&& r == Ok::<bool, AlignmentError>(false)
                    &&& final(self)@.inputs == old(self)@.marked(idx as int, barrier.epoch)
                    &&& final(self)@.last_completed == old(self)@.last_completed
                },
            },
    {
        let epoch = barrier.epoch;
        if idx >= self.inputs.len() {
            return Err(AlignmentError::NoSuchInput);
        }
        if self.inputs[idx].is_some() {
            return Err(AlignmentError::AlreadyBlocked);
        }
        let mut mismatch: Option<usize> = None;
        let mut i: usize = 0;
        while i < self.inputs.len()
            invariant
                i <= self.inputs.len(),
                mismatch matches Some(m) ==> m < self.inputs.len() && self.inputs@[m as int] is Some
                    && self.inputs@[m as int] != Some(epoch),
                mismatch is None ==> forall|k: int|
                    0 <= k < i ==> (#[trigger] self.inputs@[k] is Some ==> self.inputs@[k] == Some(
                        epoch,
                    )),
            decreases self.inputs.len() - i,
        {
            if let Some(e) = self.inputs[i] {
                if e != epoch {
                    mismatch = Some(i);
                }
            }
            i = i + 1;
        }
        if let Some(m) = mismatch {
            proof {
                assert(old(self)@.inputs[m as int] is Some);
            }
            return Err(AlignmentError::EpochMismatch);
        }
        if let Some(l) = self.last_completed {
            if epoch <= l {
                return Err(AlignmentError::StaleEpoch);
            }
        }
        self.inputs.set(idx, Some(epoch));
        let mut complete = true;
        let mut j: usize = 0;
        while j < self.inputs.len()
            invariant
                j <= self.inputs.len(),
                self.inputs@ == old(self)@.marked(idx as int, epoch),
                self.last_completed == old(self).last_completed,
                forall|k: int|
                    0 <= k < self.inputs@.len() ==> (#[trigger] self.inputs@[k] is Some ==> self.inputs@[k] == Some(
                        epoch,
                    )),
                complete == forall|k: int| 0 <= k < j ==> #[trigger] self.inputs@[k] is Some,
            decreases self.inputs.len() - j,
        {
            if self.inputs[j].is_none() {
                complete = false;
            }
            j = j + 1;
        }
        if complete {
            let n = self.inputs.len();
            let mut k: usize = 0;
            while k < n
                invariant
                    k <= n,
                    n == self.inputs@.len(),
                    forall|m: int| 0 <= m < k ==> #[trigger] self.inputs@[m] is None,
                decreases n - k,
            {
                self.inputs.set(k, None);
                k = k + 1;
            }
            self.last_completed = Some(epoch);
            proof {
                assert(self@.inputs =~= Seq::new(self@.inputs.len(), |i: int| None::<u32>));
            }
        }
        Ok(complete)
    }
}

/// Replays barriers `(input, epoch)` from state `c`, leaving refused ones
/// out; gives the final state and the epochs whose alignment completed,
/// in order: those are the barriers the task forwards.
pub open spec fn align_run(c: CounterView, barriers: Seq<(int, u32)>) -> (CounterView, Seq<u32>)
    decreases barriers.len(),
{
    if barriers.len() == 0 {
        (c, Seq::empty())
    } else {
        let (prev, done) = align_run(c, barriers.drop_last());
        let (idx, epoch) = barriers.last();
        if prev.refusal(idx, epoch) is Some {
            (prev, done)
        } else if prev.completes(idx, epoch) {
            (prev.after_mark(idx, epoch), done.push(epoch))
        } else {
            (prev.after_mark(idx, epoch), done)
        }
    }
}

proof fn lemma_after_mark_wf(c: CounterView, idx: int, epoch: u32)
    requires
        c.wf(),
        c.refusal(idx, epoch) is None,
    ensures
        c.after_mark(idx, epoch).wf(),
        c.after_mark(idx, epoch).inputs.len() == c.inputs.len(),
        c.last_completed matches Some(l) ==> c.after_mark(idx, epoch).last_completed matches Some(m)
            && l <= m,
        c.completes(idx, epoch) ==> (c.last_completed matches Some(l) ==> l < epoch),
{
    let n = c.after_mark(idx, epoch);
    if !c.completes(idx, epoch) {
        assert forall|i: int, j: int|
            0 <= i < n.inputs.len() && 0 <= j < n.inputs.len() && #[trigger] n.inputs[i] is Some
                && #[trigger] n.inputs[j] is Some implies n.inputs[i] == n.inputs[j] by {
            if i != idx {
                assert(c.inputs[i] is Some);
                assert(!(c.inputs[i] is Some && c.inputs[i] != Some(epoch)));
            }
            if j != idx {
                assert(c.inputs[j] is Some);
                assert(!(c.inputs[j] is Some && c.inputs[j] != Some(epoch)));
            }
        }
    }
}

/// Alignment holds inputs back: a barrier that does not complete its
/// epoch leaves its input blocked (so the task takes no record from it)
/// until the epoch completes; an epoch completes exactly when every input
/// has delivered its barrier for that epoch, and then every input is
/// released.
pub proof fn lemma_alignment_holds_inputs(c: CounterView, idx: int, epoch: u32)
    requires
        c.wf(),
        c.refusal(idx, epoch) is None,
    ensures
        !c.completes(idx, epoch) ==> c.after_mark(idx, epoch).inputs[idx] == Some(epoch),
        c.completes(idx, epoch) <==> forall|i: int|
            0 <= i < c.inputs.len() ==> #[trigger] c.marked(idx, epoch)[i] == Some(epoch),
        c.completes(idx, epoch) ==> c.after_mark(idx, epoch).all_clear(),
{
    if c.completes(idx, epoch) {
        assert forall|i: int| 0 <= i < c.inputs.len() implies #[trigger] c.marked(idx, epoch)[i]
            == Some(epoch) by {
            assert(c.marked(idx, epoch)[i] is Some);
            if i != idx {
                assert(!(c.inputs[i] is Some && c.inputs[i] != Some(epoch)));
            }
        }
    }
}

/// A barrier is forwarded at most once per epoch: the epochs whose
/// alignment completes, each only after every input delivered its barrier,
/// strictly increase, and all lie above the last epoch completed before.
pub proof fn lemma_barrier_forwarded_once(c: CounterView, barriers: Seq<(int, u32)>)
    requires
        c.wf(),
    ensures
        align_run(c, barriers).0.wf(),
        align_run(c, barriers).0.inputs.len() == c.inputs.len(),
        forall|i: int, j: int|
            0 <= i < j < align_run(c, barriers).1.len() ==> #[trigger] align_run(c, barriers).1[i]
                < #[trigger] align_run(c, barriers).1[j],
        forall|i: int|
            0 <= i < align_run(c, barriers).1.len() ==> (c.last_completed matches Some(l) ==> l
                < #[trigger] align_run(c, barriers).1[i]),
        align_run(c, barriers).1.len() > 0 ==> align_run(c, barriers).0.last_completed == Some(
            align_run(c, barriers).1.last(),
        ),
        c.last_completed matches Some(l) ==> align_run(c, barriers).0.last_completed matches Some(m)
            && l <= m,
    decreases barriers.len(),
{
    if barriers.len() > 0 {
        lemma_barrier_forwarded_once(c, barriers.drop_last());
        let (prev, done) = align_run(c, barriers.drop_last());
        let (idx, epoch) = barriers.last();
        if prev.refusal(idx, epoch) is None {
            lemma_after_mark_wf(prev, idx, epoch);
        }
    }
}

/// Replays the barriers of one epoch, given as barrier `b` arriving on
/// inputs `idxs` in turn: the counter afterwards and the actions of all
/// those steps, each as the task runtime takes it (`watermark` is the task
/// watermark when the checkpoint runs).
pub open spec fn epoch_run(c: CounterView, b: CheckpointBarrier, idxs: Seq<int>, watermark: Option<u64>) -> (
    CounterView,
    Seq<ActionView>,
)
    decreases idxs.len(),
{
    if idxs.len() == 0 {
        (c, Seq::empty())
    } else {
        let (prev, actions) = epoch_run(c, b, idxs.drop_last(), watermark);
        let idx = idxs.last();
        (
            prev.after_mark(idx, b.epoch),
            actions + barrier_actions(prev.all_clear(), prev.completes(idx, b.epoch), b, watermark),
        )
    }
}

/// The inputs are distinct and in range.
pub open spec fn distinct_inputs(idxs: Seq<int>, n: nat) -> bool {
    &&& forall|k: int| 0 <= k < idxs.len() ==> 0 <= #[trigger] idxs[k] < n
    &&& forall|k: int, l: int| 0 <= k < l < idxs.len() ==> #[trigger] idxs[k] != #[trigger] idxs[l]
}

proof fn lemma_epoch_partial(c: CounterView, b: CheckpointBarrier, idxs: Seq<int>, watermark: Option<u64>, missing: int)
    requires
        c.wf(),
        c.all_clear(),
        c.last_completed matches Some(l) ==> l < b.epoch,
        distinct_inputs(idxs, c.inputs.len()),
        0 <= missing < c.inputs.len(),
        !idxs.contains(missing),
    ensures
        epoch_run(c, b, idxs, watermark).0.wf(),
        epoch_run(c, b, idxs, watermark).0.last_completed == c.last_completed,
        epoch_run(c, b, idxs, watermark).0.inputs == Seq::new(
            c.inputs.len(),
            |i: int| if idxs.contains(i) { Some(b.epoch) } else { None },
        ),
        epoch_run(c, b, idxs, watermark).1 == if idxs.len() == 0 {
            Seq::<ActionView>::empty()
        } else {
            seq![ActionView::CheckpointEvent { epoch: b.epoch, event: CheckpointEventType::StartedAlignment }]
        },
    decreases idxs.len(),
{
    let e = b.epoch;
    if idxs.len() == 0 {
        assert(c.inputs =~= Seq::new(c.inputs.len(), |i: int| if idxs.contains(i) { Some(e) } else { None }));
    } else {
        let d = idxs.drop_last();
        let idx = idxs.last();
        assert(distinct_inputs(d, c.inputs.len())) by {
            assert forall|k: int| 0 <= k < d.len() implies 0 <= #[trigger] d[k] < c.inputs.len() by {
                assert(d[k] == idxs[k]);
            }
            assert forall|k: int, l: int| 0 <= k < l < d.len() implies #[trigger] d[k] != #[trigger] d[l] by {
                assert(d[k] == idxs[k] && d[l] == idxs[l]);
            }
        }
        assert(!d.contains(missing)) by {
            if d.contains(missing) {
                let k = choose|k: int| 0 <= k < d.len() && d[k] == missing;
                assert(idxs[k] == missing);
            }
        }
        lemma_epoch_partial(c, b, d, watermark, missing);
        let prev = epoch_run(c, b, d, watermark).0;
        assert(0 <= idx < c.inputs.len()) by {
            assert(idxs[idxs.len() - 1] == idx);
        }
        assert(!d.contains(idx)) by {
            if d.contains(idx) {
                let k = choose|k: int| 0 <= k < d.len() && d[k] == idx;
                assert(idxs[k] != idxs[idxs.len() - 1]);
            }
        }
        assert(prev.inputs[idx] is None);
        assert forall|j: int| 0 <= j < prev.inputs.len() && #[trigger] prev.inputs[j] is Some implies prev.inputs[j]
            == Some(e) by {}
        assert(prev.refusal(idx, e) is None);
        assert(idx != missing);
        assert(prev.marked(idx, e)[missing] is None) by {
            assert(prev.inputs[missing] is None);
        }
        assert(!prev.completes(idx, e));
        assert(prev.after_mark(idx, e).inputs =~= Seq::new(
            c.inputs.len(),
            |i: int| if idxs.contains(i) { Some(e) } else { None },
        )) by {
            assert forall|i: int| 0 <= i < c.inputs.len() implies #[trigger] prev.marked(idx, e)[i] == (if idxs.contains(
                i,
            ) {
                Some(e)
            } else {
                None
            }) by {
                if i == idx {
                    assert(idxs[idxs.len() - 1] == i);
                } else if idxs.contains(i) {
                    let k = choose|k: int| 0 <= k < idxs.len() && idxs[k] == i;
                    assert(d[k] == i);
                } else {
                    assert(!d.contains(i)) by {
                        if d.contains(i) {
                            let k = choose|k: int| 0 <= k < d.len() && d[k] == i;
                            assert(idxs[k] == i);
                        }
                    }
                }
            }
        }
        assert(prev.all_clear() == (d.len() == 0)) by {
            if d.len() > 0 {
                assert(d.contains(d[0]));
                assert(prev.inputs[d[0]] is Some);
            } else {
                assert forall|i: int| 0 <= i < prev.inputs.len() implies #[trigger] prev.inputs[i] is None by {
                    assert(!d.contains(i));
                }
            }
        }
        lemma_after_mark_wf(prev, idx, e);
        let out = epoch_run(c, b, idxs, watermark).1;
        assert(out =~= if idxs.len() == 0 {
            Seq::<ActionView>::empty()
        } else {
            seq![ActionView::CheckpointEvent { epoch: e, event: CheckpointEventType::StartedAlignment }]
        });
    }
}

/// Alignment of one epoch over a whole run: when the barrier of an epoch
/// above every completed one reaches each of the `N` inputs once, in any
/// order (and no alignment was in progress), the task reports the start
/// of alignment exactly once, on the first barrier, and runs the
/// checkpoint and forwards the barrier exactly once, on the last one;
/// until then every input that delivered stays blocked, and afterwards all
/// are released.
pub proof fn lemma_epoch_aligned_once(c: CounterView, b: CheckpointBarrier, idxs: Seq<int>, watermark: Option<u64>)
    requires
        c.wf(),
        c.all_clear(),
        c.last_completed matches Some(l) ==> l < b.epoch,
        idxs.len() == c.inputs.len(),
        idxs.len() >= 1,
        distinct_inputs(idxs, c.inputs.len()),
        forall|i: int| 0 <= i < c.inputs.len() ==> idxs.contains(i),
    ensures
        epoch_run(c, b, idxs, watermark).1 == barrier_actions(true, true, b, watermark),
        epoch_run(c, b, idxs, watermark).0.all_clear(),
        epoch_run(c, b, idxs, watermark).0.last_completed == Some(b.epoch),
        forall|k: int|
            0 <= k < idxs.len() - 1 ==> #[trigger] epoch_run(c, b, idxs.subrange(0, k + 1), watermark).0.inputs[idxs[k]]
                == Some(b.epoch),
{
    let e = b.epoch;
    let n = idxs.len();
    let d = idxs.drop_last();
    let idx = idxs.last();
    assert(idxs[n - 1] == idx);
    assert(distinct_inputs(d, c.inputs.len())) by {
        assert forall|k: int| 0 <= k < d.len() implies 0 <= #[trigger] d[k] < c.inputs.len() by {
            assert(d[k] == idxs[k]);
        }
        assert forall|k: int, l: int| 0 <= k < l < d.len() implies #[trigger] d[k] != #[trigger] d[l] by {
            assert(d[k] == idxs[k] && d[l] == idxs[l]);
        }
    }
    assert(!d.contains(idx)) by {
        if d.contains(idx) {
            let k = choose|k: int| 0 <= k < d.len() && d[k] == idx;
            assert(idxs[k] != idxs[n - 1]);
        }
    }
    lemma_epoch_partial(c, b, d, watermark, idx);
    let prev = epoch_run(c, b, d, watermark).0;
    assert(prev.inputs[idx] is None);
    assert forall|j: int| 0 <= j < prev.inputs.len() && #[trigger] prev.inputs[j] is Some implies prev.inputs[j]
        == Some(e) by {}
    assert(prev.refusal(idx, e) is None);
    assert(prev.completes(idx, e)) by {
        assert forall|i: int| 0 <= i < prev.inputs.len() implies #[trigger] prev.marked(idx, e)[i] is Some by {
            if i != idx {
                assert(idxs.contains(i));
                let k = choose|k: int| 0 <= k < idxs.len() && idxs[k] == i;
                assert(k != n - 1);
                assert(d[k] == i);
                assert(d.contains(i));
            }
        }
    }
    assert(prev.all_clear() == (d.len() == 0)) by {
        if d.len() > 0 {
            assert(d.contains(d[0]));
            assert(prev.inputs[d[0]] is Some);
        } else {
            assert forall|i: int| 0 <= i < prev.inputs.len() implies #[trigger] prev.inputs[i] is None by {
                assert(!d.contains(i));
            }
        }
    }
    assert(epoch_run(c, b, idxs, watermark).1 =~= barrier_actions(true, true, b, watermark));
    assert forall|k: int| 0 <= k < idxs.len() - 1 implies #[trigger] epoch_run(
        c,
        b,
        idxs.subrange(0, k + 1),
        watermark,
    ).0.inputs[idxs[k]] == Some(e) by {
        let p = idxs.subrange(0, k + 1);
        assert(distinct_inputs(p, c.inputs.len())) by {
            assert forall|m: int| 0 <= m < p.len() implies 0 <= #[trigger] p[m] < c.inputs.len() by {
                assert(p[m] == idxs[m]);
            }
            assert forall|m: int, l: int| 0 <= m < l < p.len() implies #[trigger] p[m] != #[trigger] p[l] by {
                assert(p[m] == idxs[m] && p[l] == idxs[l]);
            }
        }
        assert(!p.contains(idx)) by {
            if p.contains(idx) {
                let m = choose|m: int| 0 <= m < p.len() && p[m] == idx;
                assert(idxs[m] != idxs[n - 1]);
            }
        }
        lemma_epoch_partial(c, b, p, watermark, idx);
        assert(p[k] == idxs[k]);
        assert(p.contains(idxs[k]));
        assert(0 <= idxs[k] < c.inputs.len());
    }
}

} // verus!
