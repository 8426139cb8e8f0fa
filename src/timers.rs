use vstd::prelude::*;

verus! {

/// A timer: the event time at which it fires, the key it belongs to, and
/// the payload handed back when it fires.
#[derive(Clone, Debug, PartialEq, Eq)]
pub struct ArrowTimerValue {
    pub time: u64,
    pub key: Vec<u8>,
    pub data: Vec<u8>,
}

/// The mathematical value of an [`ArrowTimerValue`].
pub struct TimerView {
    pub time: u64,
    pub key: Seq<u8>,
    pub data: Seq<u8>,
}

impl View for ArrowTimerValue {
    type V = TimerView;

    open spec fn view(&self) -> TimerView {
        TimerView { time: self.time, key: self.key@, data: self.data@ }
    }
}

/// Marks the payload types that a timer can carry.
pub trait TimerT {
}

impl<T: PartialEq + Eq> TimerT for T {
}

/// Why a timer could not be scheduled.
#[derive(Clone, Copy, Debug, PartialEq, Eq, Structural)]
pub enum TimerError {
    /// The fire time is not after the current watermark.
    InPast,
    /// A timer for the same key and fire time is already scheduled.
    Duplicate,
}

/// The timers of a sequence, as values.
pub open spec fn timers_view(s: Seq<ArrowTimerValue>) -> Seq<TimerView> {
    Seq::new(s.len(), |i: int| s[i]@)
}

/// Timers are kept by non-decreasing fire time, and no two share both
/// key and fire time.
pub open spec fn timers_wf(s: Seq<TimerView>) -> bool {
    &&& forall|i: int, j: int| 0 <= i <= j < s.len() ==> #[trigger] s[i].time <= #[trigger] s[j].time
    &&& forall|i: int, j: int|
        0 <= i < j < s.len() ==> !(#[trigger] s[i].time == #[trigger] s[j].time && s[i].key
            == s[j].key)
}

/// The number of timers that fire at or before `t`: where a new timer for
/// `t` goes, after the earlier ones of equal time.
pub open spec fn timer_slot(s: Seq<TimerView>, t: u64) -> int
    decreases s.len(),
{
    if s.len() == 0 {
        0
    } else if s.last().time <= t {
        s.len() as int
    } else {
        timer_slot(s.drop_last(), t)
    }
}

/// Where the timer for `key` at `t` stands, if one is scheduled.
pub open spec fn timer_index(s: Seq<TimerView>, key: Seq<u8>, t: u64) -> Option<int> {
    if exists|i: int| 0 <= i < s.len() && #[trigger] s[i].time == t && s[i].key == key {
        Some(choose|i: int| 0 <= i < s.len() && #[trigger] s[i].time == t && s[i].key == key)
    } else {
        None
    }
}

pub(crate) proof fn lemma_slot_bounds(s: Seq<TimerView>, t: u64)
    requires
        timers_wf(s),
    ensures
        0 <= timer_slot(s, t) <= s.len(),
        forall|i: int| 0 <= i < timer_slot(s, t) ==> #[trigger] s[i].time <= t,
        forall|i: int| timer_slot(s, t) <= i < s.len() ==> #[trigger] s[i].time > t,
    decreases s.len(),
{
    if s.len() > 0 {
        if s.last().time > t {
            let d = s.drop_last();
            assert(timers_wf(d)) by {
                assert forall|i: int, j: int| 0 <= i <= j < d.len() implies #[trigger] d[i].time
                    <= #[trigger] d[j].time by {
                    assert(s[i].time <= s[j].time);
                }
                assert forall|i: int, j: int| 0 <= i < j < d.len() implies !(#[trigger] d[i].time
                    == #[trigger] d[j].time && d[i].key == d[j].key) by {
                    assert(s[i].time <= s[j].time);
                }
            }
            lemma_slot_bounds(d, t);
            assert forall|i: int| 0 <= i < timer_slot(s, t) implies #[trigger] s[i].time <= t by {
                assert(s[i] == d[i]);
            }
            assert forall|i: int| timer_slot(s, t) <= i < s.len() implies #[trigger] s[i].time > t by {
                if i < s.len() - 1 {
                    assert(s[i] == d[i]);
                }
            }
        } else {
            assert forall|i: int| 0 <= i < timer_slot(s, t) implies #[trigger] s[i].time <= t by {
                assert(s[i].time <= s[s.len() - 1].time);
            }
        }
    }
}

/// Compares two byte strings.
pub fn bytes_eq(a: &Vec<u8>, b: &Vec<u8>) -> (r: bool)
    ensures
        r == (a@ == b@),
{
    if a.len() != b.len() {
        return false;
    }
    let mut i: usize = 0;
    while i < a.len()
        invariant
            i <= a.len(),
            a.len() == b.len(),
            forall|k: int| 0 <= k < i ==> a@[k] == b@[k],
        decreases a.len() - i,
    {
        if a[i] != b[i] {
            return false;
        }
        i = i + 1;
    }
    proof {
        assert(a@ =~= b@);
    }
    true
}

/// The keyed event-time timers of one task.
pub struct TimerService {
    timers: Vec<ArrowTimerValue>,
}

impl View for TimerService {
    type V = Seq<TimerView>;

    closed spec fn view(&self) -> Seq<TimerView> {
        timers_view(self.timers@)
    }
}

impl TimerService {
    pub open spec fn wf(&self) -> bool {
        timers_wf(self@)
    }

    /// A service with no timers.
    pub fn new() -> (r: TimerService)
        ensures
            r.wf(),
            r@ == Seq::<TimerView>::empty(),
    {
        let r = TimerService { timers: Vec::new() };
        proof {
            assert(r@ =~= Seq::<TimerView>::empty());
        }
        r
    }

    /// The number of scheduled timers.
    pub fn len(&self) -> (r: usize)
        ensures
            r == self@.len(),
    {
        self.timers.len()
    }

    /// The scheduled timers, by fire time.
    pub fn timers(&self) -> (r: &Vec<ArrowTimerValue>)
        ensures
            timers_view(r@) == self@,
    {
        &self.timers
    }

    fn find(&self, key: &Vec<u8>, time: u64) -> (r: Option<usize>)
        ensures
            r matches Some(i) ==> i < self@.len() && self@[i as int].time == time && self@[i as int].key
                == key@,
            r is None ==> forall|i: int|
                0 <= i < self@.len() ==> !(#[trigger] self@[i].time == time && self@[i].key == key@),
    {
        let mut i: usize = 0;
        while i < self.timers.len()
            invariant
                i <= self.timers@.len(),
                forall|k: int|
                    0 <= k < i ==> !(#[trigger] self@[k].time == time && self@[k].key == key@),
            decreases self.timers.len() - i,
        {
            if self.timers[i].time == time && bytes_eq(&self.timers[i].key, key) {
                return Some(i);
            }
            i = i + 1;
        }
        None
    }

    fn slot(&self, time: u64) -> (r: usize)
        ensures
            r == timer_slot(self@, time),
    {
        let mut i: usize = self.timers.len();
        proof {
            assert(self@.subrange(0, i as int) =~= self@);
        }
        while i > 0 && self.timers[i - 1].time > time
            invariant
                i <= self.timers@.len(),
                timer_slot(self@, time) == timer_slot(self@.subrange(0, i as int), time),
            decreases i,
        {
            proof {
                assert(self@.subrange(0, i as int).drop_last() =~= self@.subrange(0, i - 1));
            }
            i = i - 1;
        }
        i
    }

    /// Schedules a timer for `key` at `time`. Refused when `time` is not
    /// after `watermark`, or when the same key already has a timer at
    /// that time; otherwise the timer is filed after all timers that fire
    /// no later.
    pub fn schedule(&mut self, key: Vec<u8>, time: u64, data: Vec<u8>, watermark: Option<u64>) -> (r:
        Result<(), TimerError>)
        requires
            old(self).wf(),
        ensures
            final(self).wf(),
            watermark matches Some(w) && time <= w ==> r == Err::<(), TimerError>(TimerError::InPast)
                && final(self)@ == old(self)@,
            !(watermark matches Some(w) && time <= w) && timer_index(old(self)@, key@, time) is Some
                ==> r == Err::<(), TimerError>(TimerError::Duplicate) && final(self)@ == old(self)@,
            !(watermark matches Some(w) && time <= w) && timer_index(old(self)@, key@, time) is None
                ==> r is Ok && final(self)@ == old(self)@.insert(
                timer_slot(old(self)@, time),
                TimerView { time, key: key@, data: data@ },
            ),
    {
        if let Some(w) = watermark {
            if time <= w {
                return Err(TimerError::InPast);
            }
        }
        if let Some(i) = self.find(&key, time) {
            proof {
                assert(self@[i as int].time == time && self@[i as int].key == key@);
            }
            return Err(TimerError::Duplicate);
        }
        proof {
            if timer_index(self@, key@, time) is Some {
                let i = choose|i: int|
                    0 <= i < self@.len() && #[trigger] self@[i].time == time && self@[i].key == key@;
                assert(false);
            }
        }
        let pos = self.slot(time);
        proof {
            lemma_slot_bounds(self@, time);
        }
        let ghost before = self@;
        let v = ArrowTimerValue { time, key, data };
        self.timers.insert(pos, v);
        proof {
            let nv = TimerView { time, key: v.key@, data: v.data@ };
            assert(self@ =~= before.insert(pos as int, nv));
            let s = self@;
            assert forall|i: int, j: int| 0 <= i <= j < s.len() implies #[trigger] s[i].time
                <= #[trigger] s[j].time by {
                if i < pos && j > pos {
                    assert(before[i].time <= time);
                    assert(before[j - 1].time > time);
                } else if i < pos && j == pos {
                    assert(before[i].time <= time);
                } else if i == pos && j > pos {
                    assert(before[j - 1].time > time);
                } else if i > pos {
                    assert(before[i - 1].time <= before[j - 1].time);
                } else if j < pos {
                    assert(before[i].time <= before[j].time);
                }
            }
            assert forall|i: int, j: int| 0 <= i < j < s.len() implies !(#[trigger] s[i].time
                == #[trigger] s[j].time && s[i].key == s[j].key) by {
                if i == pos {
                    assert(s[j] == before[j - 1]);
                } else if j == pos {
                    assert(s[i] == before[i]);
                } else if i < pos && j > pos {
                    assert(s[i] == before[i] && s[j] == before[j - 1]);
                } else if i > pos {
                    assert(s[i] == before[i - 1] && s[j] == before[j - 1]);
                } else {
                    assert(s[i] == before[i] && s[j] == before[j]);
                }
            }
        }
        Ok(())
    }

    /// Cancels the timer for `key` at `time`, giving back its payload when
    /// there was one.
    pub fn cancel(&mut self, key: &Vec<u8>, time: u64) -> (r: Option<Vec<u8>>)
        requires
            old(self).wf(),
        ensures
            final(self).wf(),
            match timer_index(old(self)@, key@, time) {
                Some(i) => r matches Some(d) && d@ == old(self)@[i].data && final(self)@ == old(
                    self,
                )@.remove(i),
                None => r is None && final(self)@ == old(self)@,
            },
    {
        match self.find(key, time) {
            None => {
                proof {
                    if timer_index(self@, key@, time) is Some {
                        let i = choose|i: int|
                            0 <= i < self@.len() && #[trigger] self@[i].time == time && self@[i].key
                                == key@;
                        assert(false);
                    }
                }
                None
            },
            Some(i) => {
                let ghost before = self@;
                proof {
                    assert(before[i as int].time == time && before[i as int].key == key@);
                    let c = choose|c: int|
                        0 <= c < before.len() && #[trigger] before[c].time == time && before[c].key
                            == key@;
                    if c != i as int {
                        if c < i {
                            assert(before[c].time == before[i as int].time);
                        } else {
                            assert(before[i as int].time == before[c].time);
                        }
                    }
                }
                let v = self.timers.remove(i);
                proof {
                    assert(self@ =~= before.remove(i as int));
                    let s = self@;
                    assert forall|a: int, b: int| 0 <= a <= b < s.len() implies #[trigger] s[a].time
                        <= #[trigger] s[b].time by {
                        let a2 = if a < i { a } else { a + 1 };
                        let b2 = if b < i { b } else { b + 1 };
                        assert(before[a2].time <= before[b2].time);
                    }
                    assert forall|a: int, b: int| 0 <= a < b < s.len() implies !(
                    #[trigger] s[a].time == #[trigger] s[b].time && s[a].key == s[b].key) by {
                        let a2 = if a < i { a } else { a + 1 };
                        let b2 = if b < i { b } else { b + 1 };
                        assert(s[a] == before[a2] && s[b] == before[b2]);
                    }
                }
                Some(v.data)
            },
        }
    }

    /// Takes out every timer due at watermark `w` (fire time at or before
    /// `w`), in non-decreasing fire time; later timers stay.
    pub fn fire_due(&mut self, w: u64) -> (r: Vec<ArrowTimerValue>)
        requires
            old(self).wf(),
        ensures
            final(self).wf(),
            timers_view(r@) == old(self)@.subrange(0, timer_slot(old(self)@, w)),
            final(self)@ == old(self)@.subrange(timer_slot(old(self)@, w), old(self)@.len() as int),
            forall|i: int| 0 <= i < r@.len() ==> (#[trigger] r@[i]).time <= w,
            forall|i: int, j: int| 0 <= i <= j < r@.len() ==> (#[trigger] r@[i]).time <= (
            #[trigger] r@[j]).time,
            forall|i: int| 0 <= i < final(self)@.len() ==> (#[trigger] final(self)@[i]).time > w,
    {
        let k = self.slot(w);
        proof {
            lemma_slot_bounds(self@, w);
        }
        let ghost before = self@;
        let mut due = self.timers.split_off(k);
        std::mem::swap(&mut due, &mut self.timers);
        proof {
            assert(timers_view(due@) =~= before.subrange(0, k as int));
            assert(self@ =~= before.subrange(k as int, before.len() as int));
            assert forall|i: int, j: int| 0 <= i <= j < due@.len() implies (#[trigger] due@[i]).time
                <= (#[trigger] due@[j]).time by {
                assert(timers_view(due@)[i] == before[i]);
                assert(timers_view(due@)[j] == before[j]);
                assert(before[i].time <= before[j].time);
            }
            assert forall|i: int| 0 <= i < due@.len() implies (#[trigger] due@[i]).time <= w by {
                assert(timers_view(due@)[i] == before[i]);
                assert(before[i].time <= w);
            }
            let s = self@;
            assert forall|a: int, b: int| 0 <= a <= b < s.len() implies #[trigger] s[a].time
                <= #[trigger] s[b].time by {
                assert(before[a + k].time <= before[b + k].time);
            }
            assert forall|a: int, b: int| 0 <= a < b < s.len() implies !(#[trigger] s[a].time
                == #[trigger] s[b].time && s[a].key == s[b].key) by {
                assert(s[a] == before[a + k] && s[b] == before[b + k]);
            }
        }
        due
    }
}

} // verus!
