use vstd::prelude::*;
use crate::types::Window;
use vstd::arithmetic::div_mod::{lemma_fundamental_div_mod, lemma_mod_multiples_basic, lemma_div_multiples_vanish};

verus! {

/// Assigns event times to windows. Times and durations are nanoseconds.
pub trait TimeWindowAssigner {
    /// Whether `windows` can be computed at `ts` within `u64`.
    spec fn windows_ok(&self, ts: u64) -> bool;

    /// The windows that hold `ts`, earliest first.
    spec fn spec_windows(&self, ts: u64) -> Seq<Window>;

    /// Whether `next` can be computed for `w` within `u64`.
    spec fn next_ok(&self, w: Window) -> bool;

    /// The window after `w` in the same series.
    spec fn spec_next(&self, w: Window) -> Window;

    /// How long state for a window must be kept after it closes.
    spec fn spec_retention(&self) -> Option<u64>;

    fn windows(&self, ts: u64) -> (r: Vec<Window>)
        requires
            self.windows_ok(ts),
        ensures
            r@ == self.spec_windows(ts),
    ;

    fn next(&self, window: Window) -> (r: Window)
        requires
            self.next_ok(window),
        ensures
            r == self.spec_next(window),
    ;

    fn safe_retention_duration(&self) -> (r: Option<u64>)
        ensures
            r == self.spec_retention(),
    ;
}

/// Marks the assigners that a windowed operator can be built on.
pub trait WindowAssigner {
}

/// Fixed, non-overlapping windows of `size`.
#[derive(Clone, Copy, Debug, PartialEq, Eq, Structural)]
pub struct TumblingWindowAssigner {
    pub size: u64,
}

/// The tumbling window that holds `ts`.
pub open spec fn tumbling_window(size: u64, ts: u64) -> Window {
    let start = (ts / size) * size;
    Window { start: start as u64, end: (start + size) as u64 }
}

impl TimeWindowAssigner for TumblingWindowAssigner {
    open spec fn windows_ok(&self, ts: u64) -> bool {
        self.size > 0 && (ts / self.size) * self.size + self.size <= u64::MAX
    }

    open spec fn spec_windows(&self, ts: u64) -> Seq<Window> {
        seq![tumbling_window(self.size, ts)]
    }

    open spec fn next_ok(&self, w: Window) -> bool {
        w.end + self.size <= u64::MAX
    }

    open spec fn spec_next(&self, w: Window) -> Window {
        Window { start: w.end, end: (w.end + self.size) as u64 }
    }

    open spec fn spec_retention(&self) -> Option<u64> {
        Some(self.size)
    }

    fn windows(&self, ts: u64) -> (r: Vec<Window>) {
        let key = ts / self.size;
        proof {
            assert(key * self.size <= ts) by (nonlinear_arith)
                requires key == ts / self.size, self.size > 0;
        }
        let start = key * self.size;
        let w = Window { start, end: start + self.size };
        let r = vec![w];
        proof {
            assert(r@ =~= seq![tumbling_window(self.size, ts)]);
        }
        r
    }

    fn next(&self, window: Window) -> (r: Window) {
        Window { start: window.end, end: window.end + self.size }
    }

    fn safe_retention_duration(&self) -> (r: Option<u64>) {
        Some(self.size)
    }
}

impl WindowAssigner for TumblingWindowAssigner {
}

/// The one-nanosecond window of each event time.
#[derive(Clone, Copy, Debug, PartialEq, Eq, Structural)]
pub struct InstantWindowAssigner {}

/// How far `next` moves an instant window: one microsecond.
pub const INSTANT_STEP: u64 = 1000;

impl TimeWindowAssigner for InstantWindowAssigner {
    open spec fn windows_ok(&self, ts: u64) -> bool {
        ts < u64::MAX
    }

    open spec fn spec_windows(&self, ts: u64) -> Seq<Window> {
        seq![Window { start: ts, end: (ts + 1) as u64 }]
    }

    open spec fn next_ok(&self, w: Window) -> bool {
        w.start + INSTANT_STEP <= u64::MAX && w.end + INSTANT_STEP <= u64::MAX
    }

    open spec fn spec_next(&self, w: Window) -> Window {
        Window { start: (w.start + INSTANT_STEP) as u64, end: (w.end + INSTANT_STEP) as u64 }
    }

    open spec fn spec_retention(&self) -> Option<u64> {
        Some(0)
    }

    fn windows(&self, ts: u64) -> (r: Vec<Window>) {
        let r = vec![Window { start: ts, end: ts + 1 }];
        proof {
            assert(r@ =~= self.spec_windows(ts));
        }
        r
    }

    fn next(&self, window: Window) -> (r: Window) {
        Window { start: window.start + INSTANT_STEP, end: window.end + INSTANT_STEP }
    }

    fn safe_retention_duration(&self) -> (r: Option<u64>) {
        Some(0)
    }
}

impl WindowAssigner for InstantWindowAssigner {
}

/// Windows of `size` that start every `slide`, so that they overlap when
/// `slide < size`.
#[derive(Clone, Copy, Debug, PartialEq, Eq, Structural)]
pub struct SlidingWindowAssigner {
    pub size: u64,
    pub slide: u64,
}

/// The earliest start, a multiple of `slide`, of a sliding window that can
/// hold `ts`: the first multiple above `ts - size`.
pub open spec fn sliding_first_start(size: u64, slide: u64, ts: u64) -> int {
    if ts >= size {
        ((ts - size) / slide as int) * slide + slide
    } else {
        0
    }
}

/// How many sliding windows hold `ts`.
pub open spec fn sliding_count(size: u64, slide: u64, ts: u64) -> int {
    let first = sliding_first_start(size, slide, ts);
    if first <= ts {
        (ts - first) / slide as int + 1
    } else {
        0
    }
}

/// The sliding windows that hold `ts`, earliest first.
pub open spec fn sliding_windows(size: u64, slide: u64, ts: u64) -> Seq<Window> {
    let first = sliding_first_start(size, slide, ts);
    Seq::new(
        sliding_count(size, slide, ts) as nat,
        |i: int| Window { start: (first + i * slide) as u64, end: (first + i * slide + size) as u64 },
    )
}

impl SlidingWindowAssigner {
    fn start(&self, ts: u64) -> (r: u64)
        requires
            self.slide > 0,
            ts + self.slide <= u64::MAX,
        ensures
            r == sliding_first_start(self.size, self.slide, ts),
    {
        if ts >= self.size {
            let earliest_window_start = ts - self.size;
            let remainder = earliest_window_start % self.slide;
            proof {
                assert(earliest_window_start - remainder == (earliest_window_start / self.slide)
                    * self.slide && remainder <= earliest_window_start) by (nonlinear_arith)
                    requires
                        remainder == earliest_window_start % self.slide,
                        self.slide > 0,
                ;
            }
            earliest_window_start - remainder + self.slide
        } else {
            0
        }
    }
}

/// The sliding windows that hold `ts` are exactly the windows `[s, s +
/// size)` whose start `s` is a multiple of `slide` with `s <= ts < s +
/// size`.
pub proof fn lemma_sliding_windows_exact(size: u64, slide: u64, ts: u64, s: int)
    requires
        size > 0,
        slide > 0,
        ts + size + slide <= u64::MAX,
    ensures
        (exists|i: int|
            0 <= i < sliding_windows(size, slide, ts).len() && #[trigger] sliding_windows(
                size,
                slide,
                ts,
            )[i].start == s) <==> (s >= 0 && s % slide as int == 0 && s <= ts && ts < s + size),
        forall|i: int|
            0 <= i < sliding_windows(size, slide, ts).len() ==> #[trigger] sliding_windows(
                size,
                slide,
                ts,
            )[i].end == sliding_windows(size, slide, ts)[i].start + size,
{
    let first = sliding_first_start(size, slide, ts);
    let count = sliding_count(size, slide, ts);
    let w = sliding_windows(size, slide, ts);
    let sl = slide as int;
    if ts >= size {
        let q = (ts - size) / sl;
        assert(q * sl <= ts - size < q * sl + sl) by (nonlinear_arith)
            requires q == (ts - size) / sl, sl > 0, ts >= size;
        assert(first == (q + 1) * sl) by (nonlinear_arith)
            requires first == q * sl + sl;
    }
    let mf: int = if ts >= size { (ts - size) / sl + 1 } else { 0 };
    assert(mf >= 0);
    assert(first == mf * sl);
    assert(first >= 0) by (nonlinear_arith)
        requires first == mf * sl, mf >= 0, sl > 0;
    assert(first + 0 > ts - size);
    if first <= ts {
        let c = (ts - first) / sl;
        assert(c * sl <= ts - first < c * sl + sl) by (nonlinear_arith)
            requires c == (ts - first) / sl, sl > 0, first <= ts;
    }
    assert forall|i: int| 0 <= i < w.len() implies #[trigger] w[i].end == w[i].start + size by {
        assert(0 <= first + i * sl <= ts) by (nonlinear_arith)
            requires
                0 <= i < count,
                count == (ts - first) / sl + 1,
                (ts - first) / sl * sl <= ts - first,
                first >= 0,
                sl > 0,
        ;
    }
    if exists|i: int| 0 <= i < w.len() && #[trigger] w[i].start == s {
        let i = choose|i: int| 0 <= i < w.len() && #[trigger] w[i].start == s;
        assert(0 <= first + i * sl <= ts) by (nonlinear_arith)
            requires
                0 <= i < count,
                count == (ts - first) / sl + 1,
                (ts - first) / sl * sl <= ts - first,
                first >= 0,
                sl > 0,
        ;
        assert(s == first + i * sl);
        assert(s == (mf + i) * sl) by (nonlinear_arith)
            requires s == first + i * sl, first == mf * sl;
        lemma_mod_multiples_basic(mf + i, sl);
        assert(ts < s + size) by (nonlinear_arith)
            requires s == first + i * sl, i >= 0, first > ts - size, sl > 0;
    }
    if s >= 0 && s % sl == 0 && s <= ts && ts < s + size {
        let a = s / sl;
        lemma_fundamental_div_mod(s, sl);
        assert(s == sl * a);
        assert(a >= mf) by (nonlinear_arith)
            requires
                s == sl * a,
                s >= 0,
                s > ts - size,
                sl > 0,
                mf >= 0,
                ts >= size ==> mf == (ts - size) / sl + 1,
                ts >= size ==> (ts - size) / sl * sl <= ts - size,
                ts >= size ==> ts - size < (ts - size) / sl * sl + sl,
                ts < size ==> mf == 0,
        ;
        assert(s - first == (a - mf) * sl) by (nonlinear_arith)
            requires s == sl * a, first == mf * sl;
        lemma_div_multiples_vanish(a - mf, sl);
        let i = (s - first) / sl;
        assert(i == a - mf);
        assert(i * sl == s - first && 0 <= i);
        assert(s >= first);
        assert(i < count) by (nonlinear_arith)
            requires
                i * sl == s - first,
                s <= ts,
                first <= s,
                count == (ts - first) / sl + 1,
                sl > 0,
                i >= 0,
        ;
        assert(w[i].start == s);
    }
}

impl TimeWindowAssigner for SlidingWindowAssigner {
    open spec fn windows_ok(&self, ts: u64) -> bool {
        self.size > 0 && self.slide > 0 && ts + self.size + self.slide <= u64::MAX
    }

    open spec fn spec_windows(&self, ts: u64) -> Seq<Window> {
        sliding_windows(self.size, self.slide, ts)
    }

    open spec fn next_ok(&self, w: Window) -> bool {
        w.start + self.slide + self.size <= u64::MAX
    }

    open spec fn spec_next(&self, w: Window) -> Window {
        Window {
            start: (w.start + self.slide) as u64,
            end: (w.start + self.slide + self.size) as u64,
        }
    }

    open spec fn spec_retention(&self) -> Option<u64> {
        Some(self.size)
    }

    fn windows(&self, ts: u64) -> (r: Vec<Window>) {
        let first = self.start(ts);
        let ghost count = sliding_count(self.size, self.slide, ts);
        let ghost target = sliding_windows(self.size, self.slide, ts);
        proof {
            if ts >= self.size {
                let q = (ts - self.size) / self.slide as int;
                assert(q * self.slide <= ts - self.size) by (nonlinear_arith)
                    requires q == (ts - self.size) / self.slide as int, self.slide > 0, ts >= self.size;
            }
        }
        let mut windows: Vec<Window> = Vec::new();
        let mut start: u64 = first;
        let mut i: u64 = 0;
        while start <= ts
            invariant
                first == sliding_first_start(self.size, self.slide, ts),
                first <= ts + self.slide,
                self.slide > 0,
                self.size > 0,
                ts + self.size + self.slide <= u64::MAX,
                target == sliding_windows(self.size, self.slide, ts),
                count == sliding_count(self.size, self.slide, ts),
                start == first + i * self.slide,
                start <= ts + self.slide,
                start <= ts ==> i < count,
                start > ts ==> i == count,
                windows@.len() == i,
                forall|k: int| 0 <= k < i ==> windows@[k] == #[trigger] target[k],
            decreases ts + self.slide - start,
        {
            proof {
                assert(start <= ts);
                assert(count == (ts - first) / self.slide as int + 1);
                assert((start + self.slide > ts) == (i + 1 == count)) by (nonlinear_arith)
                    requires
                        start == first + i * self.slide,
                        start <= ts,
                        first <= ts,
                        count == (ts - first) / self.slide as int + 1,
                        self.slide > 0,
                ;
                assert(i + 1 <= count) by (nonlinear_arith)
                    requires
                        start == first + i * self.slide,
                        start <= ts,
                        first <= ts,
                        count == (ts - first) / self.slide as int + 1,
                        self.slide > 0,
                ;
            }
            windows.push(Window { start, end: start + self.size });
            start = start + self.slide;
            i = i + 1;
            proof {
                assert(start == first + i * self.slide) by (nonlinear_arith)
                    requires start == first + (i - 1) * self.slide + self.slide;
            }
        }
        proof {
            if first > ts {
                assert(count == 0);
            }
            assert(windows@ =~= target);
        }
        windows
    }

    fn next(&self, window: Window) -> (r: Window) {
        let start_time = window.start + self.slide;
        Window { start: start_time, end: start_time + self.size }
    }

    fn safe_retention_duration(&self) -> (r: Option<u64>) {
        Some(self.size)
    }
}

impl WindowAssigner for SlidingWindowAssigner {
}

} // verus!
