//! The online landmark detector: per bin, a sliding window over the last
//! `2 * t_span` steps, and a landmark wherever the window's maximum sits
//! exactly in its middle.
use vstd::prelude::*;

use crate::spectral::{FrequencyBin, Wavelet};

verus! {

/// A confirmed local maximum of amplitude in bin `bin_index` at step `time`.
#[derive(Debug, Clone, Copy, PartialEq, Eq, Structural)]
pub struct FrequencyFeature {
    pub time: usize,
    pub bin_index: usize,
    pub frequency: u64,
    pub amplitude: u64,
}

/// A breach of the detector's contract by its caller.
#[derive(Debug, Clone, Copy, PartialEq, Eq, Structural)]
pub enum ContractViolation {
    /// A detector needs at least one bin.
    ZeroBinCount,
    /// A detector needs a half window of at least one step.
    ZeroTimeSpan,
    /// A frame's bin count differs from the detector's.
    BinCountMismatch { expected: usize, found: usize },
}

/// The sample that a bin's window is filled with before any step.
pub open spec fn sentinel(i: int) -> FrequencyFeature {
    FrequencyFeature { time: 0, bin_index: i as usize, frequency: 0, amplitude: 0 }
}

/// The sample that bin `i` of `frame` gives at step `t`.
pub open spec fn sample(t: int, i: int, bin: FrequencyBin) -> FrequencyFeature {
    FrequencyFeature {
        time: t as usize,
        bin_index: i as usize,
        frequency: bin.frequency,
        amplitude: bin.amplitude,
    }
}

/// `w[p]` is the first sample of `w` with the greatest amplitude.
pub open spec fn is_window_max(w: Seq<FrequencyFeature>, p: int) -> bool {
    &&& 0 <= p < w.len()
    &&& forall|j: int| 0 <= j < w.len() ==> #[trigger] w[j].amplitude <= w[p].amplitude
    &&& forall|j: int| 0 <= j < p ==> #[trigger] w[j].amplitude < w[p].amplitude
}

/// The first sample of the window with the greatest amplitude.
pub open spec fn window_max(w: Seq<FrequencyFeature>) -> FrequencyFeature {
    w[choose|p: int| is_window_max(w, p)]
}

/// At most one sample is the first with the greatest amplitude.
pub proof fn lemma_window_max_unique(w: Seq<FrequencyFeature>, p: int, q: int)
    requires
        is_window_max(w, p),
        is_window_max(w, q),
    ensures
        p == q,
{
    if p < q {
        assert(w[p].amplitude < w[q].amplitude);
        assert(w[q].amplitude <= w[p].amplitude);
    } else if q < p {
        assert(w[q].amplitude < w[p].amplitude);
        assert(w[p].amplitude <= w[q].amplitude);
    }
}

/// Any position that is the first maximum is the one `window_max` picks.
pub proof fn lemma_window_max_at(w: Seq<FrequencyFeature>, p: int)
    requires
        is_window_max(w, p),
    ensures
        window_max(w) == w[p],
{
    let q = choose|q: int| is_window_max(w, q);
    lemma_window_max_unique(w, p, q);
}

/// The step of the sample held at position `j` of a window of `len` samples
/// after step `t`: the window holds steps `t - len + 1 ..= t`, and step zero
/// where those are not yet steps.
pub open spec fn slot_time(t: int, len: int, j: int) -> int {
    if t + j + 1 >= len {
        t + j + 1 - len
    } else {
        0
    }
}

/// What the detector holds, as mathematics: the step counter and, per bin,
/// the window of the last `2 * t_span` samples, oldest first.
pub struct DetectorModel {
    pub t_span: nat,
    pub time: nat,
    pub windows: Seq<Seq<FrequencyFeature>>,
}

impl DetectorModel {
    /// The length of every window.
    pub open spec fn window_len(self) -> nat {
        2 * self.t_span
    }

    /// A fresh detector: every window full of sentinels, no step taken.
    pub open spec fn initial(bin_count: nat, t_span: nat) -> DetectorModel {
        DetectorModel {
            t_span,
            time: 0,
            windows: Seq::new(bin_count, |i: int| Seq::new(2 * t_span, |j: int| sentinel(i))),
        }
    }

    /// The shape every reachable state has: each window holds the samples of
    /// its own bin for the last `2 * t_span` steps, in order.
    pub open spec fn wf(self) -> bool {
        &&& self.t_span >= 1
        &&& self.windows.len() >= 1
        &&& forall|i: int| 0 <= i < self.windows.len() ==> #[trigger] self.windows[i].len()
            == self.window_len()
        &&& forall|i: int, j: int|
            0 <= i < self.windows.len() && 0 <= j < self.window_len() ==> {
                &&& (#[trigger] self.windows[i][j]).time == slot_time(
                    self.time as int,
                    self.window_len() as int,
                    j,
                )
                &&& self.windows[i][j].bin_index == i
            }
    }

    /// The state after one more step on `frame`: each window loses its
    /// oldest sample and gains the frame's sample for its bin.
    pub open spec fn next(self, frame: Seq<FrequencyBin>) -> DetectorModel {
        DetectorModel {
            t_span: self.t_span,
            time: self.time + 1,
            windows: Seq::new(
                self.windows.len(),
                |i: int| self.windows[i].drop_first().push(sample((self.time + 1) as int, i, frame[i])),
            ),
        }
    }

    /// The maximum of each window, by bin.
    pub open spec fn maxima(self) -> Seq<FrequencyFeature> {
        Seq::new(self.windows.len(), |i: int| window_max(self.windows[i]))
    }

    /// The landmarks of the current step: the window maxima that lie exactly
    /// `t_span` steps back, in order of bin.
    pub open spec fn landmarks(self) -> Seq<FrequencyFeature> {
        due_landmarks(self.maxima(), self.t_span, self.time)
    }
}

/// The samples of `maxima`, in order, that lie exactly `t_span` steps
/// before step `time`.
pub open spec fn due_landmarks(maxima: Seq<FrequencyFeature>, t_span: nat, time: nat) -> Seq<
    FrequencyFeature,
> {
    maxima.filter(|f: FrequencyFeature| f.time + t_span == time)
}

proof fn lemma_due_push(s: Seq<FrequencyFeature>, x: FrequencyFeature, t_span: nat, time: nat)
    ensures
        due_landmarks(s.push(x), t_span, time) == (if x.time + t_span == time {
            due_landmarks(s, t_span, time).push(x)
        } else {
            due_landmarks(s, t_span, time)
        }),
{
    reveal(Seq::filter);
    assert(s.push(x).drop_last() =~= s);
}

/// Every non-empty window has a first maximum.
pub proof fn lemma_window_max_exists(w: Seq<FrequencyFeature>)
    requires
        w.len() >= 1,
    ensures
        exists|p: int| is_window_max(w, p),
    decreases w.len(),
{
    if w.len() == 1 {
        assert(is_window_max(w, 0));
    } else {
        let v = w.drop_last();
        lemma_window_max_exists(v);
        let p = choose|p: int| is_window_max(v, p);
        let n = w.len() - 1;
        if w[n].amplitude > w[p].amplitude {
            assert forall|j: int| 0 <= j < w.len() implies #[trigger] w[j].amplitude
                <= w[n].amplitude by {
                if j < n {
                    assert(v[j] == w[j]);
                }
            }
            assert forall|j: int| 0 <= j < n implies #[trigger] w[j].amplitude < w[n].amplitude by {
                assert(v[j] == w[j]);
            }
            assert(is_window_max(w, n));
        } else {
            assert forall|j: int| 0 <= j < w.len() implies #[trigger] w[j].amplitude
                <= w[p].amplitude by {
                if j < n {
                    assert(v[j] == w[j]);
                }
            }
            assert forall|j: int| 0 <= j < p implies #[trigger] w[j].amplitude < w[p].amplitude by {
                assert(v[j] == w[j]);
            }
            assert(is_window_max(w, p));
        }
    }
}

/// How one step moves a window's maximum: a louder new sample takes over;
/// otherwise the old maximum stays, unless it was the sample that left.
proof fn lemma_max_after_step(w: Seq<FrequencyFeature>, s: FrequencyFeature)
    requires
        w.len() >= 1,
        forall|j: int| 0 <= j < w.len() ==> (#[trigger] w[j]).time < s.time,
    ensures
        s.amplitude > window_max(w).amplitude ==> window_max(w.drop_first().push(s)) == s,
        s.amplitude <= window_max(w).amplitude && w[0] != window_max(w) ==> window_max(
            w.drop_first().push(s),
        ) == window_max(w),
{
    lemma_window_max_exists(w);
    let p = choose|p: int| is_window_max(w, p);
    lemma_window_max_at(w, p);
    let nw = w.drop_first().push(s);
    let n = w.len() - 1;
    assert forall|j: int| 0 <= j < n implies #[trigger] nw[j] == w[j + 1] by {}
    assert(nw[n] == s);
    if s.amplitude > w[p].amplitude {
        assert forall|j: int| 0 <= j < nw.len() implies #[trigger] nw[j].amplitude
            <= nw[n].amplitude by {
            if j < n {
                assert(w[j + 1].amplitude <= w[p].amplitude);
            }
        }
        assert forall|j: int| 0 <= j < n implies #[trigger] nw[j].amplitude < nw[n].amplitude by {
            assert(w[j + 1].amplitude <= w[p].amplitude);
        }
        assert(is_window_max(nw, n));
        lemma_window_max_at(nw, n);
    }
    if s.amplitude <= w[p].amplitude && w[0] != w[p] {
        assert(p >= 1);
        assert forall|j: int| 0 <= j < nw.len() implies #[trigger] nw[j].amplitude
            <= nw[p - 1].amplitude by {
            if j < n {
                assert(w[j + 1].amplitude <= w[p].amplitude);
            }
        }
        assert forall|j: int| 0 <= j < p - 1 implies #[trigger] nw[j].amplitude
            < nw[p - 1].amplitude by {
            assert(w[j + 1].amplitude < w[p].amplitude);
        }
        assert(is_window_max(nw, p - 1));
        lemma_window_max_at(nw, p - 1);
    }
}

/// One step keeps the model well formed.
pub proof fn lemma_next_wf(m: DetectorModel, frame: Seq<FrequencyBin>)
    requires
        m.wf(),
        frame.len() == m.windows.len(),
        m.windows.len() <= usize::MAX,
        m.time + 1 <= usize::MAX,
    ensures
        m.next(frame).wf(),
{
    let n = m.next(frame);
    let len = m.window_len() as int;
    assert forall|i: int, j: int| 0 <= i < n.windows.len() && 0 <= j < len implies {
        &&& (#[trigger] n.windows[i][j]).time == slot_time(n.time as int, len, j)
        &&& n.windows[i][j].bin_index == i
    } by {
        if j < len - 1 {
            assert(n.windows[i][j] == m.windows[i][j + 1]);
        }
    }
}

/// Position `j` of a window that starts at `head` in a ring of `len` slots.
pub open spec fn ring_slot(len: int, head: int, j: int) -> int {
    if head + j < len {
        head + j
    } else {
        head + j - len
    }
}

/// The window of bin `i` in an arena of consecutive rings of `len` slots.
pub open spec fn ring_window(ring: Seq<FrequencyFeature>, len: int, i: int, head: int) -> Seq<
    FrequencyFeature,
> {
    Seq::new(len as nat, |j: int| ring[i * len + ring_slot(len, head, j)])
}

/// Slot `x` of ring `k` lies inside the arena of `n` rings of `len` slots,
/// and no other ring's slot is the same.
proof fn lemma_ring_index(n: int, len: int, k: int, x: int)
    requires
        0 <= k < n,
        0 <= x < len,
    ensures
        0 <= k * len + x < n * len,
        forall|k2: int, x2: int|
            0 <= k2 < n && 0 <= x2 < len && k2 != k ==> #[trigger] (k2 * len + x2) != k * len + x,
{
    assert(0 <= k * len + x < n * len) by (nonlinear_arith)
        requires 0 <= k < n, 0 <= x < len;
    assert forall|k2: int, x2: int|
        0 <= k2 < n && 0 <= x2 < len && k2 != k implies #[trigger] (k2 * len + x2) != k * len
        + x by {
        if k2 < k {
            assert(k2 * len + x2 < k * len + x) by (nonlinear_arith)
                requires k2 < k, 0 <= x2 < len, 0 <= x;
        } else {
            assert(k2 * len + x2 > k * len + x) by (nonlinear_arith)
                requires k2 > k, 0 <= x < len, 0 <= x2;
        }
    }
}

/// Slots of two different rings are different slots of the arena.
proof fn lemma_ring_distinct(len: int, k: int, x: int, k2: int, x2: int)
    requires
        k != k2,
        0 <= k,
        0 <= k2,
        0 <= x < len,
        0 <= x2 < len,
    ensures
        k * len + x != k2 * len + x2,
{
    if k < k2 {
        assert(k * len + x < k2 * len + x2) by (nonlinear_arith)
            requires k < k2, 0 <= x < len, 0 <= x2;
    } else {
        assert(k * len + x > k2 * len + x2) by (nonlinear_arith)
            requires k > k2, 0 <= x2 < len, 0 <= x;
    }
}

/// Writing a slot of ring `i` leaves every other ring's window as it was.
proof fn lemma_ring_write_elsewhere(
    ring: Seq<FrequencyFeature>,
    n: int,
    len: int,
    i: int,
    head: int,
    s: FrequencyFeature,
    k: int,
    h: int,
)
    requires
        ring.len() == n * len,
        0 <= i < n,
        0 <= k < n,
        k != i,
        0 <= head < len,
        0 <= h < len,
    ensures
        ring_window(ring.update(i * len + head, s), len, k, h) == ring_window(ring, len, k, h),
{
    lemma_ring_index(n, len, i, head);
    let after = ring.update(i * len + head, s);
    assert forall|j: int| 0 <= j < len implies after[k * len + ring_slot(len, h, j)] == ring[k
        * len + ring_slot(len, h, j)] by {
        lemma_ring_index(n, len, k, ring_slot(len, h, j));
        lemma_ring_distinct(len, k, ring_slot(len, h, j), i, head);
    }
    assert(ring_window(after, len, k, h) =~= ring_window(ring, len, k, h));
}

/// The landmark detector. Memory is fixed at construction: one ring of
/// `2 * t_span` samples per bin, laid end to end, all advancing together.
pub struct FeatureFinder {
    bin_count: usize,
    t_span: usize,
    window_len: usize,
    time: usize,
    head: usize,
    max_vals: Vec<FrequencyFeature>,
    ring: Vec<FrequencyFeature>,
}

impl View for FeatureFinder {
    type V = DetectorModel;

    closed spec fn view(&self) -> DetectorModel {
        DetectorModel {
            t_span: self.t_span as nat,
            time: self.time as nat,
            windows: Seq::new(
                self.bin_count as nat,
                |i: int| ring_window(self.ring@, self.window_len as int, i, self.head as int),
            ),
        }
    }
}

impl FeatureFinder {
    /// The cached maximum of each bin.
    pub closed spec fn maxima(&self) -> Seq<FrequencyFeature> {
        self.max_vals@
    }

    /// The detector's invariant: its model is well formed, its arena has the
    /// model's size, and each cached maximum is its window's maximum.
    pub closed spec fn wf(&self) -> bool {
        &&& self@.wf()
        &&& self.window_len == 2 * self.t_span
        &&& self.bin_count * self.window_len <= usize::MAX
        &&& self.ring@.len() == self.bin_count * self.window_len
        &&& self.head < self.window_len
        &&& self.max_vals@.len() == self.bin_count
        &&& self.max_vals@ == self@.maxima()
    }

    /// A detector for frames of `bin_count` bins that reports a landmark
    /// `t_span` steps after it occurred.
    pub fn new(bin_count: usize, t_span: usize) -> (r: Result<FeatureFinder, ContractViolation>)
        requires
            bin_count * 2 * t_span <= usize::MAX,
        ensures
            bin_count == 0 ==> r == Err::<FeatureFinder, _>(ContractViolation::ZeroBinCount),
            bin_count > 0 && t_span == 0 ==> r == Err::<FeatureFinder, _>(
                ContractViolation::ZeroTimeSpan,
            ),
            bin_count > 0 && t_span > 0 ==> r is Ok,
            r matches Ok(d) ==> d.wf() && d@ == DetectorModel::initial(bin_count as nat, t_span as nat),
    {
        if bin_count == 0 {
            return Err(ContractViolation::ZeroBinCount);
        }
        if t_span == 0 {
            return Err(ContractViolation::ZeroTimeSpan);
        }
        proof {
            assert(2 * t_span <= bin_count * 2 * t_span) by (nonlinear_arith)
                requires bin_count >= 1, t_span >= 0;
        }
        let window_len: usize = 2 * t_span;
        proof {
            assert(bin_count * window_len <= usize::MAX) by (nonlinear_arith)
                requires bin_count * 2 * t_span <= usize::MAX, window_len == 2 * t_span;
        }
        let mut ring: Vec<FrequencyFeature> = Vec::with_capacity(bin_count * window_len);
        let mut max_vals: Vec<FrequencyFeature> = Vec::with_capacity(bin_count);
        let mut i: usize = 0;
        while i < bin_count
            invariant
                i <= bin_count,
                window_len > 0,
                bin_count * window_len <= usize::MAX,
                ring@.len() == i * window_len,
                forall|k: int, x: int|
                    0 <= k < i && 0 <= x < window_len ==> #[trigger] ring@[k * window_len + x]
                        == sentinel(k),
                max_vals@ == Seq::new(i as nat, |k: int| sentinel(k)),
            decreases bin_count - i,
        {
            let proto = FrequencyFeature { time: 0, bin_index: i, frequency: 0, amplitude: 0 };
            let mut j: usize = 0;
            proof {
                assert(i * window_len + window_len <= bin_count * window_len) by (nonlinear_arith)
                    requires i < bin_count;
            }
            while j < window_len
                invariant
                    i < bin_count,
                    j <= window_len,
                    i * window_len + window_len <= bin_count * window_len,
                    bin_count * window_len <= usize::MAX,
                    proto == sentinel(i as int),
                    ring@.len() == i * window_len + j,
                    forall|k: int, x: int|
                        0 <= k < i && 0 <= x < window_len ==> #[trigger] ring@[k * window_len + x]
                            == sentinel(k),
                    forall|x: int| 0 <= x < j ==> #[trigger] ring@[i * window_len + x] == sentinel(i as int),
                decreases window_len - j,
            {
                let ghost before = ring@;
                ring.push(proto);
                proof {
                    assert forall|k: int, x: int|
                        0 <= k < i && 0 <= x < window_len implies #[trigger] ring@[k * window_len + x]
                            == sentinel(k) by {
                        lemma_ring_index(i as int, window_len as int, k, x);
                        assert(ring@[k * window_len + x] == before[k * window_len + x]);
                    }
                }
                j += 1;
            }
            max_vals.push(proto);
            proof {
                assert forall|k: int, x: int|
                    0 <= k < i + 1 && 0 <= x < window_len implies #[trigger] ring@[k * window_len + x]
                        == sentinel(k) by {
                    if k == i {
                        assert(ring@[i * window_len + x] == sentinel(i as int));
                    }
                }
                assert((i + 1) * window_len == i * window_len + window_len) by (nonlinear_arith);
            }
            i += 1;
            assert(max_vals@ =~= Seq::new(i as nat, |k: int| sentinel(k)));
        }
        let d = FeatureFinder { bin_count, t_span, window_len, time: 0, head: 0, max_vals, ring };
        proof {
            let m = DetectorModel::initial(bin_count as nat, t_span as nat);
            assert forall|k: int| 0 <= k < bin_count implies #[trigger] d@.windows[k] == m.windows[k] by {
                assert(d@.windows[k] =~= m.windows[k]);
            }
            assert(d@.windows =~= m.windows);
            assert forall|k: int| 0 <= k < bin_count implies #[trigger] d@.maxima()[k] == sentinel(k) by {
                lemma_window_max_at(d@.windows[k], 0);
            }
            assert(d.max_vals@ =~= d@.maxima());
        }
        Ok(d)
    }

    /// The number of steps taken so far.
    pub fn step(&self) -> (r: usize)
        ensures
            r == self@.time,
    {
        self.time
    }

    /// The number of bins of every frame this detector takes.
    pub fn bin_count(&self) -> (r: usize)
        requires
            self.wf(),
        ensures
            r == self@.windows.len(),
    {
        self.bin_count
    }

    /// The first sample with the greatest amplitude in the window of `bin`
    /// that starts at `head`.
    fn get_max_in_line(&self, bin: usize, head: usize) -> (r: FrequencyFeature)
        requires
            bin < self.bin_count,
            head < self.window_len,
            self.bin_count * self.window_len <= usize::MAX,
            self.ring@.len() == self.bin_count * self.window_len,
        ensures
            r == window_max(ring_window(self.ring@, self.window_len as int, bin as int, head as int)),
    {
        let len = self.window_len;
        let ghost w = ring_window(self.ring@, len as int, bin as int, head as int);
        proof {
            lemma_ring_index(self.bin_count as int, len as int, bin as int, head as int);
            lemma_ring_index(self.bin_count as int, len as int, bin as int, (len - 1) as int);
        }
        let base = bin * len;
        let mut best = self.ring[base + head];
        let ghost mut p: int = 0;
        assert(w[0] == best);
        let mut j: usize = 1;
        while j < len
            invariant
                1 <= j <= len,
                len == self.window_len,
                base == bin * len,
                base + len <= self.ring@.len(),
                self.ring@.len() <= usize::MAX,
                head < len,
                w == ring_window(self.ring@, len as int, bin as int, head as int),
                is_window_max(w.take(j as int), p),
                best == w[p],
            decreases len - j,
        {
            let slot = if j < len - head {
                head + j
            } else {
                j - (len - head)
            };
            assert(slot < len);
            let x = self.ring[base + slot];
            assert(x == w[j as int]);
            let ghost pre = w.take(j as int);
            if x.amplitude > best.amplitude {
                best = x;
                proof {
                    p = j as int;
                }
            }
            proof {
                let cur = w.take(j + 1);
                assert forall|k: int| 0 <= k < j implies #[trigger] cur[k] == pre[k] by {}
                assert forall|k: int| 0 <= k < cur.len() implies #[trigger] cur[k].amplitude
                    <= cur[p].amplitude by {
                    if k < j {
                        assert(pre[k] == cur[k]);
                    }
                }
                assert forall|k: int| 0 <= k < p implies #[trigger] cur[k].amplitude
                    < cur[p].amplitude by {
                    assert(pre[k] == cur[k]);
                }
            }
            j += 1;
        }
        proof {
            assert(w.take(len as int) =~= w);
            lemma_window_max_at(w, p);
        }
        best
    }

    /// Takes the frame of the next step and returns the landmarks it
    /// confirms: for each bin whose window maximum lies exactly `t_span`
    /// steps back, that maximum, in order of bin. A frame of the wrong
    /// size is refused and leaves the detector as it was.
    pub fn process(&mut self, wavelet: Wavelet) -> (r: Result<Vec<FrequencyFeature>, ContractViolation>)
        requires
            old(self).wf(),
            old(self)@.time < usize::MAX,
        ensures
            wavelet.bins@.len() != old(self)@.windows.len() ==> r == Err::<Vec<FrequencyFeature>, _>(
                ContractViolation::BinCountMismatch {
                    expected: old(self)@.windows.len() as usize,
                    found: wavelet.bins@.len() as usize,
                },
            ) && *final(self) == *old(self),
            wavelet.bins@.len() == old(self)@.windows.len() ==> r is Ok,
            r matches Ok(found) ==> final(self).wf() && final(self)@ == old(self)@.next(wavelet.bins@)
                && found@ == final(self)@.landmarks(),
    {
        if wavelet.bins.len() != self.bin_count {
            return Err(
                ContractViolation::BinCountMismatch {
                    expected: self.bin_count,
                    found: wavelet.bins.len(),
                },
            );
        }
        let ghost old_model = self@;
        let ghost new_model = old_model.next(wavelet.bins@);
        let ghost old_max = self.max_vals@;
        proof {
            lemma_next_wf(old_model, wavelet.bins@);
        }
        let len = self.window_len;
        let head = self.head;
        let next_head: usize = if head + 1 < len {
            head + 1
        } else {
            0
        };
        self.time = self.time + 1;
        let t = self.time;
        let mut i: usize = 0;
        while i < self.bin_count
            invariant
                old_model.wf(),
                new_model == old_model.next(wavelet.bins@),
                wavelet.bins@.len() == self.bin_count,
                old_model.windows.len() == self.bin_count,
                old_model.t_span == self.t_span,
                old_model.time + 1 == t,
                t == self.time,
                len == self.window_len,
                len == 2 * self.t_span,
                head < len,
                next_head == (if head + 1 < len { head + 1 } else { 0 }),
                self.bin_count * len <= usize::MAX,
                self.ring@.len() == self.bin_count * len,
                self.max_vals@.len() == self.bin_count,
                old_max == old_model.maxima(),
                i <= self.bin_count,
                forall|k: int| 0 <= k < i ==> #[trigger] ring_window(self.ring@, len as int, k, next_head as int)
                    == new_model.windows[k],
                forall|k: int| 0 <= k < i ==> #[trigger] self.max_vals@[k] == window_max(new_model.windows[k]),
                forall|k: int| i <= k < self.bin_count ==> #[trigger] ring_window(self.ring@, len as int, k, head as int)
                    == old_model.windows[k],
                forall|k: int| i <= k < self.bin_count ==> #[trigger] self.max_vals@[k] == old_max[k],
            decreases self.bin_count - i,
        {
            let bin = wavelet.bins[i];
            let s = FrequencyFeature {
                time: t,
                bin_index: i,
                frequency: bin.frequency,
                amplitude: bin.amplitude,
            };
            let ghost w_old = old_model.windows[i as int];
            let ghost ring_before = self.ring@;
            let mut cached = self.max_vals[i];
            if s.amplitude > cached.amplitude {
                cached = s;
            }
            proof {
                lemma_ring_index(self.bin_count as int, len as int, i as int, head as int);
            }
            let slot = i * len + head;
            let evicted = self.ring[slot];
            self.ring[slot] = s;
            proof {
                assert(ring_window(ring_before, len as int, i as int, head as int) == w_old);
                assert(evicted == w_old[0]);
                let nw = ring_window(self.ring@, len as int, i as int, next_head as int);
                assert forall|j: int| 0 <= j < len implies #[trigger] nw[j] == w_old.drop_first().push(
                    s,
                )[j] by {
                    lemma_ring_index(self.bin_count as int, len as int, i as int, ring_slot(len as int, next_head as int, j));
                    if j < len - 1 {
                        assert(ring_slot(len as int, next_head as int, j) == ring_slot(
                            len as int,
                            head as int,
                            j + 1,
                        ));
                        assert(ring_slot(len as int, next_head as int, j) != head);
                        assert(w_old[j + 1] == ring_before[i * len + ring_slot(
                            len as int,
                            head as int,
                            j + 1,
                        )]);
                    } else {
                        assert(ring_slot(len as int, next_head as int, j) == head);
                    }
                }
                assert(nw =~= w_old.drop_first().push(s));
                assert(new_model.windows[i as int] == w_old.drop_first().push(s));
                assert(self.ring@ == ring_before.update(i * len + head, s));
                assert forall|j: int| 0 <= j < w_old.len() implies (#[trigger] w_old[j]).time
                    < s.time by {}
                lemma_max_after_step(w_old, s);
            }
            if evicted == cached {
                cached = self.get_max_in_line(i, next_head);
            }
            let ghost max_before = self.max_vals@;
            self.max_vals[i] = cached;
            proof {
                let nw = ring_window(self.ring@, len as int, i as int, next_head as int);
                assert(nw == new_model.windows[i as int]);
                assert(old_max[i as int] == window_max(w_old));
                assert(cached == window_max(nw));
                assert(self.max_vals@[i as int] == window_max(new_model.windows[i as int]));
                assert forall|k: int| 0 <= k < i implies #[trigger] ring_window(
                    self.ring@,
                    len as int,
                    k,
                    next_head as int,
                ) == new_model.windows[k] by {
                    assert(ring_window(ring_before, len as int, k, next_head as int)
                        == new_model.windows[k]);
                    lemma_ring_write_elsewhere(ring_before, self.bin_count as int, len as int, i as int, head as int, s, k, next_head as int);
                }
                assert forall|k: int| 0 <= k < i implies #[trigger] self.max_vals@[k] == window_max(
                    new_model.windows[k],
                ) by {
                    assert(self.max_vals@[k] == max_before[k]);
                }
                assert forall|k: int| i + 1 <= k < self.bin_count implies #[trigger] ring_window(
                    self.ring@,
                    len as int,
                    k,
                    head as int,
                ) == old_model.windows[k] by {
                    assert(ring_window(ring_before, len as int, k, head as int) == old_model.windows[k]);
                    lemma_ring_write_elsewhere(ring_before, self.bin_count as int, len as int, i as int, head as int, s, k, head as int);
                }
                assert forall|k: int| i + 1 <= k < self.bin_count implies #[trigger] self.max_vals@[k]
                    == old_max[k] by {
                    assert(self.max_vals@[k] == max_before[k]);
                }
            }
            i += 1;
        }
        self.head = next_head;
        proof {
            assert forall|k: int| 0 <= k < self.bin_count implies #[trigger] self@.windows[k]
                == new_model.windows[k] by {}
            assert(self@.windows =~= new_model.windows);
            assert(self.max_vals@ =~= self@.maxima());
        }
        let mut found: Vec<FrequencyFeature> = Vec::new();
        let mut k: usize = 0;
        while k < self.bin_count
            invariant
                self.wf(),
                self@ == new_model,
                t == self.time,
                t == new_model.time,
                k <= self.bin_count,
                found@ == due_landmarks(self.max_vals@.take(k as int), self.t_span as nat, t as nat),
            decreases self.bin_count - k,
        {
            let v = self.max_vals[k];
            proof {
                lemma_due_push(self.max_vals@.take(k as int), v, self.t_span as nat, t as nat);
                assert(self.max_vals@.take(k + 1) =~= self.max_vals@.take(k as int).push(v));
            }
            if t >= self.t_span && v.time == t - self.t_span {
                found.push(v);
            }
            k += 1;
        }
        assert(self.max_vals@.take(k as int) =~= self.max_vals@);
        Ok(found)
    }
}

/// Unfolds the landmarks of a sequence of maxima: each is due, each comes
/// from the sequence, every due maximum is among them, and they keep the
/// sequence's order of bins.
proof fn lemma_due_facts(s: Seq<FrequencyFeature>, t_span: nat, time: nat)
    ensures
        forall|k: int| 0 <= k < due_landmarks(s, t_span, time).len() ==> {
            &&& (#[trigger] due_landmarks(s, t_span, time)[k]).time + t_span == time
            &&& s.contains(due_landmarks(s, t_span, time)[k])
        },
        forall|i: int| 0 <= i < s.len() && (#[trigger] s[i]).time + t_span == time
            ==> due_landmarks(s, t_span, time).contains(s[i]),
        (forall|a: int, b: int| 0 <= a < b < s.len() ==> s[a].bin_index < s[b].bin_index)
            ==> forall|a: int, b: int|
            0 <= a < b < due_landmarks(s, t_span, time).len() ==> (#[trigger] due_landmarks(
                s,
                t_span,
                time,
            )[a]).bin_index < (#[trigger] due_landmarks(s, t_span, time)[b]).bin_index,
    decreases s.len(),
{
    if s.len() == 0 {
        reveal(Seq::filter);
    } else {
        let v = s.drop_last();
        let x = s.last();
        lemma_due_facts(v, t_span, time);
        lemma_due_push(v, x, t_span, time);
        assert(v.push(x) =~= s);
        let dv = due_landmarks(v, t_span, time);
        let ds = due_landmarks(s, t_span, time);
        assert forall|k: int| 0 <= k < ds.len() implies {
            &&& (#[trigger] ds[k]).time + t_span == time
            &&& s.contains(ds[k])
        } by {
            if k < dv.len() {
                assert(ds[k] == dv[k]);
                let q = choose|q: int| 0 <= q < v.len() && v[q] == dv[k];
                assert(s[q] == v[q]);
            } else {
                assert(ds[k] == x);
                assert(s[s.len() - 1] == x);
            }
        }
        assert forall|i: int| 0 <= i < s.len() && (#[trigger] s[i]).time + t_span == time
            implies ds.contains(s[i]) by {
            if i < v.len() {
                assert(v[i] == s[i]);
                let q = choose|q: int| 0 <= q < dv.len() && dv[q] == v[i];
                assert(ds[q] == dv[q]);
            } else {
                assert(ds[ds.len() - 1] == x);
            }
        }
        if forall|a: int, b: int| 0 <= a < b < s.len() ==> s[a].bin_index < s[b].bin_index {
            assert forall|a: int, b: int| 0 <= a < b < v.len() implies v[a].bin_index
                < v[b].bin_index by {
                assert(v[a] == s[a] && v[b] == s[b]);
            }
            assert forall|a: int, b: int| 0 <= a < b < ds.len() implies (#[trigger] ds[a]).bin_index
                < (#[trigger] ds[b]).bin_index by {
                if b < dv.len() {
                    assert(ds[a] == dv[a] && ds[b] == dv[b]);
                } else {
                    assert(ds[a] == dv[a]);
                    let q = choose|q: int| 0 <= q < v.len() && v[q] == dv[a];
                    assert(s[q] == v[q]);
                    assert(s[s.len() - 1] == x);
                }
            }
        }
    }
}

/// The first maximum of a window is one of the window's samples.
proof fn lemma_window_max_member(w: Seq<FrequencyFeature>)
    requires
        w.len() >= 1,
    ensures
        exists|p: int| is_window_max(w, p) && w[p] == window_max(w),
{
    lemma_window_max_exists(w);
    let p = choose|p: int| is_window_max(w, p);
    lemma_window_max_at(w, p);
}

/// In a well-formed detector every window's maximum carries the window's
/// own bin index, so the maxima are in strictly increasing order of bin.
proof fn lemma_maxima_bins(m: DetectorModel)
    requires
        m.wf(),
    ensures
        forall|i: int| 0 <= i < m.windows.len() ==> (#[trigger] m.maxima()[i]).bin_index == i,
{
    assert forall|i: int| 0 <= i < m.windows.len() implies (#[trigger] m.maxima()[i]).bin_index
        == i by {
        lemma_window_max_member(m.windows[i]);
    }
}

impl FeatureFinder {
    /// After every step, each bin's window holds the samples of the last
    /// `min(t, 2 * t_span)` steps in its last positions and sentinels before
    /// them, and each cached maximum is exactly the first sample of greatest
    /// amplitude in its window.
    pub proof fn lemma_buffer_invariant(&self)
        requires
            self.wf(),
        ensures
            self.maxima() == self@.maxima(),
            forall|i: int, j: int|
                0 <= i < self@.windows.len() && 0 <= j < self@.window_len() ==> ((
                #[trigger] self@.windows[i][j]).time > 0 <==> j >= self@.window_len() - (if self@.time
                    < self@.window_len() {
                    self@.time
                } else {
                    self@.window_len()
                })),
            forall|i: int| 0 <= i < self@.windows.len() ==> self@.windows[i].len() == self@.window_len(),
    {
    }

    /// Two well-formed detectors in the same state, fed the same frame,
    /// reach the same state and confirm the same landmarks; the cached
    /// maxima, which are all the rest of what they hold, agree as well.
    pub proof fn lemma_deterministic(&self, other: &FeatureFinder, frame: Seq<FrequencyBin>)
        requires
            self.wf(),
            other.wf(),
            self@ == other@,
        ensures
            self.maxima() == other.maxima(),
            self@.next(frame) == other@.next(frame),
            self@.next(frame).landmarks() == other@.next(frame).landmarks(),
    {
    }
}

/// Every landmark confirmed on a step lies exactly `t_span` steps before
/// it, no bin confirms two on one step, and each window maximum that lies
/// `t_span` steps back is confirmed. Hence a landmark of step `tau` is
/// reported once, on step `tau + t_span`, and on no other.
pub proof fn lemma_fixed_latency(m: DetectorModel)
    requires
        m.wf(),
    ensures
        forall|k: int| 0 <= k < m.landmarks().len() ==> (#[trigger] m.landmarks()[k]).time + m.t_span
            == m.time,
        forall|a: int, b: int|
            0 <= a < b < m.landmarks().len() ==> (#[trigger] m.landmarks()[a]).bin_index
                < (#[trigger] m.landmarks()[b]).bin_index,
        forall|i: int| 0 <= i < m.windows.len() && (#[trigger] m.maxima()[i]).time + m.t_span == m.time
            ==> m.landmarks().contains(m.maxima()[i]),
{
    lemma_maxima_bins(m);
    lemma_due_facts(m.maxima(), m.t_span, m.time);
}

/// A confirmed landmark is a local maximum of its bin: its window covers
/// the steps after `time - t_span` up to `time + t_span`, no sample there is
/// louder, and every earlier sample there is quieter.
pub proof fn lemma_local_maximum(m: DetectorModel, k: int)
    requires
        m.wf(),
        0 <= k < m.landmarks().len(),
    ensures
        ({
            let l = m.landmarks()[k];
            let w = m.windows[l.bin_index as int];
            &&& 0 <= l.bin_index < m.windows.len()
            &&& l.time + m.t_span == m.time
            &&& forall|j: int| 0 <= j < w.len() ==> (#[trigger] w[j]).time > 0 ==> l.time
                < w[j].time + m.t_span && w[j].time <= l.time + m.t_span
            &&& forall|j: int| 0 <= j < w.len() ==> (#[trigger] w[j]).amplitude <= l.amplitude
            &&& forall|j: int| 0 <= j < w.len() && (#[trigger] w[j]).time < l.time ==> w[j].amplitude
                < l.amplitude
        }),
{
    lemma_maxima_bins(m);
    lemma_due_facts(m.maxima(), m.t_span, m.time);
    let l = m.landmarks()[k];
    let i = choose|i: int| 0 <= i < m.maxima().len() && m.maxima()[i] == l;
    let w = m.windows[i];
    lemma_window_max_member(w);
    let p = choose|p: int| is_window_max(w, p) && w[p] == window_max(w);
    assert(l == w[p]);
    assert forall|j: int| 0 <= j < w.len() && (#[trigger] w[j]).time < l.time implies w[j].amplitude
        < l.amplitude by {
        if j >= p {
            assert(slot_time(m.time as int, m.window_len() as int, j) >= slot_time(
                m.time as int,
                m.window_len() as int,
                p,
            ));
        }
    }
}

} // verus!
