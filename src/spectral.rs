//! The spectral frame and the operations derived from it.
use vstd::prelude::*;

verus! {

/// One channel's reading at one instant.
#[derive(Debug, Clone, Copy, PartialEq, Eq, Structural)]
pub struct FrequencyBin {
    pub amplitude: u64,
    pub frequency: u64,
}

/// The spectrum at one discrete step: one bin per frequency channel.
#[derive(Debug, Clone)]
pub struct Wavelet {
    pub bins: Vec<FrequencyBin>,
}

/// The reading of a silent channel.
pub open spec fn zero_bin() -> FrequencyBin {
    FrequencyBin { amplitude: 0, frequency: 0 }
}

/// Bin `p` holds a positive amplitude that no bin exceeds and that every
/// earlier bin falls short of: the first loudest bin.
pub open spec fn is_dominant(bins: Seq<FrequencyBin>, p: int) -> bool {
    &&& 0 <= p < bins.len()
    &&& bins[p].amplitude > 0
    &&& forall|j: int| 0 <= j < bins.len() ==> #[trigger] bins[j].amplitude <= bins[p].amplitude
    &&& forall|j: int| 0 <= j < p ==> #[trigger] bins[j].amplitude < bins[p].amplitude
}

/// The frequency of the first loudest bin, or zero on a silent frame.
pub open spec fn dominant_frequency(bins: Seq<FrequencyBin>) -> u64 {
    if exists|p: int| is_dominant(bins, p) {
        bins[choose|p: int| is_dominant(bins, p)].frequency
    } else {
        0
    }
}

/// At most one bin is the first loudest.
pub proof fn lemma_dominant_unique(bins: Seq<FrequencyBin>, p: int, q: int)
    requires
        is_dominant(bins, p),
        is_dominant(bins, q),
    ensures
        p == q,
{
    if p < q {
        assert(bins[p].amplitude < bins[q].amplitude);
        assert(bins[q].amplitude <= bins[p].amplitude);
    } else if q < p {
        assert(bins[q].amplitude < bins[p].amplitude);
        assert(bins[p].amplitude <= bins[q].amplitude);
    }
}

/// A silent frame has dominant frequency zero; a frame with exactly one
/// sounding bin has that bin's frequency as its dominant frequency.
pub proof fn lemma_dominant_frequency_cases(bins: Seq<FrequencyBin>, p: int)
    ensures
        (forall|j: int| 0 <= j < bins.len() ==> #[trigger] bins[j].amplitude == 0)
            ==> dominant_frequency(bins) == 0,
        (0 <= p < bins.len() && bins[p].amplitude > 0 && forall|j: int|
            0 <= j < bins.len() && j != p ==> #[trigger] bins[j].amplitude == 0)
            ==> dominant_frequency(bins) == bins[p].frequency,
{
    if forall|j: int| 0 <= j < bins.len() ==> #[trigger] bins[j].amplitude == 0 {
        assert forall|q: int| !is_dominant(bins, q) by {
            if 0 <= q < bins.len() {
                assert(bins[q].amplitude == 0);
            }
        }
    }
    if 0 <= p < bins.len() && bins[p].amplitude > 0 && forall|j: int|
        0 <= j < bins.len() && j != p ==> #[trigger] bins[j].amplitude == 0 {
        assert forall|j: int| 0 <= j < bins.len() implies #[trigger] bins[j].amplitude
            <= bins[p].amplitude by {
            if j != p {
                assert(bins[j].amplitude == 0);
            }
        }
        assert forall|j: int| 0 <= j < p implies #[trigger] bins[j].amplitude
            < bins[p].amplitude by {
            assert(bins[j].amplitude == 0);
        }
        assert(is_dominant(bins, p));
        let c = choose|q: int| is_dominant(bins, q);
        lemma_dominant_unique(bins, p, c);
    }
}

/// Where bin `k` goes when the spectrum is scaled by `num / den`.
pub open spec fn shift_target(k: int, num: nat, den: nat) -> int {
    (k * (num as int)) / (den as int)
}

/// The summed amplitude of the first `n` source bins that land on bin `d`.
pub open spec fn landed_amplitude(src: Seq<FrequencyBin>, num: nat, den: nat, d: int, n: nat) -> int
    decreases n,
{
    if n == 0 {
        0
    } else {
        let rest = landed_amplitude(src, num, den, d, (n - 1) as nat);
        if shift_target(n - 1, num, den) == d {
            rest + src[n - 1].amplitude
        } else {
            rest
        }
    }
}

/// The scaled frequency of the last of the first `n` source bins that land
/// on bin `d`, or zero where none does.
pub open spec fn landed_frequency(src: Seq<FrequencyBin>, num: nat, den: nat, d: int, n: nat) -> int
    decreases n,
{
    if n == 0 {
        0
    } else if shift_target(n - 1, num, den) == d {
        (src[n - 1].frequency as int) * (num as int) / (den as int)
    } else {
        landed_frequency(src, num, den, d, (n - 1) as nat)
    }
}

/// The frame scaled by `num / den`: amplitudes that land on one bin add up,
/// the frequency is that of the last bin to land there, scaled; bins that
/// land past the end are dropped.
pub open spec fn shifted(src: Seq<FrequencyBin>, num: nat, den: nat) -> Seq<FrequencyBin> {
    Seq::new(
        src.len(),
        |d: int|
            FrequencyBin {
                amplitude: landed_amplitude(src, num, den, d, src.len()) as u64,
                frequency: landed_frequency(src, num, den, d, src.len()) as u64,
            },
    )
}

/// The sum of all amplitudes of the frame.
pub open spec fn total_amplitude(bins: Seq<FrequencyBin>) -> int
    decreases bins.len(),
{
    if bins.len() == 0 {
        0
    } else {
        total_amplitude(bins.drop_last()) + bins.last().amplitude
    }
}

/// What lands on a bin never exceeds the total amplitude.
proof fn lemma_landed_bounded(src: Seq<FrequencyBin>, num: nat, den: nat, d: int, n: nat)
    requires
        n <= src.len(),
    ensures
        landed_amplitude(src, num, den, d, n) <= total_amplitude(src.take(n as int)),
    decreases n,
{
    if n > 0 {
        lemma_landed_bounded(src, num, den, d, (n - 1) as nat);
        assert(src.take(n as int).drop_last() =~= src.take(n - 1));
    }
}

/// The total amplitude of a prefix never exceeds that of the frame.
proof fn lemma_total_prefix(bins: Seq<FrequencyBin>, n: int)
    requires
        0 <= n <= bins.len(),
    ensures
        total_amplitude(bins.take(n)) <= total_amplitude(bins),
    decreases bins.len() - n,
{
    if n < bins.len() {
        lemma_total_prefix(bins, n + 1);
        assert(bins.take(n + 1).drop_last() =~= bins.take(n));
    } else {
        assert(bins.take(n) =~= bins);
    }
}

/// Scaling by one keeps every bin where it was: the frame is unchanged.
pub proof fn lemma_shift_identity(src: Seq<FrequencyBin>, factor: nat)
    requires
        factor > 0,
    ensures
        shifted(src, factor, factor) == src,
{
    assert forall|d: int| 0 <= d < src.len() implies #[trigger] shifted(src, factor, factor)[d]
        == src[d] by {
        lemma_identity_landing(src, factor, d, src.len());
    }
    assert(shifted(src, factor, factor) =~= src);
}

proof fn lemma_identity_landing(src: Seq<FrequencyBin>, factor: nat, d: int, n: nat)
    requires
        factor > 0,
        0 <= d < src.len(),
        n <= src.len(),
    ensures
        landed_amplitude(src, factor, factor, d, n) == (if d < n { src[d].amplitude as int } else { 0 }),
        landed_frequency(src, factor, factor, d, n) == (if d < n { src[d].frequency as int } else { 0 }),
    decreases n,
{
    if n > 0 {
        lemma_identity_landing(src, factor, d, (n - 1) as nat);
        let k = n - 1;
        assert((k * factor) / (factor as int) == k) by (nonlinear_arith)
            requires factor > 0, k >= 0;
        assert((src[k].frequency * factor) / (factor as int) == src[k].frequency) by (nonlinear_arith)
            requires factor > 0;
    }
}

impl Wavelet {
    /// The zero frame of `frames` bins.
    pub fn empty(frames: usize) -> (r: Wavelet)
        ensures
            r.bins@ == Seq::new(frames as nat, |k: int| zero_bin()),
    {
        let mut bins: Vec<FrequencyBin> = Vec::with_capacity(frames);
        let mut k: usize = 0;
        while k < frames
            invariant
                k <= frames,
                bins@ == Seq::new(k as nat, |j: int| zero_bin()),
            decreases frames - k,
        {
            bins.push(FrequencyBin { amplitude: 0, frequency: 0 });
            k += 1;
            assert(bins@ =~= Seq::new(k as nat, |j: int| zero_bin()));
        }
        Wavelet { bins }
    }

    /// The frequency of the loudest bin; the first of equally loud bins wins,
    /// and a silent frame gives zero.
    pub fn base_freq(&self) -> (r: u64)
        ensures
            r == dominant_frequency(self.bins@),
    {
        let mut max_freq: u64 = 0;
        let mut max_amp: u64 = 0;
        let ghost mut best: int = -1;
        let mut k: usize = 0;
        while k < self.bins.len()
            invariant
                k <= self.bins@.len(),
                -1 <= best < k,
                best == -1 ==> max_amp == 0 && max_freq == 0,
                best == -1 ==> forall|j: int| 0 <= j < k ==> #[trigger] self.bins@[j].amplitude == 0,
                best >= 0 ==> is_dominant(self.bins@.take(k as int), best),
                best >= 0 ==> max_amp == self.bins@[best].amplitude && max_freq
                    == self.bins@[best].frequency,
            decreases self.bins.len() - k,
        {
            let bin = self.bins[k];
            if bin.amplitude > max_amp {
                max_amp = bin.amplitude;
                max_freq = bin.frequency;
                proof {
                    best = k as int;
                }
            }
            k += 1;
            proof {
                let pre = self.bins@.take(k as int);
                if best >= 0 {
                    assert forall|j: int| 0 <= j < pre.len() implies #[trigger] pre[j].amplitude
                        <= pre[best].amplitude by {
                        if j < k - 1 {
                            assert(self.bins@.take(k - 1)[j] == pre[j]);
                        }
                    }
                    assert forall|j: int| 0 <= j < best implies #[trigger] pre[j].amplitude
                        < pre[best].amplitude by {
                        assert(self.bins@.take(k - 1)[j] == pre[j]);
                    }
                }
            }
        }
        proof {
            let bins = self.bins@;
            assert(bins.take(k as int) =~= bins);
            if best >= 0 {
                let c = choose|q: int| is_dominant(bins, q);
                lemma_dominant_unique(bins, best, c);
            } else {
                assert forall|q: int| !is_dominant(bins, q) by {
                    if 0 <= q < bins.len() {
                        assert(bins[q].amplitude == 0);
                    }
                }
            }
        }
        max_freq
    }

    /// Scales the spectrum by `num / den`: bin `k` moves to bin
    /// `floor(k * num / den)`, adding its amplitude to what is there and
    /// leaving its frequency, scaled, in place of what was there. Bins that
    /// move past the end are dropped.
    pub fn pitch_shift(&mut self, num: u64, den: u64)
        requires
            den > 0,
            total_amplitude(old(self).bins@) <= u64::MAX,
            forall|k: int| 0 <= k < old(self).bins@.len() ==> #[trigger] old(self).bins@[k].frequency
                * num / (den as int) <= u64::MAX,
        ensures
            final(self).bins@ == shifted(old(self).bins@, num as nat, den as nat),
    {
        let ghost src = self.bins@;
        let len = self.bins.len();
        let mut new_bins = Wavelet::empty(len).bins;
        let mut k: usize = 0;
        while k < len
            invariant
                self.bins@ == src,
                len == src.len(),
                k <= len,
                den > 0,
                total_amplitude(src) <= u64::MAX,
                forall|j: int| 0 <= j < src.len() ==> #[trigger] src[j].frequency * num / (den as int)
                    <= u64::MAX,
                new_bins@.len() == len,
                forall|d: int| 0 <= d < len ==> (#[trigger] new_bins@[d]).amplitude
                    == landed_amplitude(src, num as nat, den as nat, d, k as nat)
                    && new_bins@[d].frequency == landed_frequency(src, num as nat, den as nat, d, k as nat),
            decreases len - k,
        {
            proof {
                assert((k as int) * (num as int) <= u128::MAX) by (nonlinear_arith)
                    requires k <= u64::MAX, num <= u64::MAX;
            }
            let index: u128 = (k as u128) * (num as u128) / (den as u128);
            if index < len as u128 {
                let d = index as usize;
                let bin = self.bins[k];
                proof {
                    lemma_landed_bounded(src, num as nat, den as nat, d as int, (k + 1) as nat);
                    lemma_total_prefix(src, k + 1);
                }
                proof {
                    assert((bin.frequency as int) * (num as int) <= u128::MAX) by (nonlinear_arith)
                        requires bin.frequency <= u64::MAX, num <= u64::MAX;
                }
                let scaled: u128 = (bin.frequency as u128) * (num as u128) / (den as u128);
                let old_amp = new_bins[d].amplitude;
                new_bins[d] = FrequencyBin { amplitude: old_amp + bin.amplitude, frequency: scaled as u64 };
            }
            k += 1;
        }
        self.bins = new_bins;
        assert(self.bins@ =~= shifted(src, num as nat, den as nat));
    }
}

} // verus!
