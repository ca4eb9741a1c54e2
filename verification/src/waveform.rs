//! The waveform analyzer: downsampling a raw sample buffer into a
//! fixed-ratio amplitude envelope, and extracting local maxima above a
//! threshold. Sample amplitudes are integers; the envelope holds the mean of
//! absolute values of each 100-sample chunk, the final partial chunk
//! averaged over its own shorter length.
use vstd::prelude::*;

verus! {

/// The absolute value of an amplitude.
pub open spec fn abs_val(x: int) -> int {
    if x < 0 {
        -x
    } else {
        x
    }
}

/// The sum of absolute values of `s[a..b]`.
pub open spec fn sum_abs(s: Seq<i32>, a: int, b: int) -> int
    decreases b - a,
{
    if a >= b {
        0
    } else {
        sum_abs(s, a, b - 1) + abs_val(s[b - 1] as int)
    }
}

/// The envelope of a sample buffer: one mean of absolute values per chunk of
/// 100 consecutive samples, a final partial chunk averaged over its own
/// length.
pub open spec fn envelope_spec(s: Seq<i32>) -> Seq<int>
    decreases s.len(),
{
    if s.len() == 0 {
        Seq::empty()
    } else if s.len() <= 100 {
        seq![sum_abs(s, 0, s.len() as int) / (s.len() as int)]
    } else {
        seq![sum_abs(s, 0, 100) / 100] + envelope_spec(s.skip(100))
    }
}

/// The integer view of stored envelope values.
pub open spec fn env_ints(s: Seq<u32>) -> Seq<int> {
    s.map_values(|x: u32| x as int)
}

/// The model of a [`WaveformProcessor`]: its sample rate and the
/// last-computed envelope.
pub struct WaveformModel {
    pub sample_rate: int,
    pub samples: Seq<int>,
}

/// Holds the last-computed amplitude envelope.
pub struct WaveformProcessor {
    sample_rate: u32,
    samples: Vec<u32>,
}

impl View for WaveformProcessor {
    type V = WaveformModel;

    closed spec fn view(&self) -> WaveformModel {
        WaveformModel { sample_rate: self.sample_rate as int, samples: env_ints(self.samples@) }
    }
}

/// Sums of absolute values are bounded by the widest amplitude per sample.
proof fn lemma_sum_abs_bound(s: Seq<i32>, a: int, b: int)
    requires
        0 <= a <= b <= s.len(),
    ensures
        0 <= sum_abs(s, a, b) <= (b - a) * 0x80000000,
    decreases b - a,
{
    if a < b {
        lemma_sum_abs_bound(s, a, b - 1);
        assert((b - a) * 0x80000000 == (b - 1 - a) * 0x80000000 + 0x80000000) by (nonlinear_arith);
    }
}

impl WaveformProcessor {
    /// Constructs an analyzer with an empty envelope.
    pub fn new(sample_rate: u32) -> (out: WaveformProcessor)
        ensures
            out@.sample_rate == sample_rate as int,
            out@.samples == Seq::<int>::empty(),
    {
        let out = WaveformProcessor { sample_rate, samples: Vec::new() };
        proof {
            assert(out@.samples =~= Seq::<int>::empty());
        }
        out
    }

    /// The stored envelope, as a fresh vector.
    pub fn get_waveform_data(&self) -> (r: Vec<u32>)
        ensures
            env_ints(r@) == self@.samples,
    {
        let mut out: Vec<u32> = Vec::new();
        let mut i: usize = 0;
        while i < self.samples.len()
            invariant
                0 <= i <= self.samples.len(),
                out@ == self.samples@.take(i as int),
            decreases self.samples.len() - i,
        {
            out.push(self.samples[i]);
            proof {
                assert(out@ =~= self.samples@.take(i + 1 as int));
            }
            i += 1;
        }
        proof {
            assert(self.samples@.take(self.samples@.len() as int) =~= self.samples@);
        }
        out
    }

    /// Replaces the stored envelope with the envelope of `audio`, per
    /// [`envelope_spec`].
    pub fn process_audio_buffer(&mut self, audio: &Vec<i32>)
        ensures
            final(self)@.samples == envelope_spec(audio@),
            final(self)@.sample_rate == old(self)@.sample_rate,
    {
        let mut out: Vec<u32> = Vec::new();
        let mut i: usize = 0;
        proof {
            assert(audio@.skip(0) =~= audio@);
            assert(env_ints(out@) =~= Seq::<int>::empty());
            assert(Seq::<int>::empty() + envelope_spec(audio@) =~= envelope_spec(audio@));
        }
        while i < audio.len()
            invariant
                0 <= i <= audio.len(),
                i % 100 == 0 || i == audio.len(),
                env_ints(out@) + envelope_spec(audio@.skip(i as int)) == envelope_spec(audio@),
            decreases audio.len() - i,
        {
            let chunk_len: usize = if audio.len() - i < 100 {
                audio.len() - i
            } else {
                100
            };
            let mut sum: u64 = 0;
            let mut k: usize = 0;
            while k < chunk_len
                invariant
                    0 <= k <= chunk_len,
                    i + chunk_len <= audio.len(),
                    chunk_len <= 100,
                    sum == sum_abs(audio@.skip(i as int), 0, k as int),
                    sum <= (k as int) * 0x80000000,
                decreases chunk_len - k,
            {
                let v = audio[i + k];
                let a: u64 = if v < 0 {
                    (-(v as i64)) as u64
                } else {
                    v as u64
                };
                proof {
                    assert(audio@.skip(i as int)[k as int] == audio@[i + k]);
                    assert((k + 1 as int) * 0x80000000 == (k as int) * 0x80000000 + 0x80000000)
                        by (nonlinear_arith);
                }
                sum = sum + a;
                k += 1;
            }
            let mean: u64 = sum / (chunk_len as u64);
            proof {
                let suf = audio@.skip(i as int);
                lemma_sum_abs_bound(suf, 0, chunk_len as int);
                assert(sum_abs(suf, 0, chunk_len as int) / (chunk_len as int) <= 0x80000000)
                    by (nonlinear_arith)
                    requires
                        0 <= sum_abs(suf, 0, chunk_len as int) <= (chunk_len as int) * 0x80000000,
                        0 < chunk_len,
                ;
            }
            let ghost prev = out@;
            out.push(mean as u32);
            proof {
                let suf = audio@.skip(i as int);
                assert(env_ints(out@) =~= env_ints(prev).push(mean as int));
                if suf.len() <= 100 {
                    assert(chunk_len == suf.len());
                    assert(envelope_spec(suf) == seq![
                        sum_abs(suf, 0, suf.len() as int) / (suf.len() as int),
                    ]);
                    assert(audio@.skip(i + chunk_len).len() == 0);
                    assert(envelope_spec(audio@.skip(i + chunk_len)) =~= Seq::<int>::empty());
                    assert(env_ints(prev).push(mean as int) + Seq::<int>::empty() =~= env_ints(
                        prev,
                    ) + envelope_spec(suf));
                } else {
                    assert(chunk_len == 100);
                    assert(suf.skip(100) =~= audio@.skip(i + 100));
                    assert(envelope_spec(suf) == seq![sum_abs(suf, 0, 100) / 100] + envelope_spec(
                        suf.skip(100),
                    ));
                    assert(env_ints(prev).push(mean as int) + envelope_spec(audio@.skip(i + 100))
                        =~= env_ints(prev) + envelope_spec(suf));
                }
            }
            i += chunk_len;
        }
        proof {
            assert(audio@.skip(audio@.len() as int).len() == 0);
            assert(envelope_spec(audio@.skip(audio@.len() as int)) =~= Seq::<int>::empty());
            assert(env_ints(out@) + Seq::<int>::empty() =~= env_ints(out@));
        }
        self.samples = out;
    }

    /// Every interior envelope position whose value exceeds the threshold
    /// and both immediate neighbors, in ascending order. The first and last
    /// positions never qualify; an envelope of fewer than two points yields
    /// nothing.
    pub fn get_peaks(&self, threshold: u32) -> (r: Vec<usize>)
        ensures
            forall|p: int|
                0 <= p < r@.len() ==> 1 <= #[trigger] r@[p] && r@[p] + 1 < self@.samples.len()
                    && self@.samples[r@[p] as int] > threshold && self@.samples[r@[p] as int]
                    > self@.samples[r@[p] - 1] && self@.samples[r@[p] as int]
                    > self@.samples[r@[p] + 1],
            forall|i: int|
                1 <= i && i + 1 < self@.samples.len() && (#[trigger] self@.samples[i]) > threshold
                    && self@.samples[i] > self@.samples[i - 1] && self@.samples[i]
                    > self@.samples[i + 1] ==> r@.contains(i as usize),
            forall|p: int, q: int| 0 <= p < q < r@.len() ==> r@[p] < r@[q],
    {
        let mut out: Vec<usize> = Vec::new();
        if self.samples.len() < 2 {
            return out;
        }
        let mut i: usize = 1;
        while i < self.samples.len() - 1
            invariant
                1 <= i,
                i <= self.samples.len() - 1,
                self.samples.len() >= 2,
                forall|p: int|
                    0 <= p < out@.len() ==> 1 <= #[trigger] out@[p] && out@[p] + 1
                        < self@.samples.len() && self@.samples[out@[p] as int] > threshold
                        && self@.samples[out@[p] as int] > self@.samples[out@[p] - 1]
                        && self@.samples[out@[p] as int] > self@.samples[out@[p] + 1],
                forall|b: int|
                    1 <= b < i && b + 1 < self@.samples.len() && (#[trigger] self@.samples[b])
                        > threshold && self@.samples[b] > self@.samples[b - 1] && self@.samples[b]
                        > self@.samples[b + 1] ==> out@.contains(b as usize),
                forall|p: int| 0 <= p < out@.len() ==> #[trigger] out@[p] < i,
                forall|p: int, q: int| 0 <= p < q < out@.len() ==> out@[p] < out@[q],
            decreases self.samples.len() - i,
        {
            proof {
                assert(self@.samples[i as int] == self.samples@[i as int] as int);
                assert(self@.samples[i - 1] == self.samples@[i - 1] as int);
                assert(self@.samples[i + 1] == self.samples@[i + 1] as int);
            }
            if self.samples[i] > threshold && self.samples[i] > self.samples[i - 1]
                && self.samples[i] > self.samples[i + 1] {
                let ghost prev = out@;
                out.push(i);
                proof {
                    assert(out@[out@.len() - 1] == i);
                    assert forall|b: int|
                        1 <= b < i + 1 && b + 1 < self@.samples.len() && (
                        #[trigger] self@.samples[b]) > threshold && self@.samples[b]
                            > self@.samples[b - 1] && self@.samples[b] > self@.samples[b
                            + 1] implies out@.contains(b as usize) by {
                        if b < i {
                            assert(prev.contains(b as usize));
                            let w = choose|w: int| 0 <= w < prev.len() && prev[w] == b as usize;
                            assert(out@[w] == b as usize);
                        } else {
                            assert(out@[out@.len() - 1] == b as usize);
                        }
                    }
                }
            }
            i += 1;
        }
        out
    }
}

} // verus!
