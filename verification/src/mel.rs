//! Framing of audio for the mel spectrogram.
//!
//! The spectrogram itself is computed by the numeric runtime, frame by frame, from the waveform
//! that is laid out here. A sample is held as the bits of its 32-bit floating-point number, so
//! the silent sample is zero.

use crate::tensor::Tensor;
use vstd::prelude::*;

verus! {

/// Incremental mel spectrogram cache for streaming.
///
/// A frame whose analysis window lies within the samples that have been seen never changes when
/// more audio is appended. Such frames are kept, before the log normalization, which depends on
/// all frames and is applied anew each time.
#[derive(Debug)]
pub struct MelCache {
    /// Raw mel spectrogram (mel bins, frames).
    pub mel_spec: Option<Tensor>,
    /// Number of cached frames.
    pub frames: usize,
}

impl MelCache {
    /// The spectrogram has the frames that are counted.
    pub open spec fn wf(&self) -> bool {
        match self.mel_spec {
            None => self.frames == 0,
            Some(t) => t.wf() && t.rank() == 2 && t.shape[1] == self.frames,
        }
    }

    /// The cached frames.
    pub open spec fn columns(&self) -> Seq<Seq<i64>> {
        match self.mel_spec {
            None => Seq::empty(),
            Some(t) => t.along(1),
        }
    }
}

impl Default for MelCache {
    fn default() -> (res: MelCache)
        ensures
            res.wf(),
            res.mel_spec is None,
            res.frames == 0,
    {
        MelCache { mel_spec: None, frames: 0 }
    }
}

/// The next multiple of `hop`.
pub open spec fn padded_len(n: int, hop: int) -> int {
    (n + hop - 1) / hop * hop
}

/// The number of frames of `n` samples.
pub open spec fn frame_count(n: int, hop: int) -> int {
    padded_len(n, hop) / hop
}

/// The samples with silence up to the next multiple of `hop`.
pub open spec fn padded(samples: Seq<u32>, hop: int) -> Seq<u32> {
    samples + Seq::new((padded_len(samples.len() as int, hop) - samples.len()) as nat, |i: int| 0u32)
}

/// A signal with `pad` samples mirrored at either end, the end samples themselves not repeated.
pub open spec fn reflected(x: Seq<u32>, pad: int) -> Seq<u32> {
    Seq::new(
        (pad + x.len() + pad) as nat,
        |i: int|
            if i < pad {
                x[pad - i]
            } else if i < pad + x.len() {
                x[i - pad]
            } else {
                x[x.len() - 2 - (i - pad - x.len())]
            },
    )
}

/// The signal that is cut into frames.
pub open spec fn framed_signal(samples: Seq<u32>, n_fft: int, hop: int) -> Seq<u32> {
    reflected(padded(samples, hop), n_fft / 2)
}

/// The analysis window of frame `k` of a signal.
pub open spec fn window(signal: Seq<u32>, n_fft: int, hop: int, k: int) -> Seq<u32> {
    signal.subrange(k * hop, k * hop + n_fft)
}

/// The number of frames whose windows lie within `n` samples.
pub open spec fn stable_frames(n: int, n_fft: int, hop: int) -> int {
    let within = (n - (n_fft - n_fft / 2)) / hop;
    if within < frame_count(n, hop) {
        within
    } else {
        frame_count(n, hop)
    }
}

/// The number of frames that are kept of a signal of `len` samples: those whose windows lie within
/// it, but for the last.
pub open spec fn kept_frames(len: int, n_fft: int, hop: int) -> int {
    (len - n_fft) / hop
}

/// The frames of a signal, where `frame` is the transformation of a window.
pub open spec fn frames_of(
    frame: spec_fn(Seq<u32>) -> Seq<i64>,
    signal: Seq<u32>,
    n_fft: int,
    hop: int,
) -> Seq<Seq<i64>> {
    Seq::new(
        kept_frames(signal.len() as int, n_fft, hop) as nat,
        |k: int| frame(window(signal, n_fft, hop, k)),
    )
}

/// The frames of a signal whose first ones were cached: the cached ones, where there are any to
/// reuse, and then the new ones.
pub open spec fn spliced(
    cached: Seq<Seq<i64>>,
    first_frame: int,
    new: Seq<Seq<i64>>,
) -> Seq<Seq<i64>> {
    if first_frame > 0 {
        cached + new
    } else {
        new
    }
}

/// What is cached once the frames of `n` samples are known: those that no later audio changes.
/// Without any, the cache stays as it is.
pub open spec fn cached_next(
    cached: Seq<Seq<i64>>,
    frames: Seq<Seq<i64>>,
    n: int,
    n_fft: int,
    hop: int,
) -> Seq<Seq<i64>> {
    if stable_frames(n, n_fft, hop) > 0 {
        frames.take(stable_frames(n, n_fft, hop))
    } else {
        cached
    }
}

/// What has to be transformed next.
#[derive(Debug)]
pub enum FramePlan {
    /// The whole signal; nothing was cached.
    Whole { signal: Vec<u32> },
    /// The part of the signal that yields the frames from `first_frame` on.
    Suffix { signal: Vec<u32>, first_frame: usize, num_frames: usize },
}

/// Whisper-style mel spectrogram feature extractor.
#[derive(Debug)]
pub struct WhisperFeatureExtractor {
    pub n_fft: usize,
    pub hop_length: usize,
    pub num_mel_bins: usize,
    pub sample_rate: u32,
    /// Filter bank (mel bins, `n_fft / 2 + 1`).
    pub mel_filters: Tensor,
}

impl WhisperFeatureExtractor {
    /// Whether a signal of `n` samples can be laid out: it is long enough to be mirrored, and
    /// the result can be addressed.
    pub open spec fn can_frame(&self, n: int) -> bool {
        &&& self.hop_length > 0
        &&& self.n_fft / 2 < padded_len(n, self.hop_length as int)
        &&& padded_len(n, self.hop_length as int) + 2 * (self.n_fft / 2) <= usize::MAX
        &&& n + self.hop_length <= usize::MAX
    }

    pub fn new(
        n_fft: usize,
        hop_length: usize,
        num_mel_bins: usize,
        sample_rate: u32,
        mel_filters: Tensor,
    ) -> (res: WhisperFeatureExtractor)
        ensures
            res.n_fft == n_fft,
            res.hop_length == hop_length,
            res.num_mel_bins == num_mel_bins,
            res.sample_rate == sample_rate,
            res.mel_filters == mel_filters,
    {
        WhisperFeatureExtractor { n_fft, hop_length, num_mel_bins, sample_rate, mel_filters }
    }

    pub fn sample_rate(&self) -> (res: u32)
        ensures
            res == self.sample_rate,
    {
        self.sample_rate
    }

    pub fn num_mel_bins(&self) -> (res: usize)
        ensures
            res == self.num_mel_bins,
    {
        self.num_mel_bins
    }

    /// The samples filled up to whole frames and mirrored at both ends.
    pub fn extract(&self, samples: &[u32]) -> (res: Vec<u32>)
        requires
            self.can_frame(samples@.len() as int),
        ensures
            res@ == framed_signal(samples@, self.n_fft as int, self.hop_length as int),
    {
        let n: usize = samples.len();
        let hop: usize = self.hop_length;
        let pad: usize = self.n_fft / 2;
        proof {
            lemma_padded_len(n as int, hop as int);
        }
        let total: usize = (n + hop - 1) / hop * hop;
        let ghost x = padded(samples@, hop as int);
        assert(x.len() == total);
        let mut res: Vec<u32> = Vec::new();
        let mut i: usize = 0;
        while i < pad
            invariant
                i <= pad < total,
                n == samples.len() <= total,
                x == padded(samples@, hop as int),
                x.len() == total,
                res@ == reflected(x, pad as int).take(i as int),
                reflected(x, pad as int).len() == pad + total + pad,
            decreases pad - i,
        {
            let at: usize = pad - i;
            let v: u32 = if at < n {
                samples[at]
            } else {
                0
            };
            res.push(v);
            assert(reflected(x, pad as int).take(i + 1) =~= reflected(x, pad as int).take(
                i as int,
            ).push(v));
            i = i + 1;
        }
        let mut j: usize = 0;
        while j < total
            invariant
                j <= total,
                pad < total,
                n == samples.len() <= total,
                x == padded(samples@, hop as int),
                x.len() == total,
                res@ == reflected(x, pad as int).take(pad + j),
                reflected(x, pad as int).len() == pad + total + pad,
            decreases total - j,
        {
            let v: u32 = if j < n {
                samples[j]
            } else {
                0
            };
            res.push(v);
            assert(reflected(x, pad as int).take(pad + j + 1) =~= reflected(x, pad as int).take(
                pad + j,
            ).push(v));
            j = j + 1;
        }
        let mut k: usize = 0;
        while k < pad
            invariant
                k <= pad < total,
                n == samples.len() <= total,
                x == padded(samples@, hop as int),
                x.len() == total,
                res@ == reflected(x, pad as int).take(pad + total + k),
                reflected(x, pad as int).len() == pad + total + pad,
            decreases pad - k,
        {
            let at: usize = total - 1 - k - 1;
            let v: u32 = if at < n {
                samples[at]
            } else {
                0
            };
            res.push(v);
            assert(reflected(x, pad as int).take(pad + total + k + 1) =~= reflected(
                x,
                pad as int,
            ).take(pad + total + k).push(v));
            k = k + 1;
        }
        assert(res@ =~= reflected(x, pad as int));
        res
    }

    /// The number of frames that are kept of a signal of `len` samples.
    pub fn kept_frames(&self, len: usize) -> (res: usize)
        requires
            self.hop_length > 0,
            self.n_fft <= len,
        ensures
            res == kept_frames(len as int, self.n_fft as int, self.hop_length as int),
    {
        (len - self.n_fft) / self.hop_length
    }

    /// What has to be transformed to extend the cached frames to those of `samples`.
    ///
    /// A signal too short to be mirrored empties the cache and is transformed as a whole.
    pub fn extract_streaming(&self, samples: &[u32], cache: &mut MelCache) -> (res: FramePlan)
        requires
            self.can_frame(samples@.len() as int),
            old(cache).wf(),
        ensures
            final(cache).wf(),
            ({
                let n = samples@.len() as int;
                let hop = self.hop_length as int;
                let all = framed_signal(samples@, self.n_fft as int, hop);
                if n <= self.n_fft / 2 {
                    &&& final(cache).mel_spec is None
                    &&& final(cache).frames == 0
                    &&& res matches FramePlan::Whole { signal } && signal@ == all
                } else {
                    &&& *final(cache) == *old(cache)
                    &&& res matches FramePlan::Suffix { signal, first_frame, num_frames }
                        && num_frames == frame_count(n, hop) && first_frame == (if old(cache).frames
                        < num_frames {
                        old(cache).frames
                    } else {
                        num_frames
                    }) && signal@ == all.skip(first_frame * hop)
                }
            }),
    {
        let n: usize = samples.len();
        let hop: usize = self.hop_length;
        if n <= self.n_fft / 2 {
            cache.mel_spec = None;
            cache.frames = 0;
            return FramePlan::Whole { signal: self.extract(samples) };
        }
        proof {
            lemma_padded_len(n as int, hop as int);
        }
        let total: usize = (n + hop - 1) / hop * hop;
        let num_frames: usize = total / hop;
        let first_frame: usize = if cache.frames < num_frames {
            cache.frames
        } else {
            num_frames
        };
        let all: Vec<u32> = self.extract(samples);
        proof {
            assert(0 <= first_frame * hop <= total) by (nonlinear_arith)
                requires
                    0 <= first_frame <= num_frames,
                    num_frames * hop == total,
                    hop > 0,
            ;
        }
        let start: usize = first_frame * hop;
        let mut signal: Vec<u32> = Vec::new();
        let mut i: usize = start;
        while i < all.len()
            invariant
                start <= i <= all.len(),
                signal@ == all@.subrange(start as int, i as int),
            decreases all.len() - i,
        {
            signal.push(all[i]);
            assert(all@.subrange(start as int, i + 1) =~= all@.subrange(
                start as int,
                i as int,
            ).push(all@[i as int]));
            i = i + 1;
        }
        assert(all@.subrange(start as int, all.len() as int) =~= all@.skip(start as int));
        FramePlan::Suffix { signal, first_frame, num_frames }
    }

    /// Joins the cached frames with the new ones and caches those that no later audio changes.
    ///
    /// `mel_new` holds the raw mel frames of the planned suffix for a signal of `num_samples`.
    pub fn splice(
        &self,
        mel_new: Tensor,
        first_frame: usize,
        num_frames: usize,
        num_samples: usize,
        cache: &mut MelCache,
    ) -> (res: Tensor)
        requires
            self.hop_length > 0,
            num_samples > self.n_fft / 2,
            num_samples + self.hop_length <= usize::MAX,
            num_frames == frame_count(num_samples as int, self.hop_length as int),
            old(cache).wf(),
            mel_new.wf(),
            mel_new.rank() == 2,
            first_frame > 0 ==> old(cache).mel_spec is Some && old(cache).mel_spec->0.fits(
                &mel_new,
                1,
            ) && old(cache).mel_spec->0.data.len() + mel_new.data.len() <= usize::MAX && old(
                cache,
            ).frames + mel_new.shape[1] <= usize::MAX,
            stable_frames(num_samples as int, self.n_fft as int, self.hop_length as int) <= (
            if first_frame > 0 {
                old(cache).frames as int
            } else {
                0
            }) + mel_new.shape[1],
        ensures
            final(cache).wf(),
            res.wf(),
            res.shape@ == mel_new.shape@.update(
                1,
                ((if first_frame > 0 {
                    old(cache).frames as int
                } else {
                    0
                }) + mel_new.shape[1]) as usize,
            ),
            res.kind == mel_new.kind,
            res.device == (if first_frame > 0 {
                old(cache).mel_spec->0.device
            } else {
                mel_new.device
            }),
            res.along(1) == spliced(old(cache).columns(), first_frame as int, mel_new.along(1)),
            final(cache).columns() == cached_next(
                old(cache).columns(),
                res.along(1),
                num_samples as int,
                self.n_fft as int,
                self.hop_length as int,
            ),
            ({
                let stable = stable_frames(
                    num_samples as int,
                    self.n_fft as int,
                    self.hop_length as int,
                );
                if stable > 0 {
                    &&& final(cache).frames == stable
                    &&& final(cache).mel_spec matches Some(t) && t.shape@ == res.shape@.update(
                        1,
                        stable as usize,
                    ) && t.kind == res.kind && t.device == res.device
                } else {
                    *final(cache) == *old(cache)
                }
            }),
    {
        let hop: usize = self.hop_length;
        let pad: usize = self.n_fft / 2;
        let res: Tensor = if first_frame > 0 {
            match &cache.mel_spec {
                Some(cached) => {
                    proof {
                        crate::tensor::lemma_fits(cached, &mel_new, 1);
                        assert(cached.shape@.update(1, mel_new.shape[1]) == mel_new.shape@);
                    }
                    cached.join(&mel_new, 1)
                },
                None => mel_new,
            }
        } else {
            mel_new
        };
        assert(res.shape@ =~= mel_new.shape@.update(1, res.shape[1]));
        let within: usize = (num_samples - (self.n_fft - pad)) / hop;
        let stable: usize = if within < num_frames {
            within
        } else {
            num_frames
        };
        if stable > 0 {
            let cached: Tensor = res.narrow(1, 0, stable);
            assert(res.along(1).subrange(0, stable as int) =~= res.along(1).take(stable as int));
            cache.mel_spec = Some(cached);
            cache.frames = stable;
        }
        res
    }
}

proof fn lemma_padded_len(n: int, hop: int)
    requires
        n >= 0,
        hop > 0,
    ensures
        n <= padded_len(n, hop) < n + hop,
        frame_count(n, hop) * hop == padded_len(n, hop),
        frame_count(n, hop) == (n + hop - 1) / hop,
{
    let q = (n + hop - 1) / hop;
    vstd::arithmetic::div_mod::lemma_fundamental_div_mod(n + hop - 1, hop);
    assert(q * hop == hop * q) by (nonlinear_arith);
    vstd::arithmetic::div_mod::lemma_div_multiples_vanish(q, hop);
}

/// The samples are filled up with silence to whole hops, by less than one hop.
pub proof fn law_filled_up_with_silence(samples: Seq<u32>, hop: int, i: int)
    requires
        hop > 0,
        0 <= i < padded(samples, hop).len(),
    ensures
        padded(samples, hop).len() as int % hop == 0,
        samples.len() <= padded(samples, hop).len() < samples.len() + hop,
        padded(samples, hop).len() == frame_count(samples.len() as int, hop) * hop,
        i < samples.len() ==> padded(samples, hop)[i] == samples[i],
        i >= samples.len() ==> padded(samples, hop)[i] == 0,
{
    let n = samples.len() as int;
    lemma_padded_len(n, hop);
    vstd::arithmetic::div_mod::lemma_mod_multiples_basic((n + hop - 1) / hop, hop);
}

/// Audio of some whole hops has one frame for each, and one more where something is left.
pub proof fn law_one_frame_for_each_hop(hops: int, rest: int, hop: int)
    requires
        hops >= 0,
        0 <= rest < hop,
    ensures
        frame_count(hops * hop + rest, hop) == if rest == 0 {
            hops
        } else {
            hops + 1
        },
{
    let n = hops * hop + rest;
    assert(n >= 0) by (nonlinear_arith)
        requires
            n == hops * hop + rest,
            hops >= 0,
            hop > 0,
            rest >= 0,
    ;
    lemma_padded_len(n, hop);
    if rest == 0 {
        vstd::arithmetic::div_mod::lemma_fundamental_div_mod_converse(
            n + hop - 1,
            hop,
            hops,
            hop - 1,
        );
    } else {
        assert((hops + 1) * hop == hops * hop + hop) by (nonlinear_arith);
        vstd::arithmetic::div_mod::lemma_fundamental_div_mod_converse(
            n + hop - 1,
            hop,
            hops + 1,
            rest - 1,
        );
    }
}

/// A mirrored signal is the signal in its middle, and reads the same to either side of its first
/// and of its last sample.
pub proof fn law_mirrored_at_both_ends(x: Seq<u32>, pad: int, i: int)
    requires
        0 <= pad < x.len(),
        0 <= i,
    ensures
        ({
            let r = reflected(x, pad);
            let n = x.len() as int;
            &&& r.len() == pad + n + pad
            &&& i < n ==> r[pad + i] == x[i]
            &&& i <= pad ==> r[pad - i] == x[i]
            &&& i <= pad ==> r[pad + n - 1 + i] == x[n - 1 - i]
        }),
{
}

/// The window of frame `k` is centred at sample `k * hop`: its element `j` is the sample
/// `k * hop + j - n_fft / 2`, where there is one.
pub proof fn law_windows_are_centred(samples: Seq<u32>, n_fft: int, hop: int, k: int, j: int)
    requires
        hop > 0,
        0 <= n_fft / 2 < padded_len(samples.len() as int, hop),
        0 <= k * hop,
        k * hop + n_fft <= framed_signal(samples, n_fft, hop).len(),
        0 <= j < n_fft,
        0 <= k * hop + j - n_fft / 2 < samples.len(),
    ensures
        window(framed_signal(samples, n_fft, hop), n_fft, hop, k)[j] == samples[k * hop + j - n_fft
            / 2],
{
    lemma_padded_len(samples.len() as int, hop);
}

/// Of a signal those frames are kept whose window, and the window of the frame after them, lies
/// within it: all but the last.
pub proof fn law_last_frame_is_dropped(len: int, n_fft: int, hop: int, k: int)
    requires
        hop > 0,
        0 <= n_fft <= len,
        k >= 0,
    ensures
        k < kept_frames(len, n_fft, hop) <==> (k + 1) * hop + n_fft <= len,
{
    lemma_below_quotient(len - n_fft, hop, k);
}

/// With an even window length there is one frame for each hop of the filled-up audio.
pub proof fn law_as_many_frames_as_hops(samples: Seq<u32>, n_fft: int, hop: int)
    requires
        hop > 0,
        n_fft >= 0,
        n_fft % 2 == 0,
    ensures
        kept_frames(framed_signal(samples, n_fft, hop).len() as int, n_fft, hop) == frame_count(
            samples.len() as int,
            hop,
        ),
{
    lemma_padded_len(samples.len() as int, hop);
}

/// A frame is kept in the cache where its window, and the hop behind it, lies within the samples,
/// and only there.
pub proof fn law_cached_frames_lie_within_the_samples(n: int, n_fft: int, hop: int, k: int)
    requires
        hop > 0,
        0 <= n_fft / 2 < n,
        k >= 0,
    ensures
        k < stable_frames(n, n_fft, hop) <==> (k + 1) * hop + (n_fft - n_fft / 2) <= n,
{
    let x = n - (n_fft - n_fft / 2);
    lemma_below_quotient(x, hop, k);
    lemma_padded_len(n, hop);
    let count = frame_count(n, hop);
    if (k + 1) * hop <= x {
        assert(k < count) by (nonlinear_arith)
            requires
                (k + 1) * hop <= x,
                x <= n,
                n <= count * hop,
                hop > 0,
        ;
    }
}

proof fn lemma_below_quotient(x: int, hop: int, k: int)
    requires
        hop > 0,
    ensures
        k < x / hop <==> (k + 1) * hop <= x,
{
    let q = x / hop;
    vstd::arithmetic::div_mod::lemma_fundamental_div_mod(x, hop);
    assert(k < q <==> (k + 1) * hop <= x) by (nonlinear_arith)
        requires
            x == hop * q + x % hop,
            0 <= x % hop < hop,
            hop > 0,
    ;
}

/// A frame that is kept in the cache does not change when more audio is appended.
pub proof fn law_stable_frames_unchanged(
    seen: Seq<u32>,
    more: Seq<u32>,
    n_fft: int,
    hop: int,
    k: int,
)
    requires
        hop > 0,
        0 <= n_fft / 2 < seen.len(),
        0 <= k < stable_frames(seen.len() as int, n_fft, hop),
    ensures
        window(framed_signal(seen + more, n_fft, hop), n_fft, hop, k) == window(
            framed_signal(seen, n_fft, hop),
            n_fft,
            hop,
            k,
        ),
{
    let all = seen + more;
    let pad = n_fft / 2;
    let n = seen.len() as int;
    let within = (n - (n_fft - pad)) / hop;
    lemma_padded_len(n, hop);
    lemma_padded_len(all.len() as int, hop);
    vstd::arithmetic::div_mod::lemma_fundamental_div_mod(n - (n_fft - pad), hop);
    assert(0 <= k * hop && k * hop + hop <= n - (n_fft - pad)) by (nonlinear_arith)
        requires
            0 <= k < within,
            hop > 0,
            n - (n_fft - pad) == hop * within + (n - (n_fft - pad)) % hop,
            (n - (n_fft - pad)) % hop >= 0,
    ;
    let a = window(framed_signal(all, n_fft, hop), n_fft, hop, k);
    let b = window(framed_signal(seen, n_fft, hop), n_fft, hop, k);
    assert(a.len() == b.len());
    assert(a =~= b);
}

/// Bounds on the number of frames that no later audio changes.
proof fn lemma_stable_frames(n: int, m: int, n_fft: int, hop: int)
    requires
        hop > 0,
        0 <= n_fft / 2 < n <= m,
    ensures
        0 <= stable_frames(n, n_fft, hop) <= stable_frames(m, n_fft, hop),
        stable_frames(n, n_fft, hop) <= frame_count(m, hop),
        stable_frames(n, n_fft, hop) <= kept_frames(
            padded_len(n, hop) + 2 * (n_fft / 2),
            n_fft,
            hop,
        ),
{
    let pad = n_fft / 2;
    lemma_padded_len(n, hop);
    lemma_padded_len(m, hop);
    vstd::arithmetic::div_mod::lemma_div_is_ordered(n + hop - 1, m + hop - 1, hop);
    vstd::arithmetic::div_mod::lemma_div_pos_is_pos(n - (n_fft - pad), hop);
    vstd::arithmetic::div_mod::lemma_div_is_ordered(n - (n_fft - pad), m - (n_fft - pad), hop);
    vstd::arithmetic::div_mod::lemma_div_is_ordered(
        n - (n_fft - pad),
        padded_len(n, hop) + 2 * pad - n_fft,
        hop,
    );
}

/// The stable frames of some audio, with the frames of the rest of a longer signal, are all frames
/// of that signal.
proof fn lemma_extension(
    frame: spec_fn(Seq<u32>) -> Seq<i64>,
    seen: Seq<u32>,
    more: Seq<u32>,
    n_fft: int,
    hop: int,
)
    requires
        hop > 0,
        0 <= n_fft / 2 < seen.len(),
    ensures
        ({
            let stable = stable_frames(seen.len() as int, n_fft, hop);
            let cached = frames_of(frame, framed_signal(seen, n_fft, hop), n_fft, hop).take(stable);
            let all = framed_signal(seen + more, n_fft, hop);
            &&& 0 <= stable <= frame_count((seen + more).len() as int, hop)
            &&& cached + frames_of(frame, all.skip(stable * hop), n_fft, hop) == frames_of(
                frame,
                all,
                n_fft,
                hop,
            )
        }),
{
    let n = seen.len() as int;
    let m = (seen + more).len() as int;
    let pad = n_fft / 2;
    let stable = stable_frames(n, n_fft, hop);
    let old_signal = framed_signal(seen, n_fft, hop);
    let all = framed_signal(seen + more, n_fft, hop);
    lemma_padded_len(n, hop);
    lemma_padded_len(m, hop);
    let within = (n - (n_fft - pad)) / hop;
    vstd::arithmetic::div_mod::lemma_div_is_ordered(n + hop - 1, m + hop - 1, hop);
    vstd::arithmetic::div_mod::lemma_div_pos_is_pos(n - (n_fft - pad), hop);
    vstd::arithmetic::div_mod::lemma_div_is_ordered(
        n - (n_fft - pad),
        old_signal.len() - n_fft,
        hop,
    );
    vstd::arithmetic::div_mod::lemma_div_is_ordered(n - (n_fft - pad), all.len() - n_fft, hop);
    vstd::arithmetic::div_mod::lemma_fundamental_div_mod(n - (n_fft - pad), hop);
    assert(0 <= stable * hop <= n - (n_fft - pad)) by (nonlinear_arith)
        requires
            0 <= stable <= within,
            hop > 0,
            n - (n_fft - pad) == hop * within + (n - (n_fft - pad)) % hop,
            (n - (n_fft - pad)) % hop >= 0,
    ;
    let rest = all.skip(stable * hop);
    vstd::arithmetic::div_mod::lemma_hoist_over_denominator(rest.len() - n_fft, stable, hop as nat);
    let cached = frames_of(frame, old_signal, n_fft, hop).take(stable);
    let fresh = frames_of(frame, rest, n_fft, hop);
    let whole = frames_of(frame, all, n_fft, hop);
    assert(cached.len() + fresh.len() == whole.len());
    assert forall|k: int| 0 <= k < whole.len() implies (cached + fresh)[k] == whole[k] by {
        if k < stable {
            law_stable_frames_unchanged(seen, more, n_fft, hop, k);
        } else {
            let i = k - stable;
            assert(i * hop + stable * hop == k * hop) by (nonlinear_arith)
                requires
                    i == k - stable,
            ;
            vstd::arithmetic::div_mod::lemma_fundamental_div_mod(all.len() - n_fft, hop);
            assert(0 <= i * hop && k * hop + n_fft <= all.len()) by (nonlinear_arith)
                requires
                    0 <= k < (all.len() - n_fft) / hop,
                    i >= 0,
                    hop > 0,
                    all.len() - n_fft == hop * ((all.len() - n_fft) / hop) + (all.len() - n_fft)
                        % hop,
                    (all.len() - n_fft) % hop >= 0,
            ;
            assert(window(rest, n_fft, hop, i) =~= window(all, n_fft, hop, k));
        }
    }
    assert(cached + fresh =~= whole);
}

/// What a cache holds after a call on this audio: the frames that no later audio changes, or
/// nothing where the audio is too short to be mirrored.
pub open spec fn stable_part(
    frame: spec_fn(Seq<u32>) -> Seq<i64>,
    samples: Seq<u32>,
    n_fft: int,
    hop: int,
) -> Seq<Seq<i64>> {
    if samples.len() <= n_fft / 2 {
        Seq::empty()
    } else {
        frames_of(frame, framed_signal(samples, n_fft, hop), n_fft, hop).take(
            stable_frames(samples.len() as int, n_fft, hop),
        )
    }
}

/// The frames that a call on this audio gives, where `frame` is the transformation of a window:
/// [`WhisperFeatureExtractor::extract_streaming`] lays out the signal, and
/// [`WhisperFeatureExtractor::splice`] takes its frames.
pub open spec fn streamed(
    frame: spec_fn(Seq<u32>) -> Seq<i64>,
    cached: Seq<Seq<i64>>,
    samples: Seq<u32>,
    n_fft: int,
    hop: int,
) -> Seq<Seq<i64>> {
    let signal = framed_signal(samples, n_fft, hop);
    let count = frame_count(samples.len() as int, hop);
    let first_frame = if cached.len() < count {
        cached.len() as int
    } else {
        count
    };
    if samples.len() <= n_fft / 2 {
        frames_of(frame, signal, n_fft, hop)
    } else {
        spliced(
            cached,
            first_frame,
            frames_of(frame, signal.skip(first_frame * hop), n_fft, hop),
        )
    }
}

/// What a call on this audio leaves in the cache.
pub open spec fn cached_after(
    frame: spec_fn(Seq<u32>) -> Seq<i64>,
    cached: Seq<Seq<i64>>,
    samples: Seq<u32>,
    n_fft: int,
    hop: int,
) -> Seq<Seq<i64>> {
    if samples.len() <= n_fft / 2 {
        Seq::empty()
    } else {
        cached_next(
            cached,
            streamed(frame, cached, samples, n_fft, hop),
            samples.len() as int,
            n_fft,
            hop,
        )
    }
}

/// What the cache holds after calls on the first `cuts[0]`, `cuts[1]` and so on of the samples,
/// where it was empty before.
pub open spec fn cached_by_calls(
    frame: spec_fn(Seq<u32>) -> Seq<i64>,
    samples: Seq<u32>,
    cuts: Seq<int>,
    n_fft: int,
    hop: int,
) -> Seq<Seq<i64>>
    decreases cuts.len(),
{
    if cuts.len() == 0 {
        Seq::empty()
    } else {
        cached_after(
            frame,
            cached_by_calls(frame, samples, cuts.drop_last(), n_fft, hop),
            samples.take(cuts.last()),
            n_fft,
            hop,
        )
    }
}

/// Extending a cache gives the same frames as transforming the whole signal, and leaves a cache
/// that can be extended in the same way.
///
/// Here the cache holds what a call on the audio `seen` so far leaves in it, and `frame` is the
/// transformation of a window.
pub proof fn law_streaming_equals_whole(
    frame: spec_fn(Seq<u32>) -> Seq<i64>,
    seen: Seq<u32>,
    more: Seq<u32>,
    n_fft: int,
    hop: int,
)
    requires
        hop > 0,
        n_fft >= 0,
    ensures
        ({
            let cached = stable_part(frame, seen, n_fft, hop);
            let all = seen + more;
            &&& streamed(frame, cached, all, n_fft, hop) == frames_of(
                frame,
                framed_signal(all, n_fft, hop),
                n_fft,
                hop,
            )
            &&& cached_after(frame, cached, all, n_fft, hop) == stable_part(frame, all, n_fft, hop)
        }),
{
    let all = seen + more;
    let n = all.len() as int;
    let cached = stable_part(frame, seen, n_fft, hop);
    let signal = framed_signal(all, n_fft, hop);
    let whole = frames_of(frame, signal, n_fft, hop);
    if n > n_fft / 2 {
        lemma_padded_len(n, hop);
        lemma_stable_frames(n, n, n_fft, hop);
        if seen.len() > n_fft / 2 {
            let stable = stable_frames(seen.len() as int, n_fft, hop);
            lemma_padded_len(seen.len() as int, hop);
            lemma_stable_frames(seen.len() as int, n, n_fft, hop);
            lemma_extension(frame, seen, more, n_fft, hop);
            assert(cached.len() == stable);
            if stable == 0 {
                assert(signal.skip(0) =~= signal);
                assert(0 * hop == 0);
            }
        } else {
            assert(frame_count(n, hop) >= 0) by {
                vstd::arithmetic::div_mod::lemma_div_pos_is_pos(n + hop - 1, hop);
            }
            assert(signal.skip(0) =~= signal);
            assert(0 * hop == 0);
        }
        assert(streamed(frame, cached, all, n_fft, hop) =~= whole);
        if stable_frames(n, n_fft, hop) == 0 {
            assert(cached =~= Seq::<Seq<i64>>::empty());
            assert(whole.take(0) =~= Seq::<Seq<i64>>::empty());
        }
    }
}

/// However growing audio is cut into calls, each gives the frames of the whole audio so far, and
/// audio too short to be mirrored leaves the cache empty.
pub proof fn law_any_history_equals_whole(
    frame: spec_fn(Seq<u32>) -> Seq<i64>,
    samples: Seq<u32>,
    cuts: Seq<int>,
    n_fft: int,
    hop: int,
)
    requires
        hop > 0,
        n_fft >= 0,
        cuts.len() > 0,
        forall|i: int| 0 <= i < cuts.len() ==> 0 <= #[trigger] cuts[i] <= samples.len(),
        forall|i: int, j: int| 0 <= i <= j < cuts.len() ==> cuts[i] <= cuts[j],
    ensures
        ({
            let now = samples.take(cuts.last());
            let cached = cached_by_calls(frame, samples, cuts.drop_last(), n_fft, hop);
            &&& streamed(frame, cached, now, n_fft, hop) == frames_of(
                frame,
                framed_signal(now, n_fft, hop),
                n_fft,
                hop,
            )
            &&& cached_by_calls(frame, samples, cuts, n_fft, hop) == stable_part(
                frame,
                now,
                n_fft,
                hop,
            )
            &&& now.len() <= n_fft / 2 ==> cached_by_calls(frame, samples, cuts, n_fft, hop).len()
                == 0
        }),
    decreases cuts.len(),
{
    let before = cuts.drop_last();
    let last = cuts.last();
    let now = samples.take(last);
    if before.len() == 0 {
        let seen = Seq::<u32>::empty();
        assert(seen + now =~= now);
        law_streaming_equals_whole(frame, seen, now, n_fft, hop);
    } else {
        law_any_history_equals_whole(frame, samples, before, n_fft, hop);
        let cut = before.last();
        assert(cuts[cuts.len() - 2] <= cuts[cuts.len() - 1]);
        let seen = samples.take(cut);
        let more = samples.subrange(cut, last);
        assert(seen + more =~= now);
        law_streaming_equals_whole(frame, seen, more, n_fft, hop);
    }
}

} // verus!
