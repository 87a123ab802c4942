//! The canonical PCM form: one channel of signed 16-bit samples at 44,100 Hz.
//!
//! Decoded audio arrives in chunks of interleaved samples, each with its own
//! channel count and sampling rate. A chunk is first mixed down to one channel
//! and then brought to the canonical rate.
//!
//! Mixing down takes the mean of the channels of each frame. Resampling takes,
//! for each instant of the canonical rate, the source frame that sounds at
//! that instant; it does not interpolate. The instants run on from chunk to
//! chunk, so that a stream gives the same samples however it is cut.

use vstd::prelude::*;

verus! {

/// The sampling rate of the canonical form, in hertz.
pub const CANONICAL_RATE: u32 = 44_100;

/// The sum of the `width` samples that start at `start`.
pub open spec fn frame_total(samples: Seq<i16>, start: int, width: nat) -> int
    decreases width,
{
    if width == 0 {
        0
    } else {
        frame_total(samples, start, (width - 1) as nat) + samples[start + width - 1]
    }
}

/// `total / width`, rounded toward zero.
pub open spec fn toward_zero(total: int, width: int) -> int {
    if total >= 0 {
        total / width
    } else {
        -((-total) / width)
    }
}

/// The number of whole frames in `len` interleaved samples.
pub open spec fn frame_count(len: nat, channels: nat) -> nat {
    if channels == 0 {
        0
    } else {
        len / channels
    }
}

/// The sample that frame `k` is mixed down to: the mean of its channels,
/// rounded toward zero.
pub open spec fn frame_mean(samples: Seq<i16>, channels: nat, k: int) -> i16 {
    toward_zero(frame_total(samples, k * channels, channels), channels as int) as i16
}

/// Interleaved samples mixed down to one channel. Samples after the last
/// whole frame are left out.
pub open spec fn downmixed(samples: Seq<i16>, channels: nat) -> Seq<i16> {
    Seq::new(frame_count(samples.len(), channels), |k: int| frame_mean(samples, channels, k))
}

/// The sum of a frame lies within `width` times the range of a sample.
pub proof fn lemma_frame_total_bounds(samples: Seq<i16>, start: int, width: nat)
    requires
        0 <= start,
        start + width <= samples.len(),
    ensures
        -32768 * width <= frame_total(samples, start, width) <= 32767 * width,
    decreases width,
{
    if width > 0 {
        lemma_frame_total_bounds(samples, start, (width - 1) as nat);
    }
}

/// The mean of a frame is itself a sample.
pub proof fn lemma_toward_zero_bounds(total: int, width: int)
    requires
        0 < width,
        -32768 * width <= total <= 32767 * width,
    ensures
        -32768 <= toward_zero(total, width) <= 32767,
{
    if total >= 0 {
        assert(total / width <= 32767) by (nonlinear_arith)
            requires
                0 < width,
                0 <= total <= 32767 * width,
        ;
        assert(0 <= total / width) by (nonlinear_arith)
            requires
                0 < width,
                0 <= total,
        ;
    } else {
        assert((-total) / width <= 32768) by (nonlinear_arith)
            requires
                0 < width,
                0 <= -total <= 32768 * width,
        ;
        assert(0 <= (-total) / width) by (nonlinear_arith)
            requires
                0 < width,
                0 <= -total,
        ;
    }
}

/// The mean of a frame fits a sample: mixing down never clips.
pub proof fn lemma_frame_mean_exact(samples: Seq<i16>, channels: nat, k: int)
    requires
        0 <= k < frame_count(samples.len(), channels),
    ensures
        frame_mean(samples, channels, k) as int == toward_zero(
            frame_total(samples, k * channels, channels),
            channels as int,
        ),
{
    lemma_frame_fits(samples.len() as int, channels as int, k);
    lemma_frame_total_bounds(samples, k * channels, channels);
    lemma_toward_zero_bounds(frame_total(samples, k * channels, channels), channels as int);
}

/// Mixes the frame that starts at `start` down to one sample.
fn mix_frame(samples: &[i16], start: usize, channels: usize) -> (mean: i16)
    requires
        0 < channels,
        start + channels <= samples@.len(),
    ensures
        mean == toward_zero(
            frame_total(samples@, start as int, channels as nat),
            channels as int,
        ) as i16,
        -32768 <= toward_zero(
            frame_total(samples@, start as int, channels as nat),
            channels as int,
        ) <= 32767,
{
    let len: usize = samples.len();
    let mut total: i128 = 0;
    let mut c: usize = 0;
    while c < channels
        invariant
            c <= channels,
            start + channels <= len,
            len == samples@.len(),
            total == frame_total(samples@, start as int, c as nat),
            -32768 * c <= total <= 32767 * c,
        decreases channels - c,
    {
        total = total + samples[start + c] as i128;
        c = c + 1;
    }
    proof {
        lemma_toward_zero_bounds(total as int, channels as int);
    }
    let width: i128 = channels as i128;
    if total >= 0 {
        (total / width) as i16
    } else {
        (-((-total) / width)) as i16
    }
}

/// Mixes interleaved samples down to one channel.
pub fn downmix(samples: &[i16], channels: usize) -> (mono: Vec<i16>)
    ensures
        mono@ == downmixed(samples@, channels as nat),
{
    let mut mono: Vec<i16> = Vec::new();
    if channels == 0 {
        assert(mono@ =~= downmixed(samples@, channels as nat));
        return mono;
    }
    let len: usize = samples.len();
    let frames: usize = len / channels;
    let mut k: usize = 0;
    while k < frames
        invariant
            0 < channels,
            len == samples@.len(),
            frames == (len as int) / (channels as int),
            k <= frames,
            mono@.len() == k,
            forall|i: int| 0 <= i < k ==> mono@[i] == frame_mean(samples@, channels as nat, i),
        decreases frames - k,
    {
        proof {
            lemma_frame_fits(samples@.len() as int, channels as int, k as int);
        }
        let mean = mix_frame(samples, k * channels, channels);
        mono.push(mean);
        k = k + 1;
    }
    assert(mono@ =~= downmixed(samples@, channels as nat));
    mono
}

/// Frame `k` of `len / channels` whole frames lies inside the samples.
proof fn lemma_frame_fits(len: int, channels: int, k: int)
    requires
        0 <= len,
        0 < channels,
        0 <= k < len / channels,
    ensures
        0 <= k * channels,
        k * channels + channels <= len,
{
    vstd::arithmetic::div_mod::lemma_fundamental_div_mod(len, channels);
    vstd::arithmetic::div_mod::lemma_mod_bound(len, channels);
    assert(k * channels + channels <= (len / channels) * channels) by (nonlinear_arith)
        requires
            0 < channels,
            0 <= k < len / channels,
    ;
    assert(0 <= k * channels) by (nonlinear_arith)
        requires
            0 < channels,
            0 <= k,
    ;
    assert((len / channels) * channels == channels * (len / channels)) by (nonlinear_arith);
}

/// The number of canonical samples that `frames` source frames at `rate`
/// hertz give.
///
/// Time is counted in ticks, `CANONICAL_RATE` to a source frame, so that
/// canonical samples lie `rate` ticks apart. `phase` is the tick of the first canonical
/// sample, counted from the start of the first source frame.
pub open spec fn resampled_count(frames: nat, rate: nat, phase: nat) -> nat {
    if rate == 0 || frames * CANONICAL_RATE <= phase {
        0
    } else {
        ((frames * CANONICAL_RATE - phase + rate - 1) / (rate as int)) as nat
    }
}

/// One channel at `rate` hertz brought to the canonical rate: canonical sample
/// `j` is the source sample under whose frame the tick `phase + j * rate`
/// falls.
pub open spec fn resampled(mono: Seq<i16>, rate: nat, phase: nat) -> Seq<i16> {
    Seq::new(
        resampled_count(mono.len(), rate, phase),
        |j: int| mono[(phase + j * rate) / (CANONICAL_RATE as int)],
    )
}

/// The phase with which the frames that follow `frames` source frames begin.
pub open spec fn phase_after(frames: nat, rate: nat, phase: nat) -> nat {
    if rate == 0 {
        phase
    } else {
        (phase + resampled_count(frames, rate, phase) * rate - frames * CANONICAL_RATE) as nat
    }
}

/// With a source frame under the first tick there is a canonical sample, and
/// the first canonical sample after the frames lies less than `rate` ticks
/// behind their end.
pub proof fn lemma_resampled_span(frames: nat, rate: nat, phase: nat)
    requires
        0 < rate,
        phase < frames * CANONICAL_RATE,
    ensures
        0 < resampled_count(frames, rate, phase),
        frames * CANONICAL_RATE <= phase + resampled_count(frames, rate, phase) * rate,
        phase + resampled_count(frames, rate, phase) * rate < frames * CANONICAL_RATE + rate,
{
    let span = frames * 44_100 - phase;
    let count = resampled_count(frames, rate, phase) as int;
    let r = rate as int;
    vstd::arithmetic::div_mod::lemma_fundamental_div_mod(span + r - 1, r);
    vstd::arithmetic::div_mod::lemma_mod_bound(span + r - 1, r);
    assert(count == (span + r - 1) / r);
    assert(r * count == count * r) by (nonlinear_arith);
    assert(0 < count) by (nonlinear_arith)
        requires
            0 < r,
            r <= count * r + (span + r - 1) % r,
            (span + r - 1) % r < r,
    ;
}

/// Each canonical sample falls under one of the source frames.
pub proof fn lemma_resampled_ticks(frames: nat, rate: nat, phase: nat, j: int)
    requires
        0 < rate,
        0 <= j < resampled_count(frames, rate, phase),
    ensures
        0 <= j * rate,
        phase + j * rate < frames * CANONICAL_RATE,
        0 <= (phase + j * rate) / (CANONICAL_RATE as int) < frames,
{
    lemma_resampled_span(frames, rate, phase);
    let count = resampled_count(frames, rate, phase) as int;
    let r = rate as int;
    assert(j * r <= (count - 1) * r) by (nonlinear_arith)
        requires
            0 <= j <= count - 1,
            0 < r,
    ;
    assert((count - 1) * r == count * r - r) by (nonlinear_arith);
    assert(0 <= j * r) by (nonlinear_arith)
        requires
            0 <= j,
            0 < r,
    ;
    let tick = phase + j * r;
    assert(0 <= tick / 44_100 < frames) by (nonlinear_arith)
        requires
            0 <= tick < frames * 44_100,
    ;
}

/// Brings one channel at `rate` hertz to the canonical rate and appends the
/// result to `out`. Returns the phase for the frames that follow. Audio
/// without a sampling rate has no place in time and adds nothing.
pub fn resample_into(out: &mut Vec<i16>, mono: &[i16], rate: u32, phase: u64) -> (next: u64)
    ensures
        final(out)@ == old(out)@ + resampled(mono@, rate as nat, phase as nat),
        next == phase_after(mono@.len(), rate as nat, phase as nat),
        next <= phase || next < rate,
{
    if rate == 0 {
        proof {
            assert(resampled(mono@, 0, phase as nat) =~= Seq::<i16>::empty());
            assert(old(out)@ + Seq::<i16>::empty() =~= old(out)@);
        }
        return phase;
    }
    let frames: usize = mono.len();
    let span_end: u128 = (frames as u128) * (CANONICAL_RATE as u128);
    let start: u128 = phase as u128;
    let step: u128 = rate as u128;
    if span_end <= start {
        proof {
            assert(resampled(mono@, rate as nat, phase as nat) =~= Seq::<i16>::empty());
            assert(old(out)@ + Seq::<i16>::empty() =~= old(out)@);
        }
        return (start - span_end) as u64;
    }
    proof {
        lemma_resampled_span(frames as nat, rate as nat, phase as nat);
    }
    let count: u128 = (span_end - start + step - 1) / step;
    assert(count * step == (count as int) * (rate as int));
    let ghost base = old(out)@;
    let ghost wanted = resampled(mono@, rate as nat, phase as nat);
    let mut j: u128 = 0;
    while j < count
        invariant
            0 < rate,
            step == rate,
            start == phase,
            frames == mono@.len(),
            span_end == frames * 44_100,
            start < span_end,
            count == resampled_count(frames as nat, rate as nat, phase as nat),
            wanted == resampled(mono@, rate as nat, phase as nat),
            j <= count,
            out@.len() == base.len() + j,
            forall|i: int| 0 <= i < base.len() ==> out@[i] == base[i],
            forall|i: int| 0 <= i < j ==> out@[base.len() + i] == wanted[i],
        decreases count - j,
    {
        proof {
            lemma_resampled_ticks(frames as nat, rate as nat, phase as nat, j as int);
            assert(j * step == (j as int) * (rate as int));
        }
        let tick: u128 = start + j * step;
        let index: usize = (tick / (CANONICAL_RATE as u128)) as usize;
        out.push(mono[index]);
        j = j + 1;
    }
    proof {
        assert(out@ =~= base + wanted);
    }
    (start + count * step - span_end) as u64
}

/// A run of decoded audio: interleaved samples with the channel count and the
/// sampling rate that the decoder reported for them.
#[derive(Debug)]
pub struct DecodedChunk {
    /// The samples, frame after frame, the channels of a frame side by side.
    pub samples: Vec<i16>,
    /// The number of channels in a frame.
    pub channels: usize,
    /// The sampling rate in hertz.
    pub rate: u32,
}

/// What a chunk holds, as mathematical values.
pub struct ChunkView {
    pub samples: Seq<i16>,
    pub channels: nat,
    pub rate: nat,
}

impl ChunkView {
    /// The number of whole frames in the chunk.
    pub open spec fn frames(self) -> nat {
        frame_count(self.samples.len(), self.channels)
    }

    /// The chunk has frames but no sampling rate, so that its frames have no
    /// place in time.
    pub open spec fn unplaceable(self) -> bool {
        self.rate == 0 && self.frames() > 0
    }
}

impl View for DecodedChunk {
    type V = ChunkView;

    open spec fn view(&self) -> ChunkView {
        ChunkView {
            samples: self.samples@,
            channels: self.channels as nat,
            rate: self.rate as nat,
        }
    }
}

/// The canonical samples gathered so far, and the phase with which the next
/// chunk begins.
pub struct Progress {
    pub pcm: Seq<i16>,
    pub phase: nat,
}

impl Progress {
    /// Nothing gathered yet.
    pub open spec fn start() -> Progress {
        Progress { pcm: Seq::empty(), phase: 0 }
    }

    /// The progress after `chunk` has been mixed down and brought to the
    /// canonical rate.
    pub open spec fn absorb(self, chunk: ChunkView) -> Progress {
        let mono = downmixed(chunk.samples, chunk.channels);
        Progress {
            pcm: self.pcm + resampled(mono, chunk.rate, self.phase),
            phase: phase_after(mono.len(), chunk.rate, self.phase),
        }
    }

    /// The progress after all of `chunks`, taken in order.
    pub open spec fn absorb_all(self, chunks: Seq<ChunkView>) -> Progress
        decreases chunks.len(),
    {
        if chunks.len() == 0 {
            self
        } else {
            self.absorb_all(chunks.drop_last()).absorb(chunks.last())
        }
    }
}

/// What a sequence of chunks holds, as mathematical values.
pub open spec fn chunk_views(chunks: Seq<DecodedChunk>) -> Seq<ChunkView> {
    Seq::new(chunks.len(), |i: int| chunks[i]@)
}

/// Some chunk has frames but no sampling rate.
pub open spec fn any_unplaceable(chunks: Seq<ChunkView>) -> bool {
    exists|i: int| 0 <= i < chunks.len() && (#[trigger] chunks[i]).unplaceable()
}

/// The canonical form of a sequence of decoded chunks.
pub open spec fn canonical_pcm(chunks: Seq<ChunkView>) -> Seq<i16> {
    Progress::start().absorb_all(chunks).pcm
}

/// One channel mixed down is itself.
pub proof fn lemma_downmixed_mono(samples: Seq<i16>)
    ensures
        downmixed(samples, 1) == samples,
{
    assert forall|k: int| 0 <= k < samples.len() implies frame_mean(samples, 1, k)
        == samples[k] by {
        reveal_with_fuel(frame_total, 2);
        assert(frame_total(samples, k * 1, 1) == samples[k] as int);
    }
    assert(downmixed(samples, 1) =~= samples);
}

/// Audio at the canonical rate, taken in from the start of a frame, stays as
/// it is, and what follows starts at a frame again.
pub proof fn lemma_resampled_at_canonical_rate(mono: Seq<i16>)
    ensures
        resampled(mono, CANONICAL_RATE as nat, 0) == mono,
        phase_after(mono.len(), CANONICAL_RATE as nat, 0) == 0,
{
    let n = mono.len() as int;
    assert(resampled_count(mono.len(), 44_100, 0) == n) by {
        if n > 0 {
            assert((n * 44_100 - 0 + 44_100 - 1) / 44_100 == n) by (nonlinear_arith)
                requires
                    n > 0,
            ;
        }
    }
    assert forall|j: int| 0 <= j < n implies #[trigger] resampled(mono, 44_100, 0)[j]
        == mono[j] by {
        assert((0 + j * 44_100) / 44_100 == j) by (nonlinear_arith)
            requires
                0 <= j,
        ;
    }
    assert(resampled(mono, 44_100, 0) =~= mono);
}

/// Where a stretch of audio is cut in two does not change what it is
/// resampled to: the second part, taken in with the phase that the first
/// part left, carries on where the first part ended.
pub proof fn lemma_resampled_split(a: Seq<i16>, b: Seq<i16>, rate: nat, phase: nat)
    requires
        0 < rate,
    ensures
        resampled(a + b, rate, phase) == resampled(a, rate, phase) + resampled(
            b,
            rate,
            phase_after(a.len(), rate, phase),
        ),
        phase_after((a + b).len(), rate, phase) == phase_after(
            b.len(),
            rate,
            phase_after(a.len(), rate, phase),
        ),
{
    let t = 44_100int;
    let r = rate as int;
    let p = phase as int;
    let na = a.len() as int;
    let nb = b.len() as int;
    let ca = resampled_count(a.len(), rate, phase) as int;
    let pa = phase_after(a.len(), rate, phase);
    let cb = resampled_count(b.len(), rate, pa) as int;
    let c = resampled_count((a + b).len(), rate, phase) as int;
    let x = (na + nb) * t - p;
    let y = nb * t - pa;
    assert((na + nb) * t == na * t + nb * t) by (nonlinear_arith);
    if na * t > p {
        lemma_resampled_span(a.len(), rate, phase);
    }
    assert(p + ca * r == na * t + pa);
    assert(x == ca * r + y);
    assert(0 <= ca * r) by (nonlinear_arith)
        requires
            0 <= ca,
            0 < r,
    ;
    if y <= 0 {
        assert(cb == 0);
        if x > 0 {
            assert(na * t > p);
            vstd::arithmetic::div_mod::lemma_fundamental_div_mod_converse(
                x + r - 1,
                r,
                ca,
                x + r - 1 - ca * r,
            );
            assert(c == ca);
        } else {
            assert(c == 0);
            assert(ca == 0);
        }
    } else {
        assert(x > 0);
        vstd::arithmetic::div_mod::lemma_hoist_over_denominator(y + r - 1, ca, rate);
        assert(y + r - 1 + ca * r == x + r - 1);
        assert(c == ca + cb);
    }
    assert(c == ca + cb);
    assert(c * r == ca * r + cb * r) by (nonlinear_arith)
        requires
            c == ca + cb,
    ;
    let whole = resampled(a + b, rate, phase);
    let first = resampled(a, rate, phase);
    let second = resampled(b, rate, pa);
    assert forall|j: int| 0 <= j < c implies #[trigger] whole[j] == (first + second)[j] by {
        if j < ca {
            lemma_resampled_ticks(a.len(), rate, phase, j);
        } else {
            let k = j - ca;
            lemma_resampled_ticks(b.len(), rate, pa, k);
            assert(j * r == ca * r + k * r) by (nonlinear_arith)
                requires
                    j == ca + k,
            ;
            vstd::arithmetic::div_mod::lemma_hoist_over_denominator(pa + k * r, na, 44_100);
            assert((p + j * r) / t == na + (pa + k * r) / t);
        }
    }
    assert(whole =~= first + second);
}

/// The sample `i` places after `start`.
spec fn sample_after(samples: Seq<i16>, start: int, i: int) -> i16 {
    samples[start + i]
}

/// The sum of a frame depends on the samples of the frame alone.
proof fn lemma_frame_total_window(
    left: Seq<i16>,
    left_start: int,
    right: Seq<i16>,
    right_start: int,
    width: nat,
)
    requires
        forall|i: int|
            0 <= i < width ==> #[trigger] sample_after(left, left_start, i) == sample_after(
                right,
                right_start,
                i,
            ),
    ensures
        frame_total(left, left_start, width) == frame_total(right, right_start, width),
    decreases width,
{
    if width > 0 {
        lemma_frame_total_window(left, left_start, right, right_start, (width - 1) as nat);
        assert(sample_after(left, left_start, width - 1) == sample_after(
            right,
            right_start,
            width - 1,
        ));
    }
}

/// Samples that end with a whole frame, followed by more samples, mix down
/// to what the two parts mix down to, one after the other.
pub proof fn lemma_downmixed_split(a: Seq<i16>, b: Seq<i16>, channels: nat)
    requires
        0 < channels,
        a.len() % channels == 0,
    ensures
        downmixed(a + b, channels) == downmixed(a, channels) + downmixed(b, channels),
{
    let c = channels as int;
    let la = a.len() as int;
    let lb = b.len() as int;
    let fa = la / c;
    let fb = lb / c;
    vstd::arithmetic::div_mod::lemma_fundamental_div_mod(la, c);
    assert(la == fa * c) by (nonlinear_arith)
        requires
            la == c * fa + 0,
    ;
    vstd::arithmetic::div_mod::lemma_hoist_over_denominator(lb, fa, channels);
    assert((la + lb) / c == fa + fb);
    let whole = downmixed(a + b, channels);
    let parts = downmixed(a, channels) + downmixed(b, channels);
    assert forall|k: int| 0 <= k < fa + fb implies #[trigger] whole[k] == parts[k] by {
        if k < fa {
            lemma_frame_fits(la, c, k);
            assert forall|i: int| 0 <= i < channels implies #[trigger] sample_after(
                a + b,
                k * c,
                i,
            ) == sample_after(a, k * c, i) by {}
            lemma_frame_total_window(a + b, k * c, a, k * c, channels);
        } else {
            let m = k - fa;
            lemma_frame_fits(lb, c, m);
            assert(k * c == la + m * c) by (nonlinear_arith)
                requires
                    k == fa + m,
                    la == fa * c,
            ;
            assert forall|i: int| 0 <= i < channels implies #[trigger] sample_after(
                a + b,
                k * c,
                i,
            ) == sample_after(b, m * c, i) by {}
            lemma_frame_total_window(a + b, k * c, b, m * c, channels);
        }
    }
    assert(whole =~= parts);
}

/// How decoded audio is cut into chunks does not matter: two chunks of the
/// same shape, the first of which ends with a whole frame, are taken in as
/// the one chunk that holds the samples of both.
pub proof fn lemma_absorb_joined(progress: Progress, first: ChunkView, second: ChunkView)
    requires
        0 < first.channels,
        first.channels == second.channels,
        first.rate == second.rate,
        first.samples.len() % first.channels == 0,
    ensures
        progress.absorb(first).absorb(second) == progress.absorb(
            ChunkView {
                samples: first.samples + second.samples,
                channels: first.channels,
                rate: first.rate,
            },
        ),
{
    let a = downmixed(first.samples, first.channels);
    let b = downmixed(second.samples, first.channels);
    lemma_downmixed_split(first.samples, second.samples, first.channels);
    let joined = progress.absorb(
        ChunkView {
            samples: first.samples + second.samples,
            channels: first.channels,
            rate: first.rate,
        },
    );
    let stepwise = progress.absorb(first).absorb(second);
    if first.rate > 0 {
        lemma_resampled_split(a, b, first.rate, progress.phase);
    }
    assert(stepwise.pcm =~= joined.pcm);
}

/// The samples of all chunks, one chunk after the other.
pub open spec fn joined_samples(chunks: Seq<ChunkView>) -> Seq<i16>
    decreases chunks.len(),
{
    if chunks.len() == 0 {
        Seq::empty()
    } else {
        joined_samples(chunks.drop_last()) + chunks.last().samples
    }
}

/// All chunks have `channels` channels and the sampling rate `rate`, and each
/// ends with a whole frame.
pub open spec fn uniform_chunks(chunks: Seq<ChunkView>, channels: nat, rate: nat) -> bool {
    forall|i: int|
        0 <= i < chunks.len() ==> {
            &&& (#[trigger] chunks[i]).channels == channels
            &&& chunks[i].rate == rate
            &&& chunks[i].samples.len() % channels == 0
        }
}

/// The samples of chunks that each end with a whole frame end with a whole
/// frame.
proof fn lemma_joined_whole_frames(chunks: Seq<ChunkView>, channels: nat, rate: nat)
    requires
        0 < channels,
        uniform_chunks(chunks, channels, rate),
    ensures
        joined_samples(chunks).len() % channels == 0,
    decreases chunks.len(),
{
    if chunks.len() > 0 {
        let rest = chunks.drop_last();
        assert forall|i: int| 0 <= i < rest.len() implies (#[trigger] rest[i]) == chunks[i] by {}
        lemma_joined_whole_frames(rest, channels, rate);
        let a = joined_samples(rest).len() as int;
        let b = chunks.last().samples.len() as int;
        assert(chunks[chunks.len() - 1].samples.len() % channels == 0);
        assert(joined_samples(chunks).len() == a + b);
        vstd::arithmetic::div_mod::lemma_add_mod_noop(a, b, channels as int);
        vstd::arithmetic::div_mod::lemma_small_mod(0, channels);
    } else {
        vstd::arithmetic::div_mod::lemma_small_mod(0, channels);
    }
}

/// The canonical form of a stream does not depend on how the decoder cut it
/// into chunks: chunks of one shape give what the whole stream gives when it
/// is mixed down and resampled in one piece.
pub proof fn lemma_canonical_of_uniform_chunks(chunks: Seq<ChunkView>, channels: nat, rate: nat)
    requires
        0 < channels,
        uniform_chunks(chunks, channels, rate),
    ensures
        canonical_pcm(chunks) == resampled(
            downmixed(joined_samples(chunks), channels),
            rate,
            0,
        ),
{
    lemma_absorb_all_uniform(chunks, channels, rate);
    let whole = ChunkView { samples: joined_samples(chunks), channels, rate };
    assert(Seq::<i16>::empty() + resampled(downmixed(whole.samples, channels), rate, 0)
        =~= resampled(downmixed(whole.samples, channels), rate, 0));
}

/// Taking uniform chunks in one by one is taking in the one chunk that holds
/// the samples of all of them.
proof fn lemma_absorb_all_uniform(chunks: Seq<ChunkView>, channels: nat, rate: nat)
    requires
        0 < channels,
        uniform_chunks(chunks, channels, rate),
    ensures
        Progress::start().absorb_all(chunks) == Progress::start().absorb(
            ChunkView { samples: joined_samples(chunks), channels, rate },
        ),
    decreases chunks.len(),
{
    if chunks.len() == 0 {
        let nothing = ChunkView { samples: Seq::<i16>::empty(), channels, rate };
        let taken = Progress::start().absorb(nothing);
        assert(downmixed(nothing.samples, channels) =~= Seq::<i16>::empty());
        assert(taken.pcm =~= Seq::<i16>::empty());
        assert(resampled_count(0, rate, 0) == 0);
        assert(0 * rate == 0) by (nonlinear_arith);
        assert(taken.phase == 0);
    } else {
        let rest = chunks.drop_last();
        assert forall|i: int| 0 <= i < rest.len() implies (#[trigger] rest[i]) == chunks[i] by {}
        lemma_absorb_all_uniform(rest, channels, rate);
        lemma_joined_whole_frames(rest, channels, rate);
        let first = ChunkView { samples: joined_samples(rest), channels, rate };
        let last = chunks.last();
        assert(chunks[chunks.len() - 1].channels == channels);
        lemma_absorb_joined(Progress::start(), first, last);
        assert(last == (ChunkView { samples: last.samples, channels, rate }));
    }
}

/// The canonical form of one chunk: its samples mixed down and resampled
/// from the start of a frame.
pub proof fn lemma_canonical_of_one_chunk(chunk: ChunkView)
    ensures
        canonical_pcm(seq![chunk]) == resampled(
            downmixed(chunk.samples, chunk.channels),
            chunk.rate,
            0,
        ),
        chunk.rate == CANONICAL_RATE ==> canonical_pcm(seq![chunk]) == downmixed(
            chunk.samples,
            chunk.channels,
        ),
{
    let chunks = seq![chunk];
    let mono = downmixed(chunk.samples, chunk.channels);
    assert(chunks.drop_last() =~= Seq::<ChunkView>::empty());
    assert(chunks.last() == chunk);
    assert(Progress::start().absorb_all(chunks) == Progress::start().absorb_all(
        chunks.drop_last(),
    ).absorb(chunk));
    assert(Progress::start().absorb_all(Seq::<ChunkView>::empty()) == Progress::start());
    assert(Seq::<i16>::empty() + resampled(mono, chunk.rate, 0) =~= resampled(mono, chunk.rate, 0));
    if chunk.rate == CANONICAL_RATE {
        lemma_resampled_at_canonical_rate(mono);
    }
}

/// A frame of two channels is mixed down to half the sum of its two samples,
/// rounded toward zero.
pub proof fn lemma_frame_mean_of_two(samples: Seq<i16>, k: int)
    requires
        0 <= k,
        2 * k + 1 < samples.len(),
    ensures
        frame_mean(samples, 2, k) == toward_zero(samples[2 * k] + samples[2 * k + 1], 2) as i16,
{
    reveal_with_fuel(frame_total, 3);
    assert(frame_total(samples, k * 2, 2) == samples[k * 2] + samples[k * 2 + 1]);
}

/// A mono chunk at the canonical rate adds its samples as they are.
pub proof fn lemma_absorb_canonical_chunk(progress: Progress, chunk: ChunkView)
    requires
        progress.phase == 0,
        chunk.channels == 1,
        chunk.rate == CANONICAL_RATE,
    ensures
        progress.absorb(chunk) == (Progress { pcm: progress.pcm + chunk.samples, phase: 0 }),
{
    lemma_downmixed_mono(chunk.samples);
    lemma_resampled_at_canonical_rate(chunk.samples);
}

/// Taking a chunk in keeps the samples gathered before it.
pub proof fn lemma_absorb_extends(progress: Progress, chunk: ChunkView)
    ensures
        progress.pcm.is_prefix_of(progress.absorb(chunk).pcm),
{
    let mono = downmixed(chunk.samples, chunk.channels);
    let added = resampled(mono, chunk.rate, progress.phase);
    assert((progress.pcm + added).subrange(0, progress.pcm.len() as int) =~= progress.pcm);
}

/// A chunk with frames and a sampling rate, taken in from the start of a
/// frame, gives at least one sample.
pub proof fn lemma_frames_give_samples(progress: Progress, chunk: ChunkView)
    requires
        progress.phase == 0,
        chunk.frames() > 0,
        chunk.rate > 0,
    ensures
        progress.absorb(chunk).pcm.len() > progress.pcm.len(),
{
    let mono = downmixed(chunk.samples, chunk.channels);
    lemma_resampled_span(mono.len(), chunk.rate, 0);
}

/// Gathers decoded chunks into the canonical form.
pub struct PcmBuilder {
    pcm: Vec<i16>,
    phase: u64,
}

impl View for PcmBuilder {
    type V = Progress;

    closed spec fn view(&self) -> Progress {
        Progress { pcm: self.pcm@, phase: self.phase as nat }
    }
}

impl PcmBuilder {
    /// A builder that has gathered nothing.
    pub fn new() -> (builder: PcmBuilder)
        ensures
            builder@ == Progress::start(),
    {
        PcmBuilder { pcm: Vec::new(), phase: 0 }
    }

    /// Takes one chunk in. A chunk that has frames but no sampling rate is
    /// refused and leaves the builder as it was.
    pub fn push(&mut self, chunk: &DecodedChunk) -> (taken: bool)
        ensures
            taken == !chunk@.unplaceable(),
            taken ==> final(self)@ == old(self)@.absorb(chunk@),
            !taken ==> final(self)@ == old(self)@,
    {
        let mono = downmix(chunk.samples.as_slice(), chunk.channels);
        if chunk.rate == 0 {
            if mono.len() > 0 {
                return false;
            }
            proof {
                assert(resampled(mono@, 0, self.phase as nat) =~= Seq::<i16>::empty());
                assert(self.pcm@ + Seq::<i16>::empty() =~= self.pcm@);
            }
            return true;
        }
        let next = resample_into(&mut self.pcm, mono.as_slice(), chunk.rate, self.phase);
        self.phase = next;
        true
    }

    /// The samples gathered.
    pub fn finish(self) -> (pcm: Vec<i16>)
        ensures
            pcm@ == self@.pcm,
    {
        self.pcm
    }
}

} // verus!
