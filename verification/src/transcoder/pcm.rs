//! Decoded samples: conversion to sixteen bits, interleaving, and the buffer
//! that turns decoder frames into encoder frames.
use vstd::arithmetic::power2::{lemma2_to64, pow2};
use vstd::bits::lemma_u64_shr_is_div;
use vstd::prelude::*;

verus! {

/// The exponent field of a single precision number.
pub open spec fn exponent_of(bits: u32) -> int {
    (bits as int / 0x80_0000) % 256
}

/// The fraction field of a single precision number.
pub open spec fn fraction_of(bits: u32) -> int {
    bits as int % 0x80_0000
}

/// The multiple of `unit` nearest to `p`, and of two equally near the one with
/// the even quotient.
pub open spec fn nearest_multiple(p: int, unit: int) -> int {
    let q = p / unit;
    let rest = p % unit;
    if 2 * rest > unit || (2 * rest == unit && q % 2 == 1) {
        (q + 1) * unit
    } else {
        q * unit
    }
}

/// 32767 times a mantissa of 24 bits, rounded to 24 significant bits.
pub open spec fn scaled(mantissa: int) -> int {
    let p = 32767 * mantissa;
    if p < 0x40_0000_0000 {
        nearest_multiple(p, 0x4000)
    } else {
        nearest_multiple(p, 0x8000)
    }
}

/// A single precision number, clamped to one, times 32767 in single
/// precision, cut to a whole number; all without the sign. What is not a
/// number counts as zero.
pub open spec fn magnitude_of(bits: u32) -> int {
    let exponent = exponent_of(bits);
    if exponent == 255 && fraction_of(bits) != 0 {
        0
    } else if exponent >= 127 {
        32767
    } else if exponent >= 111 {
        scaled(0x80_0000 + fraction_of(bits)) / pow2((150 - exponent) as nat) as int
    } else {
        0
    }
}

/// The sixteen-bit sample for a single precision sample, given by its bits.
pub open spec fn sample_of(bits: u32) -> i16 {
    if bits >= 0x8000_0000 {
        (-magnitude_of(bits)) as i16
    } else {
        magnitude_of(bits) as i16
    }
}

/// Rounds to a multiple of `unit`.
fn round_to(p: u64, unit: u64) -> (r: u64)
    requires
        0 < unit <= 0x8000,
        p < 0x1_0000_0000_0000,
    ensures
        r == nearest_multiple(p as int, unit as int),
{
    let q: u64 = p / unit;
    let rest: u64 = p % unit;
    assert(q * unit + rest == p && rest < unit) by (nonlinear_arith)
        requires
            q == p / unit,
            rest == p % unit,
            unit > 0,
    ;
    assert((q + 1) * unit == q * unit + unit) by (nonlinear_arith);
    assert(q <= p) by (nonlinear_arith)
        requires
            q * unit <= p,
            unit > 0,
    ;
    if 2 * rest > unit || (2 * rest == unit && q % 2 == 1) {
        (q + 1) * unit
    } else {
        q * unit
    }
}

/// Rounding does not pass a multiple of the unit.
proof fn lemma_nearest_multiple_bound(p: int, unit: int, n: int)
    requires
        unit > 0,
        0 <= p < n * unit,
    ensures
        0 <= nearest_multiple(p, unit) <= n * unit,
{
    let q = p / unit;
    assert(0 <= q && q * unit <= p < (q + 1) * unit && q < n) by (nonlinear_arith)
        requires
            q == p / unit,
            unit > 0,
            0 <= p < n * unit,
    ;
    assert((q + 1) * unit <= n * unit) by (nonlinear_arith)
        requires
            q < n,
            unit > 0,
    ;
    assert(q * unit <= (q + 1) * unit) by (nonlinear_arith)
        requires
            unit > 0,
    ;
    assert(0 <= q * unit) by (nonlinear_arith)
        requires
            unit > 0,
            0 <= q,
    ;
}

proof fn lemma_scaled_bound(mantissa: int)
    requires
        0x80_0000 <= mantissa < 0x100_0000,
    ensures
        0 <= scaled(mantissa) <= 32767 * 0x100_0000,
{
    let p = 32767 * mantissa;
    if p < 0x40_0000_0000 {
        lemma_nearest_multiple_bound(p, 0x4000, 32767int * 0x400);
    } else {
        lemma_nearest_multiple_bound(p, 0x8000, 32767int * 0x200);
    }
}

/// Sixteen bits hold every sample.
pub proof fn lemma_sample_fits(bits: u32)
    ensures
        0 <= magnitude_of(bits) <= 32767,
        sample_of(bits) == if bits >= 0x8000_0000 {
            -magnitude_of(bits)
        } else {
            magnitude_of(bits)
        },
{
    let exponent = exponent_of(bits);
    if 111 <= exponent < 127 {
        let top = scaled(0x80_0000 + fraction_of(bits));
        let d = pow2((150 - exponent) as nat) as int;
        lemma_scaled_bound(0x80_0000 + fraction_of(bits));
        lemma2_to64();
        if 150 - exponent > 24 {
            vstd::arithmetic::power2::lemma_pow2_strictly_increases(24, (150 - exponent) as nat);
        }
        assert(d >= 0x100_0000);
        assert(0 <= top / d <= 32767) by (nonlinear_arith)
            requires
                0 <= top <= 32767 * 0x100_0000,
                d >= 0x100_0000,
        ;
    }
}

/// Converts one sample, given by the bits of its single precision value.
pub fn to_i16(bits: u32) -> (r: i16)
    ensures
        r == sample_of(bits),
{
    proof {
        lemma_sample_fits(bits);
    }
    let exponent: u32 = (bits / 0x80_0000) % 256;
    let fraction: u32 = bits % 0x80_0000;
    let magnitude: i32 = if exponent == 255 && fraction != 0 {
        0
    } else if exponent >= 127 {
        32767
    } else if exponent >= 111 {
        let product: u64 = 32767 * (0x80_0000 + fraction as u64);
        let unit: u64 = if product < 0x40_0000_0000 {
            0x4000
        } else {
            0x8000
        };
        let rounded: u64 = round_to(product, unit);
        let shift: u64 = 150 - exponent as u64;
        proof {
            lemma_u64_shr_is_div(rounded, shift);
        }
        (rounded >> shift) as i32
    } else {
        0
    };
    if bits >= 0x8000_0000 {
        (-magnitude) as i16
    } else {
        magnitude as i16
    }
}

/// Decoded samples by channel. Single precision samples are given by their
/// bits.
pub enum SamplePlanes {
    Float(Vec<Vec<u32>>),
    Signed16(Vec<Vec<i16>>),
    Other,
}

/// One decoded frame.
pub struct DecodedAudio {
    pub sample_rate: u32,
    pub planes: SamplePlanes,
}

/// The channels of a frame, as sequences.
pub open spec fn plane_views<T>(planes: Seq<Vec<T>>) -> Seq<Seq<T>> {
    Seq::new(planes.len(), |i: int| planes[i]@)
}

/// The channels of a frame in sixteen bits. Formats other than the two that
/// decoders use here have none.
pub open spec fn planes_of(planes: SamplePlanes) -> Seq<Seq<i16>> {
    match planes {
        SamplePlanes::Float(p) => float_planes(plane_views(p@)),
        SamplePlanes::Signed16(p) => plane_views(p@),
        SamplePlanes::Other => Seq::empty(),
    }
}

/// Channels in single precision, converted to sixteen bits.
pub open spec fn float_planes(planes: Seq<Seq<u32>>) -> Seq<Seq<i16>> {
    planes.map_values(|plane: Seq<u32>| plane.map_values(|bits: u32| sample_of(bits)))
}

/// Whether all channels have the same number of samples.
pub open spec fn is_rectangular<T>(planes: Seq<Seq<T>>) -> bool {
    forall|i: int| 0 <= i < planes.len() ==> (#[trigger] planes[i]).len() == planes[0].len()
}

/// The samples of all channels at one time.
pub open spec fn column(planes: Seq<Seq<i16>>, t: int) -> Seq<i16> {
    Seq::new(planes.len(), |ch: int| planes[ch][t])
}

/// The samples up to a time, channel after channel for each time.
pub open spec fn interleaved_up_to(planes: Seq<Seq<i16>>, n: nat) -> Seq<i16>
    decreases n,
{
    if n == 0 {
        Seq::empty()
    } else {
        interleaved_up_to(planes, (n - 1) as nat) + column(planes, n - 1)
    }
}

/// All samples of a frame, interleaved.
pub open spec fn interleaved(planes: Seq<Seq<i16>>) -> Seq<i16> {
    if planes.len() == 0 {
        Seq::empty()
    } else {
        interleaved_up_to(planes, planes[0].len())
    }
}

/// Interleaves the samples of a frame, in sixteen bits.
pub fn extract_interleaved_i16(planes: &SamplePlanes) -> (r: Vec<i16>)
    requires
        is_rectangular(planes_of(*planes)),
    ensures
        r@ == interleaved(planes_of(*planes)),
{
    match planes {
        SamplePlanes::Float(p) => interleave(&convert_planes(p)),
        SamplePlanes::Signed16(p) => interleave(p),
        SamplePlanes::Other => Vec::new(),
    }
}

/// Converts all channels to sixteen bits.
fn convert_planes(planes: &Vec<Vec<u32>>) -> (r: Vec<Vec<i16>>)
    ensures
        plane_views(r@) == float_planes(plane_views(planes@)),
{
    let ghost model = float_planes(plane_views(planes@));
    let mut out: Vec<Vec<i16>> = Vec::new();
    let mut ch: usize = 0;
    while ch < planes.len()
        invariant
            ch <= planes@.len(),
            model == float_planes(plane_views(planes@)),
            out@.len() == ch,
            forall|k: int| 0 <= k < ch ==> (#[trigger] out@[k])@ == model[k],
        decreases planes@.len() - ch,
    {
        let plane: &Vec<u32> = &planes[ch];
        let mut samples: Vec<i16> = Vec::new();
        let mut t: usize = 0;
        while t < plane.len()
            invariant
                t <= plane@.len(),
                samples@.len() == t,
                forall|k: int| 0 <= k < t ==> samples@[k] == sample_of(#[trigger] plane@[k]),
            decreases plane@.len() - t,
        {
            samples.push(to_i16(plane[t]));
            t += 1;
        }
        assert(samples@ =~= model[ch as int]);
        out.push(samples);
        ch += 1;
    }
    assert(plane_views(out@) =~= model);
    out
}

/// Interleaves channels of sixteen-bit samples.
fn interleave(planes: &Vec<Vec<i16>>) -> (r: Vec<i16>)
    requires
        is_rectangular(plane_views(planes@)),
    ensures
        r@ == interleaved(plane_views(planes@)),
{
    let ghost model = plane_views(planes@);
    let mut out: Vec<i16> = Vec::new();
    if planes.len() == 0 {
        return out;
    }
    let frames: usize = planes[0].len();
    let mut t: usize = 0;
    while t < frames
        invariant
            t <= frames,
            model == plane_views(planes@),
            is_rectangular(model),
            planes@.len() > 0,
            frames == model[0].len(),
            out@ == interleaved_up_to(model, t as nat),
        decreases frames - t,
    {
        let mut ch: usize = 0;
        let ghost before = out@;
        assert(before + column(model, t as int).take(0) =~= before);
        while ch < planes.len()
            invariant
                t < frames,
                ch <= planes@.len(),
                model == plane_views(planes@),
                is_rectangular(model),
                frames == model[0].len(),
                out@ == before + column(model, t as int).take(ch as int),
            decreases planes@.len() - ch,
        {
            assert(model[ch as int].len() == model[0].len());
            out.push(planes[ch][t]);
            ch += 1;
            assert(out@ =~= before + column(model, t as int).take(ch as int));
        }
        assert(column(model, t as int).take(ch as int) =~= column(model, t as int));
        t += 1;
    }
    out
}

/// Interleaving loses nothing and reorders nothing else: every sample of every
/// channel stands where its time and channel put it.
pub proof fn lemma_interleaved_index(planes: Seq<Seq<i16>>, t: int, ch: int)
    requires
        is_rectangular(planes),
        0 <= ch < planes.len(),
        0 <= t < planes[0].len(),
    ensures
        interleaved(planes).len() == planes[0].len() * planes.len(),
        0 <= t * planes.len() + ch < interleaved(planes).len(),
        interleaved(planes)[t * planes.len() + ch] == planes[ch][t],
{
    lemma_interleaved_up_to(planes, planes[0].len(), t, ch);
    lemma_interleaved_len(planes, planes[0].len());
}

/// Interleaving gives as many samples as the channels have together.
pub proof fn lemma_interleaved_len(planes: Seq<Seq<i16>>, n: nat)
    ensures
        interleaved_up_to(planes, n).len() == n * planes.len(),
    decreases n,
{
    let c = planes.len();
    if n > 0 {
        lemma_interleaved_len(planes, (n - 1) as nat);
        assert((n - 1) * c + c == n * c) by (nonlinear_arith);
    } else {
        assert(n * c == 0) by (nonlinear_arith)
            requires
                n == 0,
        ;
    }
}

proof fn lemma_interleaved_up_to(planes: Seq<Seq<i16>>, n: nat, t: int, ch: int)
    requires
        0 <= ch < planes.len(),
        0 <= t < n,
    ensures
        0 <= t * planes.len() + ch < interleaved_up_to(planes, n).len(),
        interleaved_up_to(planes, n)[t * planes.len() + ch] == planes[ch][t],
    decreases n,
{
    let c = planes.len() as int;
    lemma_interleaved_len(planes, (n - 1) as nat);
    assert(0 <= t * c) by (nonlinear_arith)
        requires
            0 <= t,
            0 <= c,
    ;
    if t < n - 1 {
        lemma_interleaved_up_to(planes, (n - 1) as nat, t, ch);
    }
}

/// Samples beyond this are not kept waiting for the encoder.
pub const MAX_PCM_BUFFER: usize = 96_000;

/// The samples of one encoder frame: 1024 for each of two channels.
pub const FRAME_SAMPLES: usize = 2048;

/// The waiting samples after more came in. What would overflow the buffer
/// drops what waited before.
pub open spec fn buffered(waiting: Seq<i16>, pcm: Seq<i16>) -> Seq<i16> {
    if waiting.len() + pcm.len() > 96_000 {
        pcm
    } else {
        waiting + pcm
    }
}

/// The encoder frames that some samples make up.
pub open spec fn frames_in(samples: Seq<i16>) -> Seq<Seq<i16>>
    decreases samples.len(),
{
    if samples.len() < 2048 {
        Seq::empty()
    } else {
        seq![samples.take(2048)] + frames_in(samples.skip(2048))
    }
}

/// The samples that are left when all whole encoder frames are taken out.
pub open spec fn rest_of(samples: Seq<i16>) -> Seq<i16>
    decreases samples.len(),
{
    if samples.len() < 2048 {
        samples
    } else {
        rest_of(samples.skip(2048))
    }
}

/// Cutting samples into encoder frames loses none: the frames, each whole, and
/// then the rest, shorter than a frame, are the samples.
pub proof fn lemma_no_sample_is_lost(samples: Seq<i16>)
    ensures
        frames_in(samples).flatten() + rest_of(samples) == samples,
        rest_of(samples).len() < 2048,
        forall|i: int|
            0 <= i < frames_in(samples).len() ==> (#[trigger] frames_in(samples)[i]).len() == 2048,
    decreases samples.len(),
{
    let frames = frames_in(samples);
    if samples.len() >= 2048 {
        let head = samples.take(2048);
        let tail = samples.skip(2048);
        lemma_no_sample_is_lost(tail);
        assert(frames.first() == head);
        assert(frames.drop_first() =~= frames_in(tail));
        assert(frames.flatten() == head + frames_in(tail).flatten());
        assert(head + frames_in(tail).flatten() + rest_of(tail) =~= head + (
        frames_in(tail).flatten() + rest_of(tail)));
        assert(head + tail =~= samples);
        assert forall|i: int| 0 <= i < frames.len() implies (#[trigger] frames[i]).len()
            == 2048 by {
            if i > 0 {
                assert(frames[i] == frames_in(tail)[i - 1]);
            }
        }
    } else {
        assert(frames.flatten() + rest_of(samples) =~= samples);
    }
}

/// The samples that wait for the encoder. Decoder frames and encoder frames
/// differ in length, and this bridges them.
pub struct PcmBuffer {
    samples: Vec<i16>,
}

impl View for PcmBuffer {
    type V = Seq<i16>;

    closed spec fn view(&self) -> Seq<i16> {
        self.samples@
    }
}

impl PcmBuffer {
    /// An empty buffer.
    pub fn new() -> (r: Self)
        ensures
            r@ == Seq::<i16>::empty(),
    {
        Self { samples: Vec::with_capacity(8192) }
    }

    /// Adds samples.
    pub fn push(&mut self, pcm: &[i16])
        ensures
            final(self)@ == buffered(old(self)@, pcm@),
    {
        if self.samples.len() > MAX_PCM_BUFFER || pcm.len() > MAX_PCM_BUFFER - self.samples.len() {
            self.samples.clear();
        }
        self.samples.extend_from_slice(pcm);
        assert(self.samples@ =~= buffered(old(self)@, pcm@));
    }

    /// Takes out one encoder frame, if there is a whole one.
    pub fn take_frame(&mut self) -> (r: Option<Vec<i16>>)
        ensures
            match r {
                Some(frame) => {
                    &&& old(self)@.len() >= 2048
                    &&& frame@ == old(self)@.take(2048)
                    &&& final(self)@ == old(self)@.skip(2048)
                },
                None => old(self)@.len() < 2048 && final(self)@ == old(self)@,
            },
    {
        if self.samples.len() < FRAME_SAMPLES {
            return None;
        }
        let rest: Vec<i16> = self.samples.split_off(FRAME_SAMPLES);
        let mut frame: Vec<i16> = Vec::new();
        frame.append(&mut self.samples);
        self.samples = rest;
        assert(frame@ =~= old(self)@.take(2048));
        assert(self.samples@ =~= old(self)@.skip(2048));
        Some(frame)
    }
}

/// A sample is its single precision value, times 32767 and cut towards zero,
/// but for the rounding of the product to 24 bits; its sign is the sign bit. A
/// value of one or more gives 32767, one too small for a step gives zero, and
/// so does what is not a number.
pub proof fn lemma_sample_is_scaled(bits: u32)
    ensures
        ({
            let exponent = (bits as int / 0x80_0000) % 256;
            let fraction = bits as int % 0x80_0000;
            let sample = sample_of(bits) as int;
            let size = if sample < 0 {
                -sample
            } else {
                sample
            };
            &&& bits >= 0x8000_0000 ==> sample <= 0
            &&& bits < 0x8000_0000 ==> sample >= 0
            &&& exponent == 255 && fraction != 0 ==> sample == 0
            &&& 127 <= exponent < 255 ==> size == 32767
            &&& exponent == 255 && fraction == 0 ==> size == 32767
            &&& exponent < 111 ==> sample == 0
            &&& 111 <= exponent < 127 ==> {
                let step = pow2((150 - exponent) as nat) as int;
                &&& size * step <= 32767 * (0x80_0000 + fraction) + 0x4000
                &&& (size + 1) * step > 32767 * (0x80_0000 + fraction) - 0x4000
            }
        }),
{
    lemma_sample_fits(bits);
    let exponent = exponent_of(bits);
    if 111 <= exponent < 127 {
        let p = 32767 * (0x80_0000 + fraction_of(bits));
        let top = scaled(0x80_0000 + fraction_of(bits));
        let step = pow2((150 - exponent) as nat) as int;
        vstd::arithmetic::power2::lemma_pow2_pos((150 - exponent) as nat);
        lemma_nearest_multiple_is_near(p, 0x4000);
        lemma_nearest_multiple_is_near(p, 0x8000);
        let q = top / step;
        assert(q * step <= top < (q + 1) * step) by (nonlinear_arith)
            requires
                step > 0,
                q == top / step,
        ;
    }
}

proof fn lemma_nearest_multiple_is_near(p: int, unit: int)
    requires
        unit > 0,
        p >= 0,
    ensures
        -unit <= 2 * (nearest_multiple(p, unit) - p) <= unit,
{
    let q = p / unit;
    let rest = p % unit;
    assert(p == q * unit + rest && 0 <= rest < unit) by (nonlinear_arith)
        requires
            unit > 0,
            q == p / unit,
            rest == p % unit,
    ;
    assert((q + 1) * unit == q * unit + unit) by (nonlinear_arith);
}

/// Turning a sample over turns its conversion over.
pub proof fn lemma_sample_is_odd(bits: u32)
    requires
        bits < 0x8000_0000,
    ensures
        sample_of((bits + 0x8000_0000) as u32) == -sample_of(bits),
{
    let turned = (bits + 0x8000_0000) as u32;
    lemma_sample_fits(bits);
    lemma_sample_fits(turned);
    assert(fraction_of(turned) == fraction_of(bits));
    assert(exponent_of(turned) == exponent_of(bits));
}

/// As long as no more than 96000 samples wait, none is dropped when more come
/// in; the samples that come are always kept, behind those that wait.
pub proof fn lemma_samples_wait(waiting: Seq<i16>, pcm: Seq<i16>)
    ensures
        waiting.len() + pcm.len() <= 96_000 ==> buffered(waiting, pcm) == waiting + pcm,
        buffered(waiting, pcm).len() >= pcm.len(),
        buffered(waiting, pcm).skip(buffered(waiting, pcm).len() - pcm.len()) == pcm,
        pcm.len() <= 96_000 ==> buffered(waiting, pcm).len() <= 96_000,
{
    let all = buffered(waiting, pcm);
    assert(all.skip(all.len() - pcm.len()) =~= pcm);
}

/// The channels of a decoded frame are all there, in order: samples of sixteen
/// bits as they are, single precision ones converted one by one.
pub proof fn lemma_channels_are_kept(
    floats: Vec<Vec<u32>>,
    signed: Vec<Vec<i16>>,
    ch: int,
    t: int,
)
    ensures
        planes_of(SamplePlanes::Float(floats)).len() == floats@.len(),
        0 <= ch < floats@.len() ==> planes_of(SamplePlanes::Float(floats))[ch].len()
            == floats@[ch]@.len(),
        0 <= ch < floats@.len() && 0 <= t < floats@[ch]@.len() ==> planes_of(
            SamplePlanes::Float(floats),
        )[ch][t] == sample_of(floats@[ch]@[t]),
        planes_of(SamplePlanes::Signed16(signed)).len() == signed@.len(),
        0 <= ch < signed@.len() ==> planes_of(SamplePlanes::Signed16(signed))[ch] == signed@[ch]@,
        planes_of(SamplePlanes::Other).len() == 0,
{
}

} // verus!
