//! 16-bit PCM sample conversion and the WAV container layout.

use vstd::prelude::*;
use crate::meter::SAMPLE_SCALE;

verus! {

use vstd::arithmetic::div_mod::lemma_div_is_ordered;
use vstd::arithmetic::div_mod::lemma_div_multiples_vanish;
use vstd::arithmetic::div_mod::lemma_div_pos_is_pos;

/// A sample value that can be rendered as a signed 16-bit PCM sample.
pub trait Sample {
    spec fn to_i16_spec(&self) -> i16;

    fn to_i16(&self) -> (r: i16)
        ensures
            r == self.to_i16_spec(),
    ;
}

impl Sample for i16 {
    open spec fn to_i16_spec(&self) -> i16 {
        *self
    }

    fn to_i16(&self) -> (r: i16) {
        *self
    }
}

/// The PCM image of a fixed-point sample: clamped to full scale
/// ([−1, 1] in amplitude), scaled to the 16-bit range, truncated toward
/// zero.  Full scale maps to 32767 and negative full scale to −32767,
/// never −32768.
pub open spec fn pcm_of_fixed(v: int) -> int {
    let c = if v > SAMPLE_SCALE as int {
        SAMPLE_SCALE as int
    } else if v < -(SAMPLE_SCALE as int) {
        -(SAMPLE_SCALE as int)
    } else {
        v
    };
    if c >= 0 {
        (c * 32767) / (SAMPLE_SCALE as int)
    } else {
        -(((-c) * 32767) / (SAMPLE_SCALE as int))
    }
}

/// A mono sample on the library's fixed-point amplitude scale.
#[derive(Clone, Copy, Debug, PartialEq, Eq, Structural)]
pub struct FixedSample {
    pub value: i64,
}

impl Sample for FixedSample {
    open spec fn to_i16_spec(&self) -> i16 {
        pcm_of_fixed(self.value as int) as i16
    }

    fn to_i16(&self) -> (r: i16) {
        let v: i64 = self.value;
        let c: i64 = if v > SAMPLE_SCALE {
            SAMPLE_SCALE
        } else if v < -SAMPLE_SCALE {
            -SAMPLE_SCALE
        } else {
            v
        };
        if c >= 0 {
            let q: u64 = ((c as u64) * 32767) / (SAMPLE_SCALE as u64);
            proof {
                lemma_div_is_ordered(
                    c as int * 32767,
                    SAMPLE_SCALE as int * 32767,
                    SAMPLE_SCALE as int,
                );
                lemma_div_multiples_vanish(32767, SAMPLE_SCALE as int);
                lemma_div_pos_is_pos(c as int * 32767, SAMPLE_SCALE as int);
            }
            q as i16
        } else {
            let m: u64 = (((-c) as u64) * 32767) / (SAMPLE_SCALE as u64);
            proof {
                lemma_div_is_ordered(
                    (-c) as int * 32767,
                    SAMPLE_SCALE as int * 32767,
                    SAMPLE_SCALE as int,
                );
                lemma_div_multiples_vanish(32767, SAMPLE_SCALE as int);
                lemma_div_pos_is_pos((-c) as int * 32767, SAMPLE_SCALE as int);
            }
            -(m as i16)
        }
    }
}

/// The conversion boundary: full scale encodes to 32767, negative full
/// scale to −32767 by the clamp-then-scale rule, and values beyond full
/// scale clamp before scaling.
pub proof fn lemma_pcm_conversion_boundary()
    ensures
        pcm_of_fixed(SAMPLE_SCALE as int) == 32767,
        pcm_of_fixed(-(SAMPLE_SCALE as int)) == -32767,
        forall|v: int| v > SAMPLE_SCALE as int ==> #[trigger] pcm_of_fixed(v) == 32767,
        forall|v: int| v < -(SAMPLE_SCALE as int) ==> #[trigger] pcm_of_fixed(v) == -32767,
        pcm_of_fixed(0) == 0,
{
    lemma_div_multiples_vanish(32767, SAMPLE_SCALE as int);
    lemma_div_pos_is_pos(0, SAMPLE_SCALE as int);
    assert(0int * 32767 == 0);
    assert((0int * 32767) / (SAMPLE_SCALE as int) <= 0) by {
        lemma_div_is_ordered(0int * 32767, 0, SAMPLE_SCALE as int);
        assert(0int / (SAMPLE_SCALE as int) == 0) by {
            lemma_div_multiples_vanish(0, SAMPLE_SCALE as int);
        }
    }
}

/// The two bytes of `x`, least significant first.
pub open spec fn u16_le(x: u16) -> Seq<u8> {
    seq![(x & 0xff) as u8, ((x >> 8) & 0xff) as u8]
}

/// The four bytes of `x`, least significant first.
pub open spec fn u32_le(x: u32) -> Seq<u8> {
    seq![
        (x & 0xff) as u8,
        ((x >> 8) & 0xff) as u8,
        ((x >> 16) & 0xff) as u8,
        ((x >> 24) & 0xff) as u8,
    ]
}

/// A signed sample is serialized as the two's-complement bit pattern,
/// least significant byte first.
pub open spec fn i16_le(x: i16) -> Seq<u8> {
    u16_le(x as u16)
}

fn push_u16_le(w: &mut Vec<u8>, x: u16)
    ensures
        final(w)@ == old(w)@ + u16_le(x),
{
    w.push((x & 0xff) as u8);
    w.push(((x >> 8) & 0xff) as u8);
    proof {
        assert(w@ =~= old(w)@ + u16_le(x));
    }
}

fn push_u32_le(w: &mut Vec<u8>, x: u32)
    ensures
        final(w)@ == old(w)@ + u32_le(x),
{
    w.push((x & 0xff) as u8);
    w.push(((x >> 8) & 0xff) as u8);
    w.push(((x >> 16) & 0xff) as u8);
    w.push(((x >> 24) & 0xff) as u8);
    proof {
        assert(w@ =~= old(w)@ + u32_le(x));
    }
}

fn push_i16_le(w: &mut Vec<u8>, x: i16)
    ensures
        final(w)@ == old(w)@ + i16_le(x),
{
    push_u16_le(w, x as u16);
}

/// The 44-byte container header for `n_samples` mono 16-bit samples:
/// outer id "RIFF", outer length, outer type "WAVE", then the format
/// sub-block "fmt " (PCM, one channel, the rate and the derived byte
/// rate and block alignment), then the data sub-block id "data" with
/// the data byte length.  All multi-byte fields little-endian.
pub open spec fn wav_header(n_samples: int, sample_rate: u32) -> Seq<u8>
    recommends
        2 * n_samples + 44 <= 0xffff_ffff,
        2 * sample_rate <= 0xffff_ffff,
{
    seq![0x52u8, 0x49u8, 0x46u8, 0x46u8]  // "RIFF"
    + u32_le(((36 + 2 * n_samples)) as u32)
    + seq![0x57u8, 0x41u8, 0x56u8, 0x45u8]  // "WAVE"
    + seq![0x66u8, 0x6du8, 0x74u8, 0x20u8]  // "fmt "
    + u32_le(16u32)  // format sub-block length
    + u16_le(1u16)  // encoding: PCM
    + u16_le(1u16)  // channels
    + u32_le(sample_rate)
    + u32_le(((2 * sample_rate)) as u32)  // byte rate
    + u16_le(2u16)  // block alignment
    + u16_le(16u16)  // bits per sample
    + seq![0x64u8, 0x61u8, 0x74u8, 0x61u8]  // "data"
    + u32_le(((2 * n_samples)) as u32)
}

/// The data sub-block payload: each sample rendered as a 16-bit
/// little-endian PCM value, in order.
pub open spec fn pcm_data<S: Sample>(samples: Seq<S>) -> Seq<u8>
    decreases samples.len(),
{
    if samples.len() == 0 {
        Seq::empty()
    } else {
        i16_le(samples[0].to_i16_spec()) + pcm_data(samples.drop_first())
    }
}

/// The whole byte stream: header then payload.
pub open spec fn wav_bytes<S: Sample>(samples: Seq<S>, sample_rate: u32) -> Seq<u8> {
    wav_header(samples.len() as int, sample_rate) + pcm_data(samples)
}

pub proof fn lemma_pcm_data_push<S: Sample>(s: Seq<S>, x: S)
    ensures
        pcm_data(s.push(x)) == pcm_data(s) + i16_le(x.to_i16_spec()),
    decreases s.len(),
{
    if s.len() == 0 {
        assert(s.push(x).drop_first() =~= Seq::<S>::empty());
        assert(s.push(x)[0] == x);
        assert(pcm_data(Seq::<S>::empty()) == Seq::<u8>::empty());
        assert(pcm_data(s.push(x)) =~= pcm_data(s) + i16_le(x.to_i16_spec()));
    } else {
        assert(s.push(x).drop_first() =~= s.drop_first().push(x));
        lemma_pcm_data_push(s.drop_first(), x);
        assert(s.push(x)[0] == s[0]);
        assert(pcm_data(s.push(x)) == i16_le(s[0].to_i16_spec()) + (pcm_data(s.drop_first())
            + i16_le(x.to_i16_spec())));
        assert(pcm_data(s.push(x)) =~= pcm_data(s) + i16_le(x.to_i16_spec()));
    }
}

pub proof fn lemma_pcm_data_len<S: Sample>(s: Seq<S>)
    ensures
        pcm_data(s).len() == 2 * s.len(),
    decreases s.len(),
{
    if s.len() > 0 {
        lemma_pcm_data_len(s.drop_first());
    }
}

/// The value encoded by two bytes read as a little-endian unsigned
/// 16-bit integer.
pub open spec fn u16_from_le(b0: u8, b1: u8) -> u16 {
    (b0 + 256 * b1) as u16
}

/// The value encoded by two bytes read as a little-endian two's-complement
/// 16-bit integer.
pub open spec fn i16_from_le(b0: u8, b1: u8) -> i16 {
    u16_from_le(b0, b1) as i16
}

pub proof fn lemma_u16_le_round_trip(x: u16)
    ensures
        u16_from_le(u16_le(x)[0], u16_le(x)[1]) == x,
{
    let b0 = (x & 0xff) as u8;
    let b1 = ((x >> 8) & 0xff) as u8;
    assert(b0 as u16 + 256 * (b1 as u16) == x) by (bit_vector)
        requires
            b0 == (x & 0xff) as u8,
            b1 == ((x >> 8) & 0xff) as u8,
    ;
}

pub proof fn lemma_i16_le_round_trip(x: i16)
    ensures
        i16_from_le(i16_le(x)[0], i16_le(x)[1]) == x,
{
    lemma_u16_le_round_trip(x as u16);
    assert((x as u16) as i16 == x) by (bit_vector);
}

/// The two bytes of the `k`-th sample stand at offsets `2k` and `2k + 1`
/// of the data payload.
pub proof fn lemma_pcm_data_index<S: Sample>(s: Seq<S>, k: int)
    requires
        0 <= k < s.len(),
    ensures
        pcm_data(s)[2 * k] == i16_le(s[k].to_i16_spec())[0],
        pcm_data(s)[2 * k + 1] == i16_le(s[k].to_i16_spec())[1],
    decreases s.len(),
{
    lemma_pcm_data_len(s.drop_first());
    if k == 0 {
    } else {
        lemma_pcm_data_index(s.drop_first(), k - 1);
        assert(s.drop_first()[k - 1] == s[k]);
        assert(pcm_data(s)[2 * k] == pcm_data(s.drop_first())[2 * (k - 1)]);
        assert(pcm_data(s)[2 * k + 1] == pcm_data(s.drop_first())[2 * (k - 1) + 1]);
    }
}

/// The container round trip: the stream built for `N` samples at rate `R`
/// is `44 + 2N` bytes long; its declared data length is `2N`, its
/// declared outer length `36 + 2N`, and its declared byte rate `2R`; and
/// reading the payload back as little-endian 16-bit integers reproduces
/// every sample exactly.
pub proof fn lemma_wav_round_trip<S: Sample>(samples: Seq<S>, sample_rate: u32)
    requires
        2 * samples.len() + 44 <= 0xffff_ffff,
        2 * sample_rate <= 0xffff_ffff,
    ensures
        wav_bytes(samples, sample_rate).len() == 44 + 2 * samples.len(),
        wav_bytes(samples, sample_rate).subrange(40, 44) == u32_le((2 * samples.len()) as u32),
        wav_bytes(samples, sample_rate).subrange(4, 8) == u32_le((36 + 2 * samples.len()) as u32),
        wav_bytes(samples, sample_rate).subrange(28, 32) == u32_le(
            (2 * sample_rate as int) as u32,
        ),
        forall|k: int|
            0 <= k < samples.len() ==> i16_from_le(
                wav_bytes(samples, sample_rate)[44 + 2 * k],
                wav_bytes(samples, sample_rate)[45 + 2 * k],
            ) == #[trigger] samples[k].to_i16_spec(),
{
    let b = wav_bytes(samples, sample_rate);
    let h = wav_header(samples.len() as int, sample_rate);
    lemma_pcm_data_len(samples);
    assert(h.len() == 44);
    assert(b.subrange(40, 44) =~= u32_le((2 * samples.len()) as u32));
    assert(b.subrange(4, 8) =~= u32_le((36 + 2 * samples.len()) as u32));
    assert(b.subrange(28, 32) =~= u32_le((2 * sample_rate as int) as u32));
    assert forall|k: int| 0 <= k < samples.len() implies i16_from_le(
        b[44 + 2 * k],
        b[45 + 2 * k],
    ) == #[trigger] samples[k].to_i16_spec() by {
        lemma_pcm_data_index(samples, k);
        assert(b[44 + 2 * k] == pcm_data(samples)[2 * k]);
        assert(b[45 + 2 * k] == pcm_data(samples)[2 * k + 1]);
        lemma_i16_le_round_trip(samples[k].to_i16_spec());
    }
}

/// Appends to `w` the complete container stream for `samples` at
/// `sample_rate`: the 44-byte header, then every sample as 16-bit
/// little-endian PCM.  The bounds keep the 32-bit length and byte-rate
/// header fields exact.
#[verifier::rlimit(100)]
pub fn write_pcm_as_wav<S: Sample>(w: &mut Vec<u8>, samples: &[S], sample_rate: u32)
    requires
        2 * samples@.len() + 44 <= 0xffff_ffff,
        2 * sample_rate <= 0xffff_ffff,
    ensures
        final(w)@ == old(w)@ + wav_bytes(samples@, sample_rate),
{
    let n: usize = samples.len();
    let data_len: u32 = 2 * (n as u32);
    w.push(0x52u8);
    w.push(0x49u8);
    w.push(0x46u8);
    w.push(0x46u8);
    push_u32_le(w, 36 + data_len);
    w.push(0x57u8);
    w.push(0x41u8);
    w.push(0x56u8);
    w.push(0x45u8);
    w.push(0x66u8);
    w.push(0x6du8);
    w.push(0x74u8);
    w.push(0x20u8);
    push_u32_le(w, 16);
    push_u16_le(w, 1);
    push_u16_le(w, 1);
    push_u32_le(w, sample_rate);
    push_u32_le(w, 2 * sample_rate);
    push_u16_le(w, 2);
    push_u16_le(w, 16);
    w.push(0x64u8);
    w.push(0x61u8);
    w.push(0x74u8);
    w.push(0x61u8);
    push_u32_le(w, data_len);
    proof {
        assert(w@ =~= old(w)@ + wav_header(samples@.len() as int, sample_rate));
    }
    let ghost header_done = w@;
    let mut i: usize = 0;
    while i < n
        invariant
            n == samples@.len(),
            0 <= i <= n,
            header_done == old(w)@ + wav_header(samples@.len() as int, sample_rate),
            w@ == header_done + pcm_data(samples@.take(i as int)),
        decreases n - i,
    {
        let s: i16 = samples[i].to_i16();
        push_i16_le(w, s);
        proof {
            assert(samples@.take(i + 1 as int) =~= samples@.take(i as int).push(samples@[i as int]));
            lemma_pcm_data_push(samples@.take(i as int), samples@[i as int]);
        }
        i = i + 1;
    }
    proof {
        assert(samples@.take(n as int) =~= samples@);
        assert(w@ =~= old(w)@ + wav_bytes(samples@, sample_rate));
    }
}

} // verus!
