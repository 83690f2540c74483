use loudnorm::meter::SAMPLE_SCALE;
use loudnorm::pcm::write_pcm_as_wav;
use loudnorm::pcm::FixedSample;
use loudnorm::pcm::Sample;

fn wav_of(samples: &[i16], rate: u32) -> Vec<u8> {
    let mut w: Vec<u8> = Vec::new();
    write_pcm_as_wav(&mut w, samples, rate);
    w
}

#[test]
fn header_layout_exact() {
    let b = wav_of(&[0, 1, -1, 32767, -32768], 44100);
    assert_eq!(b.len(), 44 + 10);
    assert_eq!(&b[0..4], b"RIFF");
    assert_eq!(&b[4..8], &46u32.to_le_bytes());
    assert_eq!(&b[8..12], b"WAVE");
    assert_eq!(&b[12..16], b"fmt ");
    assert_eq!(&b[16..20], &16u32.to_le_bytes());
    assert_eq!(&b[20..22], &1u16.to_le_bytes());
    assert_eq!(&b[22..24], &1u16.to_le_bytes());
    assert_eq!(&b[24..28], &44100u32.to_le_bytes());
    assert_eq!(&b[28..32], &88200u32.to_le_bytes());
    assert_eq!(&b[32..34], &2u16.to_le_bytes());
    assert_eq!(&b[34..36], &16u16.to_le_bytes());
    assert_eq!(&b[36..40], b"data");
    assert_eq!(&b[40..44], &10u32.to_le_bytes());
    assert_eq!(&b[44..46], &0i16.to_le_bytes());
    assert_eq!(&b[46..48], &1i16.to_le_bytes());
    assert_eq!(&b[48..50], &(-1i16).to_le_bytes());
    assert_eq!(&b[50..52], &32767i16.to_le_bytes());
    assert_eq!(&b[52..54], &(-32768i16).to_le_bytes());
}

#[test]
fn empty_stream_is_header_only() {
    let b = wav_of(&[], 8000);
    assert_eq!(b.len(), 44);
    assert_eq!(&b[4..8], &36u32.to_le_bytes());
    assert_eq!(&b[40..44], &0u32.to_le_bytes());
}

#[test]
fn one_second_at_48k_is_96044_bytes() {
    let samples = vec![0i16; 48000];
    let b = wav_of(&samples, 48000);
    assert_eq!(b.len(), 96044);
    assert_eq!(&b[4..8], &96036u32.to_le_bytes());
    assert_eq!(&b[40..44], &96000u32.to_le_bytes());
    assert_eq!(&b[28..32], &96000u32.to_le_bytes());
}

#[test]
fn round_trip_decode() {
    let samples: Vec<i16> = vec![5, -5, 1234, -1234, 32767, -32767, 0];
    let b = wav_of(&samples, 8000);
    let declared = u32::from_le_bytes([b[40], b[41], b[42], b[43]]) as usize;
    assert_eq!(declared, 2 * samples.len());
    let mut decoded: Vec<i16> = Vec::new();
    for k in 0..samples.len() {
        decoded.push(i16::from_le_bytes([b[44 + 2 * k], b[45 + 2 * k]]));
    }
    assert_eq!(decoded, samples);
}

#[test]
fn i16_sample_passes_through() {
    assert_eq!(Sample::to_i16(&-42i16), -42);
    assert_eq!(Sample::to_i16(&32767i16), 32767);
}

#[test]
fn fixed_sample_conversion_boundary() {
    let fs = |v: i64| FixedSample { value: v }.to_i16();
    assert_eq!(fs(SAMPLE_SCALE), 32767);
    assert_eq!(fs(-SAMPLE_SCALE), -32767);
    assert_eq!(fs(10 * SAMPLE_SCALE), 32767);
    assert_eq!(fs(-10 * SAMPLE_SCALE), -32767);
    assert_eq!(fs(0), 0);
    assert_eq!(fs(SAMPLE_SCALE / 2), 16383);
    assert_eq!(fs(-(SAMPLE_SCALE / 2)), -16383);
}

#[test]
fn wav_of_fixed_samples() {
    let mut w: Vec<u8> = Vec::new();
    write_pcm_as_wav(&mut w, &[FixedSample { value: SAMPLE_SCALE }], 8000);
    assert_eq!(&w[44..46], &32767i16.to_le_bytes());
}

#[test]
fn append_preserves_existing_bytes() {
    let mut w: Vec<u8> = vec![9, 9];
    write_pcm_as_wav(&mut w, &[7i16], 8000);
    assert_eq!(&w[0..2], &[9, 9]);
    assert_eq!(&w[2..6], b"RIFF");
    assert_eq!(w.len(), 2 + 44 + 2);
}
