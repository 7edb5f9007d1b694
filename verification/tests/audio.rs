//! The capture buffer and what is asked of the sound server.

use sinestesia::audio::{
    decode_samples, requested_format, requested_layout, stream_properties, takes_format, AudioBuffer, Channel, Media,
    Position, SampleFormat, StreamProperty,
};
use sinestesia::config::AudioSource;
use sinestesia::float::F32;

fn of(x: f32) -> F32 {
    F32 { bits: x.to_bits() }
}

fn all(xs: &[f32]) -> Vec<F32> {
    xs.iter().map(|x| of(*x)).collect()
}

fn shown(b: &AudioBuffer, c: Channel, n: usize) -> Vec<f32> {
    let mut out = vec![of(9.0); n];
    b.snapshot(c, &mut out);
    out.iter().map(|x| f32::from_bits(x.bits)).collect()
}

#[test]
fn stereo_frames_are_split() {
    let mut b = AudioBuffer::new(8);
    b.push_interleaved(&all(&[1.0, 10.0, 2.0, 20.0, 3.0, 30.0]), 2);
    assert_eq!(shown(&b, Channel::Left, 3), vec![1.0, 2.0, 3.0]);
    assert_eq!(shown(&b, Channel::Right, 3), vec![10.0, 20.0, 30.0]);
    assert_eq!(shown(&b, Channel::Right, 2), vec![20.0, 30.0]);
}

#[test]
fn missing_samples_are_zeros_on_the_left() {
    let mut b = AudioBuffer::new(8);
    assert_eq!(shown(&b, Channel::Left, 3), vec![0.0, 0.0, 0.0]);
    b.push_interleaved(&all(&[1.0, 10.0]), 2);
    assert_eq!(shown(&b, Channel::Left, 3), vec![0.0, 0.0, 1.0]);
    assert_eq!(shown(&b, Channel::Right, 3), vec![0.0, 0.0, 10.0]);
}

#[test]
fn mono_stands_on_both_sides() {
    let mut b = AudioBuffer::new(8);
    b.push_interleaved(&all(&[1.0, 2.0]), 1);
    assert_eq!(shown(&b, Channel::Left, 2), vec![1.0, 2.0]);
    assert_eq!(shown(&b, Channel::Right, 2), vec![1.0, 2.0]);
}

#[test]
fn further_channels_and_partial_frames_are_dropped() {
    let mut b = AudioBuffer::new(8);
    b.push_interleaved(&all(&[1.0, 2.0, 99.0, 3.0, 4.0, 99.0, 5.0]), 3);
    assert_eq!(shown(&b, Channel::Left, 2), vec![1.0, 3.0]);
    assert_eq!(shown(&b, Channel::Right, 2), vec![2.0, 4.0]);
    b.push_interleaved(&all(&[7.0, 8.0]), 0);
    assert_eq!(shown(&b, Channel::Left, 2), vec![1.0, 3.0]);
}

#[test]
fn the_oldest_samples_leave_first() {
    let mut b = AudioBuffer::new(3);
    b.push_interleaved(&all(&[1.0, 2.0, 3.0, 4.0]), 1);
    assert_eq!(shown(&b, Channel::Left, 4), vec![0.0, 2.0, 3.0, 4.0]);
    b.push_interleaved(&all(&[5.0, 6.0]), 1);
    assert_eq!(shown(&b, Channel::Left, 3), vec![4.0, 5.0, 6.0]);
    assert_eq!(shown(&b, Channel::Right, 3), vec![4.0, 5.0, 6.0]);
}

#[test]
fn two_blocks_are_one_long_block() {
    let mut one = AudioBuffer::new(5);
    let mut two = AudioBuffer::new(5);
    one.push_interleaved(&all(&[1.0, 2.0, 3.0, 4.0, 5.0, 6.0, 7.0, 8.0]), 2);
    two.push_interleaved(&all(&[1.0, 2.0, 3.0, 4.0]), 2);
    two.push_interleaved(&all(&[5.0, 6.0, 7.0, 8.0]), 2);
    assert_eq!(shown(&one, Channel::Left, 5), shown(&two, Channel::Left, 5));
    assert_eq!(shown(&one, Channel::Right, 5), shown(&two, Channel::Right, 5));
}

#[test]
fn raw_bytes_are_little_endian_numbers() {
    let mut bytes = Vec::new();
    for x in [0.25f32, -3.5, 1e-30, 7.0] {
        bytes.extend_from_slice(&x.to_le_bytes());
    }
    let read: Vec<u32> = decode_samples(&bytes, 16).iter().map(|x| x.bits).collect();
    assert_eq!(read, vec![0.25f32.to_bits(), (-3.5f32).to_bits(), 1e-30f32.to_bits(), 7.0f32.to_bits()]);
    // The block says how much of it is meant, in whole numbers.
    assert_eq!(decode_samples(&bytes, 11).len(), 2);
    assert_eq!(decode_samples(&bytes, 3).len(), 0);
    assert_eq!(decode_samples(&bytes, 4096).len(), 4);
    let mut b = AudioBuffer::new(8);
    b.process(&bytes, 16, 2);
    assert_eq!(shown(&b, Channel::Left, 2), vec![0.25, 1e-30]);
    assert_eq!(shown(&b, Channel::Right, 2), vec![-3.5, 7.0]);
    // Without a known format the stream is mono.
    let mut m = AudioBuffer::new(8);
    m.process(&bytes, 8, 0);
    assert_eq!(shown(&m, Channel::Right, 2), vec![0.25, -3.5]);
}

#[test]
fn output_is_heard_at_the_monitor() {
    let input = stream_properties(AudioSource::Input);
    let output = stream_properties(AudioSource::Output);
    assert_eq!(input.len(), 4);
    assert!(!input.contains(&StreamProperty::CaptureSink));
    assert_eq!(output[..4], input[..]);
    assert_eq!(output[4], StreamProperty::CaptureSink);
    assert_eq!(requested_format(), (48_000, 2));
    let (format, positions) = requested_layout();
    assert_eq!(format, SampleFormat::FloatLittleEndian);
    assert_eq!(positions, vec![Position::FrontLeft, Position::FrontRight]);
}

#[test]
fn only_raw_audio_formats_are_taken() {
    let raw = Some(Media { audio: true, raw: true });
    assert!(takes_format(4, 4, raw));
    assert!(!takes_format(3, 4, raw));
    assert!(!takes_format(4, 4, None));
    assert!(!takes_format(4, 4, Some(Media { audio: true, raw: false })));
    assert!(!takes_format(4, 4, Some(Media { audio: false, raw: true })));
}
