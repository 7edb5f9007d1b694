//! Captured audio: the stereo ring buffer, and what the capture callbacks decide.

use crate::bands::SAMPLE_RATE;
use crate::config::AudioSource;
use crate::float::F32;
use std::collections::VecDeque;
use vstd::arithmetic::div_mod::{lemma_fundamental_div_mod, lemma_fundamental_div_mod_converse};
use vstd::prelude::*;

verus! {

/// Channels asked of the sound server.
pub const CHANNELS: u32 = 2;

/// An audio channel.
#[derive(Debug, Clone, Copy, PartialEq, Eq, Structural)]
pub enum Channel {
    Left,
    Right,
}

/// A ring buffer for the two channels. The lock that shares it between threads
/// is the caller's.
pub struct AudioBuffer {
    left: VecDeque<F32>,
    right: VecDeque<F32>,
    capacity: usize,
}

/// The newest `n` samples of a stream, in order of arrival.
pub open spec fn newest(s: Seq<F32>, n: int) -> Seq<F32> {
    if s.len() <= n {
        s
    } else {
        s.skip(s.len() - n)
    }
}

/// The newest `n` samples of a stream, with silence before them where the stream
/// is shorter.
pub open spec fn padded(s: Seq<F32>, n: int) -> Seq<F32> {
    if s.len() >= n {
        newest(s, n)
    } else {
        Seq::new((n - s.len()) as nat, |i: int| F32::nought()) + s
    }
}

/// What channel `c` hears of `data`, which holds `n` samples per frame: the first
/// of each frame on the left, the second, or else the first, on the right.
pub open spec fn channel_of(data: Seq<F32>, n: int, c: Channel) -> Seq<F32> {
    if n <= 0 {
        Seq::empty()
    } else {
        let k: int = if c == Channel::Right && n >= 2 {
            1
        } else {
            0
        };
        Seq::new((data.len() as int / n) as nat, |f: int| data[f * n + k])
    }
}

impl AudioBuffer {
    /// The samples that channel `c` holds, oldest first.
    pub closed spec fn channel(self, c: Channel) -> Seq<F32> {
        match c {
            Channel::Left => self.left@,
            Channel::Right => self.right@,
        }
    }

    /// How many samples a channel can hold.
    pub closed spec fn room(self) -> nat {
        self.capacity as nat
    }

    /// Both channels hold as many samples, and no more than there is room for.
    pub open spec fn wf(self) -> bool {
        &&& self.channel(Channel::Left).len() == self.channel(Channel::Right).len()
        &&& self.channel(Channel::Left).len() <= self.room()
    }

    /// An empty buffer for `capacity` samples per channel.
    pub fn new(capacity: usize) -> (r: AudioBuffer)
        ensures
            r.wf(),
            r.room() == capacity,
            r.channel(Channel::Left) == Seq::<F32>::empty(),
            r.channel(Channel::Right) == Seq::<F32>::empty(),
    {
        AudioBuffer { left: VecDeque::new(), right: VecDeque::new(), capacity }
    }

    /// Adds a block of interleaved samples, `n_channels` per frame. The oldest
    /// samples leave where there is no more room.
    pub fn push_interleaved(&mut self, data: &[F32], n_channels: usize)
        requires
            old(self).wf(),
        ensures
            final(self).wf(),
            final(self).room() == old(self).room(),
            forall|c: Channel| #[trigger]
                final(self).channel(c) == newest(
                    old(self).channel(c) + channel_of(data@, n_channels as int, c),
                    old(self).room() as int,
                ),
    {
        if n_channels == 0 {
            assert forall|c: Channel| #[trigger]
                self.channel(c) == newest(
                    old(self).channel(c) + channel_of(data@, n_channels as int, c),
                    old(self).room() as int,
                ) by {
                assert(self.channel(c) + Seq::<F32>::empty() =~= self.channel(c));
            }
            return;
        }
        let frames: usize = data.len() / n_channels;
        let ghost l = channel_of(data@, n_channels as int, Channel::Left);
        let ghost r = channel_of(data@, n_channels as int, Channel::Right);
        assert(frames * n_channels <= data.len()) by (nonlinear_arith)
            requires frames == data.len() as int / n_channels as int, n_channels > 0;
        let mut f: usize = 0;
        assert(l.subrange(0, 0) =~= Seq::<F32>::empty());
        assert(r.subrange(0, 0) =~= Seq::<F32>::empty());
        assert(old(self).left@ + Seq::<F32>::empty() =~= old(self).left@);
        assert(old(self).right@ + Seq::<F32>::empty() =~= old(self).right@);
        while f < frames
            invariant
                f <= frames,
                n_channels > 0,
                frames == data.len() as int / n_channels as int,
                frames * n_channels <= data.len(),
                l == channel_of(data@, n_channels as int, Channel::Left),
                r == channel_of(data@, n_channels as int, Channel::Right),
                self.capacity == old(self).capacity,
                self.left@ == old(self).left@ + l.subrange(0, f as int),
                self.right@ == old(self).right@ + r.subrange(0, f as int),
            decreases frames - f,
        {
            assert(f * n_channels + n_channels <= frames * n_channels) by (nonlinear_arith)
                requires f + 1 <= frames, n_channels > 0;
            let base: usize = f * n_channels;
            let first = data[base];
            let second = if n_channels >= 2 {
                data[base + 1]
            } else {
                first
            };
            self.left.push_back(first);
            self.right.push_back(second);
            assert(l.subrange(0, f + 1) =~= l.subrange(0, f as int).push(first));
            assert(r.subrange(0, f + 1) =~= r.subrange(0, f as int).push(second));
            assert(self.left@ =~= old(self).left@ + l.subrange(0, f + 1));
            assert(self.right@ =~= old(self).right@ + r.subrange(0, f + 1));
            f = f + 1;
        }
        assert(l.subrange(0, frames as int) =~= l);
        assert(r.subrange(0, frames as int) =~= r);
        let ghost full_l = self.left@;
        let ghost full_r = self.right@;
        let ghost mut gone: int = 0;
        assert(full_l.skip(0) =~= full_l);
        assert(full_r.skip(0) =~= full_r);
        while self.left.len() > self.capacity
            invariant
                self.capacity == old(self).capacity,
                full_l.len() == full_r.len(),
                0 <= gone <= full_l.len(),
                gone > 0 ==> full_l.len() - gone >= self.capacity,
                self.left@ == full_l.skip(gone),
                self.right@ == full_r.skip(gone),
            decreases self.left@.len(),
        {
            self.left.pop_front();
            self.right.pop_front();
            proof {
                assert(full_l.skip(gone).subrange(1, full_l.len() - gone) =~= full_l.skip(gone + 1));
                assert(full_r.skip(gone).subrange(1, full_r.len() - gone) =~= full_r.skip(gone + 1));
                gone = gone + 1;
            }
        }
        assert forall|c: Channel| #[trigger]
            self.channel(c) == newest(
                old(self).channel(c) + channel_of(data@, n_channels as int, c),
                old(self).room() as int,
            ) by {
            match c {
                Channel::Left => {},
                Channel::Right => {},
            }
        }
    }

    /// Copies the newest samples of a channel into `out`, with zeros before them
    /// where there are not enough.
    pub fn snapshot(&self, channel: Channel, out: &mut [F32])
        ensures
            final(out)@ == padded(self.channel(channel), old(out)@.len() as int),
    {
        let src = match channel {
            Channel::Left => &self.left,
            Channel::Right => &self.right,
        };
        let n: usize = out.len();
        let available: usize = src.len();
        let ghost target = padded(src@, n as int);
        let pad: usize = if available >= n {
            0
        } else {
            n - available
        };
        let start: usize = if available >= n {
            available - n
        } else {
            0
        };
        let mut i: usize = 0;
        while i < n
            invariant
                i <= n,
                n == out@.len(),
                available == src@.len(),
                target == padded(src@, n as int),
                target.len() == n,
                pad == if available >= n { 0int } else { n - available },
                start == if available >= n { available - n } else { 0int },
                forall|j: int| 0 <= j < i ==> out@[j] == target[j],
            decreases n - i,
        {
            let s = if i < pad {
                F32::zero()
            } else {
                src[start + (i - pad)]
            };
            out[i] = s;
            i = i + 1;
        }
        assert(out@ =~= target);
    }

    /// Takes in a block of raw bytes from the sound server: `chunk_size` of them
    /// are meant, in frames of `channels` samples (one where the format is not
    /// known yet).
    pub fn process(&mut self, bytes: &[u8], chunk_size: usize, channels: u32)
        requires
            old(self).wf(),
        ensures
            final(self).wf(),
            final(self).room() == old(self).room(),
            forall|c: Channel| #[trigger]
                final(self).channel(c) == newest(
                    old(self).channel(c) + channel_of(
                        samples_of(bytes@, chunk_size as int),
                        frame_width(channels as int),
                        c,
                    ),
                    old(self).room() as int,
                ),
    {
        let width: usize = if channels == 0 {
            1
        } else {
            channels as usize
        };
        let samples = decode_samples(bytes, chunk_size);
        self.push_interleaved(samples.as_slice(), width);
    }
}

/// Samples per frame: at least one.
pub open spec fn frame_width(channels: int) -> int {
    if channels < 1 {
        1
    } else {
        channels
    }
}

/// The samples in the first `chunk_size` bytes of `bytes`, four little-endian
/// bytes each.
pub open spec fn samples_of(bytes: Seq<u8>, chunk_size: int) -> Seq<F32> {
    let limit = if chunk_size / 4 < bytes.len() as int / 4 {
        chunk_size / 4
    } else {
        bytes.len() as int / 4
    };
    Seq::new(limit as nat, |i: int| sample_at(bytes, i))
}

/// Sample `i` of a run of little-endian bytes.
pub open spec fn sample_at(bytes: Seq<u8>, i: int) -> F32 {
    F32 {
        bits: (bytes[4 * i] + 0x100 * bytes[4 * i + 1] + 0x1_0000 * bytes[4 * i + 2] + 0x100_0000
            * bytes[4 * i + 3]) as u32,
    }
}

/// Reads samples off a block of bytes, of which `chunk_size` are meant.
pub fn decode_samples(bytes: &[u8], chunk_size: usize) -> (r: Vec<F32>)
    ensures
        r@ == samples_of(bytes@, chunk_size as int),
{
    let n: usize = if chunk_size / 4 < bytes.len() / 4 {
        chunk_size / 4
    } else {
        bytes.len() / 4
    };
    let mut r: Vec<F32> = Vec::new();
    let mut i: usize = 0;
    while i < n
        invariant
            i <= n,
            4 * n <= bytes.len(),
            r@.len() == i,
            forall|j: int| 0 <= j < i ==> r@[j] == sample_at(bytes@, j),
        decreases n - i,
    {
        let bits: u32 = bytes[4 * i] as u32 + 0x100 * bytes[4 * i + 1] as u32 + 0x1_0000 * bytes[4 * i
            + 2] as u32 + 0x100_0000 * bytes[4 * i + 3] as u32;
        r.push(F32 { bits });
        i = i + 1;
    }
    assert(r@ =~= samples_of(bytes@, chunk_size as int));
    r
}

/// Two blocks one after the other leave what their concatenation leaves, if the
/// first ends with a whole frame.
pub proof fn law_blocks_join(history: Seq<F32>, a: Seq<F32>, b: Seq<F32>, n: int, c: Channel, room: nat)
    requires
        n > 0,
        a.len() as int % n == 0,
    ensures
        newest(
            newest(history + channel_of(a, n, c), room as int) + channel_of(b, n, c),
            room as int,
        ) == newest(history + channel_of(a + b, n, c), room as int),
{
    let x = channel_of(a, n, c);
    let y = channel_of(b, n, c);
    let fa = a.len() as int / n;
    let fb = b.len() as int / n;
    lemma_fundamental_div_mod(a.len() as int, n);
    lemma_fundamental_div_mod(b.len() as int, n);
    assert((a + b).len() == (fa + fb) * n + b.len() as int % n) by (nonlinear_arith)
        requires
            (a + b).len() == a.len() + b.len(),
            a.len() == n * fa,
            b.len() == n * fb + b.len() as int % n,
    ;
    lemma_fundamental_div_mod_converse(
        (a + b).len() as int,
        n,
        fa + fb,
        b.len() as int % n,
    );
    assert(channel_of(a + b, n, c) =~= x + y) by {
        let k: int = if c == Channel::Right && n >= 2 {
            1
        } else {
            0
        };
        assert forall|f: int| 0 <= f < fa + fb implies channel_of(a + b, n, c)[f] == (x + y)[f] by {
            if f < fa {
                assert(f * n + n <= a.len()) by (nonlinear_arith)
                    requires f + 1 <= fa, a.len() == n * fa, n > 0;
                assert(0 <= f * n) by (nonlinear_arith)
                    requires f >= 0, n > 0;
            } else {
                assert(f * n == a.len() + (f - fa) * n) by (nonlinear_arith)
                    requires a.len() == n * fa;
                assert((f - fa) * n + n <= n * fb) by (nonlinear_arith)
                    requires f - fa + 1 <= fb, n > 0;
                assert(0 <= (f - fa) * n) by (nonlinear_arith)
                    requires f >= fa, n > 0;
            }
        }
    }
    let s = history + x;
    assert(history + (x + y) =~= s + y);
    assert(newest(newest(s, room as int) + y, room as int) =~= newest(s + y, room as int));
}

/// A window that fits in the buffer shows the end of the whole stream, however
/// much of it has left the buffer.
pub proof fn law_window_sees_stream(stream: Seq<F32>, room: nat, n: nat)
    requires
        n <= room,
    ensures
        padded(newest(stream, room as int), n as int) == padded(stream, n as int),
{
    assert(padded(newest(stream, room as int), n as int) =~= padded(stream, n as int));
}

/// A property asked of the sound server for the capture stream.
#[derive(Debug, Clone, Copy, PartialEq, Eq, Structural)]
pub enum StreamProperty {
    /// The stream carries audio.
    MediaTypeAudio,
    /// It captures.
    MediaCategoryCapture,
    /// It is music.
    MediaRoleMusic,
    /// The name of the node is that of the program.
    NodeName,
    /// It listens to what goes out, not to what comes in.
    CaptureSink,
}

/// Properties of the capture stream: what goes out is heard at the sink's monitor.
pub fn stream_properties(source: AudioSource) -> (r: Vec<StreamProperty>)
    ensures
        source == AudioSource::Input ==> r@ == seq![
            StreamProperty::MediaTypeAudio,
            StreamProperty::MediaCategoryCapture,
            StreamProperty::MediaRoleMusic,
            StreamProperty::NodeName,
        ],
        source == AudioSource::Output ==> r@ == seq![
            StreamProperty::MediaTypeAudio,
            StreamProperty::MediaCategoryCapture,
            StreamProperty::MediaRoleMusic,
            StreamProperty::NodeName,
            StreamProperty::CaptureSink,
        ],
{
    let mut r: Vec<StreamProperty> = Vec::new();
    r.push(StreamProperty::MediaTypeAudio);
    r.push(StreamProperty::MediaCategoryCapture);
    r.push(StreamProperty::MediaRoleMusic);
    r.push(StreamProperty::NodeName);
    if source == AudioSource::Output {
        r.push(StreamProperty::CaptureSink);
    }
    r
}

/// The format asked of the sound server: rate in hertz and number of channels.
pub fn requested_format() -> (r: (u32, u32))
    ensures
        r == (SAMPLE_RATE, CHANNELS),
{
    (SAMPLE_RATE, CHANNELS)
}

/// How a sample is laid out in memory.
#[derive(Debug, Clone, Copy, PartialEq, Eq, Structural)]
pub enum SampleFormat {
    /// Single precision, least significant byte first: what `decode_samples` reads.
    FloatLittleEndian,
}

/// Where a channel is heard.
#[derive(Debug, Clone, Copy, PartialEq, Eq, Structural)]
pub enum Position {
    FrontLeft,
    FrontRight,
}

/// The layout asked of the sound server: the format of a sample, and where each channel of
/// a frame is heard, in order.
pub fn requested_layout() -> (r: (SampleFormat, Vec<Position>))
    ensures
        r.0 == SampleFormat::FloatLittleEndian,
        r.1@ == seq![Position::FrontLeft, Position::FrontRight],
        r.1@.len() == CHANNELS,
{
    let mut positions: Vec<Position> = Vec::new();
    positions.push(Position::FrontLeft);
    positions.push(Position::FrontRight);
    assert(positions@ =~= seq![Position::FrontLeft, Position::FrontRight]);
    (SampleFormat::FloatLittleEndian, positions)
}

/// Kinds of stream that the server can announce.
#[derive(Debug, Clone, Copy, PartialEq, Eq, Structural)]
pub struct Media {
    pub audio: bool,
    pub raw: bool,
}

/// Whether a change of parameter `id` announces a format to take over: it is the
/// format parameter, it could be read, and it is raw audio.
pub fn takes_format(id: u32, format_id: u32, media: Option<Media>) -> (r: bool)
    ensures
        r <==> id == format_id && media == Some(Media { audio: true, raw: true }),
{
    if id != format_id {
        return false;
    }
    match media {
        Some(m) => m.audio && m.raw,
        None => false,
    }
}

} // verus!
