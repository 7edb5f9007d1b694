//! The controls, the samples that arrive, and the shape of the picture.

use crate::audio::{channel_of, newest, padded, samples_of, Channel};
use crate::config::{
    entry, max_blur, max_gain, min_gain, settings_dir, settings_file, spelled, AudioSource, ColorMode, Effect, Rgb,
    Settings,
};
use crate::float::value::{
    apart, clip, close, dust, lemma_close_add, lemma_close_div, lemma_close_mul, lemma_constants, lemma_size_mul,
    lemma_value_clamped, lemma_value_div, lemma_value_larger, lemma_value_le, lemma_value_quotient, lemma_value_root,
    lemma_value_whole, size,
};
use crate::float::F32;
use crate::render::curve::Point;
use crate::render::radial::{radial_inner, to_inner};
use crate::render::scene::aspect;
use crate::ui::{next_settings, palette, Model, Msg};
use vstd::arithmetic::div_mod::{lemma_div_is_ordered, lemma_div_multiples_vanish};
use vstd::prelude::*;

verus! {

/// A gain that is asked for is the gain, kept from a tenth to ten; nothing else changes.
pub proof fn law_gain_is_what_is_asked_for(s: Settings, g: F32)
    requires
        g.finite(),
    ensures
        close(next_settings(s, Msg::SetGain(g)).gain, clip(g.value(), 1real / 10real, 10real), 1real / 10000000real),
        1real / 5real <= g.value() <= 10real ==> next_settings(s, Msg::SetGain(g)).gain.value() == g.value(),
        next_settings(s, Msg::SetGain(g)) == (Settings { gain: next_settings(s, Msg::SetGain(g)).gain, ..s }),
{
    lemma_value_quotient(1, 10);
    lemma_value_whole(10);
    lemma_value_le(min_gain(), max_gain());
    lemma_value_clamped(g, min_gain(), max_gain());
}

/// A blur that is asked for is the blur, kept from none to 95 hundredths; nothing else
/// changes.
pub proof fn law_blur_is_what_is_asked_for(s: Settings, b: F32)
    requires
        b.finite(),
    ensures
        close(next_settings(s, Msg::SetBlur(b)).blur, clip(b.value(), 0real, 95real / 100real), 1real / 10000000real),
        0real <= b.value() <= 9real / 10real ==> next_settings(s, Msg::SetBlur(b)).blur.value() == b.value(),
        next_settings(s, Msg::SetBlur(b)) == (Settings { blur: next_settings(s, Msg::SetBlur(b)).blur, ..s }),
{
    lemma_constants();
    lemma_value_quotient(95, 100);
    lemma_value_le(F32::nought(), max_blur());
    lemma_value_clamped(b, F32::nought(), max_blur());
}

/// What is chosen is what is set, and nothing else changes.
pub proof fn law_choices_are_kept(s: Settings, e: Effect, x: AudioSource, m: ColorMode, a: Rgb, b: Rgb)
    ensures
        next_settings(s, Msg::SetEffect(e)) == (Settings { effect: e, ..s }),
        next_settings(s, Msg::SetSource(x)) == (Settings { source: x, ..s }),
        next_settings(s, Msg::SetColorMode(m)) == (Settings { color_mode: m, ..s }),
        next_settings(s, Msg::SetColorA(a)) == (Settings { color_a: a, ..s }),
        next_settings(s, Msg::SetColorB(b)) == (Settings { color_b: b, ..s }),
{
}

/// The picture follows the settings, whatever is asked for: its effect, its gain, its
/// blur and its colours, and one channel is shown twice where sound comes in.
pub proof fn law_picture_follows_the_settings(m: Model, msg: Msg, accent: Rgb)
    requires
        m.viz.effect == m.settings.effect,
        m.viz.gain == m.settings.gain,
        m.viz.blur == m.settings.blur,
        m.viz.mirror <==> m.settings.source == AudioSource::Input,
        m.settings.color_mode == ColorMode::Manual ==> m.viz.palette.color_a == m.settings.color_a
            && m.viz.palette.color_b == m.settings.color_b,
    ensures
        ({
            let n = m.after(msg, accent);
            &&& n.viz.effect == n.settings.effect
            &&& n.viz.gain == n.settings.gain
            &&& n.viz.blur == n.settings.blur
            &&& n.viz.mirror <==> n.settings.source == AudioSource::Input
            &&& n.settings.color_mode == ColorMode::Manual ==> n.viz.palette.color_a == n.settings.color_a
                && n.viz.palette.color_b == n.settings.color_b
            &&& n.settings.color_mode == ColorMode::Auto && (msg is SetColorMode || msg is ReloadAutoTheme)
                ==> n.viz.palette.color_a == accent
            &&& n.settings.color_mode == ColorMode::Auto && !(msg is SetColorMode) && !(msg is ReloadAutoTheme)
                ==> n.viz.palette == m.viz.palette
            &&& n.viz.spectrum_left == m.viz.spectrum_left
            &&& n.viz.spectrum_right == m.viz.spectrum_right
            &&& n.viz.imaging == m.viz.imaging
        }),
{
}

/// A path in a directory begins with the directory and ends with the name, with one
/// slash between them where there is none yet.
pub proof fn law_entries_are_below_their_directory(dir: Seq<u8>, name: Seq<u8>)
    ensures
        ({
            let p = entry(dir, name);
            let slash = dir.len() > 0 && dir.last() != 0x2F;
            &&& p.len() == dir.len() + name.len() + if slash {
                1int
            } else {
                0int
            }
            &&& p.subrange(0, dir.len() as int) == dir
            &&& p.subrange(p.len() - name.len(), p.len() as int) == name
            &&& slash ==> p[dir.len() as int] == 0x2F
        }),
{
    let p = entry(dir, name);
    assert(p.subrange(0, dir.len() as int) =~= dir);
    assert(p.subrange(p.len() - name.len(), p.len() as int) =~= name);
}

/// The file of the settings is in their directory, which is in the configuration's.
pub proof fn law_settings_file_is_in_its_directory(dir: Seq<u8>)
    requires
        dir.len() > 0,
    ensures
        ({
            let d = settings_dir(dir);
            let f = settings_file(dir);
            &&& f.len() > d.len() > dir.len()
            &&& d.subrange(0, dir.len() as int) == dir
            &&& f.subrange(0, d.len() as int) == d
            &&& f[d.len() as int] == 0x2F
        }),
{
    reveal_strlit("sinestesia");
    reveal_strlit("config.toml");
    let n = spelled("sinestesia"@);
    law_entries_are_below_their_directory(dir, n);
    law_entries_are_below_their_directory(settings_dir(dir), spelled("config.toml"@));
    let d = settings_dir(dir);
    assert(d.subrange(d.len() - n.len(), d.len() as int).last() == n.last());
    assert(n.last() == 'a' as u8);
}

/// Each channel gets its own sample of every frame; with one sample per frame both get
/// that one, and a frame that is not whole counts for none.
pub proof fn law_channels_take_their_samples(data: Seq<F32>, n: int, f: int)
    requires
        n >= 1,
        0 <= f,
        (f + 1) * n <= data.len(),
    ensures
        channel_of(data, n, Channel::Left).len() == data.len() as int / n,
        channel_of(data, n, Channel::Right).len() == data.len() as int / n,
        f < data.len() as int / n,
        channel_of(data, n, Channel::Left)[f] == data[f * n],
        n >= 2 ==> channel_of(data, n, Channel::Right)[f] == data[f * n + 1],
        n == 1 ==> channel_of(data, n, Channel::Right) == channel_of(data, n, Channel::Left),
        n == 1 ==> channel_of(data, n, Channel::Left)[f] == data[f],
{
    let l = data.len() as int;
    lemma_div_is_ordered((f + 1) * n, l, n);
    lemma_div_multiples_vanish(f + 1, n);
    assert((f + 1) * n == n * (f + 1)) by (nonlinear_arith);
    assert(f < l / n);
    if n == 1 {
        assert(f * n == f) by (nonlinear_arith)
            requires n == 1;
        assert(channel_of(data, n, Channel::Right) =~= channel_of(data, n, Channel::Left));
    }
}

/// A window of `n` samples ends with the newest, and is silent before the first.
pub proof fn law_windows_end_with_the_newest(s: Seq<F32>, n: nat, k: int)
    requires
        0 <= k < n,
    ensures
        padded(s, n as int).len() == n,
        k < s.len() ==> padded(s, n as int)[n - 1 - k] == s[s.len() - 1 - k],
        k >= s.len() ==> padded(s, n as int)[n - 1 - k].value() == 0real,
{
    lemma_constants();
}

/// A buffer keeps the newest samples, and all of them while there is room.
pub proof fn law_buffers_keep_the_newest(s: Seq<F32>, n: nat, k: int)
    requires
        0 <= k < n,
        k < s.len(),
    ensures
        newest(s, n as int).len() == if s.len() < n {
            s.len()
        } else {
            n
        },
        newest(s, n as int)[newest(s, n as int).len() - 1 - k] == s[s.len() - 1 - k],
{
}

/// Samples are read as they are written: four bytes each, the lowest first.
pub proof fn law_samples_are_read_as_written(bytes: Seq<u8>, chunk_size: int, x: F32, i: int)
    requires
        0 <= i,
        4 * i + 4 <= chunk_size,
        4 * i + 4 <= bytes.len(),
        bytes[4 * i] as int == x.bits as int % 256,
        bytes[4 * i + 1] as int == x.bits as int / 256 % 256,
        bytes[4 * i + 2] as int == x.bits as int / 65536 % 256,
        bytes[4 * i + 3] as int == x.bits as int / 16777216,
    ensures
        i < samples_of(bytes, chunk_size).len(),
        samples_of(bytes, chunk_size)[i] == x,
{
    let b = x.bits as int;
    assert(b % 256 + 256 * (b / 256 % 256) + 65536 * (b / 65536 % 256) + 16777216 * (b / 16777216) == b);
}

/// As many samples are read as are whole in what is there and in what is meant.
pub proof fn law_whole_samples_are_read(bytes: Seq<u8>, chunk_size: int)
    requires
        0 <= chunk_size,
    ensures
        4 * samples_of(bytes, chunk_size).len() <= chunk_size,
        4 * samples_of(bytes, chunk_size).len() <= bytes.len(),
        4 * samples_of(bytes, chunk_size).len() + 4 > chunk_size || 4 * samples_of(bytes, chunk_size).len() + 4
            > bytes.len(),
{
}

/// The shape of the picture is its height by its width.
pub proof fn law_aspect_is_height_by_width(width: int, height: int)
    requires
        1 <= width <= 100000,
        1 <= height <= 100000,
    ensures
        close(
            aspect(width, height),
            height as real / width as real,
            height as real / width as real / 16777216real + dust(),
        ),
{
    lemma_value_whole(width);
    lemma_value_whole(height);
    let (u, v) = (height as real, width as real);
    assert(0real <= u / v <= 100000real) by (nonlinear_arith)
        requires 1real <= u <= 100000real, v >= 1real;
    lemma_value_div(F32::whole(height), F32::whole(width));
}

/// A point is moved along its ray to the inner ring, at 28 hundredths.
pub proof fn law_inner_points_are_on_the_ring(p: Point, inv_aspect: F32) -> (len: real)
    requires
        inv_aspect.finite(),
        p.0.finite(),
        p.1.finite(),
        1real / 10real <= inv_aspect.value() <= 10real,
        size(p.0.value() / inv_aspect.value()) <= 2real,
        size(p.1.value()) <= 2real,
        (p.0.value() / inv_aspect.value()) * (p.0.value() / inv_aspect.value()) + p.1.value() * p.1.value() >= 1real
            / 100real,
    ensures
        ({
            let x = p.0.value() / inv_aspect.value();
            let w = x * x + p.1.value() * p.1.value();
            apart(len * len, w) <= w / 1000real
        }),
        len >= 9real / 100real,
        close(to_inner(p, inv_aspect).1, (p.1.value() / len) * (28real / 100real), 1real / 100000real),
        close(
            to_inner(p, inv_aspect).0,
            (p.0.value() / inv_aspect.value() / len) * (28real / 100real) * inv_aspect.value(),
            1real / 1000real,
        ),
{
    let k = p.0.value() / inv_aspect.value();
    let sx = p.0 / inv_aspect;
    lemma_value_div(p.0, inv_aspect);
    let y = p.1.value();
    lemma_size_mul(k, k, 2real, 2real);
    lemma_size_mul(y, y, 2real, 2real);
    assert(k * k >= 0real && y * y >= 0real) by (nonlinear_arith);
    let e = 2real / 10000000real;
    lemma_close_mul(sx, sx, k, k, e, e, 2real, 2real);
    lemma_close_mul(p.1, p.1, y, y, 0real, 0real, 2real, 2real);
    let q = sx * sx + p.1 * p.1;
    let f = 12real * e;
    lemma_close_add(sx * sx, p.1 * p.1, k * k, y * y, f, f);
    lemma_value_root(q);
    let w = k * k + y * y;
    let r = q.root();
    let len = r.value();
    assert(apart(q.value(), w) <= 6real / 1000000real);
    assert(9real / 100real <= len <= 3real) by (nonlinear_arith)
        requires len > 0real, 81real / 10000real <= len * len <= 9real;
    lemma_value_quotient(1, 1_000_000);
    lemma_value_larger(r, F32::quotient(1, 1_000_000));
    lemma_value_quotient(28, 100);
    lemma_on_ring(p.1, y, r);
    lemma_on_ring(sx, k, r);
    let c = 28real / 100real;
    let x = (k / len) * c;
    lemma_close_mul(
        sx / r * radial_inner(),
        inv_aspect,
        x,
        inv_aspect.value(),
        1real / 100000real,
        0real,
        7real,
        10real,
    );
    len
}

/// A coordinate moved to the ring.
proof fn lemma_on_ring(x: F32, u: real, r: F32)
    requires
        close(x, u, 2real / 10000000real),
        size(u) <= 2real,
        r.finite(),
        9real / 100real <= r.value() <= 3real,
    ensures
        close(x / r * radial_inner(), (u / r.value()) * (28real / 100real), 1real / 100000real),
        size((u / r.value()) * (28real / 100real)) <= 7real,
{
    lemma_value_quotient(28, 100);
    let l = r.value();
    assert(-23real <= u / l <= 23real) by (nonlinear_arith)
        requires -2real <= u <= 2real, l >= 9real / 100real;
    lemma_close_div(x, r, u, l, 2real / 10000000real, 0real, 23real, 9real / 100real);
    lemma_close_mul(
        x / r,
        radial_inner(),
        u / l,
        28real / 100real,
        4real / 1000000real,
        2real / 100000000real,
        23real,
        28real / 100real,
    );
}

} // verus!
