//! Settings: their types, their defaults and their limits.

use crate::float::laws::{lemma_one, lemma_quotient_between, lemma_quotient_number, lemma_whole, one_units};
use crate::float::round::lemma_mag_units_at;
use crate::float::F32;
use vstd::arithmetic::power2::{lemma2_to64, lemma_pow2_adds, lemma_pow2_pos};
use vstd::prelude::*;
use vstd::string::{is_ascii_spec_bytes, StringSliceAdditionalSpecFns};

verus! {

/// Which audio to capture.
#[derive(Debug, Clone, Copy, PartialEq, Eq, Structural)]
pub enum AudioSource {
    /// What goes out (the monitor of the default sink).
    Output,
    /// What comes in (the microphone, or the default source).
    Input,
}

impl Default for AudioSource {
    fn default() -> (r: Self)
        ensures
            r == AudioSource::Output,
    {
        AudioSource::Output
    }
}

/// The visual effect.
#[derive(Debug, Clone, Copy, PartialEq, Eq, Structural)]
pub enum Effect {
    /// Vertical bars.
    Bars,
    /// A continuous line.
    Line,
    /// A ring of rays, with particles.
    Radial,
    /// The line with a transparent fill and a luminous rim.
    LineSpectrum,
    /// The ring as a continuous curve with a luminous rim.
    RadialSpectrum,
    /// Rings that keep the shape of the spectrum and rush past, among stars.
    Tunnel,
    /// A geodesic solid, deformed by the spectrum.
    Solid,
    /// The direction from which sound is perceived.
    Imaging,
    /// A spectrogram in relief.
    Terrain,
    /// A vectorscope drawn out in time.
    Phase,
    /// A cloud of particles on concentric shells.
    Nebula,
}

impl Default for Effect {
    fn default() -> (r: Self)
        ensures
            r == Effect::Bars,
    {
        Effect::Bars
    }
}

/// Where the colors come from.
#[derive(Debug, Clone, Copy, PartialEq, Eq, Structural)]
pub enum ColorMode {
    /// Two colors of the user's choice.
    Manual,
    /// Colors of the system theme.
    Auto,
}

impl Default for ColorMode {
    fn default() -> (r: Self)
        ensures
            r == ColorMode::Auto,
    {
        ColorMode::Auto
    }
}

/// A color; each component goes from zero to one.
#[derive(Debug, Clone, Copy, PartialEq, Eq, Structural)]
pub struct Rgb {
    pub r: F32,
    pub g: F32,
    pub b: F32,
}

impl Rgb {
    pub fn new(r: F32, g: F32, b: F32) -> (c: Rgb)
        ensures
            c == (Rgb { r, g, b }),
    {
        Rgb { r, g, b }
    }

    /// The first color where none was chosen: a light violet.
    pub open spec fn violet() -> Rgb {
        Rgb { r: F32::quotient(84, 100), g: F32::quotient(73, 100), b: F32::unit() }
    }

    /// The second color where none was chosen: a pink.
    pub open spec fn pink() -> Rgb {
        Rgb { r: F32::quotient(95, 100), g: F32::quotient(72, 100), b: F32::quotient(77, 100) }
    }

    pub(crate) fn default_a() -> (c: Rgb)
        ensures
            c == Rgb::violet(),
    {
        Rgb::new(F32::ratio(84, 100), F32::ratio(73, 100), F32::one())
    }

    pub(crate) fn default_b() -> (c: Rgb)
        ensures
            c == Rgb::pink(),
    {
        Rgb::new(F32::ratio(95, 100), F32::ratio(72, 100), F32::ratio(77, 100))
    }
}

/// What is kept from one run to the next.
#[derive(Debug, Clone, Copy, PartialEq, Eq, Structural)]
pub struct Settings {
    pub effect: Effect,
    pub source: AudioSource,
    pub color_mode: ColorMode,
    /// First color of the gradient in manual mode.
    pub color_a: Rgb,
    /// Second color of the gradient in manual mode.
    pub color_b: Rgb,
    /// Amplitude factor, from a tenth to ten.
    pub gain: F32,
    /// Strength of the motion blur, from zero to 95 hundredths.
    pub blur: F32,
}

impl Settings {
    /// The settings where none were chosen.
    pub open spec fn initial() -> Settings {
        Settings {
            effect: Effect::Bars,
            source: AudioSource::Output,
            color_mode: ColorMode::Auto,
            color_a: Rgb::violet(),
            color_b: Rgb::pink(),
            gain: F32::unit(),
            blur: F32::nought(),
        }
    }
}

impl Default for Settings {
    fn default() -> (r: Self)
        ensures
            r == Settings::initial(),
    {
        Settings {
            effect: Effect::default(),
            source: AudioSource::default(),
            color_mode: ColorMode::default(),
            color_a: Rgb::default_a(),
            color_b: Rgb::default_b(),
            gain: F32::one(),
            blur: F32::zero(),
        }
    }
}

/// A name of ASCII characters as bytes.
pub open spec fn spelled(name: Seq<char>) -> Seq<u8> {
    Seq::new(name.len(), |i: int| name[i] as u8)
}

/// The path of an entry of a directory: a slash between them, unless the directory
/// ends with one or has no name.
pub open spec fn entry(dir: Seq<u8>, name: Seq<u8>) -> Seq<u8> {
    if dir.len() == 0 || dir[dir.len() - 1] == 0x2F {
        dir + name
    } else {
        dir.push(0x2F) + name
    }
}

fn push_entry(path: &mut Vec<u8>, name: &[u8])
    ensures
        final(path)@ == entry(old(path)@, name@),
{
    let n: usize = path.len();
    if n > 0 && path[n - 1] != 0x2F {
        path.push(0x2F);
    }
    let ghost start = path@;
    assert(path@ =~= start + name@.take(0));
    let mut i: usize = 0;
    while i < name.len()
        invariant
            i <= name@.len(),
            path@ == start + name@.take(i as int),
        decreases name@.len() - i,
    {
        path.push(name[i]);
        assert(start + name@.take(i + 1) =~= (start + name@.take(i as int)).push(name@[i as int]));
        i = i + 1;
    }
    assert(name@.take(name@.len() as int) =~= name@);
}

/// The directory of the settings in the configuration directory.
pub open spec fn settings_dir(dir: Seq<u8>) -> Seq<u8> {
    entry(dir, spelled("sinestesia"@))
}

/// The file of the settings in the configuration directory.
pub open spec fn settings_file(dir: Seq<u8>) -> Seq<u8> {
    entry(settings_dir(dir), spelled("config.toml"@))
}

proof fn lemma_names()
    ensures
        "sinestesia".spec_bytes() == spelled("sinestesia"@),
        "config.toml".spec_bytes() == spelled("config.toml"@),
{
    reveal_strlit("sinestesia");
    reveal_strlit("config.toml");
    is_ascii_spec_bytes("sinestesia");
    is_ascii_spec_bytes("config.toml");
    assert("sinestesia".spec_bytes() =~= spelled("sinestesia"@));
    assert("config.toml".spec_bytes() =~= spelled("config.toml"@));
}

/// The user's configuration directory, as `dirs::config_dir` finds it in the
/// environment; `None` where there is no home directory. Nothing is claimed of
/// which directory it is, as that depends on the environment.
#[verifier::external_body]
fn config_dir() -> (r: Option<Vec<u8>>) {
    dirs::config_dir().map(|d| d.into_os_string().into_encoded_bytes())
}

/// Where settings are written: the directory that must exist, and the file in it.
pub struct SaveTarget {
    pub dir: Vec<u8>,
    pub file: Vec<u8>,
}

/// There is no configuration directory.
#[derive(Debug, Clone, Copy, PartialEq, Eq, Structural)]
pub struct NoConfigDir;

/// What came of looking for stored settings.
#[derive(Debug, Clone, Copy, PartialEq, Eq, Structural)]
pub enum Stored {
    /// There is no configuration directory.
    NoConfigDir,
    /// The file is not there or cannot be read.
    Unreadable,
    /// The file does not hold settings.
    Malformed,
    /// The file holds these settings.
    Read(Settings),
}

/// The least gain.
pub open spec fn min_gain() -> F32 {
    F32::quotient(1, 10)
}

/// The greatest gain.
pub open spec fn max_gain() -> F32 {
    F32::whole(10)
}

/// The greatest blur.
pub open spec fn max_blur() -> F32 {
    F32::quotient(95, 100)
}

/// The limits are in order.
pub proof fn lemma_limits()
    ensures
        min_gain().le(max_gain()),
        F32::nought().lt(min_gain()),
        F32::nought().le(max_blur()),
        max_blur().lt(F32::unit()),
        max_gain().finite(),
        max_blur().finite(),
{
    lemma_one();
    lemma_whole(10);
    lemma_quotient_number(1, 10);
    lemma_quotient_between(1, 10, F32::nought(), F32::unit());
    lemma_quotient_number(95, 100);
    let w = one_units();
    let below = F32 { bits: 0x3F7F_FFFF };
    lemma2_to64();
    lemma_pow2_adds(24, 125);
    lemma_mag_units_at(125, 0xFF_FFFF);
    assert(below.mag() == 125 * 0x80_0000 + 0xFF_FFFF);
    lemma_pow2_pos(125);
    lemma_quotient_between(95, 100, F32::nought(), below);
}

impl Settings {
    /// The path of the settings file for a configuration directory.
    pub fn path_in(dir: Option<Vec<u8>>) -> (r: Option<Vec<u8>>)
        ensures
            dir is None ==> r is None,
            dir matches Some(d) ==> r matches Some(p) && p@ == settings_file(d@),
    {
        match Settings::target_in(dir) {
            Ok(t) => Some(t.file),
            Err(_) => None,
        }
    }

    /// The path of the settings file, `sinestesia/config.toml` in the user's
    /// configuration directory.
    pub fn config_path() -> (r: Option<Vec<u8>>)
        ensures
            r matches Some(p) ==> exists|d: Seq<u8>| p@ == #[trigger] settings_file(d),
    {
        Settings::path_in(config_dir())
    }

    /// Where settings are written for a configuration directory.
    pub fn target_in(dir: Option<Vec<u8>>) -> (r: Result<SaveTarget, NoConfigDir>)
        ensures
            dir is None ==> r is Err,
            dir matches Some(d) ==> r matches Ok(t) && t.dir@ == settings_dir(d@) && t.file@ == settings_file(d@),
    {
        proof {
            lemma_names();
        }
        match dir {
            None => Err(NoConfigDir),
            Some(d) => {
                let mut file = d;
                push_entry(&mut file, "sinestesia".as_bytes());
                let dir = file.clone();
                assert(dir@ =~= file@);
                push_entry(&mut file, "config.toml".as_bytes());
                Ok(SaveTarget { dir, file })
            },
        }
    }

    /// Where settings are written: the directory to create and the file.
    pub fn save_target() -> (r: Result<SaveTarget, NoConfigDir>)
        ensures
            r matches Ok(t) ==> exists|d: Seq<u8>|
                t.dir@ == #[trigger] settings_dir(d) && t.file@ == settings_file(d),
    {
        Settings::target_in(config_dir())
    }

    /// The settings to start with: the stored ones, or the defaults where there are
    /// none or they cannot be read.
    pub fn load(stored: Stored) -> (r: Settings)
        ensures
            r == match stored {
                Stored::Read(s) => s,
                _ => Settings::initial(),
            },
    {
        match stored {
            Stored::Read(s) => s,
            _ => Settings::default(),
        }
    }

    /// Limits the gain to its range.
    pub fn clamp_gain(gain: F32) -> (r: F32)
        ensures
            r == gain.clamped(min_gain(), max_gain()),
            !gain.nan() ==> r.within(min_gain(), max_gain()),
    {
        proof {
            lemma_limits();
        }
        gain.clamp(F32::ratio(1, 10), F32::from_int(10))
    }

    /// Limits the blur to its range.
    pub fn clamp_blur(blur: F32) -> (r: F32)
        ensures
            r == blur.clamped(F32::nought(), max_blur()),
            !blur.nan() ==> r.within(F32::nought(), max_blur()),
    {
        proof {
            lemma_limits();
        }
        blur.clamp(F32::zero(), F32::ratio(95, 100))
    }
}

} // verus!
