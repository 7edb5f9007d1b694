//! The controls: what they show, and what each of them does.

use crate::bands::NUM_BANDS;
use crate::config::{lemma_limits, max_blur, max_gain, min_gain, AudioSource, ColorMode, Effect, Rgb, Settings};
use crate::float::F32;
use crate::render::paint::Palette;
use crate::render::scene::VizState;
use crate::stereo::ImagingFrame;
use crate::theme::{accent_palette, accented};
use vstd::prelude::*;

verus! {

/// How many effects there are to choose from.
pub const EFFECTS: u32 = 11;

/// The place of an effect in the list of effects.
pub open spec fn place_of(e: Effect) -> int {
    match e {
        Effect::Bars => 0,
        Effect::Line => 1,
        Effect::Radial => 2,
        Effect::LineSpectrum => 3,
        Effect::RadialSpectrum => 4,
        Effect::Tunnel => 5,
        Effect::Solid => 6,
        Effect::Imaging => 7,
        Effect::Terrain => 8,
        Effect::Phase => 9,
        Effect::Nebula => 10,
    }
}

/// The effect at a place of the list; the first one beyond its end.
pub open spec fn effect_at(i: int) -> Effect {
    if i == 1 {
        Effect::Line
    } else if i == 2 {
        Effect::Radial
    } else if i == 3 {
        Effect::LineSpectrum
    } else if i == 4 {
        Effect::RadialSpectrum
    } else if i == 5 {
        Effect::Tunnel
    } else if i == 6 {
        Effect::Solid
    } else if i == 7 {
        Effect::Imaging
    } else if i == 8 {
        Effect::Terrain
    } else if i == 9 {
        Effect::Phase
    } else if i == 10 {
        Effect::Nebula
    } else {
        Effect::Bars
    }
}

/// The place of an effect in the list.
pub fn effect_index(e: Effect) -> (r: u32)
    ensures
        r == place_of(e),
{
    match e {
        Effect::Bars => 0,
        Effect::Line => 1,
        Effect::Radial => 2,
        Effect::LineSpectrum => 3,
        Effect::RadialSpectrum => 4,
        Effect::Tunnel => 5,
        Effect::Solid => 6,
        Effect::Imaging => 7,
        Effect::Terrain => 8,
        Effect::Phase => 9,
        Effect::Nebula => 10,
    }
}

/// The effect at a place of the list.
pub fn index_effect(i: u32) -> (r: Effect)
    ensures
        r == effect_at(i as int),
{
    match i {
        1 => Effect::Line,
        2 => Effect::Radial,
        3 => Effect::LineSpectrum,
        4 => Effect::RadialSpectrum,
        5 => Effect::Tunnel,
        6 => Effect::Solid,
        7 => Effect::Imaging,
        8 => Effect::Terrain,
        9 => Effect::Phase,
        10 => Effect::Nebula,
        _ => Effect::Bars,
    }
}

/// The name of an effect in the list.
pub open spec fn label(e: Effect) -> Seq<char> {
    match e {
        Effect::Bars => "Barre"@,
        Effect::Line => "Linea"@,
        Effect::Radial => "Radiale"@,
        Effect::LineSpectrum => "Linea Spettro"@,
        Effect::RadialSpectrum => "Radiale Spettro"@,
        Effect::Tunnel => "Tunnel"@,
        Effect::Solid => "Poliedro"@,
        Effect::Imaging => "Imaging"@,
        Effect::Terrain => "Rilievo"@,
        Effect::Phase => "Fase"@,
        Effect::Nebula => "Nebulosa"@,
    }
}

/// The name of an effect in the list.
pub fn effect_label(e: Effect) -> (r: &'static str)
    ensures
        r@ == label(e),
{
    match e {
        Effect::Bars => "Barre",
        Effect::Line => "Linea",
        Effect::Radial => "Radiale",
        Effect::LineSpectrum => "Linea Spettro",
        Effect::RadialSpectrum => "Radiale Spettro",
        Effect::Tunnel => "Tunnel",
        Effect::Solid => "Poliedro",
        Effect::Imaging => "Imaging",
        Effect::Terrain => "Rilievo",
        Effect::Phase => "Fase",
        Effect::Nebula => "Nebulosa",
    }
}

/// Every effect has a place, and every place its effect.
pub proof fn law_effect_list_round_trips(e: Effect, i: int)
    requires
        0 <= i < EFFECTS,
    ensures
        0 <= place_of(e) < EFFECTS,
        effect_at(place_of(e)) == e,
        place_of(effect_at(i)) == i,
{
}

/// What a control asks for.
#[derive(Debug, Clone, Copy, PartialEq, Eq, Structural)]
pub enum Msg {
    SetEffect(Effect),
    SetSource(AudioSource),
    SetColorMode(ColorMode),
    SetColorA(Rgb),
    SetColorB(Rgb),
    SetGain(F32),
    SetBlur(F32),
    /// The colours of the theme have changed.
    ReloadAutoTheme,
    /// Shows or hides header and controls.
    ToggleChrome,
    /// Enters or leaves the full screen, without header and controls.
    ToggleFullscreen,
    /// Back to the window with header and controls.
    ExitImmersive,
}

/// The keys that the window listens to.
#[derive(Debug, Clone, Copy, PartialEq, Eq, Structural)]
pub enum Key {
    F11,
    LowerH,
    UpperH,
    Escape,
    Other,
}

/// What a key asks for; other keys go to the widgets.
pub fn key_message(key: Key) -> (r: Option<Msg>)
    ensures
        r == match key {
            Key::F11 => Some(Msg::ToggleFullscreen),
            Key::LowerH | Key::UpperH => Some(Msg::ToggleChrome),
            Key::Escape => Some(Msg::ExitImmersive),
            Key::Other => None,
        },
{
    match key {
        Key::F11 => Some(Msg::ToggleFullscreen),
        Key::LowerH | Key::UpperH => Some(Msg::ToggleChrome),
        Key::Escape => Some(Msg::ExitImmersive),
        Key::Other => None,
    }
}

/// The source that a switch stands for: on is the input.
pub fn source_of_switch(active: bool) -> (r: AudioSource)
    ensures
        r == if active {
            AudioSource::Input
        } else {
            AudioSource::Output
        },
{
    if active {
        AudioSource::Input
    } else {
        AudioSource::Output
    }
}

/// The colour mode that a switch stands for: on is automatic.
pub fn mode_of_switch(active: bool) -> (r: ColorMode)
    ensures
        r == if active {
            ColorMode::Auto
        } else {
            ColorMode::Manual
        },
{
    if active {
        ColorMode::Auto
    } else {
        ColorMode::Manual
    }
}

/// The palette of settings, where `accent` is the accent colour of the theme.
pub open spec fn palette(s: Settings, accent: Rgb) -> Palette {
    match s.color_mode {
        ColorMode::Manual => Palette { color_a: s.color_a, color_b: s.color_b },
        ColorMode::Auto => accented(accent),
    }
}

/// The palette of settings: the two chosen colours, or those of the theme.
pub fn palette_for(settings: &Settings, accent: Rgb) -> (r: Palette)
    ensures
        r == palette(*settings, accent),
{
    match settings.color_mode {
        ColorMode::Manual => Palette { color_a: settings.color_a, color_b: settings.color_b },
        ColorMode::Auto => accent_palette(accent),
    }
}

/// The state behind the controls.
#[derive(Debug, Clone, Copy)]
pub struct Model {
    pub settings: Settings,
    pub viz: VizState,
    /// Whether header and controls are hidden. Not a setting: the program always
    /// starts with them.
    pub chrome_hidden: bool,
    pub fullscreen: bool,
}

/// What a message leads to outside.
#[derive(Debug, Clone, Copy, PartialEq, Eq, Structural)]
pub struct Outcome {
    /// The capture is to be started anew on this source.
    pub restart: Option<AudioSource>,
    /// The settings are to be saved.
    pub save: bool,
    /// The colours of the theme were taken over.
    pub recoloured: bool,
}

/// What the widgets show.
#[derive(Debug, Clone, Copy, PartialEq, Eq, Structural)]
pub struct Controls {
    pub fullscreen: bool,
    pub chrome_visible: bool,
    /// The selected place in the list of effects.
    pub effect: u32,
    /// Whether the switch of the source is on.
    pub input: bool,
    /// Whether the switch of the theme colours is on.
    pub auto: bool,
    /// Whether the two colours can be chosen.
    pub colours: bool,
    pub gain: F32,
    pub blur: F32,
}

/// The settings after a message.
pub open spec fn next_settings(s: Settings, m: Msg) -> Settings {
    match m {
        Msg::SetEffect(e) => Settings { effect: e, ..s },
        Msg::SetSource(x) => Settings { source: x, ..s },
        Msg::SetColorMode(c) => Settings { color_mode: c, ..s },
        Msg::SetColorA(c) => Settings { color_a: c, ..s },
        Msg::SetColorB(c) => Settings { color_b: c, ..s },
        Msg::SetGain(g) => Settings { gain: g.clamped(min_gain(), max_gain()), ..s },
        Msg::SetBlur(b) => Settings { blur: b.clamped(F32::nought(), max_blur()), ..s },
        _ => s,
    }
}

/// Whether a message changes the palette.
pub open spec fn repaints(s: Settings, m: Msg) -> bool {
    match m {
        Msg::SetColorMode(_) => true,
        Msg::SetColorA(_) | Msg::SetColorB(_) => s.color_mode == ColorMode::Manual,
        Msg::ReloadAutoTheme => s.color_mode == ColorMode::Auto,
        _ => false,
    }
}

/// Whether a message is about settings, which are then saved.
pub open spec fn saves(m: Msg) -> bool {
    match m {
        Msg::ReloadAutoTheme | Msg::ToggleChrome | Msg::ToggleFullscreen | Msg::ExitImmersive => false,
        _ => true,
    }
}

impl Model {
    /// The picture follows the settings.
    pub open spec fn wf(self) -> bool {
        &&& self.viz.effect == self.settings.effect
        &&& self.viz.gain == self.settings.gain
        &&& self.viz.blur == self.settings.blur
        &&& self.viz.mirror == (self.settings.source == AudioSource::Input)
        &&& self.settings.color_mode == ColorMode::Manual ==> self.viz.palette == (Palette {
            color_a: self.settings.color_a,
            color_b: self.settings.color_b,
        })
    }

    /// The model after a message, where `accent` is the accent colour of the theme.
    pub open spec fn after(self, m: Msg, accent: Rgb) -> Model {
        let s = next_settings(self.settings, m);
        Model {
            settings: s,
            viz: VizState {
                effect: if m is SetEffect {
                    s.effect
                } else {
                    self.viz.effect
                },
                gain: if m is SetGain {
                    s.gain
                } else {
                    self.viz.gain
                },
                blur: if m is SetBlur {
                    s.blur
                } else {
                    self.viz.blur
                },
                mirror: if m is SetSource && s.source != self.settings.source {
                    s.source == AudioSource::Input
                } else {
                    self.viz.mirror
                },
                palette: if repaints(self.settings, m) {
                    palette(s, accent)
                } else {
                    self.viz.palette
                },
                ..self.viz
            },
            chrome_hidden: match m {
                Msg::ToggleChrome => !self.chrome_hidden,
                Msg::ToggleFullscreen => !self.fullscreen,
                Msg::ExitImmersive => false,
                _ => self.chrome_hidden,
            },
            fullscreen: match m {
                Msg::ToggleFullscreen => !self.fullscreen,
                Msg::ExitImmersive => false,
                _ => self.fullscreen,
            },
        }
    }

    /// What a message leads to outside.
    pub open spec fn outcome(self, m: Msg) -> Outcome {
        Outcome {
            restart: match m {
                Msg::SetSource(x) => if x != self.settings.source {
                    Some(x)
                } else {
                    None
                },
                _ => None,
            },
            save: saves(m),
            recoloured: m is ReloadAutoTheme && self.settings.color_mode == ColorMode::Auto,
        }
    }

    /// The model of settings at the start: silence, in a window with its controls.
    pub fn new(settings: Settings, accent: Rgb) -> (r: Model)
        ensures
            r.wf(),
            r.settings == settings,
            r.viz.spectrum_left@ == Seq::new(NUM_BANDS as nat, |b: int| F32::nought()),
            r.viz.spectrum_right@ == Seq::new(NUM_BANDS as nat, |b: int| F32::nought()),
            r.viz.imaging.is_silent(),
            r.viz.palette == palette(settings, accent),
            !r.chrome_hidden,
            !r.fullscreen,
    {
        let zero = F32::zero();
        let viz = VizState {
            spectrum_left: [zero; NUM_BANDS],
            spectrum_right: [zero; NUM_BANDS],
            imaging: ImagingFrame::default(),
            palette: palette_for(&settings, accent),
            gain: settings.gain,
            effect: settings.effect,
            mirror: settings.source == AudioSource::Input,
            blur: settings.blur,
        };
        assert(viz.spectrum_left@ =~= Seq::new(NUM_BANDS as nat, |b: int| F32::nought()));
        assert(viz.spectrum_right@ =~= Seq::new(NUM_BANDS as nat, |b: int| F32::nought()));
        Model { settings, viz, chrome_hidden: false, fullscreen: false }
    }

    fn apply_palette(&mut self, accent: Rgb)
        ensures
            *final(self) == (Model {
                viz: VizState { palette: palette(old(self).settings, accent), ..old(self).viz },
                ..*old(self)
            }),
    {
        self.viz.palette = palette_for(&self.settings, accent);
    }

    /// Does what a control asks for, and says what is to be done outside.
    pub fn update(&mut self, msg: Msg, accent: Rgb) -> (r: Outcome)
        ensures
            *final(self) == old(self).after(msg, accent),
            r == old(self).outcome(msg),
            old(self).wf() ==> final(self).wf(),
    {
        let mut r = Outcome { restart: None, save: true, recoloured: false };
        match msg {
            Msg::SetEffect(e) => {
                self.settings.effect = e;
                self.viz.effect = e;
            },
            Msg::SetGain(g) => {
                self.settings.gain = Settings::clamp_gain(g);
                self.viz.gain = self.settings.gain;
            },
            Msg::SetBlur(b) => {
                self.settings.blur = Settings::clamp_blur(b);
                self.viz.blur = self.settings.blur;
            },
            Msg::SetSource(s) => {
                if s != self.settings.source {
                    self.settings.source = s;
                    self.viz.mirror = s == AudioSource::Input;
                    r.restart = Some(s);
                }
            },
            Msg::SetColorMode(m) => {
                self.settings.color_mode = m;
                self.apply_palette(accent);
            },
            Msg::SetColorA(c) => {
                self.settings.color_a = c;
                if self.settings.color_mode == ColorMode::Manual {
                    self.apply_palette(accent);
                }
            },
            Msg::SetColorB(c) => {
                self.settings.color_b = c;
                if self.settings.color_mode == ColorMode::Manual {
                    self.apply_palette(accent);
                }
            },
            Msg::ReloadAutoTheme => {
                if self.settings.color_mode == ColorMode::Auto {
                    self.apply_palette(accent);
                    r.recoloured = true;
                }
                r.save = false;
            },
            Msg::ToggleChrome => {
                self.chrome_hidden = !self.chrome_hidden;
                r.save = false;
            },
            Msg::ToggleFullscreen => {
                self.fullscreen = !self.fullscreen;
                self.chrome_hidden = self.fullscreen;
                r.save = false;
            },
            Msg::ExitImmersive => {
                self.fullscreen = false;
                self.chrome_hidden = false;
                r.save = false;
            },
        }
        r
    }

    /// What the widgets show.
    pub fn controls(&self) -> (r: Controls)
        ensures
            r == (Controls {
                fullscreen: self.fullscreen,
                chrome_visible: !self.chrome_hidden,
                effect: place_of(self.settings.effect) as u32,
                input: self.settings.source == AudioSource::Input,
                auto: self.settings.color_mode == ColorMode::Auto,
                colours: self.settings.color_mode == ColorMode::Manual,
                gain: self.settings.gain,
                blur: self.settings.blur,
            }),
    {
        Controls {
            fullscreen: self.fullscreen,
            chrome_visible: !self.chrome_hidden,
            effect: effect_index(self.settings.effect),
            input: self.settings.source == AudioSource::Input,
            auto: self.settings.color_mode == ColorMode::Auto,
            colours: self.settings.color_mode == ColorMode::Manual,
            gain: self.settings.gain,
            blur: self.settings.blur,
        }
    }
}

/// Hiding and showing the controls leaves everything as it was.
pub proof fn law_toggling_chrome_twice_restores(m: Model, accent: Rgb)
    ensures
        m.after(Msg::ToggleChrome, accent).after(Msg::ToggleChrome, accent) == m,
{
}

/// Entering and leaving the full screen gives back the window with its controls.
pub proof fn law_toggling_fullscreen_twice_restores(m: Model, accent: Rgb)
    ensures
        ({
            let there = m.after(Msg::ToggleFullscreen, accent);
            let back = there.after(Msg::ToggleFullscreen, accent);
            &&& there.chrome_hidden == there.fullscreen
            &&& back == (Model { chrome_hidden: m.fullscreen, ..m })
        }),
{
}

/// Whatever was hidden, leaving the immersive mode shows it, and once is enough.
pub proof fn law_exit_always_restores(m: Model, accent: Rgb)
    ensures
        ({
            let back = m.after(Msg::ExitImmersive, accent);
            &&& back == (Model { chrome_hidden: false, fullscreen: false, ..m })
            &&& back.after(Msg::ExitImmersive, accent) == back
        }),
{
}

/// The immersive mode and the theme never touch the settings, and nothing is saved.
pub proof fn law_only_settings_are_saved(m: Model, msg: Msg, accent: Rgb)
    ensures
        m.outcome(msg).save == saves(msg),
        !saves(msg) ==> m.after(msg, accent).settings == m.settings,
{
}

/// The capture is started anew exactly when the source changes.
pub proof fn law_restart_follows_source(m: Model, msg: Msg, accent: Rgb)
    ensures
        m.outcome(msg).restart is Some <==> m.after(msg, accent).settings.source != m.settings.source,
        m.outcome(msg).restart matches Some(s) ==> m.after(msg, accent).settings.source == s,
{
}

/// Asking for the same thing twice in a row changes nothing the second time.
pub proof fn law_settings_messages_are_idempotent(m: Model, msg: Msg, accent: Rgb)
    requires
        saves(msg),
    ensures
        m.after(msg, accent).after(msg, accent) == m.after(msg, accent),
{
    lemma_limits();
}

/// Settings within the limits stay within the limits.
pub proof fn law_settings_stay_in_range(s: Settings, msg: Msg)
    requires
        s.gain.within(min_gain(), max_gain()),
        s.blur.within(F32::nought(), max_blur()),
        msg matches Msg::SetGain(g) ==> !g.nan(),
        msg matches Msg::SetBlur(b) ==> !b.nan(),
    ensures
        next_settings(s, msg).gain.within(min_gain(), max_gain()),
        next_settings(s, msg).blur.within(F32::nought(), max_blur()),
{
    lemma_limits();
}

} // verus!
