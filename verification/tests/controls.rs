//! Settings, theme and controls.

use sinestesia::config::{AudioSource, ColorMode, Effect, NoConfigDir, Rgb, Settings, Stored};
use sinestesia::float::F32;
use sinestesia::render::Palette;
use sinestesia::theme::{accent_palette, lighten};
use sinestesia::ui::{
    effect_index, effect_label, index_effect, key_message, mode_of_switch, palette_for, source_of_switch, Key, Model,
    Msg, EFFECTS,
};

fn of(x: f32) -> F32 {
    F32 { bits: x.to_bits() }
}

fn to(x: F32) -> f32 {
    f32::from_bits(x.bits)
}

fn rgb(r: f32, g: f32, b: f32) -> Rgb {
    Rgb::new(of(r), of(g), of(b))
}

fn accent() -> Rgb {
    rgb(0.2, 0.5, 0.9)
}

fn model() -> Model {
    Model::new(Settings::default(), accent())
}

#[test]
fn defaults_are_those_of_a_first_start() {
    let s = Settings::default();
    assert_eq!(s.effect, Effect::Bars);
    assert_eq!(s.source, AudioSource::Output);
    assert_eq!(s.color_mode, ColorMode::Auto);
    assert_eq!(s.color_a, rgb(0.84, 0.73, 1.0));
    assert_eq!(s.color_b, rgb(0.95, 0.72, 0.77));
    assert_eq!(to(s.gain), 1.0);
    assert_eq!(to(s.blur), 0.0);
    assert_eq!(Effect::default(), Effect::Bars);
    assert_eq!(AudioSource::default(), AudioSource::Output);
    assert_eq!(ColorMode::default(), ColorMode::Auto);
}

#[test]
fn gain_and_blur_stay_in_range() {
    for (x, want) in [(0.0f32, 0.1f32), (0.1, 0.1), (3.3, 3.3), (10.0, 10.0), (99.0, 10.0), (-1.0, 0.1)] {
        assert_eq!(to(Settings::clamp_gain(of(x))), want);
    }
    for (x, want) in [(-0.5f32, 0.0f32), (0.0, 0.0), (0.5, 0.5), (0.95, 0.95), (1.0, 0.95)] {
        assert_eq!(to(Settings::clamp_blur(of(x))), want);
    }
    assert!(to(Settings::clamp_gain(of(f32::NAN))).is_nan());
}

#[test]
fn settings_live_in_the_configuration_directory() {
    let path = |d: &str| Settings::path_in(Some(d.as_bytes().to_vec()));
    assert_eq!(path("/home/a/.config"), Some(b"/home/a/.config/sinestesia/config.toml".to_vec()));
    assert_eq!(path("/"), Some(b"/sinestesia/config.toml".to_vec()));
    assert_eq!(path("conf/"), Some(b"conf/sinestesia/config.toml".to_vec()));
    assert_eq!(path(""), Some(b"sinestesia/config.toml".to_vec()));
    assert_eq!(Settings::path_in(None), None);
    let t = Settings::target_in(Some(b"/x".to_vec())).ok().unwrap();
    assert_eq!(t.dir, b"/x/sinestesia".to_vec());
    assert_eq!(t.file, b"/x/sinestesia/config.toml".to_vec());
    assert_eq!(Settings::target_in(None).err(), Some(NoConfigDir));
}

#[test]
fn paths_are_joined_as_the_standard_library_joins_them() {
    for d in ["/home/a/.config", "/", "conf/", "", "a//", "/x/y"] {
        let want = std::path::PathBuf::from(d).join("sinestesia").join("config.toml");
        let got = Settings::path_in(Some(d.as_bytes().to_vec())).unwrap();
        assert_eq!(got, want.into_os_string().into_encoded_bytes());
    }
}

#[test]
fn the_users_configuration_directory_is_asked_for() {
    let want = dirs::config_dir().map(|d| d.join("sinestesia").join("config.toml"));
    assert_eq!(Settings::config_path(), want.map(|p| p.into_os_string().into_encoded_bytes()));
    match Settings::save_target() {
        Ok(t) => assert_eq!(Some(t.file), Settings::config_path()),
        Err(_) => assert!(dirs::config_dir().is_none()),
    }
}

#[test]
fn stored_settings_replace_the_defaults() {
    let mut s = Settings::default();
    s.effect = Effect::Tunnel;
    s.gain = of(2.5);
    assert_eq!(Settings::load(Stored::Read(s)), s);
    assert_eq!(Settings::load(Stored::NoConfigDir), Settings::default());
    assert_eq!(Settings::load(Stored::Unreadable), Settings::default());
    assert_eq!(Settings::load(Stored::Malformed), Settings::default());
}

#[test]
fn the_theme_goes_from_the_accent_halfway_to_white() {
    let p = accent_palette(accent());
    assert_eq!(p.color_a, accent());
    for (x, y) in [(p.color_b.r, 0.2f32), (p.color_b.g, 0.5), (p.color_b.b, 0.9)] {
        assert_eq!(to(x), y + (1.0 - y) * 0.5);
        assert!(to(x) >= y && to(x) <= 1.0);
    }
    assert_eq!(lighten(accent(), of(0.0)), accent());
    assert_eq!(lighten(rgb(0.0, 0.0, 0.0), of(1.0)), rgb(1.0, 1.0, 1.0));
}

#[test]
fn every_effect_is_in_the_list_once() {
    let names = [
        "Barre", "Linea", "Radiale", "Linea Spettro", "Radiale Spettro", "Tunnel", "Poliedro", "Imaging", "Rilievo",
        "Fase", "Nebulosa",
    ];
    assert_eq!(names.len() as u32, EFFECTS);
    for i in 0..EFFECTS {
        let e = index_effect(i);
        assert_eq!(effect_index(e), i);
        assert_eq!(effect_label(e), names[i as usize]);
    }
    assert_eq!(index_effect(EFFECTS), Effect::Bars);
    assert_eq!(index_effect(u32::MAX), Effect::Bars);
    assert_eq!(effect_index(Effect::Solid), 6);
}

#[test]
fn keys_ask_for_the_immersive_mode() {
    assert_eq!(key_message(Key::F11), Some(Msg::ToggleFullscreen));
    assert_eq!(key_message(Key::LowerH), Some(Msg::ToggleChrome));
    assert_eq!(key_message(Key::UpperH), Some(Msg::ToggleChrome));
    assert_eq!(key_message(Key::Escape), Some(Msg::ExitImmersive));
    assert_eq!(key_message(Key::Other), None);
    assert_eq!(source_of_switch(true), AudioSource::Input);
    assert_eq!(source_of_switch(false), AudioSource::Output);
    assert_eq!(mode_of_switch(true), ColorMode::Auto);
    assert_eq!(mode_of_switch(false), ColorMode::Manual);
}

#[test]
fn the_picture_starts_from_the_settings() {
    let mut s = Settings::default();
    s.source = AudioSource::Input;
    s.effect = Effect::Line;
    s.color_mode = ColorMode::Manual;
    s.gain = of(3.0);
    s.blur = of(0.4);
    let m = Model::new(s, accent());
    assert!(m.viz.mirror);
    assert_eq!(m.viz.effect, Effect::Line);
    assert_eq!(m.viz.palette, Palette { color_a: s.color_a, color_b: s.color_b });
    assert_eq!((to(m.viz.gain), to(m.viz.blur)), (3.0, 0.4));
    assert!(!m.chrome_hidden && !m.fullscreen);
    assert_eq!(model().viz.palette, accent_palette(accent()));
    assert_eq!(palette_for(&s, accent()), m.viz.palette);
    let c = m.controls();
    assert!(c.input && !c.auto && c.colours && c.chrome_visible && !c.fullscreen);
    assert_eq!((c.effect, to(c.gain), to(c.blur)), (1, 3.0, 0.4));
}

#[test]
fn controls_change_settings_and_picture() {
    let mut m = model();
    let r = m.update(Msg::SetEffect(Effect::Radial), accent());
    assert!(r.save && r.restart.is_none());
    assert_eq!((m.settings.effect, m.viz.effect), (Effect::Radial, Effect::Radial));
    m.update(Msg::SetGain(of(50.0)), accent());
    assert_eq!((to(m.settings.gain), to(m.viz.gain)), (10.0, 10.0));
    m.update(Msg::SetBlur(of(2.0)), accent());
    assert_eq!((to(m.settings.blur), to(m.viz.blur)), (0.95, 0.95));
}

#[test]
fn a_new_source_restarts_the_capture() {
    let mut m = model();
    let same = m.update(Msg::SetSource(AudioSource::Output), accent());
    assert!(same.save && same.restart.is_none());
    let r = m.update(Msg::SetSource(AudioSource::Input), accent());
    assert_eq!(r.restart, Some(AudioSource::Input));
    assert!(r.save && m.viz.mirror);
    m.update(Msg::SetSource(AudioSource::Output), accent());
    assert!(!m.viz.mirror);
}

#[test]
fn colours_count_in_manual_mode_only() {
    let mut m = model();
    let auto = m.viz.palette;
    let r = m.update(Msg::SetColorA(rgb(1.0, 0.0, 0.0)), accent());
    assert!(r.save);
    assert_eq!(m.settings.color_a, rgb(1.0, 0.0, 0.0));
    assert_eq!(m.viz.palette, auto);
    m.update(Msg::SetColorMode(ColorMode::Manual), accent());
    assert_eq!(m.viz.palette.color_a, rgb(1.0, 0.0, 0.0));
    m.update(Msg::SetColorB(rgb(0.0, 1.0, 0.0)), accent());
    assert_eq!(m.viz.palette.color_b, rgb(0.0, 1.0, 0.0));
    let r = m.update(Msg::ReloadAutoTheme, rgb(0.1, 0.1, 0.1));
    assert!(!r.save && !r.recoloured);
    assert_eq!(m.viz.palette.color_b, rgb(0.0, 1.0, 0.0));
    m.update(Msg::SetColorMode(ColorMode::Auto), accent());
    let r = m.update(Msg::ReloadAutoTheme, rgb(0.1, 0.1, 0.1));
    assert!(!r.save && r.recoloured);
    assert_eq!(m.viz.palette.color_a, rgb(0.1, 0.1, 0.1));
}

#[test]
fn the_immersive_mode_is_left_as_it_was_entered() {
    let mut m = model();
    assert!(!m.update(Msg::ToggleChrome, accent()).save);
    assert!(m.chrome_hidden && !m.fullscreen);
    m.update(Msg::ToggleChrome, accent());
    assert!(!m.chrome_hidden);
    assert!(!m.update(Msg::ToggleFullscreen, accent()).save);
    assert!(m.chrome_hidden && m.fullscreen);
    m.update(Msg::ToggleFullscreen, accent());
    assert!(!m.chrome_hidden && !m.fullscreen);
    m.update(Msg::ToggleFullscreen, accent());
    assert!(!m.update(Msg::ExitImmersive, accent()).save);
    assert!(!m.chrome_hidden && !m.fullscreen);
    assert_eq!(m.settings, Settings::default());
}
