use knoflik_sdr::audio::Depth;
use knoflik_sdr::dsp::Mode;
use knoflik_sdr::settings::{
    choose_config, config_base, config_path, config_path_in, legacy_config_path_in, needs_reopen,
    Autosave, BandMemory, BandTable, ConfigChoice, LevelRange, LevelRanges, Settings, StartupConfig,
};
use knoflik_sdr::source::Hardware;

#[test]
fn sirka_pasma_se_pamatuje_zvlast_pro_kazdy_rezim() {
    let mut s = Settings::default();
    s.mode = Mode::Am;
    s.set_bandwidth(9_000_000);
    s.mode = Mode::Usb;
    s.set_bandwidth(2_400_000);
    s.mode = Mode::Am;
    assert_eq!(s.bandwidth(), 9_000_000);
    s.mode = Mode::Lsb;
    assert_eq!(s.bandwidth(), 2_400_000, "USB a LSB sdílejí jednu šířku");
}

#[test]
fn settings_have_defaults() {
    let s = Settings::default();
    assert_eq!(s.vfo_millihz, 7_300_000_000);
    assert_eq!(s.bandwidth(), 8_000_000);
    assert_eq!(s.zoom, 1_000_000);
    assert!(s.show_bandplan && s.stations.is_empty());
}

#[test]
fn settings_are_kept_below_a_directory() {
    assert_eq!(config_path_in("/c"), "/c/knoflik-sdr/config.toml");
    assert_eq!(legacy_config_path_in("/c"), "/c/rd-sdr/config.toml");
    assert_eq!(config_base(Some("/x"), Some("/h")).as_deref(), Some("/x"));
    assert_eq!(config_base(None, Some("/h")).as_deref(), Some("/h/.config"));
    assert_eq!(config_base(None, None), None);
    assert_eq!(
        config_path(None, Some("/h")).as_deref(),
        Some("/h/.config/knoflik-sdr/config.toml")
    );
}

#[test]
fn the_present_settings_go_first() {
    assert_eq!(choose_config(true, true), ConfigChoice::Present);
    assert_eq!(choose_config(false, true), ConfigChoice::Legacy);
    assert_eq!(choose_config(false, false), ConfigChoice::Nothing);
}

#[test]
fn changes_are_saved_after_a_while() {
    let mut a = Autosave::new();
    assert!(!a.tick(false, 0));
    assert!(!a.tick(true, 100));
    assert!(!a.tick(true, 600));
    assert!(!a.tick(false, 1399));
    assert!(a.tick(false, 1400));
    assert!(!a.tick(false, 9000));
    assert!(!a.flush());
    a.tick(true, 10_000);
    assert!(a.flush());
    assert!(!a.flush());
}

#[test]
fn bands_are_remembered_by_name() {
    let m = |freq_millihz| BandMemory { freq_millihz, mode: Mode::Lsb, bandwidth_millihz: 1 };
    let mut t = BandTable::new();
    assert_eq!(t.get("40 m"), None);
    t.insert("40 m", m(1));
    t.insert("20 m", m(2));
    t.insert("40 m", m(3));
    assert_eq!(t.get("40 m"), Some(m(3)));
    assert_eq!(t.get("20 m"), Some(m(2)));
    assert_eq!(t.all().len(), 2);
}

#[test]
fn a_radio_is_opened_again_for_other_settings() {
    let of = |device: &str, rsp1_rate_hz| StartupConfig {
        hardware: Hardware::SoftRock,
        rsp1_rate_hz,
        capture_device: device.to_string(),
        depth: Depth::Auto,
        si570_xtal_millihz: 114_269_790_000,
        si570_i2c_addr: 0x55,
    };
    assert!(!needs_reopen(&of("a", 1), &of("a", 1)));
    assert!(needs_reopen(&of("a", 1), &of("b", 1)));
    assert!(needs_reopen(&of("a", 1), &of("a", 2)));
}

#[test]
fn every_radio_has_its_own_levels() {
    let mut r = LevelRanges::default();
    let usual = LevelRange { min: -110_000, max: -20_000 };
    assert_eq!((r.of(Hardware::SoftRock), r.of(Hardware::Rsp1)), (usual, usual));
    let own = LevelRange { min: -95_000, max: -5_000 };
    r.set(Hardware::Rsp1, own);
    assert_eq!((r.of(Hardware::SoftRock), r.of(Hardware::Rsp1)), (usual, own));
    r.set(Hardware::SoftRock, own);
    assert_eq!((r.softrock, r.rsp1), (own, own));
}
