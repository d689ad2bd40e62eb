use knoflik_sdr::bandplan::bands;
use knoflik_sdr::decode::Decoder;
use knoflik_sdr::dsp::Mode;
use knoflik_sdr::receiver::{
    band_mode, band_reachable, band_tip, mode_available, station_line, step_label, typed_frequency,
    Receiver,
};
use knoflik_sdr::scan::{
    scan_offset, scan_window_steps, Scan, ScanKind, ScanStep, SCAN_DWELL_MS,
};
use knoflik_sdr::settings::{BandTable, Settings, Station};
use knoflik_sdr::source::Hardware;

const SPAN: i64 = 96_000_000;
const KHZ: i64 = 1_000_000;

fn receiver() -> Receiver {
    Receiver::new(Settings::default())
}

#[test]
fn tuning_moves_by_what_it_is_told() {
    let mut r = receiver();
    r.tune_by(5 * KHZ, SPAN);
    assert_eq!((r.set.vfo_millihz, r.set.offset_millihz), (7_300 * KHZ, 5 * KHZ));
    // Past the edge the oscillator follows.
    r.tune_by(39 * KHZ, SPAN);
    assert_eq!(r.tuned(), 7_344 * KHZ);
    assert_eq!(r.set.offset_millihz, 24 * KHZ);
    r.tune_by(-70 * KHZ, SPAN);
    assert_eq!(r.tuned(), 7_274 * KHZ);
    assert_eq!(r.set.offset_millihz, -24 * KHZ);
}

#[test]
fn tuning_at_the_end_of_the_range_keeps_its_frequency() {
    let mut r = receiver();
    r.set_vfo(50 * KHZ);
    assert_eq!(r.set.vfo_millihz, 100 * KHZ);
    r.tune_by(-60 * KHZ, SPAN);
    assert_eq!(r.tuned(), 40 * KHZ);
    assert_eq!(r.set.vfo_millihz, 100 * KHZ);
}

#[test]
fn a_step_of_the_oscillator_keeps_the_station() {
    let mut r = receiver();
    r.set.offset_millihz = 12 * KHZ;
    r.step_vfo(10 * KHZ, SPAN);
    assert_eq!((r.tuned(), r.set.vfo_millihz), (7_312 * KHZ, 7_310 * KHZ));
    for _ in 0..20 {
        r.step_vfo(10 * KHZ, SPAN);
    }
    assert_eq!(r.set.offset_millihz, -SPAN * 48 / 100);
}

#[test]
fn a_jump_shows_the_next_part_of_the_band() {
    let mut r = receiver();
    r.set.offset_millihz = 3 * KHZ;
    r.jump_window(SPAN, true, 1_000);
    assert_eq!((r.set.vfo_millihz, r.set.offset_millihz), (7_396 * KHZ, 0));
    assert!(!r.snap_tick(1_399));
    assert!(r.snap_tick(1_400));
    assert!(!r.snap_tick(9_999));
    r.jump_window(SPAN, false, 0);
    assert_eq!(r.set.vfo_millihz, 7_300 * KHZ);
}

#[test]
fn stations_are_tuned_to_beside_the_middle() {
    let mut r = receiver();
    r.snap_at_ms = Some(5);
    r.tune_station(
        &Station {
            name: "x".to_string(),
            freq_millihz: 9_996 * KHZ,
            mode: Mode::Cw,
            bandwidth_millihz: 100_000,
        },
        SPAN,
    );
    assert_eq!(r.tuned(), 9_996 * KHZ);
    assert_eq!(r.set.offset_millihz, 10 * KHZ);
    assert_eq!(r.set.bandwidth(), 150_000);
    assert_eq!(r.snap_at_ms, None);
    r.set.hardware = Hardware::Rsp1;
    r.tune_to(98_000 * KHZ, Mode::Wfm, 180 * KHZ, 1_344 * KHZ);
    assert_eq!((r.tuned(), r.set.offset_millihz), (98_000 * KHZ, 336 * KHZ));
}

#[test]
fn channels_lie_around_or_beside_the_carrier() {
    let mut r = receiver();
    assert_eq!(r.band_edges(), (-4 * KHZ, 4 * KHZ));
    assert_eq!(r.draggable_edges(), vec![-4 * KHZ, 4 * KHZ]);
    r.set.mode = Mode::Usb;
    assert_eq!(r.band_edges(), (0, 2_700_000));
    assert_eq!(r.draggable_edges(), vec![2_700_000]);
    r.set.mode = Mode::Lsb;
    assert_eq!(r.draggable_edges(), vec![-2_700_000]);
    r.set.mode = Mode::Wfm;
    assert!(r.draggable_edges().is_empty());
}

#[test]
fn edges_are_dragged_within_limits() {
    let mut r = receiver();
    r.drag_edge(-3 * KHZ);
    assert_eq!(r.set.bandwidth(), 6 * KHZ);
    r.set.mode = Mode::Lsb;
    r.drag_edge(-3 * KHZ);
    assert_eq!(r.set.bandwidth(), 3 * KHZ);
    r.drag_edge(3 * KHZ);
    assert_eq!(r.set.bandwidth(), 400_000);
    r.set.mode = Mode::Am;
    assert_eq!(r.set.bandwidth(), 6 * KHZ);
    r.set_bandwidth(i64::MAX);
    assert_eq!(r.set.bandwidth(), 24 * KHZ);
}

#[test]
fn the_view_follows_the_tuning() {
    let mut r = receiver();
    r.set.offset_millihz = 30 * KHZ;
    r.set_zoom(8_000_000, SPAN);
    assert_eq!(r.view(SPAN), (30 * KHZ, 12 * KHZ));
    r.tune_by(5 * KHZ, SPAN);
    assert_eq!(r.view(SPAN).0, 30 * KHZ);
    r.tune_by(5 * KHZ, SPAN);
    assert_eq!(r.view(SPAN).0, 40 * KHZ - 5_400_000);
    r.set_zoom(0, SPAN);
    assert_eq!((r.set.zoom, r.view(SPAN)), (1_000_000, (0, SPAN)));
    r.set_zoom(u32::MAX, SPAN);
    assert_eq!(r.set.zoom, 32_000_000);
}

#[test]
fn steps_depend_on_mode_and_radio() {
    let mut r = receiver();
    assert_eq!(r.tune_step(), 100_000);
    r.set.mode = Mode::Cw;
    assert_eq!(r.tune_step(), 10_000);
    r.set.mode = Mode::Wfm;
    assert_eq!(r.tune_step(), 100 * KHZ);
    assert_eq!(r.vfo_steps_khz(), vec![-10, -1, 1, 10]);
    r.set.hardware = Hardware::Rsp1;
    assert_eq!(r.vfo_steps_khz().len(), 6);
    assert_eq!(step_label(-1000), "-1 M");
    assert_eq!(step_label(100), "+100 k");
}

#[test]
fn bands_are_come_back_to() {
    let mut r = receiver();
    let mut memory = BandTable::new();
    let all = bands();
    let forty = all.iter().find(|b| b.name == "40 m").unwrap();
    let forty_one = all.iter().find(|b| b.name == "41 m").unwrap();
    r.goto_band(forty, &memory, SPAN);
    assert_eq!((r.tuned(), r.set.mode), (7_100 * KHZ, Mode::Lsb));
    r.tune_by(-50 * KHZ, SPAN);
    r.remember_band(&mut memory);
    r.goto_band(forty_one, &memory, SPAN);
    assert_eq!((r.tuned(), r.set.mode), (7_325 * KHZ, Mode::Am));
    r.remember_band(&mut memory);
    r.goto_band(forty, &memory, SPAN);
    assert_eq!((r.tuned(), r.set.mode), (7_050 * KHZ, Mode::Lsb));
    r.tune_to(6_800 * KHZ, Mode::Am, 8 * KHZ, SPAN);
    r.remember_band(&mut memory);
    assert_eq!(memory.all().len(), 2);
    assert!(band_reachable(forty, Hardware::SoftRock));
    assert_eq!(band_tip(forty, Hardware::SoftRock, false), "40 m - doprostřed (7100 kHz)");
    assert_eq!(band_tip(forty, Hardware::Rsp1, true), "zpět tam, kde jsi na 40 m naposled byl");
}

#[test]
fn a_band_has_its_usual_mode() {
    let mut band = bands()[0];
    band.from_hz = 87_500_000;
    band.to_hz = 108_000_000;
    band.broadcast = true;
    assert_eq!(band_mode(&band, Hardware::Rsp1), Mode::Wfm);
    assert_eq!(band_mode(&band, Hardware::SoftRock), Mode::Am);
    assert!(!band_reachable(&band, Hardware::SoftRock));
    assert_eq!(
        band_tip(&band, Hardware::SoftRock, true),
        format!("{} je mimo dosah rádia SoftRock", band.name)
    );
    band.broadcast = false;
    band.from_hz = 144_000_000;
    band.to_hz = 146_000_000;
    assert_eq!(band_mode(&band, Hardware::Rsp1), Mode::Nfm);
    band.from_hz = 14_000_000;
    assert_eq!(band_mode(&band, Hardware::Rsp1), Mode::Usb);
}

#[test]
fn favourites_are_kept_in_order() {
    let mut r = receiver();
    r.add_current_station();
    assert_eq!(r.set.stations[0].name, "7300.0 kHz");
    assert!(r.is_tuned_station(&r.set.stations[0]));
    r.tune_by(50_000, SPAN);
    assert!(!r.is_tuned_station(&r.set.stations[0]));
    r.set.mode = Mode::Usb;
    r.add_current_station();
    assert_eq!(r.set.stations[1].bandwidth_millihz, 2_700_000);
    assert_eq!(station_line(&r.set.stations[1]), "7300.1 kHz\n7300.1 kHz · USB");
    r.set.stations[1].name = "b".to_string();
    r.move_station_up(1);
    assert_eq!(r.set.stations[0].name, "b");
    r.remove_station(0);
    assert_eq!(r.set.stations.len(), 1);
    assert_eq!(r.set.stations[0].name, "7300.0 kHz");
}

#[test]
fn the_strongest_station_is_tuned_to() {
    let mut r = receiver();
    let mut bins = vec![-110_000; 2048];
    r.snap_to_strongest(&bins, SPAN);
    assert_eq!(r.set.offset_millihz, 0);
    bins[1024 + 256] = -50_000;
    r.snap_to_strongest(&bins, SPAN);
    assert_eq!(r.set.offset_millihz, 12 * KHZ);
}

#[test]
fn a_notch_shows_where_its_tone_lies() {
    let mut r = receiver();
    r.set.offset_millihz = 5 * KHZ;
    assert_eq!(r.notch_rf_offsets(KHZ), vec![4 * KHZ, 6 * KHZ]);
    r.set.mode = Mode::Cw;
    assert_eq!(r.notch_rf_offsets(KHZ), vec![5_300_000]);
    r.set.mode = Mode::Lsb;
    assert_eq!(r.notch_rf_offsets(KHZ), vec![4 * KHZ]);
    r.set.mode = Mode::Nfm;
    assert!(r.notch_rf_offsets(KHZ).is_empty());
}

#[test]
fn station_data_are_left_behind() {
    let mut r = receiver();
    assert!(r.left_rds_station());
    assert!(!r.left_rds_station());
    r.tune_to(7_350 * KHZ, Mode::Am, 8 * KHZ, SPAN);
    assert!(!r.left_rds_station());
    r.tune_to(7_350 * KHZ + 1, Mode::Am, 8 * KHZ, SPAN);
    assert!(r.left_rds_station());
}

#[test]
fn a_radio_without_wideband_fm_goes_to_am() {
    let mut r = receiver();
    r.switch_hardware(Hardware::Rsp1);
    r.tune_to(98_000 * KHZ, Mode::Wfm, 180 * KHZ, 1_344 * KHZ);
    assert!(mode_available(Mode::Wfm, Hardware::Rsp1));
    assert!(!mode_available(Mode::Wfm, Hardware::SoftRock));
    r.switch_hardware(Hardware::SoftRock);
    assert_eq!((r.set.mode, r.set.vfo_millihz), (Mode::Am, 60_000 * KHZ));
}

#[test]
fn a_decoder_rests_while_nobody_looks() {
    let mut r = receiver();
    r.set.decoder = Decoder::Cw;
    assert_eq!(r.active_decoder(), Decoder::Off);
    r.set.show_console = true;
    assert_eq!(r.active_decoder(), Decoder::Cw);
}

#[test]
fn frequencies_can_be_typed() {
    assert_eq!(typed_frequency(" 7130,5 "), Some(7_130_500_000));
    assert_eq!(typed_frequency("7130.5"), Some(7_130_500_000));
    assert_eq!(typed_frequency("inf"), Some(i64::MAX));
    assert_eq!(typed_frequency("nan"), None);
    assert_eq!(typed_frequency("abc"), None);
    assert_eq!(typed_frequency(""), None);
}

#[test]
fn a_scan_goes_round_and_stops_at_signals() {
    let mut s = Scan::new(ScanKind::Favourites, 0);
    // The first channel gets its time too.
    assert_eq!(s.tick(0, true, false, 3), ScanStep::Stay);
    assert_eq!(s.tick(SCAN_DWELL_MS - 1, true, false, 3), ScanStep::Stay);
    assert_eq!(s.tick(SCAN_DWELL_MS, true, false, 3), ScanStep::Go(1));
    assert_eq!(s.tick(2 * SCAN_DWELL_MS - 1, true, false, 3), ScanStep::Stay);
    assert_eq!(s.tick(2 * SCAN_DWELL_MS, true, false, 3), ScanStep::Go(2));
    assert_eq!(s.tick(3 * SCAN_DWELL_MS, true, false, 3), ScanStep::Go(0));
    assert_eq!(s.tick(5_000, true, true, 3), ScanStep::Stay);
    assert!(s.holding);
    assert_eq!(s.tick(6_000, true, false, 3), ScanStep::Stay);
    // A short pause does not count.
    assert_eq!(s.tick(7_999, true, false, 3), ScanStep::Stay);
    assert_eq!(s.tick(7_999, true, true, 3), ScanStep::Stay);
    assert_eq!(s.tick(8_000, true, false, 3), ScanStep::Stay);
    assert_eq!(s.tick(9_999, true, false, 3), ScanStep::Stay);
    assert!(s.holding);
    assert_eq!(s.tick(10_000, true, false, 3), ScanStep::Stay);
    assert!(!s.holding);
    assert_eq!(s.tick(10_000, true, false, 3), ScanStep::Go(1));
    assert_eq!(s.tick(20_000, true, false, 0), ScanStep::End);
    assert_eq!(s.tick(20_000, false, true, 3), ScanStep::End);
    assert_eq!(ScanKind::Window.label(), "výřez");
}

#[test]
fn a_scan_of_the_window_stays_in_it() {
    assert_eq!(scan_window_steps(SPAN, 8 * KHZ), 12);
    assert_eq!(scan_window_steps(SPAN, 0), 960);
    assert_eq!(scan_window_steps(KHZ, 8 * KHZ), 1);
    assert_eq!(scan_window_steps(1_000_000_000_000_000, 0), 10_000_000_000);
    assert_eq!(scan_offset(0, SPAN, 8 * KHZ, 0), -44 * KHZ as i128);
    assert_eq!(scan_offset(0, SPAN, 8 * KHZ, 11), 44 * KHZ as i128);
}

#[test]
fn the_receiver_scans() {
    let mut r = receiver();
    assert_eq!(r.scan_tick(0, false, SPAN), None);
    r.start_scan(ScanKind::Window, 0);
    // Without a squelch nothing would stop it.
    assert_eq!(r.scan_tick(0, false, SPAN), None);
    assert!(r.scan.is_none());
    r.set.squelch_on = true;
    r.start_scan(ScanKind::Window, 0);
    assert_eq!(r.scan_tick(SCAN_DWELL_MS - 1, false, SPAN), None);
    let first = r.scan_tick(SCAN_DWELL_MS, false, SPAN);
    assert_eq!(first, Some((ScanKind::Window, 1)));
    assert_eq!(r.scan_count(ScanKind::Window, SPAN), 12);
    r.scan_goto(ScanKind::Window, 1, SPAN);
    assert_eq!(r.set.offset_millihz, -36 * KHZ);
    r.start_scan(ScanKind::Favourites, 0);
    assert_eq!(r.scan_tick(SCAN_DWELL_MS, false, SPAN), None);
    assert!(r.scan.is_none());
    r.add_current_station();
    r.tune_to(9_000 * KHZ, Mode::Usb, 2 * KHZ, SPAN);
    r.scan_goto(ScanKind::Favourites, 0, SPAN);
    assert_eq!((r.tuned(), r.set.mode), (7_264 * KHZ, Mode::Am));
}

#[test]
fn the_view_follows_the_tuning_only_where_it_has_to() {
    let mut r = receiver();
    r.set_zoom(8_000_000, SPAN);
    assert_eq!(r.view(SPAN), (0, 12 * KHZ));
    r.set.offset_millihz = 5 * KHZ;
    r.keep_offset_visible(SPAN);
    assert_eq!(r.view_center, 0);
    r.set.offset_millihz = 10 * KHZ;
    r.keep_offset_visible(SPAN);
    assert_eq!(r.view_center, 4_600_000);
    r.center_view_on_tuned(SPAN);
    assert_eq!(r.view_center, 10 * KHZ);
    // At the edge of the spectrum there is nothing more to be seen.
    r.set.offset_millihz = 47 * KHZ;
    r.center_view_on_tuned(SPAN);
    assert_eq!(r.view(SPAN), (42 * KHZ, 12 * KHZ));
}

#[test]
fn stations_beyond_the_ends_of_the_radio_are_received() {
    const WIDE: i64 = 1_344_000_000;
    let mut r = receiver();
    r.switch_hardware(Hardware::Rsp1);
    let (lo, hi) = Hardware::Rsp1.tuning_range_khz();
    // The time signal on 77.5 kHz lies below what the oscillator can be put on.
    r.tune_to(77_500_000, Mode::Cw, 500_000, WIDE);
    assert_eq!(r.tuned(), 77_500_000);
    assert_eq!(r.set.vfo_millihz, lo * KHZ);
    r.tune_to(hi * KHZ + 20 * KHZ, Mode::Nfm, 16 * KHZ, WIDE);
    assert_eq!(r.tuned(), hi * KHZ + 20 * KHZ);
    assert_eq!(r.set.vfo_millihz, hi * KHZ);
    // Farther than the spectrum reaches, the radio stays at its end.
    r.tune_to(hi * KHZ + WIDE, Mode::Am, 8 * KHZ, WIDE);
    assert_eq!((r.set.vfo_millihz, r.set.offset_millihz), (hi * KHZ, 10 * KHZ));
}

#[test]
fn a_first_visit_takes_the_usual_mode_and_width() {
    const WIDE: i64 = 1_344_000_000;
    let mut r = receiver();
    r.switch_hardware(Hardware::Rsp1);
    let none = BandTable::new();
    let all = bands();
    let named = |name: &str| *all.iter().find(|b| b.name == name).unwrap();
    r.goto_band(&named("FM"), &none, WIDE);
    assert_eq!((r.set.mode, r.set.bandwidth()), (Mode::Wfm, 180 * KHZ));
    assert_eq!(r.tuned(), 97_750 * KHZ);
    r.goto_band(&named("2 m"), &none, WIDE);
    assert_eq!((r.set.mode, r.set.bandwidth()), (Mode::Nfm, 16 * KHZ));
    assert_eq!(r.tuned(), 145_000 * KHZ);
    assert!(!r.shows_schedule());
    r.goto_band(&named("49 m"), &none, WIDE);
    assert!(r.shows_schedule());
}

#[test]
fn names_of_favourites_are_written_as_doubles_are() {
    let mut r = receiver();
    r.tune_to(7_130_150_000, Mode::Lsb, 2_700_000, SPAN);
    r.add_current_station();
    assert_eq!(r.set.stations[0].name, "7130.1 kHz");
    assert_eq!(r.set.stations[0].name, format!("{:.1} kHz", 7130.15f64));
}
