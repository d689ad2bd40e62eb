use knoflik_sdr::dsp::Mode;
use knoflik_sdr::radio::{
    after_recorder, append_console, append_decoded, bandwidth_range, decimation, fft_shift,
    rds_search_text, recorder_step, retry_step, Gathered, RdsLog, RecorderEvent, RecorderStep,
    RetryStep, SpectrumClock, FFT_SIZE, RETRY_RESTS,
};

#[test]
fn widths_depend_on_the_mode() {
    assert_eq!(bandwidth_range(Mode::Cw), (150, 2_000));
    assert_eq!(bandwidth_range(Mode::Usb), bandwidth_range(Mode::Lsb));
    assert_eq!(bandwidth_range(Mode::Wfm), (120_000, 230_000));
}

#[test]
fn rates_come_down_to_sound() {
    assert_eq!(decimation(96_000), 2);
    assert_eq!(decimation(1_344_000), 28);
    assert_eq!(decimation(8_000), 1);
    assert_eq!(decimation(44_100), 1);
}

#[test]
fn every_bin_has_its_place() {
    assert_eq!(fft_shift(FFT_SIZE / 2), 0);
    let mut seen = vec![false; FFT_SIZE];
    for i in 0..FFT_SIZE {
        seen[fft_shift(i)] = true;
    }
    assert!(seen.iter().all(|s| *s));
}

#[test]
fn spectra_are_not_made_too_often() {
    let mut clock = SpectrumClock::new(0);
    for _ in 0..FFT_SIZE - 1 {
        assert_eq!(clock.push(20), Gathered::More);
    }
    assert_eq!(clock.push(20), Gathered::Ready);
    for _ in 0..FFT_SIZE - 1 {
        clock.push(25);
    }
    assert_eq!(clock.push(35), Gathered::Dropped);
    for _ in 0..FFT_SIZE - 1 {
        clock.push(35);
    }
    assert_eq!(clock.push(36), Gathered::Ready);
}

#[test]
fn long_texts_lose_their_start() {
    let mut waiting = "a".repeat(8_192);
    append_decoded(&mut waiting, "");
    assert_eq!(waiting.len(), 8_192);
    append_decoded(&mut waiting, "b");
    assert_eq!(waiting.len(), 4_096);
    assert!(waiting.ends_with("ab"));
    let mut shown = "¿".repeat(8_192);
    append_console(&mut shown, "x");
    assert_eq!(shown.len(), 8_191);
    assert!(shown.starts_with('¿') && shown.ends_with('x'));
}

#[test]
fn the_recorder_does_what_is_wanted() {
    assert_eq!(recorder_step(true, false), RecorderStep::Start);
    assert_eq!(recorder_step(true, true), RecorderStep::Feed);
    assert_eq!(recorder_step(false, true), RecorderStep::Stop);
    assert_eq!(recorder_step(false, false), RecorderStep::Rest);
    let told = |event, wanted| after_recorder(&event, wanted);
    assert_eq!(
        told(RecorderEvent::Opened { file: "a.wav" }, true),
        (Some("nahrávám a.wav".to_string()), true, true)
    );
    assert_eq!(
        told(RecorderEvent::NotOpened { error: "e" }, true),
        (Some("nahrávání selhalo: e".to_string()), false, false)
    );
    assert_eq!(told(RecorderEvent::Written, true), (None, true, true));
    assert_eq!(
        told(RecorderEvent::NotWritten { error: "e" }, true),
        (Some("zápis selhal: e".to_string()), false, false)
    );
    assert_eq!(
        told(RecorderEvent::Closed { file: "a.wav", micros: 2_500_000 }, false),
        (Some("uloženo a.wav (2 s)".to_string()), false, false)
    );
    assert_eq!(
        told(RecorderEvent::NotClosed { error: "e" }, false),
        (Some("uložení selhalo: e".to_string()), false, false)
    );
}

#[test]
fn blocks_are_counted_between_looks() {
    let mut log = RdsLog::new();
    assert_eq!(log.tick(10, 5), (10, 15));
    assert_eq!(log.tick(12, 5), (2, 2));
    log.prev_ok = u32::MAX;
    assert_eq!(log.tick(1, 5), (2, 2));
    assert_eq!(rds_search_text(3, 4), "RDS: hledám… (3/7)");
    assert_eq!(rds_search_text(u32::MAX, 1), "RDS: hledám… (4294967295/4294967296)");
}

#[test]
fn a_radio_that_failed_is_left_alone_for_a_while() {
    assert_eq!(RETRY_RESTS, 20);
    assert_eq!(retry_step(0, true, false), RetryStep::Rest);
    assert_eq!(retry_step(19, true, false), RetryStep::Rest);
    assert_eq!(retry_step(20, true, false), RetryStep::GoOn);
    assert_eq!(retry_step(3, false, false), RetryStep::GoOn);
    assert_eq!(retry_step(3, true, true), RetryStep::GoOn);
}
