use knoflik_sdr::decode::{Decoder, RttyConfig};
use knoflik_sdr::dsp::{
    hysteresis, keeps_decoder, pre_taps, squelch_open, wfm_if_decim, AgcMode, FirDecim, Mode,
    PRE_TAPS_MAX, PRE_TAPS_MIN,
};
use std::f64::consts::PI;

fn lowpass_taps(cutoff_hz: f64, sample_rate: f64, n: usize) -> Vec<f32> {
    let fc = cutoff_hz / sample_rate;
    let m = (n - 1) as f64;
    let mut taps: Vec<f32> = (0..n)
        .map(|i| {
            let k = i as f64 - m / 2.0;
            let sinc = if k.abs() < 1e-9 {
                2.0 * fc
            } else {
                (2.0 * PI * fc * k).sin() / (PI * k)
            };
            let w = 0.5 - 0.5 * (2.0 * PI * i as f64 / m).cos();
            (sinc * w) as f32
        })
        .collect();
    let sum: f32 = taps.iter().sum();
    if sum.abs() > 1e-12 {
        taps.iter_mut().for_each(|t| *t /= sum);
    }
    taps
}

fn utlum_db(taps: &[f32], f_hz: f64, rate: f64) -> f64 {
    let (mut re, mut im) = (0.0f64, 0.0f64);
    for (n, &h) in taps.iter().enumerate() {
        let w = -2.0 * PI * f_hz * n as f64 / rate;
        re += h as f64 * w.cos();
        im += h as f64 * w.sin();
    }
    20.0 * (re * re + im * im).sqrt().log10()
}

#[test]
fn propust_potlaci_prvni_alias_i_pri_decimaci_28() {
    let in_rate = 1_344_000.0;
    let decim = 28;
    let out_rate = in_rate / decim as f64;
    let taps = lowpass_taps(out_rate * 0.45, in_rate, pre_taps(decim));
    let propust = utlum_db(&taps, 5_000.0, in_rate);
    assert!(propust > -1.0, "propust na 5 kHz utlumena o {propust:.1} dB");
    let alias = utlum_db(&taps, out_rate, in_rate);
    assert!(
        alias < -50.0,
        "alias na {out_rate} Hz utlumen jen o {alias:.1} dB - prolezl by do zvuku"
    );
}

#[test]
fn softrock_zustava_na_minimu_koeficientu() {
    assert_eq!(pre_taps(2), PRE_TAPS_MIN);
    let in_rate = 96_000.0;
    let taps = lowpass_taps(48_000.0 * 0.45, in_rate, pre_taps(2));
    let alias = utlum_db(&taps, 48_000.0, in_rate);
    assert!(alias < -50.0, "alias utlumen jen o {alias:.1} dB");
}

#[test]
fn pocet_koeficientu_je_vzdy_lichy() {
    for d in [1, 2, 3, 4, 28, 100, 1000] {
        assert_eq!(pre_taps(d) % 2, 1, "decim {d} dalo sudý počet");
    }
}

#[test]
fn the_number_of_taps_has_limits() {
    assert_eq!(pre_taps(0), 127);
    assert_eq!(pre_taps(4), 161);
    assert_eq!(pre_taps(28), 1121);
    assert_eq!(pre_taps(38), 1521);
    assert_eq!(pre_taps(39), PRE_TAPS_MAX);
    assert_eq!(pre_taps(usize::MAX), PRE_TAPS_MAX);
}

/// A squelch whose levels are floating-point numbers.
struct Squelch {
    thresholds: Option<(f32, f32)>,
    gain: f32,
    ramp: f32,
    open: bool,
}

impl Squelch {
    fn new(sample_rate: f32) -> Self {
        Squelch {
            thresholds: None,
            gain: 1.0,
            ramp: 1.0 / (0.010 * sample_rate),
            open: true,
        }
    }

    fn set_threshold(&mut self, db: Option<f32>) {
        self.thresholds = db.map(|thr| {
            (10f32.powf((thr - 1.0) / 20.0), 10f32.powf((thr + 1.0) / 20.0))
        });
    }

    fn gate(&mut self, level: f32, x: f32) -> f32 {
        let (close, open) = self.thresholds.unwrap_or((0.0, 0.0));
        self.open = squelch_open(
            self.thresholds.is_some(),
            self.open,
            level < close,
            level > open,
        );
        let target = if self.open { 1.0 } else { 0.0 };
        if self.gain < target {
            self.gain = (self.gain + self.ramp).min(target);
        } else if self.gain > target {
            self.gain = (self.gain - self.ramp).max(target);
        }
        x * self.gain
    }
}

fn settle(sq: &mut Squelch, level_lin: f32) -> f32 {
    let mut g = 0.0;
    for _ in 0..4800 {
        g = sq.gate(level_lin, 1.0);
    }
    g
}

#[test]
fn otevre_nad_prahem_zavre_pod_nim() {
    let mut sq = Squelch::new(48_000.0);
    sq.set_threshold(Some(-40.0));
    assert!(settle(&mut sq, 0.1) > 0.99, "silný signál má bránu otevřít");
    assert!(settle(&mut sq, 0.001) < 0.01, "slabý šum má bránu zavřít");
}

#[test]
fn vypnuty_squelch_pousti_vzdy() {
    let mut sq = Squelch::new(48_000.0);
    sq.set_threshold(None);
    assert!((settle(&mut sq, 0.0) - 1.0).abs() < 1e-6);
    // One that had shut opens again.
    sq.set_threshold(Some(-40.0));
    assert!(settle(&mut sq, 0.0) < 0.01);
    sq.set_threshold(None);
    assert!((settle(&mut sq, 0.0) - 1.0).abs() < 1e-6);
}

#[test]
fn hystereze_drzi_branu_stabilni() {
    let mut sq = Squelch::new(48_000.0);
    sq.set_threshold(Some(-40.0));
    let thr = 10f32.powf(-40.0 / 20.0);
    assert!(settle(&mut sq, 10.0 * thr) > 0.99);
    assert!(settle(&mut sq, thr) > 0.99, "na prahu se nesmí zavřít");
}

#[test]
fn rozdeleni_decimace_je_smysluplne() {
    for (rate, total) in [
        (1_344_000, 28),
        (1_920_000, 40),
        (3_072_000, 64),
        (4_800_000, 100),
        (6_000_000, 125),
    ] {
        let ifd = wfm_if_decim(rate, total);
        assert!(total % ifd == 0, "IF decimace {ifd} nedělí {total}");
        let if_rate = rate as f64 / ifd as f64;
        assert!(
            (200_000.0..=450_000.0).contains(&if_rate),
            "IF {if_rate} Hz mimo použitelné pásmo (rate {rate})"
        );
        let audio_decim = total / ifd;
        assert_eq!(if_rate / audio_decim as f64, 48_000.0, "audio nevyjde na 48 kHz");
    }
}

#[test]
fn a_narrow_input_has_no_intermediate_rate() {
    assert_eq!(wfm_if_decim(96_000, 2), 1);
    assert_eq!(wfm_if_decim(1_344_000, 0), 1);
    assert_eq!(wfm_if_decim(1_344_000, 28), 4);
    // 1200 kHz / 4 is right on the aim.
    assert_eq!(wfm_if_decim(1_200_000, 12), 4);
}

#[test]
fn a_filter_sees_its_last_samples_and_is_due_in_time() {
    let mut f = FirDecim::new(3, 2, 0i32);
    let due: Vec<bool> = (1..=5).map(|x| f.push(x)).collect();
    assert_eq!(due, vec![false, true, false, true, false]);
    assert_eq!((f.recent(0), f.recent(1), f.recent(2)), (5, 4, 3));
    assert_eq!(f.decimation(), 2);
    let mut f = FirDecim::new(4, 0, -1i32);
    assert!(f.push(7));
    assert_eq!((f.recent(0), f.recent(1), f.recent(3)), (7, -1, -1));
}

#[test]
fn modes_and_speeds_have_names() {
    assert_eq!(Mode::default(), Mode::Am);
    assert_eq!(Mode::Nfm.label(), "NFM");
    assert!(Mode::Usb.is_ssb() && Mode::Lsb.is_ssb() && !Mode::Cw.is_ssb());
    assert!(Mode::Wfm.is_wfm() && !Mode::Nfm.is_wfm());
    assert_eq!(AgcMode::default(), AgcMode::Medium);
    assert_eq!(AgcMode::all().map(|m| m.decay_ms()), [100, 500, 2000, 500]);
    assert_eq!(AgcMode::Slow.label(), "pomalá");
}

#[test]
fn a_gate_stays_as_it_is_between_its_thresholds() {
    assert!(hysteresis(true, false, false));
    assert!(!hysteresis(false, false, false));
    assert!(!hysteresis(true, true, false));
    assert!(hysteresis(false, false, true));
}

#[test]
fn a_decoder_goes_on_while_nothing_changes() {
    let cfg = RttyConfig::default();
    let rev = RttyConfig { reverse: true, ..cfg };
    assert!(keeps_decoder(Decoder::Rtty, &cfg, Decoder::Rtty, &cfg));
    assert!(!keeps_decoder(Decoder::Rtty, &cfg, Decoder::Rtty, &rev));
    assert!(keeps_decoder(Decoder::Cw, &cfg, Decoder::Cw, &rev));
    assert!(!keeps_decoder(Decoder::Off, &cfg, Decoder::Cw, &cfg));
}
