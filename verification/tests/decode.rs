use knoflik_sdr::decode::{
    morse_to_char, BaudotState, CwDecoder, Decoder, RttyConfig, RttyDecoder, FIGS, LTRS,
};
use knoflik_sdr::dsp::hysteresis;
use std::f64::consts::PI;

const RATE: f64 = 8000.0;

type Sample = (f32, f32);

fn make_rtty(codes: &[u8], cfg: RttyConfig) -> Vec<Sample> {
    let spb = RATE / (cfg.centibaud as f64 / 100.0);
    let half = cfg.shift_centihz as f64 / 200.0;
    let mut out = Vec::new();
    let mut phase = 0.0f64;
    let emit = |mark: bool, n: usize, out: &mut Vec<Sample>, phase: &mut f64| {
        let f = if mark == !cfg.reverse { half } else { -half };
        for _ in 0..n {
            *phase += 2.0 * PI * f / RATE;
            out.push((phase.cos() as f32, phase.sin() as f32));
        }
    };
    emit(true, spb as usize * 3, &mut out, &mut phase);
    for &code in codes {
        emit(false, spb as usize, &mut out, &mut phase);
        for i in 0..5 {
            emit(code & (1 << i) != 0, spb as usize, &mut out, &mut phase);
        }
        emit(true, (spb * 1.5) as usize, &mut out, &mut phase);
    }
    emit(true, spb as usize * 3, &mut out, &mut phase);
    out
}

struct Smooth {
    y: f32,
    a: f32,
}

impl Smooth {
    fn new(cutoff_hz: f64, rate: f64) -> Self {
        Smooth { y: 0.0, a: 1.0 - (-2.0 * PI * cutoff_hz / rate).exp() as f32 }
    }

    fn push(&mut self, x: f32) -> f32 {
        self.y += (x - self.y) * self.a;
        self.y
    }
}

struct ToneFilter {
    phase: f64,
    step: f64,
    i: Smooth,
    q: Smooth,
}

impl ToneFilter {
    fn new(freq_hz: f64, rate: f64, bw_hz: f64) -> Self {
        ToneFilter {
            phase: 0.0,
            step: -2.0 * PI * freq_hz / rate,
            i: Smooth::new(bw_hz, rate),
            q: Smooth::new(bw_hz, rate),
        }
    }

    fn push(&mut self, z: Sample) -> f32 {
        let (s, c) = self.phase.sin_cos();
        self.phase += self.step;
        if self.phase < -PI {
            self.phase += 2.0 * PI;
        }
        let (c, s) = (c as f32, s as f32);
        let i = self.i.push(z.0 * c - z.1 * s);
        let q = self.q.push(z.0 * s + z.1 * c);
        (i * i + q * q).sqrt()
    }
}

fn read_rtty(sig: &[Sample], cfg: RttyConfig) -> String {
    let (fm, fs) = cfg.tones();
    let baud = cfg.centibaud as f64 / 100.0;
    let mut mark = ToneFilter::new(fm as f64 / 1000.0, RATE, baud);
    let mut space = ToneFilter::new(fs as f64 / 1000.0, RATE, baud);
    let mut d = RttyDecoder::new(RATE as u32, cfg);
    sig.iter()
        .filter_map(|&z| {
            let is_mark = mark.push(z) > space.push(z);
            d.push(is_mark)
        })
        .collect()
}

#[test]
fn rtty_dekoduje_text() {
    let cfg = RttyConfig::default();
    let codes = [0x0A, 0x15, 0x0A, 0x15];
    let text = read_rtty(&make_rtty(&codes, cfg), cfg);
    assert_eq!(text, "RYRY", "dekódováno {text:?}");
}

#[test]
fn rtty_prepina_pismena_a_cislice() {
    let cfg = RttyConfig::default();
    let codes = [FIGS, 0x17, LTRS, 0x03];
    let text = read_rtty(&make_rtty(&codes, cfg), cfg);
    assert_eq!(text, "1A", "dekódováno {text:?}");
}

#[test]
fn rtty_reverse_je_potreba_spravne() {
    let normal = RttyConfig::default();
    let rev = RttyConfig { reverse: true, ..normal };
    let sig = make_rtty(&[0x0A, 0x15], rev);
    let text = read_rtty(&sig, normal);
    assert_ne!(text, "RY", "obrácený signál se neměl přečíst správně");
    let text = read_rtty(&sig, rev);
    assert_eq!(text, "RY", "dekódováno {text:?}");
}

const MORSE: &[(char, &str)] = &[
    ('A', ".-"),
    ('B', "-..."),
    ('C', "-.-."),
    ('D', "-.."),
    ('E', "."),
    ('K', "-.-"),
    ('O', "---"),
    ('Q', "--.-"),
    ('S', "..."),
    ('T', "-"),
    ('1', ".----"),
];

fn make_cw(text: &str, wpm: f64) -> Vec<Sample> {
    let dit = (1.2 / wpm * RATE) as usize;
    let mut out = Vec::new();
    let mut phase = 0.0f64;
    let emit = |on: bool, n: usize, out: &mut Vec<Sample>, phase: &mut f64| {
        for _ in 0..n {
            *phase += 2.0 * PI * 700.0 / RATE;
            let a = if on { 1.0 } else { 0.0 };
            out.push(((a * phase.cos()) as f32, (a * phase.sin()) as f32));
        }
    };
    emit(false, dit * 8, &mut out, &mut phase);
    for (ci, ch) in text.chars().enumerate() {
        if ch == ' ' {
            emit(false, dit * 4, &mut out, &mut phase);
            continue;
        }
        if ci > 0 {
            emit(false, dit * 3, &mut out, &mut phase);
        }
        let code = MORSE.iter().find(|(c, _)| *c == ch).unwrap().1;
        for (i, sym) in code.chars().enumerate() {
            if i > 0 {
                emit(false, dit, &mut out, &mut phase);
            }
            emit(true, if sym == '.' { dit } else { dit * 3 }, &mut out, &mut phase);
        }
    }
    emit(false, dit * 10, &mut out, &mut phase);
    out
}

fn read_cw(sig: &[Sample]) -> String {
    let mut env = Smooth::new(50.0, RATE);
    let (mut peak, mut floor, mut on) = (0.0f32, 0.0f32, false);
    let mut d = CwDecoder::new(RATE as u32);
    sig.iter()
        .filter_map(|&z| {
            let e = env.push((z.0 * z.0 + z.1 * z.1).sqrt());
            if e > peak {
                peak = e;
            } else {
                peak += (e - peak) * 0.0002;
            }
            if e < floor {
                floor = e;
            } else {
                floor += (e - floor) * 0.00002;
            }
            let span = (peak - floor).max(1e-6);
            on = hysteresis(on, e < floor + span * 0.4, e > floor + span * 0.6);
            d.push(on)
        })
        .collect()
}

#[test]
fn cw_dekoduje_volacku() {
    let text = read_cw(&make_cw("CQ DE OK1ABC", 20.0));
    let text = text.trim().to_string();
    assert_eq!(text, "CQ DE OK1ABC", "dekódováno {text:?}");
}

#[test]
fn cw_zvlada_i_jine_tempo() {
    for wpm in [12.0, 25.0] {
        let text = read_cw(&make_cw("TEST", wpm));
        assert_eq!(text.trim(), "TEST", "při {wpm} WPM dekódováno {text:?}");
    }
}

#[test]
fn baudot_zna_obe_sady() {
    let mut b = BaudotState::new();
    assert_eq!(b.decode(0x03), Some('A'));
    assert_eq!(b.decode(FIGS), None);
    assert_eq!(b.decode(0x17), Some('1'));
    assert_eq!(b.decode(LTRS), None);
    assert_eq!(b.decode(0x03), Some('A'));
}

#[test]
fn only_the_low_bits_of_a_code_count() {
    let mut b = BaudotState::new();
    assert_eq!(b.decode(0xE3), Some('A'));
    assert_eq!(b.decode(0x00), None);
}

#[test]
fn a_character_without_its_stop_bit_is_dropped() {
    let cfg = RttyConfig { centibaud: 4545, ..RttyConfig::default() };
    let mut d = RttyDecoder::new(4545, cfg);
    // A hundred samples a bit: mark, then space for longer than a character.
    let mut text = String::new();
    for i in 0..900 {
        if let Some(c) = d.push(i < 10) {
            text.push(c);
        }
    }
    assert_eq!(text, "");
    assert_eq!(d.config(), cfg);
}

#[test]
fn morse_signs_are_known() {
    assert_eq!(morse_to_char(".-"), Some('A'));
    assert_eq!(morse_to_char("-....-"), Some('-'));
    assert_eq!(morse_to_char(""), None);
    assert_eq!(morse_to_char("......."), None);
    for (c, code) in MORSE {
        assert_eq!(morse_to_char(code), Some(*c));
    }
}

#[test]
fn an_unknown_sign_is_shown_as_one() {
    let mut d = CwDecoder::new(1000);
    let mut text = String::new();
    let mut key = |on: bool, n: usize, text: &mut String| {
        for _ in 0..n {
            if let Some(c) = d.push(on) {
                text.push(c);
            }
        }
    };
    for _ in 0..7 {
        key(true, 60, &mut text);
        key(false, 60, &mut text);
    }
    key(false, 600, &mut text);
    assert_eq!(text, "¿ ");
}

#[test]
fn speed_is_estimated() {
    let d = CwDecoder::new(8000);
    assert_eq!(d.wpm(), 2000);
    assert_eq!(Decoder::default(), Decoder::Off);
    assert_eq!(Decoder::Rtty.label(), "RTTY");
}
