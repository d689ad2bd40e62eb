use knoflik_sdr::radio::pi_text;
use knoflik_sdr::rds::{
    check_block, syndrome, testovaci_urovne, to_text, BlockPos, RdsDecoder, OFFSET_A, OFFSET_B,
    OFFSET_C, OFFSET_CP, OFFSET_D, RDS_POLY,
};
use std::f64::consts::PI;

#[test]
fn polynom_odpovida_norme() {
    let mocniny = [10u32, 8, 7, 5, 4, 3, 0];
    let podle_normy: u32 = mocniny.iter().map(|&k| 1u32 << k).sum();
    assert_eq!(
        RDS_POLY, podle_normy,
        "polynom je 0x{RDS_POLY:03X}, podle normy má být 0x{podle_normy:03X}"
    );
}

#[test]
fn syndrom_je_konzistentni() {
    for data in [0x0000u16, 0xFFFF, 0x1234, 0xABCD, 0x5A5A] {
        for off in [OFFSET_A, OFFSET_B, OFFSET_C, OFFSET_CP, OFFSET_D] {
            let block = ((data as u32) << 10) | ((syndrome(data) ^ off) as u32);
            assert_eq!(check_block(block, off), Some(data), "data {data:04X}");
        }
    }
}

#[test]
fn poskozeny_blok_neprojde() {
    let data = 0x1234u16;
    let block = ((data as u32) << 10) | ((syndrome(data) ^ OFFSET_A) as u32);
    for bit in 0..26 {
        assert_eq!(
            check_block(block ^ (1 << bit), OFFSET_A),
            None,
            "chyba na bitu {bit} prošla"
        );
    }
}

#[test]
fn blok_nesedi_na_cizi_offset() {
    let data = 0x4321u16;
    let block = ((data as u32) << 10) | ((syndrome(data) ^ OFFSET_B) as u32);
    assert_eq!(check_block(block, OFFSET_B), Some(data));
    assert_eq!(check_block(block, OFFSET_A), None);
    assert_eq!(check_block(block, OFFSET_D), None);
}

#[test]
fn prevod_textu_ceka_ukoncovac() {
    assert_eq!(to_text(b"RADIO 1\r_______"), "RADIO 1");
    assert_eq!(to_text(b"AB\x01CD"), "AB CD");
    assert_eq!(to_text(b"        "), "");
}

#[derive(Clone, Copy)]
struct Biquad {
    b: [f32; 3],
    a: [f32; 2],
    x: [f32; 2],
    y: [f32; 2],
}

impl Biquad {
    fn lowpass(f0: f64, q: f64, fs: f64) -> Self {
        let w0 = 2.0 * PI * f0 / fs;
        let alpha = w0.sin() / (2.0 * q);
        let c = w0.cos();
        let a0 = 1.0 + alpha;
        Biquad {
            b: [
                ((1.0 - c) / 2.0 / a0) as f32,
                ((1.0 - c) / a0) as f32,
                ((1.0 - c) / 2.0 / a0) as f32,
            ],
            a: [(-2.0 * c / a0) as f32, ((1.0 - alpha) / a0) as f32],
            x: [0.0; 2],
            y: [0.0; 2],
        }
    }

    fn push(&mut self, x: f32) -> f32 {
        let y = self.b[0] * x + self.b[1] * self.x[0] + self.b[2] * self.x[1]
            - self.a[0] * self.y[0]
            - self.a[1] * self.y[1];
        self.x = [x, self.x[0]];
        self.y = [y, self.y[0]];
        y
    }
}

const BITRATE: f64 = 1_187.5;

/// Recovers levels from the subcarrier and hands them to the decoder.
struct Front {
    lp_i: [Biquad; 4],
    lp_q: [Biquad; 4],
    sq_i: f32,
    sq_q: f32,
    spb: f64,
    bit_phase: f64,
    half_acc: [f32; 2],
    half_idx: usize,
    last_v: f32,
    mid_err: Option<f64>,
    warmup: u32,
    data: RdsDecoder,
}

impl Front {
    fn new(if_rate: f64) -> Self {
        let q = [0.5098, 0.6013, 0.8999, 2.5629];
        Front {
            lp_i: q.map(|q| Biquad::lowpass(2_400.0, q, if_rate)),
            lp_q: q.map(|q| Biquad::lowpass(2_400.0, q, if_rate)),
            sq_i: 0.0,
            sq_q: 0.0,
            spb: if_rate / BITRATE,
            bit_phase: 0.0,
            half_acc: [0.0; 2],
            half_idx: 0,
            last_v: 0.0,
            mid_err: None,
            warmup: 0,
            data: RdsDecoder::new(),
        }
    }

    fn push(&mut self, mpx: f32, cos57: f32, sin57: f32) {
        let mut i = mpx * cos57;
        let mut q = mpx * sin57;
        for f in self.lp_i.iter_mut() {
            i = f.push(i);
        }
        for f in self.lp_q.iter_mut() {
            q = f.push(q);
        }
        let g = if self.warmup < 20_000 {
            self.warmup += 1;
            0.004
        } else {
            0.0002
        };
        self.sq_i += ((i * i - q * q) - self.sq_i) * g;
        self.sq_q += ((2.0 * i * q) - self.sq_q) * g;
        let phi = 0.5 * self.sq_q.atan2(self.sq_i);
        let (sin_phi, cos_phi) = phi.sin_cos();
        let v = i * cos_phi + q * sin_phi;
        let p = self.bit_phase / self.spb;
        if (self.last_v < 0.0) != (v < 0.0) && (p - 0.5).abs() < 0.25 {
            let err = p - 0.5;
            if self.mid_err.map_or(true, |e: f64| err.abs() < e.abs()) {
                self.mid_err = Some(err);
            }
        }
        self.last_v = v;
        self.half_acc[self.half_idx] += v;
        self.bit_phase += 1.0;
        if self.half_idx == 0 && self.bit_phase >= self.spb / 2.0 {
            self.half_idx = 1;
        } else if self.bit_phase >= self.spb {
            let raw = self.half_acc[0] - self.half_acc[1];
            self.half_acc = [0.0; 2];
            self.half_idx = 0;
            self.bit_phase -= self.spb;
            if let Some(err) = self.mid_err.take() {
                self.bit_phase -= err * self.spb * 0.15;
            }
            if self.data.feed_bit(raw > 0.0) {
                self.bit_phase += self.spb / 2.0;
                self.half_acc = [0.0; 2];
                self.half_idx = 0;
            }
        }
    }
}

fn posli_nazev(
    d: &mut Front,
    if_rate: f64,
    pi: u16,
    jmeno: &[u8; 8],
    skupin: usize,
    ppm: f64,
    faze: f64,
) {
    let levels = testovaci_urovne(pi, jmeno, skupin);
    let spb = if_rate / (BITRATE * (1.0 + ppm * 1e-6));
    let mut start = 0.0f64;
    for lv in levels {
        let amp = if lv { 1.0f32 } else { -1.0 };
        let konec = start + spb;
        let stred = start + spb / 2.0;
        let mut i = start.ceil() as usize;
        while (i as f64) < konec {
            let s = if (i as f64) < stred { amp } else { -amp };
            let ph = 2.0 * PI * 57_000.0 * i as f64 / if_rate;
            let vysilana = (ph + faze).cos() as f32;
            d.push(s * vysilana, ph.cos() as f32, ph.sin() as f32);
            i += 1;
        }
        start = konec;
    }
}

#[test]
fn precte_nazev_stanice_z_vyrobeneho_signalu() {
    let if_rate = 336_000.0;
    let mut d = Front::new(if_rate);
    posli_nazev(&mut d, if_rate, 0x1234, b"KNOFLIK ", 10, 0.0, 0.0);
    assert_eq!(d.data.info().pi, Some(0x1234), "PI kód");
    assert_eq!(d.data.info().ps, "KNOFLIK", "název stanice");
}

#[test]
fn precte_nazev_pri_libovolne_fazi_podnosne() {
    let if_rate = 336_000.0;
    let ctvrt = std::f64::consts::FRAC_PI_2;
    for (popis, faze) in [
        ("kvadratura", ctvrt),
        ("opačná", PI),
        ("šikmo", 0.7),
        ("záporně šikmo", -1.2),
    ] {
        let mut d = Front::new(if_rate);
        posli_nazev(&mut d, if_rate, 0x9ABC, b"KNOFLIK ", 16, 0.0, faze);
        assert_eq!(
            d.data.info().ps,
            "KNOFLIK",
            "název se nepřečetl při fázi {popis} ({faze:.2} rad)"
        );
    }
}

#[test]
fn precte_nazev_i_pri_rozladenych_hodinach() {
    let if_rate = 336_000.0;
    for ppm in [-100.0, -30.0, 30.0, 100.0] {
        let mut d = Front::new(if_rate);
        posli_nazev(&mut d, if_rate, 0x5678, b"KNOFLIK ", 12, ppm, 0.0);
        assert_eq!(
            d.data.info().ps,
            "KNOFLIK",
            "název se nepřečetl při rozladění {ppm} ppm"
        );
    }
}

#[test]
fn a_name_is_read_from_bare_levels_of_either_polarity() {
    for flip in [false, true] {
        let mut d = RdsDecoder::new();
        for lv in testovaci_urovne(0x2F01, b"RADIO  1", 3) {
            assert!(!d.feed_bit(lv != flip));
        }
        assert_eq!(d.info().pi, Some(0x2F01));
        assert_eq!(d.info().ps, "RADIO  1");
        let (good, bad) = d.block_stats();
        assert_eq!(bad, 0);
        assert!(good >= 32);
        assert_eq!(d.sync_stats(), (1, true));
        d.reset();
        assert_eq!(d.info().pi, None);
        assert_eq!(d.info().ps, "");
    }
}

#[test]
fn a_decoder_without_blocks_asks_for_a_half_shift() {
    let mut d = RdsDecoder::new();
    // The same level all the time: words of zeros fit no offset.
    let asked = (0..1500).filter(|_| d.feed_bit(true)).count();
    assert_eq!(asked, 1);
    assert_eq!(d.block_stats(), (0, 0));
}

#[test]
fn blocks_follow_each_other_in_a_ring() {
    assert_eq!(BlockPos::A.next(), BlockPos::B);
    assert_eq!(BlockPos::D.next(), BlockPos::A);
}

#[test]
fn the_programme_identification_is_shown() {
    assert_eq!(pi_text(Some(0x0A1F)), "0A1F");
    assert_eq!(pi_text(None), "----");
}

/// Sends groups of four words to a decoder; `cp` gives block C the offset of version B.
fn send_groups(d: &mut RdsDecoder, level: &mut bool, groups: &[[u16; 4]], cp: bool) {
    let c = if cp { OFFSET_CP } else { OFFSET_C };
    for g in groups {
        for (word, offset) in g.iter().zip([OFFSET_A, OFFSET_B, c, OFFSET_D]) {
            let block = ((*word as u32) << 10) | (syndrome(*word) ^ offset) as u32;
            for k in (0..26).rev() {
                if block >> k & 1 == 1 {
                    *level = !*level;
                }
                d.feed_bit(*level);
            }
        }
    }
}

fn pair(text: &[u8], i: usize) -> u16 {
    u16::from_be_bytes([text[2 * i], text[2 * i + 1]])
}

fn radiotext(text: &[u8; 64], flag: u16) -> Vec<[u16; 4]> {
    (0..16)
        .map(|i| {
            let b = 0x2000 | flag << 4 | i as u16;
            [0x2F01, b, pair(text, 2 * i), pair(text, 2 * i + 1)]
        })
        .collect()
}

#[test]
fn a_radiotext_is_read_from_bare_levels() {
    let mut text = [b' '; 64];
    text[..24].copy_from_slice(b"Vltava: symfonicky vecer");
    text[60..].copy_from_slice(b"HD\r!");
    let mut d = RdsDecoder::new();
    let mut level = false;
    d.feed_bit(level);
    send_groups(&mut d, &mut level, &radiotext(&text, 0), false);
    assert_eq!(d.info().pi, Some(0x2F01));
    let mut shown = String::from_utf8(text[..60].to_vec()).unwrap();
    shown.push_str("HD");
    assert_eq!(d.info().rt, shown);
    assert_eq!(d.info().ps, "");
    assert_eq!(d.block_stats(), (64, 0));
}

#[test]
fn a_changed_flag_starts_a_new_radiotext() {
    let mut text = [b' '; 64];
    text[..9].copy_from_slice(b"prvni zde");
    let mut d = RdsDecoder::new();
    let mut level = false;
    d.feed_bit(level);
    send_groups(&mut d, &mut level, &radiotext(&text, 0), false);
    assert_eq!(d.info().rt, "prvni zde");
    let next = [[0x2F01, 0x2010, pair(b"nova", 0), pair(b"nova", 1)]];
    send_groups(&mut d, &mut level, &next, false);
    assert_eq!(d.info().rt, "nova");
}

#[test]
fn version_b_carries_two_characters_of_radiotext() {
    let text = b"KRATCE";
    let groups: Vec<[u16; 4]> = (0..3)
        .map(|i| [0x2F01, 0x2800 | i as u16, 0x2F01, pair(text, i)])
        .collect();
    let mut d = RdsDecoder::new();
    let mut level = false;
    d.feed_bit(level);
    send_groups(&mut d, &mut level, &groups, true);
    assert_eq!(d.info().rt, "KRATCE");
    assert_eq!(d.block_stats(), (12, 0));
}
