use knoflik_sdr::dsp::CW_PITCH_HZ;
use knoflik_sdr::panorama::{
    median, nice_db_step, nice_khz_step, noise_level, offset_after_vfo_step, pan_view_center,
    park_offset, ppm_z_normalu, push_row, strongest_offset, view_window, visible_width,
    DC_GUARD, PARK_OFFSET,
};
use knoflik_sdr::radio::FFT_SIZE;

/// Millihertz in a hertz.
const HZ: i64 = 1_000;
const SPAN: i64 = 96_000 * HZ;
const X: u32 = 1_000_000;

#[test]
fn vyrez_stoji_dokud_je_znacka_uvnitr() {
    let vis = SPAN / 8;
    let center = 0;
    assert_eq!(pan_view_center(500 * HZ, center, vis, SPAN), center);
    assert_eq!(pan_view_center(-500 * HZ, center, vis, SPAN), center);
    let margin = vis * 45 / 100;
    assert_eq!(pan_view_center(margin, center, vis, SPAN), center);
    let far = margin + 1_000 * HZ;
    let moved = pan_view_center(far, center, vis, SPAN);
    assert!(moved > center, "výřez se u kraje musí posunout za značkou");
    assert_eq!(far - moved, margin);
}

#[test]
fn bez_zoomu_vyrez_stoji_na_stredu() {
    assert_eq!(pan_view_center(30_000 * HZ, 0, SPAN, SPAN), 0);
    assert_eq!(pan_view_center(-40_000 * HZ, 10_000 * HZ, SPAN, SPAN), 0);
}

#[test]
fn park_offset_podle_sirky_kanalu() {
    let rsp1 = 1_344_000 * HZ;
    assert_eq!(park_offset(2_700 * HZ, rsp1), PARK_OFFSET);
    assert_eq!(park_offset(8_000 * HZ, rsp1), PARK_OFFSET);
    let wfm = park_offset(180_000 * HZ, rsp1);
    assert_eq!(wfm, rsp1 / 4, "WFM má skočit do čtvrtiny šířky = půl k okraji");
    assert!(wfm - 90_000 * HZ > DC_GUARD, "kanál zasahuje do DC zóny");
    assert!(wfm + 90_000 * HZ < rsp1 / 2, "kanál vyčnívá ze spektra");
}

#[test]
fn pan_stredu_nevyjede_ze_spektra() {
    let vis = SPAN / 4;
    let limit = (SPAN - vis) / 2;
    let c = pan_view_center(SPAN / 2, 0, vis, SPAN);
    assert!(c <= limit, "střed {c} přesáhl mez {limit}");
}

fn bins_with(peaks: &[(i64, i32)]) -> Vec<i32> {
    let n = FFT_SIZE;
    let mut bins = vec![-110_000; n];
    for &(hz, db) in peaks {
        let idx = (n as f64 / 2.0 + hz as f64 / 96_000.0 * n as f64).round() as usize;
        bins[idx] = db * 1_000;
    }
    bins
}

#[test]
fn zoom_soustredi_pohled_na_ladeni() {
    let span = 1_344_000 * HZ;
    for zoom in [1u32, 2, 4, 8, 16, 32] {
        for offset in [0i64, 1_000, -50_000, 300_000, -660_000, 671_000] {
            let offset = offset * HZ;
            let (c, vis) = view_window(zoom * X, offset, span);
            let lo = c - vis / 2;
            let hi = c + vis / 2;
            if offset.abs() <= span / 2 {
                assert!(
                    offset >= lo - HZ && offset <= hi + HZ,
                    "zoom {zoom}x, offset {offset}: výřez {lo}..{hi} naladění nezahrnuje"
                );
            }
        }
    }
}

#[test]
fn kalibrace_nezavisi_na_presnosti_naladeni() {
    let ppm_skutecne = -12.0;
    let nominal = 9_996_000.0f64;
    for odchylka_ladeni in [0.0f64, -30.0, 80.0] {
        let dial = nominal + odchylka_ladeni;
        let nosna_na_stupnici = nominal - dial * ppm_skutecne * 1e-6;
        let ton = CW_PITCH_HZ as f64 + (nosna_na_stupnici - dial);
        let millihz = |hz: f64| (hz * 1000.0).round() as i64;
        let zmereno = ppm_z_normalu(millihz(dial), millihz(nominal), millihz(ton)) as f64 / 1000.0;
        assert!(
            (zmereno - ppm_skutecne).abs() < 0.01,
            "naladěno o {odchylka_ladeni} Hz vedle: vyšlo {zmereno:+.3} ppm, \
             čekáno {ppm_skutecne:+.3} ppm"
        );
    }
}

#[test]
fn kalibrace_ma_spravne_znamenko() {
    let nominal = 10_000_000 * HZ;
    let vyssi = ppm_z_normalu(nominal, nominal, (CW_PITCH_HZ - 100) * HZ);
    assert!(vyssi > 0, "mělo vyjít kladné, vyšlo {vyssi}");
    assert_eq!(vyssi, 10_000, "100 Hz na 10 MHz = 10 ppm, vyšlo {vyssi}");
    let nizsi = ppm_z_normalu(nominal, nominal, (CW_PITCH_HZ + 100) * HZ);
    assert_eq!(nizsi, -10_000, "mělo být -10 ppm, vyšlo {nizsi}");
}

/// The threshold of the Morse decoder over the noise that the library finds.
fn squelch_line_db(bins: &[i32], span_hz: f64, bandwidth_hz: f64, squelch_db: f32) -> Option<f32> {
    let noise_db = noise_level(bins)? as f32 / 1000.0;
    let bin_bw = span_hz / bins.len() as f64 * 1.5;
    let correction = 10.0 * (bandwidth_hz / bin_bw).max(1.0).log10();
    Some(noise_db + squelch_db + correction as f32)
}

#[test]
fn cara_squelche_sedi_nad_sumem() {
    let bins = vec![-110_000; FFT_SIZE];
    let thr = squelch_line_db(&bins, 96_000.0, 703.125, 10.0).unwrap();
    assert!(
        (thr - (-110.0 + 10.0 + 10.0)).abs() < 0.5,
        "čára na {thr} dB, čekáno -90 dB (šum -110, squelch 10, korekce 10)"
    );
}

#[test]
fn cara_squelche_reaguje_na_prah_i_sirku() {
    let bins = vec![-100_000; FFT_SIZE];
    let a = squelch_line_db(&bins, 96_000.0, 500.0, 10.0).unwrap();
    let b = squelch_line_db(&bins, 96_000.0, 500.0, 20.0).unwrap();
    assert!((b - a - 10.0).abs() < 0.01, "zvýšení prahu o 10 dB má čáru zvednout o 10");
    let c = squelch_line_db(&bins, 96_000.0, 1000.0, 10.0).unwrap();
    assert!((c - a - 3.0).abs() < 0.1, "dvojnásobná šířka má čáru zvednout o ~3 dB");
}

#[test]
fn odhad_sumu_odola_stanicim() {
    let mut bins = vec![-110_000; FFT_SIZE];
    for b in bins.iter_mut().take(FFT_SIZE / 4) {
        *b = -20_000;
    }
    let thr = squelch_line_db(&bins, 96_000.0, 500.0, 10.0).unwrap();
    assert!(thr < -80.0, "medián se nechal vytáhnout stanicemi: {thr} dB");
}

#[test]
fn zoom_1_ukazuje_cele_spektrum() {
    let (c, w) = view_window(X, 0, SPAN);
    assert_eq!(w, SPAN);
    assert_eq!(c, 0, "při zoomu 1 nemá být kam posouvat");
}

#[test]
fn zoom_zuzuje_vyrez_a_sleduje_ladeni() {
    let (c, w) = view_window(4 * X, 10_000 * HZ, SPAN);
    assert_eq!(w, SPAN / 4);
    assert_eq!(c, 10_000 * HZ, "výřez se má vycentrovat na naladěnou stanici");
}

#[test]
fn vyrez_nevyjede_ze_spektra() {
    for zoom in [1, 2, 4, 8, 32] {
        for off in [-48_000, -40_000, 0, 40_000, 48_000] {
            let (c, w) = view_window(zoom * X, off * HZ, SPAN);
            assert!(
                c - w / 2 >= -SPAN / 2 && c + w / 2 <= SPAN / 2,
                "zoom {zoom}, offset {off}: výřez {}..{} je mimo +-{}",
                c - w / 2,
                c + w / 2,
                SPAN / 2
            );
        }
    }
}

#[test]
fn krok_vfo_drzi_naladenou_stanici() {
    let vfo = 7_300_000 * HZ;
    let offset = 12_000 * HZ;
    let tuned = vfo + offset;
    for step in [1, -1, 10, -10] {
        let step = step * 1_000 * HZ;
        let new_off = offset_after_vfo_step(offset, step, SPAN);
        let new_tuned = (vfo + step) + new_off;
        assert_eq!(new_tuned, tuned, "krok {step:+}: naladěno {new_tuned} místo {tuned}");
    }
}

#[test]
fn offset_nevyjede_z_okna() {
    let mut off = 0;
    for _ in 0..20 {
        off = offset_after_vfo_step(off, 10_000 * HZ, SPAN);
    }
    assert_eq!(off, -SPAN * 48 / 100, "offset {off} utekl mimo okno");
}

#[test]
fn najde_nejsilnejsi_stanici() {
    let bins = bins_with(&[(-20_000, -70), (12_000, -50), (30_000, -80)]);
    let off = strongest_offset(&bins, SPAN).expect("stanici mělo najít");
    assert!((off - 12_000 * HZ).abs() < 100 * HZ, "našlo {off} místo 12000 Hz");
    assert_eq!(off % HZ, 0);
}

#[test]
fn ignoruje_spur_na_dc() {
    let bins = bins_with(&[(0, -30), (15_000, -60)]);
    let off = strongest_offset(&bins, SPAN).expect("stanici mělo najít");
    assert!((off - 15_000 * HZ).abs() < 100 * HZ, "skočilo na {off}, nejspíš na DC spur");
}

#[test]
fn na_prazdnem_pasmu_nic_nevraci() {
    let bins = vec![-110_000; FFT_SIZE];
    assert!(strongest_offset(&bins, SPAN).is_none());
}

#[test]
fn ignoruje_okraje_panoramatu() {
    let bins = bins_with(&[(-47_000, -20), (8_000, -60)]);
    let off = strongest_offset(&bins, SPAN).expect("stanici mělo najít");
    assert!((off - 8_000 * HZ).abs() < 100 * HZ, "vzalo okrajový artefakt: {off}");
}

#[test]
fn too_small_spectra_tell_nothing() {
    assert_eq!(strongest_offset(&vec![0; 63], SPAN), None);
    assert_eq!(strongest_offset(&vec![0; 64], 0), None);
    assert_eq!(noise_level(&[0; 15]), None);
    assert_eq!(noise_level(&[7; 16]), Some(7));
}

#[test]
fn a_station_stands_out_by_six_decibels() {
    let mut bins = vec![0; 200];
    bins[150] = 5_999;
    assert_eq!(strongest_offset(&bins, SPAN), None);
    bins[150] = 6_000;
    assert_eq!(strongest_offset(&bins, SPAN), Some(24_000 * HZ));
    bins[50] = 6_000;
    assert_eq!(strongest_offset(&bins, SPAN), Some(-24_000 * HZ));
}

#[test]
fn the_median_is_the_upper_one_of_two() {
    assert_eq!(median(&[3, 1, 2]), 2);
    assert_eq!(median(&[4, 1, 3, 2]), 3);
    assert_eq!(median(&[i32::MIN, i32::MIN]), i32::MIN);
    assert_eq!(median(&[i32::MAX]), i32::MAX);
}

#[test]
fn grids_have_few_lines() {
    assert_eq!((nice_db_step(50_000), nice_db_step(90_000), nice_db_step(501_000)), (5, 10, 100));
    assert_eq!(nice_khz_step(12_000_000), 1);
    assert_eq!(nice_khz_step(96_000_000), 10);
    assert_eq!(nice_khz_step(1_344_000_000), 200);
    assert_eq!(nice_khz_step(1_200_000_000), 100);
}

#[test]
fn rows_move_down() {
    let mut pixels = vec![1, 2, 3, 4, 5, 6];
    push_row(&mut pixels, &[8, 9]);
    assert_eq!(pixels, vec![8, 9, 1, 2, 3, 4]);
}

#[test]
fn magnification_is_limited() {
    assert_eq!(visible_width(0, SPAN), SPAN);
    assert_eq!(visible_width(4 * X, SPAN), 24_000 * HZ);
    assert_eq!(visible_width(100 * X, SPAN), 3_000 * HZ);
}
