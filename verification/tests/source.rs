use knoflik_sdr::audio::{Backend, Negotiated};
use knoflik_sdr::source::{
    rate_holds, rsp1_decim, rsp1_label, rsp1_rate, rsp1_rates_hz, rsp1_source_label,
    softrock_label_of, softrock_source_label, Hardware, RSP1_DEFAULT_RATE_HZ,
};

#[test]
fn softrock_je_vzdy_k_dispozici() {
    assert!(Hardware::SoftRock.available(false));
    assert!(Hardware::SoftRock.available(true));
}

#[test]
fn rsp1_jen_s_feature() {
    for rsp1 in [false, true] {
        assert_eq!(Hardware::Rsp1.available(rsp1), rsp1, "feature rsp1");
    }
    assert_eq!(format!("{:?}", Hardware::Rsp1).to_lowercase(), "rsp1");
}

#[test]
fn vsechny_rsp1_vzorkovacky_deli_48k_a_jsou_v_rozsahu() {
    for r in rsp1_rates_hz() {
        assert_eq!(r as usize % 48_000, 0, "{r} Hz nedělí 48 kHz");
        assert!(
            (1_300_000..=12_000_000).contains(&r),
            "{r} Hz je mimo rozsah libmirisdr"
        );
        assert_eq!(rsp1_decim(r) as u32 * 48_000, r);
    }
}

#[test]
fn rsp1_vzorkovacky_jsou_serazene_od_nejuzsi() {
    assert!(rsp1_rates_hz().windows(2).all(|w| w[0] < w[1]));
    assert_eq!(RSP1_DEFAULT_RATE_HZ, rsp1_rates_hz()[0]);
}

#[test]
fn si570_ma_jen_softrock() {
    assert!(Hardware::SoftRock.uses_si570());
    assert!(!Hardware::Rsp1.uses_si570());
}

#[test]
fn rozsah_ladeni_odpovida_radiu() {
    let (_, sr_hi) = Hardware::SoftRock.tuning_range_khz();
    let (_, rsp_hi) = Hardware::Rsp1.tuning_range_khz();
    assert!(sr_hi <= 100_000, "SoftRock nemá sahat na VKV");
    assert!(rsp_hi >= 108_000, "RSP1 musí dosáhnout na FM rozhlas");
    for (lo, hi) in [
        Hardware::SoftRock.tuning_range_khz(),
        Hardware::Rsp1.tuning_range_khz(),
    ] {
        assert!(lo < hi && lo > 0);
    }
}

#[test]
fn vychozi_vzorkovacka_deli_beze_zbytku_na_48k() {
    assert_eq!(
        RSP1_DEFAULT_RATE_HZ as f64 / rsp1_decim(RSP1_DEFAULT_RATE_HZ) as f64,
        48_000.0
    );
}

#[test]
fn only_offered_rates_are_used() {
    assert_eq!(rsp1_rate(3_072_000), 3_072_000);
    assert_eq!(rsp1_rate(2_000_000), RSP1_DEFAULT_RATE_HZ);
    assert_eq!(rsp1_decim(72_000), 2);
    assert_eq!(rsp1_decim(71_999), 1);
    assert!(rate_holds(1_344_001_000, 1_344_000));
    assert!(!rate_holds(1_344_001_001, 1_344_000));
    assert!(!rate_holds(8_000_000_000, 1_344_000));
}

#[test]
fn sources_say_what_they_are() {
    let neg = Negotiated { rate: 96_000, bits: 24 };
    assert_eq!(
        softrock_source_label("hw:0", &neg, Backend::Alsa),
        "příjem z hw:0 @ 96 kHz, 24 bit (ALSA)"
    );
    assert_eq!(
        softrock_source_label("", &neg, Backend::Wasapi),
        "příjem z výchozího zařízení @ 96 kHz, 24 bit (WASAPI)"
    );
    assert_eq!(rsp1_source_label(1_344_000), "příjem z RSP1 @ 1344 kHz (SoapySDR)");
    assert_eq!(rsp1_label(Some("miri")), "RSP1 (miri)");
    assert_eq!(rsp1_label(None), "RSP1");
    assert_eq!(softrock_label_of(Some("15.12")), "SoftRock fw 15.12");
    assert_eq!(softrock_label_of(None), "SoftRock fw ?");
    assert_eq!(Hardware::all().map(|h| h.label()), ["SoftRock", "SDRplay RSP1"]);
    assert_eq!(Hardware::default(), Hardware::SoftRock);
}
