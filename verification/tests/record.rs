use knoflik_sdr::record::{default_dir, file_name, file_name_at, WavWriter, HEADER_LEN};

#[test]
fn wav_ma_spravnou_hlavicku_a_delku() {
    let mut w = WavWriter::create(48_000);
    let samples: Vec<i16> = (0..480)
        .map(|i| (((i as f32 / 480.0) - 0.5) * 32767.0) as i16)
        .collect();
    let written = w.write(&samples);
    assert_eq!(w.seconds(), 10_000, "délka {} us", w.seconds());
    let mut data = w.header();
    data.extend(written);

    assert_eq!(&data[0..4], b"RIFF");
    assert_eq!(&data[8..12], b"WAVE");
    assert_eq!(&data[36..40], b"data");
    let data_len = u32::from_le_bytes(data[40..44].try_into().unwrap());
    assert_eq!(data_len, 480 * 2, "délka dat v hlavičce");
    assert_eq!(data.len() as u32, HEADER_LEN + data_len, "délka souboru");
    let riff_len = u32::from_le_bytes(data[4..8].try_into().unwrap());
    assert_eq!(riff_len, data.len() as u32 - 8);
    // One channel of 16 bits at 48 kHz.
    assert_eq!(u16::from_le_bytes(data[22..24].try_into().unwrap()), 1);
    assert_eq!(u32::from_le_bytes(data[24..28].try_into().unwrap()), 48_000);
    assert_eq!(u16::from_le_bytes(data[34..36].try_into().unwrap()), 16);
    assert_eq!(i16::from_le_bytes(data[44..46].try_into().unwrap()), samples[0]);
}

#[test]
fn prazdna_nahravka_je_platny_wav() {
    let data = WavWriter::create(48_000).header();
    assert_eq!(data.len() as u32, HEADER_LEN);
    assert_eq!(u32::from_le_bytes(data[40..44].try_into().unwrap()), 0);
}

#[test]
fn jmeno_souboru_nese_frekvenci_a_rezim() {
    let n = file_name(7_130_700_000, "LSB");
    assert!(n.ends_with("_7131kHz_LSB.wav"), "jméno: {n}");
    assert!(n.starts_with("20"), "chybí datum: {n}");
    let stamp: Vec<char> = n.chars().take(19).collect();
    for (i, c) in stamp.iter().enumerate() {
        match i {
            4 | 7 | 13 | 16 => assert_eq!(*c, '-'),
            10 => assert_eq!(*c, '_'),
            _ => assert!(c.is_ascii_digit()),
        }
    }
    let m = file_name(99_500_000_000, "WFM");
    assert!(m.ends_with("_99500kHz_WFM.wav"), "jméno: {m}");
}

#[test]
fn a_name_is_made_of_the_time_the_frequency_and_the_mode() {
    assert_eq!(
        file_name_at("20260329-101500", 7_130_500_000, "LSB"),
        "20260329-101500_7130kHz_LSB.wav"
    );
    assert_eq!(default_dir(Some("/home/a"), Some("/c")), "/home/a/Nahrávky/KnoflikSDR");
    assert_eq!(default_dir(None, Some("/c")), "/c/knoflik-sdr/nahravky");
    assert_eq!(default_dir(None, None), "nahravky");
}
