use knoflik_sdr::audio::alsa::{
    bits_of, candidates, decode, fallback_device, full_scale, list_capture, list_playback,
    negotiate, AlsaCapture, Direction, Format, Hint,
};
use knoflik_sdr::audio::cpal::{
    find, format_prefs, label_for_default, pick_input_config, pick_output_config, ConfigRange,
    Found, Pick, SampleFormat,
};
use knoflik_sdr::audio::{
    backend_name, default_capture_device, default_playback_device, shown_label, whole_frames,
    Backend, Depth, DeviceInfo, Negotiated, Survey,
};

fn level(fmt: Format, b: &[u8]) -> f32 {
    decode(fmt, b) as f32 / full_scale(fmt) as f32
}

#[test]
fn dekoduje_s16() {
    assert_eq!(level(Format::S16Le, &[0x00, 0x00]), 0.0);
    assert_eq!(level(Format::S16Le, &0i16.to_le_bytes()), 0.0);
    assert!((level(Format::S16Le, &i16::MAX.to_le_bytes()) - 1.0).abs() < 1e-4);
    assert!((level(Format::S16Le, &i16::MIN.to_le_bytes()) + 1.0).abs() < 1e-6);
}

#[test]
fn dekoduje_s24_vcetne_znamenka() {
    assert_eq!(level(Format::S243Le, &[0, 0, 0]), 0.0);
    // +8388607 = 0x7FFFFF
    assert!((level(Format::S243Le, &[0xFF, 0xFF, 0x7F]) - 1.0).abs() < 1e-6);
    // -8388608 = 0x800000
    assert!((level(Format::S243Le, &[0x00, 0x00, 0x80]) + 1.0).abs() < 1e-9);
    // -1 = 0xFFFFFF
    assert!(level(Format::S243Le, &[0xFF, 0xFF, 0xFF]) < 0.0);
    assert_eq!(decode(Format::S243Le, &[0xFF, 0xFF, 0xFF]), -1);
}

#[test]
fn strop_16_bit_vyradi_24bitove_kandidaty() {
    let zbyle: Vec<_> = candidates()
        .into_iter()
        .filter(|(_, f)| bits_of(*f) <= 16)
        .collect();
    assert_eq!(zbyle.len(), 3, "měly zbýt tři rychlosti v 16 bit");
    assert!(zbyle.iter().all(|(_, f)| *f == Format::S16Le));
}

#[test]
fn kandidati_preferuji_rychlost_pred_hloubkou() {
    let c = candidates();
    assert_eq!(c[0], (192_000, Format::S243Le));
    assert_eq!(c[1], (192_000, Format::S16Le));
    assert_eq!(c[2], (96_000, Format::S243Le));
}

fn hint(name: Option<&str>, desc: Option<&str>, direction: Option<Direction>) -> Hint {
    Hint {
        name: name.map(String::from),
        desc: desc.map(String::from),
        direction,
    }
}

#[test]
fn vycet_zarizeni_respektuje_smer() {
    let hints = vec![
        hint(Some("null"), Some("Discard all samples"), None),
        hint(Some("default"), Some("Default Audio Device"), None),
        hint(Some("hw:CARD=HD,DEV=0"), Some("HD Audio\nline 2"), Some(Direction::Capture)),
        hint(Some("hdmi:CARD=HD"), Some("HDMI"), Some(Direction::Playback)),
        hint(None, Some("nameless"), None),
    ];
    let vstupy = list_capture(&hints);
    let vystupy = list_playback(&hints);
    for d in vstupy.iter().chain(vystupy.iter()) {
        assert!(!d.id.is_empty(), "zařízení bez názvu nelze otevřít");
        assert_ne!(d.id, "null");
        assert!(d.label.contains(&d.id), "štítek má nést i název zařízení");
    }
    let jen_vstup: Vec<_> = vstupy
        .iter()
        .filter(|d| !vystupy.iter().any(|o| o.id == d.id))
        .collect();
    println!(
        "vstupů {}, výstupů {}, jen na vstupu {}",
        vstupy.len(),
        vystupy.len(),
        jen_vstup.len()
    );
    assert_eq!(jen_vstup.len(), 1);
    assert_eq!(jen_vstup[0].id, "hw:CARD=HD,DEV=0");
    assert!(vystupy.iter().any(|d| d.id == "default"));
    assert!(vstupy.iter().any(|d| d.id == "default"));
}

#[test]
fn rucni_volba_prebije_automatiku() {
    for backend in [Backend::Alsa, Backend::Wasapi, Backend::CoreAudio] {
        assert_eq!(Depth::Bits16.max_bits(backend), 16);
        assert_eq!(Depth::Bits24.max_bits(backend), 24);
    }
}

#[test]
fn auto_ceka_24_bit_jen_na_linuxu() {
    for (os, backend) in [
        ("linux", Backend::Alsa),
        ("windows", Backend::Wasapi),
        ("macos", Backend::CoreAudio),
    ] {
        let ocekavano = if os == "linux" { 24 } else { 16 };
        assert_eq!(Depth::Auto.max_bits(backend), ocekavano);
    }
}

#[test]
fn depth_is_described() {
    assert_eq!(Depth::default(), Depth::Auto);
    assert_eq!(Depth::all().len(), 3);
    assert_eq!(Depth::Bits16.label(), "nejvýš 16 bit");
    assert_eq!(Depth::Auto.hint(Backend::Alsa), "24 bit (ALSA)");
    assert_eq!(Depth::Auto.hint(Backend::Wasapi), "16 bit (WASAPI)");
    assert_eq!(Depth::Bits24.hint(Backend::CoreAudio), "24 bit");
    assert_eq!(backend_name(Backend::CoreAudio), "CoreAudio");
}

#[test]
fn the_best_candidate_that_works_is_taken() {
    let n = candidates().len();
    assert_eq!(negotiate(&vec![true; n], 24), Some((192_000, Format::S243Le)));
    assert_eq!(negotiate(&vec![true; n], 16), Some((192_000, Format::S16Le)));
    let mut works = vec![false; n];
    works[3] = true;
    assert_eq!(negotiate(&works, 24), Some(candidates()[3]));
    assert_eq!(negotiate(&vec![false; n], 24), None);
}

#[test]
fn frames_are_cut_into_samples() {
    let cap = AlsaCapture::new(Format::S16Le, 96_000);
    assert_eq!(cap.negotiated, Negotiated { rate: 96_000, bits: 16 });
    assert_eq!(cap.bytes_for(7), 12);
    assert_eq!(cap.samples(&[1, 0, 0xFF, 0xFF, 0, 0x80, 2, 0], 2), vec![1, -1, -32768, 2]);
}

#[test]
fn a_server_that_tells_no_inputs_has_the_name_typed() {
    let survey = Survey::Server(None, Some(vec!["Speakers".to_string()]));
    assert!(knoflik_sdr::audio::list_capture(&survey).is_empty());
    let known = Survey::Server(Some(vec!["Line in".to_string()]), None);
    let inputs = knoflik_sdr::audio::list_capture(&known);
    assert_eq!(inputs.len(), 2);
    assert_eq!((inputs[0].id.as_str(), inputs[1].id.as_str()), ("", "Line in"));
    assert_eq!(knoflik_sdr::audio::list_playback(&known).len(), 1);
    let out = knoflik_sdr::audio::list_playback(&survey);
    assert_eq!(out.len(), 2);
    assert_eq!(out[0].label, label_for_default(false));
    assert_eq!(out[1].id, "Speakers");
}

#[test]
fn named_devices_are_found() {
    let names = vec![None, Some("A".to_string()), Some("B".to_string())];
    assert_eq!(find("", &names), Found::Default);
    assert_eq!(find("B", &names), Found::At(2));
    assert_eq!(find("C", &names), Found::Missing);
}

#[test]
fn input_settings_are_picked_by_rate_and_format() {
    let range = |channels, format, min_rate, max_rate| ConfigRange {
        channels,
        format,
        min_rate,
        max_rate,
    };
    assert_eq!(format_prefs(16)[0], SampleFormat::I16);
    let ranges = vec![
        range(1, SampleFormat::I16, 8_000, 192_000),
        range(2, SampleFormat::I16, 44_100, 96_000),
        range(2, SampleFormat::F32, 44_100, 192_000),
    ];
    assert!(matches!(pick_input_config(&ranges, None, 16), Pick::Range(_, _)));
    assert_eq!(pick_input_config(&Vec::new(), Some(2), 16), Pick::Default);
    assert_eq!(pick_input_config(&Vec::new(), Some(1), 16), Pick::NotStereo(1));
    assert_eq!(pick_output_config(&ranges, None, 48_000), Pick::Range(2, 48_000));
    assert_eq!(pick_output_config(&Vec::new(), Some(6), 48_000), Pick::NotStereo(6));
    assert_eq!(pick_input_config(&Vec::new(), None, 16), Pick::Ask);
    assert_eq!(pick_output_config(&Vec::new(), None, 48_000), Pick::Ask);
}

#[test]
fn devices_have_defaults_and_labels() {
    assert_eq!(fallback_device("pulse"), Some("default"));
    assert_eq!(fallback_device("hw:0"), None);
    assert!(!default_capture_device(Backend::Alsa).is_empty());
    assert!(!default_playback_device(Backend::Alsa).is_empty());
    assert_eq!(default_capture_device(Backend::Wasapi), "");
    let list = vec![
        DeviceInfo { id: "a".to_string(), label: "first".to_string() },
        DeviceInfo { id: "a".to_string(), label: "second".to_string() },
    ];
    assert_eq!(shown_label("a", &list), "first");
    assert_eq!(shown_label("b", &list), "b");
}

#[test]
fn frames_are_never_cut() {
    assert_eq!(whole_frames(7, 100), 3);
    assert_eq!(whole_frames(100, 5), 2);
    assert_eq!(whole_frames(1, 1), 0);
}
