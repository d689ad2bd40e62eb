use knoflik_sdr::bandplan::{at, bands, overlapping, segments, Usage};

#[test]
fn segmenty_jsou_serazene_a_platne() {
    for s in segments() {
        assert!(
            s.from_hz < s.to_hz,
            "{} {}: {} >= {}",
            s.band,
            s.usage.label(),
            s.from_hz,
            s.to_hz
        );
    }
    for w in segments().windows(2) {
        assert!(w[0].to_hz <= w[1].from_hz, "{} stojí před {}", w[0].band, w[1].band);
    }
}

#[test]
fn nasel_spravny_usek() {
    let s = at(7_100_000_000).expect("7100 kHz má být v bandplanu");
    assert_eq!(s.usage, Usage::Phone);
    assert_eq!(s.band, "40 m");
    assert_eq!(at(14_010_000_000).unwrap().usage, Usage::Cw);
    assert_eq!(at(7_300_000_000).unwrap().usage, Usage::Broadcast);
}

#[test]
fn mimo_pasma_nic() {
    assert!(at(6_800_000_000).is_none(), "6800 kHz není v žádném úseku");
}

#[test]
fn preryv_najde_vic_useku() {
    let v = overlapping(7_000_000_000, 7_100_000_000);
    assert!(v.len() >= 3, "našlo jen {} úseků", v.len());
}

#[test]
fn segment_ends_belong_to_the_next_one() {
    assert_eq!(at(7_040_000_000).unwrap().usage, Usage::Digital);
    assert_eq!(at(7_039_999_999).unwrap().usage, Usage::Cw);
    assert!(overlapping(7_450_000_000, 7_460_000_000).is_empty());
}

#[test]
fn bands_take_their_segments_together() {
    let b = bands();
    let forty = b.iter().find(|b| b.name == "40 m").unwrap();
    assert_eq!((forty.from_hz, forty.to_hz, forty.broadcast), (7_000_000, 7_200_000, false));
    assert_eq!(forty.middle_millihz(), 7_100_000_000);
    let forty_one = b.iter().find(|b| b.name == "41 m").unwrap();
    assert!(forty_one.broadcast);
    for s in segments() {
        assert_eq!(b.iter().filter(|b| b.name == s.band).count(), 1);
        let own = b.iter().find(|b| b.name == s.band).unwrap();
        assert!(own.from_hz <= s.from_hz && s.to_hz <= own.to_hz);
    }
}

#[test]
fn every_use_has_its_own_colour() {
    assert_eq!(Usage::Cw.color(), (90, 150, 230));
    assert_eq!(Usage::Digital.color(), (200, 120, 220));
    assert_eq!(Usage::Phone.color(), (90, 200, 120));
    assert_eq!(Usage::Beacon.color(), (230, 180, 70));
    assert_eq!(Usage::Broadcast.color(), (230, 130, 90));
}

#[test]
fn segments_come_in_ascending_order() {
    let found = overlapping(5_300_000_000, 6_000_000_000);
    let starts: Vec<u32> = found.iter().map(|s| s.from_hz).collect();
    assert_eq!(starts, vec![5_351_500, 5_354_000, 5_900_000]);
    let b = bands();
    assert!(b.windows(2).all(|w| w[0].to_hz <= w[1].from_hz));
}

#[test]
fn the_plan_goes_beyond_short_wave() {
    for (mhz, band) in [
        (27, "CB"),
        (51, "6 m"),
        (77, "77 MHz"),
        (100, "FM"),
        (145, "2 m"),
        (173, "173 MHz"),
        (200, "DAB"),
        (433, "70 cm"),
        (442, "442 MHz"),
        (446, "PMR446"),
        (448, "448 MHz"),
        (500, "DVB-T"),
        (1_296, "23 cm"),
    ] {
        let s = at(mhz * 1_000_000_000).unwrap();
        assert_eq!(s.band, band);
    }
    assert_eq!(at(100_000_000_000).unwrap().usage, Usage::Broadcast);
}
