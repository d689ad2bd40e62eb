use knoflik_sdr::schedule::describe::{entry_subtitle, entry_tip, explain, not_shown};
use knoflik_sdr::schedule::files::{list_name, list_url};
use knoflik_sdr::schedule::khz::parse_khz;
use knoflik_sdr::schedule::{
    cache_base, cache_dir, cache_path, codes_from_cache, current_season, last_sunday, latin1_to_string,
    parse_ddmm, parse_hhmm, season_of, Codes, DaySet, Entry, LoadError, Moment, Schedule,
};

fn chars(s: &str) -> Vec<char> {
    s.chars().collect()
}

#[test]
fn prazdne_dny_znamenaji_kazdy_den() {
    assert_eq!(DaySet::parse(""), DaySet::all());
    assert_eq!(DaySet::parse("irr"), DaySet::all());
}

#[test]
fn jeden_den() {
    let d = DaySet::parse("Su");
    assert!(d.contains(6));
    assert!(!d.contains(0));
}

#[test]
fn rozsah_dnu() {
    let d = DaySet::parse("Mo-Fr");
    for i in 0..5 {
        assert!(d.contains(i), "má obsahovat den {i}");
    }
    assert!(!d.contains(5) && !d.contains(6), "víkend tam nepatří");
}

#[test]
fn rozsah_dnu_pres_tyden() {
    let d = DaySet::parse("We-Mo");
    for i in [2, 3, 4, 5, 6, 0] {
        assert!(d.contains(i), "má obsahovat den {i}");
    }
    assert!(!d.contains(1), "úterý tam nepatří");
}

#[test]
fn slepene_dny() {
    let d = DaySet::parse("SaSu");
    assert!(d.contains(5) && d.contains(6));
    assert!(!d.contains(0));
}

#[test]
fn seznam_dnu() {
    let d = DaySet::parse("Tu,Fr");
    assert!(d.contains(1) && d.contains(4));
    assert!(!d.contains(2));
}

#[test]
fn cas_v_ramci_dne() {
    let e = Entry {
        freq_millihz: Some(6_060_000_000),
        start: 1600,
        end: 1700,
        days: DaySet::all(),
        ..Default::default()
    };
    assert!(e.active_at(1600, 0));
    assert!(e.active_at(1659, 0));
    assert!(!e.active_at(1700, 0), "konec je nevčetně");
    assert!(!e.active_at(1559, 0));
}

#[test]
fn cas_pres_pulnoc() {
    let e = Entry {
        freq_millihz: Some(6_060_000_000),
        start: 2100,
        end: 100,
        days: DaySet::all(),
        ..Default::default()
    };
    assert!(e.active_at(2300, 0), "23:00 spadá do 2100-0100");
    assert!(e.active_at(30, 0), "00:30 taky");
    assert!(!e.active_at(1200, 0), "poledne ne");
}

#[test]
fn den_omezuje_i_kdyz_cas_sedi() {
    let e = Entry {
        freq_millihz: Some(6_060_000_000),
        start: 0,
        end: 2400,
        days: DaySet::parse("Su"),
        ..Default::default()
    };
    assert!(e.active_at(1200, 6), "v neděli ano");
    assert!(!e.active_at(1200, 0), "v pondělí ne");
}

#[test]
fn parser_precte_radek_z_eibi() {
    let csv = "kHz:75;Time(UTC):93;Days:59;ITU:49;Station:201;Lng:49;Target:62;Remarks;P;Start;Stop;\n\
               6060;1600-1700;;CHN;China Radio Int.;E;SEA;k;0;;\n\
               7300;2115-2145;Su;AUS;HCJB R.Akhbar Mufriha;A;NAf;/G-w;1;;\n";
    let s = Schedule::parse(csv, "a26");
    assert_eq!(s.entries.len(), 2);
    let e = &s.entries[0];
    assert_eq!(e.freq_millihz, Some(6_060_000_000));
    assert_eq!(e.station, "China Radio Int.");
    assert_eq!(e.country, "CHN");
    assert_eq!(e.start, 1600);
    assert!(s.entries[1].days.contains(6));
    assert_eq!(s.season, "a26");
}

#[test]
fn parser_preskoci_nesmysly() {
    let csv = "hlavicka\nnesmysl\n;;;;\n6060;xxxx-yyyy;;X;Y;;;\n6060;1600-1700;;CHN;OK;E;SEA;k;0;;\n";
    let s = Schedule::parse(csv, "a26");
    assert_eq!(s.entries.len(), 1, "měl projít jen platný řádek");
    assert_eq!(s.entries[0].station, "OK");
}

#[test]
fn latin1_prevede_diakritiku() {
    let raw = b"690;0000-2400;;B;R\xe1dio Clube do Par\xe1;P;B;be;1;;";
    assert!(
        std::str::from_utf8(raw).is_err(),
        "tenhle vzorek má být neplatné UTF-8, jinak test nic netestuje"
    );
    let s = latin1_to_string(raw);
    let sch = Schedule::parse(&format!("hlavicka\n{s}\n"), "a26");
    assert_eq!(sch.entries.len(), 1);
    assert_eq!(sch.entries[0].station, "Rádio Clube do Pará");
}

#[test]
fn ciselne_dny() {
    let d = DaySet::parse("156");
    assert!(d.contains(0), "1 = pondělí");
    assert!(d.contains(4), "5 = pátek");
    assert!(d.contains(5), "6 = sobota");
    assert!(!d.contains(1) && !d.contains(6));
}

#[test]
fn neaktivni_zaznamy_se_zahodi() {
    let csv = "h\n                   6060;1600-1700;;CHN;Aktivni;E;SEA;k;1;;\n                   6060;1600-1700;;CHN;Neaktivni;E;SEA;k;8;;\n";
    let s = Schedule::parse(csv, "a26");
    assert_eq!(s.entries.len(), 1);
    assert_eq!(s.entries[0].station, "Aktivni");
}

#[test]
fn datum_ddmm() {
    assert_eq!(parse_ddmm(&chars("2903")), Some((3, 29)), "29. března");
    assert_eq!(parse_ddmm(&chars("0109")), Some((9, 1)), "1. září");
    assert_eq!(parse_ddmm(&chars("2106[0626]")), Some((6, 21)));
    assert_eq!(parse_ddmm(&chars("")), None);
    assert_eq!(parse_ddmm(&chars("9999")), None, "99. měsíc neexistuje");
}

#[test]
fn cast_sezony_plati_jen_ve_svem_obdobi() {
    let csv = "h\n6060;0000-2400;;X;Letni;E;Eu;k;6;0106;3108;\n";
    let s = Schedule::parse(csv, "a26");
    let e = &s.entries[0];
    assert!(e.active_on_date(7, 15), "15. července je uvnitř 1.6.-31.8.");
    assert!(!e.active_on_date(12, 1), "1. prosince ne");
    assert!(e.active_on_date(6, 1), "hranice včetně");
}

#[test]
fn cast_sezony_pres_konec_roku() {
    let csv = "h\n6060;0000-2400;;X;Zimni;E;Eu;k;6;0112;3101;\n";
    let s = Schedule::parse(csv, "a26");
    let e = &s.entries[0];
    assert!(e.active_on_date(12, 15), "prosinec");
    assert!(e.active_on_date(1, 15), "leden");
    assert!(!e.active_on_date(7, 15), "červenec ne");
}

#[test]
fn jina_persistence_datum_neresi() {
    let csv = "h\n6060;0000-2400;;X;Stala;E;Eu;k;1;0106;3108;\n";
    let s = Schedule::parse(csv, "a26");
    assert!(s.entries[0].active_on_date(12, 1));
}

#[test]
fn relay_pozna_hostitelskou_zemi() {
    let mk = |site: &str| Entry { site: site.into(), ..Default::default() };
    assert_eq!(mk("/OMA-a").relay_country().as_deref(), Some("OMA"), "BBC přes Omán");
    assert_eq!(mk("/MDG").relay_country().as_deref(), Some("MDG"), "i bez kódu místa");
    assert_eq!(mk("/D-n").relay_country().as_deref(), Some("D"));
    assert_eq!(mk("am").relay_country(), None);
    assert_eq!(mk("").relay_country(), None);
}

#[test]
fn kratky_nazev_jazyka() {
    let readme = "   I) Language codes.\n\n                         E     English: UK (60m), USA (225m)   [eng]\n                         A     Arabic (300m)                   [ara]\n                         -CW   Morse Station\n\n   II) Country codes.\n";
    let c = Codes::parse(readme);
    assert_eq!(c.language_short("E").as_deref(), Some("English"), "výčet zemí pryč");
    assert_eq!(c.language_short("A").as_deref(), Some("Arabic"), "počet mluvčích pryč");
    assert_eq!(c.language_short("-CW").as_deref(), Some("Morse Station"));
}

const README: &str = "\
nejaky uvod
   I) Language codes.

   E     English (400m)                                        [eng]
   TW    Taiwanese/Fujian (CHN 25m)                            [nan]

   II) Country codes.

   B    Brazil
   CHN  China (People's Republic)
   CLA  Clandestine stations *
   D    Germany

   III) Target-area codes.
   Af  - Africa
   SEA - Southeast Asia

   IV) Transmitter site codes.
   CHN: a-Baoji-Xinjie
";

#[test]
fn kody_se_rozeberou_ze_readme() {
    let c = Codes::parse(README);
    assert_eq!(c.country("CHN"), Some("China (People's Republic)"));
    assert_eq!(c.country("B"), Some("Brazil"), "jednopísmenné kódy jsou ty nejmatoucí");
    assert_eq!(c.country("D"), Some("Germany"));
    assert_eq!(c.country("CLA"), Some("Clandestine stations"));
    assert_eq!(c.language("E"), Some("English (400m)"));
    assert_eq!(c.target("SEA"), Some("Southeast Asia"));
    assert!(c.country("CHN:").is_none(), "sekce vysílačů se nemá číst");
}

#[test]
fn neznamy_kod_vrati_nic() {
    let c = Codes::default();
    assert!(c.country("XYZ").is_none());
}

#[test]
fn sezona_ma_spravny_tvar() {
    let s = current_season();
    assert!(
        s.len() == 3 && (s.starts_with('a') || s.starts_with('b')),
        "podivná sezóna: {s}"
    );
    assert!(s[1..].parse::<u32>().is_ok());
}

#[test]
fn posledni_nedele_v_breznu_2026() {
    assert_eq!(last_sunday(2026, 3), 29);
    assert_eq!(last_sunday(2026, 10), 25);
}

#[test]
fn seasons_change_on_the_last_sundays() {
    assert_eq!(season_of(2026, 3, 28), "b25");
    assert_eq!(season_of(2026, 3, 29), "a26");
    assert_eq!(season_of(2026, 10, 24), "a26");
    assert_eq!(season_of(2026, 10, 25), "b26");
    assert_eq!(season_of(2027, 1, 1), "b26");
}

#[test]
fn times_and_frequencies_are_read() {
    assert_eq!(parse_hhmm(&chars("1600")), Some(1600));
    assert_eq!(parse_hhmm(&chars("xxxx")), None);
    assert_eq!(parse_khz(&chars("6060")), Some(Some(6_060_000_000)));
    assert_eq!(parse_khz(&chars("153.5")), Some(Some(153_500_000)));
    assert_eq!(parse_khz(&chars("1e3")), Some(Some(1_000_000_000)));
    assert_eq!(parse_khz(&chars("-2.5")), Some(Some(-2_500_000)));
    assert_eq!(parse_khz(&chars(".")), None);
    assert_eq!(parse_khz(&chars("inf")), Some(Some(i64::MAX)));
    assert_eq!(parse_khz(&chars("+Infinity")), Some(Some(i64::MAX)));
    assert_eq!(parse_khz(&chars("-INF")), Some(Some(-i64::MAX)));
    assert_eq!(parse_khz(&chars("infinit")), None);
    assert_eq!(parse_khz(&chars("NaN")), Some(None));
    assert_eq!(parse_khz(&chars("-nan")), Some(None));
    assert_eq!(parse_khz(&chars("nano")), None);
    assert_eq!(parse_khz(&chars("1e400")), Some(Some(i64::MAX)));
}

const CSV: &str = "h\n\
    6061;0000-2400;;CHN;Near;E;SEA;k;1;;\n\
    6060;0000-2400;;CHN;Exact;E;SEA;k;1;;\n\
    6060;0000-2400;;CHN;Exact;E;SEA;k;1;;\n\
    6060;0000-2400;Mo;CHN;Monday;E;SEA;k;1;;\n\
    6060;1600-1700;;D;Later;E;SEA;/B-x;1;;\n\
    6063;0000-2400;;CHN;Far;E;SEA;k;1;;\n";

#[test]
fn what_is_on_the_air_is_shown_nearest_first() {
    let s = Schedule::parse(CSV, "a26");
    assert_eq!(s.entries[0].station, "Exact");
    assert_eq!(s.entries.last().unwrap().station, "Far");
    // 29 March 2026 is a Sunday.
    let m = Moment { year: 2026, month: 3, day: 29, hour: 12, minute: 0 };
    let names: Vec<&str> =
        s.lookup_at(6_060_000_000, 2_000_000, &m).iter().map(|e| e.station.as_str()).collect();
    assert_eq!(names, vec!["Exact", "Near"]);
    let m = Moment { year: 2026, month: 3, day: 30, hour: 16, minute: 30 };
    let names: Vec<&str> =
        s.lookup_at(6_060_000_000, 2_000_000, &m).iter().map(|e| e.station.as_str()).collect();
    assert_eq!(names, vec!["Exact", "Monday", "Later", "Near"]);
    assert!(s.lookup(6_060_000_000, 2_000_000).len() >= 2);
}

#[test]
fn lists_come_from_the_cache_or_from_the_net() {
    assert!(Schedule::from_cache(None, "a26", Codes::default()).is_none());
    assert!(Schedule::from_cache(Some("h\n"), "a26", Codes::default()).is_none());
    assert_eq!(Schedule::from_cache(Some(CSV), "a26", Codes::default()).unwrap().entries.len(), 6);
    assert!(matches!(
        Schedule::from_download("h\n", "a26", Codes::default()),
        Err(LoadError::Unreadable)
    ));
    assert!(codes_from_cache(None).is_none());
    assert!(codes_from_cache(Some("nothing")).is_none());
    assert_eq!(codes_from_cache(Some(README)).unwrap().countries.len(), 4);
    assert_eq!(list_url(&list_name("a26")), "http://www.eibispace.de/dx/sked-a26.csv");
    assert_eq!(cache_dir(Some("/c")).as_deref(), Some("/c/knoflik-sdr"));
    assert_eq!(cache_path(Some("/c"), "a26").as_deref(), Some("/c/knoflik-sdr/eibi-a26.csv"));
    assert_eq!(cache_path(None, "a26"), None);
}

#[test]
fn entries_are_described() {
    let codes = Codes::parse(README);
    let s = Schedule::parse(CSV, "a26");
    let e = s.entries.iter().find(|e| e.station == "Later").unwrap();
    assert_eq!(
        entry_tip(e, &codes),
        "6060 kHz\n1600-1700 UTC\nzemě: Germany (D)\njazyk: English (400m) (E)\n\
         cíl: Southeast Asia (SEA)\nvysíláno přes: Brazil (B)"
    );
    assert_eq!(entry_subtitle(e, &codes), "Germany · English · přes Brazil");
    let bare = Entry { language: "XX".into(), ..Default::default() };
    assert_eq!(entry_subtitle(&bare, &codes), "XX");
    assert_eq!(entry_subtitle(&Entry::default(), &codes), "");
    assert_eq!(
        entry_tip(&Entry::default(), &codes),
        "0 kHz\n0000-0000 UTC\nzemě: ?\njazyk: ?\ncíl: ?"
    );
    assert_eq!(explain("Q", None), "Q");
    assert_eq!((not_shown(6), not_shown(9)), (0, 3));
}

#[test]
fn the_cache_is_where_it_is_said_to_be() {
    assert_eq!(cache_base(Some("/c"), Some("/home/a")).as_deref(), Some("/c"));
    assert_eq!(cache_base(None, Some("/home/a")).as_deref(), Some("/home/a/.cache"));
    assert_eq!(cache_base(None, None), None);
}

#[test]
fn an_entry_without_a_number_is_kept_and_never_heard() {
    let csv = "head\nnan;0000-2400;;CZE;Nikde;C;Eu;;1;;\n";
    let s = Schedule::parse(csv, "a26");
    assert_eq!(s.entries.len(), 1);
    assert_eq!(s.entries[0].freq_millihz, None);
    let m = Moment { year: 2026, month: 5, day: 4, hour: 12, minute: 0 };
    assert!(s.lookup_at(0, i64::MAX, &m).is_empty());
    assert!(entry_tip(&s.entries[0], &Codes::default()).starts_with("NaN kHz"));
    assert!(Schedule::from_download(csv, "a26", Codes::default()).is_ok());
}

#[test]
fn a_station_is_shown_once_in_a_row() {
    let csv = "head\n\
               6060;0000-2400;;CZE;A;C;Eu;;1;;\n\
               6060;0000-2400;;CZE;A;D;Eu;;1;;\n\
               6060;0000-2400;;CZE;B;C;Eu;;1;;\n\
               6060;0000-2400;;CZE;A;C;Eu;;1;;\n";
    let s = Schedule::parse(csv, "a26");
    let m = Moment { year: 2026, month: 5, day: 4, hour: 12, minute: 0 };
    let found = s.lookup_at(6_060_000_000, 0, &m);
    let names: Vec<&str> = found.iter().map(|e| e.station.as_str()).collect();
    assert_eq!(names, vec!["A", "B", "A"]);
}

#[test]
fn a_day_set_is_every_day_unless_it_is_said_otherwise() {
    let d = DaySet::default();
    assert!((0..7).all(|day| d.contains(day)));
    assert!(!d.contains(7));
    assert_eq!(d, DaySet::all());
}
