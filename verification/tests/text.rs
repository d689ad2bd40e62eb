use knoflik_sdr::text::{
    is_whitespace, join_path, keep_end, lines, parse_unsigned, push_khz, push_padded, round_even, split, trim,
    zkrat,
};

fn chars(s: &str) -> Vec<char> {
    s.chars().collect()
}

#[test]
fn white_space_is_what_the_language_takes_for_it() {
    for c in (0..=0x10FFFFu32).filter_map(char::from_u32) {
        assert_eq!(is_whitespace(c), c.is_whitespace(), "{c:?}");
    }
}

#[test]
fn texts_are_cut_up() {
    let t = chars("  a;b;;c \n");
    assert_eq!(trim(&t), &chars("a;b;;c")[..]);
    assert_eq!(split(&chars("a;b;;c"), ';').len(), 4);
    assert_eq!(lines(&chars("a\r\nb\n")).len(), 2);
    assert_eq!(parse_unsigned(&chars("+12"), 100), Some(12));
    assert_eq!(parse_unsigned(&chars("101"), 100), None);
}

#[test]
fn numbers_are_written_as_floats_are() {
    let khz = |f: i64, d: u8| {
        let mut s = String::new();
        push_khz(&mut s, f, d);
        s
    };
    for f in [7_130_500_000i64, 7_131_500_000, 7_130_700_000, -2_500_000, 0, 49_999, 50_000] {
        let x = f as f64 / 1e6;
        assert_eq!(khz(f, 0), format!("{x:.0}"), "{f}");
    }
    assert_eq!(khz(7_300_000_000, 1), "7300.0");
    assert_eq!(khz(7_130_500_000, 3), "7130.500");
    assert_eq!(khz(-1_234_567, 3), "-1.235");
    assert_eq!((round_even(5, 2), round_even(7, 2), round_even(8, 3)), (2, 4, 3));
    let mut s = String::new();
    push_padded(&mut s, 30, 4);
    assert_eq!(s, "0030");
}

#[test]
fn texts_are_shortened() {
    assert_eq!(zkrat("krátký", 6), "krátký");
    assert_eq!(zkrat("příliš žluťoučký", 8), "příliš…");
    assert_eq!(zkrat("abc", 0), "…");
    assert_eq!(keep_end("žluť", 5, 3), "uť");
    assert_eq!(keep_end("žluť", 6, 3), "žluť");
}

#[test]
fn a_name_is_put_behind_a_path() {
    assert_eq!(join_path("/home/a", "b"), "/home/a/b");
    assert_eq!(join_path("/home/a/", "b"), "/home/a/b");
    assert_eq!(join_path("", "b"), "b");
}

#[test]
fn frequencies_are_written_as_doubles_are() {
    for n in (0..40_000i64).map(|k| 7_100_000_000 + 50_000 * k) {
        let mut s = String::new();
        push_khz(&mut s, n, 1);
        assert_eq!(s, format!("{:.1}", n as f64 / 1e6), "{n} mHz");
    }
    for n in [0, 1, 499, 500, 1_500, 50_000, 500_000, 1_500_000, 145_000_000_500, -2_000_500] {
        let mut s = String::new();
        push_khz(&mut s, n, 3);
        assert_eq!(s, format!("{:.3}", n as f64 / 1e6), "{n} mHz");
        s.clear();
        push_khz(&mut s, n, 0);
        assert_eq!(s, format!("{:.0}", n as f64 / 1e6), "{n} mHz");
    }
}
