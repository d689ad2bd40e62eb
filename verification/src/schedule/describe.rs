//! What is shown of the entries of the schedule.
use super::codes;
use super::codes::Codes;
use super::entry::{Entry, EntryView};
use crate::text;
use vstd::prelude::*;

verus! {

/// How many entries are shown.
pub const SHOWN: usize = 6;

/// A code with what it stands for.
pub open spec fn explained(code: Seq<char>, full: Option<Seq<char>>) -> Seq<char> {
    if code.len() == 0 {
        "?"@
    } else {
        match full {
            Some(name) => name + " ("@ + code + ")"@,
            None => code,
        }
    }
}

/// A code with what it stands for.
pub fn explain(code: &str, full: Option<&str>) -> (r: String)
    ensures
        r@ == explained(
            code@,
            match full {
                Some(f) => Some(f@),
                None => None,
            },
        ),
{
    let chars = text::to_chars(code);
    if chars.len() == 0 {
        return "?".to_string();
    }
    match full {
        Some(name) => {
            let mut s = name.to_string();
            text::push_text(&mut s, " (");
            text::push_text(&mut s, code);
            text::push_text(&mut s, ")");
            s
        },
        None => code.to_string(),
    }
}

/// What is known of a code.
pub open spec fn known(table: Map<Seq<char>, Seq<char>>, code: Seq<char>) -> Option<Seq<char>> {
    if table.contains_key(code) {
        Some(table[code])
    } else {
        None
    }
}

/// What is known of a code, or the code itself.
pub open spec fn known_or(table: Map<Seq<char>, Seq<char>>, code: Seq<char>) -> Seq<char> {
    if table.contains_key(code) {
        table[code]
    } else {
        code
    }
}


/// A time as at least four digits.
pub open spec fn four_digits(n: nat) -> Seq<char> {
    if n < 10_000 {
        text::padded(n, 4)
    } else {
        text::decimal(n)
    }
}

fn push_four_digits(s: &mut String, n: u16)
    ensures
        final(s)@ == old(s)@ + four_digits(n as nat),
{
    if n < 10_000 {
        text::push_padded(s, n as u64, 4);
    } else {
        text::push_decimal(s, n as u64);
    }
}

/// A frequency in whole kilohertz, or that there is none.
pub open spec fn shown_khz(freq: Option<int>) -> Seq<char> {
    match freq {
        Some(f) => text::khz(f, 0),
        None => "NaN"@,
    }
}

/// The details of an entry: its frequency, its times, and what its codes stand for.
pub open spec fn details(e: EntryView, codes: Codes) -> Seq<char> {
    let tip = shown_khz(e.freq) + " kHz\n"@ + four_digits(e.start as nat) + "-"@ + four_digits(
        e.end as nat,
    ) + " UTC\nzemě: "@ + explained(e.country, known(codes.countries@, e.country)) + "\njazyk: "@
        + explained(e.language, known(codes.languages@, e.language)) + "\ncíl: "@ + explained(
        e.target,
        known(codes.targets@, e.target),
    );
    match e.host_country() {
        Some(host) => tip + "\nvysíláno přes: "@ + explained(host, known(codes.countries@, host)),
        None => tip,
    }
}

/// The details of an entry.
pub fn entry_tip(e: &Entry, codes: &Codes) -> (r: String)
    requires
        codes.wf(),
    ensures
        r@ == details(e@, *codes),
{
    let mut s = String::new();
    match e.freq_millihz {
        Some(f) => text::push_khz(&mut s, f, 0),
        None => text::push_text(&mut s, "NaN"),
    }
    text::push_text(&mut s, " kHz\n");
    push_four_digits(&mut s, e.start);
    text::push_text(&mut s, "-");
    push_four_digits(&mut s, e.end);
    text::push_text(&mut s, " UTC\nzemě: ");
    let country = explain(e.country.as_str(), codes.country(e.country.as_str()));
    text::push_text(&mut s, country.as_str());
    text::push_text(&mut s, "\njazyk: ");
    let language = explain(e.language.as_str(), codes.language(e.language.as_str()));
    text::push_text(&mut s, language.as_str());
    text::push_text(&mut s, "\ncíl: ");
    let target = explain(e.target.as_str(), codes.target(e.target.as_str()));
    text::push_text(&mut s, target.as_str());
    match e.relay_country() {
        Some(host) => {
            text::push_text(&mut s, "\nvysíláno přes: ");
            let place = explain(host.as_str(), codes.country(host.as_str()));
            text::push_text(&mut s, place.as_str());
        },
        None => (),
    }
    assert(s@ =~= details(e@, *codes));
    s
}

/// The parts of the line below a station: its country, its language, and the country that hosts the
/// transmitter, as far as the entry has them.
pub open spec fn subtitle_parts(e: EntryView, codes: Codes) -> Seq<Seq<char>> {
    let country = if e.country.len() == 0 {
        Seq::<Seq<char>>::empty()
    } else {
        seq![known_or(codes.countries@, e.country)]
    };
    let language = if e.language.len() == 0 {
        Seq::<Seq<char>>::empty()
    } else {
        seq![
            if codes.languages@.contains_key(e.language) {
                codes::short_name(codes.languages@[e.language])
            } else {
                e.language
            },
        ]
    };
    let host = match e.host_country() {
        Some(h) => seq!["přes "@ + known_or(codes.countries@, h)],
        None => Seq::<Seq<char>>::empty(),
    };
    country + language + host
}

/// Texts with a dot between them.
pub open spec fn dotted(parts: Seq<Seq<char>>) -> Seq<char>
    decreases parts.len(),
{
    if parts.len() == 0 {
        Seq::empty()
    } else if parts.len() == 1 {
        parts[0]
    } else {
        dotted(parts.drop_last()) + " · "@ + parts.last()
    }
}

fn push_part(s: &mut String, n: usize, part: &str, Ghost(parts): Ghost<Seq<Seq<char>>>)
    requires
        parts.len() == n,
        old(s)@ == dotted(parts),
    ensures
        final(s)@ == dotted(parts.push(part@)),
{
    if n > 0 {
        text::push_text(s, " · ");
    }
    text::push_text(s, part);
    assert(parts.push(part@).drop_last() =~= parts);
    assert(s@ =~= dotted(parts.push(part@)));
}

/// The line below a station.
pub fn entry_subtitle(e: &Entry, codes: &Codes) -> (r: String)
    requires
        codes.wf(),
    ensures
        r@ == dotted(subtitle_parts(e@, *codes)),
{
    let mut s = String::new();
    let mut n: usize = 0;
    let ghost mut parts = Seq::<Seq<char>>::empty();
    let country = text::to_chars(e.country.as_str());
    if country.len() > 0 {
        let name: &str = match codes.country(e.country.as_str()) {
            Some(full) => full,
            None => e.country.as_str(),
        };
        push_part(&mut s, n, name, Ghost(parts));
        n = n + 1;
        proof {
            parts = parts.push(name@);
        }
    }
    let language = text::to_chars(e.language.as_str());
    if language.len() > 0 {
        match codes.language_short(e.language.as_str()) {
            Some(short) => {
                push_part(&mut s, n, short.as_str(), Ghost(parts));
                proof {
                    parts = parts.push(short@);
                }
            },
            None => {
                push_part(&mut s, n, e.language.as_str(), Ghost(parts));
                proof {
                    parts = parts.push(e.language@);
                }
            },
        }
        n = n + 1;
    }
    match e.relay_country() {
        Some(host) => {
            let mut through = "přes ".to_string();
            match codes.country(host.as_str()) {
                Some(full) => text::push_text(&mut through, full),
                None => text::push_text(&mut through, host.as_str()),
            }
            push_part(&mut s, n, through.as_str(), Ghost(parts));
            proof {
                parts = parts.push(through@);
            }
        },
        None => (),
    }
    assert(parts =~= subtitle_parts(e@, *codes));
    s
}

/// How many entries are not shown.
pub fn not_shown(found: usize) -> (r: usize)
    ensures
        r == (if found > SHOWN {
            found - SHOWN
        } else {
            0
        }),
{
    if found > SHOWN {
        found - SHOWN
    } else {
        0
    }
}

/// A time is shown as it is on a clock: two digits of the hour and two of the minute.
pub proof fn law_time_is_shown_as_on_a_clock(h: int, m: int)
    requires
        0 <= h < 100,
        0 <= m < 100,
    ensures
        four_digits((100 * h + m) as nat) == seq![
            (48 + h / 10) as char,
            (48 + h % 10) as char,
            (48 + m / 10) as char,
            (48 + m % 10) as char,
        ],
{
    reveal_with_fuel(text::padded, 5);
    let n = (100 * h + m) as nat;
    assert(n / 10 == 10 * h + m / 10 && n % 10 == m % 10);
    assert(n / 10 / 10 == h);
    assert(four_digits(n) =~= seq![
        (48 + h / 10) as char,
        (48 + h % 10) as char,
        (48 + m / 10) as char,
        (48 + m % 10) as char,
    ]);
}

/// What a code stands for comes before the code, which is in brackets; a code that is not known stands
/// alone, and no code is a question mark.
pub proof fn law_code_is_explained(code: Seq<char>, name: Seq<char>)
    ensures
        code.len() > 0 ==> explained(code, Some(name)) == name + seq![' ', '('] + code + seq![')'],
        code.len() > 0 ==> explained(code, None) == code,
        explained(Seq::empty(), Some(name)) == seq!['?'],
        explained(Seq::empty(), None) == seq!['?'],
{
    reveal_strlit(" (");
    reveal_strlit(")");
    reveal_strlit("?");
    assert(" ("@ =~= seq![' ', '(']);
    assert(")"@ =~= seq![')']);
    assert("?"@ =~= seq!['?']);
}

/// What stands under a station: its country and its language, as far as it has them, by their names
/// where those are known, and through which country it is sent where that is another one. There is one
/// part for each of the three, in that order, with a dot between two.
pub proof fn law_parts_under_a_station(e: EntryView, codes: Codes)
    ensures
        ({
            let p = subtitle_parts(e, codes);
            let first = if e.country.len() > 0 {
                1int
            } else {
                0
            };
            let second = if e.language.len() > 0 {
                1int
            } else {
                0
            };
            &&& p.len() == first + second + if e.host_country() is Some {
                1int
            } else {
                0
            }
            &&& e.country.len() > 0 ==> p[0] == if codes.countries@.contains_key(e.country) {
                codes.countries@[e.country]
            } else {
                e.country
            }
            &&& e.language.len() > 0 && !codes.languages@.contains_key(e.language) ==> p[first]
                == e.language
            &&& e.language.len() > 0 && codes.languages@.contains_key(e.language) ==> p[first]
                == codes::short_name(codes.languages@[e.language])
            &&& e.host_country() matches Some(h) ==> p[first + second] == "přes "@ + if codes.countries@.contains_key(
                h,
            ) {
                codes.countries@[h]
            } else {
                h
            }
        }),
{
}

/// Parts stand with a dot between each two of them.
pub proof fn law_parts_stand_with_dots_between(parts: Seq<Seq<char>>, last: Seq<char>)
    ensures
        parts.len() > 0 ==> dotted(parts.push(last)) == dotted(parts) + " · "@ + last,
        parts.len() == 0 ==> dotted(parts.push(last)) == last,
        dotted(Seq::empty()).len() == 0,
{
    assert(parts.push(last).drop_last() =~= parts);
}

} // verus!
