//! One line of the schedule.
use crate::schedule::days;
use crate::schedule::days::DaySet;
use crate::schedule::khz;
use crate::text;
use vstd::prelude::*;

verus! {

/// A broadcast: where, when and by whom.
#[derive(Debug)]
pub struct Entry {
    /// The frequency in millihertz. It is missing where the list says that it is no number; nothing
    /// is near such an entry.
    pub freq_millihz: Option<i64>,
    /// The start in UTC, as HHMM.
    pub start: u16,
    /// The end in UTC, as HHMM.
    pub end: u16,
    pub days: DaySet,
    /// The code of the country.
    pub country: String,
    pub station: String,
    pub language: String,
    pub target: String,
    /// The code of the transmitter's place; it has a meaning within its country.
    pub site: String,
    /// How lasting the entry is. Six means that it holds between `from_date` and `to_date` only.
    pub persistence: u8,
    /// The first month and day.
    pub from_date: Option<(u32, u32)>,
    /// The last month and day.
    pub to_date: Option<(u32, u32)>,
}

/// What an entry says.
#[verifier::ext_equal]
pub struct EntryView {
    pub freq: Option<int>,
    pub start: int,
    pub end: int,
    pub days: Set<int>,
    pub country: Seq<char>,
    pub station: Seq<char>,
    pub language: Seq<char>,
    pub target: Seq<char>,
    pub site: Seq<char>,
    pub persistence: int,
    pub from_date: Option<(u32, u32)>,
    pub to_date: Option<(u32, u32)>,
}

impl View for Entry {
    type V = EntryView;

    open spec fn view(&self) -> EntryView {
        EntryView {
            freq: khz::number_of(self.freq_millihz),
            start: self.start as int,
            end: self.end as int,
            days: Set::new(|d: int| self.days.has(d)),
            country: self.country@,
            station: self.station@,
            language: self.language@,
            target: self.target@,
            site: self.site@,
            persistence: self.persistence as int,
            from_date: self.from_date,
            to_date: self.to_date,
        }
    }
}

/// A month and a day as one number that grows through the year.
pub open spec fn date_number(month: int, day: int) -> int {
    month * 100 + day
}

impl EntryView {
    /// The broadcast is on at a time of day: from its start until just before its end, which may
    /// lie behind midnight. Where both are the same it lasts all day.
    pub open spec fn on_at_time(self, hhmm: int) -> bool {
        if self.start == self.end {
            true
        } else if self.start < self.end {
            self.start <= hhmm < self.end
        } else {
            self.start <= hhmm || hhmm < self.end
        }
    }

    /// The broadcast is on at a time and a day of the week.
    pub open spec fn on_at(self, hhmm: int, day: int) -> bool {
        self.days.contains(day) && self.on_at_time(hhmm)
    }

    /// The entry holds on a date. Only entries of persistence six that have both dates are bound;
    /// their time may run over the end of the year.
    pub open spec fn on_date(self, month: int, day: int) -> bool {
        if self.persistence == 6 && self.from_date is Some && self.to_date is Some {
            let (m1, d1) = self.from_date->0;
            let (m2, d2) = self.to_date->0;
            let a = date_number(m1 as int, d1 as int);
            let b = date_number(m2 as int, d2 as int);
            let today = date_number(month, day);
            if a <= b {
                a <= today <= b
            } else {
                a <= today || today <= b
            }
        } else {
            true
        }
    }

    /// The country that hosts the transmitter, where it is another one: its code stands behind a
    /// slash.
    pub open spec fn host_country(self) -> Option<Seq<char>> {
        let s = self.site;
        if s.len() == 0 || s[0] != '/' {
            None
        } else {
            let code = s.skip(1).take(text::first_index(s.skip(1), '-', 0));
            if code.len() == 0 {
                None
            } else {
                Some(code)
            }
        }
    }
}

impl Default for Entry {
    fn default() -> (r: Entry)
        ensures
            (r.freq_millihz, r.start, r.end, r.persistence) == (Some(0i64), 0u16, 0u16, 0u8),
            r.days.wf(),
            forall|d: int| #[trigger] r.days.has(d) <==> 0 <= d < 7,
            r.country@ == Seq::<char>::empty(),
            r.station@ == Seq::<char>::empty(),
            r.language@ == Seq::<char>::empty(),
            r.target@ == Seq::<char>::empty(),
            r.site@ == Seq::<char>::empty(),
            r.from_date is None,
            r.to_date is None,
    {
        Entry {
            freq_millihz: Some(0),
            start: 0,
            end: 0,
            days: DaySet::all(),
            country: String::new(),
            station: String::new(),
            language: String::new(),
            target: String::new(),
            site: String::new(),
            persistence: 0,
            from_date: None,
            to_date: None,
        }
    }
}

impl Entry {
    /// Does the entry hold on this date?
    pub fn active_on_date(&self, month: u32, day: u32) -> (r: bool)
        ensures
            r == self@.on_date(month as int, day as int),
    {
        if self.persistence != 6 {
            return true;
        }
        match (self.from_date, self.to_date) {
            (Some((m1, d1)), Some((m2, d2))) => {
                let today: u64 = month as u64 * 100 + day as u64;
                let a: u64 = m1 as u64 * 100 + d1 as u64;
                let b: u64 = m2 as u64 * 100 + d2 as u64;
                if a <= b {
                    today >= a && today <= b
                } else {
                    today >= a || today <= b
                }
            },
            _ => true,
        }
    }

    /// The country that really transmits, where it is not the station's own.
    pub fn relay_country(&self) -> (r: Option<String>)
        ensures
            r matches Some(s) ==> self@.host_country() == Some(s@),
            r is None ==> self@.host_country() is None,
    {
        let site = text::to_chars(self.site.as_str());
        if site.len() == 0 || site[0] != '/' {
            return None;
        }
        let rest: &[char] = &site[1..site.len()];
        assert(rest@ == site@.skip(1));
        let end: usize = text::find(rest, '-');
        let code: &[char] = &rest[0..end];
        assert(code@ == rest@.take(end as int));
        if end == 0 {
            None
        } else {
            Some(text::from_chars(code))
        }
    }

    /// Is the broadcast on at this time and on this day of the week?
    pub fn active_at(&self, hhmm: u16, day: u8) -> (r: bool)
        requires
            day < 8,
        ensures
            r == self@.on_at(hhmm as int, day as int),
    {
        if !self.days.contains(day) {
            return false;
        }
        if self.start == self.end {
            return true;
        }
        if self.start <= self.end {
            hhmm >= self.start && hhmm < self.end
        } else {
            hhmm >= self.start || hhmm < self.end
        }
    }
}

/// A broadcast that runs over midnight is on when the one from its end to its start is off.
pub proof fn law_over_midnight(e: EntryView, f: EntryView, hhmm: int)
    requires
        e.start == f.end,
        e.end == f.start,
        e.start != e.end,
    ensures
        e.on_at_time(hhmm) == !f.on_at_time(hhmm),
{
}

/// A day and a month as four digits, day first; at the end a date of a log may stand in brackets.
pub open spec fn ddmm(s: Seq<char>) -> Option<(u32, u32)> {
    let t = text::trimmed(s);
    let u = text::trimmed(t.take(text::first_index(t, '[', 0)));
    if u.len() != 4 {
        None
    } else {
        match (text::unsigned(u.take(2), 9999), text::unsigned(u.skip(2), 9999)) {
            (Some(d), Some(m)) => if 1 <= d <= 31 && 1 <= m <= 12 {
                Some((m as u32, d as u32))
            } else {
                None
            },
            _ => None,
        }
    }
}

/// A time of four digits.
pub open spec fn hhmm(s: Seq<char>) -> Option<nat> {
    let t = text::trimmed(s);
    if t.len() != 4 {
        None
    } else {
        text::unsigned(t, 65535)
    }
}

/// Reads a date: the month and the day.
pub fn parse_ddmm(s: &[char]) -> (r: Option<(u32, u32)>)
    ensures
        r == ddmm(s@),
{
    let t: &[char] = text::trim(s);
    let i: usize = text::find(t, '[');
    let head: &[char] = &t[0..i];
    assert(head@ == t@.take(i as int));
    let u: &[char] = text::trim(head);
    if u.len() != 4 {
        return None;
    }
    let first: &[char] = &u[0..2];
    let second: &[char] = &u[2..4];
    assert(first@ == u@.take(2));
    assert(second@ == u@.skip(2));
    match (text::parse_unsigned(first, 9999), text::parse_unsigned(second, 9999)) {
        (Some(d), Some(m)) => {
            if 1 <= d && d <= 31 && 1 <= m && m <= 12 {
                Some((m as u32, d as u32))
            } else {
                None
            }
        },
        _ => None,
    }
}

/// Reads a time.
pub fn parse_hhmm(s: &[char]) -> (r: Option<u16>)
    ensures
        r matches Some(n) ==> hhmm(s@) == Some(n as nat),
        r is None ==> hhmm(s@) is None,
{
    let t: &[char] = text::trim(s);
    if t.len() != 4 {
        return None;
    }
    match text::parse_unsigned(t, 65535) {
        Some(n) => Some(n as u16),
        None => None,
    }
}

/// The value of the field of persistence; where it holds no number it is zero.
pub open spec fn persistence_field(s: Seq<char>) -> nat {
    match text::unsigned(text::trimmed(s), 255) {
        Some(n) => n,
        None => 0,
    }
}

/// The times at which a broadcast starts and ends.
pub open spec fn time_field(s: Seq<char>) -> Option<(nat, nat)> {
    let t = text::trimmed(s);
    let i = text::first_index(t, '-', 0);
    if i >= t.len() {
        None
    } else {
        match (hhmm(t.take(i)), hhmm(t.skip(i + 1))) {
            (Some(a), Some(b)) => Some((a, b)),
            _ => None,
        }
    }
}

/// The entry that a line gives. A line needs eight fields, a frequency and two times; entries of
/// persistence eight are not on the air and give none.
pub open spec fn entry_of(line: Seq<char>) -> Option<EntryView> {
    let f = text::split_on(line, ';');
    if f.len() < 8 {
        None
    } else {
        let persistence = if f.len() > 8 {
            persistence_field(f[8])
        } else {
            0
        };
        match (khz::khz_field(text::trimmed(f[0])), time_field(f[1])) {
            (Some(freq), Some((start, end))) => if persistence == 8 {
                None
            } else {
                Some(
                    EntryView {
                        freq,
                        start: start as int,
                        end: end as int,
                        days: Set::new(|d: int| days::in_field(f[2], d)),
                        country: text::trimmed(f[3]),
                        station: text::trimmed(f[4]),
                        language: text::trimmed(f[5]),
                        target: text::trimmed(f[6]),
                        site: text::trimmed(f[7]),
                        persistence: persistence as int,
                        from_date: if f.len() > 9 {
                            ddmm(f[9])
                        } else {
                            None
                        },
                        to_date: if f.len() > 10 {
                            ddmm(f[10])
                        } else {
                            None
                        },
                    },
                )
            },
            _ => None,
        }
    }
}

fn trimmed_string(s: &[char]) -> (r: String)
    ensures
        r@ == text::trimmed(s@),
{
    text::from_chars(text::trim(s))
}

fn parse_times(s: &[char]) -> (r: Option<(u16, u16)>)
    ensures
        r matches Some((a, b)) ==> time_field(s@) == Some((a as nat, b as nat)),
        r is None ==> time_field(s@) is None,
{
    let t: &[char] = text::trim(s);
    let i: usize = text::find(t, '-');
    if i >= t.len() {
        return None;
    }
    let a: &[char] = &t[0..i];
    let b: &[char] = &t[i + 1..t.len()];
    assert(a@ == t@.take(i as int));
    assert(b@ == t@.skip(i as int + 1));
    match (parse_hhmm(a), parse_hhmm(b)) {
        (Some(start), Some(end)) => Some((start, end)),
        _ => None,
    }
}

/// Reads a line of the list.
pub fn parse_line(line: &[char]) -> (r: Option<Entry>)
    ensures
        r matches Some(e) ==> e.days.wf() && entry_of(line@) == Some(e@),
        r is None ==> entry_of(line@) is None,
{
    let f = text::split(line, ';');
    let ghost fields = text::texts(f@);
    assert(forall|i: int| 0 <= i < f@.len() ==> fields[i] == #[trigger] f@[i]@);
    assert(fields.len() == f@.len());
    if f.len() < 8 {
        return None;
    }
    let freq_millihz: Option<i64> = match khz::parse_khz(text::trim(f[0])) {
        Some(freq) => freq,
        None => {
            return None;
        },
    };
    let (start, end) = match parse_times(f[1]) {
        Some(times) => times,
        None => {
            return None;
        },
    };
    let persistence: u8 = if f.len() > 8 {
        match text::parse_unsigned(text::trim(f[8]), 255) {
            Some(n) => n as u8,
            None => 0,
        }
    } else {
        0
    };
    if persistence == 8 {
        return None;
    }
    let from_date = if f.len() > 9 {
        parse_ddmm(f[9])
    } else {
        None
    };
    let to_date = if f.len() > 10 {
        parse_ddmm(f[10])
    } else {
        None
    };
    let e = Entry {
        freq_millihz,
        start,
        end,
        days: DaySet::parse_chars(f[2]),
        country: trimmed_string(f[3]),
        station: trimmed_string(f[4]),
        language: trimmed_string(f[5]),
        target: trimmed_string(f[6]),
        site: trimmed_string(f[7]),
        persistence,
        from_date,
        to_date,
    };
    assert(e@.days =~= Set::new(|d: int| days::in_field(fields[2], d)));
    assert(entry_of(line@) == Some(e@));
    Some(e)
}

/// A digit as a character.
pub open spec fn written(d: int) -> char {
    (48 + d) as char
}

/// The number that two digits make.
proof fn lemma_two_digits(a: int, b: int)
    requires
        0 <= a < 10,
        0 <= b < 10,
    ensures
        ({
            let s = seq![written(a), written(b)];
            text::number(s) == 10 * a + b && text::all_digits(s) && text::without_plus(s) == s
        }),
{
    let s = seq![written(a), written(b)];
    reveal_with_fuel(text::number, 3);
    assert(s.drop_last() =~= seq![written(a)]);
    assert(seq![written(a)].drop_last() =~= Seq::<char>::empty());
}

/// Four digits of a time.
pub open spec fn clock(h: int, m: int) -> Seq<char> {
    seq![written(h / 10), written(h % 10), written(m / 10), written(m % 10)]
}

#[verifier::rlimit(40)]
proof fn lemma_clock(h: int, m: int)
    requires
        0 <= h < 100,
        0 <= m < 100,
    ensures
        text::unsigned(clock(h, m), 65535) == Some((100 * h + m) as nat),
        text::trimmed(clock(h, m)) == clock(h, m),
{
    let s = clock(h, m);
    let x = seq![written(h / 10), written(h % 10)];
    let y = seq![written(m / 10), written(m % 10)];
    lemma_two_digits(h / 10, h % 10);
    lemma_two_digits(m / 10, m % 10);
    assert(x + y =~= s);
    text::law_digits_count_by_their_places(x, y);
    reveal_with_fuel(text::power_of_ten, 3);
    let p = text::power_of_ten(y.len());
    let n = text::number(x);
    assert(p == 100);
    assert(n * p == n * 100) by (nonlinear_arith)
        requires
            p == 100,
    ;
    assert(text::number(s) == 100 * h + m);
    assert(text::without_plus(s) == s);
    assert forall|i: int| 0 <= i < s.len() implies text::is_digit(#[trigger] s[i]) by {
        if i < 2 {
            assert(s[i] == x[i]);
        } else {
            assert(s[i] == y[i - 2]);
        }
    }
    let none = Seq::<char>::empty();
    assert(none + s + none =~= s);
    text::law_trimming_takes_the_blanks_at_the_ends(none, s, none);
}

/// The times of a broadcast are read: hours and minutes of its start, a hyphen, those of its end.
#[verifier::rlimit(40)]
pub proof fn law_times_are_read(h1: int, m1: int, h2: int, m2: int)
    requires
        0 <= h1 < 100,
        0 <= m1 < 100,
        0 <= h2 < 100,
        0 <= m2 < 100,
    ensures
        time_field(clock(h1, m1) + seq!['-'] + clock(h2, m2)) == Some(
            ((100 * h1 + m1) as nat, (100 * h2 + m2) as nat),
        ),
{
    let (a, b) = (clock(h1, m1), clock(h2, m2));
    let s = a + seq!['-'] + b;
    lemma_clock(h1, m1);
    lemma_clock(h2, m2);
    let none = Seq::<char>::empty();
    assert(none + s + none =~= s);
    text::law_trimming_takes_the_blanks_at_the_ends(none, s, none);
    text::lemma_is_first_index(s, '-', 0, 4);
    assert(s.take(4) =~= a);
    assert(s.skip(5) =~= b);
}

/// A date is read: two digits of the day, then two of the month, where there is such a day at all.
#[verifier::rlimit(40)]
pub proof fn law_date_is_read(day: int, month: int)
    requires
        0 <= day < 100,
        0 <= month < 100,
    ensures
        ddmm(clock(day, month)) == if 1 <= day <= 31 && 1 <= month <= 12 {
            Some((month as u32, day as u32))
        } else {
            None::<(u32, u32)>
        },
{
    let s = clock(day, month);
    lemma_clock(day, month);
    lemma_two_digits(day / 10, day % 10);
    lemma_two_digits(month / 10, month % 10);
    text::lemma_is_first_index(s, '[', 0, 4);
    assert(s.take(4) =~= s);
    assert(s.take(2) =~= seq![written(day / 10), written(day % 10)]);
    assert(s.skip(2) =~= seq![written(month / 10), written(month % 10)]);
}

/// A line gives an entry with what stands in its fields, each in its place and without the blanks
/// around it; a line with too few fields, or of a station that is off the air, gives none.
#[verifier::rlimit(40)]
pub proof fn law_line_is_read_by_its_fields(f: Seq<Seq<char>>)
    requires
        f.len() > 0,
        forall|i: int| 0 <= i < f.len() ==> !(#[trigger] f[i]).contains(';'),
    ensures
        ({
            let r = entry_of(text::joined_by(f, ';'));
            let off_the_air = f.len() > 8 && text::unsigned(text::trimmed(f[8]), 255) == Some(8nat);
            &&& f.len() < 8 || off_the_air ==> r is None
            &&& f.len() >= 8 && !off_the_air ==> (r is Some <==> khz::khz_field(
                text::trimmed(f[0]),
            ) is Some && time_field(f[1]) is Some)
            &&& r matches Some(e) ==> {
                &&& Some(e.freq) == khz::khz_field(text::trimmed(f[0]))
                &&& time_field(f[1]) == Some((e.start as nat, e.end as nat))
                &&& forall|d: int| #[trigger] e.days.contains(d) <==> days::in_field(f[2], d)
                &&& e.country == text::trimmed(f[3])
                &&& e.station == text::trimmed(f[4])
                &&& e.language == text::trimmed(f[5])
                &&& e.target == text::trimmed(f[6])
                &&& e.site == text::trimmed(f[7])
                &&& f.len() > 9 ==> e.from_date == ddmm(f[9])
                &&& f.len() > 10 ==> e.to_date == ddmm(f[10])
                &&& f.len() > 8 && text::unsigned(text::trimmed(f[8]), 255) is Some
                    ==> e.persistence == text::unsigned(text::trimmed(f[8]), 255)->0
                &&& f.len() <= 10 ==> e.to_date is None
                &&& f.len() <= 8 ==> e.persistence == 0
            }
        }),
{
    text::law_split_gives_the_parts_back(f, ';');
}

/// The country that hosts a transmitter stands behind a slash, up to a hyphen.
pub proof fn law_host_stands_behind_a_slash(e: EntryView, code: Seq<char>, place: Seq<char>)
    requires
        code.len() > 0,
        !code.contains('-'),
    ensures
        e.site == seq!['/'] + code ==> e.host_country() == Some(code),
        e.site == seq!['/'] + code + seq!['-'] + place ==> e.host_country() == Some(code),
        e.site == code && code[0] != '/' ==> e.host_country() is None,
{
    let n = code.len() as int;
    assert forall|i: int| 0 <= i < n implies code[i] != '-' by {
        assert(code.contains(code[i]));
    }
    let a = seq!['/'] + code;
    assert(a.skip(1) =~= code);
    text::lemma_is_first_index(code, '-', 0, n);
    assert(code.take(n) =~= code);
    let b = seq!['/'] + code + seq!['-'] + place;
    let rest = code + seq!['-'] + place;
    assert(b.skip(1) =~= rest);
    text::lemma_is_first_index(rest, '-', 0, n);
    assert(rest.take(n) =~= code);
}

} // verus!
