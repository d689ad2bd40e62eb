//! Dates, days of the week and the two seasons of a broadcasting year.
use crate::text;
use chrono::Datelike;
use chrono::Timelike;
use vstd::prelude::*;

verus! {

/// A day of the week.
#[derive(Clone, Copy, PartialEq, Eq, Debug, Structural)]
pub enum Weekday {
    Mon,
    Tue,
    Wed,
    Thu,
    Fri,
    Sat,
    Sun,
}

impl Weekday {
    /// The number of the day; Monday is 0.
    pub open spec fn number(self) -> int {
        match self {
            Weekday::Mon => 0,
            Weekday::Tue => 1,
            Weekday::Wed => 2,
            Weekday::Thu => 3,
            Weekday::Fri => 4,
            Weekday::Sat => 5,
            Weekday::Sun => 6,
        }
    }
}

/// The number of the day; Monday is 0.
pub fn weekday_index(w: Weekday) -> (r: u8)
    ensures
        r == w.number(),
{
    match w {
        Weekday::Mon => 0,
        Weekday::Tue => 1,
        Weekday::Wed => 2,
        Weekday::Thu => 3,
        Weekday::Fri => 4,
        Weekday::Sat => 5,
        Weekday::Sun => 6,
    }
}

/// A year of 366 days.
pub open spec fn is_leap(year: int) -> bool {
    year % 4 == 0 && (year % 100 != 0 || year % 400 == 0)
}

/// How many days a month has.
pub open spec fn month_length(year: int, month: int) -> int {
    if month == 2 {
        if is_leap(year) {
            29
        } else {
            28
        }
    } else if month == 4 || month == 6 || month == 9 || month == 11 {
        30
    } else {
        31
    }
}

/// The date exists, in a year that the calendar covers.
pub open spec fn is_date(year: int, month: int, day: int) -> bool {
    -262_143 <= year <= 262_142 && 1 <= month <= 12 && 1 <= day <= month_length(year, month)
}

/// A number for each date that grows by one from day to day. Years are taken to start in March, so
/// that the leap day is the last of its year.
pub open spec fn day_number(year: int, month: int, day: int) -> int {
    let y = if month <= 2 {
        year - 1
    } else {
        year
    };
    365 * y + y / 4 - y / 100 + y / 400 + (153 * ((month + 9) % 12) + 2) / 5 + day
}

/// The day of the week of a date, as a number.
pub open spec fn weekday_number(year: int, month: int, day: int) -> int {
    (day_number(year, month, day) + 1) % 7
}

/// `NaiveDate::from_ymd_opt` of chrono, and `weekday` of the date it gives: a date is given for the
/// days that exist in the Gregorian calendar from year -262143 to year 262142, and its day of the
/// week goes on from day to day.
#[verifier::external_body]
fn weekday_of(year: i32, month: u32, day: u32) -> (r: Option<Weekday>)
    ensures
        r is Some <==> is_date(year as int, month as int, day as int),
        r matches Some(w) ==> w.number() == weekday_number(year as int, month as int, day as int),
{
    match chrono::NaiveDate::from_ymd_opt(year, month, day)?.weekday() {
        chrono::Weekday::Mon => Some(Weekday::Mon),
        chrono::Weekday::Tue => Some(Weekday::Tue),
        chrono::Weekday::Wed => Some(Weekday::Wed),
        chrono::Weekday::Thu => Some(Weekday::Thu),
        chrono::Weekday::Fri => Some(Weekday::Fri),
        chrono::Weekday::Sat => Some(Weekday::Sat),
        chrono::Weekday::Sun => Some(Weekday::Sun),
    }
}

/// A date and a time of day.
#[derive(Clone, Copy, PartialEq, Eq, Debug, Structural)]
pub struct Moment {
    pub year: i32,
    pub month: u32,
    pub day: u32,
    pub hour: u32,
    pub minute: u32,
}

impl Moment {
    /// The date exists, and the time is one that clocks show.
    pub open spec fn valid(self) -> bool {
        &&& is_date(self.year as int, self.month as int, self.day as int)
        &&& self.hour < 24
        &&& self.minute < 60
    }
}

/// `Utc::now` of chrono, by its parts. What time it is cannot be said here; it is a time that
/// exists, and not before 1970, where the clock's count starts.
#[verifier::external_body]
pub(crate) fn utc_now() -> (r: Moment)
    ensures
        r.valid(),
        r.year >= 1970,
{
    let now = chrono::Utc::now();
    Moment {
        year: now.year(),
        month: now.month(),
        day: now.day(),
        hour: now.hour(),
        minute: now.minute(),
    }
}

/// The number of the day of the week of a date that exists.
pub(crate) fn weekday_at(m: &Moment) -> (r: u8)
    requires
        m.valid(),
    ensures
        r == weekday_number(m.year as int, m.month as int, m.day as int),
        r < 7,
{
    match weekday_of(m.year, m.month, m.day) {
        Some(w) => weekday_index(w),
        None => 0,
    }
}

/// The day is the last Sunday of the month.
pub open spec fn is_last_sunday(year: int, month: int, day: int) -> bool {
    &&& is_date(year, month, day)
    &&& weekday_number(year, month, day) == 6
    &&& !is_date(year, month, day + 7)
}

/// The dates of a month follow each other in the week.
proof fn lemma_week(year: int, month: int, day: int, k: int)
    ensures
        weekday_number(year, month, day + k) == (weekday_number(year, month, day) + k) % 7,
{
}

/// Every month has a last Sunday, in its last seven days, and only one.
pub proof fn law_one_last_sunday(year: int, month: int) -> (day: int)
    requires
        is_date(year, month, 1),
    ensures
        is_last_sunday(year, month, day),
        month_length(year, month) - 6 <= day <= month_length(year, month),
        forall|d: int| #[trigger] is_last_sunday(year, month, d) ==> d == day,
{
    let len = month_length(year, month);
    let w = weekday_number(year, month, len);
    let day = len - (w + 1) % 7;
    lemma_week(year, month, len, day - len);
    assert forall|d: int| #[trigger] is_last_sunday(year, month, d) implies d == day by {
        lemma_week(year, month, len, d - len);
    }
    day
}

/// The last Sunday of a month; the seasons change on it. For a month that is not in the calendar
/// the result is 31.
pub fn last_sunday(year: i32, month: u32) -> (r: u32)
    ensures
        is_date(year as int, month as int, 1) ==> is_last_sunday(
            year as int,
            month as int,
            r as int,
        ),
        !is_date(year as int, month as int, 1) ==> r == 31,
        r <= 31,
{
    let mut d: u32 = 31;
    while d > 0
        invariant
            d <= 31,
            forall|e: int|
                d < e && is_date(year as int, month as int, e) ==> #[trigger] weekday_number(
                    year as int,
                    month as int,
                    e,
                ) != 6,
        decreases d,
    {
        match weekday_of(year, month, d) {
            Some(w) => {
                if w == Weekday::Sun {
                    assert(weekday_number(year as int, month as int, d as int) == 6);
                    proof {
                        if is_date(year as int, month as int, d + 7) {
                            lemma_week(year as int, month as int, d as int, 7);
                            assert(weekday_number(year as int, month as int, d + 7) == 6);
                        }
                    }
                    return d;
                }
            },
            None => {},
        }
        d = d - 1;
    }
    proof {
        if is_date(year as int, month as int, 1) {
            let s = law_one_last_sunday(year as int, month as int);
            assert(weekday_number(year as int, month as int, s) == 6);
        }
    }
    31
}

/// Summer lasts from the last Sunday of March to the day before the last Sunday of October.
pub open spec fn is_summer(year: int, month: int, day: int) -> bool {
    if month == 3 {
        exists|s: int| is_last_sunday(year, 3, s) && day >= s
    } else if month == 10 {
        exists|s: int| is_last_sunday(year, 10, s) && day < s
    } else {
        4 <= month <= 9
    }
}

/// The remainder of a division by a hundred, with the sign of the number.
pub open spec fn hundredth(n: int) -> int {
    if n < 0 {
        -((-n) % 100)
    } else {
        n % 100
    }
}

/// A number in at least two places: filled up with a zero, the minus sign counts as a place.
pub open spec fn two_places(n: int) -> Seq<char> {
    if n < 0 {
        seq!['-'] + text::decimal((-n) as nat)
    } else if n < 10 {
        seq!['0'] + text::decimal(n as nat)
    } else {
        text::decimal(n as nat)
    }
}

/// The name of the season of a date. The winter season belongs to the year in which it began.
pub open spec fn season_name(year: int, month: int, day: int) -> Seq<char> {
    if is_summer(year, month, day) {
        seq!['a'] + two_places(hundredth(year))
    } else if month <= 3 {
        seq!['b'] + two_places(hundredth(year - 1))
    } else {
        seq!['b'] + two_places(hundredth(year))
    }
}

fn push_two_places(s: &mut String, n: i32)
    requires
        -100 < n < 100,
    ensures
        final(s)@ == old(s)@ + two_places(n as int),
{
    if n < 0 {
        s.push('-');
        text::push_decimal(s, (-n) as u64);
    } else {
        if n < 10 {
            s.push('0');
        }
        text::push_decimal(s, n as u64);
    }
    assert(s@ =~= old(s)@ + two_places(n as int));
}

/// The season of a date: "a26" for the summer of 2026, "b25" for the winter before it.
pub fn season_of(year: i32, month: u32, day: u32) -> (r: String)
    requires
        is_date(year as int, month as int, day as int),
    ensures
        r@ == season_name(year as int, month as int, day as int),
{
    let summer: bool = if month == 3 || month == 10 {
        let s: u32 = last_sunday(year, month);
        proof {
            let t = law_one_last_sunday(year as int, month as int);
            assert(is_last_sunday(year as int, month as int, s as int));
        }
        if month == 3 {
            day >= s
        } else {
            day < s
        }
    } else {
        4 <= month && month <= 9
    };
    assert(summer == is_summer(year as int, month as int, day as int));
    let of: i32 = if !summer && month <= 3 {
        year - 1
    } else {
        year
    };
    let part: i32 = if of < 0 {
        -((-of) % 100)
    } else {
        of % 100
    };
    let mut r = String::new();
    r.push(if summer {
        'a'
    } else {
        'b'
    });
    push_two_places(&mut r, part);
    r
}

/// The season of today.
pub fn current_season() -> (r: String)
    ensures
        exists|m: Moment|
            #[trigger] m.valid() && m.year >= 1970 && r@ == season_name(
                m.year as int,
                m.month as int,
                m.day as int,
            ),
{
    let now = utc_now();
    let r = season_of(now.year, now.month, now.day);
    assert(now.valid());
    r
}

/// From year 1 on, the name of a season has three characters: a letter and two digits.
pub proof fn law_season_name_has_three_characters(year: int, month: int, day: int)
    requires
        is_date(year, month, day),
        year >= 1,
    ensures
        season_name(year, month, day).len() == 3,
        season_name(year, month, day)[0] == 'a' || season_name(year, month, day)[0] == 'b',
        text::is_digit(season_name(year, month, day)[1]),
        text::is_digit(season_name(year, month, day)[2]),
{
    let of = if !is_summer(year, month, day) && month <= 3 {
        year - 1
    } else {
        year
    };
    let n = hundredth(of);
    reveal_with_fuel(text::decimal, 3);
}

/// A season lasts over the turn of the year: the first of January has the season of the last of
/// December before it.
pub proof fn law_winter_lasts_over_new_year(year: int)
    ensures
        season_name(year + 1, 1, 1) == season_name(year, 12, 31),
{
}

/// The months have the lengths that they have, and every fourth year has a leap day, but of the
/// years that end a century only every fourth.
pub proof fn law_months_have_their_lengths(year: int, month: int, day: int)
    requires
        -262_143 <= year <= 262_142,
    ensures
        is_date(year, month, day) ==> 1 <= month <= 12 && 1 <= day <= 31,
        1 <= month <= 12 && 1 <= day <= 28 ==> is_date(year, month, day),
        is_date(year, 2, 29) <==> year % 4 == 0 && year % 100 != 0 || year % 400 == 0,
        !is_date(year, 2, 30),
        1 <= month <= 12 && month != 2 ==> is_date(year, month, 30),
        is_date(year, month, 31) <==> month == 1 || month == 3 || month == 5 || month == 7 || month
            == 8 || month == 10 || month == 12,
{
}

/// A day that follows another in the count follows it in the week.
proof fn lemma_next_in_week(a: int, b: int)
    requires
        b == a + 1,
    ensures
        (b + 1) % 7 == ((a + 1) % 7 + 1) % 7,
{
}

/// The days of the week follow each other, and the first day of the year 2000 was a Saturday.
pub proof fn law_week_goes_on(year: int, month: int, day: int)
    ensures
        weekday_number(2000, 1, 1) == 5,
        weekday_number(year, month, day + 1) == (weekday_number(year, month, day) + 1) % 7,
{
    lemma_next_in_week(day_number(year, month, day), day_number(year, month, day + 1));
}

/// The first day of a month follows the last one of the month before it in the week.
#[verifier::rlimit(40)]
pub proof fn law_week_goes_on_through_the_months(year: int, month: int)
    ensures
        month == 1 || month == 3 || month == 5 || month == 7 || month == 8 || month == 10
            ==> weekday_number(year, month + 1, 1) == (weekday_number(year, month, 31) + 1) % 7,
        month == 4 || month == 6 || month == 9 || month == 11 ==> weekday_number(year, month + 1, 1)
            == (weekday_number(year, month, 30) + 1) % 7,
        weekday_number(year + 1, 1, 1) == (weekday_number(year, 12, 31) + 1) % 7,
{
    let long = month == 1 || month == 3 || month == 5 || month == 7 || month == 8 || month == 10;
    let short = month == 4 || month == 6 || month == 9 || month == 11;
    if long {
        lemma_next_in_week(day_number(year, month, 31), day_number(year, month + 1, 1));
    }
    if short {
        lemma_next_in_week(day_number(year, month, 30), day_number(year, month + 1, 1));
    }
    lemma_next_in_week(day_number(year, 12, 31), day_number(year + 1, 1, 1));
}

proof fn lemma_quotient_grows(year: int, d: int)
    requires
        d == 4 || d == 100 || d == 400,
    ensures
        year % d == 0 ==> year / d == (year - 1) / d + 1,
        year % d != 0 ==> year / d == (year - 1) / d,
{
}

/// The first of March follows the last day of February in the week, which is the 29th in leap years.
#[verifier::rlimit(40)]
pub proof fn law_week_goes_on_over_the_leap_day(year: int)
    ensures
        year % 4 == 0 && year % 100 != 0 || year % 400 == 0 ==> weekday_number(year, 3, 1) == (
        weekday_number(year, 2, 29) + 1) % 7,
        !(year % 4 == 0 && year % 100 != 0 || year % 400 == 0) ==> weekday_number(year, 3, 1) == (
        weekday_number(year, 2, 28) + 1) % 7,
{
    lemma_quotient_grows(year, 4);
    lemma_quotient_grows(year, 100);
    lemma_quotient_grows(year, 400);
    let leap = year % 4 == 0 && year % 100 != 0 || year % 400 == 0;
    let last = if leap {
        29int
    } else {
        28
    };
    let (a, b, c) = ((year - 1) / 4, (year - 1) / 100, (year - 1) / 400);
    assert(day_number(year, 2, last) == 365 * (year - 1) + a - b + c + 337 + last);
    assert(day_number(year, 3, 1) == 365 * year + year / 4 - year / 100 + year / 400 + 1);
    assert(year % 400 == 0 ==> year % 100 == 0);
    assert(year % 100 == 0 ==> year % 4 == 0);
    lemma_next_in_week(day_number(year, 2, last), day_number(year, 3, 1));
}

/// The seasons change on the Sundays in the last seven days of March and of October: from the one
/// it is summer, from the other it is not.
#[verifier::rlimit(40)]
pub proof fn law_seasons_change_on_sundays(year: int, day: int, march: int, october: int)
    requires
        -262_143 <= year <= 262_142,
        25 <= march <= 31,
        weekday_number(year, 3, march) == 6,
        25 <= october <= 31,
        weekday_number(year, 10, october) == 6,
    ensures
        is_summer(year, 3, day) <==> day >= march,
        is_summer(year, 10, day) <==> day < october,
        forall|month: int| 4 <= month <= 9 ==> #[trigger] is_summer(year, month, day),
        forall|month: int| month < 3 || month > 10 ==> !#[trigger] is_summer(year, month, day),
{
    let a = law_one_last_sunday(year, 3);
    let b = law_one_last_sunday(year, 10);
    assert(is_last_sunday(year, 3, march));
    assert(is_last_sunday(year, 10, october));
}

/// A season is named by a letter, a for summer and b for winter, and the last two digits of the year
/// in which it began.
#[verifier::rlimit(40)]
pub proof fn law_season_is_named_by_its_year(year: int, month: int, day: int)
    requires
        is_date(year, month, day),
        year >= 1,
    ensures
        ({
            let began = if !is_summer(year, month, day) && month <= 3 {
                year - 1
            } else {
                year
            };
            season_name(year, month, day) == seq![
                if is_summer(year, month, day) {
                    'a'
                } else {
                    'b'
                },
                (48 + began / 10 % 10) as char,
                (48 + began % 10) as char,
            ]
        }),
{
    reveal_with_fuel(text::decimal, 3);
    let began = if !is_summer(year, month, day) && month <= 3 {
        year - 1
    } else {
        year
    };
    let n = hundredth(began);
    assert(n == 10 * (began / 10 % 10) + began % 10);
}

} // verus!
