//! Days of the week on which something is broadcast.
use crate::text;
use vstd::prelude::*;

verus! {

/// A set of days; Monday is day 0.
#[derive(Clone, Copy, PartialEq, Eq, Debug, Structural)]
pub struct DaySet(u8);

/// The name of a day as the lists write it.
pub open spec fn day_name(d: int) -> Seq<char> {
    if d == 0 {
        "Mo"@
    } else if d == 1 {
        "Tu"@
    } else if d == 2 {
        "We"@
    } else if d == 3 {
        "Th"@
    } else if d == 4 {
        "Fr"@
    } else if d == 5 {
        "Sa"@
    } else {
        "Su"@
    }
}

/// The text is the name of day `d`.
pub open spec fn names_day(s: Seq<char>, d: int) -> bool {
    0 <= d < 7 && s == day_name(d)
}

/// The word for "irregularly", in any case.
pub open spec fn is_irregular(s: Seq<char>) -> bool {
    s.len() == 3 && (s[0] == 'i' || s[0] == 'I') && (s[1] == 'r' || s[1] == 'R') && (s[2] == 'r'
        || s[2] == 'R')
}

/// Days written as digits, 1 for Monday.
pub open spec fn is_day_digits(s: Seq<char>) -> bool {
    forall|i: int| 0 <= i < s.len() ==> '1' <= #[trigger] s[i] <= '7'
}

/// The digit of a day.
pub open spec fn day_digit(d: int) -> char {
    (49 + d) as char
}

/// Day `d` lies in the range from day `a` to day `b`, which may run over the end of the week.
pub open spec fn in_day_range(a: int, b: int, d: int) -> bool {
    0 <= d < 7 && if a <= b {
        a <= d <= b
    } else {
        a <= d || d <= b
    }
}

/// Day `d` is one of the names that are written one after the other, each of two letters. A
/// character outside ASCII names no day and stands alone.
pub open spec fn in_glued(s: Seq<char>, d: int) -> bool
    decreases s.len(),
{
    if s.len() < 2 {
        false
    } else if s[0] > '\u{7F}' || s[1] > '\u{7F}' {
        in_glued(s.drop_first(), d)
    } else {
        names_day(s.take(2), d) || in_glued(s.skip(2), d)
    }
}

/// Day `d` is meant by one part of a list of days: a range of days, or names of days.
pub open spec fn in_part(s: Seq<char>, d: int) -> bool {
    let i = text::first_index(s, '-', 0);
    if i < s.len() {
        exists|a: int, b: int|
            #![trigger names_day(s.take(i), a), names_day(s.skip(i + 1), b)]
            names_day(s.take(i), a) && names_day(s.skip(i + 1), b) && in_day_range(a, b, d)
    } else {
        in_glued(s, d)
    }
}

/// Day `d` is meant by one of the parts.
pub open spec fn in_parts(parts: Seq<Seq<char>>, d: int) -> bool {
    exists|i: int| 0 <= i < parts.len() && in_part(text::trimmed(#[trigger] parts[i]), d)
}

/// Day `d` is meant by a field of the list. A field that is empty, says "irregularly" or names no
/// day at all means every day.
pub open spec fn in_field(s: Seq<char>, d: int) -> bool {
    let t = text::trimmed(s);
    0 <= d < 7 && if t.len() == 0 || is_irregular(t) {
        true
    } else if is_day_digits(t) {
        t.contains(day_digit(d))
    } else {
        let parts = text::split_on(t, ',');
        in_parts(parts, d) || forall|e: int| 0 <= e < 7 ==> !#[trigger] in_parts(parts, e)
    }
}

proof fn lemma_added(m: u8, d: u8, e: u8)
    by (bit_vector)
    requires
        d < 8,
        e < 8,
    ensures
        (m | (1u8 << d)) & (1u8 << e) != 0 <==> d == e || m & (1u8 << e) != 0,
        m < 128 && d < 7 ==> m | (1u8 << d) < 128,
{
}

proof fn lemma_constant_masks(e: u8)
    by (bit_vector)
    requires
        e < 8,
    ensures
        0u8 & (1u8 << e) == 0,
        0b111_1111u8 & (1u8 << e) != 0 <==> e < 7,
{
}

proof fn lemma_mask_is_zero(m: u8)
    by (bit_vector)
    requires
        m < 128,
        m & (1u8 << 0) == 0,
        m & (1u8 << 1) == 0,
        m & (1u8 << 2) == 0,
        m & (1u8 << 3) == 0,
        m & (1u8 << 4) == 0,
        m & (1u8 << 5) == 0,
        m & (1u8 << 6) == 0,
    ensures
        m == 0,
{
}

impl Default for DaySet {
    /// Every day.
    fn default() -> (r: DaySet)
        ensures
            r == DaySet::every(),
            r.wf(),
            forall|d: int| #[trigger] r.has(d) <==> 0 <= d < 7,
    {
        DaySet::all()
    }
}

impl DaySet {
    /// Day `d` is in the set.
    pub closed spec fn has(self, d: int) -> bool {
        0 <= d < 8 && self.0 & (1u8 << (d as u8)) != 0
    }

    /// The set holds days of the week only.
    pub closed spec fn wf(self) -> bool {
        self.0 < 128
    }

    /// The set of every day.
    pub closed spec fn every() -> DaySet {
        DaySet(0b111_1111)
    }

    /// Every day.
    pub fn all() -> (r: DaySet)
        ensures
            r == DaySet::every(),
            r.wf(),
            forall|d: int| #[trigger] r.has(d) <==> 0 <= d < 7,
    {
        proof {
            assert forall|d: int| #[trigger] DaySet(0b111_1111).has(d) <==> 0 <= d < 7 by {
                if 0 <= d < 8 {
                    lemma_constant_masks(d as u8);
                }
            }
        }
        DaySet(0b111_1111)
    }

    /// Two sets are the same where they have the same days.
    pub proof fn law_same_days(self, other: DaySet)
        requires
            self.wf(),
            other.wf(),
            forall|d: int| 0 <= d < 7 ==> #[trigger] self.has(d) == other.has(d),
        ensures
            self == other,
    {
        let a = self.0;
        let b = other.0;
        assert(self.has(0) == other.has(0) && self.has(1) == other.has(1) && self.has(2)
            == other.has(2) && self.has(3) == other.has(3) && self.has(4) == other.has(4)
            && self.has(5) == other.has(5) && self.has(6) == other.has(6));
        assert(a == b) by (bit_vector)
            requires
                a < 128,
                b < 128,
                (a & (1u8 << 0) != 0) == (b & (1u8 << 0) != 0),
                (a & (1u8 << 1) != 0) == (b & (1u8 << 1) != 0),
                (a & (1u8 << 2) != 0) == (b & (1u8 << 2) != 0),
                (a & (1u8 << 3) != 0) == (b & (1u8 << 3) != 0),
                (a & (1u8 << 4) != 0) == (b & (1u8 << 4) != 0),
                (a & (1u8 << 5) != 0) == (b & (1u8 << 5) != 0),
                (a & (1u8 << 6) != 0) == (b & (1u8 << 6) != 0),
        ;
    }

    /// Is the day in the set?
    pub fn contains(&self, day: u8) -> (r: bool)
        requires
            day < 8,
        ensures
            r == self.has(day as int),
    {
        self.0 & (1u8 << day) != 0
    }

    fn none() -> (r: DaySet)
        ensures
            r.wf(),
            forall|d: int| !#[trigger] r.has(d),
    {
        proof {
            assert forall|d: int| !#[trigger] DaySet(0).has(d) by {
                if 0 <= d < 8 {
                    lemma_constant_masks(d as u8);
                }
            }
        }
        DaySet(0)
    }

    fn insert(&mut self, day: u8)
        requires
            day < 7,
            old(self).wf(),
        ensures
            final(self).wf(),
            forall|d: int| #[trigger]
                final(self).has(d) <==> d == day || old(self).has(d),
    {
        let ghost m = self.0;
        self.0 = self.0 | (1u8 << day);
        proof {
            assert forall|d: int| #[trigger] self.has(d) <==> d == day || old(self).has(d) by {
                if 0 <= d < 8 {
                    lemma_added(m, day, d as u8);
                }
            }
            lemma_added(m, day, 0);
        }
    }

    fn is_empty(&self) -> (r: bool)
        requires
            self.wf(),
        ensures
            r == forall|d: int| 0 <= d < 7 ==> !#[trigger] self.has(d),
    {
        proof {
            if self.0 == 0 {
                assert forall|d: int| 0 <= d < 7 implies !#[trigger] self.has(d) by {
                    lemma_constant_masks(d as u8);
                }
            } else if forall|d: int| 0 <= d < 7 ==> !#[trigger] self.has(d) {
                assert(!self.has(0) && !self.has(1) && !self.has(2) && !self.has(3) && !self.has(
                    4,
                ) && !self.has(5) && !self.has(6));
                lemma_mask_is_zero(self.0);
            }
        }
        self.0 == 0
    }

    /// The day that a text names.
    pub fn day_index(s: &[char]) -> (r: Option<u8>)
        ensures
            r matches Some(d) ==> names_day(s@, d as int),
            r is None ==> forall|d: int| !#[trigger] names_day(s@, d),
    {
        if text::equals(s, "Mo") {
            Some(0)
        } else if text::equals(s, "Tu") {
            Some(1)
        } else if text::equals(s, "We") {
            Some(2)
        } else if text::equals(s, "Th") {
            Some(3)
        } else if text::equals(s, "Fr") {
            Some(4)
        } else if text::equals(s, "Sa") {
            Some(5)
        } else if text::equals(s, "Su") {
            Some(6)
        } else {
            None
        }
    }

    fn insert_span(&mut self, from: u8, to: u8)
        requires
            from <= to < 7,
            old(self).wf(),
        ensures
            final(self).wf(),
            forall|d: int| #[trigger]
                final(self).has(d) <==> from <= d <= to || old(self).has(d),
    {
        let mut d: u8 = from;
        while d <= to
            invariant
                from <= to < 7,
                from <= d <= to + 1,
                self.wf(),
                forall|e: int| #[trigger] self.has(e) <==> from <= e < d || old(self).has(e),
            decreases to + 1 - d,
        {
            self.insert(d);
            d = d + 1;
        }
    }

    fn insert_range(&mut self, from: u8, to: u8)
        requires
            from < 7,
            to < 7,
            old(self).wf(),
        ensures
            final(self).wf(),
            forall|d: int| #[trigger]
                final(self).has(d) <==> in_day_range(from as int, to as int, d) || old(self).has(d),
    {
        if from <= to {
            self.insert_span(from, to);
        } else {
            self.insert_span(from, 6);
            self.insert_span(0, to);
        }
    }

    fn insert_glued(&mut self, s: &[char])
        requires
            old(self).wf(),
        ensures
            final(self).wf(),
            forall|d: int| #[trigger]
                final(self).has(d) <==> in_glued(s@, d) || old(self).has(d),
    {
        let mut i: usize = 0;
        assert(s@.skip(0) == s@);
        while s.len() - i >= 2
            invariant
                i <= s@.len(),
                self.wf(),
                forall|d: int|
                    #![trigger self.has(d)]
                    #![trigger in_glued(s@, d)]
                    (self.has(d) || in_glued(s@.skip(i as int), d)) <==> (in_glued(s@, d) || old(
                        self,
                    ).has(d)),
            decreases s.len() - i,
        {
            let ghost rest = s@.skip(i as int);
            let ghost before = *self;
            if s[i] > '\u{7F}' || s[i + 1] > '\u{7F}' {
                assert(rest.drop_first() == s@.skip(i as int + 1));
                i = i + 1;
            } else {
                let pair: &[char] = &s[i..i + 2];
                proof {
                    assert(pair@ == rest.take(2));
                    assert(rest.skip(2) == s@.skip(i as int + 2));
                    reveal_strlit("Mo");
                    reveal_strlit("Tu");
                    reveal_strlit("We");
                    reveal_strlit("Th");
                    reveal_strlit("Fr");
                    reveal_strlit("Sa");
                    reveal_strlit("Su");
                }
                match DaySet::day_index(pair) {
                    Some(d) => {
                        proof {
                            lemma_names_one_day(pair@, d as int);
                        }
                        self.insert(d);
                    },
                    None => {},
                }
                i = i + 2;
                proof {
                    assert forall|d: int|
                        #![trigger self.has(d)]
                        #![trigger in_glued(s@, d)]
                        (self.has(d) || in_glued(s@.skip(i as int), d)) <==> (in_glued(s@, d)
                            || old(self).has(d)) by {
                        assert(before.has(d) || in_glued(rest, d) <==> in_glued(s@, d) || old(
                            self,
                        ).has(d));
                        assert(in_glued(rest, d) <==> names_day(pair@, d) || in_glued(
                            rest.skip(2),
                            d,
                        ));
                    }
                }
            }
        }
    }

    fn insert_part(&mut self, s: &[char])
        requires
            old(self).wf(),
        ensures
            final(self).wf(),
            forall|d: int| #[trigger] final(self).has(d) <==> in_part(s@, d) || old(self).has(d),
    {
        let i: usize = text::find(s, '-');
        if i < s.len() {
            let a: &[char] = &s[0..i];
            let b: &[char] = &s[i + 1..s.len()];
            proof {
                assert(a@ == s@.take(i as int));
                assert(b@ == s@.skip(i as int + 1));
            }
            match (DaySet::day_index(a), DaySet::day_index(b)) {
                (Some(from), Some(to)) => {
                    proof {
                        lemma_names_one_day(a@, from as int);
                        lemma_names_one_day(b@, to as int);
                    }
                    self.insert_range(from, to);
                },
                _ => {},
            }
        } else {
            self.insert_glued(s);
        }
    }

    /// Reads the field of the list that holds the days.
    pub fn parse(s: &str) -> (r: DaySet)
        ensures
            r.wf(),
            forall|d: int| #[trigger] r.has(d) <==> in_field(s@, d),
    {
        let chars = text::to_chars(s);
        let r = DaySet::parse_chars(&chars);
        r
    }

    /// Reads the field of the list that holds the days, given as characters.
    pub fn parse_chars(s: &[char]) -> (r: DaySet)
        ensures
            r.wf(),
            forall|d: int| #[trigger] r.has(d) <==> in_field(s@, d),
    {
        let t: &[char] = text::trim(s);
        let irregular: bool = t.len() == 3 && (t[0] == 'i' || t[0] == 'I') && (t[1] == 'r' || t[1]
            == 'R') && (t[2] == 'r' || t[2] == 'R');
        if t.len() == 0 || irregular {
            return DaySet::all();
        }
        let mut days: DaySet = DaySet::none();
        let mut digits: bool = true;
        let mut i: usize = 0;
        while i < t.len() && digits
            invariant
                i <= t@.len(),
                days.wf(),
                digits ==> (forall|k: int| 0 <= k < i ==> '1' <= #[trigger] t@[k] <= '7'),
                !digits ==> !is_day_digits(t@),
                digits ==> (forall|d: int| #[trigger]
                    days.has(d) <==> 0 <= d < 7 && t@.take(i as int).contains(day_digit(d))),
            decreases t.len() - i, digits as int,
        {
            let c: char = t[i];
            if '1' <= c && c <= '7' {
                let ghost before = days;
                days.insert((c as u32 - 49) as u8);
                proof {
                    assert forall|d: int| #[trigger] days.has(d) <==> 0 <= d < 7 && t@.take(
                        i as int + 1,
                    ).contains(day_digit(d)) by {
                        let longer = t@.take(i as int + 1);
                        assert(longer == t@.take(i as int).push(c));
                        assert(longer[i as int] == c);
                        if 0 <= d < 7 {
                            if t@.take(i as int).contains(day_digit(d)) {
                                let k = choose|k: int|
                                    0 <= k < i && t@.take(i as int)[k] == day_digit(d);
                                assert(longer[k] == day_digit(d));
                            }
                            if longer.contains(day_digit(d)) && c != day_digit(d) {
                                let k = choose|k: int|
                                    0 <= k < longer.len() && longer[k] == day_digit(d);
                                assert(t@.take(i as int)[k] == day_digit(d));
                            }
                        }
                    }
                }
                i = i + 1;
            } else {
                digits = false;
            }
        }
        if digits {
            assert(t@.take(i as int) == t@);
            return days;
        }
        let parts = text::split(t, ',');
        let mut found: DaySet = DaySet::none();
        let mut k: usize = 0;
        while k < parts.len()
            invariant
                k <= parts@.len(),
                found.wf(),
                text::texts(parts@) == text::split_on(t@, ','),
                forall|d: int| #[trigger]
                    found.has(d) <==> exists|j: int|
                        0 <= j < k && in_part(text::trimmed(#[trigger] text::texts(parts@)[j]), d),
            decreases parts.len() - k,
        {
            let part: &[char] = text::trim(parts[k]);
            assert(text::texts(parts@)[k as int] == parts@[k as int]@);
            found.insert_part(part);
            k = k + 1;
        }
        let ghost all_parts = text::split_on(t@, ',');
        assert(forall|d: int|
            #![trigger found.has(d)]
            #![trigger in_parts(all_parts, d)]
            found.has(d) <==> in_parts(all_parts, d));
        proof {
            lemma_parts_name_days(all_parts);
        }
        if found.is_empty() {
            DaySet::all()
        } else {
            found
        }
    }
}

proof fn lemma_names_one_day(s: Seq<char>, d: int)
    requires
        names_day(s, d),
    ensures
        forall|e: int| #[trigger] names_day(s, e) ==> e == d,
{
    reveal_strlit("Mo");
    reveal_strlit("Tu");
    reveal_strlit("We");
    reveal_strlit("Th");
    reveal_strlit("Fr");
    reveal_strlit("Sa");
    reveal_strlit("Su");
    let (a, b) = (s[0], s[1]);
    assert forall|e: int| #[trigger] names_day(s, e) implies e == d by {
        assert(day_name(e)[0] == a && day_name(e)[1] == b);
        assert(day_name(d)[0] == a && day_name(d)[1] == b);
    }
}

proof fn lemma_glued_names_days(s: Seq<char>, d: int)
    requires
        in_glued(s, d),
    ensures
        0 <= d < 7,
    decreases s.len(),
{
    if s[0] > '\u{7F}' || s[1] > '\u{7F}' {
        lemma_glued_names_days(s.drop_first(), d);
    } else if !names_day(s.take(2), d) {
        lemma_glued_names_days(s.skip(2), d);
    }
}

proof fn lemma_parts_name_days(parts: Seq<Seq<char>>)
    ensures
        forall|d: int| #[trigger] in_parts(parts, d) ==> 0 <= d < 7,
{
    assert forall|d: int| #[trigger] in_parts(parts, d) implies 0 <= d < 7 by {
        let i = choose|i: int|
            0 <= i < parts.len() && in_part(text::trimmed(#[trigger] parts[i]), d);
        let s = text::trimmed(parts[i]);
        if text::first_index(s, '-', 0) >= s.len() {
            lemma_glued_names_days(s, d);
        }
    }
}

/// Whatever a field holds, it means at least one day.
pub proof fn law_some_day_is_meant(s: Seq<char>)
    ensures
        exists|d: int| #[trigger] in_field(s, d),
{
    let t = text::trimmed(s);
    let parts = text::split_on(t, ',');
    if t.len() == 0 || is_irregular(t) {
        assert(in_field(s, 0));
    } else if is_day_digits(t) {
        let d = t[0] as int - 49;
        assert('1' <= t[0] <= '7');
        assert(t.contains(day_digit(d)));
        assert(in_field(s, d));
    } else if exists|d: int| 0 <= d < 7 && #[trigger] in_parts(parts, d) {
        let d = choose|d: int| 0 <= d < 7 && #[trigger] in_parts(parts, d);
        assert(in_field(s, d));
    } else {
        assert(in_field(s, 0));
    }
}

/// A range that runs over the end of the week has all days that the range between has not.
pub proof fn law_range_over_the_week(a: int, b: int, d: int)
    requires
        0 <= b < a < 7,
        0 <= d < 7,
    ensures
        in_day_range(a, b, d) == !(b < d < a),
{
}

/// The two letters of a day.
pub open spec fn letters_of(d: int) -> (char, char) {
    if d == 0 {
        ('M', 'o')
    } else if d == 1 {
        ('T', 'u')
    } else if d == 2 {
        ('W', 'e')
    } else if d == 3 {
        ('T', 'h')
    } else if d == 4 {
        ('F', 'r')
    } else if d == 5 {
        ('S', 'a')
    } else {
        ('S', 'u')
    }
}

proof fn lemma_day_letters(d: int)
    ensures
        day_name(d) == seq![letters_of(d).0, letters_of(d).1],
{
    reveal_strlit("Mo");
    reveal_strlit("Tu");
    reveal_strlit("We");
    reveal_strlit("Th");
    reveal_strlit("Fr");
    reveal_strlit("Sa");
    reveal_strlit("Su");
    assert(day_name(d) =~= seq![letters_of(d).0, letters_of(d).1]);
}

/// Two letters name a day only where they are those of the day.
proof fn lemma_names(s: Seq<char>, a: int, d: int)
    requires
        0 <= a < 7,
        s == seq![letters_of(a).0, letters_of(a).1],
    ensures
        names_day(s, d) <==> d == a,
{
    lemma_day_letters(a);
    if 0 <= d < 7 {
        lemma_day_letters(d);
        if s == day_name(d) {
            assert(s[0] == letters_of(d).0 && s[1] == letters_of(d).1);
        }
    }
}

/// A text that begins with a letter and ends with one is not trimmed.
proof fn lemma_nothing_to_trim(s: Seq<char>)
    requires
        s.len() > 0,
        'A' <= s[0] <= 'z',
        'A' <= s.last() <= 'z',
    ensures
        text::trimmed(s) == s,
{
    let none = Seq::<char>::empty();
    assert(none + s + none == s);
    text::law_trimming_takes_the_blanks_at_the_ends(none, s, none);
}

/// A range of days goes on from its first day to its last one, over the end of the week where it has
/// to: a day is in it when it comes no later after the first than the last does.
pub proof fn law_day_range_goes_on_over_the_weekend(a: int, b: int, d: int)
    requires
        0 <= a < 7,
        0 <= b < 7,
        0 <= d < 7,
    ensures
        in_day_range(a, b, d) <==> (d - a) % 7 <= (b - a) % 7,
{
}

/// Two days with a hyphen between them mean all days from the one to the other.
#[verifier::rlimit(40)]
pub proof fn law_named_range_is_read(a: int, b: int, d: int)
    requires
        0 <= a < 7,
        0 <= b < 7,
        0 <= d < 7,
    ensures
        ({
            let s = seq![
                letters_of(a).0,
                letters_of(a).1,
                '-',
                letters_of(b).0,
                letters_of(b).1,
            ];
            in_field(s, d) <==> (d - a) % 7 <= (b - a) % 7
        }),
{
    let s = seq![letters_of(a).0, letters_of(a).1, '-', letters_of(b).0, letters_of(b).1];
    let x = seq![letters_of(a).0, letters_of(a).1];
    let y = seq![letters_of(b).0, letters_of(b).1];
    lemma_nothing_to_trim(s);
    assert(!is_day_digits(s)) by {
        assert(!('1' <= s[2] <= '7'));
    }
    let parts = text::split_on(s, ',');
    text::lemma_is_first_index(s, ',', 0, 5);
    assert(parts == seq![s]);
    text::lemma_is_first_index(s, '-', 0, 2);
    assert(s.take(2) =~= x);
    assert(s.skip(3) =~= y);
    let i = text::first_index(s, '-', 0);
    assert forall|e: int| #[trigger] in_parts(parts, e) <==> in_day_range(a, b, e) by {
        assert(parts[0] == s);
        lemma_names(x, a, a);
        lemma_names(y, b, b);
        assert(names_day(s.take(i), a) && names_day(s.skip(i + 1), b));
        if in_part(s, e) {
            let (p, q) = choose|p: int, q: int|
                #![trigger names_day(s.take(i), p), names_day(s.skip(i + 1), q)]
                names_day(s.take(i), p) && names_day(s.skip(i + 1), q) && in_day_range(p, q, e);
            lemma_names(x, a, p);
            lemma_names(y, b, q);
        }
        assert(in_part(s, e) <==> in_day_range(a, b, e));
    }
    law_day_range_goes_on_over_the_weekend(a, b, d);
    assert(in_parts(parts, a));
}

/// Days written one behind the other, or with a comma between them, mean just those days.
#[verifier::rlimit(40)]
pub proof fn law_named_days_are_read(a: int, b: int, d: int)
    requires
        0 <= a < 7,
        0 <= b < 7,
        0 <= d < 7,
    ensures
        in_field(seq![letters_of(a).0, letters_of(a).1], d) <==> d == a,
        in_field(
            seq![letters_of(a).0, letters_of(a).1, letters_of(b).0, letters_of(b).1],
            d,
        ) <==> d == a || d == b,
        in_field(
            seq![letters_of(a).0, letters_of(a).1, ',', letters_of(b).0, letters_of(b).1],
            d,
        ) <==> d == a || d == b,
{
    let x = seq![letters_of(a).0, letters_of(a).1];
    let y = seq![letters_of(b).0, letters_of(b).1];
    lemma_one_day(a);
    lemma_one_day(b);
    lemma_nothing_to_trim(x);
    lemma_nothing_to_trim(y);
    assert(!is_day_digits(x)) by {
        assert(!('1' <= x[0] <= '7'));
    }
    let one = text::split_on(x, ',');
    text::lemma_is_first_index(x, ',', 0, 2);
    assert(one == seq![x]);
    assert forall|e: int| #[trigger] in_parts(one, e) <==> e == a by {
        assert(one[0] == x);
        assert(in_part(x, e) <==> e == a);
    }
    assert(in_parts(one, a));
    let two = x + y;
    assert(two =~= seq![letters_of(a).0, letters_of(a).1, letters_of(b).0, letters_of(b).1]);
    lemma_nothing_to_trim(two);
    assert(!is_day_digits(two)) by {
        assert(!('1' <= two[0] <= '7'));
    }
    let glued = text::split_on(two, ',');
    text::lemma_is_first_index(two, ',', 0, 4);
    text::lemma_is_first_index(two, '-', 0, 4);
    assert(glued == seq![two]);
    assert forall|e: int| #[trigger] in_parts(glued, e) <==> e == a || e == b by {
        assert(glued[0] == two);
        assert(two.take(2) =~= x);
        assert(two.skip(2) =~= y);
        lemma_names(x, a, e);
        assert(in_glued(two, e) <==> names_day(x, e) || in_glued(y, e));
        assert(in_part(y, e) <==> e == b);
        assert(in_part(two, e) <==> in_glued(two, e));
    }
    assert(in_parts(glued, a));
    let listed = x + seq![','] + y;
    assert(listed =~= seq![letters_of(a).0, letters_of(a).1, ',', letters_of(b).0, letters_of(b).1]);
    lemma_nothing_to_trim(listed);
    assert(!is_day_digits(listed)) by {
        assert(!('1' <= listed[0] <= '7'));
    }
    let both = seq![x, y];
    reveal_with_fuel(text::joined_by, 2);
    assert(both.drop_first() =~= seq![y]);
    assert(text::joined_by(both, ',') =~= listed);
    text::law_split_gives_the_parts_back(both, ',');
    assert forall|e: int| #[trigger] in_parts(both, e) <==> e == a || e == b by {
        assert(both[0] == x && both[1] == y);
        assert(in_part(x, e) <==> e == a);
        assert(in_part(y, e) <==> e == b);
    }
    assert(in_parts(both, a));
}

/// The two letters of a day alone.
proof fn lemma_one_day(a: int)
    requires
        0 <= a < 7,
    ensures
        ({
            let x = seq![letters_of(a).0, letters_of(a).1];
            forall|e: int| #[trigger] in_part(x, e) <==> e == a
        }),
        ({
            let x = seq![letters_of(a).0, letters_of(a).1];
            forall|e: int| #[trigger] in_glued(x, e) <==> e == a
        }),
{
    let x = seq![letters_of(a).0, letters_of(a).1];
    text::lemma_is_first_index(x, '-', 0, 2);
    assert(x.take(2) =~= x);
    assert forall|e: int| #[trigger] in_glued(x, e) <==> e == a by {
        lemma_names(x, a, e);
        assert(!in_glued(x.skip(2), e));
    }
    assert forall|e: int| #[trigger] in_part(x, e) <==> e == a by {
        assert(in_glued(x, e) <==> e == a);
    }
}

/// Digits mean the days that they count, from 1 for Monday.
pub proof fn law_digits_are_days(s: Seq<char>, d: int)
    requires
        s.len() > 0,
        forall|i: int| 0 <= i < s.len() ==> '1' <= #[trigger] s[i] <= '7',
        0 <= d < 7,
    ensures
        in_field(s, d) <==> exists|i: int| 0 <= i < s.len() && #[trigger] s[i] as int == 49 + d,
{
    let none = Seq::<char>::empty();
    assert(none + s + none == s);
    assert('1' <= s[0] <= '7' && '1' <= s[s.len() - 1] <= '7');
    text::law_trimming_takes_the_blanks_at_the_ends(none, s, none);
    if in_field(s, d) {
        let i = choose|i: int| 0 <= i < s.len() && s[i] == day_digit(d);
        assert(s[i] as int == 49 + d);
    }
    if exists|i: int| 0 <= i < s.len() && #[trigger] s[i] as int == 49 + d {
        let i = choose|i: int| 0 <= i < s.len() && #[trigger] s[i] as int == 49 + d;
        assert(s[i] == day_digit(d));
    }
}

/// A field that is empty or blank means every day, and so does the word for "irregularly", in small or
/// in large letters.
pub proof fn law_no_days_are_all_days(blank: Seq<char>, d: int)
    requires
        forall|i: int| 0 <= i < blank.len() ==> text::is_white(#[trigger] blank[i]),
        0 <= d < 7,
    ensures
        in_field(blank, d),
        in_field(seq!['i', 'r', 'r'], d),
        in_field(seq!['I', 'R', 'R'], d),
        in_field(seq!['I', 'r', 'r'], d),
{
    lemma_blank_is_trimmed(blank);
    lemma_nothing_to_trim(seq!['i', 'r', 'r']);
    lemma_nothing_to_trim(seq!['I', 'R', 'R']);
    lemma_nothing_to_trim(seq!['I', 'r', 'r']);
}

proof fn lemma_blank_is_trimmed(blank: Seq<char>)
    requires
        forall|i: int| 0 <= i < blank.len() ==> text::is_white(#[trigger] blank[i]),
    ensures
        text::trimmed(blank).len() == 0,
    decreases blank.len(),
{
    if blank.len() > 0 {
        let rest = blank.drop_first();
        assert(text::is_white(blank[0]));
        assert forall|i: int| 0 <= i < rest.len() implies text::is_white(#[trigger] rest[i]) by {
            assert(rest[i] == blank[i + 1]);
        }
        lemma_blank_is_trimmed(rest);
    }
}

} // verus!
