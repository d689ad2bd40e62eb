//! The schedule: all entries of a season, and the search for what is on the air.
use crate::schedule::calendar;
use crate::schedule::calendar::Moment;
use crate::schedule::codes;
use crate::schedule::codes::Codes;
use crate::schedule::entry;
use crate::schedule::entry::Entry;
use crate::schedule::entry::EntryView;
use crate::schedule::khz;
use crate::text;
use vstd::prelude::*;

verus! {

/// The place of a new item behind all that do not come after it.
pub open spec fn place(s: Seq<EntryView>, key: spec_fn(EntryView) -> int, k: int) -> int
    decreases s.len(),
{
    if s.len() == 0 || key(s.last()) <= k {
        s.len() as int
    } else {
        place(s.drop_last(), key, k)
    }
}

/// The entries in the order of a key. Those with the same key keep the order that they have.
pub open spec fn ordered(s: Seq<EntryView>, key: spec_fn(EntryView) -> int) -> Seq<EntryView>
    decreases s.len(),
{
    if s.len() == 0 {
        s
    } else {
        let before = ordered(s.drop_last(), key);
        before.insert(place(before, key, key(s.last())), s.last())
    }
}

/// The keys do not fall.
pub open spec fn is_ordered(s: Seq<EntryView>, key: spec_fn(EntryView) -> int) -> bool {
    forall|i: int, j: int| 0 <= i <= j < s.len() ==> key(#[trigger] s[i]) <= key(#[trigger] s[j])
}

proof fn lemma_place(s: Seq<EntryView>, key: spec_fn(EntryView) -> int, k: int)
    ensures
        0 <= place(s, key, k) <= s.len(),
        forall|i: int| place(s, key, k) <= i < s.len() ==> key(#[trigger] s[i]) > k,
        place(s, key, k) > 0 ==> key(s[place(s, key, k) - 1]) <= k,
    decreases s.len(),
{
    if s.len() > 0 && key(s.last()) > k {
        lemma_place(s.drop_last(), key, k);
        let p = place(s, key, k);
        assert forall|i: int| p <= i < s.len() implies key(#[trigger] s[i]) > k by {
            if i < s.len() - 1 {
                assert(s.drop_last()[i] == s[i]);
            }
        }
    }
}

/// Ordering gives an order.
pub proof fn law_ordered_is_ordered(s: Seq<EntryView>, key: spec_fn(EntryView) -> int)
    ensures
        is_ordered(ordered(s, key), key),
        ordered(s, key).len() == s.len(),
    decreases s.len(),
{
    if s.len() > 0 {
        law_ordered_is_ordered(s.drop_last(), key);
        let before = ordered(s.drop_last(), key);
        let p = place(before, key, key(s.last()));
        lemma_place(before, key, key(s.last()));
        let after = before.insert(p, s.last());
        assert forall|i: int, j: int| 0 <= i <= j < after.len() implies key(#[trigger] after[i])
            <= key(#[trigger] after[j]) by {
            if i < p {
                assert(after[i] == before[i]);
                assert(key(before[i]) <= key(before[p - 1]));
            } else if i > p {
                assert(after[i] == before[i - 1]);
            }
            if j < p {
                assert(after[j] == before[j]);
            } else if j > p {
                assert(after[j] == before[j - 1]);
            }
        }
    }
}

/// The entries with one value of the key.
pub open spec fn with_key(
    s: Seq<EntryView>,
    key: spec_fn(EntryView) -> int,
    k: int,
) -> Seq<EntryView> {
    s.filter(|e: EntryView| key(e) == k)
}

proof fn lemma_nothing_with_key(s: Seq<EntryView>, key: spec_fn(EntryView) -> int, k: int)
    requires
        forall|i: int| 0 <= i < s.len() ==> key(#[trigger] s[i]) != k,
    ensures
        with_key(s, key, k) == Seq::<EntryView>::empty(),
    decreases s.len(),
{
    reveal(Seq::filter);
    if s.len() > 0 {
        assert forall|i: int| 0 <= i < s.drop_last().len() implies key(
            #[trigger] s.drop_last()[i],
        ) != k by {
            assert(s[i] == s.drop_last()[i]);
        }
        lemma_nothing_with_key(s.drop_last(), key, k);
        assert(key(s[s.len() - 1]) != k);
    }
}

/// Ordering is stable and loses nothing: the entries with any one key are the same before and
/// after, in the same order.
pub proof fn law_ordering_is_stable(s: Seq<EntryView>, key: spec_fn(EntryView) -> int, k: int)
    ensures
        with_key(ordered(s, key), key, k) == with_key(s, key, k),
    decreases s.len(),
{
    if s.len() > 0 {
        let e = s.last();
        let f = |x: EntryView| key(x) == k;
        law_ordering_is_stable(s.drop_last(), key, k);
        let before = ordered(s.drop_last(), key);
        let p = place(before, key, key(e));
        lemma_place(before, key, key(e));
        let head = before.take(p);
        let rest = before.skip(p);
        assert(before.insert(p, e) == head.push(e) + rest);
        assert(head + rest == before);
        Seq::filter_distributes_over_add(head.push(e), rest, f);
        Seq::filter_distributes_over_add(head, rest, f);
        reveal(Seq::filter);
        assert(head.push(e).drop_last() == head);
        if key(e) == k {
            assert forall|i: int| 0 <= i < rest.len() implies key(#[trigger] rest[i]) != k by {
                assert(rest[i] == before[i + p]);
            }
            lemma_nothing_with_key(rest, key, k);
            assert(head.filter(f) + Seq::<EntryView>::empty() == head.filter(f));
            assert(head.filter(f).push(e) + Seq::<EntryView>::empty() == head.filter(f).push(e));
        }
    }
}

/// The entries that the lines give, in their order.
pub open spec fn entries_of(lines: Seq<Seq<char>>) -> Seq<EntryView>
    decreases lines.len(),
{
    if lines.len() == 0 {
        Seq::empty()
    } else {
        let before = entries_of(lines.drop_last());
        match entry::entry_of(lines.last()) {
            Some(e) => before.push(e),
            None => before,
        }
    }
}

/// Where an entry stands by its frequency: behind all others where it has none.
pub open spec fn standing(freq: Option<int>) -> int {
    match freq {
        Some(f) => f,
        None => i64::MAX + 1,
    }
}

/// The frequency as a key.
pub open spec fn by_frequency() -> spec_fn(EntryView) -> int {
    |e: EntryView| standing(e.freq)
}

/// The lines behind the headline.
pub open spec fn body(lines: Seq<Seq<char>>) -> Seq<Seq<char>> {
    if lines.len() == 0 {
        lines
    } else {
        lines.skip(1)
    }
}

/// The entries of a list: those of all lines but the first, in the order of their frequencies.
pub open spec fn list_of(csv: Seq<char>) -> Seq<EntryView> {
    ordered(entries_of(body(text::lines_of(csv))), by_frequency())
}

/// How far apart two frequencies are.
pub open spec fn apart(a: int, b: int) -> int {
    if a < b {
        b - a
    } else {
        a - b
    }
}

/// The distance from a frequency as a key. Entries without a frequency are near none, so theirs does
/// not matter.
pub open spec fn by_distance(freq: int) -> spec_fn(EntryView) -> int {
    |e: EntryView|
        match e.freq {
            Some(f) => apart(f, freq),
            None => 0,
        }
}

/// The time of day of a moment, as HHMM.
pub open spec fn hhmm_of(m: Moment) -> int {
    m.hour * 100 + m.minute
}

/// An entry is near a frequency and on the air.
pub open spec fn is_heard(e: EntryView, freq: int, tolerance: int, m: Moment) -> bool {
    &&& e.freq matches Some(f) && apart(f, freq) <= tolerance
    &&& e.on_at(
        hhmm_of(m),
        calendar::weekday_number(m.year as int, m.month as int, m.day as int),
    )
    &&& e.on_date(m.month as int, m.day as int)
}

/// Two entries that are shown once: the same station on the same frequency.
pub open spec fn same_station(a: EntryView, b: EntryView) -> bool {
    a.station == b.station && a.freq == b.freq
}

/// The entries without those that repeat the station kept before them.
pub open spec fn without_repeats(s: Seq<EntryView>) -> Seq<EntryView>
    decreases s.len(),
{
    if s.len() == 0 {
        s
    } else {
        let before = without_repeats(s.drop_last());
        if before.len() > 0 && same_station(before.last(), s.last()) {
            before
        } else {
            before.push(s.last())
        }
    }
}

/// What is on the air near a frequency: the nearest first, a station once in a row.
pub open spec fn heard(
    entries: Seq<EntryView>,
    freq: int,
    tolerance: int,
    m: Moment,
) -> Seq<EntryView> {
    without_repeats(
        ordered(
            entries.filter(|e: EntryView| is_heard(e, freq, tolerance, m)),
            by_distance(freq),
        ),
    )
}

/// A schedule of a season.
#[derive(Debug)]
pub struct Schedule {
    pub entries: Vec<Entry>,
    pub season: String,
    pub codes: Codes,
}

/// What the entries say.
pub open spec fn views(s: Seq<Entry>) -> Seq<EntryView> {
    s.map_values(|e: Entry| e@)
}

/// What the entries that are pointed to say.
pub open spec fn ref_views(s: Seq<&Entry>) -> Seq<EntryView> {
    s.map_values(|e: &Entry| e@)
}

/// Does an entry with one frequency stand behind one with another?
fn stands_behind(a: Option<i64>, b: Option<i64>) -> (r: bool)
    ensures
        r == (standing(khz::number_of(a)) > standing(khz::number_of(b))),
{
    match (a, b) {
        (Some(x), Some(y)) => x > y,
        (None, Some(_)) => true,
        _ => false,
    }
}

/// Puts an entry in its place by frequency.
fn insert_entry(entries: &mut Vec<Entry>, e: Entry)
    ensures
        final(entries)@.len() == old(entries)@.len() + 1,
        views(final(entries)@) == views(old(entries)@).insert(
            place(views(old(entries)@), by_frequency(), standing(e@.freq)),
            e@,
        ),
{
    let mut i: usize = entries.len();
    let ghost all = views(entries@);
    assert(all.take(i as int) == all);
    while i > 0 && stands_behind(entries[i - 1].freq_millihz, e.freq_millihz)
        invariant
            i <= entries@.len(),
            entries@ == old(entries)@,
            all == views(entries@),
            place(all, by_frequency(), standing(e@.freq)) == place(
                all.take(i as int),
                by_frequency(),
                standing(e@.freq),
            ),
        decreases i,
    {
        assert(all.take(i as int).drop_last() == all.take(i - 1));
        assert(all.take(i as int).last() == entries@[i - 1]@);
        i = i - 1;
    }
    proof {
        if i > 0 {
            assert(all.take(i as int).last() == entries@[i - 1]@);
        }
        assert(place(all, by_frequency(), standing(e@.freq)) == i);
    }
    let ghost added = e@;
    entries.insert(i, e);
    assert(views(entries@) =~= all.insert(i as int, added));
}

impl Schedule {
    /// A schedule without the meaning of codes.
    pub fn parse(csv: &str, season: &str) -> (r: Schedule)
        ensures
            views(r.entries@) == list_of(csv@),
            r.season@ == season@,
            r.codes.wf(),
            r.codes.countries@ == Map::<Seq<char>, Seq<char>>::empty(),
            r.codes.languages@ == Map::<Seq<char>, Seq<char>>::empty(),
            r.codes.targets@ == Map::<Seq<char>, Seq<char>>::empty(),
    {
        Schedule::parse_with_codes(csv, season, Codes::default())
    }

    /// Reads a list.
    pub fn parse_with_codes(csv: &str, season: &str, codes: Codes) -> (r: Schedule)
        ensures
            views(r.entries@) == list_of(csv@),
            r.season@ == season@,
            r.codes == codes,
    {
        let chars = text::to_chars(csv);
        let lines = text::lines(&chars);
        let ghost rest = body(text::texts(lines@));
        let mut entries: Vec<Entry> = Vec::new();
        let mut i: usize = 1;
        assert(rest.take(0) == Seq::<Seq<char>>::empty());
        assert(views(entries@) =~= Seq::<EntryView>::empty());
        while i < lines.len()
            invariant
                1 <= i,
                lines@.len() >= 1 ==> i <= lines@.len(),
                lines@.len() == 0 ==> i == 1,
                rest == body(text::texts(lines@)),
                views(entries@) == ordered(entries_of(rest.take(i as int - 1)), by_frequency()),
            decreases lines.len() - i,
        {
            let line: &[char] = lines[i];
            proof {
                assert(rest[i as int - 1] == line@);
                assert(rest.take(i as int).drop_last() == rest.take(i as int - 1));
            }
            match entry::parse_line(line) {
                Some(e) => {
                    proof {
                        let before = entries_of(rest.take(i as int - 1));
                        assert(before.push(e@).drop_last() == before);
                    }
                    insert_entry(&mut entries, e);
                },
                None => {},
            }
            i = i + 1;
        }
        assert(rest.take(i as int - 1) == rest);
        Schedule { entries, season: season.to_string(), codes }
    }
}

/// Collects what is heard near a frequency, in the order of distance.
fn collect_heard<'a>(
    entries: &'a Vec<Entry>,
    freq: i64,
    tolerance: i64,
    m: &Moment,
    day: u8,
) -> (r: Vec<&'a Entry>)
    requires
        m.valid(),
        day == calendar::weekday_number(m.year as int, m.month as int, m.day as int),
        day < 7,
    ensures
        ref_views(r@) == ordered(
            views(entries@).filter(
                |e: EntryView| is_heard(e, freq as int, tolerance as int, *m),
            ),
            by_distance(freq as int),
        ),
{
    let hhmm: u16 = (m.hour * 100 + m.minute) as u16;
    let ghost key = by_distance(freq as int);
    let ghost f = |e: EntryView| is_heard(e, freq as int, tolerance as int, *m);
    let ghost all = views(entries@);
    let mut found: Vec<&'a Entry> = Vec::new();
    let mut i: usize = 0;
    proof {
        reveal(Seq::filter);
        assert(all.take(0) == Seq::<EntryView>::empty());
        assert(ref_views(found@) =~= Seq::<EntryView>::empty());
    }
    while i < entries.len()
        invariant
            i <= entries@.len(),
            m.valid(),
            day == calendar::weekday_number(m.year as int, m.month as int, m.day as int),
            day < 7,
            hhmm == hhmm_of(*m),
            key == by_distance(freq as int),
            f == (|e: EntryView| is_heard(e, freq as int, tolerance as int, *m)),
            all == views(entries@),
            ref_views(found@) == ordered(all.take(i as int).filter(f), key),
        decreases entries.len() - i,
    {
        let e: &'a Entry = &entries[i];
        let distance: u64 = distance_of(e.freq_millihz, freq);
        proof {
            reveal(Seq::filter);
            assert(all.take(i as int + 1).drop_last() == all.take(i as int));
            assert(all.take(i as int + 1).last() == e@);
        }
        if e.freq_millihz.is_some() && tolerance >= 0 && distance <= tolerance as u64 && e.active_at(hhmm, day)
            && e.active_on_date(m.month, m.day) {
            assert(f(e@));
            let mut k: usize = found.len();
            let ghost before = ref_views(found@);
            let ghost so_far = all.take(i as int).filter(f);
            assert(before.take(k as int) == before);
            while k > 0 && distance_of(found[k - 1].freq_millihz, freq) > distance
                invariant
                    k <= found@.len(),
                    key == by_distance(freq as int),
                    before == ref_views(found@),
                    distance == key(e@),
                    place(before, key, key(e@)) == place(before.take(k as int), key, key(e@)),
                decreases k,
            {
                assert(before.take(k as int).drop_last() == before.take(k - 1));
                assert(before.take(k as int).last() == found@[k - 1]@);
                k = k - 1;
            }
            proof {
                if k > 0 {
                    assert(before.take(k as int).last() == found@[k - 1]@);
                }
                assert(place(before, key, key(e@)) == k);
                assert(so_far.push(e@).drop_last() == so_far);
            }
            found.insert(k, e);
            assert(ref_views(found@) =~= before.insert(k as int, e@));
        } else {
            assert(!f(e@));
        }
        i = i + 1;
    }
    assert(all.take(i as int) == all);
    found
}

/// How far the frequency of an entry is from another, where it has one.
fn distance_of(a: Option<i64>, b: i64) -> (r: u64)
    ensures
        r == (match a {
            Some(f) => apart(f as int, b as int),
            None => 0,
        }),
{
    match a {
        Some(f) => if f < b {
            (b as i128 - f as i128) as u64
        } else {
            (f as i128 - b as i128) as u64
        },
        None => 0,
    }
}

impl Schedule {
    /// The stations that are to be on the air near a frequency at a moment. The tolerance covers
    /// what tuning is off and what stations differ from the list.
    pub fn lookup_at(&self, freq: i64, tolerance: i64, m: &Moment) -> (r: Vec<&Entry>)
        requires
            m.valid(),
        ensures
            ref_views(r@) == heard(views(self.entries@), freq as int, tolerance as int, *m),
    {
        let day: u8 = calendar::weekday_at(m);
        let found = collect_heard(&self.entries, freq, tolerance, m, day);
        let ghost all = ref_views(found@);
        let mut kept: Vec<&Entry> = Vec::new();
        let mut i: usize = 0;
        assert(all.take(0) == Seq::<EntryView>::empty());
        assert(ref_views(kept@) =~= Seq::<EntryView>::empty());
        while i < found.len()
            invariant
                i <= found@.len(),
                all == ref_views(found@),
                ref_views(kept@) == without_repeats(all.take(i as int)),
            decreases found.len() - i,
        {
            let e: &Entry = found[i];
            proof {
                assert(all.take(i as int + 1).drop_last() == all.take(i as int));
                assert(all.take(i as int + 1).last() == e@);
            }
            let ghost before = ref_views(kept@);
            let repeated: bool = if kept.len() > 0 {
                let last: &Entry = kept[kept.len() - 1];
                assert(before.last() == last@);
                let a = text::to_chars(last.station.as_str());
                last.freq_millihz == e.freq_millihz && text::equals(&a, e.station.as_str())
            } else {
                false
            };
            if !repeated {
                kept.push(e);
                assert(ref_views(kept@) =~= before.push(e@));
            }
            i = i + 1;
        }
        assert(all.take(i as int) == all);
        kept
    }

    /// The stations that are to be on the air near a frequency now.
    pub fn lookup(&self, freq: i64, tolerance: i64) -> (r: Vec<&Entry>)
        ensures
            exists|m: Moment|
                #[trigger] m.valid() && ref_views(r@) == heard(
                    views(self.entries@),
                    freq as int,
                    tolerance as int,
                    m,
                ),
    {
        let now = calendar::utc_now();
        let r = self.lookup_at(freq, tolerance, &now);
        assert(now.valid());
        r
    }
}

proof fn lemma_ordered_contains(s: Seq<EntryView>, key: spec_fn(EntryView) -> int, e: EntryView)
    ensures
        ordered(s, key).contains(e) <==> s.contains(e),
    decreases s.len(),
{
    if s.len() > 0 {
        lemma_ordered_contains(s.drop_last(), key, e);
        let before = ordered(s.drop_last(), key);
        let p = place(before, key, key(s.last()));
        lemma_place(before, key, key(s.last()));
        let after = before.insert(p, s.last());
        assert(after[p] == s.last());
        if after.contains(e) {
            let i = choose|i: int| 0 <= i < after.len() && after[i] == e;
            if i < p {
                assert(before[i] == e);
            } else if i > p {
                assert(before[i - 1] == e);
            } else {
                assert(s[s.len() - 1] == e);
            }
            if before.contains(e) {
                let j = choose|j: int| 0 <= j < s.drop_last().len() && s.drop_last()[j] == e;
                assert(s[j] == e);
            }
        }
        if s.contains(e) {
            let i = choose|i: int| 0 <= i < s.len() && s[i] == e;
            if i < s.len() - 1 {
                assert(s.drop_last()[i] == e);
                let j = choose|j: int| 0 <= j < before.len() && before[j] == e;
                if j < p {
                    assert(after[j] == e);
                } else {
                    assert(after[j + 1] == e);
                }
            } else {
                assert(after[p] == e);
            }
        }
    }
}

/// Leaving out repeats keeps the order.
proof fn lemma_repeats_keep_order(s: Seq<EntryView>, key: spec_fn(EntryView) -> int)
    requires
        is_ordered(s, key),
    ensures
        is_ordered(without_repeats(s), key),
        without_repeats(s).len() > 0 ==> s.len() > 0 && key(without_repeats(s).last()) <= key(
            s.last(),
        ),
    decreases s.len(),
{
    if s.len() > 0 {
        let front = s.drop_last();
        assert(is_ordered(front, key)) by {
            assert forall|i: int, j: int| 0 <= i <= j < front.len() implies key(#[trigger] front[i])
                <= key(#[trigger] front[j]) by {
                assert(front[i] == s[i] && front[j] == s[j]);
            }
        }
        lemma_repeats_keep_order(front, key);
        let before = without_repeats(front);
        let after = without_repeats(s);
        if before.len() > 0 {
            assert(key(s[s.len() - 2]) <= key(s[s.len() - 1]));
        }
        if after.len() > before.len() {
            assert forall|i: int, j: int| 0 <= i <= j < after.len() implies key(#[trigger] after[i])
                <= key(#[trigger] after[j]) by {
                if j < before.len() {
                    assert(after[i] == before[i] && after[j] == before[j]);
                } else if i < before.len() {
                    assert(after[i] == before[i]);
                    assert(key(before[i]) <= key(before[before.len() - 1]));
                }
            }
        }
    }
}

/// Leaving out repeats adds nothing.
proof fn lemma_repeats_add_nothing(s: Seq<EntryView>, e: EntryView)
    requires
        without_repeats(s).contains(e),
    ensures
        s.contains(e),
    decreases s.len(),
{
    if s.len() > 0 {
        let front = s.drop_last();
        let before = without_repeats(front);
        let after = without_repeats(s);
        let i = choose|i: int| 0 <= i < after.len() && after[i] == e;
        if i < before.len() {
            assert(before[i] == e);
            lemma_repeats_add_nothing(front, e);
            let j = choose|j: int| 0 <= j < front.len() && front[j] == e;
            assert(s[j] == e);
        } else {
            assert(s[s.len() - 1] == e);
        }
    }
}

/// A station and a frequency are among the entries.
pub open spec fn shows(s: Seq<EntryView>, e: EntryView) -> bool {
    exists|k: int| 0 <= k < s.len() && same_station(#[trigger] s[k], e)
}

/// Leaving out repeats leaves every station.
proof fn lemma_repeats_leave_stations(s: Seq<EntryView>, e: EntryView)
    requires
        s.contains(e),
    ensures
        shows(without_repeats(s), e),
    decreases s.len(),
{
    let front = s.drop_last();
    let before = without_repeats(front);
    let after = without_repeats(s);
    let j = choose|j: int| 0 <= j < s.len() && s[j] == e;
    if j < front.len() {
        assert(front[j] == e);
        lemma_repeats_leave_stations(front, e);
        let i = choose|i: int| 0 <= i < before.len() && same_station(#[trigger] before[i], e);
        assert(after[i] == before[i]);
    } else {
        assert(same_station(after[after.len() - 1], e));
    }
}

/// What is shown as heard is in the schedule, near the frequency and on the air.
pub proof fn law_shown_is_on_the_air(
    entries: Seq<EntryView>,
    freq: int,
    tolerance: int,
    m: Moment,
    i: int,
)
    requires
        0 <= i < heard(entries, freq, tolerance, m).len(),
    ensures
        entries.contains(heard(entries, freq, tolerance, m)[i]),
        is_heard(heard(entries, freq, tolerance, m)[i], freq, tolerance, m),
{
    let f = |e: EntryView| is_heard(e, freq, tolerance, m);
    let key = by_distance(freq);
    let picked = entries.filter(f);
    let e = heard(entries, freq, tolerance, m)[i];
    lemma_repeats_add_nothing(ordered(picked, key), e);
    lemma_ordered_contains(picked, key, e);
    entries.lemma_filter_contains_rev(f, e);
    let j = choose|j: int| 0 <= j < picked.len() && picked[j] == e;
    entries.lemma_filter_pred(f, j);
}

/// What is shown as heard comes with the nearest first.
pub proof fn law_nearest_first(entries: Seq<EntryView>, freq: int, tolerance: int, m: Moment)
    ensures
        is_ordered(heard(entries, freq, tolerance, m), by_distance(freq)),
{
    let f = |e: EntryView| is_heard(e, freq, tolerance, m);
    let key = by_distance(freq);
    law_ordered_is_ordered(entries.filter(f), key);
    lemma_repeats_keep_order(ordered(entries.filter(f), key), key);
}

/// A station on a frequency is shown once in a row.
pub proof fn law_no_station_follows_itself(
    entries: Seq<EntryView>,
    freq: int,
    tolerance: int,
    m: Moment,
    i: int,
)
    requires
        0 <= i < heard(entries, freq, tolerance, m).len() - 1,
    ensures
        !same_station(
            heard(entries, freq, tolerance, m)[i],
            heard(entries, freq, tolerance, m)[i + 1],
        ),
{
    let f = |e: EntryView| is_heard(e, freq, tolerance, m);
    lemma_no_neighbours(ordered(entries.filter(f), by_distance(freq)), i);
}

/// Leaving out repeats leaves no two of them side by side.
proof fn lemma_no_neighbours(s: Seq<EntryView>, i: int)
    requires
        0 <= i < without_repeats(s).len() - 1,
    ensures
        !same_station(without_repeats(s)[i], without_repeats(s)[i + 1]),
    decreases s.len(),
{
    let before = without_repeats(s.drop_last());
    if i + 1 < before.len() {
        lemma_no_neighbours(s.drop_last(), i);
    }
}

/// Every station that is near the frequency and on the air is shown.
pub proof fn law_every_station_is_shown(
    entries: Seq<EntryView>,
    freq: int,
    tolerance: int,
    m: Moment,
    i: int,
)
    requires
        0 <= i < entries.len(),
        is_heard(entries[i], freq, tolerance, m),
    ensures
        shows(heard(entries, freq, tolerance, m), entries[i]),
{
    let f = |e: EntryView| is_heard(e, freq, tolerance, m);
    let key = by_distance(freq);
    let e = entries[i];
    assert(f(e));
    entries.lemma_filter_contains(f, i);
    let picked = ordered(entries.filter(f), key);
    lemma_ordered_contains(entries.filter(f), key, e);
    lemma_repeats_leave_stations(picked, e);
}

/// What is found is what is on the air, to the minute: a station is shown exactly while the time of
/// day lies between its start and its end, both counted in minutes, and the end may lie behind
/// midnight; on its days of the week; between its dates, where they bind it; and no farther from the
/// frequency than the tolerance.
#[verifier::rlimit(40)]
pub proof fn law_found_to_the_minute(
    entries: Seq<EntryView>,
    i: int,
    freq: int,
    tolerance: int,
    m: Moment,
    start: (int, int),
    end: (int, int),
)
    requires
        0 <= i < entries.len(),
        m.hour < 24,
        m.minute < 60,
        m.day < 100,
        0 <= start.0 <= 24 && 0 <= start.1 < 60,
        0 <= end.0 <= 24 && 0 <= end.1 < 60,
        entries[i].start == 100 * start.0 + start.1,
        entries[i].end == 100 * end.0 + end.1,
        entries[i].from_date matches Some((_, d)) ==> d < 100,
        entries[i].to_date matches Some((_, d)) ==> d < 100,
    ensures
        ({
            let e = entries[i];
            let found = heard(entries, freq, tolerance, m);
            let now = 60 * m.hour + m.minute;
            let from = 60 * start.0 + start.1;
            let until = 60 * end.0 + end.1;
            let on_time = from == until || from <= now < until || until < from && (from <= now
                || now < until);
            let on_day = e.days.contains(
                calendar::weekday_number(m.year as int, m.month as int, m.day as int),
            );
            let begun = e.from_date matches Some((a, b)) ==> (a < m.month || a == m.month && b
                <= m.day);
            let over = e.to_date matches Some((a, b)) && (a < m.month || a == m.month && b < m.day);
            let turned = e.from_date matches Some((a, b)) && e.to_date matches Some((c, d)) && (a
                > c || a == c && b > d);
            let on_date = e.persistence != 6 || e.from_date is None || e.to_date is None || (
            if turned {
                begun || !over
            } else {
                begun && !over
            });
            let near = e.freq matches Some(f) && freq - tolerance <= f <= freq + tolerance;
            if on_time && on_day && on_date && near {
                exists|k: int|
                    0 <= k < found.len() && (#[trigger] found[k]).station == e.station
                        && found[k].freq == e.freq
            } else {
                !found.contains(e)
            }
        }),
{
    let e = entries[i];
    let found = heard(entries, freq, tolerance, m);
    if is_heard(e, freq, tolerance, m) {
        law_every_station_is_shown(entries, freq, tolerance, m, i);
        let k = choose|k: int| 0 <= k < found.len() && same_station(#[trigger] found[k], e);
        assert(found[k].station == e.station);
    } else if found.contains(e) {
        let k = choose|k: int| 0 <= k < found.len() && found[k] == e;
        law_shown_is_on_the_air(entries, freq, tolerance, m, k);
    }
}

/// What is found comes from the list, the nearest first: each has a frequency, and none is farther
/// away than the one behind it.
pub proof fn law_found_in_order_of_distance(
    entries: Seq<EntryView>,
    freq: int,
    tolerance: int,
    m: Moment,
    i: int,
    j: int,
)
    requires
        0 <= i <= j < heard(entries, freq, tolerance, m).len(),
    ensures
        ({
            let found = heard(entries, freq, tolerance, m);
            let a = found[i].freq->0 - freq;
            let b = found[j].freq->0 - freq;
            &&& entries.contains(found[i])
            &&& found[i].freq is Some
            &&& a * a <= b * b
            &&& -tolerance <= a <= tolerance
        }),
{
    law_nearest_first(entries, freq, tolerance, m);
    law_shown_is_on_the_air(entries, freq, tolerance, m, i);
    law_shown_is_on_the_air(entries, freq, tolerance, m, j);
    let found = heard(entries, freq, tolerance, m);
    let a = found[i].freq->0 - freq;
    let b = found[j].freq->0 - freq;
    let key = by_distance(freq);
    assert(key(found[i]) <= key(found[j]));
    assert(a * a <= b * b) by (nonlinear_arith)
        requires
            -a <= b || -a <= -b,
            a <= b || a <= -b,
            -a <= b && a <= b || -a <= -b && a <= -b,
    ;
}

/// The entries of lines are those of each line that has one.
#[verifier::rlimit(40)]
proof fn lemma_entries_of_lines(lines: Seq<Seq<char>>, e: EntryView)
    ensures
        entries_of(lines).contains(e) <==> exists|k: int|
            0 <= k < lines.len() && entry::entry_of(#[trigger] lines[k]) == Some(e),
    decreases lines.len(),
{
    if lines.len() > 0 {
        let front = lines.drop_last();
        lemma_entries_of_lines(front, e);
        let before = entries_of(front);
        let all = entries_of(lines);
        if exists|k: int| 0 <= k < lines.len() && entry::entry_of(#[trigger] lines[k]) == Some(e) {
            let k = choose|k: int|
                0 <= k < lines.len() && entry::entry_of(#[trigger] lines[k]) == Some(e);
            if k < front.len() {
                assert(front[k] == lines[k]);
                let j = choose|j: int| 0 <= j < before.len() && before[j] == e;
                assert(all[j] == e);
            } else {
                assert(all.last() == e);
                assert(all[all.len() - 1] == e);
            }
        }
        if all.contains(e) {
            let j = choose|j: int| 0 <= j < all.len() && all[j] == e;
            if j < before.len() {
                assert(before[j] == e);
                let k = choose|k: int|
                    0 <= k < front.len() && entry::entry_of(#[trigger] front[k]) == Some(e);
                assert(lines[k] == front[k]);
            } else {
                assert(entry::entry_of(lines[lines.len() - 1]) == Some(e));
            }
        }
    }
}

/// The list has what its lines say, but for the first one, which names the columns: every line that
/// gives an entry is in it, and nothing else is. It is in the order of frequencies, with entries
/// without one at the end.
#[verifier::rlimit(40)]
pub proof fn law_list_has_what_its_lines_say(csv: Seq<char>, e: EntryView)
    ensures
        list_of(csv).contains(e) <==> exists|k: int|
            1 <= k < text::lines_of(csv).len() && entry::entry_of(
                #[trigger] text::lines_of(csv)[k],
            ) == Some(e),
        forall|i: int, j: int|
            0 <= i <= j < list_of(csv).len() ==> {
                let (a, b) = ((#[trigger] list_of(csv)[i]).freq, (#[trigger] list_of(csv)[j]).freq);
                (a is Some && b is Some ==> a->0 <= b->0) && (a is None ==> b is None || b->0
                    > i64::MAX)
            },
{
    let lines = text::lines_of(csv);
    let rest = body(lines);
    let picked = entries_of(rest);
    lemma_entries_of_lines(rest, e);
    lemma_ordered_contains(picked, by_frequency(), e);
    law_ordered_is_ordered(picked, by_frequency());
    let key = by_frequency();
    assert forall|i: int, j: int| 0 <= i <= j < list_of(csv).len() implies {
        let (a, b) = ((#[trigger] list_of(csv)[i]).freq, (#[trigger] list_of(csv)[j]).freq);
        (a is Some && b is Some ==> a->0 <= b->0) && (a is None ==> b is None || b->0 > i64::MAX)
    } by {
        assert(key(list_of(csv)[i]) <= key(list_of(csv)[j]));
    }
    if exists|k: int| 1 <= k < lines.len() && entry::entry_of(#[trigger] lines[k]) == Some(e) {
        let k = choose|k: int|
            1 <= k < lines.len() && entry::entry_of(#[trigger] lines[k]) == Some(e);
        assert(rest[k - 1] == lines[k]);
    }
    if exists|k: int| 0 <= k < rest.len() && entry::entry_of(#[trigger] rest[k]) == Some(e) {
        let k = choose|k: int| 0 <= k < rest.len() && entry::entry_of(#[trigger] rest[k]) == Some(e);
        assert(lines[k + 1] == rest[k]);
    }
}

/// Why a list that was fetched gives no schedule.
#[derive(Clone, Copy, PartialEq, Eq, Debug, Structural)]
pub enum LoadError {
    /// The list has come, but nothing in it could be read.
    Unreadable,
}

impl Schedule {
    /// The schedule from the text that was kept from before, where there is one with entries.
    pub fn from_cache(csv: Option<&str>, season: &str, codes: Codes) -> (r: Option<Schedule>)
        ensures
            r is Some <==> csv is Some && list_of(csv->0@).len() > 0,
            r matches Some(s) ==> views(s.entries@) == list_of(csv->0@) && s.season@ == season@
                && s.codes == codes,
    {
        match csv {
            None => None,
            Some(csv) => {
                let s = Schedule::parse_with_codes(csv, season, codes);
                assert(views(s.entries@).len() == s.entries@.len());
                if s.entries.is_empty() {
                    None
                } else {
                    Some(s)
                }
            },
        }
    }

    /// The schedule from a text that was fetched.
    pub fn from_download(csv: &str, season: &str, codes: Codes) -> (r: Result<Schedule, LoadError>)
        ensures
            r is Ok <==> list_of(csv@).len() > 0,
            r matches Ok(s) ==> views(s.entries@) == list_of(csv@) && s.season@ == season@
                && s.codes == codes,
            r matches Err(e) ==> e == LoadError::Unreadable,
    {
        let s = Schedule::parse_with_codes(csv, season, codes);
        assert(views(s.entries@).len() == s.entries@.len());
        if s.entries.is_empty() {
            Err(LoadError::Unreadable)
        } else {
            Ok(s)
        }
    }
}

/// The codes from the description that was kept from before, where it names any country.
pub fn codes_from_cache(readme: Option<&str>) -> (r: Option<Codes>)
    ensures
        r is Some <==> readme is Some && codes::after_lines(
            text::lines_of(readme->0@),
        ).countries != Map::<Seq<char>, Seq<char>>::empty(),
        r matches Some(c) ==> ({
            let s = codes::after_lines(text::lines_of(readme->0@));
            &&& c.wf()
            &&& c.countries@ == s.countries
            &&& c.languages@ == s.languages
            &&& c.targets@ == s.targets
        }),
{
    match readme {
        None => None,
        Some(readme) => {
            let c = Codes::parse(readme);
            if c.countries.is_empty() {
                None
            } else {
                Some(c)
            }
        },
    }
}

} // verus!
