//! The band plan of IARU Region 1, with broadcasting and what may be used without a licence.
//!
//! It colours the panorama; it is no guide for transmitting.
use crate::text;
use vstd::prelude::*;

verus! {

/// What a part of a band is used for.
#[derive(Clone, Copy, PartialEq, Eq, Debug, Structural)]
pub enum Usage {
    Cw,
    Digital,
    Phone,
    Beacon,
    Broadcast,
}

impl Usage {
    /// What the use is called.
    pub fn label(&self) -> (r: &'static str)
        ensures
            r@ == (match *self {
                Usage::Cw => "CW"@,
                Usage::Digital => "digi"@,
                Usage::Phone => "fonie"@,
                Usage::Beacon => "majáky"@,
                Usage::Broadcast => "rozhlas"@,
            }),
    {
        match self {
            Usage::Cw => "CW",
            Usage::Digital => "digi",
            Usage::Phone => "fonie",
            Usage::Beacon => "majáky",
            Usage::Broadcast => "rozhlas",
        }
    }

    /// The colour of the use: red, green and blue.
    pub fn color(&self) -> (r: (u8, u8, u8))
        ensures
            r == (match *self {
                Usage::Cw => (90u8, 150u8, 230u8),
                Usage::Digital => (200u8, 120u8, 220u8),
                Usage::Phone => (90u8, 200u8, 120u8),
                Usage::Beacon => (230u8, 180u8, 70u8),
                Usage::Broadcast => (230u8, 130u8, 90u8),
            }),
    {
        match self {
            Usage::Cw => (90, 150, 230),
            Usage::Digital => (200, 120, 220),
            Usage::Phone => (90, 200, 120),
            Usage::Beacon => (230, 180, 70),
            Usage::Broadcast => (230, 130, 90),
        }
    }
}

/// A part of a band, with its bounds in hertz.
#[derive(Clone, Copy, Debug)]
pub struct Segment {
    pub from_hz: u32,
    pub to_hz: u32,
    pub usage: Usage,
    /// What the band is called.
    pub band: &'static str,
}

pub open spec fn seg(from_hz: u32, to_hz: u32, usage: Usage, band: &'static str) -> Segment {
    Segment { from_hz, to_hz, usage, band }
}

/// The bands of radio amateurs, the main parts of broadcasting and the channels that may be used
/// without a licence, in ascending order of frequency.
pub open spec fn segment_table() -> Seq<Segment> {
    seq![
        seg(1_810_000, 1_838_000, Usage::Cw, "160 m"),
        seg(1_838_000, 1_843_000, Usage::Digital, "160 m"),
        seg(1_843_000, 2_000_000, Usage::Phone, "160 m"),
        seg(3_500_000, 3_570_000, Usage::Cw, "80 m"),
        seg(3_570_000, 3_600_000, Usage::Digital, "80 m"),
        seg(3_600_000, 3_800_000, Usage::Phone, "80 m"),
        seg(5_351_500, 5_354_000, Usage::Cw, "60 m"),
        seg(5_354_000, 5_366_000, Usage::Phone, "60 m"),
        seg(5_900_000, 6_200_000, Usage::Broadcast, "49 m"),
        seg(7_000_000, 7_040_000, Usage::Cw, "40 m"),
        seg(7_040_000, 7_050_000, Usage::Digital, "40 m"),
        seg(7_050_000, 7_200_000, Usage::Phone, "40 m"),
        seg(7_200_000, 7_450_000, Usage::Broadcast, "41 m"),
        seg(9_400_000, 9_900_000, Usage::Broadcast, "31 m"),
        seg(10_100_000, 10_130_000, Usage::Cw, "30 m"),
        seg(10_130_000, 10_150_000, Usage::Digital, "30 m"),
        seg(11_600_000, 12_100_000, Usage::Broadcast, "25 m"),
        seg(14_000_000, 14_070_000, Usage::Cw, "20 m"),
        seg(14_070_000, 14_099_000, Usage::Digital, "20 m"),
        seg(14_099_000, 14_101_000, Usage::Beacon, "20 m"),
        seg(14_101_000, 14_350_000, Usage::Phone, "20 m"),
        seg(15_100_000, 15_800_000, Usage::Broadcast, "19 m"),
        seg(18_068_000, 18_095_000, Usage::Cw, "17 m"),
        seg(18_095_000, 18_109_000, Usage::Digital, "17 m"),
        seg(18_109_000, 18_111_000, Usage::Beacon, "17 m"),
        seg(18_111_000, 18_168_000, Usage::Phone, "17 m"),
        seg(21_000_000, 21_070_000, Usage::Cw, "15 m"),
        seg(21_070_000, 21_149_000, Usage::Digital, "15 m"),
        seg(21_149_000, 21_151_000, Usage::Beacon, "15 m"),
        seg(21_151_000, 21_450_000, Usage::Phone, "15 m"),
        seg(21_450_000, 21_850_000, Usage::Broadcast, "13 m"),
        seg(24_890_000, 24_915_000, Usage::Cw, "12 m"),
        seg(24_915_000, 24_929_000, Usage::Digital, "12 m"),
        seg(24_929_000, 24_931_000, Usage::Beacon, "12 m"),
        seg(24_931_000, 24_990_000, Usage::Phone, "12 m"),
        seg(26_565_000, 27_405_000, Usage::Phone, "CB"),
        seg(28_000_000, 28_070_000, Usage::Cw, "10 m"),
        seg(28_070_000, 28_190_000, Usage::Digital, "10 m"),
        seg(28_190_000, 28_225_000, Usage::Beacon, "10 m"),
        seg(28_225_000, 29_700_000, Usage::Phone, "10 m"),
        seg(50_000_000, 50_100_000, Usage::Cw, "6 m"),
        seg(50_100_000, 50_300_000, Usage::Phone, "6 m"),
        seg(50_300_000, 50_400_000, Usage::Digital, "6 m"),
        seg(50_400_000, 50_500_000, Usage::Beacon, "6 m"),
        seg(50_500_000, 52_000_000, Usage::Phone, "6 m"),
        seg(77_000_000, 77_150_000, Usage::Phone, "77 MHz"),
        seg(87_500_000, 108_000_000, Usage::Broadcast, "FM"),
        seg(144_000_000, 144_150_000, Usage::Cw, "2 m"),
        seg(144_150_000, 144_400_000, Usage::Phone, "2 m"),
        seg(144_400_000, 144_490_000, Usage::Beacon, "2 m"),
        seg(144_490_000, 144_794_000, Usage::Phone, "2 m"),
        seg(144_794_000, 144_990_000, Usage::Digital, "2 m"),
        seg(144_990_000, 146_000_000, Usage::Phone, "2 m"),
        seg(172_600_000, 173_100_000, Usage::Phone, "173 MHz"),
        seg(174_000_000, 230_000_000, Usage::Broadcast, "DAB"),
        seg(430_000_000, 432_000_000, Usage::Phone, "70 cm"),
        seg(432_000_000, 432_100_000, Usage::Cw, "70 cm"),
        seg(432_100_000, 432_400_000, Usage::Phone, "70 cm"),
        seg(432_400_000, 432_490_000, Usage::Beacon, "70 cm"),
        seg(432_490_000, 440_000_000, Usage::Phone, "70 cm"),
        seg(442_000_000, 442_250_000, Usage::Phone, "442 MHz"),
        seg(446_000_000, 446_200_000, Usage::Phone, "PMR446"),
        seg(448_000_000, 448_650_000, Usage::Phone, "448 MHz"),
        seg(470_000_000, 694_000_000, Usage::Broadcast, "DVB-T"),
        seg(1_240_000_000, 1_296_000_000, Usage::Phone, "23 cm"),
        seg(1_296_000_000, 1_296_150_000, Usage::Cw, "23 cm"),
        seg(1_296_150_000, 1_296_800_000, Usage::Phone, "23 cm"),
        seg(1_296_800_000, 1_296_994_000, Usage::Beacon, "23 cm"),
        seg(1_296_994_000, 1_300_000_000, Usage::Phone, "23 cm"),
    ]
}

impl Segment {
    /// A frequency in millihertz lies in the segment; its end is not part of it.
    pub open spec fn holds(self, freq: int) -> bool {
        self.from_hz * 1000 <= freq < self.to_hz * 1000
    }

    /// The segment and a range of frequencies in millihertz have something in common.
    pub open spec fn meets(self, from: int, to: int) -> bool {
        self.to_hz * 1000 > from && self.from_hz * 1000 < to
    }
}

/// Each segment ends before the next ones begin.
pub open spec fn ascending(s: Seq<Segment>) -> bool {
    forall|i: int, j: int|
        #![trigger s[i], s[j]]
        0 <= i < j < s.len() ==> s[i].to_hz <= s[j].from_hz
}

/// The segments of the band plan.
pub fn segments() -> (r: Vec<Segment>)
    ensures
        r@ == segment_table(),
{
    let r: Vec<Segment> = vec![
        Segment { from_hz: 1_810_000, to_hz: 1_838_000, usage: Usage::Cw, band: "160 m" },
        Segment { from_hz: 1_838_000, to_hz: 1_843_000, usage: Usage::Digital, band: "160 m" },
        Segment { from_hz: 1_843_000, to_hz: 2_000_000, usage: Usage::Phone, band: "160 m" },
        Segment { from_hz: 3_500_000, to_hz: 3_570_000, usage: Usage::Cw, band: "80 m" },
        Segment { from_hz: 3_570_000, to_hz: 3_600_000, usage: Usage::Digital, band: "80 m" },
        Segment { from_hz: 3_600_000, to_hz: 3_800_000, usage: Usage::Phone, band: "80 m" },
        Segment { from_hz: 5_351_500, to_hz: 5_354_000, usage: Usage::Cw, band: "60 m" },
        Segment { from_hz: 5_354_000, to_hz: 5_366_000, usage: Usage::Phone, band: "60 m" },
        Segment { from_hz: 5_900_000, to_hz: 6_200_000, usage: Usage::Broadcast, band: "49 m" },
        Segment { from_hz: 7_000_000, to_hz: 7_040_000, usage: Usage::Cw, band: "40 m" },
        Segment { from_hz: 7_040_000, to_hz: 7_050_000, usage: Usage::Digital, band: "40 m" },
        Segment { from_hz: 7_050_000, to_hz: 7_200_000, usage: Usage::Phone, band: "40 m" },
        Segment { from_hz: 7_200_000, to_hz: 7_450_000, usage: Usage::Broadcast, band: "41 m" },
        Segment { from_hz: 9_400_000, to_hz: 9_900_000, usage: Usage::Broadcast, band: "31 m" },
        Segment { from_hz: 10_100_000, to_hz: 10_130_000, usage: Usage::Cw, band: "30 m" },
        Segment { from_hz: 10_130_000, to_hz: 10_150_000, usage: Usage::Digital, band: "30 m" },
        Segment { from_hz: 11_600_000, to_hz: 12_100_000, usage: Usage::Broadcast, band: "25 m" },
        Segment { from_hz: 14_000_000, to_hz: 14_070_000, usage: Usage::Cw, band: "20 m" },
        Segment { from_hz: 14_070_000, to_hz: 14_099_000, usage: Usage::Digital, band: "20 m" },
        Segment { from_hz: 14_099_000, to_hz: 14_101_000, usage: Usage::Beacon, band: "20 m" },
        Segment { from_hz: 14_101_000, to_hz: 14_350_000, usage: Usage::Phone, band: "20 m" },
        Segment { from_hz: 15_100_000, to_hz: 15_800_000, usage: Usage::Broadcast, band: "19 m" },
        Segment { from_hz: 18_068_000, to_hz: 18_095_000, usage: Usage::Cw, band: "17 m" },
        Segment { from_hz: 18_095_000, to_hz: 18_109_000, usage: Usage::Digital, band: "17 m" },
        Segment { from_hz: 18_109_000, to_hz: 18_111_000, usage: Usage::Beacon, band: "17 m" },
        Segment { from_hz: 18_111_000, to_hz: 18_168_000, usage: Usage::Phone, band: "17 m" },
        Segment { from_hz: 21_000_000, to_hz: 21_070_000, usage: Usage::Cw, band: "15 m" },
        Segment { from_hz: 21_070_000, to_hz: 21_149_000, usage: Usage::Digital, band: "15 m" },
        Segment { from_hz: 21_149_000, to_hz: 21_151_000, usage: Usage::Beacon, band: "15 m" },
        Segment { from_hz: 21_151_000, to_hz: 21_450_000, usage: Usage::Phone, band: "15 m" },
        Segment { from_hz: 21_450_000, to_hz: 21_850_000, usage: Usage::Broadcast, band: "13 m" },
        Segment { from_hz: 24_890_000, to_hz: 24_915_000, usage: Usage::Cw, band: "12 m" },
        Segment { from_hz: 24_915_000, to_hz: 24_929_000, usage: Usage::Digital, band: "12 m" },
        Segment { from_hz: 24_929_000, to_hz: 24_931_000, usage: Usage::Beacon, band: "12 m" },
        Segment { from_hz: 24_931_000, to_hz: 24_990_000, usage: Usage::Phone, band: "12 m" },
        Segment { from_hz: 26_565_000, to_hz: 27_405_000, usage: Usage::Phone, band: "CB" },
        Segment { from_hz: 28_000_000, to_hz: 28_070_000, usage: Usage::Cw, band: "10 m" },
        Segment { from_hz: 28_070_000, to_hz: 28_190_000, usage: Usage::Digital, band: "10 m" },
        Segment { from_hz: 28_190_000, to_hz: 28_225_000, usage: Usage::Beacon, band: "10 m" },
        Segment { from_hz: 28_225_000, to_hz: 29_700_000, usage: Usage::Phone, band: "10 m" },
        Segment { from_hz: 50_000_000, to_hz: 50_100_000, usage: Usage::Cw, band: "6 m" },
        Segment { from_hz: 50_100_000, to_hz: 50_300_000, usage: Usage::Phone, band: "6 m" },
        Segment { from_hz: 50_300_000, to_hz: 50_400_000, usage: Usage::Digital, band: "6 m" },
        Segment { from_hz: 50_400_000, to_hz: 50_500_000, usage: Usage::Beacon, band: "6 m" },
        Segment { from_hz: 50_500_000, to_hz: 52_000_000, usage: Usage::Phone, band: "6 m" },
        Segment { from_hz: 77_000_000, to_hz: 77_150_000, usage: Usage::Phone, band: "77 MHz" },
        Segment { from_hz: 87_500_000, to_hz: 108_000_000, usage: Usage::Broadcast, band: "FM" },
        Segment { from_hz: 144_000_000, to_hz: 144_150_000, usage: Usage::Cw, band: "2 m" },
        Segment { from_hz: 144_150_000, to_hz: 144_400_000, usage: Usage::Phone, band: "2 m" },
        Segment { from_hz: 144_400_000, to_hz: 144_490_000, usage: Usage::Beacon, band: "2 m" },
        Segment { from_hz: 144_490_000, to_hz: 144_794_000, usage: Usage::Phone, band: "2 m" },
        Segment { from_hz: 144_794_000, to_hz: 144_990_000, usage: Usage::Digital, band: "2 m" },
        Segment { from_hz: 144_990_000, to_hz: 146_000_000, usage: Usage::Phone, band: "2 m" },
        Segment { from_hz: 172_600_000, to_hz: 173_100_000, usage: Usage::Phone, band: "173 MHz" },
        Segment { from_hz: 174_000_000, to_hz: 230_000_000, usage: Usage::Broadcast, band: "DAB" },
        Segment { from_hz: 430_000_000, to_hz: 432_000_000, usage: Usage::Phone, band: "70 cm" },
        Segment { from_hz: 432_000_000, to_hz: 432_100_000, usage: Usage::Cw, band: "70 cm" },
        Segment { from_hz: 432_100_000, to_hz: 432_400_000, usage: Usage::Phone, band: "70 cm" },
        Segment { from_hz: 432_400_000, to_hz: 432_490_000, usage: Usage::Beacon, band: "70 cm" },
        Segment { from_hz: 432_490_000, to_hz: 440_000_000, usage: Usage::Phone, band: "70 cm" },
        Segment { from_hz: 442_000_000, to_hz: 442_250_000, usage: Usage::Phone, band: "442 MHz" },
        Segment { from_hz: 446_000_000, to_hz: 446_200_000, usage: Usage::Phone, band: "PMR446" },
        Segment { from_hz: 448_000_000, to_hz: 448_650_000, usage: Usage::Phone, band: "448 MHz" },
        Segment {
            from_hz: 470_000_000,
            to_hz: 694_000_000,
            usage: Usage::Broadcast,
            band: "DVB-T",
        },
        Segment {
            from_hz: 1_240_000_000,
            to_hz: 1_296_000_000,
            usage: Usage::Phone,
            band: "23 cm",
        },
        Segment { from_hz: 1_296_000_000, to_hz: 1_296_150_000, usage: Usage::Cw, band: "23 cm" },
        Segment {
            from_hz: 1_296_150_000,
            to_hz: 1_296_800_000,
            usage: Usage::Phone,
            band: "23 cm",
        },
        Segment {
            from_hz: 1_296_800_000,
            to_hz: 1_296_994_000,
            usage: Usage::Beacon,
            band: "23 cm",
        },
        Segment {
            from_hz: 1_296_994_000,
            to_hz: 1_300_000_000,
            usage: Usage::Phone,
            band: "23 cm",
        },
    ];
    assert(r@ =~= segment_table());
    r
}

/// The segments that reach into a range of frequencies, in millihertz.
pub fn overlapping(from: i64, to: i64) -> (r: Vec<Segment>)
    ensures
        r@ == segment_table().filter(|s: Segment| s.meets(from as int, to as int)),
        ascending(r@),
{
    let all = segments();
    let ghost f = |s: Segment| s.meets(from as int, to as int);
    let mut found: Vec<Segment> = Vec::new();
    let mut i: usize = 0;
    proof {
        reveal(Seq::filter);
        assert(all@.take(0) == Seq::<Segment>::empty());
        lemma_table_ascends();
    }
    while i < all.len()
        invariant
            i <= all@.len(),
            f == (|s: Segment| s.meets(from as int, to as int)),
            found@ == all@.take(i as int).filter(f),
            ascending(all@),
            ascending(found@),
            forall|k: int, j: int|
                #![trigger found@[k], all@[j]]
                0 <= k < found@.len() && i <= j < all@.len() ==> found@[k].to_hz
                    <= all@[j].from_hz,
        decreases all.len() - i,
    {
        let s: Segment = all[i];
        proof {
            reveal(Seq::filter);
            assert(all@.take(i as int + 1).drop_last() == all@.take(i as int));
        }
        if s.to_hz as i64 * 1000 > from && (s.from_hz as i64 * 1000) < to {
            found.push(s);
        }
        i = i + 1;
    }
    assert(all@.take(i as int) == all@);
    found
}

/// The segment that a frequency in millihertz lies in.
pub fn at(freq: i64) -> (r: Option<Segment>)
    ensures
        r matches Some(s) ==> s.holds(freq as int) && segment_table().contains(s),
        r is None ==> forall|i: int|
            0 <= i < segment_table().len() ==> !(#[trigger] segment_table()[i]).holds(freq as int),
{
    let all = segments();
    let mut i: usize = 0;
    while i < all.len()
        invariant
            i <= all@.len(),
            all@ == segment_table(),
            forall|k: int| 0 <= k < i ==> !(#[trigger] all@[k]).holds(freq as int),
        decreases all.len() - i,
    {
        let s: Segment = all[i];
        if freq >= s.from_hz as i64 * 1000 && freq < s.to_hz as i64 * 1000 {
            assert(all@[i as int] == s);
            return Some(s);
        }
        i = i + 1;
    }
    None
}

/// Every segment has some width.
pub proof fn law_segments_have_width(i: int)
    requires
        0 <= i < segment_table().len(),
    ensures
        segment_table()[i].from_hz < segment_table()[i].to_hz,
{
}

/// The segments stand in ascending order of frequency.
pub proof fn law_segments_ascend(i: int, j: int)
    requires
        0 <= i < j < segment_table().len(),
    ensures
        segment_table()[i].from_hz < segment_table()[i].to_hz <= segment_table()[j].from_hz,
{
    lemma_table_ascends();
    law_segments_have_width(i);
}

/// No two segments have a frequency in common, so a frequency lies in one segment at most.
pub proof fn law_segments_are_apart(i: int, j: int, freq: int)
    requires
        0 <= i < segment_table().len(),
        0 <= j < segment_table().len(),
        segment_table()[i].holds(freq),
        segment_table()[j].holds(freq),
    ensures
        i == j,
{
    lemma_table_ascends();
}

proof fn lemma_next_segment(i: int)
    requires
        0 <= i < segment_table().len() - 1,
    ensures
        segment_table()[i].to_hz <= segment_table()[i + 1].from_hz,
{
}

proof fn lemma_later_segment(i: int, j: int)
    requires
        0 <= i < j < segment_table().len(),
    ensures
        segment_table()[i].to_hz <= segment_table()[j].from_hz,
    decreases j - i,
{
    lemma_next_segment(i);
    if i + 1 < j {
        law_segments_have_width(i + 1);
        lemma_later_segment(i + 1, j);
    }
}

proof fn lemma_table_ascends()
    ensures
        ascending(segment_table()),
{
    assert forall|i: int, j: int|
        #![trigger segment_table()[i], segment_table()[j]]
        0 <= i < j < segment_table().len() implies segment_table()[i].to_hz
        <= segment_table()[j].from_hz by {
        lemma_later_segment(i, j);
    }
}

/// A band: all its segments taken together.
#[derive(Clone, Copy, Debug)]
pub struct Band {
    pub name: &'static str,
    pub from_hz: u32,
    pub to_hz: u32,
    /// Every part of the band is for broadcasting.
    pub broadcast: bool,
}

impl Band {
    /// The frequency in the middle of the band, in millihertz.
    pub open spec fn middle(self) -> int {
        (self.from_hz + self.to_hz) * 500
    }

    /// The frequency in the middle of the band, in millihertz.
    pub fn middle_millihz(&self) -> (r: i64)
        ensures
            r == self.middle(),
    {
        (self.from_hz as i64 + self.to_hz as i64) * 500
    }
}

/// A band that goes on with one more segment.
pub open spec fn extended(b: Band, s: Segment) -> Band {
    Band {
        name: b.name,
        from_hz: if s.from_hz < b.from_hz {
            s.from_hz
        } else {
            b.from_hz
        },
        to_hz: if s.to_hz > b.to_hz {
            s.to_hz
        } else {
            b.to_hz
        },
        broadcast: b.broadcast && s.usage == Usage::Broadcast,
    }
}

/// The bands of a list of segments: segments of the same name that follow each other make one.
pub open spec fn bands_of(s: Seq<Segment>) -> Seq<Band>
    decreases s.len(),
{
    if s.len() == 0 {
        Seq::empty()
    } else {
        let before = bands_of(s.drop_last());
        let g = s.last();
        if before.len() > 0 && before.last().name@ == g.band@ {
            before.drop_last().push(extended(before.last(), g))
        } else {
            before.push(
                Band {
                    name: g.band,
                    from_hz: g.from_hz,
                    to_hz: g.to_hz,
                    broadcast: g.usage == Usage::Broadcast,
                },
            )
        }
    }
}

/// All bands, in the order of their segments.
pub fn bands() -> (r: Vec<Band>)
    ensures
        r@ == bands_of(segment_table()),
{
    let table = segments();
    let mut out: Vec<Band> = Vec::new();
    let mut i: usize = 0;
    assert(table@.take(0) == Seq::<Segment>::empty());
    while i < table.len()
        invariant
            i <= table@.len(),
            out@ == bands_of(table@.take(i as int)),
        decreases table@.len() - i,
    {
        assert(table@.take(i + 1).drop_last() == table@.take(i as int));
        assert(table@.take(i + 1).last() == table@[i as int]);
        let g: Segment = table[i];
        let n: usize = out.len();
        let goes_on: bool = if n > 0 {
            let known = text::to_chars(out[n - 1].name);
            text::equals(known.as_slice(), g.band)
        } else {
            false
        };
        if goes_on {
            let b: Band = out[n - 1];
            let wider = Band {
                name: b.name,
                from_hz: if g.from_hz < b.from_hz {
                    g.from_hz
                } else {
                    b.from_hz
                },
                to_hz: if g.to_hz > b.to_hz {
                    g.to_hz
                } else {
                    b.to_hz
                },
                broadcast: b.broadcast && g.usage == Usage::Broadcast,
            };
            out.set(n - 1, wider);
            assert(out@ =~= bands_of(table@.take(i as int)).drop_last().push(wider));
        } else {
            out.push(
                Band {
                    name: g.band,
                    from_hz: g.from_hz,
                    to_hz: g.to_hz,
                    broadcast: g.usage == Usage::Broadcast,
                },
            );
        }
        i = i + 1;
    }
    assert(table@.take(i as int) == table@);
    out
}

/// Every segment lies within a band of its name.
pub proof fn law_segment_lies_in_its_band(s: Seq<Segment>, i: int)
    requires
        0 <= i < s.len(),
    ensures
        exists|k: int|
            0 <= k < bands_of(s).len() && (#[trigger] bands_of(s)[k]).name@ == s[i].band@
                && bands_of(s)[k].from_hz <= s[i].from_hz && s[i].to_hz <= bands_of(s)[k].to_hz,
    decreases s.len(),
{
    let before = bands_of(s.drop_last());
    let all = bands_of(s);
    if i == s.len() - 1 {
        let k = all.len() - 1;
        assert(all[k].name@ == s[i].band@);
    } else {
        law_segment_lies_in_its_band(s.drop_last(), i);
        let k = choose|k: int|
            0 <= k < before.len() && (#[trigger] before[k]).name@ == s[i].band@
                && before[k].from_hz <= s[i].from_hz && s[i].to_hz <= before[k].to_hz;
        assert(all[k].name@ == s[i].band@);
    }
}

/// The bands stand in ascending order of frequency where their segments do.
pub proof fn law_bands_ascend(s: Seq<Segment>, i: int, j: int)
    requires
        ascending(s),
        forall|k: int| 0 <= k < s.len() ==> (#[trigger] s[k]).from_hz < s[k].to_hz,
        0 <= i < j < bands_of(s).len(),
    ensures
        bands_of(s)[i].to_hz <= bands_of(s)[j].from_hz,
{
    lemma_bands_ascend(s);
}

/// The bands ascend, have some width, and the last of them ends with the last segment.
proof fn lemma_bands_ascend(s: Seq<Segment>)
    requires
        ascending(s),
        forall|k: int| 0 <= k < s.len() ==> (#[trigger] s[k]).from_hz < s[k].to_hz,
    ensures
        forall|i: int, j: int|
            #![trigger bands_of(s)[i], bands_of(s)[j]]
            0 <= i < j < bands_of(s).len() ==> bands_of(s)[i].to_hz <= bands_of(s)[j].from_hz,
        s.len() > 0 ==> bands_of(s).len() > 0 && bands_of(s).last().to_hz == s.last().to_hz
            && bands_of(s).last().from_hz <= s.last().from_hz,
        s.len() == 0 ==> bands_of(s).len() == 0,
    decreases s.len(),
{
    if s.len() > 0 {
        let t = s.drop_last();
        assert forall|k: int| 0 <= k < t.len() implies (#[trigger] t[k]).from_hz < t[k].to_hz by {
            assert(t[k] == s[k]);
        }
        assert forall|i: int, j: int|
            #![trigger t[i], t[j]]
            0 <= i < j < t.len() implies t[i].to_hz <= t[j].from_hz by {
            assert(t[i] == s[i] && t[j] == s[j]);
        }
        lemma_bands_ascend(t);
        let before = bands_of(t);
        let g = s.last();
        if t.len() > 0 {
            assert(t.last() == s[s.len() - 2]);
            assert(t.last().to_hz <= g.from_hz);
            assert forall|i: int| 0 <= i < before.len() implies (#[trigger] before[i]).to_hz
                <= g.from_hz by {
                if i < before.len() - 1 {
                    assert(before[i].to_hz <= before[before.len() - 1].from_hz);
                    assert(t.last().from_hz < t.last().to_hz);
                }
            }
        }
    }
}

/// A segment has its first frequency and not its last one, which is the first of what follows.
pub proof fn law_segment_has_its_beginning(s: Segment, freq: int)
    requires
        s.from_hz < s.to_hz,
    ensures
        s.holds(1000 * s.from_hz),
        s.holds(1000 * s.to_hz - 1),
        !s.holds(1000 * s.from_hz - 1),
        !s.holds(1000 * s.to_hz),
        s.holds(freq) ==> 1000 * s.from_hz <= freq < 1000 * s.to_hz,
{
}

/// A segment is seen in a range exactly where they have a frequency in common.
pub proof fn law_segment_meets_what_it_shares(s: Segment, from: int, to: int)
    requires
        s.from_hz < s.to_hz,
        from < to,
    ensures
        s.meets(from, to) <==> exists|f: int| from <= f < to && #[trigger] s.holds(f),
{
    if s.meets(from, to) {
        let f = if from < s.from_hz * 1000 {
            s.from_hz * 1000
        } else {
            from
        };
        assert(from <= f < to && s.holds(f));
    }
}

/// The middle of a band is as far from its one end as from the other.
pub proof fn law_middle_of_a_band(b: Band)
    ensures
        b.middle() - 1000 * b.from_hz == 1000 * b.to_hz - b.middle(),
{
}

/// A band begins and ends with segments of its own: it is no wider than what it is made of.
pub proof fn law_band_is_made_of_its_segments(s: Seq<Segment>, k: int) -> (ends: (int, int))
    requires
        0 <= k < bands_of(s).len(),
    ensures
        0 <= ends.0 < s.len(),
        0 <= ends.1 < s.len(),
        s[ends.0].band@ == bands_of(s)[k].name@,
        s[ends.0].from_hz == bands_of(s)[k].from_hz,
        s[ends.1].band@ == bands_of(s)[k].name@,
        s[ends.1].to_hz == bands_of(s)[k].to_hz,
    decreases s.len(),
{
    let front = s.drop_last();
    let before = bands_of(front);
    let g = s.last();
    let last = s.len() - 1;
    if before.len() > 0 && before.last().name@ == g.band@ && k == before.len() - 1 {
        let (a, b) = law_band_is_made_of_its_segments(front, k);
        assert(front[a] == s[a] && front[b] == s[b]);
        assert(before[k] == before.last());
        let low = if g.from_hz < before.last().from_hz {
            last
        } else {
            a
        };
        let high = if g.to_hz > before.last().to_hz {
            last
        } else {
            b
        };
        (low, high)
    } else if k < before.len() {
        let (a, b) = law_band_is_made_of_its_segments(front, k);
        assert(front[a] == s[a] && front[b] == s[b]);
        assert(bands_of(s)[k] == before[k]);
        (a, b)
    } else {
        (last, last)
    }
}

/// Neighbouring segments of one band make one band: no two bands side by side have the same name.
pub proof fn law_neighbours_of_a_band_are_joined(s: Seq<Segment>, k: int)
    requires
        0 <= k < bands_of(s).len() - 1,
    ensures
        bands_of(s)[k].name@ != bands_of(s)[k + 1].name@,
    decreases s.len(),
{
    let before = bands_of(s.drop_last());
    if k + 1 < before.len() {
        law_neighbours_of_a_band_are_joined(s.drop_last(), k);
    }
}

/// A band is one of broadcasting where all that makes it up is, and is none where nothing is.
pub proof fn law_band_of_broadcasting(s: Seq<Segment>, k: int, broadcast: bool)
    requires
        0 <= k < bands_of(s).len(),
        forall|i: int|
            0 <= i < s.len() && (#[trigger] s[i]).band@ == bands_of(s)[k].name@ ==> (s[i].usage
                == Usage::Broadcast) == broadcast,
    ensures
        bands_of(s)[k].broadcast == broadcast,
    decreases s.len(),
{
    let front = s.drop_last();
    let before = bands_of(front);
    let all = bands_of(s);
    assert(s[s.len() - 1] == s.last());
    if k < before.len() {
        assert(before[k].name@ == all[k].name@);
        assert forall|i: int|
            0 <= i < front.len() && (#[trigger] front[i]).band@ == before[k].name@ implies (
        front[i].usage == Usage::Broadcast) == broadcast by {
            assert(front[i] == s[i]);
        }
        law_band_of_broadcasting(front, k, broadcast);
    }
}

/// The frequency lies in a segment of the table, which is one of broadcasting or is not.
pub open spec fn is_used(freq: int, i: int, broadcast: bool) -> bool {
    &&& 0 <= i < segment_table().len()
    &&& segment_table()[i].holds(freq)
    &&& (segment_table()[i].usage == Usage::Broadcast) == broadcast
}

/// The bands of radio amateurs are in the plan without gaps, from their one end to the other.
#[verifier::rlimit(40)]
pub proof fn law_amateur_bands_have_no_gaps(freq: int)
    requires
        ({
            let hz = freq / 1000;
            1_810_000 <= hz < 2_000_000 || 3_500_000 <= hz < 3_800_000 || 7_000_000 <= hz < 7_200_000 || 10_100_000 <= hz < 10_150_000 || 14_000_000 <= hz < 14_350_000 || 18_068_000 <= hz < 18_168_000 || 21_000_000 <= hz < 21_450_000 || 24_890_000 <= hz < 24_990_000 || 28_000_000 <= hz < 29_700_000 || 50_000_000 <= hz < 52_000_000 || 144_000_000 <= hz < 146_000_000 || 430_000_000 <= hz < 440_000_000 || 1_240_000_000 <= hz < 1_300_000_000
        }),
    ensures
        exists|i: int| #[trigger] is_used(freq, i, false),
{
    let hz = freq / 1000;
    if 1_810_000 <= hz < 2_000_000 {
        assert(is_used(freq, 0, false) || is_used(freq, 1, false) || is_used(freq, 2, false));
    }
    if 3_500_000 <= hz < 3_800_000 {
        assert(is_used(freq, 3, false) || is_used(freq, 4, false) || is_used(freq, 5, false));
    }
    if 7_000_000 <= hz < 7_200_000 {
        assert(is_used(freq, 9, false) || is_used(freq, 10, false) || is_used(freq, 11, false));
    }
    if 10_100_000 <= hz < 10_150_000 {
        assert(is_used(freq, 14, false) || is_used(freq, 15, false));
    }
    if 14_000_000 <= hz < 14_350_000 {
        assert(is_used(freq, 17, false) || is_used(freq, 18, false) || is_used(freq, 19, false) || is_used(freq, 20, false));
    }
    if 18_068_000 <= hz < 18_168_000 {
        assert(is_used(freq, 22, false) || is_used(freq, 23, false) || is_used(freq, 24, false) || is_used(freq, 25, false));
    }
    if 21_000_000 <= hz < 21_450_000 {
        assert(is_used(freq, 26, false) || is_used(freq, 27, false) || is_used(freq, 28, false) || is_used(freq, 29, false));
    }
    if 24_890_000 <= hz < 24_990_000 {
        assert(is_used(freq, 31, false) || is_used(freq, 32, false) || is_used(freq, 33, false) || is_used(freq, 34, false));
    }
    if 28_000_000 <= hz < 29_700_000 {
        assert(is_used(freq, 36, false) || is_used(freq, 37, false) || is_used(freq, 38, false) || is_used(freq, 39, false));
    }
    if 50_000_000 <= hz < 52_000_000 {
        assert(is_used(freq, 40, false) || is_used(freq, 41, false) || is_used(freq, 42, false) || is_used(freq, 43, false) || is_used(freq, 44, false));
    }
    if 144_000_000 <= hz < 146_000_000 {
        assert(is_used(freq, 47, false) || is_used(freq, 48, false) || is_used(freq, 49, false) || is_used(freq, 50, false) || is_used(freq, 51, false) || is_used(freq, 52, false));
    }
    if 430_000_000 <= hz < 440_000_000 {
        assert(is_used(freq, 55, false) || is_used(freq, 56, false) || is_used(freq, 57, false) || is_used(freq, 58, false) || is_used(freq, 59, false));
    }
    if 1_240_000_000 <= hz < 1_300_000_000 {
        assert(is_used(freq, 64, false) || is_used(freq, 65, false) || is_used(freq, 66, false) || is_used(freq, 67, false) || is_used(freq, 68, false));
    }
}

/// The bands of broadcasting are in the plan from their one end to the other.
#[verifier::rlimit(40)]
pub proof fn law_broadcast_bands_have_no_gaps(freq: int)
    requires
        ({
            let hz = freq / 1000;
            5_900_000 <= hz < 6_200_000 || 7_200_000 <= hz < 7_450_000 || 9_400_000 <= hz < 9_900_000 || 11_600_000 <= hz < 12_100_000 || 15_100_000 <= hz < 15_800_000 || 21_450_000 <= hz < 21_850_000 || 87_500_000 <= hz < 108_000_000
        }),
    ensures
        exists|i: int| #[trigger] is_used(freq, i, true),
{
    let hz = freq / 1000;
    if 5_900_000 <= hz < 6_200_000 {
        assert(is_used(freq, 8, true));
    }
    if 7_200_000 <= hz < 7_450_000 {
        assert(is_used(freq, 12, true));
    }
    if 9_400_000 <= hz < 9_900_000 {
        assert(is_used(freq, 13, true));
    }
    if 11_600_000 <= hz < 12_100_000 {
        assert(is_used(freq, 16, true));
    }
    if 15_100_000 <= hz < 15_800_000 {
        assert(is_used(freq, 21, true));
    }
    if 21_450_000 <= hz < 21_850_000 {
        assert(is_used(freq, 30, true));
    }
    if 87_500_000 <= hz < 108_000_000 {
        assert(is_used(freq, 46, true));
    }
}

} // verus!
