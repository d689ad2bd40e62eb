//! Choices for the sound server of the system.
use crate::audio;
use crate::audio::DeviceInfo;
use crate::text;
use vstd::prelude::*;

verus! {

/// The format of samples that a server offers.
#[derive(Clone, Copy, PartialEq, Eq, Debug, Structural)]
pub enum SampleFormat {
    I16,
    I24,
    I32,
    F32,
    /// A format that is not read.
    Other,
}

/// What the entry for the system's own choice shows.
pub fn label_for_default(input: bool) -> (r: &'static str)
    ensures
        r@ == default_label(input),
{
    if input {
        "(výchozí vstup)"
    } else {
        "(výchozí výstup)"
    }
}

/// What the entry for the system's own choice shows.
pub open spec fn default_label(input: bool) -> Seq<char> {
    if input {
        "(výchozí vstup)"@
    } else {
        "(výchozí výstup)"@
    }
}

/// The system's own choice, then the devices by their names. Where the server does not tell its
/// inputs, none is offered, and a name has to be typed; sound can still go to the system's own choice.
pub open spec fn listed(names: Option<Vec<String>>, input: bool) -> Seq<(Seq<char>, Seq<char>)> {
    let first = seq![(""@, default_label(input))];
    match names {
        None => if input {
            Seq::empty()
        } else {
            first
        },
        Some(names) => first + names@.map_values(|n: String| (n@, n@)),
    }
}

fn list(names: &Option<Vec<String>>, input: bool) -> (r: Vec<DeviceInfo>)
    ensures
        r@.map_values(|d: DeviceInfo| audio::device_view(d)) == listed(*names, input),
{
    let ghost view = |d: DeviceInfo| audio::device_view(d);
    let mut out: Vec<DeviceInfo> = Vec::new();
    if names.is_none() && input {
        assert(out@.map_values(view) =~= Seq::<(Seq<char>, Seq<char>)>::empty());
        return out;
    }
    out.push(DeviceInfo { id: "".to_string(), label: label_for_default(input).to_string() });
    let ghost first = seq![(""@, default_label(input))];
    assert(out@.map_values(view) =~= first);
    match names {
        None => {},
        Some(names) => {
            let ghost pairs = names@.map_values(|n: String| (n@, n@));
            let mut i: usize = 0;
            assert(first + pairs.take(0) =~= first);
            while i < names.len()
                invariant
                    i <= names@.len(),
                    view == (|d: DeviceInfo| audio::device_view(d)),
                    pairs == names@.map_values(|n: String| (n@, n@)),
                    out@.map_values(view) == first + pairs.take(i as int),
                decreases names.len() - i,
            {
                let ghost before = out@.map_values(view);
                let name: &str = names[i].as_str();
                out.push(DeviceInfo { id: name.to_string(), label: name.to_string() });
                assert(out@.map_values(view) =~= before.push(pairs[i as int]));
                assert(first + pairs.take(i as int + 1) =~= (first + pairs.take(i as int)).push(
                    pairs[i as int],
                ));
                i = i + 1;
            }
            assert(pairs.take(i as int) =~= pairs);
        },
    }
    out
}

/// The devices that samples can be taken from.
pub fn list_capture(names: &Option<Vec<String>>) -> (r: Vec<DeviceInfo>)
    ensures
        r@.map_values(|d: DeviceInfo| audio::device_view(d)) == listed(*names, true),
{
    list(names, true)
}

/// The devices that sound can be sent to.
pub fn list_playback(names: &Option<Vec<String>>) -> (r: Vec<DeviceInfo>)
    ensures
        r@.map_values(|d: DeviceInfo| audio::device_view(d)) == listed(*names, false),
{
    list(names, false)
}

/// The device that a name stands for.
#[derive(Clone, Copy, PartialEq, Eq, Debug, Structural)]
pub enum Found {
    /// The system's own choice.
    Default,
    /// The device at this index.
    At(usize),
    /// No device has the name.
    Missing,
}

/// A device at an index has the name; devices that do not tell theirs have none.
pub open spec fn has_name(names: Seq<Option<String>>, i: int, device: Seq<char>) -> bool {
    0 <= i < names.len() && names[i] is Some && names[i]->0@ == device
}

/// Finds a device by its name. An empty name is the system's own choice.
pub fn find(device: &str, names: &Vec<Option<String>>) -> (r: Found)
    ensures
        r == Found::Default <==> device@.len() == 0,
        r matches Found::At(i) ==> has_name(names@, i as int, device@) && forall|j: int|
            j < i ==> !#[trigger] has_name(names@, j, device@),
        r == Found::Missing ==> forall|j: int| !#[trigger] has_name(names@, j, device@),
{
    let chars = text::to_chars(device);
    if chars.len() == 0 {
        return Found::Default;
    }
    let mut i: usize = 0;
    while i < names.len()
        invariant
            i <= names@.len(),
            chars@ == device@,
            chars@.len() > 0,
            forall|j: int| j < i ==> !#[trigger] has_name(names@, j, device@),
        decreases names.len() - i,
    {
        let same: bool = match &names[i] {
            None => false,
            Some(name) => text::equals(&chars, name.as_str()),
        };
        if same {
            return Found::At(i);
        }
        i = i + 1;
    }
    Found::Missing
}

/// The formats that are asked for, the best first, within a limit of bits. Floating point stays in
/// both lists: some servers offer nothing else.
pub open spec fn preferred_formats(max_bits: u32) -> Seq<SampleFormat> {
    if max_bits >= 24 {
        seq![SampleFormat::I24, SampleFormat::I32, SampleFormat::F32, SampleFormat::I16]
    } else {
        seq![SampleFormat::I16, SampleFormat::F32]
    }
}

/// The formats that are asked for, the best first.
pub fn format_prefs(max_bits: u32) -> (r: Vec<SampleFormat>)
    ensures
        r@ == preferred_formats(max_bits),
{
    let r: Vec<SampleFormat> = if max_bits >= 24 {
        vec![SampleFormat::I24, SampleFormat::I32, SampleFormat::F32, SampleFormat::I16]
    } else {
        vec![SampleFormat::I16, SampleFormat::F32]
    };
    assert(r@ =~= preferred_formats(max_bits));
    r
}

/// A range of settings that a device offers.
#[derive(Clone, Copy, PartialEq, Eq, Debug, Structural)]
pub struct ConfigRange {
    pub channels: u16,
    pub format: SampleFormat,
    pub min_rate: u32,
    pub max_rate: u32,
}

/// The settings to open a device with.
#[derive(Clone, Copy, PartialEq, Eq, Debug, Structural)]
pub enum Pick {
    /// The range at this index, with this rate.
    Range(usize, u32),
    /// None of the ranges will do; the device is to be asked what it has by itself.
    Ask,
    /// What the device has by itself.
    Default,
    /// The device has no two channels; this is how many it has.
    NotStereo(u16),
}

/// The rates that are asked for, the best first.
pub open spec fn wanted_rate(k: int) -> u32 {
    if k == 0 {
        192_000
    } else if k == 1 {
        96_000
    } else {
        48_000
    }
}

/// A range has two channels and offers the rate in the format.
pub open spec fn offers(r: ConfigRange, rate: u32, format: SampleFormat) -> bool {
    r.channels == 2 && r.format == format && r.min_rate <= rate <= r.max_rate
}

/// The range at index `i` offers the `k`-th rate in the `f`-th format.
pub open spec fn is_choice(
    ranges: Seq<ConfigRange>,
    max_bits: u32,
    k: int,
    f: int,
    i: int,
) -> bool {
    0 <= k < 3 && 0 <= f < preferred_formats(max_bits).len() && 0 <= i < ranges.len() && offers(
        ranges[i],
        wanted_rate(k),
        preferred_formats(max_bits)[f],
    )
}

/// One choice comes before another: by the rate, then the format, then the order of the ranges.
pub open spec fn comes_before(k: int, f: int, i: int, k2: int, f2: int, i2: int) -> bool {
    k < k2 || k == k2 && (f < f2 || f == f2 && i < i2)
}

/// No other choice comes before this one.
pub open spec fn is_best_choice(
    ranges: Seq<ConfigRange>,
    max_bits: u32,
    k: int,
    f: int,
    i: int,
) -> bool {
    &&& is_choice(ranges, max_bits, k, f, i)
    &&& forall|k2: int, f2: int, i2: int| #[trigger]
        is_choice(ranges, max_bits, k2, f2, i2) ==> !comes_before(k2, f2, i2, k, f, i)
}

/// The range at index `i` with this rate is the best choice.
pub open spec fn is_best_pick(ranges: Seq<ConfigRange>, max_bits: u32, i: int, rate: u32) -> bool {
    exists|k: int, f: int|
        #[trigger] is_best_choice(ranges, max_bits, k, f, i) && rate == wanted_rate(k)
}

fn rate_at(k: usize) -> (r: u32)
    ensures
        r == wanted_rate(k as int),
{
    if k == 0 {
        192_000
    } else if k == 1 {
        96_000
    } else {
        48_000
    }
}

/// What is done where no range will do: the device is asked how many channels it has by itself, and
/// it has to have two.
pub open spec fn own_pick(default_channels: Option<u16>) -> Pick {
    match default_channels {
        None => Pick::Ask,
        Some(n) => if n == 2 {
            Pick::Default
        } else {
            Pick::NotStereo(n)
        },
    }
}

fn pick_own(default_channels: Option<u16>) -> (r: Pick)
    ensures
        r == own_pick(default_channels),
{
    match default_channels {
        None => Pick::Ask,
        Some(n) => if n == 2 {
            Pick::Default
        } else {
            Pick::NotStereo(n)
        },
    }
}

/// Picks the best rate and format that a card offers for input. Where none of those that are
/// wanted is offered, what the device has by itself is taken, if it has two channels; it is asked
/// only then.
pub fn pick_input_config(
    ranges: &Vec<ConfigRange>,
    default_channels: Option<u16>,
    max_bits: u32,
) -> (r: Pick)
    ensures
        r matches Pick::Range(i, rate) ==> is_best_pick(ranges@, max_bits, i as int, rate),
        !(r is Range) ==> forall|k2: int, f2: int, i2: int|
            !#[trigger] is_choice(ranges@, max_bits, k2, f2, i2),
        !(r is Range) ==> r == own_pick(default_channels),
{
    let formats = format_prefs(max_bits);
    let mut k: usize = 0;
    while k < 3
        invariant
            k <= 3,
            formats@ == preferred_formats(max_bits),
            forall|k2: int, f2: int, i2: int| #[trigger]
                is_choice(ranges@, max_bits, k2, f2, i2) ==> k2 >= k,
        decreases 3 - k,
    {
        let rate: u32 = rate_at(k);
        let mut f: usize = 0;
        while f < formats.len()
            invariant
                k < 3,
                rate == wanted_rate(k as int),
                f <= formats@.len(),
                formats@ == preferred_formats(max_bits),
                forall|k2: int, f2: int, i2: int| #[trigger]
                    is_choice(ranges@, max_bits, k2, f2, i2) ==> k2 >= k && (k2 == k ==> f2 >= f),
            decreases formats.len() - f,
        {
            let mut i: usize = 0;
            while i < ranges.len()
                invariant
                    k < 3,
                    rate == wanted_rate(k as int),
                    f < formats@.len(),
                    formats@ == preferred_formats(max_bits),
                    i <= ranges@.len(),
                    forall|k2: int, f2: int, i2: int| #[trigger]
                        is_choice(ranges@, max_bits, k2, f2, i2) ==> k2 >= k && (k2 == k ==> f2
                            >= f && (f2 == f ==> i2 >= i)),
                decreases ranges.len() - i,
            {
                let r: ConfigRange = ranges[i];
                if r.channels == 2 && r.format == formats[f] && r.min_rate <= rate && rate
                    <= r.max_rate {
                    assert(is_best_choice(ranges@, max_bits, k as int, f as int, i as int));
                    assert(is_best_pick(ranges@, max_bits, i as int, rate));
                    return Pick::Range(i, rate);
                }
                i = i + 1;
            }
            f = f + 1;
        }
        k = k + 1;
    }
    pick_own(default_channels)
}

/// Picks the settings for output: the first range with two channels of floating point that offers
/// the rate, or else what the device has by itself, if it has two channels; it is asked only then.
pub fn pick_output_config(
    ranges: &Vec<ConfigRange>,
    default_channels: Option<u16>,
    rate: u32,
) -> (r: Pick)
    ensures
        r matches Pick::Range(i, got) ==> got == rate && i < ranges@.len() && offers(
            ranges@[i as int],
            rate,
            SampleFormat::F32,
        ) && forall|j: int|
            0 <= j < i ==> !offers(#[trigger] ranges@[j], rate, SampleFormat::F32),
        !(r is Range) ==> forall|j: int|
            0 <= j < ranges@.len() ==> !offers(#[trigger] ranges@[j], rate, SampleFormat::F32),
        !(r is Range) ==> r == own_pick(default_channels),
{
    let mut i: usize = 0;
    while i < ranges.len()
        invariant
            i <= ranges@.len(),
            forall|j: int|
                0 <= j < i ==> !offers(#[trigger] ranges@[j], rate, SampleFormat::F32),
        decreases ranges.len() - i,
    {
        let r: ConfigRange = ranges[i];
        if r.channels == 2 && r.min_rate <= rate && r.max_rate >= rate && r.format
            == SampleFormat::F32 {
            return Pick::Range(i, rate);
        }
        i = i + 1;
    }
    pick_own(default_channels)
}

/// How far back a format stands in what is asked for: with 24 bits or more the whole numbers of 24
/// bits come first, then those of 32, then floating point, then 16 bits; with fewer, 16 bits come
/// before floating point and the others are not taken.
pub open spec fn rank(max_bits: u32, format: SampleFormat) -> Option<int> {
    match format {
        SampleFormat::I24 => if max_bits >= 24 {
            Some(0)
        } else {
            None
        },
        SampleFormat::I32 => if max_bits >= 24 {
            Some(1)
        } else {
            None
        },
        SampleFormat::F32 => Some(2),
        SampleFormat::I16 => if max_bits >= 24 {
            Some(3)
        } else {
            Some(1)
        },
        SampleFormat::Other => None,
    }
}

/// What is picked for input is the best that is offered: two channels, the highest of 192, 96 and
/// 48 kHz that any range has in a format that is taken, and of the formats with that rate the one
/// that is asked for first.
#[verifier::rlimit(40)]
pub proof fn law_picked_is_the_best(
    ranges: Seq<ConfigRange>,
    max_bits: u32,
    i: int,
    rate: u32,
    j: int,
    other: u32,
)
    requires
        is_best_pick(ranges, max_bits, i, rate),
        0 <= j < ranges.len(),
        other == 192_000 || other == 96_000 || other == 48_000,
        ranges[j].channels == 2,
        ranges[j].min_rate <= other <= ranges[j].max_rate,
        rank(max_bits, ranges[j].format) is Some,
    ensures
        0 <= i < ranges.len(),
        ranges[i].channels == 2,
        ranges[i].min_rate <= rate <= ranges[i].max_rate,
        rank(max_bits, ranges[i].format) is Some,
        rate > other || rate == other && (rank(max_bits, ranges[i].format)->0 < rank(
            max_bits,
            ranges[j].format,
        )->0 || ranges[i].format == ranges[j].format && i <= j),
{
    let (k, f) = choose|k: int, f: int|
        #[trigger] is_best_choice(ranges, max_bits, k, f, i) && rate == wanted_rate(k);
    let k2: int = if other == 192_000 {
        0
    } else if other == 96_000 {
        1
    } else {
        2
    };
    let prefs = preferred_formats(max_bits);
    let f2: int = if ranges[j].format == SampleFormat::I24 {
        0
    } else if ranges[j].format == SampleFormat::I32 {
        1
    } else if ranges[j].format == SampleFormat::F32 {
        if max_bits >= 24 {
            2
        } else {
            1
        }
    } else if max_bits >= 24 {
        3
    } else {
        0
    };
    assert(prefs[f2] == ranges[j].format);
    assert(is_choice(ranges, max_bits, k2, f2, j));
    assert(!comes_before(k2, f2, j, k, f, i));
    assert(is_choice(ranges, max_bits, k, f, i));
    assert(prefs[f] == ranges[i].format);
}

/// A device that has two channels by itself is used as it is, one that has another number is told by
/// it, and one that was not asked yet is asked.
pub proof fn law_device_by_itself_needs_two_channels(n: u16)
    ensures
        own_pick(Some(n)) == Pick::Default <==> n == 2,
        n != 2 ==> own_pick(Some(n)) == Pick::NotStereo(n),
        own_pick(None) == Pick::Ask,
{
}

} // verus!
