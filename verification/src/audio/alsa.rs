//! Choices for ALSA, the only way to packed samples of 24 bits.
use crate::audio;
use crate::audio::DeviceInfo;
use crate::audio::Negotiated;
use crate::text;
use vstd::prelude::*;

verus! {

/// The format of samples on the wire.
#[derive(Clone, Copy, PartialEq, Eq, Debug, Structural)]
pub enum Format {
    /// Two bytes, the lower first.
    S16Le,
    /// Three bytes, the lowest first.
    S243Le,
    /// A format that is not read.
    Other,
}

impl Format {
    /// How many bytes a sample has.
    pub open spec fn width(self) -> nat {
        match self {
            Format::S16Le => 2,
            Format::S243Le => 3,
            Format::Other => 0,
        }
    }
}

/// The number that bytes hold, the lowest first.
pub open spec fn unsigned_le(b: Seq<u8>, n: nat) -> int
    decreases n,
{
    if n == 0 {
        0
    } else {
        b[0] + 256 * unsigned_le(b.drop_first(), (n - 1) as nat)
    }
}

/// The value of a sample: the upper half of the range of its bytes is negative.
pub open spec fn sample_value(fmt: Format, b: Seq<u8>) -> int {
    match fmt {
        Format::S16Le => {
            let v = unsigned_le(b, 2);
            if v < 0x8000 {
                v
            } else {
                v - 0x1_0000
            }
        },
        Format::S243Le => {
            let v = unsigned_le(b, 3);
            if v < 0x80_0000 {
                v
            } else {
                v - 0x100_0000
            }
        },
        Format::Other => 0,
    }
}

/// How many bytes a sample has.
pub fn bytes_per_sample(fmt: Format) -> (r: usize)
    ensures
        r == fmt.width(),
{
    match fmt {
        Format::S16Le => 2,
        Format::S243Le => 3,
        Format::Other => 0,
    }
}

/// How many bits a sample has.
pub fn bits_of(fmt: Format) -> (r: u32)
    ensures
        r == 8 * fmt.width(),
{
    (bytes_per_sample(fmt) * 8) as u32
}

/// The value at which samples of a format are full.
pub fn full_scale(fmt: Format) -> (r: i32)
    ensures
        r == (if fmt == Format::S243Le {
            0x80_0000i32
        } else {
            0x8000i32
        }),
{
    if fmt == Format::S243Le {
        0x80_0000
    } else {
        0x8000
    }
}

/// Reads a sample; it lies between the negative and the positive full value.
pub fn decode(fmt: Format, b: &[u8]) -> (r: i32)
    requires
        b@.len() >= fmt.width(),
    ensures
        r == sample_value(fmt, b@),
        fmt == Format::S16Le ==> -0x8000 <= r < 0x8000,
        fmt == Format::S243Le ==> -0x80_0000 <= r < 0x80_0000,
{
    proof {
        reveal_with_fuel(unsigned_le, 4);
    }
    match fmt {
        Format::S16Le => {
            let v: i32 = b[0] as i32 + 256 * (b[1] as i32);
            if v < 0x8000 {
                v
            } else {
                v - 0x1_0000
            }
        },
        Format::S243Le => {
            let v: i32 = b[0] as i32 + 256 * (b[1] as i32) + 65536 * (b[2] as i32);
            if v < 0x80_0000 {
                v
            } else {
                v - 0x100_0000
            }
        },
        Format::Other => 0,
    }
}

/// What is tried on an input, the best first. A higher rate gives a wider panorama, 24 bits more
/// range; the rate goes before the depth.
pub open spec fn candidate_table() -> Seq<(u32, Format)> {
    seq![
        (192_000, Format::S243Le),
        (192_000, Format::S16Le),
        (96_000, Format::S243Le),
        (96_000, Format::S16Le),
        (48_000, Format::S243Le),
        (48_000, Format::S16Le),
    ]
}

/// What is tried on an input, the best first.
pub fn candidates() -> (r: Vec<(u32, Format)>)
    ensures
        r@ == candidate_table(),
{
    let r: Vec<(u32, Format)> = vec![
        (192_000, Format::S243Le),
        (192_000, Format::S16Le),
        (96_000, Format::S243Le),
        (96_000, Format::S16Le),
        (48_000, Format::S243Le),
        (48_000, Format::S16Le),
    ];
    assert(r@ =~= candidate_table());
    r
}

/// A candidate is within the limit and works on the card.
pub open spec fn is_usable(works: Seq<bool>, max_bits: u32, i: int) -> bool {
    0 <= i < candidate_table().len() && 8 * candidate_table()[i].1.width() <= max_bits && i
        < works.len() && works[i]
}

/// The best rate and format that a card can do within a limit of bits. For each candidate in turn
/// `works` says whether the card can do it.
pub fn negotiate(works: &[bool], max_bits: u32) -> (r: Option<(u32, Format)>)
    ensures
        r matches Some(c) ==> exists|i: int|
            #[trigger] is_usable(works@, max_bits, i) && c == candidate_table()[i] && forall|j: int|
                j < i ==> !#[trigger] is_usable(works@, max_bits, j),
        r is None ==> forall|i: int| !#[trigger] is_usable(works@, max_bits, i),
{
    let all = candidates();
    let mut i: usize = 0;
    while i < all.len()
        invariant
            i <= all@.len(),
            all@ == candidate_table(),
            forall|j: int| j < i ==> !#[trigger] is_usable(works@, max_bits, j),
        decreases all.len() - i,
    {
        let (rate, fmt) = all[i];
        if bits_of(fmt) <= max_bits && i < works.len() && works[i] {
            assert(is_usable(works@, max_bits, i as int));
            return Some((rate, fmt));
        }
        i = i + 1;
    }
    None
}

/// The direction of a device.
#[derive(Clone, Copy, PartialEq, Eq, Debug, Structural)]
pub enum Direction {
    Capture,
    Playback,
}

/// What ALSA says of a device. A hint without a direction is for both.
#[derive(Debug)]
pub struct Hint {
    pub name: Option<String>,
    pub desc: Option<String>,
    pub direction: Option<Direction>,
}

/// The first line of a description, where it says something.
pub open spec fn first_line(desc: Option<String>) -> Option<Seq<char>> {
    match desc {
        None => None,
        Some(d) => {
            let lines = text::lines_of(d@);
            if lines.len() > 0 && lines[0].len() > 0 {
                Some(lines[0])
            } else {
                None
            }
        },
    }
}

/// A hint is offered for a direction: it has a name other than "null", and no other direction.
pub open spec fn is_offered(h: Hint, dir: Direction) -> bool {
    (h.direction is None || h.direction == Some(dir)) && h.name is Some && h.name->0@ != "null"@
}

/// What a hint is known by and shown as.
pub open spec fn hint_view(h: Hint) -> (Seq<char>, Seq<char>) {
    let id = h.name->0@;
    match first_line(h.desc) {
        Some(line) => (id, id + " - "@ + line),
        None => (id, id),
    }
}

/// The devices of the hints that are offered for a direction.
pub open spec fn listed(hints: Seq<Hint>, dir: Direction) -> Seq<(Seq<char>, Seq<char>)>
    decreases hints.len(),
{
    if hints.len() == 0 {
        Seq::empty()
    } else {
        let before = listed(hints.drop_last(), dir);
        if is_offered(hints.last(), dir) {
            before.push(hint_view(hints.last()))
        } else {
            before
        }
    }
}

fn device_of(h: &Hint, dir: Direction) -> (r: Option<DeviceInfo>)
    ensures
        r is Some <==> is_offered(*h, dir),
        r matches Some(d) ==> audio::device_view(d) == hint_view(*h),
{
    let fits: bool = match h.direction {
        None => true,
        Some(d) => d == dir,
    };
    if !fits {
        return None;
    }
    match &h.name {
        None => None,
        Some(name) => {
            let chars = text::to_chars(name.as_str());
            if text::equals(&chars, "null") {
                return None;
            }
            let id = name.as_str().to_string();
            let mut label = name.as_str().to_string();
            match &h.desc {
                None => {},
                Some(desc) => {
                    let d = text::to_chars(desc.as_str());
                    let lines = text::lines(&d);
                    assert(text::texts(lines@).len() == lines@.len());
                    if lines.len() > 0 && lines[0].len() > 0 {
                        assert(text::texts(lines@)[0] == lines@[0]@);
                        let line = text::from_chars(lines[0]);
                        text::push_text(&mut label, " - ");
                        text::push_text(&mut label, line.as_str());
                    }
                },
            }
            Some(DeviceInfo { id, label })
        },
    }
}

fn list(hints: &Vec<Hint>, dir: Direction) -> (r: Vec<DeviceInfo>)
    ensures
        r@.map_values(|d: DeviceInfo| audio::device_view(d)) == listed(hints@, dir),
{
    let ghost view = |d: DeviceInfo| audio::device_view(d);
    let mut out: Vec<DeviceInfo> = Vec::new();
    let mut i: usize = 0;
    assert(hints@.take(0) == Seq::<Hint>::empty());
    assert(out@.map_values(view) =~= Seq::<(Seq<char>, Seq<char>)>::empty());
    while i < hints.len()
        invariant
            i <= hints@.len(),
            view == (|d: DeviceInfo| audio::device_view(d)),
            out@.map_values(view) == listed(hints@.take(i as int), dir),
        decreases hints.len() - i,
    {
        assert(hints@.take(i as int + 1).drop_last() == hints@.take(i as int));
        let ghost before = out@.map_values(view);
        if let Some(d) = device_of(&hints[i], dir) {
            let ghost added = audio::device_view(d);
            out.push(d);
            assert(out@.map_values(view) =~= before.push(added));
        }
        i = i + 1;
    }
    assert(hints@.take(i as int) == hints@);
    out
}

/// The devices that samples can be taken from.
pub fn list_capture(hints: &Vec<Hint>) -> (r: Vec<DeviceInfo>)
    ensures
        r@.map_values(|d: DeviceInfo| audio::device_view(d)) == listed(hints@, Direction::Capture),
{
    list(hints, Direction::Capture)
}

/// The devices that sound can be sent to.
pub fn list_playback(hints: &Vec<Hint>) -> (r: Vec<DeviceInfo>)
    ensures
        r@.map_values(|d: DeviceInfo| audio::device_view(d)) == listed(hints@, Direction::Playback),
{
    list(hints, Direction::Playback)
}

/// What is listed has a name, is not "null", and its label begins with its name.
pub proof fn law_listed_can_be_opened(hints: Seq<Hint>, dir: Direction, i: int)
    requires
        0 <= i < listed(hints, dir).len(),
    ensures
        listed(hints, dir)[i].0 != "null"@,
        text::begins_with(listed(hints, dir)[i].1, listed(hints, dir)[i].0),
    decreases hints.len(),
{
    if hints.len() > 0 {
        let before = listed(hints.drop_last(), dir);
        if i < before.len() {
            law_listed_can_be_opened(hints.drop_last(), dir, i);
        } else {
            let (id, label) = listed(hints, dir)[i];
            assert(label.take(id.len() as int) =~= id);
        }
    }
}

/// A hint for one direction is not listed for the other; one without a direction is offered for
/// both.
pub proof fn law_direction_is_kept(h: Hint, dir: Direction)
    ensures
        h.direction is Some && h.direction->0 != dir ==> !is_offered(h, dir),
        h.direction is None ==> is_offered(h, Direction::Capture) == is_offered(
            h,
            Direction::Playback,
        ),
{
}

/// The device to try where one could not be opened for output: "pulse" is a first guess only.
pub fn fallback_device(device: &str) -> (r: Option<&'static str>)
    ensures
        r is Some <==> device@ == "pulse"@,
        r matches Some(d) ==> d@ == "default"@,
{
    let chars = text::to_chars(device);
    if text::equals(&chars, "pulse") {
        Some("default")
    } else {
        None
    }
}

/// An input that is open: the format of its samples and what was settled.
#[derive(Clone, Copy, PartialEq, Eq, Debug, Structural)]
pub struct AlsaCapture {
    pub fmt: Format,
    pub bps: usize,
    pub frame_bytes: usize,
    pub negotiated: Negotiated,
}

impl AlsaCapture {
    /// The sizes are those of the format.
    pub open spec fn wf(&self) -> bool {
        self.bps == self.fmt.width() && self.frame_bytes == 2 * self.bps
    }

    /// An input with the rate that the card really has.
    pub fn new(fmt: Format, actual_rate: u32) -> (r: AlsaCapture)
        ensures
            r.wf(),
            r.fmt == fmt,
            r.negotiated == (Negotiated { rate: actual_rate, bits: (8 * fmt.width()) as u32 }),
    {
        let bps: usize = bytes_per_sample(fmt);
        AlsaCapture {
            fmt,
            bps,
            frame_bytes: bps * 2,
            negotiated: Negotiated { rate: actual_rate, bits: bits_of(fmt) },
        }
    }

    /// How many bytes are to be read to fill `places` samples with whole frames.
    pub fn bytes_for(&self, places: usize) -> (r: usize)
        requires
            self.wf(),
            places <= usize::MAX / 3,
        ensures
            r == places / 2 * (2 * self.fmt.width()),
    {
        let frames: usize = places / 2;
        assert(frames * self.frame_bytes <= 6 * frames) by (nonlinear_arith)
            requires
                self.frame_bytes <= 6,
        ;
        frames * self.frame_bytes
    }

    /// The samples of the frames that were read, both channels in turn.
    pub fn samples(&self, raw: &[u8], frames: usize) -> (r: Vec<i32>)
        requires
            self.wf(),
            frames * (2 * self.fmt.width()) <= raw@.len(),
            2 * frames <= usize::MAX,
        ensures
            r@.len() == 2 * frames,
            forall|k: int|
                0 <= k < 2 * frames ==> #[trigger] r@[k] == sample_value(
                    self.fmt,
                    raw@.skip(k * self.fmt.width()),
                ),
    {
        let mut out: Vec<i32> = Vec::new();
        let n: usize = 2 * frames;
        let mut k: usize = 0;
        let mut o: usize = 0;
        assert(frames * (2 * self.bps) == n * self.bps) by (nonlinear_arith)
            requires
                n == 2 * frames,
        ;
        while k < n
            invariant
                self.wf(),
                k <= n,
                n == 2 * frames,
                n * self.bps <= raw@.len(),
                o == k * self.bps,
                out@.len() == k,
                forall|j: int|
                    0 <= j < k ==> #[trigger] out@[j] == sample_value(
                        self.fmt,
                        raw@.skip(j * self.fmt.width()),
                    ),
            decreases n - k,
        {
            assert((k + 1) * self.bps <= n * self.bps && (k + 1) * self.bps == k * self.bps
                + self.bps) by (nonlinear_arith)
                requires
                    k + 1 <= n,
            ;
            let b: &[u8] = &raw[o..raw.len()];
            assert(b@ == raw@.skip(o as int));
            out.push(decode(self.fmt, b));
            o = o + self.bps;
            k = k + 1;
        }
        out
    }
}

/// A sample is the number of its bytes, the lowest first, as a number with a sign: it lies in the
/// range of so many bits, and differs from the plain number of the bytes by a whole range at most.
pub proof fn law_sample_is_the_number_of_its_bytes(b: Seq<u8>)
    requires
        b.len() >= 3,
    ensures
        ({
            let v = sample_value(Format::S16Le, b);
            let n = b[0] + 256 * b[1];
            -32_768 <= v <= 32_767 && (v == n || v == n - 65_536)
        }),
        ({
            let v = sample_value(Format::S243Le, b);
            let n = b[0] + 256 * b[1] + 65_536 * b[2];
            -8_388_608 <= v <= 8_388_607 && (v == n || v == n - 16_777_216)
        }),
        sample_value(Format::Other, b) == 0,
{
    reveal_with_fuel(unsigned_le, 4);
}

/// What is settled with a card is the best that it can do: no other candidate that works within the
/// limit has a higher rate, or the same rate with more bits. Nothing above the limit is taken.
pub proof fn law_settled_is_the_best(works: Seq<bool>, max_bits: u32, i: int, j: int)
    requires
        is_usable(works, max_bits, i),
        forall|k: int| k < i ==> !#[trigger] is_usable(works, max_bits, k),
        is_usable(works, max_bits, j),
    ensures
        ({
            let (a, b) = (candidate_table()[i], candidate_table()[j]);
            &&& a.0 > b.0 || a.0 == b.0 && (a.1 == Format::S243Le || b.1 == Format::S16Le)
            &&& max_bits < 24 ==> a.1 == Format::S16Le
            &&& max_bits >= 16
            &&& a.0 == 192_000 || a.0 == 96_000 || a.0 == 48_000
        }),
{
    assert(j >= i);
}

/// Every combination of the three rates with the two formats is tried.
pub proof fn law_all_rates_and_depths_are_tried(rate: u32, fmt: Format)
    requires
        rate == 192_000 || rate == 96_000 || rate == 48_000,
        fmt != Format::Other,
    ensures
        candidate_table().contains((rate, fmt)),
{
    let t = candidate_table();
    assert(t[0] == (192_000u32, Format::S243Le) && t[1] == (192_000u32, Format::S16Le) && t[2] == (
        96_000u32,
        Format::S243Le,
    ) && t[3] == (96_000u32, Format::S16Le) && t[4] == (48_000u32, Format::S243Le) && t[5] == (
        48_000u32,
        Format::S16Le,
    ));
}

/// Every hint that has a name, and no other direction, is listed under that name, but for "null".
pub proof fn law_every_device_is_listed(hints: Seq<Hint>, dir: Direction, i: int)
    requires
        0 <= i < hints.len(),
        hints[i].name is Some,
        hints[i].name->0@ != "null"@,
        hints[i].direction is None || hints[i].direction->0 == dir,
    ensures
        exists|k: int|
            0 <= k < listed(hints, dir).len() && (#[trigger] listed(hints, dir)[k]).0
                == hints[i].name->0@,
    decreases hints.len(),
{
    let front = hints.drop_last();
    if i < front.len() {
        assert(front[i] == hints[i]);
        law_every_device_is_listed(front, dir, i);
        let k = choose|k: int|
            0 <= k < listed(front, dir).len() && (#[trigger] listed(front, dir)[k]).0
                == hints[i].name->0@;
        assert(listed(hints, dir)[k] == listed(front, dir)[k]);
    } else {
        let k = listed(hints, dir).len() - 1;
        assert(listed(hints, dir)[k].0 == hints[i].name->0@);
    }
}

/// A device is shown by its name and the first line of what is said of it, where that says something.
pub proof fn law_device_is_shown_with_its_first_line(h: Hint, line: Seq<char>, rest: Seq<char>)
    requires
        h.name is Some,
        line.len() > 0,
        !line.contains('\n'),
        line.last() != '\r',
    ensures
        h.desc is None ==> hint_view(h) == (h.name->0@, h.name->0@),
        h.desc is Some && h.desc->0@ == line + seq!['\n'] + rest ==> hint_view(h) == (
            h.name->0@,
            h.name->0@ + " - "@ + line,
        ),
        h.desc is Some && h.desc->0@ == line ==> hint_view(h) == (
            h.name->0@,
            h.name->0@ + " - "@ + line,
        ),
{
    text::law_lines_come_back(line, rest);
}

} // verus!
