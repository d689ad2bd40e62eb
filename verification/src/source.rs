//! Which radio is in use and what it can do.
use crate::audio;
use crate::audio::{Backend, Negotiated};
use crate::radio;
use crate::text;
use vstd::prelude::*;

verus! {

/// The radio that is in use.
#[derive(Clone, Copy, PartialEq, Eq, Debug, Structural)]
pub enum Hardware {
    /// A shortwave receiver: samples from the sound card, tuned by an Si570 on USB.
    SoftRock,
    /// A wideband receiver on USB.
    Rsp1,
}

impl Default for Hardware {
    fn default() -> (r: Hardware)
        ensures
            r == Hardware::SoftRock,
    {
        Hardware::SoftRock
    }
}

impl Hardware {
    /// The limits of the tuning in kilohertz.
    pub open spec fn range_khz(self) -> (int, int) {
        match self {
            Hardware::SoftRock => (100, 60_000),
            Hardware::Rsp1 => (100, 2_000_000),
        }
    }

    /// What the radio is called.
    pub open spec fn name(self) -> Seq<char> {
        match self {
            Hardware::SoftRock => "SoftRock"@,
            Hardware::Rsp1 => "SDRplay RSP1"@,
        }
    }

    /// What the radio is called.
    pub fn label(self) -> (r: &'static str)
        ensures
            r@ == self.name(),
    {
        match self {
            Hardware::SoftRock => "SoftRock",
            Hardware::Rsp1 => "SDRplay RSP1",
        }
    }

    /// Whether the radio can be opened by a program built with or without the RSP1.
    pub fn available(self, rsp1_built: bool) -> (r: bool)
        ensures
            r == (self == Hardware::SoftRock || rsp1_built),
    {
        match self {
            Hardware::SoftRock => true,
            Hardware::Rsp1 => rsp1_built,
        }
    }

    /// Whether the radio is tuned by an Si570, whose crystal can be calibrated.
    pub fn uses_si570(self) -> (r: bool)
        ensures
            r == (self == Hardware::SoftRock),
    {
        self == Hardware::SoftRock
    }

    /// The lowest and the highest frequency in kilohertz that the radio tunes to.
    pub fn tuning_range_khz(self) -> (r: (i64, i64))
        ensures
            (r.0 as int, r.1 as int) == self.range_khz(),
    {
        match self {
            Hardware::SoftRock => (100, 60_000),
            Hardware::Rsp1 => (100, 2_000_000),
        }
    }

    /// Both radios.
    pub fn all() -> (r: [Hardware; 2])
        ensures
            r@ == seq![Hardware::SoftRock, Hardware::Rsp1],
    {
        [Hardware::SoftRock, Hardware::Rsp1]
    }
}

/// The sample rates of the RSP1 in hertz, the narrowest first.
pub open spec fn rsp1_rates() -> Seq<u32> {
    seq![1_344_000u32, 1_920_000u32, 3_072_000u32, 4_800_000u32, 6_000_000u32]
}

/// The sample rate of the RSP1 that is used unless another is chosen, in hertz.
pub const RSP1_DEFAULT_RATE_HZ: u32 = 1_344_000;

/// The sample rates of the RSP1 in hertz, the narrowest first.
pub fn rsp1_rates_hz() -> (r: [u32; 5])
    ensures
        r@ == rsp1_rates(),
{
    [1_344_000, 1_920_000, 3_072_000, 4_800_000, 6_000_000]
}

/// How many samples at a rate come on one of sound: the nearest whole number, halves upwards.
pub open spec fn decim_of(rate: int) -> int {
    (rate + 24_000) / 48_000
}

/// How many samples at a rate in hertz come on one of sound.
pub fn rsp1_decim(rate_hz: u32) -> (r: usize)
    ensures
        r == decim_of(rate_hz as int),
{
    ((rate_hz as u64 + 24_000) / 48_000) as usize
}

/// The sample rate to use: only one of those offered comes down to sound by a whole number.
pub fn rsp1_rate(configured_hz: u32) -> (r: u32)
    ensures
        rsp1_rates().contains(configured_hz) ==> r == configured_hz,
        !rsp1_rates().contains(configured_hz) ==> r == RSP1_DEFAULT_RATE_HZ,
{
    let rates = rsp1_rates_hz();
    let mut i: usize = 0;
    while i < 5
        invariant
            i <= 5,
            rates@ == rsp1_rates(),
            forall|j: int| 0 <= j < i ==> rsp1_rates()[j] != configured_hz,
        decreases 5 - i,
    {
        if rates[i] == configured_hz {
            assert(rsp1_rates()[i as int] == configured_hz);
            return configured_hz;
        }
        i = i + 1;
    }
    RSP1_DEFAULT_RATE_HZ
}

/// Whether a device keeps a rate: what it reports in millihertz is off by one hertz at most.
pub fn rate_holds(got_millihz: i64, rate_hz: u32) -> (r: bool)
    ensures
        r == (-1_000 <= got_millihz - rate_hz * 1_000 <= 1_000),
{
    let off: i128 = got_millihz as i128 - rate_hz as i128 * 1_000;
    -1_000 <= off && off <= 1_000
}

/// Every rate that is offered is a multiple of the sound rate, so it comes down by a whole number,
/// and the device takes it: 1.3 to 12 MHz.
pub proof fn law_rates_come_down_to_sound(i: int)
    requires
        0 <= i < rsp1_rates().len(),
    ensures
        decim_of(rsp1_rates()[i] as int) * radio::AUDIO_RATE == rsp1_rates()[i],
        1_300_000 <= rsp1_rates()[i] <= 12_000_000,
{
    assert(i == 0 || i == 1 || i == 2 || i == 3 || i == 4);
}

/// The rates go from the narrowest to the widest, and the narrowest is used unless another is
/// chosen.
pub proof fn law_rates_ascend(i: int, j: int)
    requires
        0 <= i < j < rsp1_rates().len(),
    ensures
        rsp1_rates()[i] < rsp1_rates()[j],
        rsp1_rates()[0] == RSP1_DEFAULT_RATE_HZ,
{
    assert(i == 0 || i == 1 || i == 2 || i == 3);
    assert(j == 1 || j == 2 || j == 3 || j == 4);
}

/// What is shown of samples that come from a sound card. No name stands for the device that the
/// system chooses.
pub open spec fn softrock_label(device: Seq<char>, neg: Negotiated, backend: Backend) -> Seq<char> {
    let place = if device.len() == 0 {
        "výchozího zařízení"@
    } else {
        device
    };
    "příjem z "@ + place + " @ "@ + text::khz(neg.rate * 1_000, 0) + " kHz, "@ + text::decimal(
        neg.bits as nat,
    ) + " bit ("@ + backend.name() + ")"@
}

/// What is shown of samples that come from a sound card.
pub fn softrock_source_label(device: &str, neg: &Negotiated, backend: Backend) -> (r: String)
    ensures
        r@ == softrock_label(device@, *neg, backend),
{
    let mut s = "příjem z ".to_string();
    let chars = text::to_chars(device);
    if chars.len() == 0 {
        text::push_text(&mut s, "výchozího zařízení");
    } else {
        text::push_text(&mut s, device);
    }
    text::push_text(&mut s, " @ ");
    text::push_khz(&mut s, neg.rate as i64 * 1_000, 0);
    text::push_text(&mut s, " kHz, ");
    text::push_decimal(&mut s, neg.bits as u64);
    text::push_text(&mut s, " bit (");
    text::push_text(&mut s, audio::backend_name(backend));
    text::push_text(&mut s, ")");
    s
}

/// What is shown of samples that come from the RSP1.
pub fn rsp1_source_label(rate_hz: u32) -> (r: String)
    ensures
        r@ == "příjem z RSP1 @ "@ + text::khz(rate_hz * 1_000, 0) + " kHz (SoapySDR)"@,
{
    let mut s = "příjem z RSP1 @ ".to_string();
    text::push_khz(&mut s, rate_hz as i64 * 1_000, 0);
    text::push_text(&mut s, " kHz (SoapySDR)");
    s
}

/// What is shown of an RSP1, with the name that the device gives itself where it gives one.
pub fn rsp1_label(key: Option<&str>) -> (r: String)
    ensures
        r@ == match key {
            Some(k) => "RSP1 ("@ + k@ + ")"@,
            None => "RSP1"@,
        },
{
    match key {
        Some(k) => {
            let mut s = "RSP1 (".to_string();
            text::push_text(&mut s, k);
            text::push_text(&mut s, ")");
            s
        },
        None => "RSP1".to_string(),
    }
}

/// What is shown of a SoftRock: the version of its firmware, or a question mark where it does not
/// tell.
pub fn softrock_label_of(version: Option<&str>) -> (r: String)
    ensures
        r@ == "SoftRock fw "@ + match version {
            Some(v) => v@,
            None => "?"@,
        },
{
    let mut s = "SoftRock fw ".to_string();
    match version {
        Some(v) => text::push_text(&mut s, v),
        None => text::push_text(&mut s, "?"),
    }
    s
}

/// The samples of a radio come on those of the sound by the nearest whole number.
pub proof fn law_radio_comes_down_by_the_nearest(rate: int)
    requires
        rate >= 0,
    ensures
        -48_000 <= 2 * (48_000 * decim_of(rate) - rate) <= 48_000,
{
}

} // verus!
