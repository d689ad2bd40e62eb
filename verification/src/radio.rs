//! The receiving thread: its limits and its decisions between one block of samples and the next.
use crate::dsp::Mode;
use crate::text;
use vstd::prelude::*;

verus! {

/// The rate of the sound that comes out, in hertz.
pub const AUDIO_RATE: u32 = 48_000;

/// How many bins the spectrum has.
pub const FFT_SIZE: usize = 2048;

/// The width of an AM channel in hertz, unless it is set otherwise.
pub const AM_BANDWIDTH_HZ: i64 = 8_000;

/// The width of a single-sideband channel in hertz, unless it is set otherwise.
pub const SSB_BANDWIDTH_HZ: i64 = 2_700;

/// The width of a narrowband FM channel in hertz, unless it is set otherwise.
pub const NFM_BANDWIDTH_HZ: i64 = 16_000;

/// The width of a broadcast FM channel in hertz, unless it is set otherwise.
pub const WFM_BANDWIDTH_HZ: i64 = 180_000;

/// The narrowest Morse channel in hertz.
pub const CW_MIN_BANDWIDTH_HZ: i64 = 150;

/// The width of a Morse channel in hertz, unless it is set otherwise.
pub const CW_BANDWIDTH_HZ: i64 = 500;

/// The lowest threshold of the squelch in decibels below full scale.
pub const SQUELCH_MIN_DB: i32 = -100;

/// The highest threshold of the squelch in decibels below full scale.
pub const SQUELCH_MAX_DB: i32 = -20;

/// The threshold of the squelch, unless it is set otherwise.
pub const DEFAULT_SQUELCH_DB: i32 = -70;

/// The lowest gain that can be set by hand, in decibels.
pub const AGC_MANUAL_MIN_DB: i32 = 0;

/// The highest gain that can be set by hand, in decibels.
pub const AGC_MANUAL_MAX_DB: i32 = 60;

/// The gain by hand, unless it is set otherwise.
pub const DEFAULT_AGC_MANUAL_DB: i32 = 20;

/// The narrowest and the widest channel of a mode in hertz.
pub open spec fn widths(mode: Mode) -> (int, int) {
    match mode {
        Mode::Cw => (150, 2_000),
        Mode::Usb => (400, 4_000),
        Mode::Lsb => (400, 4_000),
        Mode::Am => (1_000, 24_000),
        Mode::Wfm => (120_000, 230_000),
        Mode::Nfm => (8_000, 20_000),
    }
}

/// The narrowest and the widest channel of a mode in hertz.
pub fn bandwidth_range(mode: Mode) -> (r: (i64, i64))
    ensures
        (r.0 as int, r.1 as int) == widths(mode),
{
    match mode {
        Mode::Cw => (CW_MIN_BANDWIDTH_HZ, 2_000),
        Mode::Usb => (400, 4_000),
        Mode::Lsb => (400, 4_000),
        Mode::Am => (1_000, 24_000),
        Mode::Wfm => (120_000, 230_000),
        Mode::Nfm => (8_000, 20_000),
    }
}

/// The width of a mode's channel in hertz, unless it is set otherwise.
pub open spec fn usual_width(mode: Mode) -> int {
    match mode {
        Mode::Cw => CW_BANDWIDTH_HZ as int,
        Mode::Usb => SSB_BANDWIDTH_HZ as int,
        Mode::Lsb => SSB_BANDWIDTH_HZ as int,
        Mode::Am => AM_BANDWIDTH_HZ as int,
        Mode::Wfm => WFM_BANDWIDTH_HZ as int,
        Mode::Nfm => NFM_BANDWIDTH_HZ as int,
    }
}

/// The width that a channel has unless it is set otherwise is one that can be set.
pub proof fn law_usual_width_is_allowed(mode: Mode)
    ensures
        widths(mode).0 <= usual_width(mode) <= widths(mode).1,
{
}

/// How many input samples come on one of sound: the nearest whole number, halves upwards, and never
/// less than one.
pub open spec fn decim_for(rate: int) -> int {
    let n = (rate + 24_000) / 48_000;
    if n < 1 {
        1
    } else {
        n
    }
}

/// How many input samples at a rate in hertz come on one of sound.
pub fn decimation(rate_hz: u32) -> (r: u32)
    ensures
        r == decim_for(rate_hz as int),
{
    let n: u64 = (rate_hz as u64 + 24_000) / 48_000;
    if n < 1 {
        1
    } else {
        n as u32
    }
}

/// Which bin of a transform stands at a place of the spectrum, where the middle is the middle
/// frequency.
pub open spec fn bin_at(i: int) -> int {
    (i + FFT_SIZE / 2) % (FFT_SIZE as int)
}

/// Which bin of a transform stands at a place of the spectrum.
pub fn fft_shift(i: usize) -> (r: usize)
    requires
        i < FFT_SIZE,
    ensures
        r == bin_at(i as int),
        r < FFT_SIZE,
{
    (i + FFT_SIZE / 2) % FFT_SIZE
}

/// Every bin has exactly one place in the spectrum, the bin of no frequency the one in the middle.
pub proof fn law_every_bin_has_one_place(i: int, j: int)
    requires
        0 <= i < FFT_SIZE,
        0 <= j < FFT_SIZE,
    ensures
        bin_at(i) == bin_at(j) ==> i == j,
        bin_at(bin_at(i)) == i,
        bin_at(FFT_SIZE as int / 2) == 0,
{
}

/// How long a spectrum stands before the next one is made, in milliseconds.
pub const FFT_INTERVAL_MS: u64 = 16;

/// Counts the samples for the spectrum and says when one is to be made.
#[derive(Clone, Copy, PartialEq, Eq, Debug, Structural)]
pub struct SpectrumClock {
    /// How many samples have been gathered.
    pub gathered: usize,
    /// When the last spectrum was made, in milliseconds.
    pub last_ms: u64,
}

/// What comes of one more sample.
#[derive(Clone, Copy, PartialEq, Eq, Debug, Structural)]
pub enum Gathered {
    /// More samples are needed.
    More,
    /// There are enough samples, but it is too early: they are dropped.
    Dropped,
    /// A spectrum is to be made of the samples.
    Ready,
}

impl SpectrumClock {
    /// Fewer samples are gathered than a spectrum needs.
    pub open spec fn wf(&self) -> bool {
        self.gathered < FFT_SIZE
    }

    /// The clock at the start of a reception.
    pub fn new(now_ms: u64) -> (r: Self)
        ensures
            r.wf(),
            r == (SpectrumClock { gathered: 0, last_ms: now_ms }),
    {
        SpectrumClock { gathered: 0, last_ms: now_ms }
    }

    /// Counts a sample.
    pub fn push(&mut self, now_ms: u64) -> (r: Gathered)
        requires
            old(self).wf(),
        ensures
            final(self).wf(),
            r == (if old(self).gathered + 1 < FFT_SIZE {
                Gathered::More
            } else if now_ms < old(self).last_ms + FFT_INTERVAL_MS {
                Gathered::Dropped
            } else {
                Gathered::Ready
            }),
            final(self).gathered == (if r == Gathered::More {
                old(self).gathered + 1
            } else {
                0
            }),
            final(self).last_ms == (if r == Gathered::Ready {
                now_ms
            } else {
                old(self).last_ms
            }),
            r == Gathered::More <==> old(self).gathered < 2047,
            r == Gathered::Ready ==> final(self).last_ms - old(self).last_ms >= 16,
            r == Gathered::Dropped ==> now_ms - old(self).last_ms < 16,
    {
        if self.gathered + 1 < FFT_SIZE {
            self.gathered = self.gathered + 1;
            return Gathered::More;
        }
        self.gathered = 0;
        if (now_ms as u128) < self.last_ms as u128 + FFT_INTERVAL_MS as u128 {
            Gathered::Dropped
        } else {
            self.last_ms = now_ms;
            Gathered::Ready
        }
    }
}

/// How many bytes of decoded text may wait.
pub const DECODED_LIMIT: u64 = 8_192;

/// How many bytes of decoded text stay once there are more than may wait.
pub const DECODED_KEEP: u64 = 4_096;

/// How many bytes of decoded text are shown.
pub const CONSOLE_LIMIT: u64 = 16_384;

/// How many bytes of decoded text stay once there are more than are shown.
pub const CONSOLE_KEEP: u64 = 8_192;

/// Adds decoded text to what waits. Where that grows too long, only its end stays.
pub fn append_decoded(waiting: &mut String, more: &str)
    ensures
        final(waiting)@ == text::kept(
            old(waiting)@ + more@,
            DECODED_LIMIT as nat,
            DECODED_KEEP as nat,
        ),
        text::byte_len(old(waiting)@ + more@) <= 8_192 ==> final(waiting)@ == old(waiting)@ + more@,
        text::byte_len(old(waiting)@ + more@) > 8_192 ==> text::byte_len(final(waiting)@) <= 4_096,
{
    proof {
        let _ = text::law_kept_is_the_longest_end(waiting@ + more@, 8_192, 4_096);
    }
    text::push_text(waiting, more);
    *waiting = text::keep_end(waiting.as_str(), DECODED_LIMIT, DECODED_KEEP);
}

/// Adds decoded text to what is shown. Where that grows too long, only its end stays.
pub fn append_console(shown: &mut String, more: &str)
    ensures
        final(shown)@ == text::kept(
            old(shown)@ + more@,
            CONSOLE_LIMIT as nat,
            CONSOLE_KEEP as nat,
        ),
        text::byte_len(old(shown)@ + more@) <= 16_384 ==> final(shown)@ == old(shown)@ + more@,
        text::byte_len(old(shown)@ + more@) > 16_384 ==> text::byte_len(final(shown)@) <= 8_192,
{
    proof {
        let _ = text::law_kept_is_the_longest_end(shown@ + more@, 16_384, 8_192);
    }
    text::push_text(shown, more);
    *shown = text::keep_end(shown.as_str(), CONSOLE_LIMIT, CONSOLE_KEEP);
}

/// What the recorder does with a block of sound.
#[derive(Clone, Copy, PartialEq, Eq, Debug, Structural)]
pub enum RecorderStep {
    /// Open a file. The block is not in it yet.
    Start,
    /// Close the file.
    Stop,
    /// Write the block.
    Feed,
    /// Nothing.
    Rest,
}

/// What the recorder does, by whether a recording is wanted and whether a file is open.
pub fn recorder_step(wanted: bool, open: bool) -> (r: RecorderStep)
    ensures
        r == (if wanted && !open {
            RecorderStep::Start
        } else if !wanted && open {
            RecorderStep::Stop
        } else if wanted && open {
            RecorderStep::Feed
        } else {
            RecorderStep::Rest
        }),
{
    if wanted {
        if open {
            RecorderStep::Feed
        } else {
            RecorderStep::Start
        }
    } else if open {
        RecorderStep::Stop
    } else {
        RecorderStep::Rest
    }
}

/// How a step of the recorder went.
pub enum RecorderEvent<'a> {
    /// A file was opened.
    Opened { file: &'a str },
    /// No file could be opened.
    NotOpened { error: &'a str },
    /// The block was written.
    Written,
    /// The block could not be written.
    NotWritten { error: &'a str },
    /// The file was closed after a recording of so many microseconds.
    Closed { file: &'a str, micros: u64 },
    /// The file could not be closed.
    NotClosed { error: &'a str },
}

/// What is shown of the recorder, where it changes.
pub open spec fn recorder_text(event: RecorderEvent) -> Option<Seq<char>> {
    match event {
        RecorderEvent::Opened { file } => Some("nahrávám "@ + file@),
        RecorderEvent::NotOpened { error } => Some("nahrávání selhalo: "@ + error@),
        RecorderEvent::Written => None,
        RecorderEvent::NotWritten { error } => Some("zápis selhal: "@ + error@),
        RecorderEvent::Closed { file, micros } => Some(
            "uloženo "@ + file@ + " ("@ + text::decimal(
                text::nearest_even(micros as int, 1_000_000) as nat,
            ) + " s)"@,
        ),
        RecorderEvent::NotClosed { error } => Some("uložení selhalo: "@ + error@),
    }
}

/// What is shown of the recorder, where it changes, and whether the recording goes on being wanted
/// and the file open, given whether each was before.
pub fn after_recorder(event: &RecorderEvent, wanted: bool) -> (r: (Option<String>, bool, bool))
    ensures
        match recorder_text(*event) {
            Some(t) => r.0 is Some && r.0->0@ == t,
            None => r.0 is None,
        },
        r.1 == (wanted && !(*event is NotOpened) && !(*event is NotWritten)),
        r.2 == (*event is Opened || *event is Written),
{
    match event {
        RecorderEvent::Opened { file } => {
            let mut s = "nahrávám ".to_string();
            text::push_text(&mut s, file);
            (Some(s), wanted, true)
        },
        RecorderEvent::NotOpened { error } => {
            let mut s = "nahrávání selhalo: ".to_string();
            text::push_text(&mut s, error);
            (Some(s), false, false)
        },
        RecorderEvent::Written => (None, wanted, true),
        RecorderEvent::NotWritten { error } => {
            let mut s = "zápis selhal: ".to_string();
            text::push_text(&mut s, error);
            (Some(s), false, false)
        },
        RecorderEvent::Closed { file, micros } => {
            let mut s = "uloženo ".to_string();
            text::push_text(&mut s, file);
            text::push_text(&mut s, " (");
            text::push_decimal(&mut s, text::round_even(*micros, 1_000_000));
            text::push_text(&mut s, " s)");
            (Some(s), wanted, false)
        },
        RecorderEvent::NotClosed { error } => {
            let mut s = "uložení selhalo: ".to_string();
            text::push_text(&mut s, error);
            (Some(s), wanted, false)
        },
    }
}

/// Counts how many blocks of station data came since the last look.
#[derive(Clone, Copy, PartialEq, Eq, Debug, Structural)]
pub struct RdsLog {
    pub prev_ok: u32,
    pub prev_bad: u32,
}

impl RdsLog {
    /// A log that has not looked yet.
    pub fn new() -> (r: Self)
        ensures
            r == (RdsLog { prev_ok: 0, prev_bad: 0 }),
    {
        RdsLog { prev_ok: 0, prev_bad: 0 }
    }

    /// How many good blocks, and how many blocks in all, came since the last look. The counts run
    /// over after the highest number.
    pub fn tick(&mut self, ok: u32, bad: u32) -> (r: (u32, u64))
        ensures
            *final(self) == (RdsLog { prev_ok: ok, prev_bad: bad }),
            r.0 == (ok - old(self).prev_ok) % 0x1_0000_0000,
            r.1 == (ok - old(self).prev_ok) % 0x1_0000_0000 + (bad - old(self).prev_bad)
                % 0x1_0000_0000,
    {
        let good: u32 = ok.wrapping_sub(self.prev_ok);
        let damaged: u32 = bad.wrapping_sub(self.prev_bad);
        self.prev_ok = ok;
        self.prev_bad = bad;
        (good, good as u64 + damaged as u64)
    }
}

/// A digit of the base sixteen, in capitals.
pub open spec fn hex_digit(d: int) -> char {
    if d < 10 {
        (48 + d) as char
    } else {
        (55 + d) as char
    }
}

/// The programme identification as four digits of the base sixteen, or dashes where there is none.
pub open spec fn pi_shown(pi: Option<u16>) -> Seq<char> {
    match pi {
        Some(n) => seq![
            hex_digit(n as int / 4096),
            hex_digit(n as int / 256 % 16),
            hex_digit(n as int / 16 % 16),
            hex_digit(n as int % 16),
        ],
        None => "----"@,
    }
}

fn push_hex(s: &mut String, d: u8)
    requires
        d < 16,
    ensures
        final(s)@ == old(s)@.push(hex_digit(d as int)),
{
    if d < 10 {
        s.push((48 + d) as char);
    } else {
        s.push((55 + d) as char);
    }
}

/// The programme identification as four digits of the base sixteen, or dashes where there is none.
pub fn pi_text(pi: Option<u16>) -> (r: String)
    ensures
        r@ == pi_shown(pi),
{
    match pi {
        Some(n) => {
            let mut s = String::new();
            push_hex(&mut s, (n / 4096) as u8);
            push_hex(&mut s, (n / 256 % 16) as u8);
            push_hex(&mut s, (n / 16 % 16) as u8);
            push_hex(&mut s, (n % 16) as u8);
            assert(s@ =~= pi_shown(pi));
            s
        },
        None => "----".to_string(),
    }
}

/// What is shown while no name of a station has been read yet: how many blocks were good, of how
/// many.
pub fn rds_search_text(ok: u32, bad: u32) -> (r: String)
    ensures
        r@ == "RDS: hledám… ("@ + text::decimal(ok as nat) + "/"@ + text::decimal(
            (ok + bad) as nat,
        ) + ")"@,
{
    let mut s = "RDS: hledám… (".to_string();
    text::push_decimal(&mut s, ok as u64);
    text::push_text(&mut s, "/");
    text::push_decimal(&mut s, ok as u64 + bad as u64);
    text::push_text(&mut s, ")");
    s
}

/// How many rests are taken before a radio that failed is tried again.
pub const RETRY_RESTS: u32 = 20;

/// How long a rest is.
pub const RETRY_REST_MS: u64 = 100;

/// What follows when a radio has failed.
#[derive(Clone, Copy, PartialEq, Eq, Debug, Structural)]
pub enum RetryStep {
    Rest,
    GoOn,
}

/// What follows when a radio has failed and some rests were taken: another one, unless they were
/// enough, the program ends, or a radio is to be opened with other settings.
pub fn retry_step(rests: u32, running: bool, reopen: bool) -> (r: RetryStep)
    ensures
        r == (if rests < RETRY_RESTS && running && !reopen {
            RetryStep::Rest
        } else {
            RetryStep::GoOn
        }),
        rests >= 20 || !running || reopen <==> r == RetryStep::GoOn,
{
    if rests < RETRY_RESTS && running && !reopen {
        RetryStep::Rest
    } else {
        RetryStep::GoOn
    }
}

/// The decimation brings the rate as near to that of the sound as a whole number can: half of it away
/// at most, and a rate below it is not decimated.
pub proof fn law_decimation_is_the_nearest(rate: int)
    requires
        rate >= 0,
    ensures
        decim_for(rate) >= 1,
        rate >= 24_000 ==> -48_000 <= 2 * (48_000 * decim_for(rate) - rate) <= 48_000,
        rate < 72_000 ==> decim_for(rate) == 1,
        decim_for(48_000) == 1 && decim_for(96_000) == 2 && decim_for(192_000) == 4,
{
}

/// The spectrum is shown in the order of frequencies: one bin follows the other, round the end of the
/// transform, and the frequency of the oscillator is in the middle.
pub proof fn law_spectrum_is_in_order(i: int)
    requires
        0 <= i < 2048,
    ensures
        0 <= bin_at(i) < 2048,
        bin_at(1024) == 0,
        i + 1 < 2048 ==> bin_at(i + 1) == bin_at(i) + 1 || bin_at(i) == 2047 && bin_at(i + 1) == 0,
{
}

/// The value of a digit of the base sixteen, or nothing.
pub open spec fn hex_value(c: char) -> Option<int> {
    if '0' <= c <= '9' {
        Some(c as int - 48)
    } else if 'A' <= c <= 'F' {
        Some(c as int - 65 + 10)
    } else {
        None
    }
}

/// The identification of a programme can be read back from what is shown: four digits of the base
/// sixteen, the highest first.
pub proof fn law_shown_identification_can_be_read_back(pi: u16)
    ensures
        ({
            let s = pi_shown(Some(pi));
            &&& s.len() == 4
            &&& hex_value(s[0]) is Some && hex_value(s[1]) is Some && hex_value(s[2]) is Some
                && hex_value(s[3]) is Some
            &&& 4096 * hex_value(s[0])->0 + 256 * hex_value(s[1])->0 + 16 * hex_value(s[2])->0
                + hex_value(s[3])->0 == pi
        }),
{
    let n = pi as int;
    let (a, b, c, d) = (n / 4096, n / 256 % 16, n / 16 % 16, n % 16);
    lemma_hex_digit(a);
    lemma_hex_digit(b);
    lemma_hex_digit(c);
    lemma_hex_digit(d);
    assert(n / 256 == 16 * a + b);
    assert(n / 16 == 16 * (n / 256) + c);
    assert(n == 16 * (n / 16) + d);
}

proof fn lemma_hex_digit(d: int)
    requires
        0 <= d < 16,
    ensures
        hex_value(hex_digit(d)) == Some(d),
{
}

/// The channels of the modes: Morse is the narrowest and wideband FM the widest, and all that is
/// narrower than a sideband is allowed for Morse alone.
pub proof fn law_channels_of_the_modes(mode: Mode)
    ensures
        0 < widths(mode).0 < widths(mode).1,
        widths(Mode::Cw) == (150int, 2_000int),
        widths(Mode::Usb) == widths(Mode::Lsb),
        widths(Mode::Usb) == (400int, 4_000int),
        widths(Mode::Am) == (1_000int, 24_000int),
        widths(Mode::Nfm) == (8_000int, 20_000int),
        widths(Mode::Wfm) == (120_000int, 230_000int),
        usual_width(Mode::Cw) == 500 && usual_width(Mode::Usb) == 2_700 && usual_width(Mode::Lsb)
            == 2_700,
        usual_width(Mode::Am) == 8_000 && usual_width(Mode::Nfm) == 16_000 && usual_width(Mode::Wfm)
            == 180_000,
{
}

} // verus!
