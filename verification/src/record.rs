//! Recording of the sound to WAV: one channel of 16-bit samples.
//!
//! The header of a WAV file holds the length of the data, which is not known when the file is
//! begun. It is written with no data first, and again with the real length when the file is
//! closed.
use crate::settings;
use crate::text;
use vstd::prelude::*;

verus! {

/// The length of the header; the samples begin behind it.
pub const HEADER_LEN: u32 = 44;

/// A number in two bytes, the lower first.
pub open spec fn le16(n: int) -> Seq<u8> {
    seq![(n % 256) as u8, (n / 256 % 256) as u8]
}

/// A number in four bytes, the lowest first.
pub open spec fn le32(n: int) -> Seq<u8> {
    seq![
        (n % 256) as u8,
        (n / 256 % 256) as u8,
        (n / 65536 % 256) as u8,
        (n / 16777216 % 256) as u8,
    ]
}

/// The number that four bytes hold, the lowest first.
pub open spec fn from_le32(b: Seq<u8>) -> int {
    b[0] + 256 * b[1] + 65536 * b[2] + 16777216 * b[3]
}

/// The header of a file with `frames` samples: the form RIFF with the rest of the file's length,
/// the block "fmt " for uncompressed samples of two bytes, and the block "data" with its length.
pub open spec fn header_of(frames: int, sample_rate: int) -> Seq<u8> {
    seq![0x52u8, 0x49, 0x46, 0x46] + le32(HEADER_LEN - 8 + 2 * frames) + seq![
        0x57u8,
        0x41,
        0x56,
        0x45,
    ] + seq![0x66u8, 0x6d, 0x74, 0x20] + le32(16) + le16(1) + le16(1) + le32(sample_rate) + le32(
        2 * sample_rate,
    ) + le16(2) + le16(16) + seq![0x64u8, 0x61, 0x74, 0x61] + le32(2 * frames)
}

fn push16(out: &mut Vec<u8>, n: u16)
    ensures
        final(out)@ == old(out)@ + le16(n as int),
{
    out.push((n % 256) as u8);
    out.push((n / 256) as u8);
    assert(out@ =~= old(out)@ + le16(n as int));
}

fn push32(out: &mut Vec<u8>, n: u32)
    ensures
        final(out)@ == old(out)@ + le32(n as int),
{
    out.push((n % 256) as u8);
    out.push((n / 256 % 256) as u8);
    out.push((n / 65536 % 256) as u8);
    out.push((n / 16777216 % 256) as u8);
    assert(out@ =~= old(out)@ + le32(n as int));
}

fn push_tag(out: &mut Vec<u8>, a: u8, b: u8, c: u8, d: u8)
    ensures
        final(out)@ == old(out)@ + seq![a, b, c, d],
{
    out.push(a);
    out.push(b);
    out.push(c);
    out.push(d);
    assert(out@ =~= old(out)@ + seq![a, b, c, d]);
}

/// The two bytes of a sample, the lower first: negative samples count down from 65536.
pub open spec fn sample_bytes(v: i16) -> Seq<u8> {
    le16(
        if v < 0 {
            65536 + v
        } else {
            v as int
        },
    )
}

/// The bytes of samples.
pub open spec fn samples_bytes(s: Seq<i16>) -> Seq<u8>
    decreases s.len(),
{
    if s.len() == 0 {
        Seq::empty()
    } else {
        samples_bytes(s.drop_last()) + sample_bytes(s.last())
    }
}

/// What is known of a recording while it is written: how many samples it has so far.
#[derive(Clone, Copy, PartialEq, Eq, Debug, Structural)]
pub struct WavWriter {
    pub frames: u32,
    pub sample_rate: u32,
}

impl WavWriter {
    /// The header can tell the lengths: they fit in four bytes.
    pub open spec fn fits(&self) -> bool {
        HEADER_LEN - 8 + 2 * self.frames <= u32::MAX && 2 * self.sample_rate <= u32::MAX
    }

    /// A recording without samples.
    pub fn create(sample_rate: u32) -> (r: Self)
        ensures
            r.frames == 0,
            r.sample_rate == sample_rate,
    {
        WavWriter { frames: 0, sample_rate }
    }

    /// The header for the samples so far.
    pub fn header(&self) -> (r: Vec<u8>)
        requires
            self.fits(),
        ensures
            r@ == header_of(self.frames as int, self.sample_rate as int),
    {
        let data_len: u32 = self.frames * 2;
        let mut out: Vec<u8> = Vec::new();
        push_tag(&mut out, 0x52, 0x49, 0x46, 0x46);
        push32(&mut out, HEADER_LEN - 8 + data_len);
        push_tag(&mut out, 0x57, 0x41, 0x56, 0x45);
        push_tag(&mut out, 0x66, 0x6d, 0x74, 0x20);
        push32(&mut out, 16);
        push16(&mut out, 1);
        push16(&mut out, 1);
        push32(&mut out, self.sample_rate);
        push32(&mut out, self.sample_rate * 2);
        push16(&mut out, 2);
        push16(&mut out, 16);
        push_tag(&mut out, 0x64, 0x61, 0x74, 0x61);
        push32(&mut out, data_len);
        assert(out@ =~= header_of(self.frames as int, self.sample_rate as int));
        out
    }

    /// Takes samples into the recording; gives the bytes to write.
    pub fn write(&mut self, samples: &[i16]) -> (r: Vec<u8>)
        ensures
            r@ == samples_bytes(samples@),
            final(self).sample_rate == old(self).sample_rate,
            final(self).frames == (if old(self).frames + samples@.len() <= u32::MAX {
                old(self).frames + samples@.len()
            } else {
                u32::MAX as int
            }),
    {
        let mut out: Vec<u8> = Vec::new();
        let mut i: usize = 0;
        assert(samples@.take(0) == Seq::<i16>::empty());
        while i < samples.len()
            invariant
                i <= samples@.len(),
                out@ == samples_bytes(samples@.take(i as int)),
            decreases samples.len() - i,
        {
            let v: i16 = samples[i];
            let n: u16 = if v < 0 {
                (65536 + v as i32) as u16
            } else {
                v as u16
            };
            push16(&mut out, n);
            assert(samples@.take(i as int + 1).drop_last() == samples@.take(i as int));
            i = i + 1;
        }
        assert(samples@.take(i as int) == samples@);
        let room: u32 = u32::MAX - self.frames;
        self.frames = if samples.len() as u64 <= room as u64 {
            self.frames + samples.len() as u32
        } else {
            u32::MAX
        };
        out
    }

    /// The length of the recording in millionths of a second.
    pub fn seconds(&self) -> (r: u64)
        ensures
            r == self.frames * 1_000_000 / (if self.sample_rate == 0 {
                1
            } else {
                self.sample_rate as int
            }),
            self.sample_rate > 0 ==> r * self.sample_rate <= self.frames * 1_000_000 < (r + 1)
                * self.sample_rate,
    {
        proof {
            if self.sample_rate > 0 {
                let (n, d) = (self.frames * 1_000_000, self.sample_rate as int);
                let q = n / d;
                assert(q * d <= n < (q + 1) * d) by (nonlinear_arith)
                    requires
                        q == n / d,
                        d > 0,
                ;
            }
        }
        let rate: u64 = if self.sample_rate == 0 {
            1
        } else {
            self.sample_rate as u64
        };
        self.frames as u64 * 1_000_000 / rate
    }
}

/// Four bytes hold a number that can be read back.
pub proof fn law_le32_round_trip(n: int)
    requires
        0 <= n <= u32::MAX,
    ensures
        from_le32(le32(n)) == n,
{
    let a = n / 256;
    let b = a / 256;
    let c = b / 256;
    assert(n / 65536 == b && n / 16777216 == c && c < 256);
    assert(n == 256 * a + n % 256 && a == 256 * b + a % 256 && b == 256 * c + b % 256);
}

/// The lengths in the header are those of the file: the data block has two bytes for each sample,
/// and the form has all of the file but its first eight bytes.
pub proof fn law_header_tells_the_lengths(w: WavWriter, samples: Seq<i16>)
    requires
        w.fits(),
        w.frames == samples.len(),
    ensures
        ({
            let header = header_of(w.frames as int, w.sample_rate as int);
            let file = header + samples_bytes(samples);
            &&& header.len() == HEADER_LEN
            &&& from_le32(header.subrange(4, 8)) == file.len() - 8
            &&& from_le32(header.subrange(40, 44)) == file.len() - HEADER_LEN
            &&& from_le32(header.subrange(24, 28)) == w.sample_rate
        }),
{
    let header = header_of(w.frames as int, w.sample_rate as int);
    lemma_samples_len(samples);
    law_le32_round_trip(HEADER_LEN - 8 + 2 * w.frames);
    law_le32_round_trip(2 * w.frames);
    law_le32_round_trip(w.sample_rate as int);
    assert(header.subrange(4, 8) =~= le32(HEADER_LEN - 8 + 2 * w.frames));
    assert(header.subrange(40, 44) =~= le32(2 * w.frames));
    assert(header.subrange(24, 28) =~= le32(w.sample_rate as int));
}

proof fn lemma_samples_len(s: Seq<i16>)
    ensures
        samples_bytes(s).len() == 2 * s.len(),
    decreases s.len(),
{
    if s.len() > 0 {
        lemma_samples_len(s.drop_last());
    }
}

/// Where recordings go: below the home directory, beside the settings where there is no home, and
/// below where the program runs where there are no settings either.
pub fn default_dir(home: Option<&str>, config_home: Option<&str>) -> (r: String)
    ensures
        r@ == (match home {
            Some(h) => text::joined(text::joined(h@, "Nahrávky"@), "KnoflikSDR"@),
            None => match config_home {
                Some(b) => text::joined(text::joined(b@, "knoflik-sdr"@), "nahravky"@),
                None => "nahravky"@,
            },
        }),
{
    match home {
        Some(h) => {
            let dir = text::join_path(h, "Nahrávky");
            text::join_path(dir.as_str(), "KnoflikSDR")
        },
        None => match config_home {
            Some(b) => {
                let dir = text::join_path(b, "knoflik-sdr");
                text::join_path(dir.as_str(), "nahravky")
            },
            None => "nahravky".to_string(),
        },
    }
}

/// Without a home the recordings lie in the directory that holds the settings.
pub proof fn law_recordings_are_beside_the_settings(base: Seq<char>)
    ensures
        settings::base_of(Some(base), None) == Some(base),
        text::joined(text::joined(base, "knoflik-sdr"@), "nahravky"@) == text::joined(
            base,
            "knoflik-sdr"@,
        ) + "/nahravky"@,
        settings::config_in(base) == text::joined(base, "knoflik-sdr"@) + "/config.toml"@,
{
    reveal_strlit("knoflik-sdr");
    reveal_strlit("nahravky");
    reveal_strlit("/nahravky");
    reveal_strlit("config.toml");
    reveal_strlit("/config.toml");
    let dir = text::joined(base, "knoflik-sdr"@);
    assert(dir.last() == 'r');
    assert(dir.push('/') + "nahravky"@ =~= dir + "/nahravky"@);
    assert(dir.push('/') + "config.toml"@ =~= dir + "/config.toml"@);
}

/// The name of a recording.
pub open spec fn recording_name(stamp: Seq<char>, freq: int, mode: Seq<char>) -> Seq<char> {
    stamp + "_"@ + text::khz(freq, 0) + "kHz_"@ + mode + ".wav"@
}

/// The name of a recording that was begun at a time given as text.
pub fn file_name_at(stamp: &str, freq: i64, mode: &str) -> (r: String)
    ensures
        r@ == recording_name(stamp@, freq as int, mode@),
{
    let mut s = stamp.to_string();
    text::push_text(&mut s, "_");
    text::push_khz(&mut s, freq, 0);
    text::push_text(&mut s, "kHz_");
    text::push_text(&mut s, mode);
    text::push_text(&mut s, ".wav");
    s
}

/// A character may stand that far from the end of a stamp: a date and a time read as
/// `2024-05-31_20-15-00`, and only the year may be longer or have a sign.
pub open spec fn stamp_char(c: char, from_end: int) -> bool {
    if from_end == 3 || from_end == 6 || from_end == 12 || from_end == 15 {
        c == '-'
    } else if from_end == 9 {
        c == '_'
    } else if from_end < 15 {
        text::is_digit(c)
    } else {
        text::is_digit(c) || c == '+' || c == '-'
    }
}

/// The text has the shape of a date and a time.
pub open spec fn is_stamp(s: Seq<char>) -> bool {
    &&& s.len() >= 19
    &&& forall|i: int| 0 <= i < s.len() ==> stamp_char(#[trigger] s[i], s.len() - i)
}

/// `Local::now` of chrono, written with `format` as year, month, day, hour, minute and second. Which
/// moment that is depends on the clock and on the time zone, so only its shape is said: two digits
/// for each part, four or more for the year.
#[verifier::external_body]
fn local_stamp() -> (r: String)
    ensures
        is_stamp(r@),
{
    chrono::Local::now().format("%Y-%m-%d_%H-%M-%S").to_string()
}

/// The name of a recording that begins now: the time, the frequency in millihertz as kilohertz,
/// and the mode.
pub fn file_name(freq: i64, mode: &str) -> (r: String)
    ensures
        exists|stamp: Seq<char>|
            is_stamp(stamp) && r@ == #[trigger] recording_name(stamp, freq as int, mode@),
{
    let stamp = local_stamp();
    file_name_at(stamp.as_str(), freq, mode)
}

/// What was recorded can be read back: the two bytes of a sample at its place hold it, the lower one
/// first, and from 32768 on they stand for negative ones.
pub proof fn law_samples_can_be_read_back(s: Seq<i16>, i: int)
    requires
        0 <= i < s.len(),
    ensures
        samples_bytes(s).len() == 2 * s.len(),
        ({
            let v = samples_bytes(s)[2 * i] + 256 * samples_bytes(s)[2 * i + 1];
            s[i] == if v < 32768 {
                v
            } else {
                v - 65536
            }
        }),
    decreases s.len(),
{
    lemma_samples_len(s);
    let front = s.drop_last();
    lemma_samples_len(front);
    if i < front.len() {
        law_samples_can_be_read_back(front, i);
        assert(samples_bytes(s)[2 * i] == samples_bytes(front)[2 * i]);
        assert(samples_bytes(s)[2 * i + 1] == samples_bytes(front)[2 * i + 1]);
    } else {
        assert(samples_bytes(s)[2 * i] == sample_bytes(s[i])[0]);
        assert(samples_bytes(s)[2 * i + 1] == sample_bytes(s[i])[1]);
    }
}

/// It does not matter in what pieces a recording is written.
pub proof fn law_pieces_make_the_whole(a: Seq<i16>, b: Seq<i16>)
    ensures
        samples_bytes(a + b) == samples_bytes(a) + samples_bytes(b),
    decreases b.len(),
{
    if b.len() == 0 {
        assert(a + b =~= a);
        assert(samples_bytes(a) + samples_bytes(b) =~= samples_bytes(a));
    } else {
        law_pieces_make_the_whole(a, b.drop_last());
        assert((a + b).drop_last() =~= a + b.drop_last());
        assert(samples_bytes(a) + samples_bytes(b) =~= samples_bytes(a) + samples_bytes(
            b.drop_last(),
        ) + sample_bytes(b.last()));
    }
}

/// The header is that of a WAV file with one channel of uncompressed samples of sixteen bits, whatever
/// the rate and the length are.
#[verifier::rlimit(40)]
pub proof fn law_header_is_that_of_a_wav_file(frames: int, sample_rate: int)
    requires
        0 <= frames,
        0 <= sample_rate,
        36 + 2 * frames <= u32::MAX,
        2 * sample_rate <= u32::MAX,
    ensures
        ({
            let h = header_of(frames, sample_rate);
            &&& h.len() == 44
            &&& h.subrange(0, 4) == seq![82u8, 73, 70, 70]
            &&& from_le32(h.subrange(4, 8)) == 36 + 2 * frames
            &&& h.subrange(8, 16) == seq![87u8, 65, 86, 69, 102, 109, 116, 32]
            &&& from_le32(h.subrange(16, 20)) == 16
            &&& h.subrange(20, 24) == seq![1u8, 0, 1, 0]
            &&& from_le32(h.subrange(24, 28)) == sample_rate
            &&& from_le32(h.subrange(28, 32)) == 2 * sample_rate
            &&& h.subrange(32, 40) == seq![2u8, 0, 16, 0, 100, 97, 116, 97]
            &&& from_le32(h.subrange(40, 44)) == 2 * frames
        }),
{
    let h = header_of(frames, sample_rate);
    law_le32_round_trip(36 + 2 * frames);
    law_le32_round_trip(16);
    law_le32_round_trip(sample_rate);
    law_le32_round_trip(2 * sample_rate);
    law_le32_round_trip(2 * frames);
    assert(h.subrange(0, 4) =~= seq![82u8, 73, 70, 70]);
    assert(h.subrange(4, 8) =~= le32(36 + 2 * frames));
    assert(h.subrange(8, 16) =~= seq![87u8, 65, 86, 69, 102, 109, 116, 32]);
    assert(h.subrange(16, 20) =~= le32(16));
    assert(h.subrange(20, 24) =~= seq![1u8, 0, 1, 0]);
    assert(h.subrange(24, 28) =~= le32(sample_rate));
    assert(h.subrange(28, 32) =~= le32(2 * sample_rate));
    assert(h.subrange(32, 40) =~= seq![2u8, 0, 16, 0, 100, 97, 116, 97]);
    assert(h.subrange(40, 44) =~= le32(2 * frames));
}

} // verus!
