//! Decoders of digital modes: radio teletype and Morse code.
//!
//! What stands here begins where a tone is known to be on or off: which of the two teletype tones
//! is the stronger, or whether the key is down.
use crate::text;
use vstd::prelude::*;

verus! {

/// The decoder in use.
#[derive(Clone, Copy, PartialEq, Eq, Debug, Structural)]
pub enum Decoder {
    Off,
    Rtty,
    Cw,
}

impl Default for Decoder {
    fn default() -> (r: Decoder)
        ensures
            r == Decoder::Off,
    {
        Decoder::Off
    }
}

impl Decoder {
    /// What the decoder is called.
    pub fn label(&self) -> (r: &'static str)
        ensures
            r@ == (match *self {
                Decoder::Off => "vypnuto"@,
                Decoder::Rtty => "RTTY"@,
                Decoder::Cw => "CW"@,
            }),
    {
        match self {
            Decoder::Off => "vypnuto",
            Decoder::Rtty => "RTTY",
            Decoder::Cw => "CW",
        }
    }
}

/// The code that switches to letters.
pub const LTRS: u8 = 0x1F;

/// The code that switches to figures.
pub const FIGS: u8 = 0x1B;

/// The letters of ITA2. Zero stands for a code that prints nothing.
pub open spec fn baudot_letters() -> Seq<char> {
    seq![
        '\0', 'E', '\n', 'A', ' ', 'S', 'I', 'U',
        '\r', 'D', 'R', 'J', 'N', 'F', 'C', 'K',
        'T', 'Z', 'L', 'W', 'H', 'Y', 'P', 'Q',
        'O', 'B', 'G', '\0', 'M', 'X', 'V', '\0',
    ]
}

/// The figures of ITA2, in the American set.
pub open spec fn baudot_figures() -> Seq<char> {
    seq![
        '\0', '3', '\n', '-', ' ', '\'', '8', '7',
        '\r', '$', '4', '\'', ',', '!', ':', '(',
        '5', '"', ')', '2', '#', '6', '0', '1',
        '9', '?', '&', '\0', '.', '/', ';', '\0',
    ]
}

/// The character of a code in one of the two sets.
pub open spec fn baudot_char(figs: bool, code: u8) -> Option<char> {
    let c = if figs {
        baudot_figures()[(code & 0x1F) as int]
    } else {
        baudot_letters()[(code & 0x1F) as int]
    };
    if code & 0x1F == LTRS || code & 0x1F == FIGS || c == '\0' {
        None
    } else {
        Some(c)
    }
}

/// The set in use after a code.
pub open spec fn figs_after(figs: bool, code: u8) -> bool {
    if code & 0x1F == LTRS {
        false
    } else if code & 0x1F == FIGS {
        true
    } else {
        figs
    }
}

/// The state of a teletype: the set of characters in use.
#[derive(Clone, Copy, PartialEq, Eq, Debug, Structural)]
pub struct BaudotState {
    pub figs: bool,
}

impl BaudotState {
    /// A teletype starts with letters.
    pub fn new() -> (r: Self)
        ensures
            !r.figs,
    {
        BaudotState { figs: false }
    }

    /// Takes a code of five bits; gives the character that it prints.
    pub fn decode(&mut self, code: u8) -> (r: Option<char>)
        ensures
            r == baudot_char(old(self).figs, code),
            final(self).figs == figs_after(old(self).figs, code),
    {
        let letters: [char; 32] = [
            '\0', 'E', '\n', 'A', ' ', 'S', 'I', 'U',
            '\r', 'D', 'R', 'J', 'N', 'F', 'C', 'K',
            'T', 'Z', 'L', 'W', 'H', 'Y', 'P', 'Q',
            'O', 'B', 'G', '\0', 'M', 'X', 'V', '\0',
        ];
        let figures: [char; 32] = [
            '\0', '3', '\n', '-', ' ', '\'', '8', '7',
            '\r', '$', '4', '\'', ',', '!', ':', '(',
            '5', '"', ')', '2', '#', '6', '0', '1',
            '9', '?', '&', '\0', '.', '/', ';', '\0',
        ];
        assert(letters@ == baudot_letters());
        assert(figures@ == baudot_figures());
        assert(code & 0x1F < 32) by (bit_vector);
        let code: u8 = code & 0x1F;
        if code == LTRS {
            self.figs = false;
            None
        } else if code == FIGS {
            self.figs = true;
            None
        } else {
            let c: char = if self.figs {
                figures[code as usize]
            } else {
                letters[code as usize]
            };
            if c == '\0' {
                None
            } else {
                Some(c)
            }
        }
    }
}

/// The set that is in use after codes that came one after the other.
pub open spec fn set_after(figs: bool, codes: Seq<u8>) -> bool
    decreases codes.len(),
{
    if codes.len() == 0 {
        figs
    } else {
        figs_after(set_after(figs, codes.drop_last()), codes.last())
    }
}

/// What the last of some codes prints, in the set that the codes before it have left.
pub open spec fn last_printed(figs: bool, codes: Seq<u8>) -> Option<char> {
    baudot_char(set_after(figs, codes.drop_last()), codes.last())
}

proof fn lemma_low_bits(code: u8)
    ensures
        code & 0x1F == code % 32,
{
    assert(code & 0x1F == code % 32) by (bit_vector);
}

/// Only the two shift codes change the set in use, and neither prints anything. The upper bits of a
/// code do not matter.
pub proof fn law_only_shifts_change_the_set(figs: bool, code: u8)
    ensures
        code % 32 == 31 ==> !figs_after(figs, code),
        code % 32 == 27 ==> figs_after(figs, code),
        code % 32 != 31 && code % 32 != 27 ==> figs_after(figs, code) == figs,
        code % 32 == 31 || code % 32 == 27 ==> baudot_char(figs, code) is None,
{
    lemma_low_bits(code);
}

/// A shift holds until the next one: behind it, however many other codes come, each is read from the
/// set that it has chosen.
pub proof fn law_shift_holds(figs: bool, shift: u8, codes: Seq<u8>)
    requires
        shift % 32 == 31 || shift % 32 == 27,
        forall|i: int|
            0 <= i < codes.len() ==> (#[trigger] codes[i]) % 32 != 31 && codes[i] % 32 != 27,
    ensures
        set_after(figs, seq![shift] + codes) == (shift % 32 == 27),
        codes.len() > 0 ==> last_printed(figs, seq![shift] + codes) == baudot_char(
            shift % 32 == 27,
            codes.last(),
        ),
    decreases codes.len(),
{
    let all = seq![shift] + codes;
    law_only_shifts_change_the_set(set_after(figs, all.drop_last()), all.last());
    if codes.len() == 0 {
        assert(all.drop_last() == Seq::<u8>::empty());
        assert(all.last() == shift);
    } else {
        let front = codes.drop_last();
        assert(all.drop_last() == seq![shift] + front);
        assert(all.last() == codes.last());
        assert(codes[codes.len() - 1] == codes.last());
        assert forall|i: int| 0 <= i < front.len() implies (#[trigger] front[i]) % 32 != 31
            && front[i] % 32 != 27 by {
            assert(front[i] == codes[i]);
        }
        law_shift_holds(figs, shift, front);
    }
}

/// The codes of the letters from A to Z.
pub open spec fn letter_codes() -> Seq<u8> {
    seq![
        3u8, 25, 14, 9, 1, 13, 26, 20, 6, 11, 15, 18, 28, 12, 24, 22, 23, 10, 5, 16, 7, 30, 19, 29,
        21, 17,
    ]
}

/// The codes of the digits from 0 to 9.
pub open spec fn digit_codes() -> Seq<u8> {
    seq![22u8, 23, 19, 1, 10, 16, 21, 7, 6, 24]
}

/// Every letter and every digit has its code.
pub proof fn law_letters_and_digits_have_their_codes(i: int)
    ensures
        0 <= i < 26 ==> baudot_char(false, letter_codes()[i]) == Some((65 + i) as char),
        0 <= i < 10 ==> baudot_char(true, digit_codes()[i]) == Some((48 + i) as char),
{
    if 0 <= i < 26 {
        lemma_low_bits(letter_codes()[i]);
    }
    if 0 <= i < 10 {
        lemma_low_bits(digit_codes()[i]);
    }
}

/// Space, the new line and the return of the carriage are the same in both sets, and the code of no
/// holes prints nothing.
pub proof fn law_both_sets_share_the_spaces(figs: bool)
    ensures
        baudot_char(figs, 4) == Some(' '),
        baudot_char(figs, 2) == Some('\n'),
        baudot_char(figs, 8) == Some('\r'),
        baudot_char(figs, 0) is None,
{
    lemma_low_bits(4);
    lemma_low_bits(2);
    lemma_low_bits(8);
    lemma_low_bits(0);
}

/// The signs of punctuation have their codes among the figures, and in both sets only the lowest five
/// bits of a code count.
pub proof fn law_signs_have_their_codes(figs: bool, code: u8)
    ensures
        baudot_char(true, 3) == Some('-'),
        baudot_char(true, 5) == Some('\''),
        baudot_char(true, 9) == Some('$'),
        baudot_char(true, 11) == Some('\''),
        baudot_char(true, 12) == Some(','),
        baudot_char(true, 13) == Some('!'),
        baudot_char(true, 14) == Some(':'),
        baudot_char(true, 15) == Some('('),
        baudot_char(true, 17) == Some('"'),
        baudot_char(true, 18) == Some(')'),
        baudot_char(true, 20) == Some('#'),
        baudot_char(true, 25) == Some('?'),
        baudot_char(true, 26) == Some('&'),
        baudot_char(true, 28) == Some('.'),
        baudot_char(true, 29) == Some('/'),
        baudot_char(true, 30) == Some(';'),
        baudot_char(figs, code) == baudot_char(figs, (code % 32) as u8),
{
    lemma_low_bits(3);
    lemma_low_bits(5);
    lemma_low_bits(9);
    lemma_low_bits(11);
    lemma_low_bits(12);
    lemma_low_bits(13);
    lemma_low_bits(14);
    lemma_low_bits(15);
    lemma_low_bits(17);
    lemma_low_bits(18);
    lemma_low_bits(20);
    lemma_low_bits(25);
    lemma_low_bits(26);
    lemma_low_bits(28);
    lemma_low_bits(29);
    lemma_low_bits(30);
    lemma_low_bits(code);
    lemma_low_bits((code % 32) as u8);
}

/// Settings of radio teletype.
#[derive(Clone, Copy, PartialEq, Eq, Debug, Structural)]
pub struct RttyConfig {
    /// The speed in hundredths of a baud.
    pub centibaud: u32,
    /// The distance of the two tones in hundredths of a hertz.
    pub shift_centihz: u32,
    /// Mark and space are exchanged; both are found on the air.
    pub reverse: bool,
}

impl Default for RttyConfig {
    /// The standard of radio amateurs: 45.45 baud and a shift of 170 Hz.
    fn default() -> (r: RttyConfig)
        ensures
            r == (RttyConfig { centibaud: 4545, shift_centihz: 17000, reverse: false }),
    {
        RttyConfig { centibaud: 4545, shift_centihz: 17000, reverse: false }
    }
}

impl RttyConfig {
    /// Where the mark and the space tone lie from the middle, in millihertz.
    pub fn tones(&self) -> (r: (i64, i64))
        ensures
            r.0 == (if self.reverse {
                -5 * self.shift_centihz
            } else {
                5 * self.shift_centihz
            }),
            r.1 == -r.0,
            !self.reverse ==> r.0 - r.1 == 10 * self.shift_centihz,
            self.reverse ==> r.1 - r.0 == 10 * self.shift_centihz,
    {
        let half: i64 = 5 * self.shift_centihz as i64;
        if self.reverse {
            (-half, half)
        } else {
            (half, -half)
        }
    }
}

/// The state of a teletype decoder between two samples.
#[derive(Clone, Copy, PartialEq, Eq, Debug, Structural)]
pub struct RttyState {
    /// A character is being received.
    pub rx: bool,
    /// Samples since the start bit began.
    pub n: u64,
    /// The bit that is expected: 0 for the start bit, 1 to 5 for data, 6 for the stop bit.
    pub next_bit: u8,
    /// The data bits so far, the lowest first.
    pub code: u8,
    /// The tone of the last sample was mark.
    pub prev_mark: bool,
    pub baudot: BaudotState,
}

/// At `n` samples the middle of bit `k` is reached; a bit lasts `100 * rate / centibaud` samples.
pub open spec fn middle_reached(rate: int, centibaud: int, n: int, k: int) -> bool {
    2 * centibaud * n >= 100 * rate * (2 * k + 1)
}

impl RttyState {
    /// Before the first sample: at rest, which is mark.
    pub open spec fn idle() -> RttyState {
        RttyState {
            rx: false,
            n: 0,
            next_bit: 0,
            code: 0,
            prev_mark: true,
            baudot: BaudotState { figs: false },
        }
    }

    /// The expected bit is one that exists, and its middle is not much behind.
    pub open spec fn valid(self, rate: int, centibaud: int) -> bool {
        &&& self.next_bit <= 6
        &&& self.rx ==> 2 * centibaud * self.n < 100 * rate * (2 * self.next_bit + 1) + 2
            * centibaud * (self.next_bit + 1)
    }

    /// The state after a sample. A character begins where mark turns to space; from there each bit
    /// is taken in its middle. A start bit that is not space was noise.
    pub open spec fn after(self, rate: int, centibaud: int, mark: bool) -> RttyState {
        let next = RttyState { prev_mark: mark, ..self };
        if !self.rx {
            if self.prev_mark && !mark {
                RttyState { rx: true, n: 0, next_bit: 0, code: 0, ..next }
            } else {
                next
            }
        } else {
            let next = RttyState { n: (self.n + 1) as u64, ..next };
            if !middle_reached(rate, centibaud, self.n + 1, self.next_bit as int) {
                next
            } else if self.next_bit == 0 {
                if mark {
                    RttyState { rx: false, ..next }
                } else {
                    RttyState { next_bit: 1, ..next }
                }
            } else if self.next_bit <= 5 {
                RttyState {
                    next_bit: (self.next_bit + 1) as u8,
                    code: if mark {
                        self.code | (1u8 << ((self.next_bit - 1) as u8))
                    } else {
                        self.code
                    },
                    ..next
                }
            } else {
                RttyState {
                    rx: false,
                    baudot: BaudotState {
                        figs: if mark {
                            figs_after(self.baudot.figs, self.code)
                        } else {
                            self.baudot.figs
                        },
                    },
                    ..next
                }
            }
        }
    }

    /// The character that a sample completes: its stop bit must be mark.
    pub open spec fn printed(self, rate: int, centibaud: int, mark: bool) -> Option<char> {
        if self.rx && self.next_bit == 6 && mark && middle_reached(
            rate,
            centibaud,
            self.n + 1,
            6,
        ) {
            baudot_char(self.baudot.figs, self.code)
        } else {
            None
        }
    }
}

/// A decoder of radio teletype, behind the two tone filters.
pub struct RttyDecoder {
    cfg: RttyConfig,
    rate: u32,
    state: RttyState,
}

impl View for RttyDecoder {
    type V = RttyState;

    closed spec fn view(&self) -> RttyState {
        self.state
    }
}

impl RttyDecoder {
    /// The sample rate.
    pub closed spec fn rate(&self) -> int {
        self.rate as int
    }

    /// The settings.
    pub closed spec fn settings(&self) -> RttyConfig {
        self.cfg
    }

    /// The speed is not zero, and the state is valid.
    pub closed spec fn wf(&self) -> bool {
        self.cfg.centibaud > 0 && self.state.valid(self.rate as int, self.cfg.centibaud as int)
    }

    /// A decoder for a sample rate in hertz.
    pub fn new(rate: u32, cfg: RttyConfig) -> (r: Self)
        requires
            cfg.centibaud > 0,
        ensures
            r.wf(),
            r@ == RttyState::idle(),
            r.rate() == rate,
            r.settings() == cfg,
    {
        RttyDecoder {
            cfg,
            rate,
            state: RttyState {
                rx: false,
                n: 0,
                next_bit: 0,
                code: 0,
                prev_mark: true,
                baudot: BaudotState::new(),
            },
        }
    }

    /// The settings.
    pub fn config(&self) -> (r: RttyConfig)
        ensures
            r == self.settings(),
    {
        self.cfg
    }

    /// Takes a sample, mark or space; gives the character that it completes.
    pub fn push(&mut self, is_mark: bool) -> (r: Option<char>)
        requires
            old(self).wf(),
        ensures
            final(self).wf(),
            final(self).rate() == old(self).rate(),
            final(self).settings() == old(self).settings(),
            final(self)@ == old(self)@.after(
                old(self).rate(),
                old(self).settings().centibaud as int,
                is_mark,
            ),
            r == old(self)@.printed(
                old(self).rate(),
                old(self).settings().centibaud as int,
                is_mark,
            ),
    {
        let was_mark: bool = self.state.prev_mark;
        self.state.prev_mark = is_mark;
        if !self.state.rx {
            if was_mark && !is_mark {
                self.state.rx = true;
                self.state.n = 0;
                self.state.next_bit = 0;
                self.state.code = 0;
                assert(2 * self.cfg.centibaud * 0 == 0) by (nonlinear_arith);
            }
            return None;
        }
        proof {
            lemma_samples_are_bounded(
                self.rate as int,
                self.cfg.centibaud as int,
                self.state.n as int,
                self.state.next_bit as int,
            );
        }
        self.state.n = self.state.n + 1;
        let reached: bool = 2 * self.cfg.centibaud as u64 * self.state.n >= 100 * self.rate as u64
            * (2 * self.state.next_bit as u64 + 1);
        if !reached {
            return None;
        }
        let k: u8 = self.state.next_bit;
        if k == 0 {
            if is_mark {
                self.state.rx = false;
                return None;
            }
        } else if k <= 5 {
            if is_mark {
                self.state.code = self.state.code | (1u8 << (k - 1));
            }
        } else {
            self.state.rx = false;
            if is_mark {
                return self.state.baudot.decode(self.state.code);
            }
            return None;
        }
        self.state.next_bit = k + 1;
        None
    }
}

proof fn lemma_samples_are_bounded(rate: int, centibaud: int, n: int, k: int)
    by (nonlinear_arith)
    requires
        0 <= rate < 0x1_0000_0000,
        0 < centibaud < 0x1_0000_0000,
        0 <= n,
        0 <= k <= 6,
        2 * centibaud * n < 100 * rate * (2 * k + 1) + 2 * centibaud * (k + 1),
    ensures
        n < 0x1000_0000_0000,
        2 * centibaud * (n + 1) < 0x1000_0000_0000,
        2 * centibaud * (n + 1) < 100 * rate * (2 * (k + 1) + 1) + 2 * centibaud * (k + 2),
        100 * rate * (2 * k + 1) < 0x1000_0000_0000,
{
}

/// The state after samples.
pub open spec fn rtty_after(st: RttyState, rate: int, centibaud: int, s: Seq<bool>) -> RttyState
    decreases s.len(),
{
    if s.len() == 0 {
        st
    } else {
        rtty_after(st, rate, centibaud, s.drop_last()).after(rate, centibaud, s.last())
    }
}

/// The text that samples print.
pub open spec fn rtty_text(st: RttyState, rate: int, centibaud: int, s: Seq<bool>) -> Seq<char>
    decreases s.len(),
{
    if s.len() == 0 {
        Seq::empty()
    } else {
        let before = rtty_text(st, rate, centibaud, s.drop_last());
        match rtty_after(st, rate, centibaud, s.drop_last()).printed(rate, centibaud, s.last()) {
            Some(c) => before.push(c),
            None => before,
        }
    }
}

/// The first sample at which the middle of bit `k` is reached.
pub open spec fn middle(rate: int, centibaud: int, k: int) -> int {
    (100 * rate * (2 * k + 1) + 2 * centibaud - 1) / (2 * centibaud)
}

/// Bit `k` of a character that carries `code`: the start bit is space, then the five bits come with
/// the lowest first, and the stop bit is mark.
pub open spec fn rtty_bit(code: u8, k: int) -> bool {
    if k == 0 {
        false
    } else if k <= 5 {
        code & (1u8 << ((k - 1) as u8)) != 0
    } else {
        true
    }
}

/// The samples carry a character: space comes first, and in the middle of each bit is the bit.
pub open spec fn carries(s: Seq<bool>, rate: int, centibaud: int, code: u8) -> bool {
    &&& s.len() == middle(rate, centibaud, 6) + 1
    &&& !s[0]
    &&& forall|k: int|
        0 <= k <= 6 ==> s[#[trigger] middle(rate, centibaud, k)] == rtty_bit(code, k)
}

proof fn lemma_middle(rate: int, centibaud: int, n: int, k: int)
    requires
        rate > 0,
        0 < centibaud <= 100 * rate,
        0 <= k,
    ensures
        middle_reached(rate, centibaud, n, k) <==> n >= middle(rate, centibaud, k),
        middle(rate, centibaud, k) >= 1,
        middle(rate, centibaud, k + 1) >= middle(rate, centibaud, k) + 1,
{
    let t = 100 * rate * (2 * k + 1);
    let b = 2 * centibaud;
    let m = middle(rate, centibaud, k);
    assert(t >= 100 * rate) by (nonlinear_arith)
        requires
            t == 100 * rate * (2 * k + 1),
            rate > 0,
            k >= 0,
    ;
    assert(b * m >= t && b * (m - 1) < t) by (nonlinear_arith)
        requires
            m == (t + b - 1) / b,
            b > 0,
    ;
    assert(b * n >= t <==> n >= m) by (nonlinear_arith)
        requires
            b * m >= t,
            b * (m - 1) < t,
            b > 0,
    ;
    assert(m >= 1) by (nonlinear_arith)
        requires
            b * m >= t,
            t > 0,
            b > 0,
    ;
    let t2 = 100 * rate * (2 * (k + 1) + 1);
    let m2 = middle(rate, centibaud, k + 1);
    assert(t2 == t + 200 * rate) by (nonlinear_arith)
        requires
            t == 100 * rate * (2 * k + 1),
            t2 == 100 * rate * (2 * (k + 1) + 1),
    ;
    assert(b * m2 >= t2) by (nonlinear_arith)
        requires
            m2 == (t2 + b - 1) / b,
            b > 0,
    ;
    assert(m2 > m) by (nonlinear_arith)
        requires
            b * m2 >= t + b,
            b * (m - 1) < t,
            b > 0,
    ;
}

/// The bits of a code below bit `k` of its character.
spec fn bits_before(code: u8, k: int) -> u8 {
    if k <= 1 {
        0
    } else {
        code & (((1u8 << ((k - 1) as u8)) - 1) as u8)
    }
}

proof fn lemma_bits_before(code: u8, k: u8)
    requires
        1 <= k <= 5,
        code < 32,
    ensures
        bits_before(code, k + 1) == (if rtty_bit(code, k as int) {
            bits_before(code, k as int) | (1u8 << ((k - 1) as u8))
        } else {
            bits_before(code, k as int)
        }),
        bits_before(code, 6) == code,
{
    let j = (k - 1) as u8;
    assert(code & (((1u8 << k) - 1) as u8) == (if code & (1u8 << j) != 0 {
        (code & (((1u8 << j) - 1) as u8)) | (1u8 << j)
    } else {
        code & (((1u8 << j) - 1) as u8)
    }) && code & (((1u8 << 0) - 1) as u8) == 0 && code & (((1u8 << 5) - 1) as u8) == code)
        by (bit_vector)
        requires
            k <= 5,
            code < 32,
            j == k - 1,
    ;
}

/// While a character comes in, the decoder has the bits whose middles have passed.
#[verifier::rlimit(40)]
proof fn lemma_character_comes(
    st: RttyState,
    rate: int,
    centibaud: int,
    s: Seq<bool>,
    code: u8,
    j: int,
    k: int,
)
    requires
        rate > 0,
        0 < centibaud <= 100 * rate,
        middle(rate, centibaud, 6) < u64::MAX,
        code < 32,
        carries(s, rate, centibaud, code),
        !st.rx && st.prev_mark,
        0 <= k <= 6,
        0 <= j < middle(rate, centibaud, k),
        k == 0 || middle(rate, centibaud, k - 1) <= j,
        j < s.len(),
    ensures
        rtty_after(st, rate, centibaud, s.take(j + 1)) == (RttyState {
            rx: true,
            n: j as u64,
            next_bit: k as u8,
            code: bits_before(code, k),
            prev_mark: s[j],
            baudot: st.baudot,
        }),
        rtty_text(st, rate, centibaud, s.take(j + 1)) == Seq::<char>::empty(),
    decreases j,
{
    assert(s.take(j + 1).drop_last() == s.take(j));
    assert(s.take(j + 1).last() == s[j]);
    lemma_middle(rate, centibaud, j, k);
    if k > 0 {
        lemma_middle(rate, centibaud, j, k - 1);
    }
    lemma_middles_grow(rate, centibaud, k, 6);
    if j == 0 {
        assert(k == 0);
        assert(s.take(0) == Seq::<bool>::empty());
        reveal_with_fuel(rtty_after, 2);
        reveal_with_fuel(rtty_text, 2);
    } else if k > 0 && j == middle(rate, centibaud, k - 1) {
        if k > 1 {
            lemma_middle(rate, centibaud, j, k - 2);
        }
        lemma_character_comes(st, rate, centibaud, s, code, j - 1, k - 1);
        assert(s[middle(rate, centibaud, k - 1)] == rtty_bit(code, k - 1));
        if k > 1 {
            lemma_bits_before(code, (k - 1) as u8);
        }
    } else {
        lemma_character_comes(st, rate, centibaud, s, code, j - 1, k);
    }
}

proof fn lemma_middles_grow(rate: int, centibaud: int, k: int, l: int)
    requires
        rate > 0,
        0 < centibaud <= 100 * rate,
        0 <= k <= l,
    ensures
        middle(rate, centibaud, k) + (l - k) <= middle(rate, centibaud, l),
    decreases l - k,
{
    if k < l {
        lemma_middle(rate, centibaud, 0, k);
        lemma_middles_grow(rate, centibaud, k + 1, l);
    }
}

/// What is sent is printed: a decoder at rest, given samples that carry a code, prints the
/// character of that code, nothing before it, and is at rest again. A bit must last a sample at
/// least.
pub proof fn law_character_is_printed(
    st: RttyState,
    rate: int,
    centibaud: int,
    s: Seq<bool>,
    code: u8,
)
    requires
        rate > 0,
        0 < centibaud <= 100 * rate,
        middle(rate, centibaud, 6) < u64::MAX,
        code < 32,
        carries(s, rate, centibaud, code),
        !st.rx && st.prev_mark,
    ensures
        rtty_text(st, rate, centibaud, s) == (match baudot_char(st.baudot.figs, code) {
            Some(c) => seq![c],
            None => Seq::<char>::empty(),
        }),
        ({
            let t = rtty_after(st, rate, centibaud, s);
            !t.rx && t.prev_mark && t.baudot.figs == figs_after(st.baudot.figs, code)
        }),
{
    let j = middle(rate, centibaud, 6);
    lemma_middle(rate, centibaud, j, 5);
    lemma_middle(rate, centibaud, j, 6);
    lemma_character_comes(st, rate, centibaud, s, code, j - 1, 6);
    lemma_bits_before(code, 5);
    assert(s.take(j) == s.drop_last());
    assert(s[middle(rate, centibaud, 6)] == rtty_bit(code, 6));
    assert(Seq::<char>::empty().push(baudot_char(st.baudot.figs, code)->0) == seq![
        baudot_char(st.baudot.figs, code)->0,
    ]);
}

/// What the line carries during bit `k` of a character: a start bit of space, the five bits of the
/// code with the lowest first, and mark from then on.
pub open spec fn line_bit(code: int, k: int) -> bool {
    if k <= 0 {
        false
    } else if k == 1 {
        code % 2 == 1
    } else if k == 2 {
        code / 2 % 2 == 1
    } else if k == 3 {
        code / 4 % 2 == 1
    } else if k == 4 {
        code / 8 % 2 == 1
    } else if k == 5 {
        code / 16 % 2 == 1
    } else {
        true
    }
}

proof fn lemma_line_bit(code: u8, k: int)
    requires
        code < 32,
        0 <= k <= 6,
    ensures
        line_bit(code as int, k) == rtty_bit(code, k),
{
    assert((code & (1u8 << 0) != 0) == (code % 2 == 1) && (code & (1u8 << 1) != 0) == (code / 2 % 2
        == 1) && (code & (1u8 << 2) != 0) == (code / 4 % 2 == 1) && (code & (1u8 << 3) != 0) == (code
        / 8 % 2 == 1) && (code & (1u8 << 4) != 0) == (code / 16 % 2 == 1)) by (bit_vector);
}

/// The middle of a bit lies in that bit, where a bit lasts two samples at least.
proof fn lemma_middle_is_inside(rate: int, centibaud: int, k: int)
    requires
        rate > 0,
        0 < 2 * centibaud <= 100 * rate,
        0 <= k,
    ensures
        middle(rate, centibaud, k) * centibaud / (100 * rate) == k,
        2 * centibaud * middle(rate, centibaud, k) >= 100 * rate * (2 * k + 1),
        2 * centibaud * (middle(rate, centibaud, k) - 1) < 100 * rate * (2 * k + 1),
{
    let t = 100 * rate * (2 * k + 1);
    let b = 2 * centibaud;
    let m = middle(rate, centibaud, k);
    let u = 100 * rate;
    assert(b * m >= t && b * (m - 1) < t) by (nonlinear_arith)
        requires
            m == (t + b - 1) / b,
            b > 0,
    ;
    assert(t == 2 * (u * k) + u) by (nonlinear_arith)
        requires
            t == u * (2 * k + 1),
    ;
    let x = m * centibaud;
    assert(2 * x == b * m && b * (m - 1) == b * m - b) by (nonlinear_arith)
        requires
            x == m * centibaud,
            b == 2 * centibaud,
    ;
    assert(u * k <= x < u * k + u);
    assert(x / u == k) by (nonlinear_arith)
        requires
            u * k <= x < u * k + u,
            u > 0,
    ;
}

/// Mark after mark leaves a decoder at rest and prints nothing.
proof fn lemma_mark_is_rest(st: RttyState, rate: int, centibaud: int, s: Seq<bool>)
    requires
        !st.rx && st.prev_mark,
        forall|i: int| 0 <= i < s.len() ==> s[i],
    ensures
        rtty_after(st, rate, centibaud, s) == st,
        rtty_text(st, rate, centibaud, s) == Seq::<char>::empty(),
    decreases s.len(),
{
    if s.len() > 0 {
        lemma_mark_is_rest(st, rate, centibaud, s.drop_last());
        assert(s[s.len() - 1]);
    }
}

proof fn lemma_rtty_concat(st: RttyState, rate: int, centibaud: int, a: Seq<bool>, b: Seq<bool>)
    ensures
        rtty_after(st, rate, centibaud, a + b) == rtty_after(
            rtty_after(st, rate, centibaud, a),
            rate,
            centibaud,
            b,
        ),
        rtty_text(st, rate, centibaud, a + b) == rtty_text(st, rate, centibaud, a) + rtty_text(
            rtty_after(st, rate, centibaud, a),
            rate,
            centibaud,
            b,
        ),
    decreases b.len(),
{
    if b.len() == 0 {
        assert(a + b == a);
        assert(rtty_text(st, rate, centibaud, a) + Seq::<char>::empty() == rtty_text(
            st,
            rate,
            centibaud,
            a,
        ));
    } else {
        lemma_rtty_concat(st, rate, centibaud, a, b.drop_last());
        assert((a + b).drop_last() == a + b.drop_last());
    }
}

/// A line that carries a character is read, at any speed: where each sample is what the line carries
/// at its time, a bit lasting `100 * rate / centibaud` samples, and the samples reach past the middle
/// of the stop bit, the character of the code is printed and nothing else. How long the line then
/// rests does not matter.
#[verifier::rlimit(40)]
pub proof fn law_line_is_read(st: RttyState, rate: int, centibaud: int, s: Seq<bool>, code: u8)
    requires
        rate > 0,
        0 < 2 * centibaud <= 100 * rate,
        1300 * rate + 2 * centibaud < u64::MAX,
        code < 32,
        !st.rx && st.prev_mark,
        forall|i: int|
            0 <= i < s.len() ==> #[trigger] s[i] == line_bit(
                code as int,
                i * centibaud / (100 * rate),
            ),
        2 * centibaud * (s.len() - 1) >= 1300 * rate,
    ensures
        rtty_text(st, rate, centibaud, s) == (match baudot_char(st.baudot.figs, code) {
            Some(c) => seq![c],
            None => Seq::<char>::empty(),
        }),
        ({
            let t = rtty_after(st, rate, centibaud, s);
            &&& !t.rx
            &&& t.prev_mark
            &&& code % 32 == 27 ==> t.baudot.figs
            &&& code % 32 == 31 ==> !t.baudot.figs
            &&& code % 32 != 27 && code % 32 != 31 ==> t.baudot.figs == st.baudot.figs
        }),
{
    let m = middle(rate, centibaud, 6);
    lemma_middle_is_inside(rate, centibaud, 6);
    assert(100 * rate * (2 * 6 + 1) == 1300 * rate) by (nonlinear_arith);
    assert(m <= s.len() - 1) by (nonlinear_arith)
        requires
            2 * centibaud * (m - 1) < 1300 * rate,
            2 * centibaud * (s.len() - 1) >= 1300 * rate,
            centibaud > 0,
    ;
    assert(m < u64::MAX) by (nonlinear_arith)
        requires
            2 * centibaud * (m - 1) < 1300 * rate,
            1300 * rate + 2 * centibaud < u64::MAX,
            centibaud > 0,
    ;
    lemma_middles_grow(rate, centibaud, 0, 6);
    lemma_middle(rate, centibaud, 0, 0);
    let head = s.take(m + 1);
    let rest = s.skip(m + 1);
    assert(head + rest == s);
    assert forall|k: int| 0 <= k <= 6 implies head[#[trigger] middle(rate, centibaud, k)]
        == rtty_bit(code, k) by {
        lemma_middle_is_inside(rate, centibaud, k);
        lemma_middles_grow(rate, centibaud, k, 6);
        lemma_middles_grow(rate, centibaud, 0, k);
        lemma_line_bit(code, k);
        assert(s[middle(rate, centibaud, k)] == head[middle(rate, centibaud, k)]);
    }
    assert(!head[0]) by {
        assert(s[0] == line_bit(code as int, 0 * centibaud / (100 * rate)));
        assert(0int / (100 * rate) == 0) by (nonlinear_arith)
            requires
                rate > 0,
        ;
    }
    law_character_is_printed(st, rate, centibaud, head, code);
    law_only_shifts_change_the_set(st.baudot.figs, code);
    lemma_rtty_concat(st, rate, centibaud, head, rest);
    let t = rtty_after(st, rate, centibaud, head);
    assert forall|i: int| 0 <= i < rest.len() implies rest[i] by {
        assert(rest[i] == s[i + m + 1]);
        let x = (i + m + 1) * centibaud;
        assert(x / (100 * rate) >= 6) by (nonlinear_arith)
            requires
                x == (i + m + 1) * centibaud,
                i >= 0,
                2 * centibaud * m >= 1300 * rate,
                centibaud > 0,
                rate > 0,
        ;
    }
    lemma_mark_is_rest(t, rate, centibaud, rest);
    assert(rtty_text(st, rate, centibaud, head) + Seq::<char>::empty() == rtty_text(
        st,
        rate,
        centibaud,
        head,
    ));
}

/// The samples are those of a line that carries a code, from the start bit until past the middle of
/// the stop bit at least.
pub open spec fn carries_in_time(s: Seq<bool>, rate: int, centibaud: int, code: u8) -> bool {
    &&& forall|i: int|
        0 <= i < s.len() ==> #[trigger] s[i] == line_bit(
            code as int,
            i * centibaud / (100 * rate),
        )
    &&& 2 * centibaud * (s.len() - 1) >= 1300 * rate
}

/// Samples that come one part after the other.
pub open spec fn in_turn(parts: Seq<Seq<bool>>) -> Seq<bool>
    decreases parts.len(),
{
    if parts.len() == 0 {
        Seq::empty()
    } else {
        in_turn(parts.drop_last()) + parts.last()
    }
}

/// What codes print one after the other, each in the set that those before it have left.
pub open spec fn teletyped(figs: bool, codes: Seq<u8>) -> Seq<char>
    decreases codes.len(),
{
    if codes.len() == 0 {
        Seq::empty()
    } else {
        match last_printed(figs, codes) {
            Some(c) => teletyped(figs, codes.drop_last()).push(c),
            None => teletyped(figs, codes.drop_last()),
        }
    }
}

/// A whole message is read: codes that come over the line one after the other, with any rest between
/// them, are printed in their order, each in the set that the shifts before it have left.
#[verifier::rlimit(40)]
pub proof fn law_message_is_read(
    st: RttyState,
    rate: int,
    centibaud: int,
    parts: Seq<Seq<bool>>,
    codes: Seq<u8>,
)
    requires
        rate > 0,
        0 < 2 * centibaud <= 100 * rate,
        1300 * rate + 2 * centibaud < u64::MAX,
        !st.rx && st.prev_mark,
        parts.len() == codes.len(),
        forall|i: int|
            0 <= i < codes.len() ==> (#[trigger] codes[i]) < 32 && carries_in_time(
                parts[i],
                rate,
                centibaud,
                codes[i],
            ),
    ensures
        rtty_text(st, rate, centibaud, in_turn(parts)) == teletyped(st.baudot.figs, codes),
        ({
            let t = rtty_after(st, rate, centibaud, in_turn(parts));
            !t.rx && t.prev_mark && t.baudot.figs == set_after(st.baudot.figs, codes)
        }),
    decreases parts.len(),
{
    if parts.len() > 0 {
        let (p, c) = (parts.drop_last(), codes.drop_last());
        assert forall|i: int| 0 <= i < c.len() implies (#[trigger] c[i]) < 32 && carries_in_time(
            p[i],
            rate,
            centibaud,
            c[i],
        ) by {
            assert(c[i] == codes[i] && p[i] == parts[i]);
        }
        law_message_is_read(st, rate, centibaud, p, c);
        let last = codes.len() - 1;
        assert(codes[last] < 32 && carries_in_time(parts[last], rate, centibaud, codes[last]));
        let t = rtty_after(st, rate, centibaud, in_turn(p));
        law_line_is_read(t, rate, centibaud, parts.last(), codes.last());
        lemma_rtty_concat(st, rate, centibaud, in_turn(p), parts.last());
        law_only_shifts_change_the_set(t.baudot.figs, codes.last());
        match baudot_char(t.baudot.figs, codes.last()) {
            Some(x) => {
                assert(teletyped(st.baudot.figs, c) + seq![x] =~= teletyped(
                    st.baudot.figs,
                    c,
                ).push(x));
            },
            None => {
                assert(teletyped(st.baudot.figs, c) + Seq::<char>::empty() =~= teletyped(
                    st.baudot.figs,
                    c,
                ));
            },
        }
    }
}

/// A character without its stop bit is thrown away: where the line is not mark in the middle of the
/// stop bit, nothing is printed, the set stays, and the decoder waits for the next start.
pub proof fn law_character_without_stop_is_dropped(st: RttyState, rate: int, centibaud: int)
    requires
        st.rx,
        st.next_bit == 6,
        2 * centibaud * (st.n + 1) >= 1300 * rate,
    ensures
        st.printed(rate, centibaud, false) is None,
        !st.after(rate, centibaud, false).rx,
        st.after(rate, centibaud, false).baudot == st.baudot,
{
    assert(100 * rate * (2 * 6 + 1) == 1300 * rate) by (nonlinear_arith);
}

/// A character begins where the line falls from mark to space, and nowhere else; nothing is printed
/// there.
pub proof fn law_only_a_falling_line_begins_a_character(
    st: RttyState,
    rate: int,
    centibaud: int,
    mark: bool,
)
    requires
        !st.rx,
    ensures
        st.after(rate, centibaud, mark).rx <==> st.prev_mark && !mark,
        st.after(rate, centibaud, mark).baudot == st.baudot,
        st.after(rate, centibaud, mark).prev_mark == mark,
        st.printed(rate, centibaud, mark) is None,
        !RttyState::idle().rx && RttyState::idle().prev_mark && !RttyState::idle().baudot.figs,
{
}

/// A dip that is over before the middle of the start bit is noise: the decoder is at rest again, and
/// nothing was printed.
pub proof fn law_short_dip_is_noise(st: RttyState, rate: int, centibaud: int)
    requires
        st.rx,
        st.next_bit == 0,
    ensures
        2 * centibaud * (st.n + 1) >= 100 * rate ==> !st.after(rate, centibaud, true).rx,
        2 * centibaud * (st.n + 1) < 100 * rate ==> st.after(rate, centibaud, true).rx,
        st.printed(rate, centibaud, true) is None,
        st.after(rate, centibaud, true).baudot == st.baudot,
{
    assert(100 * rate * (2 * 0 + 1) == 100 * rate);
}

/// The Morse code of a character: a full stop for a dot, a hyphen for a dash.
pub open spec fn morse_code(c: char) -> Option<Seq<char>> {
    if c == 'A' {
        Some(".-"@)
    } else if c == 'B' {
        Some("-..."@)
    } else if c == 'C' {
        Some("-.-."@)
    } else if c == 'D' {
        Some("-.."@)
    } else if c == 'E' {
        Some("."@)
    } else if c == 'F' {
        Some("..-."@)
    } else if c == 'G' {
        Some("--."@)
    } else if c == 'H' {
        Some("...."@)
    } else if c == 'I' {
        Some(".."@)
    } else if c == 'J' {
        Some(".---"@)
    } else if c == 'K' {
        Some("-.-"@)
    } else if c == 'L' {
        Some(".-.."@)
    } else if c == 'M' {
        Some("--"@)
    } else if c == 'N' {
        Some("-."@)
    } else if c == 'O' {
        Some("---"@)
    } else if c == 'P' {
        Some(".--."@)
    } else if c == 'Q' {
        Some("--.-"@)
    } else if c == 'R' {
        Some(".-."@)
    } else if c == 'S' {
        Some("..."@)
    } else if c == 'T' {
        Some("-"@)
    } else if c == 'U' {
        Some("..-"@)
    } else if c == 'V' {
        Some("...-"@)
    } else if c == 'W' {
        Some(".--"@)
    } else if c == 'X' {
        Some("-..-"@)
    } else if c == 'Y' {
        Some("-.--"@)
    } else if c == 'Z' {
        Some("--.."@)
    } else if c == '0' {
        Some("-----"@)
    } else if c == '1' {
        Some(".----"@)
    } else if c == '2' {
        Some("..---"@)
    } else if c == '3' {
        Some("...--"@)
    } else if c == '4' {
        Some("....-"@)
    } else if c == '5' {
        Some("....."@)
    } else if c == '6' {
        Some("-...."@)
    } else if c == '7' {
        Some("--..."@)
    } else if c == '8' {
        Some("---.."@)
    } else if c == '9' {
        Some("----."@)
    } else if c == '/' {
        Some("-..-."@)
    } else if c == '?' {
        Some("..--.."@)
    } else if c == '.' {
        Some(".-.-.-"@)
    } else if c == ',' {
        Some("--..--"@)
    } else if c == '=' {
        Some("-...-"@)
    } else if c == '+' {
        Some(".-.-."@)
    } else if c == '-' {
        Some("-....-"@)
    } else {
        None
    }
}

/// The character with a Morse code.
pub open spec fn is_morse(code: Seq<char>, c: char) -> bool {
    morse_code(c) == Some(code)
}

/// A code as a number: a one, then a bit for each sign.
spec fn code_number(code: Seq<char>) -> int
    decreases code.len(),
{
    if code.len() == 0 {
        1
    } else {
        2 * code_number(code.drop_last()) + if code.last() == '-' {
            1int
        } else {
            0int
        }
    }
}

spec fn morse_number(c: char) -> int {
    if c == 'A' {
        5
    } else if c == 'B' {
        24
    } else if c == 'C' {
        26
    } else if c == 'D' {
        12
    } else if c == 'E' {
        2
    } else if c == 'F' {
        18
    } else if c == 'G' {
        14
    } else if c == 'H' {
        16
    } else if c == 'I' {
        4
    } else if c == 'J' {
        23
    } else if c == 'K' {
        13
    } else if c == 'L' {
        20
    } else if c == 'M' {
        7
    } else if c == 'N' {
        6
    } else if c == 'O' {
        15
    } else if c == 'P' {
        22
    } else if c == 'Q' {
        29
    } else if c == 'R' {
        10
    } else if c == 'S' {
        8
    } else if c == 'T' {
        3
    } else if c == 'U' {
        9
    } else if c == 'V' {
        17
    } else if c == 'W' {
        11
    } else if c == 'X' {
        25
    } else if c == 'Y' {
        27
    } else if c == 'Z' {
        28
    } else if c == '0' {
        63
    } else if c == '1' {
        47
    } else if c == '2' {
        39
    } else if c == '3' {
        35
    } else if c == '4' {
        33
    } else if c == '5' {
        32
    } else if c == '6' {
        48
    } else if c == '7' {
        56
    } else if c == '8' {
        60
    } else if c == '9' {
        62
    } else if c == '/' {
        50
    } else if c == '?' {
        76
    } else if c == '.' {
        85
    } else if c == ',' {
        115
    } else if c == '=' {
        49
    } else if c == '+' {
        42
    } else if c == '-' {
        97
    } else {
        0
    }
}

#[verifier::rlimit(50)]
proof fn lemma_morse_numbers()
    ensures
        forall|c: char| #[trigger] morse_code(c) is Some ==> code_number(morse_code(c)->0)
            == morse_number(c),
{
    reveal_strlit(".-");
    reveal_strlit("-...");
    reveal_strlit("-.-.");
    reveal_strlit("-..");
    reveal_strlit(".");
    reveal_strlit("..-.");
    reveal_strlit("--.");
    reveal_strlit("....");
    reveal_strlit("..");
    reveal_strlit(".---");
    reveal_strlit("-.-");
    reveal_strlit(".-..");
    reveal_strlit("--");
    reveal_strlit("-.");
    reveal_strlit("---");
    reveal_strlit(".--.");
    reveal_strlit("--.-");
    reveal_strlit(".-.");
    reveal_strlit("...");
    reveal_strlit("-");
    reveal_strlit("..-");
    reveal_strlit("...-");
    reveal_strlit(".--");
    reveal_strlit("-..-");
    reveal_strlit("-.--");
    reveal_strlit("--..");
    reveal_strlit("-----");
    reveal_strlit(".----");
    reveal_strlit("..---");
    reveal_strlit("...--");
    reveal_strlit("....-");
    reveal_strlit(".....");
    reveal_strlit("-....");
    reveal_strlit("--...");
    reveal_strlit("---..");
    reveal_strlit("----.");
    reveal_strlit("-..-.");
    reveal_strlit("..--..");
    reveal_strlit(".-.-.-");
    reveal_strlit("--..--");
    reveal_strlit("-...-");
    reveal_strlit(".-.-.");
    reveal_strlit("-....-");
    reveal_with_fuel(code_number, 8);
    assert(code_number(".-"@) == 5);
    assert(code_number("-..."@) == 24);
    assert(code_number("-.-."@) == 26);
    assert(code_number("-.."@) == 12);
    assert(code_number("."@) == 2);
    assert(code_number("..-."@) == 18);
    assert(code_number("--."@) == 14);
    assert(code_number("...."@) == 16);
    assert(code_number(".."@) == 4);
    assert(code_number(".---"@) == 23);
    assert(code_number("-.-"@) == 13);
    assert(code_number(".-.."@) == 20);
    assert(code_number("--"@) == 7);
    assert(code_number("-."@) == 6);
    assert(code_number("---"@) == 15);
    assert(code_number(".--."@) == 22);
    assert(code_number("--.-"@) == 29);
    assert(code_number(".-."@) == 10);
    assert(code_number("..."@) == 8);
    assert(code_number("-"@) == 3);
    assert(code_number("..-"@) == 9);
    assert(code_number("...-"@) == 17);
    assert(code_number(".--"@) == 11);
    assert(code_number("-..-"@) == 25);
    assert(code_number("-.--"@) == 27);
    assert(code_number("--.."@) == 28);
    assert(code_number("-----"@) == 63);
    assert(code_number(".----"@) == 47);
    assert(code_number("..---"@) == 39);
    assert(code_number("...--"@) == 35);
    assert(code_number("....-"@) == 33);
    assert(code_number("....."@) == 32);
    assert(code_number("-...."@) == 48);
    assert(code_number("--..."@) == 56);
    assert(code_number("---.."@) == 60);
    assert(code_number("----."@) == 62);
    assert(code_number("-..-."@) == 50);
    assert(code_number("..--.."@) == 76);
    assert(code_number(".-.-.-"@) == 85);
    assert(code_number("--..--"@) == 115);
    assert(code_number("-...-"@) == 49);
    assert(code_number(".-.-."@) == 42);
    assert(code_number("-....-"@) == 97);
}

/// No two characters have the same Morse code.
pub proof fn law_morse_codes_differ(c: char, d: char)
    requires
        morse_code(c) is Some,
        morse_code(c) == morse_code(d),
    ensures
        c == d,
{
    lemma_morse_numbers();
    assert(morse_number(c) == morse_number(d));
}

fn morse_char(code: &[char]) -> (r: Option<char>)
    ensures
        r matches Some(c) ==> is_morse(code@, c),
        r is None ==> forall|c: char| !#[trigger] is_morse(code@, c),
{
    if text::equals(code, ".-") {
        Some('A')
    } else if text::equals(code, "-...") {
        Some('B')
    } else if text::equals(code, "-.-.") {
        Some('C')
    } else if text::equals(code, "-..") {
        Some('D')
    } else if text::equals(code, ".") {
        Some('E')
    } else if text::equals(code, "..-.") {
        Some('F')
    } else if text::equals(code, "--.") {
        Some('G')
    } else if text::equals(code, "....") {
        Some('H')
    } else if text::equals(code, "..") {
        Some('I')
    } else if text::equals(code, ".---") {
        Some('J')
    } else if text::equals(code, "-.-") {
        Some('K')
    } else if text::equals(code, ".-..") {
        Some('L')
    } else if text::equals(code, "--") {
        Some('M')
    } else if text::equals(code, "-.") {
        Some('N')
    } else if text::equals(code, "---") {
        Some('O')
    } else if text::equals(code, ".--.") {
        Some('P')
    } else if text::equals(code, "--.-") {
        Some('Q')
    } else if text::equals(code, ".-.") {
        Some('R')
    } else if text::equals(code, "...") {
        Some('S')
    } else if text::equals(code, "-") {
        Some('T')
    } else if text::equals(code, "..-") {
        Some('U')
    } else if text::equals(code, "...-") {
        Some('V')
    } else if text::equals(code, ".--") {
        Some('W')
    } else if text::equals(code, "-..-") {
        Some('X')
    } else if text::equals(code, "-.--") {
        Some('Y')
    } else if text::equals(code, "--..") {
        Some('Z')
    } else if text::equals(code, "-----") {
        Some('0')
    } else if text::equals(code, ".----") {
        Some('1')
    } else if text::equals(code, "..---") {
        Some('2')
    } else if text::equals(code, "...--") {
        Some('3')
    } else if text::equals(code, "....-") {
        Some('4')
    } else if text::equals(code, ".....") {
        Some('5')
    } else if text::equals(code, "-....") {
        Some('6')
    } else if text::equals(code, "--...") {
        Some('7')
    } else if text::equals(code, "---..") {
        Some('8')
    } else if text::equals(code, "----.") {
        Some('9')
    } else if text::equals(code, "-..-.") {
        Some('/')
    } else if text::equals(code, "..--..") {
        Some('?')
    } else if text::equals(code, ".-.-.-") {
        Some('.')
    } else if text::equals(code, "--..--") {
        Some(',')
    } else if text::equals(code, "-...-") {
        Some('=')
    } else if text::equals(code, ".-.-.") {
        Some('+')
    } else if text::equals(code, "-....-") {
        Some('-')
    } else {
        None
    }
}

/// The character of a Morse code.
pub fn morse_to_char(code: &str) -> (r: Option<char>)
    ensures
        r matches Some(c) ==> is_morse(code@, c),
        r is None ==> forall|c: char| !#[trigger] is_morse(code@, c),
{
    let chars = text::to_chars(code);
    morse_char(&chars)
}

/// The character that is shown for a code; an unknown one is shown too.
pub open spec fn morse_meaning(code: Seq<char>) -> char {
    if exists|c: char| is_morse(code, c) {
        choose|c: char| is_morse(code, c)
    } else {
        '¿'
    }
}

/// The state of a decoder of Morse code between two samples.
#[verifier::ext_equal]
pub struct CwState {
    /// The key is down.
    pub on: bool,
    /// Samples since the key last changed.
    pub run: u64,
    /// The length of a dot, in millionths of a sample.
    pub dit: u64,
    /// The signs of the character so far.
    pub code: Seq<char>,
    /// Samples of silence.
    pub silence: u64,
    /// The space between two words has been given.
    pub emitted_space: bool,
}

/// One more on a counter that stops at its largest value.
pub open spec fn counted(n: u64) -> u64 {
    if n < u64::MAX {
        (n + 1) as u64
    } else {
        n
    }
}

/// The length of a dot kept between a hundredth and three tenths of a second.
pub open spec fn bounded_dit(rate: int, dit: int) -> u64 {
    if dit < rate * 10_000 {
        (rate * 10_000) as u64
    } else if dit > rate * 300_000 {
        (rate * 300_000) as u64
    } else {
        dit as u64
    }
}

impl CwState {
    /// Before the first sample. The speed is taken to be twenty words a minute: a dot lasts 60 ms.
    pub open spec fn start(rate: int) -> CwState {
        CwState {
            on: false,
            run: 0,
            dit: (rate * 60_000) as u64,
            code: Seq::empty(),
            silence: 0,
            emitted_space: true,
        }
    }

    /// The state after the key has come to its place in this sample. What was shorter than two
    /// dots was a dot, and else a dash; the length of a dot follows what was heard.
    pub open spec fn keyed(self, rate: int, on: bool) -> CwState {
        if on == self.on {
            self
        } else if on {
            CwState {
                on,
                run: 0,
                silence: 0,
                emitted_space: false,
                code: if self.run * 1_000_000 > 2 * self.dit {
                    Seq::empty()
                } else {
                    self.code
                },
                ..self
            }
        } else {
            let dot = self.run * 1_000_000 < 2 * self.dit;
            CwState {
                on,
                run: 0,
                silence: 0,
                emitted_space: false,
                code: self.code.push(
                    if dot {
                        '.'
                    } else {
                        '-'
                    },
                ),
                dit: bounded_dit(
                    rate,
                    if dot {
                        (4 * self.dit + self.run * 1_000_000) / 5
                    } else {
                        (27 * self.dit + self.run * 1_000_000) / 30
                    },
                ),
            }
        }
    }

    /// The character that ends as the key goes down.
    pub open spec fn cut_off(self, on: bool) -> Option<char> {
        if on && !self.on && self.run * 1_000_000 > 2 * self.dit && self.code.len() > 0 {
            Some(morse_meaning(self.code))
        } else {
            None
        }
    }

    /// The state with the sample counted.
    pub open spec fn timed(self) -> CwState {
        CwState {
            run: counted(self.run),
            silence: if self.on {
                self.silence
            } else {
                counted(self.silence)
            },
            ..self
        }
    }

    /// The silence is long enough to end a character: two and a half dots.
    pub open spec fn ends_character(self) -> bool {
        !self.on && self.code.len() > 0 && 2 * self.silence * 1_000_000 > 5 * self.dit
    }

    /// The silence is long enough to end a word: six dots.
    pub open spec fn ends_word(self) -> bool {
        !self.on && self.code.len() == 0 && !self.emitted_space && self.silence * 1_000_000 > 6
            * self.dit
    }

    /// The state after a sample.
    pub open spec fn after(self, rate: int, on: bool) -> CwState {
        let s = self.keyed(rate, on).timed();
        if s.ends_character() {
            CwState { code: Seq::empty(), ..s }
        } else if s.ends_word() {
            CwState { emitted_space: true, ..s }
        } else {
            s
        }
    }

    /// What a sample gives: a character, or the space between two words.
    pub open spec fn given(self, rate: int, on: bool) -> Option<char> {
        let s = self.keyed(rate, on).timed();
        if s.ends_character() {
            Some(morse_meaning(s.code))
        } else if s.ends_word() {
            Some(' ')
        } else {
            self.cut_off(on)
        }
    }
}

/// A decoder of Morse code that follows the speed by itself, behind the detector of the key.
pub struct CwDecoder {
    rate: u32,
    on: bool,
    run: u64,
    dit: u64,
    code: Vec<char>,
    silence: u64,
    emitted_space: bool,
}

impl View for CwDecoder {
    type V = CwState;

    closed spec fn view(&self) -> CwState {
        CwState {
            on: self.on,
            run: self.run,
            dit: self.dit,
            code: self.code@,
            silence: self.silence,
            emitted_space: self.emitted_space,
        }
    }
}

impl CwDecoder {
    /// The sample rate.
    pub closed spec fn rate(&self) -> int {
        self.rate as int
    }

    /// A dot is no longer than three tenths of a second.
    pub closed spec fn wf(&self) -> bool {
        self.dit <= self.rate * 300_000
    }

    /// A decoder for a sample rate in hertz.
    pub fn new(rate: u32) -> (r: Self)
        ensures
            r.wf(),
            r.rate() == rate,
            r@ == CwState::start(rate as int),
    {
        let r = CwDecoder {
            rate,
            on: false,
            run: 0,
            dit: rate as u64 * 60_000,
            code: Vec::new(),
            silence: 0,
            emitted_space: true,
        };
        assert(r@ =~= CwState::start(rate as int));
        r
    }

    /// The speed in hundredths of a word a minute: a dot of 1200 ms is one word a minute. A dot
    /// shorter than a millisecond counts as one.
    pub fn wpm(&self) -> (r: u64)
        requires
            self.wf(),
            self.rate() > 0,
        ensures
            r == 120_000_000 * self.rate() / (if self@.dit < 1000 * self.rate() {
                1000 * self.rate()
            } else {
                self@.dit as int
            }),
            self@.dit >= 1000 * self.rate() ==> r * self@.dit <= 120_000_000 * self.rate() < (r + 1)
                * self@.dit,
    {
        proof {
            let (n, d) = (120_000_000 * self.rate as int, self.dit as int);
            if d >= 1000 * self.rate {
                let q = n / d;
                assert(q * d <= n < (q + 1) * d) by (nonlinear_arith)
                    requires
                        q == n / d,
                        d > 0,
                ;
            }
        }
        let shortest: u64 = 1000 * self.rate as u64;
        let dit: u64 = if self.dit < shortest {
            shortest
        } else {
            self.dit
        };
        120_000_000 * self.rate as u64 / dit
    }

    /// Takes a sample: is the key down? Gives the character that it ends.
    pub fn push(&mut self, on: bool) -> (r: Option<char>)
        requires
            old(self).wf(),
        ensures
            final(self).wf(),
            final(self).rate() == old(self).rate(),
            final(self)@ == old(self)@.after(old(self).rate(), on),
            r == old(self)@.given(old(self).rate(), on),
    {
        let mut out: Option<char> = None;
        if on != self.on {
            let run: u128 = self.run as u128 * 1_000_000;
            let dit: u128 = self.dit as u128;
            if on {
                if run > 2 * dit {
                    out = self.flush();
                }
            } else {
                let next: u128 = if run < 2 * dit {
                    self.code.push('.');
                    (4 * dit + run) / 5
                } else {
                    self.code.push('-');
                    (27 * dit + run) / 30
                };
                let low: u128 = self.rate as u128 * 10_000;
                let high: u128 = self.rate as u128 * 300_000;
                self.dit = if next < low {
                    low as u64
                } else if next > high {
                    high as u64
                } else {
                    next as u64
                };
            }
            self.on = on;
            self.run = 0;
            self.silence = 0;
            self.emitted_space = false;
        }
        assert(self@ =~= old(self)@.keyed(old(self).rate(), on));
        assert(out == old(self)@.cut_off(on));
        self.run = self.run.saturating_add(1);
        if !on {
            self.silence = self.silence.saturating_add(1);
            assert(self@ =~= old(self)@.keyed(old(self).rate(), on).timed());
            let silence: u128 = self.silence as u128 * 1_000_000;
            let dit: u128 = self.dit as u128;
            if self.code.len() > 0 && 2 * silence > 5 * dit {
                out = self.flush();
            } else if self.code.len() == 0 && !self.emitted_space && silence > 6 * dit {
                self.emitted_space = true;
                out = Some(' ');
            }
        }
        assert(self@ =~= old(self)@.after(old(self).rate(), on));
        out
    }

    /// Ends a character.
    fn flush(&mut self) -> (r: Option<char>)
        ensures
            final(self)@ == (CwState { code: Seq::empty(), ..old(self)@ }),
            final(self).rate == old(self).rate,
            r == if old(self)@.code.len() == 0 {
                None
            } else {
                Some(morse_meaning(old(self)@.code))
            },
    {
        if self.code.len() == 0 {
            assert(self@ =~= (CwState { code: Seq::empty(), ..old(self)@ }));
            return None;
        }
        let c: char = match morse_char(&self.code) {
            Some(c) => {
                proof {
                    law_morse_codes_differ(c, morse_meaning(self.code@));
                }
                c
            },
            None => '¿',
        };
        self.code = Vec::new();
        assert(self@ =~= (CwState { code: Seq::empty(), ..old(self)@ }));
        Some(c)
    }
}

/// The state after samples of the key.
pub open spec fn cw_after(st: CwState, rate: int, s: Seq<bool>) -> CwState
    decreases s.len(),
{
    if s.len() == 0 {
        st
    } else {
        cw_after(st, rate, s.drop_last()).after(rate, s.last())
    }
}

/// The text that samples of the key give.
pub open spec fn cw_text(st: CwState, rate: int, s: Seq<bool>) -> Seq<char>
    decreases s.len(),
{
    if s.len() == 0 {
        Seq::empty()
    } else {
        let before = cw_text(st, rate, s.drop_last());
        match cw_after(st, rate, s.drop_last()).given(rate, s.last()) {
            Some(c) => before.push(c),
            None => before,
        }
    }
}

/// The key held in one place for `n` samples.
pub open spec fn held(on: bool, n: nat) -> Seq<bool> {
    Seq::new(n, |i: int| on)
}

/// The signs of a code keyed with dots of `n` samples: a dash lasts three dots, and behind each
/// sign the key is up for a dot.
pub open spec fn keyed_signs(code: Seq<char>, n: nat) -> Seq<bool>
    decreases code.len(),
{
    if code.len() == 0 {
        Seq::empty()
    } else {
        keyed_signs(code.drop_last(), n) + held(
            true,
            if code.last() == '.' {
                n
            } else {
                3 * n
            },
        ) + held(false, n)
    }
}

proof fn lemma_cw_concat(st: CwState, rate: int, a: Seq<bool>, b: Seq<bool>)
    ensures
        cw_after(st, rate, a + b) == cw_after(cw_after(st, rate, a), rate, b),
        cw_text(st, rate, a + b) == cw_text(st, rate, a) + cw_text(
            cw_after(st, rate, a),
            rate,
            b,
        ),
    decreases b.len(),
{
    if b.len() == 0 {
        assert(a + b == a);
        assert(cw_text(st, rate, a) + Seq::<char>::empty() == cw_text(st, rate, a));
    } else {
        lemma_cw_concat(st, rate, a, b.drop_last());
        assert((a + b).drop_last() == a + b.drop_last());
    }
}

/// While the key is held down nothing is given.
proof fn lemma_held_down(st: CwState, rate: int, m: nat)
    requires
        st.on,
        st.run + m < u64::MAX,
    ensures
        cw_after(st, rate, held(true, m)) == (CwState { run: (st.run + m) as u64, ..st }),
        cw_text(st, rate, held(true, m)) == Seq::<char>::empty(),
    decreases m,
{
    if m > 0 {
        lemma_held_down(st, rate, (m - 1) as nat);
        assert(held(true, m).drop_last() == held(true, (m - 1) as nat));
    }
}

/// While the key is held up nothing is given until the silence is long enough.
proof fn lemma_held_up(st: CwState, rate: int, m: nat)
    requires
        !st.on,
        st.run + m < u64::MAX,
        st.silence + m < u64::MAX,
        st.code.len() > 0 ==> 2 * (st.silence + m) * 1_000_000 <= 5 * st.dit,
        st.code.len() == 0 ==> (st.silence + m) * 1_000_000 <= 6 * st.dit,
    ensures
        cw_after(st, rate, held(false, m)) == (CwState {
            run: (st.run + m) as u64,
            silence: (st.silence + m) as u64,
            ..st
        }),
        cw_text(st, rate, held(false, m)) == Seq::<char>::empty(),
    decreases m,
{
    if m > 0 {
        lemma_held_up(st, rate, (m - 1) as nat);
        assert(held(false, m).drop_last() == held(false, (m - 1) as nat));
    }
}

/// The speed is known: a dot is taken to last `n` samples, which is in the range that is followed.
pub open spec fn at_speed(st: CwState, rate: int, n: nat) -> bool {
    &&& st.dit == n * 1_000_000
    &&& n >= 1
    &&& rate * 10_000 <= n * 1_000_000 <= rate * 300_000
    &&& 0 <= rate < 0x1_0000_0000
}

proof fn lemma_one_sample(st: CwState, rate: int, on: bool)
    ensures
        cw_after(st, rate, held(on, 1)) == st.after(rate, on),
        cw_text(st, rate, held(on, 1)) == (match st.given(rate, on) {
            Some(c) => seq![c],
            None => Seq::<char>::empty(),
        }),
{
    let one = held(on, 1);
    assert(one.drop_last() == Seq::<bool>::empty());
    reveal_with_fuel(cw_after, 2);
    reveal_with_fuel(cw_text, 2);
    if st.given(rate, on) is Some {
        assert(Seq::<char>::empty().push(st.given(rate, on)->0) == seq![st.given(rate, on)->0]);
    }
}

/// The key goes down for a sign.
proof fn lemma_sign_begins(st: CwState, rate: int, n: nat)
    requires
        at_speed(st, rate, n),
        !st.on,
        st.code.len() == 0 || st.run <= 2 * n,
    ensures
        st.after(rate, true) == (CwState {
            on: true,
            run: 1,
            silence: 0,
            emitted_space: false,
            code: st.code,
            dit: st.dit,
        }),
        st.given(rate, true) is None,
{
    assert(st.after(rate, true).code =~= st.code);
}

/// The key goes up behind a sign that lasted as it should.
proof fn lemma_sign_ends(st: CwState, rate: int, n: nat, sign: char)
    requires
        at_speed(st, rate, n),
        st.on,
        sign == '.' && st.run == n || sign == '-' && st.run == 3 * n,
    ensures
        st.after(rate, false) == (CwState {
            on: false,
            run: 1,
            silence: 1,
            emitted_space: false,
            code: st.code.push(sign),
            dit: st.dit,
        }),
        st.given(rate, false) is None,
{
    let k = st.keyed(rate, false);
    assert(k.code == st.code.push(sign));
    assert(k.dit == st.dit);
}

/// One sign is taken as it was keyed.
#[verifier::rlimit(40)]
proof fn lemma_sign(st: CwState, rate: int, n: nat, sign: char)
    requires
        at_speed(st, rate, n),
        !st.on,
        st.code.len() == 0 || st.run <= 2 * n,
        sign == '.' || sign == '-',
    ensures
        ({
            let s = held(
                true,
                if sign == '.' {
                    n
                } else {
                    3 * n
                },
            ) + held(false, n);
            &&& cw_after(st, rate, s) == (CwState {
                on: false,
                run: n as u64,
                dit: st.dit,
                code: st.code.push(sign),
                silence: n as u64,
                emitted_space: false,
            })
            &&& cw_text(st, rate, s) == Seq::<char>::empty()
        }),
{
    let l: nat = if sign == '.' {
        n
    } else {
        3 * n
    };
    let down = held(true, l);
    let up = held(false, n);
    assert(down == held(true, 1) + held(true, (l - 1) as nat));
    assert(up == held(false, 1) + held(false, (n - 1) as nat));
    lemma_cw_concat(st, rate, held(true, 1), held(true, (l - 1) as nat));
    lemma_cw_concat(st, rate, down, up);
    lemma_one_sample(st, rate, true);
    lemma_sign_begins(st, rate, n);
    let st1 = st.after(rate, true);
    lemma_held_down(st1, rate, (l - 1) as nat);
    let st2 = cw_after(st, rate, down);
    lemma_cw_concat(st2, rate, held(false, 1), held(false, (n - 1) as nat));
    lemma_one_sample(st2, rate, false);
    lemma_sign_ends(st2, rate, n, sign);
    lemma_held_up(st2.after(rate, false), rate, (n - 1) as nat);
    assert(Seq::<char>::empty() + Seq::<char>::empty() == Seq::<char>::empty());
}

/// All signs of a code are taken as they were keyed.
#[verifier::rlimit(40)]
proof fn lemma_signs(st: CwState, rate: int, n: nat, code: Seq<char>)
    requires
        at_speed(st, rate, n),
        !st.on,
        st.code.len() == 0,
        code.len() > 0,
        forall|i: int| 0 <= i < code.len() ==> #[trigger] code[i] == '.' || code[i] == '-',
    ensures
        cw_after(st, rate, keyed_signs(code, n)) == (CwState {
            on: false,
            run: n as u64,
            dit: st.dit,
            code,
            silence: n as u64,
            emitted_space: false,
        }),
        cw_text(st, rate, keyed_signs(code, n)) == Seq::<char>::empty(),
    decreases code.len(),
{
    let front = code.drop_last();
    let sign = code.last();
    let s = held(
        true,
        if sign == '.' {
            n
        } else {
            3 * n
        },
    ) + held(false, n);
    assert(code[code.len() - 1] == sign);
    assert(keyed_signs(code, n) =~= keyed_signs(front, n) + s);
    lemma_cw_concat(st, rate, keyed_signs(front, n), s);
    if front.len() == 0 {
        assert(keyed_signs(front, n) == Seq::<bool>::empty());
        lemma_sign(st, rate, n, sign);
        assert(st.code.push(sign) =~= code);
    } else {
        lemma_signs(st, rate, n, front);
        lemma_sign(cw_after(st, rate, keyed_signs(front, n)), rate, n, sign);
        assert(front.push(sign) =~= code);
    }
}

/// What is keyed is read: at a speed that is known, the signs of a character and the silence of
/// three dots behind it give that character and nothing else, and the speed stays known.
#[verifier::rlimit(40)]
pub proof fn law_character_is_read(st: CwState, rate: int, n: nat, code: Seq<char>)
    requires
        at_speed(st, rate, n),
        !st.on,
        st.code.len() == 0,
        code.len() > 0,
        forall|i: int| 0 <= i < code.len() ==> #[trigger] code[i] == '.' || code[i] == '-',
    ensures
        ({
            let s = keyed_signs(code, n) + held(false, 2 * n);
            let t = cw_after(st, rate, s);
            &&& cw_text(st, rate, s) == seq![morse_meaning(code)]
            &&& at_speed(t, rate, n)
            &&& !t.on
            &&& t.code.len() == 0
        }),
{
    let signs = keyed_signs(code, n);
    lemma_signs(st, rate, n, code);
    lemma_cw_concat(st, rate, signs, held(false, 2 * n));
    let st1 = cw_after(st, rate, signs);
    assert(near_speed(st1, rate, n));
    lemma_near_character_ends(st1, rate, n);
    assert(Seq::<char>::empty() + seq![morse_meaning(code)] == seq![morse_meaning(code)]);
}

/// The length `n` of a dot is in the range that is followed, and so is the estimate.
pub open spec fn in_range(st: CwState, rate: int, n: nat) -> bool {
    &&& n >= 1
    &&& 0 <= rate < 0x1_0000_0000
    &&& rate * 10_000 <= n * 1_000_000 <= rate * 300_000
    &&& rate * 10_000 <= st.dit <= rate * 300_000
}

/// The estimate is nearly right for dots of `n` samples: it is more than half of what it should be
/// and less than six fifths of it.
pub open spec fn near_speed(st: CwState, rate: int, n: nat) -> bool {
    &&& in_range(st, rate, n)
    &&& 2 * st.dit > n * 1_000_000
    &&& 5 * st.dit < 6 * (n * 1_000_000)
}

/// How far the estimate is from dots of `n` samples, in millionths of a sample.
pub open spec fn off_speed(st: CwState, n: nat) -> int {
    if st.dit >= n * 1_000_000 {
        st.dit - n * 1_000_000
    } else {
        n * 1_000_000 - st.dit
    }
}

/// The key goes down for `m` samples from any state with the key up.
proof fn lemma_pressed(st: CwState, rate: int, m: nat)
    requires
        !st.on,
        1 <= m < u64::MAX,
    ensures
        ({
            let t = cw_after(st, rate, held(true, m));
            &&& t.on
            &&& t.run == m
            &&& t.dit == st.dit
        }),
{
    assert(held(true, m) == held(true, 1) + held(true, (m - 1) as nat));
    lemma_cw_concat(st, rate, held(true, 1), held(true, (m - 1) as nat));
    lemma_one_sample(st, rate, true);
    lemma_held_down(st.after(rate, true), rate, (m - 1) as nat);
}

/// The estimate does not change while the key is up.
proof fn lemma_estimate_rests(st: CwState, rate: int, m: nat)
    requires
        !st.on,
    ensures
        cw_after(st, rate, held(false, m)).dit == st.dit,
        !cw_after(st, rate, held(false, m)).on,
    decreases m,
{
    if m > 0 {
        lemma_estimate_rests(st, rate, (m - 1) as nat);
        assert(held(false, m).drop_last() == held(false, (m - 1) as nat));
    }
}

/// A sign that lasted `m` samples, and the key up behind it.
proof fn lemma_released(st: CwState, rate: int, m: nat, gap: nat)
    requires
        !st.on,
        1 <= m < u64::MAX,
        gap >= 1,
    ensures
        ({
            let down = cw_after(st, rate, held(true, m));
            let t = cw_after(st, rate, held(true, m) + held(false, gap));
            &&& down.on
            &&& down.run == m
            &&& down.dit == st.dit
            &&& !t.on
            &&& t.dit == down.after(rate, false).dit
        }),
{
    lemma_pressed(st, rate, m);
    let down = cw_after(st, rate, held(true, m));
    lemma_cw_concat(st, rate, held(true, m), held(false, gap));
    assert(held(false, gap) == held(false, 1) + held(false, (gap - 1) as nat));
    lemma_cw_concat(down, rate, held(false, 1), held(false, (gap - 1) as nat));
    lemma_one_sample(down, rate, false);
    lemma_estimate_rests(down.after(rate, false), rate, (gap - 1) as nat);
}

/// A dot brings the estimate nearer: of what it is off, four fifths are left, rounded down by less
/// than one unit. This holds of every estimate that takes the sign for a dot, be it right or not.
pub proof fn law_dot_corrects_the_estimate(st: CwState, rate: int, n: nat, gap: nat)
    requires
        in_range(st, rate, n),
        2 * st.dit > n * 1_000_000,
        !st.on,
        gap >= 1,
    ensures
        ({
            let t = cw_after(st, rate, held(true, n) + held(false, gap));
            let before = st.dit - n * 1_000_000;
            let after = t.dit - n * 1_000_000;
            &&& !t.on
            &&& in_range(t, rate, n)
            &&& 2 * t.dit > n * 1_000_000
            &&& 4 * before - 5 < 5 * after <= 4 * before
        }),
{
    lemma_released(st, rate, n, gap);
}

/// A dash brings the estimate nearer: it lasts three dots, and nine tenths of what the estimate is
/// off are left, rounded down by less than one unit.
pub proof fn law_dash_corrects_the_estimate(st: CwState, rate: int, n: nat, gap: nat)
    requires
        in_range(st, rate, n),
        2 * st.dit <= 3 * (n * 1_000_000),
        !st.on,
        gap >= 1,
    ensures
        ({
            let t = cw_after(st, rate, held(true, 3 * n) + held(false, gap));
            let before = st.dit - n * 1_000_000;
            let after = t.dit - n * 1_000_000;
            &&& !t.on
            &&& in_range(t, rate, n)
            &&& 2 * t.dit <= 3 * (n * 1_000_000)
            &&& 9 * before - 10 < 10 * after <= 9 * before
        }),
{
    lemma_released(st, rate, 3 * n, gap);
}

/// What is shorter than twice the estimate is a dot and anything else a dash, and the sign comes
/// behind those that the character has already.
pub proof fn law_sign_is_told_by_its_length(st: CwState, rate: int)
    requires
        st.on,
        1_000_000 <= rate * 10_000 < u64::MAX / 30,
    ensures
        st.run * 1_000_000 < 2 * st.dit ==> st.after(rate, false).code == st.code.push('.'),
        st.run * 1_000_000 >= 2 * st.dit ==> st.after(rate, false).code == st.code.push('-'),
        st.given(rate, false) is None,
{
    let k = st.keyed(rate, false);
    assert(k.dit >= 1_000_000);
}

/// Dots of `n` samples, each with the key up for `gap` samples behind it.
pub open spec fn dots(n: nat, gap: nat, k: nat) -> Seq<bool>
    decreases k,
{
    if k == 0 {
        Seq::empty()
    } else {
        dots(n, gap, (k - 1) as nat) + (held(true, n) + held(false, gap))
    }
}

/// The speed is followed: after `k` dots no more than (4/5)^k of what the estimate was off is left,
/// up to five units of rounding, whatever the speed and whatever the estimate, as long as it takes
/// the first dot for a dot.
#[verifier::rlimit(40)]
pub proof fn law_speed_is_followed(st: CwState, rate: int, n: nat, gap: nat, k: nat)
    requires
        in_range(st, rate, n),
        2 * st.dit > n * 1_000_000,
        !st.on,
        gap >= 1,
    ensures
        ({
            let t = cw_after(st, rate, dots(n, gap, k));
            &&& !t.on
            &&& in_range(t, rate, n)
            &&& 2 * t.dit > n * 1_000_000
            &&& vstd::arithmetic::power::pow(5, k) * off_speed(t, n) <= vstd::arithmetic::power::pow(4, k) * off_speed(st, n) + 5 * vstd::arithmetic::power::pow(5, k)
        }),
    decreases k,
{
    reveal(vstd::arithmetic::power::pow);
    vstd::arithmetic::power::lemma_pow_positive(5, k);
    vstd::arithmetic::power::lemma_pow_positive(4, k);
    if k > 0 {
        let j = (k - 1) as nat;
        law_speed_is_followed(st, rate, n, gap, j);
        lemma_cw_concat(st, rate, dots(n, gap, j), held(true, n) + held(false, gap));
        let u = cw_after(st, rate, dots(n, gap, j));
        law_dot_corrects_the_estimate(u, rate, n, gap);
        let t = cw_after(st, rate, dots(n, gap, k));
        let (a, b, c) = (off_speed(st, n), off_speed(u, n), off_speed(t, n));
        let (p, q) = (vstd::arithmetic::power::pow(5, j), vstd::arithmetic::power::pow(4, j));
        assert(5 * c <= 4 * b + 4);
        vstd::arithmetic::power::lemma_pow_positive(5, j);
        assert(vstd::arithmetic::power::pow(5, k) == 5 * p && vstd::arithmetic::power::pow(4, k) == 4 * q);
        assert((5 * p) * c <= (4 * q) * a + 5 * (5 * p)) by (nonlinear_arith)
            requires
                5 * c <= 4 * b + 4,
                p * b <= q * a + 5 * p,
                p > 0,
        ;
    }
}

proof fn lemma_powers_part(k: nat)
    requires
        k >= 24,
    ensures
        200 * vstd::arithmetic::power::pow(4, k) <= vstd::arithmetic::power::pow(5, k),
    decreases k,
{
    reveal(vstd::arithmetic::power::pow);
    if k == 24 {
        reveal_with_fuel(vstd::arithmetic::power::pow, 25);
    } else {
        lemma_powers_part((k - 1) as nat);
        vstd::arithmetic::power::lemma_pow_positive(4, (k - 1) as nat);
    }
}

/// A steady sender is found: two dozen dots at any speed that is followed bring any estimate that
/// takes them for dots so near that what comes next can be read.
#[verifier::rlimit(40)]
pub proof fn law_speed_becomes_known(st: CwState, rate: int, n: nat, gap: nat, k: nat)
    requires
        in_range(st, rate, n),
        2 * st.dit > n * 1_000_000,
        !st.on,
        gap >= 1,
        k >= 24,
    ensures
        near_speed(cw_after(st, rate, dots(n, gap, k)), rate, n),
{
    law_speed_is_followed(st, rate, n, gap, k);
    lemma_powers_part(k);
    vstd::arithmetic::power::lemma_pow_positive(4, k);
    let t = cw_after(st, rate, dots(n, gap, k));
    let (a, c, p, q) = (off_speed(st, n), off_speed(t, n), vstd::arithmetic::power::pow(5, k), vstd::arithmetic::power::pow(4, k));
    assert(a <= 30 * (n * 1_000_000));
    assert(200 * c <= a + 1000) by (nonlinear_arith)
        requires
            p * c <= q * a + 5 * p,
            200 * q <= p,
            q > 0,
            a >= 0,
    ;
}

/// The key goes up behind a sign that lasted as it should, though the estimate is only nearly right.
#[verifier::rlimit(40)]
proof fn lemma_near_sign_ends(st: CwState, rate: int, n: nat, sign: char)
    requires
        near_speed(st, rate, n),
        st.on,
        sign == '.' && st.run == n || sign == '-' && st.run == 3 * n,
    ensures
        near_speed(st.after(rate, false), rate, n),
        st.after(rate, false) == (CwState {
            on: false,
            run: 1,
            silence: 1,
            emitted_space: false,
            code: st.code.push(sign),
            dit: st.after(rate, false).dit,
        }),
        st.given(rate, false) is None,
{
    let k = st.keyed(rate, false);
    assert(k.code == st.code.push(sign));
    assert(near_speed(k, rate, n));
    assert(k.dit >= 500_000);
}

/// The key goes down for a sign, though the estimate is only nearly right.
proof fn lemma_near_sign_begins(st: CwState, rate: int, n: nat)
    requires
        near_speed(st, rate, n),
        !st.on,
        st.code.len() == 0 || st.run == n,
    ensures
        st.after(rate, true) == (CwState {
            on: true,
            run: 1,
            silence: 0,
            emitted_space: false,
            code: st.code,
            dit: st.dit,
        }),
        st.given(rate, true) is None,
{
    assert(st.after(rate, true).code =~= st.code);
}

/// The key goes down for `l` samples and up for `n`, where neither edge gives anything and the silence
/// is too short to end a character.
#[verifier::rlimit(40)]
proof fn lemma_down_and_up(st: CwState, rate: int, l: nat, n: nat)
    requires
        !st.on,
        1 <= l < 0x1_0000_0000,
        1 <= n < 0x1_0000_0000,
        st.after(rate, true).on,
        st.after(rate, true).run == 1,
        st.given(rate, true) is None,
        ({
            let down = CwState { run: l as u64, ..st.after(rate, true) };
            let up = down.after(rate, false);
            &&& down.given(rate, false) is None
            &&& !up.on
            &&& up.run == 1
            &&& up.silence == 1
            &&& up.code.len() > 0
            &&& 2 * n * 1_000_000 <= 5 * up.dit
        }),
    ensures
        ({
            let s = held(true, l) + held(false, n);
            let down = CwState { run: l as u64, ..st.after(rate, true) };
            let up = down.after(rate, false);
            &&& cw_after(st, rate, s) == (CwState { run: n as u64, silence: n as u64, ..up })
            &&& cw_text(st, rate, s) == Seq::<char>::empty()
        }),
{
    let down = held(true, l);
    let up = held(false, n);
    assert(down == held(true, 1) + held(true, (l - 1) as nat));
    assert(up == held(false, 1) + held(false, (n - 1) as nat));
    lemma_cw_concat(st, rate, held(true, 1), held(true, (l - 1) as nat));
    lemma_cw_concat(st, rate, down, up);
    lemma_one_sample(st, rate, true);
    lemma_held_down(st.after(rate, true), rate, (l - 1) as nat);
    let st2 = cw_after(st, rate, down);
    lemma_cw_concat(st2, rate, held(false, 1), held(false, (n - 1) as nat));
    lemma_one_sample(st2, rate, false);
    lemma_held_up(st2.after(rate, false), rate, (n - 1) as nat);
    assert(Seq::<char>::empty() + Seq::<char>::empty() == Seq::<char>::empty());
}

/// One sign is taken as it was keyed, though the estimate is only nearly right.
#[verifier::rlimit(40)]
proof fn lemma_near_sign(st: CwState, rate: int, n: nat, sign: char)
    requires
        near_speed(st, rate, n),
        !st.on,
        st.code.len() == 0 || st.run == n,
        sign == '.' || sign == '-',
    ensures
        ({
            let s = held(
                true,
                if sign == '.' {
                    n
                } else {
                    3 * n
                },
            ) + held(false, n);
            let t = cw_after(st, rate, s);
            &&& near_speed(t, rate, n)
            &&& !t.on
            &&& t.run == n
            &&& t.silence == n
            &&& !t.emitted_space
            &&& t.code == st.code.push(sign)
            &&& cw_text(st, rate, s) == Seq::<char>::empty()
        }),
{
    let l: nat = if sign == '.' {
        n
    } else {
        3 * n
    };
    lemma_near_sign_begins(st, rate, n);
    assert(1 <= l <= 3 * n < 0x1_0000_0000);
    let st2 = CwState { run: l as u64, ..st.after(rate, true) };
    assert(near_speed(st2, rate, n));
    lemma_near_sign_ends(st2, rate, n, sign);
    let st3 = st2.after(rate, false);
    assert(2 * n * 1_000_000 <= 5 * st3.dit);
    lemma_down_and_up(st, rate, l, n);
}

/// All signs of a code are taken as they were keyed, though the estimate is only nearly right.
#[verifier::rlimit(40)]
proof fn lemma_near_signs(st: CwState, rate: int, n: nat, code: Seq<char>)
    requires
        near_speed(st, rate, n),
        !st.on,
        st.code.len() == 0,
        code.len() > 0,
        forall|i: int| 0 <= i < code.len() ==> #[trigger] code[i] == '.' || code[i] == '-',
    ensures
        ({
            let t = cw_after(st, rate, keyed_signs(code, n));
            &&& near_speed(t, rate, n)
            &&& !t.on
            &&& t.run == n
            &&& t.silence == n
            &&& !t.emitted_space
            &&& t.code == code
        }),
        cw_text(st, rate, keyed_signs(code, n)) == Seq::<char>::empty(),
    decreases code.len(),
{
    let front = code.drop_last();
    let sign = code.last();
    let s = held(
        true,
        if sign == '.' {
            n
        } else {
            3 * n
        },
    ) + held(false, n);
    assert(code[code.len() - 1] == sign);
    assert(keyed_signs(code, n) =~= keyed_signs(front, n) + s);
    lemma_cw_concat(st, rate, keyed_signs(front, n), s);
    if front.len() == 0 {
        assert(keyed_signs(front, n) == Seq::<bool>::empty());
        lemma_near_sign(st, rate, n, sign);
        assert(st.code.push(sign) =~= code);
    } else {
        lemma_near_signs(st, rate, n, front);
        lemma_near_sign(cw_after(st, rate, keyed_signs(front, n)), rate, n, sign);
        assert(front.push(sign) =~= code);
    }
    assert(Seq::<char>::empty() + Seq::<char>::empty() == Seq::<char>::empty());
}

/// The silence behind the last sign ends the character once, though the estimate is only nearly
/// right.
#[verifier::rlimit(40)]
proof fn lemma_near_character_ends(st: CwState, rate: int, n: nat)
    requires
        near_speed(st, rate, n),
        !st.on,
        st.run == n,
        st.silence == n,
        st.code.len() > 0,
        !st.emitted_space,
    ensures
        ({
            let t = cw_after(st, rate, held(false, 2 * n));
            &&& cw_text(st, rate, held(false, 2 * n)) == seq![morse_meaning(st.code)]
            &&& t.dit == st.dit
            &&& !t.on
            &&& t.code.len() == 0
            &&& !t.emitted_space
        }),
{
    let m1: nat = (5 * st.dit / 2_000_000 - n) as nat;
    assert(m1 < 2 * n && 2 * (n + m1) * 1_000_000 <= 5 * st.dit < 2 * (n + m1 + 1) * 1_000_000);
    let m2: nat = (2 * n - m1 - 1) as nat;
    let a = held(false, m1);
    let b = held(false, 1);
    let c = held(false, m2);
    assert(held(false, 2 * n) =~= (a + b) + c);
    lemma_cw_concat(st, rate, a, b);
    lemma_cw_concat(st, rate, a + b, c);
    assert(n < 0x1_0000_0000);
    lemma_held_up(st, rate, m1);
    let st2 = cw_after(st, rate, a);
    lemma_one_sample(st2, rate, false);
    assert(st2.keyed(rate, false) == st2);
    assert(st2.timed().ends_character());
    let st3 = cw_after(st2, rate, b);
    assert(st3 == (CwState { code: Seq::empty(), ..st2.timed() }));
    lemma_held_up(st3, rate, m2);
    assert(Seq::<char>::empty() + seq![morse_meaning(st.code)] + Seq::<char>::empty()
        == seq![morse_meaning(st.code)]);
}

/// What is keyed is read also where the estimate is only nearly right: the signs of a character and
/// the silence of three dots behind it give that character and nothing else, and the estimate stays
/// nearly right.
#[verifier::rlimit(40)]
pub proof fn law_character_is_read_at_nearly_the_speed(
    st: CwState,
    rate: int,
    n: nat,
    code: Seq<char>,
)
    requires
        near_speed(st, rate, n),
        !st.on,
        st.code.len() == 0,
        code.len() > 0,
        forall|i: int| 0 <= i < code.len() ==> #[trigger] code[i] == '.' || code[i] == '-',
    ensures
        ({
            let s = keyed_signs(code, n) + held(false, 2 * n);
            let t = cw_after(st, rate, s);
            &&& cw_text(st, rate, s) == seq![morse_meaning(code)]
            &&& near_speed(t, rate, n)
            &&& !t.on
            &&& t.code.len() == 0
            &&& !t.emitted_space
        }),
{
    let signs = keyed_signs(code, n);
    lemma_near_signs(st, rate, n, code);
    lemma_cw_concat(st, rate, signs, held(false, 2 * n));
    lemma_near_character_ends(cw_after(st, rate, signs), rate, n);
    assert(Seq::<char>::empty() + seq![morse_meaning(code)] == seq![morse_meaning(code)]);
}

/// While nothing more can end, silence gives nothing and the key stays up.
proof fn lemma_nothing_ends(st: CwState, rate: int, m: nat)
    requires
        !st.on,
        st.code.len() == 0,
        st.emitted_space,
    ensures
        cw_text(st, rate, held(false, m)) == Seq::<char>::empty(),
        cw_after(st, rate, held(false, m)).emitted_space,
        cw_after(st, rate, held(false, m)).code.len() == 0,
        !cw_after(st, rate, held(false, m)).on,
    decreases m,
{
    if m > 0 {
        lemma_nothing_ends(st, rate, (m - 1) as nat);
        assert(held(false, m).drop_last() == held(false, (m - 1) as nat));
    }
}

/// Before the first sign nothing is given, however long the key is up.
pub proof fn law_silence_gives_nothing(rate: int, m: nat)
    ensures
        cw_text(CwState::start(rate), rate, held(false, m)) == Seq::<char>::empty(),
{
    lemma_nothing_ends(CwState::start(rate), rate, m);
}

/// A word ends once: behind a character the first sample at which the key has been up for more than
/// six dots gives a space, and nothing comes before it or after it.
#[verifier::rlimit(40)]
pub proof fn law_word_ends_once(st: CwState, rate: int, m: nat)
    requires
        !st.on,
        st.code.len() == 0,
        !st.emitted_space,
        st.silence * 1_000_000 <= 6 * st.dit,
        st.run + m < u64::MAX,
        st.silence + m < u64::MAX,
    ensures
        (st.silence + m) * 1_000_000 <= 6 * st.dit ==> cw_text(st, rate, held(false, m))
            == Seq::<char>::empty(),
        (st.silence + m) * 1_000_000 > 6 * st.dit ==> cw_text(st, rate, held(false, m)) == seq![
            ' ',
        ],
{
    if (st.silence + m) * 1_000_000 <= 6 * st.dit {
        lemma_held_up(st, rate, m);
    } else {
        let m1: nat = (6 * st.dit / 1_000_000 - st.silence) as nat;
        assert(m1 < m);
        let m2: nat = (m - m1 - 1) as nat;
        let a = held(false, m1);
        let b = held(false, 1);
        let c = held(false, m2);
        assert(held(false, m) =~= (a + b) + c);
        lemma_cw_concat(st, rate, a, b);
        lemma_cw_concat(st, rate, a + b, c);
        lemma_held_up(st, rate, m1);
        let st2 = cw_after(st, rate, a);
        lemma_one_sample(st2, rate, false);
        assert(st2.keyed(rate, false) == st2);
        assert(st2.timed().ends_word());
        lemma_nothing_ends(cw_after(st2, rate, b), rate, m2);
        assert(Seq::<char>::empty() + seq![' '] + Seq::<char>::empty() == seq![' ']);
    }
}

/// A decoder takes the speed to be twenty words a minute at first: a dot lasts 60 ms, and the key is
/// up.
pub proof fn law_first_speed_is_twenty_words(rate: int)
    requires
        0 < rate < 0x1_0000_0000,
    ensures
        1000 * CwState::start(rate).dit == 60 * (rate * 1_000_000),
        120_000_000 * rate / CwState::start(rate).dit as int == 2_000,
        !CwState::start(rate).on,
        CwState::start(rate).code.len() == 0,
{
    let d = 60_000 * rate;
    assert(120_000_000 * rate / d == 2_000) by (nonlinear_arith)
        requires
            d == 60_000 * rate,
            rate > 0,
    ;
}

/// A sign that begins later than two dots after the last one begins a new character: the one before it
/// is given. Within two dots it goes on with the same character.
pub proof fn law_late_sign_begins_a_character(st: CwState, rate: int)
    requires
        !st.on,
        st.code.len() > 0,
    ensures
        st.run * 1_000_000 > 2 * st.dit ==> st.given(rate, true) == Some(morse_meaning(st.code))
            && st.after(rate, true).code.len() == 0,
        st.run * 1_000_000 <= 2 * st.dit ==> st.given(rate, true) is None && st.after(
            rate,
            true,
        ).code == st.code,
        st.after(rate, true).on,
        st.after(rate, true).dit == st.dit,
{
}

/// What is shown of a code is the character that has it, and an upside-down question mark where none
/// has.
pub proof fn law_shown_character_has_the_code(c: char, code: Seq<char>)
    ensures
        morse_code(c) is Some ==> morse_meaning(morse_code(c)->0) == c,
        (forall|d: char| morse_code(d) != Some(code)) ==> morse_meaning(code) as int == 0xBF,
{
    if morse_code(c) is Some {
        let m = morse_code(c)->0;
        assert(is_morse(m, c));
        law_morse_codes_differ(c, morse_meaning(m));
    }
    if forall|d: char| morse_code(d) != Some(code) {
        assert(forall|d: char| !is_morse(code, d));
    }
}

/// Characters keyed with dots of `n` samples, each with the key up for three dots behind it.
pub open spec fn keyed_characters(codes: Seq<Seq<char>>, n: nat) -> Seq<bool>
    decreases codes.len(),
{
    if codes.len() == 0 {
        Seq::empty()
    } else {
        keyed_characters(codes.drop_last(), n) + (keyed_signs(codes.last(), n) + held(false, 2 * n))
    }
}

/// The signs of a code are dots and dashes, and there is one at least.
pub open spec fn is_keyable(code: Seq<char>) -> bool {
    &&& code.len() > 0
    &&& forall|i: int| 0 <= i < code.len() ==> #[trigger] code[i] == '.' || code[i] == '-'
}

/// A whole word is read: characters that are keyed one after the other come out in their order, one
/// for each, and the estimate stays nearly right throughout.
#[verifier::rlimit(40)]
pub proof fn law_word_is_read(st: CwState, rate: int, n: nat, codes: Seq<Seq<char>>)
    requires
        near_speed(st, rate, n),
        !st.on,
        st.code.len() == 0,
        forall|i: int| 0 <= i < codes.len() ==> #[trigger] is_keyable(codes[i]),
    ensures
        ({
            let s = keyed_characters(codes, n);
            let t = cw_after(st, rate, s);
            &&& cw_text(st, rate, s) == codes.map_values(|c: Seq<char>| morse_meaning(c))
            &&& near_speed(t, rate, n)
            &&& !t.on
            &&& t.code.len() == 0
        }),
    decreases codes.len(),
{
    let meaning = |c: Seq<char>| morse_meaning(c);
    if codes.len() == 0 {
        assert(codes.map_values(meaning) =~= Seq::<char>::empty());
    } else {
        let front = codes.drop_last();
        let last = codes.last();
        assert forall|i: int| 0 <= i < front.len() implies #[trigger] is_keyable(front[i]) by {
            assert(is_keyable(codes[i]));
        }
        assert(is_keyable(codes[codes.len() - 1]));
        law_word_is_read(st, rate, n, front);
        let t = cw_after(st, rate, keyed_characters(front, n));
        law_character_is_read_at_nearly_the_speed(t, rate, n, last);
        lemma_cw_concat(
            st,
            rate,
            keyed_characters(front, n),
            keyed_signs(last, n) + held(false, 2 * n),
        );
        assert(codes.map_values(meaning) =~= front.map_values(meaning) + seq![morse_meaning(last)]);
    }
}

} // verus!
