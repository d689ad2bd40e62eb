//! The decisions of the receiving chain.
//!
//! The arithmetic on samples is not here; what is here chooses its shape: how long the filters are,
//! by how much each stage brings the rate down, which samples a filter sees, when a gate turns.
use crate::decode::{Decoder, RttyConfig};
use vstd::prelude::*;

verus! {

/// The fewest coefficients of the filter in front of a decimation.
pub const PRE_TAPS_MIN: usize = 127;

/// The most coefficients of the filter in front of a decimation.
pub const PRE_TAPS_MAX: usize = 1535;

/// The coefficients of the channel filter.
pub const CHAN_TAPS: usize = 1023;

/// The pitch of a Morse tone in hertz.
pub const CW_PITCH_HZ: i64 = 700;

/// The lowest frequency of the manual notch in hertz.
pub const NOTCH_MIN_HZ: i64 = 100;

/// The highest frequency of the manual notch in hertz.
pub const NOTCH_MAX_HZ: i64 = 5_000;

/// How many coefficients the filter in front of a decimation has: forty for each sample that comes
/// on one, within the limits, and odd, so that there is one in the middle.
pub open spec fn pre_taps_for(decim: int) -> int {
    let n = if 40 * decim < PRE_TAPS_MIN {
        PRE_TAPS_MIN as int
    } else if 40 * decim > PRE_TAPS_MAX {
        PRE_TAPS_MAX as int
    } else {
        40 * decim
    };
    if n % 2 == 0 {
        n + 1
    } else {
        n
    }
}

/// How many coefficients the filter in front of a decimation has.
pub fn pre_taps(decim: usize) -> (r: usize)
    ensures
        r == pre_taps_for(decim as int),
{
    let n: usize = if decim < 4 {
        PRE_TAPS_MIN
    } else if decim > 38 {
        PRE_TAPS_MAX
    } else {
        40 * decim
    };
    if n % 2 == 0 {
        n + 1
    } else {
        n
    }
}

/// The number of coefficients is odd, within the limits, and never falls as the decimation grows.
pub proof fn law_taps_are_odd(decim: int, more: int)
    requires
        0 <= decim <= more,
    ensures
        pre_taps_for(decim) % 2 == 1,
        PRE_TAPS_MIN <= pre_taps_for(decim) <= PRE_TAPS_MAX,
        pre_taps_for(decim) <= pre_taps_for(more),
{
}

/// The kind of modulation that is received.
#[derive(Clone, Copy, PartialEq, Eq, Debug, Structural)]
pub enum Mode {
    Am,
    Usb,
    Lsb,
    Cw,
    /// Wideband FM, broadcasting on VHF.
    Wfm,
    /// Narrowband FM, amateur traffic.
    Nfm,
}

impl Default for Mode {
    fn default() -> (r: Mode)
        ensures
            r == Mode::Am,
    {
        Mode::Am
    }
}

impl Mode {
    /// The name of the mode.
    pub open spec fn name(self) -> Seq<char> {
        match self {
            Mode::Am => "AM"@,
            Mode::Usb => "USB"@,
            Mode::Lsb => "LSB"@,
            Mode::Cw => "CW"@,
            Mode::Wfm => "WFM"@,
            Mode::Nfm => "NFM"@,
        }
    }

    /// The name of the mode.
    pub fn label(&self) -> (r: &'static str)
        ensures
            r@ == self.name(),
    {
        match self {
            Mode::Am => "AM",
            Mode::Usb => "USB",
            Mode::Lsb => "LSB",
            Mode::Cw => "CW",
            Mode::Wfm => "WFM",
            Mode::Nfm => "NFM",
        }
    }

    /// Whether only one side of the carrier is received.
    pub fn is_ssb(&self) -> (r: bool)
        ensures
            r == (*self == Mode::Usb || *self == Mode::Lsb),
    {
        *self == Mode::Usb || *self == Mode::Lsb
    }

    /// Whether this is wideband FM, which has a chain of its own.
    pub fn is_wfm(&self) -> (r: bool)
        ensures
            r == (*self == Mode::Wfm),
    {
        *self == Mode::Wfm
    }
}

/// How fast the gain comes back after a strong signal.
#[derive(Clone, Copy, PartialEq, Eq, Debug, Structural)]
pub enum AgcMode {
    Fast,
    Medium,
    Slow,
    /// The gain is set by hand.
    Off,
}

impl Default for AgcMode {
    fn default() -> (r: AgcMode)
        ensures
            r == AgcMode::Medium,
    {
        AgcMode::Medium
    }
}

impl AgcMode {
    /// All the speeds, the fastest first.
    pub fn all() -> (r: [AgcMode; 4])
        ensures
            r@ == seq![AgcMode::Fast, AgcMode::Medium, AgcMode::Slow, AgcMode::Off],
    {
        [AgcMode::Fast, AgcMode::Medium, AgcMode::Slow, AgcMode::Off]
    }

    /// What the speed is called.
    pub fn label(&self) -> (r: &'static str)
        ensures
            r@ == match *self {
                AgcMode::Fast => "rychlá"@,
                AgcMode::Medium => "střední"@,
                AgcMode::Slow => "pomalá"@,
                AgcMode::Off => "vypnutá"@,
            },
    {
        match self {
            AgcMode::Fast => "rychlá",
            AgcMode::Medium => "střední",
            AgcMode::Slow => "pomalá",
            AgcMode::Off => "vypnutá",
        }
    }

    /// The time constant of the release in milliseconds. Where the gain is set by hand it has no
    /// effect.
    pub fn decay_ms(&self) -> (r: u32)
        ensures
            r == match *self {
                AgcMode::Fast => 100u32,
                AgcMode::Medium => 500u32,
                AgcMode::Slow => 2_000u32,
                AgcMode::Off => 500u32,
            },
    {
        match self {
            AgcMode::Fast => 100,
            AgcMode::Medium => 500,
            AgcMode::Slow => 2_000,
            AgcMode::Off => 500,
        }
    }
}

/// The samples that a filter sees, and when it is due to give a value.
///
/// The samples lie in a ring that is as long as the filter; before the first ones have come, it is
/// filled with silence.
pub struct FirDecim<T> {
    hist: Vec<T>,
    idx: usize,
    decim: usize,
    phase: usize,
    silence: Ghost<T>,
    seen: Ghost<Seq<T>>,
}

/// The sample that came `k` before the last one, or silence.
pub open spec fn recent_of<T>(seen: Seq<T>, silence: T, k: int) -> T {
    if k < seen.len() {
        seen[seen.len() - 1 - k]
    } else {
        silence
    }
}

/// By how much a filter brings the rate down: never by less than one.
pub open spec fn every(decim: usize) -> int {
    if decim == 0 {
        1
    } else {
        decim as int
    }
}

proof fn lemma_next_remainder(n: int, d: int)
    requires
        n >= 0,
        d > 0,
    ensures
        0 <= n % d < d,
        (n + 1) % d == (if n % d + 1 == d {
            0
        } else {
            n % d + 1
        }),
{
    let q = n / d;
    let r = n % d;
    vstd::arithmetic::div_mod::lemma_fundamental_div_mod(n, d);
    vstd::arithmetic::div_mod::lemma_mod_bound(n, d);
    if r + 1 == d {
        assert(n + 1 == (q + 1) * d) by (nonlinear_arith)
            requires
                n == d * q + r,
                r + 1 == d,
        ;
        vstd::arithmetic::div_mod::lemma_fundamental_div_mod_converse(n + 1, d, q + 1, 0);
    } else {
        assert(n + 1 == q * d + (r + 1)) by (nonlinear_arith)
            requires
                n == d * q + r,
        ;
        vstd::arithmetic::div_mod::lemma_fundamental_div_mod_converse(n + 1, d, q, r + 1);
    }
}

impl<T: Copy> FirDecim<T> {
    /// All the samples that came.
    pub closed spec fn seen(&self) -> Seq<T> {
        self.seen@
    }

    /// What stands for samples that have not come.
    pub closed spec fn silence(&self) -> T {
        self.silence@
    }

    /// How many samples the filter sees.
    pub closed spec fn taps(&self) -> nat {
        self.hist@.len()
    }

    /// By how much the rate is brought down.
    pub closed spec fn decim(&self) -> usize {
        self.decim
    }

    /// The place in the ring of the sample that came `k` before the last one.
    spec fn place(&self, k: int) -> int {
        if k < self.idx {
            self.idx - 1 - k
        } else {
            self.idx + self.hist@.len() - 1 - k
        }
    }

    /// The ring holds the last samples, and the count runs up to the decimation.
    pub closed spec fn wf(&self) -> bool {
        &&& self.idx < self.hist@.len()
        &&& self.phase as int == self.seen@.len() % (every(self.decim) as nat)
        &&& forall|k: int|
            0 <= k < self.hist@.len() ==> #[trigger] self.hist@[self.place(k)] == recent_of(
                self.seen@,
                self.silence@,
                k,
            )
    }

    /// A filter of `taps` coefficients that has seen nothing yet.
    pub fn new(taps: usize, decim: usize, silence: T) -> (r: Self)
        ensures
            r.wf(),
            r.seen() == Seq::<T>::empty(),
            r.silence() == silence,
            r.taps() == (if taps == 0 {
                1
            } else {
                taps
            }),
            r.decim() == decim,
    {
        let size: usize = if taps == 0 {
            1
        } else {
            taps
        };
        let mut hist: Vec<T> = Vec::new();
        let mut i: usize = 0;
        while i < size
            invariant
                i <= size,
                hist@.len() == i,
                forall|k: int| 0 <= k < i ==> hist@[k] == silence,
            decreases size - i,
        {
            hist.push(silence);
            i = i + 1;
        }
        proof {
            vstd::arithmetic::div_mod::lemma_small_mod(0, every(decim) as nat);
        }
        FirDecim {
            hist,
            idx: 0,
            decim,
            phase: 0,
            silence: Ghost(silence),
            seen: Ghost(Seq::empty()),
        }
    }

    /// Takes a sample. Every `decim`-th time the filter is due to give a value.
    pub fn push(&mut self, x: T) -> (due: bool)
        requires
            old(self).wf(),
        ensures
            final(self).wf(),
            final(self).seen() == old(self).seen().push(x),
            final(self).silence() == old(self).silence(),
            final(self).taps() == old(self).taps(),
            final(self).decim() == old(self).decim(),
            due == (final(self).seen().len() % (every(old(self).decim()) as nat) == 0),
    {
        let ghost before = *self;
        let at: usize = self.idx;
        self.hist.set(at, x);
        self.idx = if at == self.hist.len() - 1 {
            0
        } else {
            at + 1
        };
        proof {
            self.seen@ = self.seen@.push(x);
        }
        let due: bool = self.phase + 1 >= self.decim;
        proof {
            let d = every(self.decim) as nat;
            let n = before.seen@.len();
            lemma_next_remainder(n as int, d as int);
        }
        self.phase = if due {
            0
        } else {
            self.phase + 1
        };
        proof {
            assert forall|k: int| 0 <= k < self.hist@.len() implies #[trigger] self.hist@[self.place(
                k,
            )] == recent_of(self.seen@, self.silence@, k) by {
                if k == 0 {
                    assert(self.place(0) == at);
                } else {
                    assert(self.place(k) == before.place(k - 1));
                    assert(before.hist@[before.place(k - 1)] == recent_of(
                        before.seen@,
                        before.silence@,
                        k - 1,
                    ));
                }
            }
        }
        due
    }

    /// The sample that came `k` before the last one.
    pub fn recent(&self, k: usize) -> (r: T)
        requires
            self.wf(),
            k < self.taps(),
        ensures
            r == recent_of(self.seen(), self.silence(), k as int),
    {
        assert(self.hist@[self.place(k as int)] == recent_of(self.seen@, self.silence@, k as int));
        if k < self.idx {
            self.hist[self.idx - 1 - k]
        } else {
            self.hist[self.hist.len() - 1 - (k - self.idx)]
        }
    }

    /// By how much the rate is brought down.
    pub fn decimation(&self) -> (r: usize)
        ensures
            r == self.decim(),
    {
        self.decim
    }
}

/// Whether a gate is open after a level was seen: it opens above the upper threshold and shuts
/// below the lower one.
pub fn hysteresis(open: bool, below: bool, above: bool) -> (r: bool)
    ensures
        r == turned(open, below, above),
{
    if open {
        !below
    } else {
        above
    }
}

/// The state of a gate after a level was seen.
pub open spec fn turned(open: bool, below: bool, above: bool) -> bool {
    if open {
        !below
    } else {
        above
    }
}

/// Whether a squelch is open: always where it has no threshold, else as a gate is that shuts below one
/// level and opens above another.
pub fn squelch_open(threshold: bool, open: bool, below: bool, above: bool) -> (r: bool)
    ensures
        r == (!threshold || turned(open, below, above)),
{
    !threshold || hysteresis(open, below, above)
}

/// Between the thresholds a gate stays as it is, so a level that wavers there does not turn it.
pub proof fn law_gate_does_not_flutter(open: bool)
    ensures
        turned(open, false, false) == open,
        turned(open, true, false) == false,
        turned(open, false, true) == true,
{
}

/// The lowest intermediate rate of wideband FM in hertz.
pub const MIN_IF_HZ: u32 = 200_000;

/// The intermediate rate of wideband FM that is aimed at, in hertz.
pub const TARGET_IF_HZ: u32 = 300_000;

/// Whether the rate can come down by `f` first and by a whole number after that, and is still wide
/// enough for the channel in between.
pub open spec fn is_if_decim(in_rate: int, total: int, f: int) -> bool {
    1 <= f <= total && total % f == 0 && in_rate >= MIN_IF_HZ * f
}

/// How far `in_rate / f` is from the rate that is aimed at, times `f`.
pub open spec fn if_error(in_rate: int, f: int) -> int {
    if in_rate >= TARGET_IF_HZ * f {
        in_rate - TARGET_IF_HZ * f
    } else {
        TARGET_IF_HZ * f - in_rate
    }
}

/// Whether `in_rate / f` is nearer to the rate that is aimed at than `in_rate / g`.
pub open spec fn if_nearer(in_rate: int, f: int, g: int) -> bool {
    if_error(in_rate, f) * g < if_error(in_rate, g) * f
}

/// Whether `f` is the decimation that comes nearest to the rate that is aimed at; of two equally
/// near ones, the smaller.
pub open spec fn is_best_if_decim(in_rate: int, total: int, f: int) -> bool {
    &&& is_if_decim(in_rate, total, f)
    &&& forall|g: int| #[trigger]
        is_if_decim(in_rate, total, g) ==> !if_nearer(in_rate, g, f) && (g < f ==> if_nearer(
            in_rate,
            f,
            g,
        ))
}

proof fn lemma_nearer_than_all(a: int, b: int, c: int, f: int, g: int, h: int)
    requires
        f > 0,
        g > 0,
        h > 0,
        a * g < b * f,
        !(c * g < b * h),
    ensures
        a * h < c * f,
{
    assert(a * g * h < b * f * h) by (nonlinear_arith)
        requires
            h > 0,
            a * g < b * f,
    ;
    assert(b * h * f <= c * g * f) by (nonlinear_arith)
        requires
            f > 0,
            b * h <= c * g,
    ;
    assert(b * f * h == b * h * f) by (nonlinear_arith);
    assert(a * h * g < c * f * g) by (nonlinear_arith)
        requires
            a * g * h < b * f * h,
            b * h * f <= c * g * f,
            b * f * h == b * h * f,
    ;
    assert(a * h < c * f) by (nonlinear_arith)
        requires
            g > 0,
            a * h * g < c * f * g,
    ;
}

/// By how much the rate is brought down before wideband FM is demodulated: the divisor of the whole
/// decimation that comes nearest to the intermediate rate that is aimed at, or one where none
/// leaves the channel room.
pub fn wfm_if_decim(in_rate: u32, total_decim: u32) -> (r: u32)
    ensures
        r >= 1,
        (exists|f: int| #[trigger] is_if_decim(in_rate as int, total_decim as int, f))
            ==> is_best_if_decim(in_rate as int, total_decim as int, r as int),
        (forall|f: int| !#[trigger] is_if_decim(in_rate as int, total_decim as int, f)) ==> r == 1,
{
    let mut best: u32 = 1;
    let mut found = false;
    let mut f: u64 = 1;
    while f <= total_decim as u64
        invariant
            1 <= f <= total_decim as u64 + 1,
            best >= 1,
            !found ==> best == 1,
            found ==> best < f && is_if_decim(in_rate as int, total_decim as int, best as int),
            !found ==> forall|g: int|
                #![trigger is_if_decim(in_rate as int, total_decim as int, g)]
                g < f ==> !is_if_decim(in_rate as int, total_decim as int, g),
            found ==> forall|g: int|
                #![trigger is_if_decim(in_rate as int, total_decim as int, g)]
                g < f && is_if_decim(in_rate as int, total_decim as int, g) ==> !if_nearer(
                    in_rate as int,
                    g,
                    best as int,
                ) && (g < best ==> if_nearer(in_rate as int, best as int, g)),
        decreases total_decim as u64 + 1 - f,
    {
        if total_decim as u64 % f == 0 && in_rate as u64 >= MIN_IF_HZ as u64 * f {
            assert(is_if_decim(in_rate as int, total_decim as int, f as int));
            let new_error: u128 = error_of(in_rate, f as u32);
            let old_error: u128 = error_of(in_rate, best);
            assert(new_error * best <= 0xFFFF_FFFF_FFFF_FFFF * 0xFFFF_FFFF) by (nonlinear_arith)
                requires
                    0 <= new_error <= 0xFFFF_FFFF_FFFF_FFFF,
                    0 <= best <= 0xFFFF_FFFF,
            ;
            assert(old_error * f <= 0xFFFF_FFFF_FFFF_FFFF * 0xFFFF_FFFF) by (nonlinear_arith)
                requires
                    0 <= old_error <= 0xFFFF_FFFF_FFFF_FFFF,
                    0 <= f <= 0xFFFF_FFFF,
            ;
            if !found || new_error * (best as u128) < old_error * (f as u128) {
                proof {
                    assert forall|g: int| g < f && #[trigger] is_if_decim(
                        in_rate as int,
                        total_decim as int,
                        g,
                    ) implies !if_nearer(in_rate as int, g, f as int) && if_nearer(
                        in_rate as int,
                        f as int,
                        g,
                    ) by {
                        lemma_nearer_than_all(
                            if_error(in_rate as int, f as int),
                            if_error(in_rate as int, best as int),
                            if_error(in_rate as int, g),
                            f as int,
                            best as int,
                            g,
                        );
                    }
                }
                best = f as u32;
                found = true;
            }
        }
        f = f + 1;
    }
    best
}

fn error_of(in_rate: u32, f: u32) -> (r: u128)
    ensures
        r == if_error(in_rate as int, f as int),
        r <= 0xFFFF_FFFF_FFFF_FFFF,
{
    let aim: u64 = TARGET_IF_HZ as u64 * f as u64;
    if in_rate as u64 >= aim {
        (in_rate as u64 - aim) as u128
    } else {
        (aim - in_rate as u64) as u128
    }
}

/// Whether a running decoder goes on: it is of the kind that is wanted, and for teletype it was
/// made with the same settings.
pub fn keeps_decoder(running: Decoder, config: &RttyConfig, wanted: Decoder, rtty: &RttyConfig) -> (r:
    bool)
    ensures
        r == (running == wanted && (wanted == Decoder::Rtty ==> *config == *rtty)),
{
    running == wanted && (wanted != Decoder::Rtty || (config.reverse == rtty.reverse
        && config.centibaud == rtty.centibaud && config.shift_centihz == rtty.shift_centihz))
}

/// A filter has forty coefficients for each sample that comes on one, and one more to be odd, from
/// four samples on; fewer get 127, and beyond 38 it stays at 1535.
pub proof fn law_taps_grow_with_the_decimation(decim: int)
    requires
        decim >= 0,
    ensures
        4 <= decim <= 38 ==> pre_taps_for(decim) == 40 * decim + 1,
        decim < 4 ==> pre_taps_for(decim) == 127,
        decim > 38 ==> pre_taps_for(decim) == 1535,
{
}

/// A filter sees the last sample first, and each that comes moves the others one place back; before
/// the first one there is silence. It is due once in as many samples as the decimation says, and for
/// each where that says less than two.
pub proof fn law_samples_move_back<T>(seen: Seq<T>, silence: T, x: T, k: int, decim: usize)
    requires
        k >= 0,
    ensures
        recent_of(seen.push(x), silence, 0) == x,
        recent_of(seen.push(x), silence, k + 1) == recent_of(seen, silence, k),
        recent_of(Seq::<T>::empty(), silence, k) == silence,
        decim >= 1 ==> every(decim) == decim,
        every(0) == 1,
{
}

/// The intermediate rate of wideband FM is 200 kHz at least, and no other whole decimation that keeps
/// to that and divides the whole one comes nearer to 300 kHz.
pub proof fn law_intermediate_rate_is_the_nearest(in_rate: int, total: int, f: int, g: int)
    requires
        is_best_if_decim(in_rate, total, f),
        1 <= g <= total,
        total % g == 0,
        in_rate >= 200_000 * g,
    ensures
        1 <= f <= total,
        total % f == 0,
        in_rate >= 200_000 * f,
        ({
            let a = if in_rate >= 300_000 * f {
                in_rate - 300_000 * f
            } else {
                300_000 * f - in_rate
            };
            let b = if in_rate >= 300_000 * g {
                in_rate - 300_000 * g
            } else {
                300_000 * g - in_rate
            };
            a * g <= b * f && (g < f ==> a * g < b * f)
        }),
{
    assert(is_if_decim(in_rate, total, g));
}

/// A gate turns only at the threshold of its own side: one that is open stays open above the lower
/// one, one that is shut stays shut below the upper one.
pub proof fn law_gate_turns_at_its_own_threshold(below: bool, above: bool)
    ensures
        turned(true, below, above) == !below,
        turned(false, below, above) == above,
{
}

} // verus!
