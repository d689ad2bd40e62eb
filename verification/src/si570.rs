//! Tuning of the Si570 synthesiser of a SoftRock receiver over USB.
//!
//! The synthesiser divides its oscillator by two dividers, HSDIV and N1, and multiplies its
//! crystal by a fixed-point number, RFREQ. It runs at four times the received frequency, because
//! the receiver makes its two phases with a divider by four.
use crate::text;
use vstd::prelude::*;

verus! {

/// The USB vendor of the receiver.
pub const VENDOR_ID: u16 = 0x16c0;

/// The USB product of the receiver.
pub const PRODUCT_ID: u16 = 0x05dc;

/// The oscillator must not run slower than this, in hertz.
pub const SI570_MIN_DCO: u64 = 4_850_000_000;

/// The oscillator must not run faster than this, in hertz.
pub const SI570_MAX_DCO: u64 = 5_670_000_000;

/// The request that writes the registers r7 to r12.
pub const REQ_SET_REGS: u8 = 0x30;

/// The request that reads the frequency.
pub const REQ_GET_FREQ: u8 = 0x3a;

/// The request that reads the version of the firmware.
pub const REQ_VERSION: u8 = 0x00;

/// The index that goes with the request for the version.
pub const VERSION_VALUE: u16 = 0x0e00;

/// Why no registers can be given for a frequency.
#[derive(Clone, Copy, PartialEq, Eq, Debug, Structural)]
pub enum TuneError {
    /// The frequency is not positive.
    Invalid,
    /// No setting of the dividers makes the frequency.
    OutOfRange,
}

/// The values that HSDIV can have.
pub open spec fn is_hsdiv(h: int) -> bool {
    h == 11 || h == 9 || h == 7 || h == 6 || h == 5 || h == 4
}

/// The pair of dividers is one that is used: N1 is even.
pub open spec fn is_divider(h: int, n: int) -> bool {
    is_hsdiv(h) && 2 <= n <= 128 && n % 2 == 0
}

/// The oscillator frequency that the dividers ask for, to give `f` at the output.
pub open spec fn dco(f: int, h: int, n: int) -> int {
    f * h * n
}

/// The dividers give `f` with the oscillator in its range.
pub open spec fn reaches(f: int, h: int, n: int) -> bool {
    is_divider(h, n) && SI570_MIN_DCO <= dco(f, h, n) <= SI570_MAX_DCO
}

/// The first pair is to be preferred: the lower oscillator frequency, and for the same frequency
/// the higher HSDIV.
pub open spec fn preferred(f: int, h: int, n: int, h2: int, n2: int) -> bool {
    dco(f, h, n) < dco(f, h2, n2) || dco(f, h, n) == dco(f, h2, n2) && h >= h2
}

/// The dividers are the best of all that give `f`.
pub open spec fn is_best(f: int, h: int, n: int) -> bool {
    &&& reaches(f, h, n)
    &&& forall|h2: int, n2: int| #[trigger] reaches(f, h2, n2) ==> preferred(f, h, n, h2, n2)
}

/// The synthesiser's output for a received frequency in millihertz: four times it, in whole
/// hertz.
pub open spec fn output_hz(rf_millihz: int) -> int {
    4 * rf_millihz / 1000
}

/// `a / b` rounded to the nearest whole number, halves up.
pub open spec fn rounded(a: int, b: int) -> int {
    (2 * a + b) / (2 * b)
}

/// The whole part of RFREQ, the ratio of the oscillator and the crystal.
pub open spec fn rfreq_whole(dco_hz: int, xtal_millihz: int) -> int {
    dco_hz * 1000 / xtal_millihz
}

/// The fraction of RFREQ in units of 2^-28.
pub open spec fn rfreq_fraction(dco_hz: int, xtal_millihz: int) -> int {
    rounded((dco_hz * 1000) % xtal_millihz * 0x1000_0000, xtal_millihz)
}

/// The registers r7 to r12 that hold the dividers and RFREQ. HSDIV goes in as its distance from
/// four, N1 as its distance from one.
pub open spec fn packed(h: u64, n: u64, whole: u64, fraction: u64) -> Seq<u8> {
    let hs = (h - 4) as u64;
    let n1 = (n - 1) as u64;
    let tail = ((whole & 0xf) << 28) | fraction;
    seq![
        ((hs << 5) | (n1 >> 2)) as u8,
        (((n1 & 0x3) << 6) | (whole >> 4)) as u8,
        (tail >> 24) as u8,
        (tail >> 16) as u8,
        (tail >> 8) as u8,
        tail as u8,
    ]
}

/// The registers for an output frequency and a pair of dividers.
pub open spec fn registers_for(f: int, h: int, n: int, xtal_millihz: int) -> Seq<u8> {
    packed(
        h as u64,
        n as u64,
        rfreq_whole(dco(f, h, n), xtal_millihz) as u64,
        rfreq_fraction(dco(f, h, n), xtal_millihz) as u64,
    )
}

/// For one HSDIV, the smallest even N1 that brings the oscillator up to its range: every pair with
/// this HSDIV that reaches the frequency has an N1 at least as large.
proof fn lemma_smallest_n1(f: int, h: int, m: int, n: int)
    requires
        f > 0,
        is_hsdiv(h),
        m == (SI570_MIN_DCO + f * h - 1) / (f * h),
        n == (m + 1) / 2 * 2,
    ensures
        1 <= m,
        2 <= n,
        n % 2 == 0,
        dco(f, h, n) >= SI570_MIN_DCO,
        forall|n2: int| #[trigger]
            reaches(f, h, n2) ==> n2 >= n && dco(f, h, n2) >= dco(f, h, n),
{
    let step = f * h;
    assert(step >= 4) by (nonlinear_arith)
        requires
            step == f * h,
            f > 0,
            h >= 4,
    ;
    assert(1 <= m && m * step >= 4_850_000_000 && (m - 1) * step < 4_850_000_000)
        by (nonlinear_arith)
        requires
            step >= 4,
            m == (4_850_000_000 + step - 1) / step,
    ;
    assert(step * n >= step * m) by (nonlinear_arith)
        requires
            n >= m,
            step >= 4,
    ;
    assert(step * m == m * step) by (nonlinear_arith);
    assert forall|n2: int| #[trigger] reaches(f, h, n2) implies n2 >= n && dco(f, h, n2) >= dco(
        f,
        h,
        n,
    ) by {
        assert(n2 >= m) by (nonlinear_arith)
            requires
                step * n2 >= 4_850_000_000,
                (m - 1) * step < 4_850_000_000,
                step >= 4,
        ;
        assert(step * n2 >= step * n) by (nonlinear_arith)
            requires
                n2 >= n,
                step >= 4,
        ;
    }
}

/// Finds the dividers that give `f` with the lowest oscillator frequency.
fn best_dividers(f: u64) -> (r: Option<(u64, u64)>)
    requires
        0 < f < 0x100_0000_0000_0000,
    ensures
        r matches Some((h, n)) ==> is_best(f as int, h as int, n as int),
        r is None ==> forall|h: int, n: int| !#[trigger] reaches(f as int, h, n),
{
    let values: [u64; 6] = [11, 9, 7, 6, 5, 4];
    let mut best: Option<(u64, u64)> = None;
    let mut i: usize = 0;
    while i < 6
        invariant
            i <= 6,
            0 < f < 0x100_0000_0000_0000,
            values@ == seq![11u64, 9, 7, 6, 5, 4],
            best matches Some((h, n)) ==> {
                &&& reaches(f as int, h as int, n as int)
                &&& i < 6 ==> h > values@[i as int]
                &&& forall|h2: int, n2: int| #[trigger]
                    reaches(f as int, h2, n2) && (i < 6 ==> h2 > values@[i as int])
                        ==> preferred(f as int, h as int, n as int, h2, n2)
            },
            best is None ==> forall|h2: int, n2: int| #[trigger]
                reaches(f as int, h2, n2) ==> i < 6 && h2 <= values@[i as int],
        decreases 6 - i,
    {
        let h: u64 = values[i];
        assert(f * h <= 0x100_0000_0000_0000 * 11 && f * h >= 4) by (nonlinear_arith)
            requires
                0 < f < 0x100_0000_0000_0000,
                4 <= h <= 11,
        ;
        let step: u64 = f * h;
        let m: u64 = (SI570_MIN_DCO + step - 1) / step;
        assert(m <= 4_850_000_000) by (nonlinear_arith)
            requires
                step >= 4,
                m == (4_850_000_000 + step - 1) / step as int,
        ;
        let n: u64 = (m + 1) / 2 * 2;
        proof {
            lemma_smallest_n1(f as int, h as int, m as int, n as int);
        }
        let ghost before = best;
        if n <= 128 && step <= SI570_MAX_DCO {
            assert(step * n <= 5_670_000_000 * 128) by (nonlinear_arith)
                requires
                    step <= 5_670_000_000,
                    n <= 128,
            ;
            let freq: u64 = step * n;
            if freq <= SI570_MAX_DCO {
                assert(reaches(f as int, h as int, n as int));
                let lower: bool = match best {
                    None => true,
                    Some((bh, bn)) => {
                        assert(f * bh <= 5_670_000_000 && f * bh * bn <= 5_670_000_000)
                            by (nonlinear_arith)
                            requires
                                f * bh * bn <= 5_670_000_000,
                                bn >= 2,
                                f * bh >= 0,
                        ;
                        freq < f * bh * bn
                    },
                };
                if lower {
                    best = Some((h, n));
                }
            } else {
                assert(forall|n2: int| !#[trigger] reaches(f as int, h as int, n2));
            }
        } else {
            assert(step > SI570_MAX_DCO ==> step * n > SI570_MAX_DCO) by (nonlinear_arith)
                requires
                    n >= 2,
            ;
            assert(forall|n2: int| !#[trigger] reaches(f as int, h as int, n2));
        }
        i = i + 1;
    }
    best
}

/// The contents of the registers r7 to r12 for a received frequency, in millihertz, and a crystal
/// frequency, in millihertz.
pub fn registers(rf_millihz: i64, xtal_millihz: u64) -> (r: Result<[u8; 6], TuneError>)
    requires
        xtal_millihz > 0,
    ensures
        r == Err::<[u8; 6], TuneError>(TuneError::Invalid) <==> rf_millihz <= 0,
        r == Err::<[u8; 6], TuneError>(TuneError::OutOfRange) <==> rf_millihz > 0 && forall|
            h: int,
            n: int,
        |
            !#[trigger] reaches(output_hz(rf_millihz as int), h, n),
        r is Ok ==> exists|h: int, n: int|
            #[trigger] is_best(output_hz(rf_millihz as int), h, n) && r->Ok_0@ == registers_for(
                output_hz(rf_millihz as int),
                h,
                n,
                xtal_millihz as int,
            ),
{
    if rf_millihz <= 0 {
        return Err(TuneError::Invalid);
    }
    let f: u64 = (4 * (rf_millihz as u128) / 1000) as u64;
    assert(f == output_hz(rf_millihz as int));
    if f == 0 {
        assert forall|h: int, n: int| !#[trigger] reaches(0, h, n) by {
            assert(0 * h * n == 0) by (nonlinear_arith);
        }
        return Err(TuneError::OutOfRange);
    }
    let (h, n) = match best_dividers(f) {
        Some(pair) => pair,
        None => {
            return Err(TuneError::OutOfRange);
        },
    };
    assert(f * h <= 5_670_000_000) by (nonlinear_arith)
        requires
            f * h * n <= 5_670_000_000,
            n >= 2,
            f * h >= 0,
    ;
    let freq: u128 = (f * h * n) as u128;
    let xtal: u128 = xtal_millihz as u128;
    let whole: u64 = (freq * 1000 / xtal) as u64;
    let rest: u128 = freq * 1000 % xtal;
    let fraction: u64 = ((2 * (rest * 0x1000_0000) + xtal) / (2 * xtal)) as u64;
    proof {
        assert(whole == freq * 1000 / xtal as int) by {
            assert(freq * 1000 / xtal as int <= 5_670_000_000_000) by (nonlinear_arith)
                requires
                    0 <= freq <= 5_670_000_000,
                    xtal >= 1,
            ;
        }
        let top = 2 * (rest * 0x1000_0000) + xtal;
        assert(0 <= top / (2 * xtal) <= 0x1000_0000) by (nonlinear_arith)
            requires
                0 <= rest <= xtal - 1,
                xtal >= 1,
                top == 2 * (rest * 0x1000_0000) + xtal,
        ;
        assert(fraction == rfreq_fraction(dco(f as int, h as int, n as int), xtal_millihz as int));
    }
    let hs: u64 = h - 4;
    let n1: u64 = n - 1;
    let tail: u64 = ((whole & 0xf) << 28) | fraction;
    let regs: [u8; 6] = [
        ((hs << 5) | (n1 >> 2)) as u8,
        (((n1 & 0x3) << 6) | (whole >> 4)) as u8,
        (tail >> 24) as u8,
        (tail >> 16) as u8,
        (tail >> 8) as u8,
        tail as u8,
    ];
    assert(regs@ == registers_for(f as int, h as int, n as int, xtal_millihz as int));
    assert(is_best(f as int, h as int, n as int));
    Ok(regs)
}

/// Only one pair of dividers is the best for a frequency.
pub proof fn law_best_is_unique(f: int, h: int, n: int, h2: int, n2: int)
    requires
        f > 0,
        is_best(f, h, n),
        is_best(f, h2, n2),
    ensures
        h == h2,
        n == n2,
{
    assert(reaches(f, h, n) && reaches(f, h2, n2));
    assert(n == n2) by (nonlinear_arith)
        requires
            f > 0,
            h >= 4,
            h == h2,
            f * h * n == f * h2 * n2,
    ;
}

/// The registers hold every setting apart: the dividers and both parts of RFREQ can be read back.
pub proof fn law_settings_can_be_read_back(h: u64, n: u64, whole: u64, fraction: u64)
    requires
        4 <= h <= 11,
        1 <= n <= 128,
        whole < 0x400,
        fraction < 0x1000_0000,
    ensures
        ({
            let r = packed(h, n, whole, fraction);
            &&& h == (r[0] >> 5) + 4
            &&& n == ((((r[0] & 0x1f) as u64) << 2) | ((r[1] >> 6) as u64)) + 1
            &&& whole == (((r[1] & 0x3f) as u64) << 4) | ((r[2] >> 4) as u64)
            &&& fraction == (((r[2] & 0xf) as u64) << 24) | ((r[3] as u64) << 16) | ((r[4] as u64)
                << 8) | (r[5] as u64)
        }),
{
    let r = packed(h, n, whole, fraction);
    let (a, b, c, d, e, g) = (r[0], r[1], r[2], r[3], r[4], r[5]);
    let hs = (h - 4) as u64;
    let n1 = (n - 1) as u64;
    let tail = ((whole & 0xf) << 28) | fraction;
    assert(hs == (a >> 5) as u64 && n1 == (((a & 0x1f) as u64) << 2) | ((b >> 6) as u64) && whole
        == (((b & 0x3f) as u64) << 4) | ((c >> 4) as u64) && fraction == (((c & 0xf) as u64) << 24)
        | ((d as u64) << 16) | ((e as u64) << 8) | (g as u64)) by (bit_vector)
        requires
            hs <= 7,
            n1 <= 127,
            whole < 0x400,
            fraction < 0x1000_0000,
            tail == ((whole & 0xf) << 28) | fraction,
            a == ((hs << 5) | (n1 >> 2)) as u8,
            b == (((n1 & 0x3) << 6) | (whole >> 4)) as u8,
            c == (tail >> 24) as u8,
            d == (tail >> 16) as u8,
            e == (tail >> 8) as u8,
            g == tail as u8,
    ;
}

/// RFREQ is as near to the ratio of oscillator and crystal as its 28 fraction bits allow: the
/// oscillator is off by no more than half of the crystal frequency times 2^-28.
pub proof fn law_oscillator_is_near(dco_hz: int, xtal_millihz: int)
    requires
        dco_hz >= 0,
        xtal_millihz > 0,
    ensures
        ({
            let rfreq = rfreq_whole(dco_hz, xtal_millihz) * 0x1000_0000 + rfreq_fraction(
                dco_hz,
                xtal_millihz,
            );
            let off = xtal_millihz * rfreq - dco_hz * 1000 * 0x1000_0000;
            -xtal_millihz <= 2 * off <= xtal_millihz
        }),
{
    let a = dco_hz * 1000;
    let w = rfreq_whole(dco_hz, xtal_millihz);
    let q = rfreq_fraction(dco_hz, xtal_millihz);
    let rest = a % xtal_millihz;
    let t = rest * 0x1000_0000;
    assert(a == xtal_millihz * w + rest) by (nonlinear_arith)
        requires
            w == a / xtal_millihz,
            rest == a % xtal_millihz,
            xtal_millihz > 0,
    ;
    assert(-xtal_millihz <= 2 * (xtal_millihz * q - t) <= xtal_millihz) by (nonlinear_arith)
        requires
            q == (2 * t + xtal_millihz) / (2 * xtal_millihz),
            xtal_millihz > 0,
    ;
    assert(xtal_millihz * (w * 0x1000_0000 + q) == (xtal_millihz * w) * 0x1000_0000 + xtal_millihz
        * q) by (nonlinear_arith);
}

/// The divider HSDIV that registers hold.
pub open spec fn held_hsdiv(r: Seq<u8>) -> int {
    r[0] as int / 32 + 4
}

/// The divider N1 that registers hold.
pub open spec fn held_n1(r: Seq<u8>) -> int {
    (r[0] as int % 32) * 4 + r[1] as int / 64 + 1
}

/// The ratio of oscillator and crystal that registers hold, in units of 2^-28.
pub open spec fn held_rfreq(r: Seq<u8>) -> int {
    ((((r[1] as int % 64) * 256 + r[2]) * 256 + r[3]) * 256 + r[4]) * 256 + r[5]
}

/// The output frequency is four times the received one, less than a hertz short of it.
pub proof fn law_output_is_four_times_the_input(rf_millihz: int)
    ensures
        1000 * output_hz(rf_millihz) <= 4 * rf_millihz < 1000 * output_hz(rf_millihz) + 1000,
{
}

/// What the registers hold stands in them as the synthesiser reads it.
proof fn lemma_registers_hold(h: u64, n: u64, whole: u64, fraction: u64)
    requires
        4 <= h <= 11,
        1 <= n <= 128,
        whole < 0x400,
        fraction < 0x1000_0000,
    ensures
        held_hsdiv(packed(h, n, whole, fraction)) == h,
        held_n1(packed(h, n, whole, fraction)) == n,
        held_rfreq(packed(h, n, whole, fraction)) == whole * 0x1000_0000 + fraction,
{
    let r = packed(h, n, whole, fraction);
    let (a, b, c, d, e, g) = (r[0], r[1], r[2], r[3], r[4], r[5]);
    let hs = (h - 4) as u64;
    let n1 = (n - 1) as u64;
    let tail = ((whole & 0xf) << 28) | fraction;
    assert(hs == a / 32 && n1 == (a % 32) * 4 + b / 64 && ((((b % 64) * 256 + c) * 256 + d) * 256
        + e) * 256 + g == whole * 0x1000_0000 + fraction) by (bit_vector)
        requires
            hs <= 7,
            n1 <= 127,
            whole < 0x400,
            fraction < 0x1000_0000,
            tail == ((whole & 0xf) << 28) | fraction,
            a == ((hs << 5) | (n1 >> 2)) as u8,
            b == (((n1 & 0x3) << 6) | (whole >> 4)) as u8,
            c == (tail >> 24) as u8,
            d == (tail >> 16) as u8,
            e == (tail >> 8) as u8,
            g == tail as u8,
    ;
}

/// The ratio of an oscillator and a crystal fits in the registers: its whole part has ten bits, and
/// its fraction is not rounded up to one.
pub open spec fn fits(oscillator_millihz: int, xtal_millihz: int) -> bool {
    &&& oscillator_millihz / xtal_millihz < 0x400
    &&& 0x2000_0000 * (oscillator_millihz % xtal_millihz) + xtal_millihz < 0x2000_0000
        * xtal_millihz
}

/// What is written to the registers gives four times the received frequency: the crystal times
/// RFREQ, divided by both dividers, is less than a hertz below it, up to half a unit of RFREQ. The
/// dividers are ones that the chip has and keep the oscillator in its range.
#[verifier::rlimit(40)]
pub proof fn law_registers_give_four_times_the_input(
    rf_millihz: int,
    xtal_millihz: int,
    h: int,
    n: int,
)
    requires
        rf_millihz > 0,
        xtal_millihz > 0,
        is_best(output_hz(rf_millihz), h, n),
        fits(1000 * (4 * rf_millihz / 1000 * (h * n)), xtal_millihz),
    ensures
        ({
            let r = registers_for(output_hz(rf_millihz), h, n, xtal_millihz);
            let (d, e) = (held_hsdiv(r), held_n1(r));
            let short = (4 * rf_millihz) * (d * e) * 0x1000_0000 - xtal_millihz * held_rfreq(r);
            &&& -xtal_millihz <= 2 * short < 2 * (1000 * (d * e) * 0x1000_0000) + xtal_millihz
            &&& d == 4 || d == 5 || d == 6 || d == 7 || d == 9 || d == 11
            &&& 2 <= e <= 128 && e % 2 == 0
            &&& 4_850_000_000 <= 4 * rf_millihz / 1000 * (d * e) <= 5_670_000_000
        }),
{
    let f = output_hz(rf_millihz);
    let o = dco(f, h, n);
    law_output_is_four_times_the_input(rf_millihz);
    assert(reaches(f, h, n));
    assert(f * h * n == f * (h * n)) by (nonlinear_arith);
    let a = o * 1000;
    let w = rfreq_whole(o, xtal_millihz);
    let q = rfreq_fraction(o, xtal_millihz);
    assert(0 <= w < 0x400);
    assert(0 <= q < 0x1000_0000) by {
        let t = a % xtal_millihz * 0x1000_0000;
        assert(0 <= (2 * t + xtal_millihz) / (2 * xtal_millihz) < 0x1000_0000) by (nonlinear_arith)
            requires
                xtal_millihz > 0,
                t >= 0,
                2 * t + xtal_millihz < 0x2000_0000 * xtal_millihz,
        ;
    }
    lemma_registers_hold(h as u64, n as u64, w as u64, q as u64);
    law_oscillator_is_near(o, xtal_millihz);
    let g = 4 * rf_millihz - 1000 * f;
    let p = h * n;
    assert((4 * rf_millihz) * p == 1000 * (f * p) + g * p) by (nonlinear_arith)
        requires
            4 * rf_millihz == 1000 * f + g,
    ;
    assert(0 <= g * p < 1000 * p) by (nonlinear_arith)
        requires
            0 <= g < 1000,
            h >= 4,
            n >= 2,
            p == h * n,
    ;
}

/// The dividers are the best that there are: among all pairs that keep the oscillator in its range
/// none has a smaller product, and of those with the same product none has the larger HSDIV.
pub proof fn law_oscillator_is_the_lowest(rf_millihz: int, h: int, n: int, h2: int, n2: int)
    requires
        rf_millihz > 0,
        is_best(output_hz(rf_millihz), h, n),
        h2 == 4 || h2 == 5 || h2 == 6 || h2 == 7 || h2 == 9 || h2 == 11,
        2 <= n2 <= 128 && n2 % 2 == 0,
        4_850_000_000 <= 4 * rf_millihz / 1000 * (h2 * n2) <= 5_670_000_000,
    ensures
        h * n < h2 * n2 || h * n == h2 * n2 && h >= h2,
{
    let f = output_hz(rf_millihz);
    assert(f * h * n == f * (h * n)) by (nonlinear_arith);
    assert(f * h2 * n2 == f * (h2 * n2)) by (nonlinear_arith);
    assert(reaches(f, h2, n2));
    assert(preferred(f, h, n, h2, n2));
    let (p, p2) = (h * n, h2 * n2);
    assert(f > 0) by (nonlinear_arith)
        requires
            f * p2 >= 4_850_000_000,
            p2 > 0 || p2 <= 0,
            f >= 0,
    ;
    assert(f * p < f * p2 ==> p < p2) by (nonlinear_arith)
        requires
            f > 0,
    ;
    assert(f * p == f * p2 ==> p == p2) by (nonlinear_arith)
        requires
            f > 0,
    ;
}

/// No frequency from 870 kHz to 118 MHz is out of range: some dividers make it.
#[verifier::rlimit(40)]
pub proof fn law_no_gaps_up_to_the_broadcast_band(rf_millihz: int)
    requires
        870_000_000 <= rf_millihz <= 118_000_000_000,
    ensures
        exists|h: int, n: int| #[trigger] reaches(output_hz(rf_millihz), h, n),
{
    let f = output_hz(rf_millihz);
    if 4_850_000_000 <= 12 * f <= 5_670_000_000 {
        assert(reaches(f, 6, 2));
    } else if 4_850_000_000 <= 14 * f <= 5_670_000_000 {
        assert(reaches(f, 7, 2));
    } else if 4_850_000_000 <= 16 * f <= 5_670_000_000 {
        assert(reaches(f, 4, 4));
    } else if 4_850_000_000 <= 18 * f <= 5_670_000_000 {
        assert(reaches(f, 9, 2));
    } else if 4_850_000_000 <= 20 * f <= 5_670_000_000 {
        assert(reaches(f, 5, 4));
    } else if 4_850_000_000 <= 22 * f <= 5_670_000_000 {
        assert(reaches(f, 11, 2));
    } else if 4_850_000_000 <= 24 * f <= 5_670_000_000 {
        assert(reaches(f, 4, 6));
    } else if 4_850_000_000 <= 28 * f <= 5_670_000_000 {
        assert(reaches(f, 7, 4));
    } else if 4_850_000_000 <= 32 * f <= 5_670_000_000 {
        assert(reaches(f, 4, 8));
    } else if 4_850_000_000 <= 36 * f <= 5_670_000_000 {
        assert(reaches(f, 6, 6));
    } else if 4_850_000_000 <= 42 * f <= 5_670_000_000 {
        assert(reaches(f, 7, 6));
    } else if 4_850_000_000 <= 48 * f <= 5_670_000_000 {
        assert(reaches(f, 4, 12));
    } else if 4_850_000_000 <= 56 * f <= 5_670_000_000 {
        assert(reaches(f, 4, 14));
    } else if 4_850_000_000 <= 64 * f <= 5_670_000_000 {
        assert(reaches(f, 4, 16));
    } else if 4_850_000_000 <= 72 * f <= 5_670_000_000 {
        assert(reaches(f, 4, 18));
    } else if 4_850_000_000 <= 84 * f <= 5_670_000_000 {
        assert(reaches(f, 6, 14));
    } else if 4_850_000_000 <= 98 * f <= 5_670_000_000 {
        assert(reaches(f, 7, 14));
    } else if 4_850_000_000 <= 112 * f <= 5_670_000_000 {
        assert(reaches(f, 4, 28));
    } else if 4_850_000_000 <= 130 * f <= 5_670_000_000 {
        assert(reaches(f, 5, 26));
    } else if 4_850_000_000 <= 150 * f <= 5_670_000_000 {
        assert(reaches(f, 5, 30));
    } else if 4_850_000_000 <= 170 * f <= 5_670_000_000 {
        assert(reaches(f, 5, 34));
    } else if 4_850_000_000 <= 198 * f <= 5_670_000_000 {
        assert(reaches(f, 9, 22));
    } else if 4_850_000_000 <= 230 * f <= 5_670_000_000 {
        assert(reaches(f, 5, 46));
    } else if 4_850_000_000 <= 266 * f <= 5_670_000_000 {
        assert(reaches(f, 7, 38));
    } else if 4_850_000_000 <= 310 * f <= 5_670_000_000 {
        assert(reaches(f, 5, 62));
    } else if 4_850_000_000 <= 360 * f <= 5_670_000_000 {
        assert(reaches(f, 4, 90));
    } else if 4_850_000_000 <= 420 * f <= 5_670_000_000 {
        assert(reaches(f, 5, 84));
    } else if 4_850_000_000 <= 490 * f <= 5_670_000_000 {
        assert(reaches(f, 5, 98));
    } else if 4_850_000_000 <= 572 * f <= 5_670_000_000 {
        assert(reaches(f, 11, 52));
    } else if 4_850_000_000 <= 666 * f <= 5_670_000_000 {
        assert(reaches(f, 9, 74));
    } else if 4_850_000_000 <= 774 * f <= 5_670_000_000 {
        assert(reaches(f, 9, 86));
    } else if 4_850_000_000 <= 902 * f <= 5_670_000_000 {
        assert(reaches(f, 11, 82));
    } else if 4_850_000_000 <= 1044 * f <= 5_670_000_000 {
        assert(reaches(f, 9, 116));
    } else if 4_850_000_000 <= 1210 * f <= 5_670_000_000 {
        assert(reaches(f, 11, 110));
    } else if 4_850_000_000 <= 1408 * f <= 5_670_000_000 {
        assert(reaches(f, 11, 128));
    }
}

/// The direction of a control transfer, seen from the computer.
#[derive(Clone, Copy, PartialEq, Eq, Debug, Structural)]
pub enum TransferDirection {
    In,
    Out,
}

/// `rusb::request_type` for vendor requests to the device: bit 7 is set for transfers to the
/// computer, bits 5 and 6 hold the number two of vendor requests, and the recipient "device" is
/// zero.
#[verifier::external_body]
fn vendor_request_type(direction: TransferDirection) -> (r: u8)
    ensures
        r == (match direction {
            TransferDirection::In => 0xC0u8,
            TransferDirection::Out => 0x40u8,
        }),
{
    let direction = match direction {
        TransferDirection::In => rusb::Direction::In,
        TransferDirection::Out => rusb::Direction::Out,
    };
    rusb::request_type(direction, rusb::RequestType::Vendor, rusb::Recipient::Device)
}

/// The request type of transfers to the device.
pub fn req_out() -> (r: u8)
    ensures
        r == 0x40,
{
    vendor_request_type(TransferDirection::Out)
}

/// The request type of transfers from the device.
pub fn req_in() -> (r: u8)
    ensures
        r == 0xC0,
{
    vendor_request_type(TransferDirection::In)
}

/// A control transfer that writes the registers.
pub struct RegisterWrite {
    pub request_type: u8,
    pub request: u8,
    pub value: u16,
    pub index: u16,
    pub data: [u8; 6],
}

/// A control transfer that reads.
#[derive(Clone, Copy, PartialEq, Eq, Debug, Structural)]
pub struct ControlRead {
    pub request_type: u8,
    pub request: u8,
    pub value: u16,
    pub index: u16,
}

/// A synthesiser, as far as its settings go: its crystal and its address on the I2C bus.
#[derive(Clone, Copy, PartialEq, Eq, Debug, Structural)]
pub struct Si570 {
    pub xtal_millihz: u64,
    pub i2c_addr: u16,
}

impl Si570 {
    /// The transfer that tunes to a received frequency in millihertz.
    pub fn set_freq(&self, rf_millihz: i64) -> (r: Result<RegisterWrite, TuneError>)
        requires
            self.xtal_millihz > 0,
            self.i2c_addr + 0x700 <= u16::MAX,
        ensures
            r is Err && r->Err_0 == TuneError::Invalid <==> rf_millihz <= 0,
            r is Err && r->Err_0 == TuneError::OutOfRange <==> rf_millihz > 0 && forall|
                h: int,
                n: int,
            |
                !#[trigger] reaches(output_hz(rf_millihz as int), h, n),
            r matches Ok(w) ==> {
                &&& (w.request_type, w.request) == (0x40u8, REQ_SET_REGS)
                &&& w.value == self.i2c_addr + 0x700
                &&& w.request == 0x30
                &&& w.index == 0
                &&& exists|h: int, n: int|
                    #[trigger] is_best(output_hz(rf_millihz as int), h, n) && w.data@
                        == registers_for(
                        output_hz(rf_millihz as int),
                        h,
                        n,
                        self.xtal_millihz as int,
                    )
            },
    {
        match registers(rf_millihz, self.xtal_millihz) {
            Ok(data) => Ok(
                RegisterWrite {
                    request_type: req_out(),
                    request: REQ_SET_REGS,
                    value: self.i2c_addr + 0x700,
                    index: 0,
                    data,
                },
            ),
            Err(e) => Err(e),
        }
    }

    /// The transfer that asks for the version; two bytes are expected.
    pub fn version_request() -> (r: ControlRead)
        ensures
            r == (ControlRead {
                request_type: 0xC0,
                request: REQ_VERSION,
                value: VERSION_VALUE,
                index: 0,
            }),
            (r.request, r.value) == (0u8, 0x0e00u16),
    {
        ControlRead {
            request_type: req_in(),
            request: REQ_VERSION,
            value: VERSION_VALUE,
            index: 0,
        }
    }

    /// The version of the firmware from the bytes that came, of which `n` are filled.
    pub fn version(buf: &[u8; 2], n: usize) -> (r: String)
        ensures
            r@ == (if n == 2 {
                text::decimal(buf@[1] as nat) + "."@ + text::decimal(buf@[0] as nat)
            } else {
                "neznámá"@
            }),
    {
        if n == 2 {
            let mut s = String::new();
            text::push_decimal(&mut s, buf[1] as u64);
            text::push_text(&mut s, ".");
            text::push_decimal(&mut s, buf[0] as u64);
            assert(s@ == text::decimal(buf@[1] as nat) + "."@ + text::decimal(buf@[0] as nat));
            s
        } else {
            "neznámá".to_string()
        }
    }

    /// The transfer that asks for the frequency; four bytes are expected.
    pub fn freq_request() -> (r: ControlRead)
        ensures
            r == (ControlRead { request_type: 0xC0, request: REQ_GET_FREQ, value: 0, index: 0 }),
            r.request == 0x3a,
    {
        ControlRead { request_type: req_in(), request: REQ_GET_FREQ, value: 0, index: 0 }
    }

    /// The received frequency that the bytes stand for, in units of 1/8388608 MHz: the bytes hold
    /// the output frequency with the lowest first, in units of 1/2097152 MHz, and the output is
    /// four times what is received.
    pub fn freq(buf: &[u8; 4]) -> (r: u32)
        ensures
            r == buf@[0] + 0x100 * buf@[1] + 0x1_0000 * buf@[2] + 0x100_0000 * buf@[3],
    {
        buf[0] as u32 + 0x100 * (buf[1] as u32) + 0x1_0000 * (buf[2] as u32) + 0x100_0000 * (
        buf[3] as u32)
    }
}

} // verus!
