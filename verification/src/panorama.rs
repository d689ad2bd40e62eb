//! The panorama: which part of the spectrum is seen, where in it the receiver stands, and what is
//! found in it.
//!
//! Frequencies are in millihertz from the middle of the spectrum, levels in thousandths of a
//! decibel, the magnification in millionths.
use crate::dsp;
use vstd::prelude::*;

verus! {

/// No magnification.
pub const ZOOM_ONE: u32 = 1_000_000;

/// The strongest magnification.
pub const MAX_ZOOM: u32 = 32_000_000;

/// How far from the middle a station should not be tuned: the receiver itself is heard there.
pub const DC_GUARD: i64 = 2_000_000;

/// How far from the middle a station is put, where its channel is not too wide for that.
pub const PARK_OFFSET: i64 = 10_000_000;

/// By how much a station stands out from the noise.
pub const STATION_LEVEL: i64 = 6_000;

/// A number brought within limits.
pub open spec fn clamped(x: int, lo: int, hi: int) -> int {
    if x < lo {
        lo
    } else if x > hi {
        hi
    } else {
        x
    }
}

/// A number brought within limits.
pub fn clamp(x: i64, lo: i64, hi: i64) -> (r: i64)
    requires
        lo <= hi,
    ensures
        r == clamped(x as int, lo as int, hi as int),
{
    if x < lo {
        lo
    } else if x > hi {
        hi
    } else {
        x
    }
}

fn clamp_wide(x: i128, lo: i128, hi: i128) -> (r: i128)
    requires
        lo <= hi,
    ensures
        r == clamped(x as int, lo as int, hi as int),
{
    if x < lo {
        lo
    } else if x > hi {
        hi
    } else {
        x
    }
}

/// A magnification brought within its limits.
pub open spec fn zoom_used(zoom: int) -> int {
    clamped(zoom, ZOOM_ONE as int, MAX_ZOOM as int)
}

/// How much of a spectrum is seen at a magnification.
pub open spec fn visible(zoom: int, span: int) -> int {
    span * 1_000_000 / zoom_used(zoom)
}

/// How far the middle of what is seen can be from the middle of the spectrum.
pub open spec fn reach(vis: int, span: int) -> int {
    clamped((span - vis) / 2, 0, (span - vis) / 2)
}

proof fn lemma_visible(zoom: int, span: int)
    requires
        span >= 0,
    ensures
        0 <= visible(zoom, span) <= span,
{
    let z = zoom_used(zoom);
    assert(0 <= span * 1_000_000 / z <= span) by (nonlinear_arith)
        requires
            span >= 0,
            z >= 1_000_000,
    ;
}

/// How much of a spectrum is seen at a magnification.
pub fn visible_width(zoom: u32, span: i64) -> (r: i64)
    requires
        span >= 0,
    ensures
        r == visible(zoom as int, span as int),
        0 <= r <= span,
{
    let z: u32 = if zoom < ZOOM_ONE {
        ZOOM_ONE
    } else if zoom > MAX_ZOOM {
        MAX_ZOOM
    } else {
        zoom
    };
    proof {
        lemma_visible(zoom as int, span as int);
    }
    (span as i128 * 1_000_000 / z as i128) as i64
}

/// The part of the spectrum that is seen: its middle and its width. It does not go beyond the
/// spectrum.
pub fn view_window(zoom: u32, center: i64, span: i64) -> (r: (i64, i64))
    requires
        span >= 0,
    ensures
        r.1 == visible(zoom as int, span as int),
        r.0 == clamped(center as int, -((span - r.1) / 2), (span - r.1) / 2),
        0 <= r.1 <= span,
{
    let vis: i64 = visible_width(zoom, span);
    let limit: i64 = (span - vis) / 2;
    (clamp(center, -limit, limit), vis)
}

/// The middle of what is seen once it has followed the tuning: it stays while the tuning is within
/// the inner nine tenths, else it moves just so far that the tuning is at their edge, and it never
/// goes beyond the spectrum.
pub open spec fn panned(offset: int, center: int, vis: int, span: int) -> int {
    let margin = vis * 45 / 100;
    let c = if offset < center - margin {
        offset + margin
    } else if offset > center + margin {
        offset - margin
    } else {
        center
    };
    clamped(c, -reach(vis, span), reach(vis, span))
}

/// The middle of what is seen once it has followed the tuning.
pub fn pan_view_center(offset: i64, view_center: i64, vis: i64, span: i64) -> (r: i64)
    requires
        vis >= 0,
        span >= 0,
    ensures
        r == panned(offset as int, view_center as int, vis as int, span as int),
{
    let margin: i128 = vis as i128 * 45 / 100;
    let o: i128 = offset as i128;
    let c: i128 = view_center as i128;
    let moved: i128 = if o < c - margin {
        o + margin
    } else if o > c + margin {
        o - margin
    } else {
        c
    };
    let limit: i128 = if span > vis {
        (span as i128 - vis as i128) / 2
    } else {
        0
    };
    clamp_wide(moved, -limit, limit) as i64
}

/// What is seen stays while the tuning moves about in its inner nine tenths.
pub proof fn law_view_stands_still(offset: int, center: int, vis: int, span: int)
    requires
        0 <= vis <= span,
        -reach(vis, span) <= center <= reach(vis, span),
        center - vis * 45 / 100 <= offset <= center + vis * 45 / 100,
    ensures
        panned(offset, center, vis, span) == center,
{
}

/// What is seen lies within the spectrum, wherever its middle was put.
pub proof fn law_view_is_inside(zoom: int, center: int, span: int)
    requires
        span >= 0,
    ensures
        ({
            let vis = visible(zoom, span);
            let c = clamped(center, -((span - vis) / 2), (span - vis) / 2);
            -span <= 2 * c - vis && 2 * c + vis <= span
        }),
{
    lemma_visible(zoom, span);
}

/// After the view has followed the tuning, the tuning is seen, if it is in the spectrum at all.
pub proof fn law_tuning_is_seen(offset: int, center: int, vis: int, span: int)
    requires
        0 <= vis <= span,
        -span <= 2 * offset <= span,
    ensures
        ({
            let c = panned(offset, center, vis, span);
            2 * c - vis - 1 <= 2 * offset <= 2 * c + vis + 1
        }),
{
}

/// Where the receiver stands after the middle of the spectrum was moved: on the same frequency, or
/// at the edge of the spectrum where that is out of it.
pub open spec fn offset_kept(offset: int, applied: int, span: int) -> int {
    clamped(offset - applied, -(span * 48 / 100), span * 48 / 100)
}

/// Where the receiver stands after the middle of the spectrum was moved.
pub fn offset_after_vfo_step(offset: i64, applied: i64, span: i64) -> (r: i64)
    requires
        span >= 0,
    ensures
        r == offset_kept(offset as int, applied as int, span as int),
{
    let limit: i128 = span as i128 * 48 / 100;
    clamp_wide(offset as i128 - applied as i128, -limit, limit) as i64
}

/// Moving the middle of the spectrum leaves the receiver on its frequency, as long as that stays
/// within 48 hundredths of the spectrum on either side; and it never leaves those.
pub proof fn law_vfo_step_keeps_the_station(vfo: int, offset: int, step: int, span: int)
    requires
        span >= 0,
    ensures
        -(span * 48 / 100) <= offset - step <= span * 48 / 100 ==> (vfo + step) + offset_kept(
            offset,
            step,
            span,
        ) == vfo + offset,
        -(span * 48 / 100) <= offset_kept(offset, step, span) <= span * 48 / 100,
{
}

/// How far from the middle a station is put.
pub open spec fn parked(bandwidth: int, span: int) -> int {
    let half = (bandwidth + 1) / 2;
    let needs = half + DC_GUARD;
    if needs <= PARK_OFFSET {
        PARK_OFFSET as int
    } else {
        let most = span * 45 / 100 - half;
        clamped(
            span / 4,
            needs,
            if most < needs {
                needs
            } else {
                most
            },
        )
    }
}

/// How far from the middle a station is put, so that its whole channel is clear of the middle: ten
/// kilohertz for narrow channels, else half the way to the edge.
pub fn park_offset(bandwidth: i64, span: i64) -> (r: i64)
    requires
        span >= 0,
    ensures
        r == parked(bandwidth as int, span as int),
{
    let wide: i128 = bandwidth as i128 + 1;
    let half: i128 = if wide >= 0 {
        wide / 2
    } else {
        return PARK_OFFSET;
    };
    let needs: i128 = half + DC_GUARD as i128;
    if needs <= PARK_OFFSET as i128 {
        return PARK_OFFSET;
    }
    let most: i128 = span as i128 * 45 / 100 - half;
    let hi: i128 = if most < needs {
        needs
    } else {
        most
    };
    clamp_wide(span as i128 / 4, needs, hi) as i64
}

/// The channel of a station that was put somewhere is clear of the middle; and where the inner nine
/// tenths of the spectrum have room for the channel beside the middle, it lies within them.
pub proof fn law_parked_channel_is_clear(bandwidth: int, span: int)
    requires
        bandwidth >= 0,
        span >= 0,
    ensures
        2 * parked(bandwidth, span) - bandwidth >= 2 * DC_GUARD,
        ({
            let half = (bandwidth + 1) / 2;
            PARK_OFFSET + half <= span * 45 / 100 && DC_GUARD + 2 * half <= span * 45 / 100
                ==> parked(bandwidth, span) + half <= span * 45 / 100
        }),
{
}

/// How many bins are no stronger than a level.
pub open spec fn count_upto(bins: Seq<i32>, level: int) -> nat
    decreases bins.len(),
{
    if bins.len() == 0 {
        0
    } else {
        count_upto(bins.drop_last(), level) + if bins.last() <= level {
            1nat
        } else {
            0
        }
    }
}

/// Whether a level stands in the middle of all the levels in order, the upper one of two middle
/// ones.
pub open spec fn is_median(bins: Seq<i32>, level: int) -> bool {
    count_upto(bins, level) > bins.len() / 2 && count_upto(bins, level - 1) <= bins.len() / 2
}

proof fn lemma_count_grows(bins: Seq<i32>, a: int, b: int)
    requires
        a <= b,
    ensures
        count_upto(bins, a) <= count_upto(bins, b) <= bins.len(),
    decreases bins.len(),
{
    if bins.len() > 0 {
        lemma_count_grows(bins.drop_last(), a, b);
    }
}

proof fn lemma_count_ends(bins: Seq<i32>)
    ensures
        count_upto(bins, i32::MIN - 1) == 0,
        count_upto(bins, i32::MAX as int) == bins.len(),
    decreases bins.len(),
{
    if bins.len() > 0 {
        lemma_count_ends(bins.drop_last());
    }
}

/// There is only one median.
pub proof fn law_one_median(bins: Seq<i32>, a: int, b: int)
    requires
        is_median(bins, a),
        is_median(bins, b),
    ensures
        a == b,
{
    if a < b {
        lemma_count_grows(bins, a, b - 1);
    } else if b < a {
        lemma_count_grows(bins, b, a - 1);
    }
}

proof fn lemma_quiet_bins(bins: Seq<i32>, quiet: Seq<bool>, noise: int)
    requires
        quiet.len() == bins.len(),
        forall|i: int| 0 <= i < bins.len() && quiet[i] ==> bins[i] <= noise,
    ensures
        count_upto(bins, noise) >= quiet.filter(|q: bool| q).len(),
    decreases bins.len(),
{
    reveal(Seq::filter);
    if bins.len() > 0 {
        let b = bins.drop_last();
        let q = quiet.drop_last();
        assert forall|i: int| 0 <= i < b.len() && q[i] implies b[i] <= noise by {
            assert(quiet[i] && bins[i] == b[i]);
        }
        lemma_quiet_bins(b, q, noise);
        assert(quiet.last() ==> bins.last() <= noise);
    }
}

/// Stations do not raise the median above the noise, as long as more than half of the bins are
/// noise.
pub proof fn law_stations_do_not_raise_the_noise(
    bins: Seq<i32>,
    quiet: Seq<bool>,
    noise: int,
    level: int,
)
    requires
        quiet.len() == bins.len(),
        forall|i: int| 0 <= i < bins.len() && quiet[i] ==> bins[i] <= noise,
        quiet.filter(|q: bool| q).len() > bins.len() / 2,
        is_median(bins, level),
    ensures
        level <= noise,
{
    lemma_quiet_bins(bins, quiet, noise);
    if level > noise {
        lemma_count_grows(bins, noise, level - 1);
    }
}

fn count_bins(bins: &[i32], level: i64) -> (r: usize)
    ensures
        r == count_upto(bins@, level as int),
{
    let mut n: usize = 0;
    let mut i: usize = 0;
    assert(bins@.take(0) == Seq::<i32>::empty());
    while i < bins.len()
        invariant
            i <= bins@.len(),
            n <= i,
            n == count_upto(bins@.take(i as int), level as int),
        decreases bins@.len() - i,
    {
        assert(bins@.take(i + 1).drop_last() == bins@.take(i as int));
        if bins[i] as i64 <= level {
            n = n + 1;
        }
        i = i + 1;
    }
    assert(bins@.take(i as int) == bins@);
    n
}

/// The level in the middle of all the levels.
pub fn median(bins: &[i32]) -> (r: i32)
    requires
        bins@.len() > 0,
    ensures
        is_median(bins@, r as int),
{
    let half: usize = bins.len() / 2;
    let mut lo: i64 = i32::MIN as i64 - 1;
    let mut hi: i64 = i32::MAX as i64;
    proof {
        lemma_count_ends(bins@);
    }
    while hi - lo > 1
        invariant
            i32::MIN - 1 <= lo < hi <= i32::MAX,
            half == bins@.len() / 2,
            count_upto(bins@, lo as int) <= half,
            count_upto(bins@, hi as int) > half,
        decreases hi - lo,
    {
        let mid: i64 = lo + (hi - lo) / 2;
        if count_bins(bins, mid) > half {
            hi = mid;
        } else {
            lo = mid;
        }
    }
    hi as i32
}

/// The level of the noise: the middle one, which a few stations do not raise. A spectrum of fewer
/// than sixteen bins tells nothing.
pub fn noise_level(bins: &[i32]) -> (r: Option<i32>)
    ensures
        r is Some <==> bins@.len() >= 16,
        r matches Some(level) ==> is_median(bins@, level as int),
{
    if bins.len() < 16 {
        None
    } else {
        Some(median(bins))
    }
}

/// How many bins around the middle are left out.
pub open spec fn guard_bins(n: int, span: int) -> int {
    (2 * DC_GUARD * n + span) / (2 * span)
}

/// Whether a bin may hold a station: it is neither near an edge nor near the middle.
pub open spec fn may_hold(n: int, span: int, i: int) -> bool {
    &&& n / 20 <= i < n - n / 20
    &&& span > 0
    &&& i - n / 2 > guard_bins(n, span) || n / 2 - i > guard_bins(n, span)
}

/// Whether a bin is the first of the strongest ones that may hold a station.
pub open spec fn is_peak(bins: Seq<i32>, span: int, i: int) -> bool {
    let n = bins.len() as int;
    &&& may_hold(n, span, i)
    &&& forall|j: int| #[trigger]
        may_hold(n, span, j) ==> bins[j] <= bins[i] && (j < i ==> bins[j] < bins[i])
}

/// The frequency of a bin, to the nearest whole hertz; halves go away from the middle.
pub open spec fn bin_offset(n: int, span: int, i: int) -> int {
    let d = if i < n / 2 {
        n / 2 - i
    } else {
        i - n / 2
    };
    let hz = (2 * d * span + 1_000 * n) / (2_000 * n);
    if i < n / 2 {
        -(1_000 * hz)
    } else {
        1_000 * hz
    }
}

/// The bin of the strongest station, if it stands out from the noise.
pub open spec fn holds_station(bins: Seq<i32>, span: int, i: int) -> bool {
    is_peak(bins, span, i) && exists|m: int| #[trigger]
        is_median(bins, m) && bins[i] >= m + STATION_LEVEL
}

/// The frequency of the strongest station, if there is one.
#[verifier::rlimit(40)]
pub fn strongest_offset(bins: &[i32], span: i64) -> (r: Option<i64>)
    requires
        span >= 0,
    ensures
        r matches Some(off) ==> bins@.len() >= 64 && exists|i: int| #[trigger]
            holds_station(bins@, span as int, i) && off == bin_offset(
                bins@.len() as int,
                span as int,
                i,
            ),
        r is None ==> bins@.len() < 64 || forall|i: int| !#[trigger] holds_station(
            bins@,
            span as int,
            i,
        ),
{
    let n: usize = bins.len();
    if n < 64 {
        return None;
    }
    let ghost nn = n as int;
    let ghost sp = span as int;
    if span == 0 {
        return None;
    }
    let center: usize = n / 2;
    let around: u128 = 2 * DC_GUARD as u128;
    let guard: u128 = (around * n as u128 + span as u128) / (2 * span as u128);
    assert(guard == guard_bins(nn, sp));
    let edge: usize = n / 20;
    let mut best: Option<usize> = None;
    let mut i: usize = edge;
    while i < n - edge
        invariant
            n == bins@.len(),
            n >= 64,
            nn == n,
            sp == span,
            span > 0,
            center == n / 2,
            edge == n / 20,
            edge <= i <= n - edge,
            guard == guard_bins(nn, sp),
            best matches Some(b) ==> edge <= b < i && may_hold(nn, sp, b as int) && forall|j: int|
                #![trigger may_hold(nn, sp, j)]
                j < i && may_hold(nn, sp, j) ==> bins@[j] <= bins@[b as int] && (j < b ==> bins@[j]
                    < bins@[b as int]),
            best is None ==> forall|j: int|
                #![trigger may_hold(nn, sp, j)]
                j < i ==> !may_hold(nn, sp, j),
        decreases n - edge - i,
    {
        let away: usize = if i < center {
            center - i
        } else {
            i - center
        };
        if away as u128 > guard {
            assert(may_hold(nn, sp, i as int));
            let better: bool = match best {
                Some(b) => bins[i] > bins[b],
                None => true,
            };
            if better {
                best = Some(i);
            }
        } else {
            assert(!may_hold(nn, sp, i as int));
        }
        i = i + 1;
    }
    match best {
        None => {
            assert forall|j: int| !#[trigger] holds_station(bins@, sp, j) by {
                assert(!may_hold(nn, sp, j));
            }
            None
        },
        Some(at) => {
            assert(is_peak(bins@, sp, at as int));
            let noise: i32 = median(bins);
            if (bins[at] as i64) < noise as i64 + STATION_LEVEL {
                proof {
                    assert forall|j: int| !#[trigger] holds_station(bins@, sp, j) by {
                        if holds_station(bins@, sp, j) {
                            assert(may_hold(nn, sp, j) && may_hold(nn, sp, at as int));
                            assert(j == at);
                            let m = choose|m: int| #[trigger]
                                is_median(bins@, m) && bins@[j] >= m + STATION_LEVEL;
                            law_one_median(bins@, m, noise as int);
                        }
                    }
                }
                return None;
            }
            assert(holds_station(bins@, sp, at as int));
            Some(offset_of_bin(n, span, at))
        },
    }
}

/// A bin lies within half the spectrum of its middle, up to half a hertz.
pub proof fn lemma_bin_offset_bound(n: int, span: int, i: int)
    requires
        0 < n,
        0 <= i < n,
        span > 0,
    ensures
        -(span + 1_000) <= 2 * bin_offset(n, span, i) <= span + 1_000,
{
    let d = if i < n / 2 {
        n / 2 - i
    } else {
        i - n / 2
    };
    let x = 2 * d * span + 1_000 * n;
    let hz = x / (2_000 * n);
    vstd::arithmetic::div_mod::lemma_fundamental_div_mod(x, 2_000 * n);
    vstd::arithmetic::div_mod::lemma_mod_bound(x, 2_000 * n);
    assert(0 <= 2 * d * span <= n * span) by (nonlinear_arith)
        requires
            0 <= 2 * d <= n,
            span > 0,
    ;
    assert(0 <= 2_000 * hz <= span + 1_000) by (nonlinear_arith)
        requires
            x == (2_000 * n) * hz + x % (2_000 * n),
            0 <= x % (2_000 * n) < 2_000 * n,
            0 <= x <= n * span + 1_000 * n,
            n > 0,
    ;
}

fn offset_of_bin(n: usize, span: i64, i: usize) -> (r: i64)
    requires
        0 < n,
        i < n,
        span > 0,
    ensures
        r == bin_offset(n as int, span as int, i as int),
{
    let center: usize = n / 2;
    let d: usize = if i < center {
        center - i
    } else {
        i - center
    };
    proof {
        lemma_bin_offset_bound(n as int, span as int, i as int);
    }
    assert(0 <= 2 * (d * span) <= n * span) by (nonlinear_arith)
        requires
            0 <= 2 * d <= n,
            span > 0,
    ;
    assert(n * span <= 0xFFFF_FFFF_FFFF_FFFF * 0x7FFF_FFFF_FFFF_FFFF) by (nonlinear_arith)
        requires
            0 <= n <= 0xFFFF_FFFF_FFFF_FFFF,
            0 <= span <= 0x7FFF_FFFF_FFFF_FFFF,
    ;
    let hz: u128 = (2 * (d as u128 * span as u128) + 1_000 * n as u128) / (2_000 * n as u128);
    assert(2 * (d * span) == 2 * d * span) by (nonlinear_arith);
    let millihz: i64 = (1_000 * hz) as i64;
    if i < center {
        -millihz
    } else {
        millihz
    }
}

/// The distance between the lines of the grid over a range of levels, in decibels: so that there
/// are ten at most.
pub fn nice_db_step(range: i64) -> (r: i64)
    ensures
        r == (if range <= 50_000 {
            5i64
        } else if range <= 100_000 {
            10
        } else if range <= 200_000 {
            20
        } else if range <= 250_000 {
            25
        } else if range <= 500_000 {
            50
        } else {
            100
        }),
        range <= 1_000_000 ==> range <= 10_000 * r,
        r == 5 || r == 10 || r == 20 || r == 25 || r == 50 || r == 100,
        forall|s: int|
            #![trigger 10_000 * s]
            (s == 5 || s == 10 || s == 20 || s == 25 || s == 50) && s < r ==> range > 10_000 * s,
{
    if range <= 50_000 {
        5
    } else if range <= 100_000 {
        10
    } else if range <= 200_000 {
        20
    } else if range <= 250_000 {
        25
    } else if range <= 500_000 {
        50
    } else {
        100
    }
}

/// The distances between the lines of the grid over frequencies, in kilohertz.
pub open spec fn khz_steps() -> Seq<i64> {
    seq![1i64, 2i64, 5i64, 10i64, 20i64, 25i64, 50i64, 100i64]
}

/// The distance between the lines of the grid over a width in millihertz, in kilohertz: the
/// smallest with which there are twelve at most, or two hundred.
pub fn nice_khz_step(width: i64) -> (r: i64)
    ensures
        (exists|i: int| 0 <= i < 8 && width <= 12_000_000 * #[trigger] khz_steps()[i]) ==> exists|
            i: int,
        |
            {
                &&& 0 <= i < 8
                &&& r == #[trigger] khz_steps()[i]
                &&& width <= 12_000_000 * r
                &&& forall|j: int| 0 <= j < i ==> width > 12_000_000 * #[trigger] khz_steps()[j]
            },
        (forall|i: int| 0 <= i < 8 ==> width > 12_000_000 * #[trigger] khz_steps()[i]) ==> r == 200,
        r == 1 || r == 2 || r == 5 || r == 10 || r == 20 || r == 25 || r == 50 || r == 100 || r
            == 200,
        r < 200 ==> width <= 12_000_000 * r,
        r > 1 ==> width > 12_000_000,
        r > 2 ==> width > 24_000_000,
        r > 5 ==> width > 60_000_000,
        r > 10 ==> width > 120_000_000,
        r > 20 ==> width > 240_000_000,
        r > 25 ==> width > 300_000_000,
        r > 50 ==> width > 600_000_000,
        r > 100 ==> width > 1_200_000_000,
{
    let steps: [i64; 8] = [1, 2, 5, 10, 20, 25, 50, 100];
    let mut i: usize = 0;
    while i < 8
        invariant
            i <= 8,
            steps@ == khz_steps(),
            forall|j: int| 0 <= j < i ==> width > 12_000_000 * #[trigger] khz_steps()[j],
        decreases 8 - i,
    {
        assert(1 <= khz_steps()[i as int] <= 100);
        if width <= 12_000_000 * steps[i] {
            assert(steps@[i as int] == khz_steps()[i as int]);
            proof {
                lemma_khz_steps(width as int, i as int);
            }
            return steps[i];
        }
        i = i + 1;
    }
    proof {
        lemma_khz_steps(width as int, 8);
    }
    200
}

/// Each step that was passed over is too small.
proof fn lemma_khz_steps(width: int, n: int)
    requires
        0 <= n <= 8,
        forall|j: int| 0 <= j < n ==> width > 12_000_000 * #[trigger] khz_steps()[j],
    ensures
        n > 0 ==> width > 12_000_000,
        n > 1 ==> width > 24_000_000,
        n > 2 ==> width > 60_000_000,
        n > 3 ==> width > 120_000_000,
        n > 4 ==> width > 240_000_000,
        n > 5 ==> width > 300_000_000,
        n > 6 ==> width > 600_000_000,
        n > 7 ==> width > 1_200_000_000,
{
    let s = khz_steps();
    assert(s[0] == 1 && s[1] == 2 && s[2] == 5 && s[3] == 10 && s[4] == 20 && s[5] == 25 && s[6]
        == 50 && s[7] == 100);
}

/// The error of the crystal in thousandths of a millionth, rounded down, from a carrier of known
/// frequency that was heard as a Morse tone: the frequency on the dial, the true one, and the pitch
/// of the tone, all in millihertz.
pub open spec fn ppm_thousandths(dial: int, nominal: int, tone: int) -> int {
    (nominal - (dial + (tone - 1_000 * dsp::CW_PITCH_HZ))) * 1_000_000_000 / dial
}

/// The error of the crystal in thousandths of a millionth, from a carrier of known frequency.
pub fn ppm_z_normalu(dial: i64, nominal: i64, tone: i64) -> (r: i128)
    requires
        dial > 0,
    ensures
        r == ppm_thousandths(dial as int, nominal as int, tone as int),
{
    let d: i128 = dial as i128;
    let carrier: i128 = d + (tone as i128 - 1_000 * dsp::CW_PITCH_HZ as i128);
    let n: i128 = (nominal as i128 - carrier) * 1_000_000_000;
    if n >= 0 {
        n / d
    } else {
        let q: i128 = (-n) / d;
        let rest: i128 = (-n) % d;
        proof {
            vstd::arithmetic::div_mod::lemma_fundamental_div_mod(-n as int, d as int);
            if rest == 0 {
                assert(n == (-q) * d) by (nonlinear_arith)
                    requires
                        -n == d * q + rest,
                        rest == 0,
                ;
                vstd::arithmetic::div_mod::lemma_fundamental_div_mod_converse(
                    n as int,
                    d as int,
                    -q as int,
                    0,
                );
            } else {
                assert(n == (-q - 1) * d + (d - rest)) by (nonlinear_arith)
                    requires
                        -n == d * q + rest,
                ;
                vstd::arithmetic::div_mod::lemma_fundamental_div_mod_converse(
                    n as int,
                    d as int,
                    -q - 1,
                    d - rest,
                );
            }
            assert(q <= -n) by (nonlinear_arith)
                requires
                    -n == d * q + rest,
                    d > 0,
                    q >= 0,
                    rest >= 0,
            ;
        }
        if rest == 0 {
            -q
        } else {
            -q - 1
        }
    }
}

/// The measured error does not depend on how well the carrier was tuned: a crystal that is off by
/// `error` thousandths of a millionth is found to be, wherever the dial stands.
pub proof fn law_calibration_does_not_depend_on_the_dial(
    dial: int,
    nominal: int,
    tone: int,
    error: int,
)
    requires
        dial > 0,
        (nominal - (dial + (tone - 1_000 * dsp::CW_PITCH_HZ))) * 1_000_000_000 == dial * error,
    ensures
        ppm_thousandths(dial, nominal, tone) == error,
{
    assert(dial * error == error * dial + 0) by (nonlinear_arith);
    vstd::arithmetic::div_mod::lemma_fundamental_div_mod_converse(dial * error, dial, error, 0);
}

/// Puts a row at the top of a picture and moves the others down; the last one falls out.
pub fn push_row(pixels: &mut Vec<u8>, row: &[u8])
    requires
        row@.len() <= old(pixels)@.len(),
    ensures
        final(pixels)@ == row@ + old(pixels)@.take(old(pixels)@.len() - row@.len()),
{
    let width: usize = row.len();
    let ghost before = pixels@;
    let mut i: usize = pixels.len();
    while i > width
        invariant
            width == row@.len(),
            width <= i <= pixels@.len(),
            pixels@.len() == before.len(),
            forall|j: int| 0 <= j < i ==> pixels@[j] == before[j],
            forall|j: int| i <= j < before.len() ==> #[trigger] pixels@[j] == before[j - width],
        decreases i,
    {
        i = i - 1;
        let v: u8 = pixels[i - width];
        pixels.set(i, v);
    }
    let mut k: usize = 0;
    while k < width
        invariant
            width == row@.len(),
            k <= width <= pixels@.len(),
            pixels@.len() == before.len(),
            forall|j: int| 0 <= j < k ==> pixels@[j] == row@[j],
            forall|j: int| width <= j < before.len() ==> #[trigger] pixels@[j] == before[j - width],
        decreases width - k,
    {
        pixels.set(k, row[k]);
        k = k + 1;
    }
    assert(pixels@ =~= row@ + before.take(before.len() - row@.len()));
}

/// A magnification shows its part of the spectrum: what is seen times the magnification is the whole,
/// up to the rounding. Less than one shows all of it, and more than 32 shows what 32 does.
pub proof fn law_magnification_shows_its_part(zoom: int, span: int)
    requires
        span >= 0,
    ensures
        1_000_000 <= zoom <= 32_000_000 ==> visible(zoom, span) * zoom <= span * 1_000_000 < (
        visible(zoom, span) + 1) * zoom,
        zoom < 1_000_000 ==> visible(zoom, span) == span,
        zoom > 32_000_000 ==> visible(zoom, span) == span / 32,
{
    let v = visible(zoom, span);
    if 1_000_000 <= zoom <= 32_000_000 {
        assert(v * zoom <= span * 1_000_000 < (v + 1) * zoom) by (nonlinear_arith)
            requires
                v == (span * 1_000_000) / zoom,
                zoom >= 1_000_000,
        ;
    } else if zoom < 1_000_000 {
        assert(v == span * 1_000_000 / 1_000_000);
    } else {
        assert(v == span * 1_000_000 / 32_000_000);
    }
}

/// The view moves no more than it must: where the tuning leaves its inner nine tenths, it comes to
/// their edge on that side, or the view to the edge of the spectrum.
pub proof fn law_view_moves_no_more_than_it_must(offset: int, center: int, vis: int, span: int)
    requires
        0 <= vis <= span,
        -((span - vis) / 2) <= center <= (span - vis) / 2,
    ensures
        ({
            let c = panned(offset, center, vis, span);
            let m = vis * 45 / 100;
            let edge = (span - vis) / 2;
            &&& offset > center + m && offset - m <= edge ==> c == offset - m
            &&& offset > center + m && offset - m > edge ==> c == edge
            &&& offset < center - m && offset + m >= -edge ==> c == offset + m
            &&& offset < center - m && offset + m < -edge ==> c == -edge
            &&& center - m <= offset <= center + m ==> c == center
        }),
{
}

/// A station is put ten kilohertz from the middle where its channel is no wider than sixteen, and
/// else a quarter of the spectrum from it, where that leaves the channel two kilohertz from the
/// middle and within the inner nine tenths.
pub proof fn law_stations_are_put_beside_the_middle(bandwidth: int, span: int)
    requires
        bandwidth >= 0,
        span >= 0,
    ensures
        bandwidth <= 16_000_000 ==> parked(bandwidth, span) == 10_000_000,
        ({
            let half = (bandwidth + 1) / 2;
            bandwidth > 16_000_000 && half + 2_000_000 <= span / 4 && span / 4 + half <= span * 45
                / 100 ==> parked(bandwidth, span) == span / 4
        }),
        2 * parked(bandwidth, span) - bandwidth >= 4_000_000,
{
}

/// Stations are sought in the inner nine tenths of the spectrum, more than two kilohertz and half a
/// bin from the middle.
pub proof fn law_where_stations_are_sought(n: int, span: int, i: int)
    requires
        n > 0,
    ensures
        may_hold(n, span, i) <==> span > 0 && n / 20 <= i < n - n / 20 && (2 * (span * (i - n / 2))
            > 4_000_000 * n + span || 2 * (span * (n / 2 - i)) > 4_000_000 * n + span),
{
    if span > 0 {
        let g = guard_bins(n, span);
        let x = 2 * 2_000_000 * n + span;
        assert(2 * span * g <= x < 2 * span * (g + 1)) by (nonlinear_arith)
            requires
                g == x / (2 * span),
                span > 0,
        ;
        assert forall|d: int| #![trigger span * d] d > g <==> 2 * (span * d) > x by {
            assert(d > g <==> 2 * (span * d) > x) by (nonlinear_arith)
                requires
                    2 * span * g <= x < 2 * span * (g + 1),
                    span > 0,
            ;
        }
        assert(span * (i - n / 2) == span * (i - n / 2));
        assert(span * (n / 2 - i) == span * (n / 2 - i));
    }
}

/// What is found is the strongest bin of all that are sought, the first of them, and it stands six
/// decibels out of the noise at least.
#[verifier::rlimit(40)]
pub proof fn law_strongest_station_is_found(bins: Seq<i32>, span: int, i: int, noise: int)
    requires
        bins.len() > 0,
        holds_station(bins, span, i),
        is_median(bins, noise),
    ensures
        may_hold(bins.len() as int, span, i),
        bins[i] >= noise + 6_000,
        forall|j: int| #[trigger]
            may_hold(bins.len() as int, span, j) ==> bins[j] <= bins[i] && (bins[j] == bins[i] ==> j
                >= i),
{
    let m = choose|m: int| #[trigger] is_median(bins, m) && bins[i] >= m + STATION_LEVEL;
    law_one_median(bins, m, noise);
}

/// The frequency of a bin is that of its place between the edges of the spectrum, to the nearest
/// whole hertz.
#[verifier::rlimit(40)]
pub proof fn law_bin_has_the_nearest_frequency(n: int, span: int, i: int)
    requires
        n > 0,
        span > 0,
        0 <= i < n,
    ensures
        bin_offset(n, span, i) % 1_000 == 0,
        -(1_000 * n) <= 2 * (n * bin_offset(n, span, i) - (i - n / 2) * span) <= 1_000 * n,
{
    let d = if i < n / 2 {
        n / 2 - i
    } else {
        i - n / 2
    };
    let x = 2 * d * span + 1_000 * n;
    let hz = x / (2_000 * n);
    assert((2_000 * n) * hz <= x < (2_000 * n) * (hz + 1)) by (nonlinear_arith)
        requires
            hz == x / (2_000 * n),
            n > 0,
    ;
    assert(2 * d * span == 2 * (d * span)) by (nonlinear_arith);
    assert((2_000 * n) * hz == 2 * (n * (1_000 * hz)) && (2_000 * n) * (hz + 1) == (2_000 * n) * hz
        + 2_000 * n) by (nonlinear_arith);
    if i < n / 2 {
        assert((i - n / 2) * span == -(d * span)) by (nonlinear_arith)
            requires
                d == n / 2 - i,
        ;
        assert(n * (-(1_000 * hz)) == -(n * (1_000 * hz))) by (nonlinear_arith);
        assert((-(1_000 * hz)) % 1_000 == 0);
    }
}

/// Of levels that rise, the one in the middle is the median.
pub proof fn law_median_of_rising_levels(bins: Seq<i32>)
    requires
        bins.len() > 0,
        forall|i: int, j: int| 0 <= i <= j < bins.len() ==> bins[i] <= bins[j],
    ensures
        is_median(bins, bins[bins.len() as int / 2] as int),
{
    let h = bins.len() as int / 2;
    lemma_count_at_least(bins, bins[h] as int, h + 1);
    lemma_count_at_most(bins, bins[h] - 1, h);
}

proof fn lemma_count_at_least(bins: Seq<i32>, level: int, k: int)
    requires
        0 <= k <= bins.len(),
        forall|i: int| 0 <= i < k ==> #[trigger] bins[i] <= level,
    ensures
        count_upto(bins, level) >= k,
    decreases bins.len(),
{
    if bins.len() > 0 {
        let front = bins.drop_last();
        let j = if k < bins.len() {
            k
        } else {
            k - 1
        };
        assert forall|i: int| 0 <= i < j implies #[trigger] front[i] <= level by {
            assert(front[i] == bins[i]);
        }
        lemma_count_at_least(front, level, j);
        if k == bins.len() {
            assert(bins[k - 1] <= level);
        }
    }
}

proof fn lemma_count_at_most(bins: Seq<i32>, level: int, k: int)
    requires
        0 <= k <= bins.len(),
        forall|i: int| k <= i < bins.len() ==> #[trigger] bins[i] > level,
    ensures
        count_upto(bins, level) <= k,
    decreases bins.len(),
{
    if bins.len() > 0 {
        let front = bins.drop_last();
        let j = if k < bins.len() {
            k
        } else {
            k - 1
        };
        assert forall|i: int| j <= i < front.len() implies #[trigger] front[i] > level by {
            assert(front[i] == bins[i]);
        }
        lemma_count_at_most(front, level, j);
        if k < bins.len() {
            assert(bins[bins.len() - 1] > level);
        }
    }
}

/// The error that is found is the one that takes the carrier as heard to its true frequency, rounded
/// down: the tone stands 700 Hz above the dial when the dial is right.
pub proof fn law_error_takes_the_carrier_to_its_place(dial: int, nominal: int, tone: int)
    requires
        dial > 0,
    ensures
        ({
            let ppm = ppm_thousandths(dial, nominal, tone);
            let off = nominal - (dial + tone - 700_000);
            dial * ppm <= off * 1_000_000_000 < dial * (ppm + 1)
        }),
{
    let off = nominal - (dial + (tone - 700_000));
    let ppm = ppm_thousandths(dial, nominal, tone);
    assert(dial * ppm <= off * 1_000_000_000 < dial * (ppm + 1)) by (nonlinear_arith)
        requires
            ppm == (off * 1_000_000_000) / dial,
            dial > 0,
    ;
}

/// A number that is brought within limits is the nearest one there is within them.
pub proof fn law_clamped_is_the_nearest(x: int, lo: int, hi: int, y: int)
    requires
        lo <= y <= hi,
    ensures
        lo <= clamped(x, lo, hi) <= hi,
        lo <= x <= hi ==> clamped(x, lo, hi) == x,
        x <= clamped(x, lo, hi) <= y || y <= clamped(x, lo, hi) <= x,
{
}

} // verus!
