//! The scanner: it goes from channel to channel and stops where there is a signal.
//!
//! Times are in milliseconds, frequencies in millihertz.
use vstd::prelude::*;

verus! {

/// How long the scanner stays on a channel.
pub const SCAN_DWELL_MS: u64 = 350;

/// How long a station has to be silent before the scanner leaves it.
pub const SCAN_RESUME_MS: u64 = 2_000;

/// The narrowest step through a part of the spectrum.
pub const SCAN_MIN_STEP: i64 = 100_000;

/// What is scanned.
#[derive(Clone, Copy, PartialEq, Eq, Debug, Structural)]
pub enum ScanKind {
    /// The favourite stations.
    Favourites,
    /// The part of the spectrum that is seen, in steps of a channel.
    Window,
}

impl ScanKind {
    /// What the choice is called.
    pub fn label(&self) -> (r: &'static str)
        ensures
            r@ == match *self {
                ScanKind::Favourites => "oblíbené"@,
                ScanKind::Window => "výřez"@,
            },
    {
        match self {
            ScanKind::Favourites => "oblíbené",
            ScanKind::Window => "výřez",
        }
    }
}

/// A scanner at work.
#[derive(Clone, Copy, PartialEq, Eq, Debug, Structural)]
pub struct Scan {
    pub kind: ScanKind,
    /// The channel that it is on.
    pub idx: usize,
    /// When it goes on, unless there is a signal.
    pub next_step_ms: u64,
    /// It has stopped at a signal.
    pub holding: bool,
    /// Since when the signal that it has stopped at is gone.
    pub quiet_since_ms: Option<u64>,
}

/// What a scanner does.
#[derive(Clone, Copy, PartialEq, Eq, Debug, Structural)]
pub enum ScanStep {
    /// It stays where it is.
    Stay,
    /// It goes to a channel.
    Go(usize),
    /// It ends.
    End,
}

/// A time that much later, or the end of time.
pub open spec fn later(now: u64, by: u64) -> u64 {
    if now + by > u64::MAX {
        u64::MAX
    } else {
        (now + by) as u64
    }
}

impl Scan {
    /// The channel can be counted on from.
    pub open spec fn wf(&self) -> bool {
        self.idx < usize::MAX
    }

    /// What a scanner is after a look and what it does. It ends where nothing would stop it or where
    /// there is no channel; it stops where there is a signal; it leaves a signal that has been gone
    /// for long enough; and it goes to the next channel when its time on one is over.
    pub open spec fn looked(self, now: u64, squelch_on: bool, open: bool, count: usize) -> (
        Scan,
        ScanStep,
    ) {
        if !squelch_on {
            (self, ScanStep::End)
        } else if self.holding {
            if open {
                (Scan { quiet_since_ms: None, ..self }, ScanStep::Stay)
            } else {
                match self.quiet_since_ms {
                    None => (Scan { quiet_since_ms: Some(now), ..self }, ScanStep::Stay),
                    Some(since) => if now < since + SCAN_RESUME_MS {
                        (self, ScanStep::Stay)
                    } else {
                        (
                            Scan {
                                holding: false,
                                quiet_since_ms: None,
                                next_step_ms: now,
                                ..self
                            },
                            ScanStep::Stay,
                        )
                    },
                }
            }
        } else if open {
            (Scan { holding: true, quiet_since_ms: None, ..self }, ScanStep::Stay)
        } else if now < self.next_step_ms {
            (self, ScanStep::Stay)
        } else if count == 0 {
            (self, ScanStep::End)
        } else {
            let next = ((self.idx + 1) % (count as int)) as usize;
            (
                Scan { idx: next, next_step_ms: later(now, SCAN_DWELL_MS), ..self },
                ScanStep::Go(next),
            )
        }
    }

    /// A scanner on the first channel. It stays there as long as on any other.
    pub fn new(kind: ScanKind, now_ms: u64) -> (r: Scan)
        ensures
            r.wf(),
            r == (Scan {
                kind,
                idx: 0,
                next_step_ms: later(now_ms, SCAN_DWELL_MS),
                holding: false,
                quiet_since_ms: None,
            }),
    {
        Scan {
            kind,
            idx: 0,
            next_step_ms: now_ms.saturating_add(SCAN_DWELL_MS),
            holding: false,
            quiet_since_ms: None,
        }
    }

    /// Takes a look: whether the squelch is on, whether the signal opens it, and how many channels
    /// there are. Says what to do.
    pub fn tick(&mut self, now_ms: u64, squelch_on: bool, open: bool, count: usize) -> (step: ScanStep)
        requires
            old(self).wf(),
        ensures
            final(self).wf(),
            (*final(self), step) == old(self).looked(now_ms, squelch_on, open, count),
    {
        if !squelch_on {
            return ScanStep::End;
        }
        if self.holding {
            if open {
                self.quiet_since_ms = None;
                return ScanStep::Stay;
            }
            match self.quiet_since_ms {
                None => {
                    self.quiet_since_ms = Some(now_ms);
                },
                Some(since) => {
                    if now_ms as u128 >= since as u128 + SCAN_RESUME_MS as u128 {
                        self.holding = false;
                        self.quiet_since_ms = None;
                        self.next_step_ms = now_ms;
                    }
                },
            }
            return ScanStep::Stay;
        }
        if open {
            self.holding = true;
            self.quiet_since_ms = None;
            return ScanStep::Stay;
        }
        if now_ms < self.next_step_ms {
            return ScanStep::Stay;
        }
        if count == 0 {
            return ScanStep::End;
        }
        let next: usize = (self.idx + 1) % count;
        self.idx = next;
        self.next_step_ms = now_ms.saturating_add(SCAN_DWELL_MS);
        ScanStep::Go(next)
    }
}

/// A scanner that hears a signal stays with it.
pub proof fn law_scanner_stays_with_a_signal(scan: Scan, now: u64, count: usize)
    ensures
        ({
            let (after, step) = scan.looked(now, true, true, count);
            step == ScanStep::Stay && after.holding && after.idx == scan.idx
        }),
{
}

/// A scanner stays on a channel that it has come to, the first one included, until its time there is
/// over: there is time for a signal to open the squelch.
pub proof fn law_scanner_gives_every_channel_its_time(
    scan: Scan,
    came: u64,
    now: u64,
    squelch_on: bool,
    open: bool,
    count: usize,
)
    requires
        scan.next_step_ms == later(came, SCAN_DWELL_MS),
        came <= now < came + SCAN_DWELL_MS,
        now < u64::MAX,
    ensures
        !(scan.looked(now, squelch_on, open, count).1 is Go),
{
}

/// A scanner leaves a signal only after it has been gone for long enough, and never on the spot.
pub proof fn law_scanner_waits_out_a_pause(
    scan: Scan,
    now: u64,
    squelch_on: bool,
    open: bool,
    count: usize,
)
    requires
        scan.holding,
    ensures
        ({
            let (after, step) = scan.looked(now, squelch_on, open, count);
            &&& !(step is Go)
            &&& !after.holding ==> scan.quiet_since_ms is Some && now >= scan.quiet_since_ms->0
                + SCAN_RESUME_MS
        }),
{
}

/// The channel that a scanner is on after a number of steps.
pub open spec fn channel_after(idx: int, count: int, steps: nat) -> int
    decreases steps,
{
    if steps == 0 {
        idx
    } else {
        (channel_after(idx, count, (steps - 1) as nat) + 1) % count
    }
}

/// A scanner comes to every channel: to the one that is `k` further on, in `k` steps.
pub proof fn law_scanner_comes_to_every_channel(idx: int, count: int, steps: nat)
    requires
        0 <= idx < count,
    ensures
        channel_after(idx, count, steps) == (idx + steps) % count,
        0 <= channel_after(idx, count, steps) < count,
    decreases steps,
{
    if steps == 0 {
        vstd::arithmetic::div_mod::lemma_small_mod(idx as nat, count as nat);
    } else {
        law_scanner_comes_to_every_channel(idx, count, (steps - 1) as nat);
        vstd::arithmetic::div_mod::lemma_add_mod_noop(idx + steps - 1, 1, count);
        vstd::arithmetic::div_mod::lemma_add_mod_noop((idx + steps - 1) % count, 1, count);
        vstd::arithmetic::div_mod::lemma_mod_twice(idx + steps - 1, count);
        vstd::arithmetic::div_mod::lemma_mod_bound(
            channel_after(idx, count, (steps - 1) as nat) + 1,
            count,
        );
    }
}

/// The step through a part of the spectrum.
pub open spec fn step_for(bandwidth: int) -> int {
    if bandwidth < SCAN_MIN_STEP {
        SCAN_MIN_STEP as int
    } else {
        bandwidth
    }
}

/// How many channels a part of the spectrum has: as many as fit, and never none.
pub open spec fn channels_in(view_w: int, bandwidth: int) -> int {
    let n = view_w / step_for(bandwidth);
    if n < 1 {
        1
    } else {
        n
    }
}

/// How many channels a part of the spectrum has, as far as the machine can count.
pub open spec fn channel_count(view_w: int, bandwidth: int) -> int {
    let n = channels_in(view_w, bandwidth);
    if n < usize::MAX {
        n
    } else {
        usize::MAX as int
    }
}

/// How many channels a part of the spectrum has.
pub fn scan_window_steps(view_w: i64, bandwidth: i64) -> (r: usize)
    requires
        0 <= view_w,
    ensures
        r == channel_count(view_w as int, bandwidth as int),
{
    let step: i64 = if bandwidth < SCAN_MIN_STEP {
        SCAN_MIN_STEP
    } else {
        bandwidth
    };
    let n: i64 = view_w / step;
    assert(0 <= n <= view_w) by (nonlinear_arith)
        requires
            n == view_w / step,
            0 <= view_w,
            step > 0,
    ;
    if n < 1 {
        1
    } else if n as u64 >= usize::MAX as u64 {
        usize::MAX
    } else {
        n as usize
    }
}

/// Where a channel of a part of the spectrum lies: in the middle of its step, counted from the left.
pub open spec fn channel_offset(view_c: int, view_w: int, bandwidth: int, idx: int) -> int {
    view_c - view_w / 2 + step_for(bandwidth) * (2 * idx + 1) / 2
}

/// Where a channel of a part of the spectrum lies.
pub fn scan_offset(view_c: i64, view_w: i64, bandwidth: i64, idx: usize) -> (r: i128)
    requires
        0 <= view_w,
    ensures
        r == channel_offset(view_c as int, view_w as int, bandwidth as int, idx as int),
{
    let step: u128 = if bandwidth < SCAN_MIN_STEP {
        SCAN_MIN_STEP as u128
    } else {
        bandwidth as u128
    };
    assert(0 <= step * (2 * idx + 1) <= 0x7FFF_FFFF_FFFF_FFFF * (2 * 0xFFFF_FFFF_FFFF_FFFF + 1))
        by (nonlinear_arith)
        requires
            0 <= step <= 0x7FFF_FFFF_FFFF_FFFF,
            0 <= idx <= 0xFFFF_FFFF_FFFF_FFFF,
    ;
    let along: u128 = step * (2 * idx as u128 + 1) / 2;
    view_c as i128 - (view_w / 2) as i128 + along as i128
}

/// Every channel lies within the part of the spectrum that is scanned, where at least one fits.
pub proof fn law_channels_are_seen(view_c: int, view_w: int, bandwidth: int, idx: int)
    requires
        step_for(bandwidth) <= view_w,
        0 <= idx < channels_in(view_w, bandwidth),
    ensures
        view_c - view_w / 2 <= channel_offset(view_c, view_w, bandwidth, idx) <= view_c - view_w / 2
            + view_w,
{
    let step = step_for(bandwidth);
    let n = channels_in(view_w, bandwidth);
    vstd::arithmetic::div_mod::lemma_fundamental_div_mod(view_w, step);
    vstd::arithmetic::div_mod::lemma_mod_bound(view_w, step);
    assert(view_w / step >= 1) by (nonlinear_arith)
        requires
            step > 0,
            view_w >= step,
    ;
    assert(0 <= step * (2 * idx + 1) <= 2 * view_w) by (nonlinear_arith)
        requires
            step > 0,
            0 <= idx < n,
            n == view_w / step,
            view_w == step * (view_w / step) + view_w % step,
            view_w % step >= 0,
    ;
}

/// A scanner that hears nothing goes to the next channel once it has been on one for 350 ms, from
/// the last one to the first, and has as long there; before that it stays.
pub proof fn law_scanner_goes_round(scan: Scan, now: u64, count: usize)
    requires
        !scan.holding,
        scan.idx < count,
        now + 350 <= u64::MAX,
    ensures
        ({
            let (after, step) = scan.looked(now, true, false, count);
            let next = if scan.idx + 1 == count {
                0
            } else {
                scan.idx + 1
            };
            &&& now < scan.next_step_ms ==> step == ScanStep::Stay && after == scan
            &&& now >= scan.next_step_ms ==> step == ScanStep::Go(next as usize) && after.idx == next
                && after.next_step_ms == now + 350 && !after.holding
        }),
{
    vstd::arithmetic::div_mod::lemma_mod_self_0(count as int);
    if scan.idx + 1 < count {
        vstd::arithmetic::div_mod::lemma_small_mod((scan.idx + 1) as nat, count as nat);
    }
}

/// A scanner leaves a signal that is gone after two seconds: the first look without it starts the
/// time, a look at which it is back ends it, and after two seconds the scanner may go on at once.
pub proof fn law_scanner_leaves_after_two_seconds(scan: Scan, now: u64, count: usize)
    requires
        scan.holding,
    ensures
        ({
            let (quiet, _) = scan.looked(now, true, false, count);
            let (heard, _) = scan.looked(now, true, true, count);
            &&& heard.holding && heard.quiet_since_ms is None
            &&& scan.quiet_since_ms is None ==> quiet.holding && quiet.quiet_since_ms == Some(now)
            &&& scan.quiet_since_ms matches Some(t) ==> {
                &&& quiet.holding == (now < t + 2_000)
                &&& now >= t + 2_000 ==> quiet.next_step_ms == now && quiet.quiet_since_ms is None
            }
            &&& quiet.idx == scan.idx
        }),
{
}

/// A scanner ends where nothing would stop it and where there is nothing to go to, and nowhere else.
pub proof fn law_scanner_ends_only_without_squelch_or_channels(
    scan: Scan,
    now: u64,
    squelch_on: bool,
    open: bool,
    count: usize,
)
    ensures
        scan.looked(now, squelch_on, open, count).1 is End ==> !squelch_on || count == 0,
        !squelch_on ==> scan.looked(now, squelch_on, open, count).1 is End,
        squelch_on && count == 0 && !open && !scan.holding && now >= scan.next_step_ms
            ==> scan.looked(now, squelch_on, open, count).1 is End,
{
}

/// The channels of a part of the spectrum stand side by side from its left edge: the first half a
/// step from it, each a step from the one before, a step being the width of a channel but no less
/// than 100 Hz, and there is no room for one more.
pub proof fn law_channels_stand_side_by_side(view_c: int, view_w: int, bandwidth: int, idx: int)
    requires
        view_w >= 0,
    ensures
        ({
            let step = if bandwidth < 100_000 {
                100_000
            } else {
                bandwidth
            };
            let first = channel_offset(view_c, view_w, bandwidth, 0);
            let n = channels_in(view_w, bandwidth);
            &&& step - 1 <= 2 * (first - (view_c - view_w / 2)) <= step
            &&& channel_offset(view_c, view_w, bandwidth, idx + 1) == channel_offset(
                view_c,
                view_w,
                bandwidth,
                idx,
            ) + step
            &&& view_w >= step ==> n * step <= view_w < (n + 1) * step
            &&& view_w < step ==> n == 1
        }),
{
    let step = step_for(bandwidth);
    assert(step * (2 * (idx + 1) + 1) == step * (2 * idx + 1) + 2 * step) by (nonlinear_arith);
    assert(step * (2 * 0 + 1) == step) by (nonlinear_arith);
    let q = view_w / step;
    assert(q * step <= view_w < (q + 1) * step && q >= 0 && (view_w >= step ==> q >= 1) && (view_w
        < step ==> q < 1)) by (nonlinear_arith)
        requires
            q == view_w / step,
            step >= 1,
            view_w >= 0,
    ;
}

/// All channels are counted, as far as the machine can count, and there is one at least.
pub proof fn law_all_channels_are_counted(view_w: int, bandwidth: int)
    ensures
        channel_count(view_w, bandwidth) >= 1,
        channels_in(view_w, bandwidth) <= usize::MAX ==> channel_count(view_w, bandwidth)
            == channels_in(view_w, bandwidth),
        channels_in(view_w, bandwidth) > usize::MAX ==> channel_count(view_w, bandwidth)
            == usize::MAX,
{
}

} // verus!
