//! Tuning: how the receiver moves over the spectrum and the bands.
//!
//! The radio catches a part of the spectrum around the frequency of its oscillator; within that
//! part the receiver stands at some distance from the middle. Frequencies and widths are in
//! millihertz, times in milliseconds.
use crate::bandplan;
use crate::bandplan::Band;
use crate::decode::Decoder;
use crate::dsp;
use crate::dsp::Mode;
use crate::panorama;
use crate::panorama::clamp;
use crate::radio;
use crate::scan;
use crate::scan::{Scan, ScanKind, ScanStep};
use crate::schedule::khz;
use crate::settings;
use crate::settings::{BandMemory, BandTable, Settings, Station};
use crate::source::Hardware;
use crate::text;
use vstd::prelude::*;

verus! {

/// Beyond this, frequencies are not counted with.
pub const REACH: i64 = 2_000_000_000_000_000_000;

/// How long after a jump the spectrum has settled.
pub const SNAP_DELAY_MS: u64 = 400;

/// By how much the tuning may move with the data of a station still being of that station.
pub const RDS_KEEP: i64 = 50_000_000;

/// How near to the tuning a station of the schedule is looked for.
pub const SCHEDULE_TOLERANCE: i64 = 2_000_000;

/// How near the tuning is to a favourite station that counts as tuned.
pub const FAVOURITE_NEAR: i64 = 50_000;

/// A number that is counted with.
pub open spec fn within(x: int) -> bool {
    -REACH <= x <= REACH
}

/// A frequency brought within what a radio tunes to.
pub open spec fn tunable(hw: Hardware, freq: int) -> int {
    panorama::clamped(freq, hw.range_khz().0 * 1_000_000, hw.range_khz().1 * 1_000_000)
}

/// The width of a channel brought within what a mode allows.
pub open spec fn allowed_width(mode: Mode, bw: int) -> int {
    panorama::clamped(bw, radio::widths(mode).0 * 1_000, radio::widths(mode).1 * 1_000)
}

/// The edges of a channel around where the receiver stands: on one side only for single sideband.
pub open spec fn edges(mode: Mode, offset: int, bw: int) -> (int, int) {
    match mode {
        Mode::Usb => (offset, offset + bw),
        Mode::Lsb => (offset - bw, offset),
        Mode::Am => (offset - bw / 2, offset + bw / 2),
        Mode::Cw => (offset - bw / 2, offset + bw / 2),
        Mode::Wfm => (offset - bw / 2, offset + bw / 2),
        Mode::Nfm => (offset - bw / 2, offset + bw / 2),
    }
}

/// The width of a channel whose edge was dragged to a distance from where the receiver stands. The
/// width of wideband FM stays.
pub open spec fn dragged_width(mode: Mode, d: int, bw: int) -> int {
    match mode {
        Mode::Usb => d,
        Mode::Lsb => -d,
        Mode::Wfm => bw,
        _ => if d < 0 {
            -2 * d
        } else {
            2 * d
        },
    }
}

/// The step of fine tuning.
pub open spec fn step_of(mode: Mode) -> int {
    if mode == Mode::Wfm {
        100_000_000
    } else if mode == Mode::Usb || mode == Mode::Lsb || mode == Mode::Cw {
        10_000
    } else {
        100_000
    }
}

/// Where in the spectrum the tone lies that a notch silences, for a receiver that stands at `c`.
pub open spec fn notched(mode: Mode, c: int, notch: int) -> Seq<int> {
    match mode {
        Mode::Usb => seq![c + notch],
        Mode::Lsb => seq![c - notch],
        Mode::Am => seq![c - notch, c + notch],
        Mode::Cw => seq![c + notch - dsp::CW_PITCH_HZ * 1_000],
        Mode::Nfm => Seq::empty(),
        Mode::Wfm => Seq::empty(),
    }
}

/// The mode that is usual on a band: wideband FM on the broadcast band of a radio that reaches it,
/// AM for other broadcasting, narrowband FM from 144 MHz on, else the lower sideband below 10 MHz
/// and the upper one above.
pub open spec fn usual_mode(band: Band, hw: Hardware) -> Mode {
    if band.from_hz >= 87_000_000 && band.to_hz <= 108_500_000 && hw == Hardware::Rsp1 {
        Mode::Wfm
    } else if band.broadcast {
        Mode::Am
    } else if band.from_hz >= 144_000_000 {
        Mode::Nfm
    } else if band.from_hz < 10_000_000 {
        Mode::Lsb
    } else {
        Mode::Usb
    }
}

/// The receiver: what is set, which part of the spectrum is seen, and what it has in hand.
pub struct Receiver {
    pub set: Settings,
    /// The middle of the part of the spectrum that is seen.
    pub view_center: i64,
    /// When the strongest station is to be looked for.
    pub snap_at_ms: Option<u64>,
    /// Where the receiver stood when the data of a station were last begun.
    pub rds_freq: i64,
    pub scan: Option<Scan>,
}

impl Receiver {
    /// The frequencies are ones that are counted with.
    pub open spec fn wf(&self) -> bool {
        &&& within(self.set.vfo_millihz as int)
        &&& within(self.set.offset_millihz as int)
        &&& within(self.set.bandwidth_am_millihz as int)
        &&& within(self.set.bandwidth_ssb_millihz as int)
        &&& within(self.rds_freq as int)
        &&& self.scan matches Some(s) ==> s.wf()
    }

    /// The frequency that is received.
    pub open spec fn tuned_to(&self) -> int {
        self.set.vfo_millihz + self.set.offset_millihz
    }

    /// The middle of what is seen, once it has followed the tuning.
    pub open spec fn view_after(set: Settings, center: int, span: int) -> int {
        panorama::panned(
            set.offset_millihz as int,
            center,
            panorama::visible(set.zoom as int, span),
            span,
        )
    }

    /// A receiver as it was left. The data of a station were never begun.
    pub fn new(set: Settings) -> (r: Receiver)
        ensures
            r == (Receiver {
                set,
                view_center: set.offset_millihz,
                snap_at_ms: None,
                rds_freq: 0,
                scan: None,
            }),
    {
        let view_center: i64 = set.offset_millihz;
        Receiver { set, view_center, snap_at_ms: None, rds_freq: 0, scan: None }
    }

    /// The frequency that is received.
    pub fn tuned(&self) -> (r: i64)
        requires
            self.wf(),
        ensures
            r == self.tuned_to(),
    {
        self.set.vfo_millihz + self.set.offset_millihz
    }

    /// The decoder that is to run: none while its text is not shown.
    pub fn active_decoder(&self) -> (r: Decoder)
        ensures
            r == (if self.set.show_console {
                self.set.decoder
            } else {
                Decoder::Off
            }),
    {
        if self.set.show_console {
            self.set.decoder
        } else {
            Decoder::Off
        }
    }

    /// Sets the width of the channel, within what the mode allows.
    pub fn set_bandwidth(&mut self, bw: i64)
        requires
            old(self).wf(),
        ensures
            final(self).wf(),
            *final(self) == (Receiver {
                set: old(self).set.with_width(
                    allowed_width(old(self).set.mode, bw as int) as i64,
                ),
                ..*old(self)
            }),
    {
        let (lo, hi) = radio::bandwidth_range(self.set.mode);
        let w: i64 = clamp(bw, lo * 1_000, hi * 1_000);
        self.set.set_bandwidth(w);
    }

    /// The edges of the channel, from the middle of the spectrum.
    pub fn band_edges(&self) -> (r: (i64, i64))
        requires
            self.wf(),
            self.set.width() >= 0,
        ensures
            (r.0 as int, r.1 as int) == edges(
                self.set.mode,
                self.set.offset_millihz as int,
                self.set.width() as int,
            ),
    {
        let bw: i64 = self.set.bandwidth();
        let offset: i64 = self.set.offset_millihz;
        match self.set.mode {
            Mode::Usb => (offset, offset + bw),
            Mode::Lsb => (offset - bw, offset),
            _ => (offset - bw / 2, offset + bw / 2),
        }
    }

    /// The edges that can be dragged: both where they lie around the carrier, the outer one where one
    /// of them is the carrier, none for wideband FM.
    pub fn draggable_edges(&self) -> (r: Vec<i64>)
        requires
            self.wf(),
            self.set.width() >= 0,
        ensures
            ({
                let e = edges(
                    self.set.mode,
                    self.set.offset_millihz as int,
                    self.set.width() as int,
                );
                r@.map_values(|x: i64| x as int) == match self.set.mode {
                    Mode::Usb => seq![e.1],
                    Mode::Lsb => seq![e.0],
                    Mode::Wfm => Seq::<int>::empty(),
                    _ => seq![e.0, e.1],
                }
            }),
            self.set.mode == Mode::Wfm <==> r@.len() == 0,
            self.set.mode == Mode::Usb ==> r@.len() == 1 && r@[0] - self.set.offset_millihz
                == self.set.width(),
            self.set.mode == Mode::Lsb ==> r@.len() == 1 && self.set.offset_millihz - r@[0]
                == self.set.width(),
            r@.len() == 2 <==> self.set.mode == Mode::Am || self.set.mode == Mode::Cw
                || self.set.mode == Mode::Nfm,
            r@.len() == 2 ==> r@[0] <= self.set.offset_millihz <= r@[1],
    {
        let (lo, hi) = self.band_edges();
        let r: Vec<i64> = match self.set.mode {
            Mode::Usb => vec![hi],
            Mode::Lsb => vec![lo],
            Mode::Wfm => Vec::new(),
            _ => vec![lo, hi],
        };
        proof {
            let e = edges(
                self.set.mode,
                self.set.offset_millihz as int,
                self.set.width() as int,
            );
            let m = r@.map_values(|x: i64| x as int);
            if self.set.mode == Mode::Usb {
                assert(m =~= seq![e.1]);
            } else if self.set.mode == Mode::Lsb {
                assert(m =~= seq![e.0]);
            } else if self.set.mode == Mode::Wfm {
                assert(m =~= Seq::<int>::empty());
            } else {
                assert(m =~= seq![e.0, e.1]);
            }
        }
        r
    }

    /// Drags an edge of the channel to a place.
    pub fn drag_edge(&mut self, to: i64)
        requires
            old(self).wf(),
            within(to as int),
        ensures
            final(self).wf(),
            *final(self) == (Receiver {
                set: old(self).set.with_width(
                    allowed_width(
                        old(self).set.mode,
                        dragged_width(
                            old(self).set.mode,
                            to - old(self).set.offset_millihz,
                            old(self).set.width() as int,
                        ),
                    ) as i64,
                ),
                ..*old(self)
            }),
    {
        let d: i64 = to - self.set.offset_millihz;
        let bw: i64 = match self.set.mode {
            Mode::Usb => d,
            Mode::Lsb => -d,
            Mode::Wfm => self.set.bandwidth(),
            _ => {
                if d < 0 {
                    -2 * d
                } else {
                    2 * d
                }
            },
        };
        self.set_bandwidth(bw);
    }

    /// Puts the oscillator on a frequency, within what the radio tunes to.
    pub fn set_vfo(&mut self, freq: i64)
        requires
            old(self).wf(),
        ensures
            final(self).wf(),
            *final(self) == (Receiver {
                set: Settings {
                    vfo_millihz: tunable(old(self).set.hardware, freq as int) as i64,
                    ..old(self).set
                },
                ..*old(self)
            }),
    {
        let (lo, hi) = self.set.hardware.tuning_range_khz();
        self.set.vfo_millihz = clamp(freq, lo * 1_000_000, hi * 1_000_000);
    }

    /// The part of the spectrum that is seen: its middle and its width.
    pub fn view(&self, span: i64) -> (r: (i64, i64))
        requires
            span >= 0,
        ensures
            r.1 == panorama::visible(self.set.zoom as int, span as int),
            r.0 == panorama::clamped(
                self.view_center as int,
                -((span - r.1) / 2),
                (span - r.1) / 2,
            ),
            0 <= r.1 <= span,
    {
        panorama::view_window(self.set.zoom, self.view_center, span)
    }

    /// Moves what is seen just so far that the tuning is seen.
    pub fn keep_offset_visible(&mut self, span: i64)
        requires
            old(self).wf(),
            span >= 0,
        ensures
            final(self).wf(),
            *final(self) == (Receiver {
                view_center: Self::view_after(
                    old(self).set,
                    old(self).view_center as int,
                    span as int,
                ) as i64,
                ..*old(self)
            }),
            final(self).view_center == Self::view_after(
                old(self).set,
                old(self).view_center as int,
                span as int,
            ),
    {
        let vis: i64 = panorama::visible_width(self.set.zoom, span);
        self.view_center = panorama::pan_view_center(
            self.set.offset_millihz,
            self.view_center,
            vis,
            span,
        );
    }

    /// Moves what is seen so that the tuning is in its middle, as far as the spectrum goes.
    pub fn center_view_on_tuned(&mut self, span: i64)
        requires
            old(self).wf(),
            span >= 0,
        ensures
            final(self).wf(),
            *final(self) == (Receiver {
                view_center: Self::view_after(
                    old(self).set,
                    old(self).set.offset_millihz as int,
                    span as int,
                ) as i64,
                ..*old(self)
            }),
            final(self).view_center == Self::view_after(
                old(self).set,
                old(self).set.offset_millihz as int,
                span as int,
            ),
    {
        self.view_center = self.set.offset_millihz;
        self.keep_offset_visible(span);
    }

    /// Sets the magnification, within its limits, around the tuning.
    pub fn set_zoom(&mut self, zoom: u32, span: i64)
        requires
            old(self).wf(),
            span >= 0,
        ensures
            final(self).wf(),
            ({
                let set = Settings {
                    zoom: panorama::zoom_used(zoom as int) as u32,
                    ..old(self).set
                };
                *final(self) == (Receiver {
                    set,
                    view_center: Self::view_after(set, set.offset_millihz as int, span as int)
                        as i64,
                    ..*old(self)
                })
            }),
    {
        self.set.zoom = if zoom < panorama::ZOOM_ONE {
            panorama::ZOOM_ONE
        } else if zoom > panorama::MAX_ZOOM {
            panorama::MAX_ZOOM
        } else {
            zoom
        };
        self.center_view_on_tuned(span);
    }

    /// The step of fine tuning.
    pub fn tune_step(&self) -> (r: i64)
        ensures
            r == step_of(self.set.mode),
    {
        if self.set.mode.is_wfm() {
            100_000_000
        } else if self.set.mode.is_ssb() || self.set.mode == Mode::Cw {
            10_000
        } else {
            100_000
        }
    }

    /// The steps of the oscillator that are offered, in kilohertz.
    pub fn vfo_steps_khz(&self) -> (r: Vec<i64>)
        ensures
            r@ == match self.set.hardware {
                Hardware::SoftRock => seq![-10i64, -1i64, 1i64, 10i64],
                Hardware::Rsp1 => seq![-1000i64, -100i64, -10i64, 10i64, 100i64, 1000i64],
            },
    {
        match self.set.hardware {
            Hardware::SoftRock => vec![-10i64, -1i64, 1i64, 10i64],
            Hardware::Rsp1 => vec![-1000i64, -100i64, -10i64, 10i64, 100i64, 1000i64],
        }
    }

    /// A receiver that was tuned on by a distance. Where that would come too near to the edge of the
    /// spectrum, the oscillator follows, so that the station comes to stand halfway between middle and
    /// edge.
    pub open spec fn tuned_by(self, delta: int, span: int) -> Receiver {
        let off = self.set.offset_millihz + delta;
        let near = -(span * 45 / 100) <= off <= span * 45 / 100;
        let quarter = if off > 0 {
            span / 4
        } else {
            -(span / 4)
        };
        let vfo = if near {
            self.set.vfo_millihz as int
        } else {
            tunable(self.set.hardware, self.set.vfo_millihz + (off - quarter))
        };
        let set = Settings {
            vfo_millihz: vfo as i64,
            offset_millihz: (self.tuned_to() + delta - vfo) as i64,
            ..self.set
        };
        Receiver {
            set,
            view_center: Self::view_after(set, self.view_center as int, span) as i64,
            ..self
        }
    }

    /// Tunes on by a distance. Where that would come too near to the edge of the spectrum, the
    /// oscillator follows, so that the station comes to stand halfway between middle and edge.
    pub fn tune_by(&mut self, delta: i64, span: i64)
        requires
            old(self).wf(),
            within(delta as int),
            0 <= span <= REACH,
            -REACH + 2_000_000_000_000 <= old(self).tuned_to() + delta <= REACH - 2_000_000_000_000,
        ensures
            final(self).wf(),
            *final(self) == old(self).tuned_by(delta as int, span as int),
            final(self).tuned_to() == old(self).tuned_to() + delta,
    {
        let mut off: i64 = self.set.offset_millihz + delta;
        let limit: i64 = (span as i128 * 45 / 100) as i64;
        if off > limit || off < -limit {
            let quarter: i64 = if off > 0 {
                span / 4
            } else {
                -(span / 4)
            };
            let before: i64 = self.set.vfo_millihz;
            self.set_vfo(before + (off - quarter));
            off = off - (self.set.vfo_millihz - before);
        }
        self.set.offset_millihz = off;
        self.keep_offset_visible(span);
    }

    /// A receiver whose oscillator was moved by a step. It stays on its frequency, as far as the
    /// spectrum goes.
    pub open spec fn vfo_moved(self, delta: int, span: int) -> Receiver {
        let vfo = tunable(self.set.hardware, self.set.vfo_millihz + delta);
        let set = Settings {
            vfo_millihz: vfo as i64,
            offset_millihz: panorama::offset_kept(
                self.set.offset_millihz as int,
                vfo - self.set.vfo_millihz,
                span,
            ) as i64,
            ..self.set
        };
        Receiver {
            set,
            view_center: Self::view_after(set, set.offset_millihz as int, span) as i64,
            ..self
        }
    }

    /// Moves the oscillator by a step. The receiver stays on its frequency, as far as the spectrum
    /// goes.
    pub fn step_vfo(&mut self, delta: i64, span: i64)
        requires
            old(self).wf(),
            within(delta as int),
            0 <= span <= REACH,
        ensures
            final(self).wf(),
            *final(self) == old(self).vfo_moved(delta as int, span as int),
    {
        let before: i64 = self.set.vfo_millihz;
        self.set_vfo(before + delta);
        let applied: i64 = self.set.vfo_millihz - before;
        self.set.offset_millihz = panorama::offset_after_vfo_step(
            self.set.offset_millihz,
            applied,
            span,
        );
        self.center_view_on_tuned(span);
    }

    /// A receiver whose oscillator was moved by the whole width of the spectrum. The strongest station
    /// is to be looked for once the spectrum has settled.
    pub open spec fn jumped(self, span: int, up: bool, now_ms: u64) -> Receiver {
        let to = if up {
            self.set.vfo_millihz + span
        } else {
            self.set.vfo_millihz - span
        };
        let set = Settings {
            vfo_millihz: tunable(self.set.hardware, to) as i64,
            offset_millihz: 0,
            ..self.set
        };
        Receiver {
            set,
            view_center: Self::view_after(set, 0, span) as i64,
            snap_at_ms: Some(scan::later(now_ms, SNAP_DELAY_MS)),
            ..self
        }
    }

    /// Moves the oscillator by the whole width of the spectrum, up or down. The strongest station is
    /// looked for once the spectrum has settled.
    pub fn jump_window(&mut self, span: i64, up: bool, now_ms: u64)
        requires
            old(self).wf(),
            0 <= span <= REACH,
        ensures
            final(self).wf(),
            *final(self) == old(self).jumped(span as int, up, now_ms),
    {
        let vfo: i64 = self.set.vfo_millihz;
        if up {
            self.set_vfo(vfo + span);
        } else {
            self.set_vfo(vfo - span);
        }
        self.set.offset_millihz = 0;
        self.center_view_on_tuned(span);
        self.snap_at_ms = Some(now_ms.saturating_add(SNAP_DELAY_MS));
    }

    /// Whether the schedule is shown: it is one of broadcasting, so only for AM.
    pub fn shows_schedule(&self) -> (r: bool)
        ensures
            r == (self.set.mode == Mode::Am),
    {
        self.set.mode == Mode::Am
    }

    /// How far from the middle a station stands once it was tuned to: where the radio can tune beside
    /// it, as far as it is put from the middle. At the ends of what the radio can tune the oscillator
    /// stands there, and the station wherever that leaves it, if that is in the spectrum at all.
    pub open spec fn offset_beside(hw: Hardware, freq: int, park: int, span: int) -> int {
        let beside = freq - tunable(hw, freq - park);
        if -span <= 2 * beside <= span {
            beside
        } else {
            park
        }
    }

    /// A receiver that was tuned to a frequency with a mode and a width: the oscillator is put beside
    /// the station, so that its channel is clear of the middle.
    pub open spec fn tuned_at(self, freq: int, mode: Mode, bw: int, span: int) -> Receiver {
        let park = panorama::parked(bw, span);
        let offset = Self::offset_beside(self.set.hardware, freq, park, span);
        let in_mode = Settings { mode, ..self.set };
        let set = Settings {
            vfo_millihz: tunable(self.set.hardware, freq - park) as i64,
            offset_millihz: offset as i64,
            ..in_mode.with_width(allowed_width(mode, bw) as i64)
        };
        Receiver {
            set,
            view_center: Self::view_after(set, offset, span) as i64,
            snap_at_ms: None,
            ..self
        }
    }

    /// Tunes to a frequency with a mode and a width.
    pub fn tune_to(&mut self, freq: i64, mode: Mode, bw: i64, span: i64)
        requires
            old(self).wf(),
            within(freq as int),
            0 <= bw <= REACH,
            0 <= span <= REACH,
        ensures
            final(self).wf(),
            *final(self) == old(self).tuned_at(freq as int, mode, bw as int, span as int),
    {
        self.set.mode = mode;
        self.set_bandwidth(bw);
        let park: i64 = panorama::park_offset(bw, span);
        self.set_vfo(freq - park);
        let beside: i64 = freq - self.set.vfo_millihz;
        let half: i64 = span / 2;
        self.set.offset_millihz = if -half <= beside && beside <= half {
            beside
        } else {
            park
        };
        self.center_view_on_tuned(span);
        self.snap_at_ms = None;
    }

    /// Tunes to a favourite station.
    pub fn tune_station(&mut self, st: &Station, span: i64)
        requires
            old(self).wf(),
            within(st.freq_millihz as int),
            0 <= st.bandwidth_millihz <= REACH,
            0 <= span <= REACH,
        ensures
            final(self).wf(),
            *final(self) == old(self).tuned_at(
                st.freq_millihz as int,
                st.mode,
                st.bandwidth_millihz as int,
                span as int,
            ),
    {
        self.tune_to(st.freq_millihz, st.mode, st.bandwidth_millihz, span);
    }

    /// Tunes to where the receiver last stood on a band, or for the first time to its middle.
    pub fn goto_band(&mut self, band: &Band, memory: &BandTable, span: i64)
        requires
            old(self).wf(),
            0 <= span <= REACH,
            memory.recalls(band.name@) matches Some(m) ==> within(m.freq_millihz as int) && 0
                <= m.bandwidth_millihz <= REACH,
        ensures
            final(self).wf(),
            *final(self) == (match memory.recalls(band.name@) {
                Some(m) => old(self).tuned_at(
                    m.freq_millihz as int,
                    m.mode,
                    m.bandwidth_millihz as int,
                    span as int,
                ),
                None => {
                    let mode = usual_mode(*band, old(self).set.hardware);
                    old(self).tuned_at(
                        band.middle(),
                        mode,
                        radio::usual_width(mode) * 1_000,
                        span as int,
                    )
                },
            }),
    {
        match memory.get(band.name) {
            Some(m) => self.tune_to(m.freq_millihz, m.mode, m.bandwidth_millihz, span),
            None => {
                let mode: Mode = band_mode(band, self.set.hardware);
                let bw: i64 = match mode {
                    Mode::Cw => radio::CW_BANDWIDTH_HZ,
                    Mode::Usb => radio::SSB_BANDWIDTH_HZ,
                    Mode::Lsb => radio::SSB_BANDWIDTH_HZ,
                    Mode::Am => radio::AM_BANDWIDTH_HZ,
                    Mode::Nfm => radio::NFM_BANDWIDTH_HZ,
                    Mode::Wfm => radio::WFM_BANDWIDTH_HZ,
                };
                self.tune_to(band.middle_millihz(), mode, bw * 1_000, span);
            },
        }
    }

    /// What is remembered of the band that the receiver stands on, if it stands on one.
    pub fn remember_band(&self, memory: &mut BandTable)
        requires
            self.wf(),
        ensures
            (forall|i: int|
                0 <= i < bandplan::segment_table().len() ==> !(
                #[trigger] bandplan::segment_table()[i]).holds(self.tuned_to())) ==> forall|
                name: Seq<char>,
            | #[trigger] final(memory).recalls(name) == old(memory).recalls(name),
            forall|i: int|
                #![trigger bandplan::segment_table()[i]]
                0 <= i < bandplan::segment_table().len() && bandplan::segment_table()[i].holds(
                    self.tuned_to(),
                ) ==> forall|name: Seq<char>| #[trigger]
                    final(memory).recalls(name) == (if name == bandplan::segment_table()[i].band@ {
                        Some(
                            BandMemory {
                                freq_millihz: self.tuned_to() as i64,
                                mode: self.set.mode,
                                bandwidth_millihz: self.set.width(),
                            },
                        )
                    } else {
                        old(memory).recalls(name)
                    }),
    {
        let f: i64 = self.tuned();
        match bandplan::at(f) {
            Some(s) => {
                let m = BandMemory {
                    freq_millihz: f,
                    mode: self.set.mode,
                    bandwidth_millihz: self.set.bandwidth(),
                };
                memory.insert(s.band, m);
                proof {
                    assert forall|i: int|
                        #![trigger bandplan::segment_table()[i]]
                        0 <= i < bandplan::segment_table().len()
                            && bandplan::segment_table()[i].holds(
                            self.tuned_to(),
                        ) implies bandplan::segment_table()[i] == s by {
                        let k = choose|k: int|
                            0 <= k < bandplan::segment_table().len()
                                && bandplan::segment_table()[k] == s;
                        bandplan::law_segments_are_apart(i, k, f as int);
                    }
                }
            },
            None => (),
        }
    }

    /// Adds the station that is received to the favourites, under its frequency as a name.
    pub fn add_current_station(&mut self)
        requires
            old(self).wf(),
        ensures
            final(self).wf(),
            final(self).set.stations@.len() == old(self).set.stations@.len() + 1,
            final(self).set.stations@.drop_last() == old(self).set.stations@,
            final(self).set.stations@.last()@ == (settings::StationView {
                name: text::khz(old(self).tuned_to(), 1) + " kHz"@,
                freq: old(self).tuned_to(),
                mode: old(self).set.mode,
                bandwidth: old(self).set.width() as int,
            }),
            *final(self) == (Receiver {
                set: Settings { stations: final(self).set.stations, ..old(self).set },
                ..*old(self)
            }),
    {
        let f: i64 = self.tuned();
        let mut name = String::new();
        text::push_khz(&mut name, f, 1);
        text::push_text(&mut name, " kHz");
        assert(name@ =~= text::khz(f as int, 1) + " kHz"@);
        let st = Station {
            name,
            freq_millihz: f,
            mode: self.set.mode,
            bandwidth_millihz: self.set.bandwidth(),
        };
        self.set.stations.push(st);
        assert(self.set.stations@.drop_last() =~= old(self).set.stations@);
    }

    /// Puts a favourite station one place further up.
    pub fn move_station_up(&mut self, i: usize)
        requires
            old(self).wf(),
            0 < i < old(self).set.stations@.len(),
        ensures
            final(self).wf(),
            final(self).set.stations@ == old(self).set.stations@.update(
                i - 1,
                old(self).set.stations@[i as int],
            ).update(i as int, old(self).set.stations@[i - 1]),
            *final(self) == (Receiver {
                set: Settings { stations: final(self).set.stations, ..old(self).set },
                ..*old(self)
            }),
    {
        let st = self.set.stations.remove(i);
        self.set.stations.insert(i - 1, st);
        assert(self.set.stations@ =~= old(self).set.stations@.update(
            i - 1,
            old(self).set.stations@[i as int],
        ).update(i as int, old(self).set.stations@[i - 1]));
    }

    /// Removes a favourite station.
    pub fn remove_station(&mut self, i: usize)
        requires
            old(self).wf(),
            i < old(self).set.stations@.len(),
        ensures
            final(self).wf(),
            final(self).set.stations@ == old(self).set.stations@.remove(i as int),
            *final(self) == (Receiver {
                set: Settings { stations: final(self).set.stations, ..old(self).set },
                ..*old(self)
            }),
    {
        let _ = self.set.stations.remove(i);
    }

    /// Whether a favourite station is the one that is received.
    pub fn is_tuned_station(&self, st: &Station) -> (r: bool)
        requires
            self.wf(),
        ensures
            r == (-FAVOURITE_NEAR < self.tuned_to() - st.freq_millihz < FAVOURITE_NEAR
                && self.set.mode == st.mode),
            self.set.mode != st.mode ==> !r,
            self.set.mode == st.mode ==> (r <==> self.set.vfo_millihz + self.set.offset_millihz
                - 50_000 < st.freq_millihz < self.set.vfo_millihz + self.set.offset_millihz
                + 50_000),
    {
        let off: i128 = self.tuned() as i128 - st.freq_millihz as i128;
        -(FAVOURITE_NEAR as i128) < off && off < FAVOURITE_NEAR as i128 && self.set.mode == st.mode
    }

    /// Tunes to the strongest station, if there is one.
    pub fn snap_to_strongest(&mut self, bins: &[i32], span: i64)
        requires
            old(self).wf(),
            0 <= span <= REACH,
        ensures
            final(self).wf(),
            bins@.len() < 64 || (forall|i: int| !#[trigger] panorama::holds_station(
                bins@,
                span as int,
                i,
            )) ==> *final(self) == *old(self),
            forall|i: int|
                bins@.len() >= 64 && #[trigger] panorama::holds_station(bins@, span as int, i) ==> {
                    let set = Settings {
                        offset_millihz: panorama::bin_offset(
                            bins@.len() as int,
                            span as int,
                            i,
                        ) as i64,
                        ..old(self).set
                    };
                    *final(self) == (Receiver {
                        set,
                        view_center: Self::view_after(set, set.offset_millihz as int, span as int)
                            as i64,
                        ..*old(self)
                    })
                },
    {
        match panorama::strongest_offset(bins, span) {
            Some(off) => {
                proof {
                    let k = choose|k: int| #[trigger]
                        panorama::holds_station(bins@, span as int, k) && off
                            == panorama::bin_offset(bins@.len() as int, span as int, k);
                    panorama::lemma_bin_offset_bound(bins@.len() as int, span as int, k);
                    assert forall|i: int| #[trigger]
                        panorama::holds_station(bins@, span as int, i) implies i == k by {
                        assert(panorama::may_hold(bins@.len() as int, span as int, i));
                        assert(panorama::may_hold(bins@.len() as int, span as int, k));
                    }
                }
                self.set.offset_millihz = off;
                self.center_view_on_tuned(span);
            },
            None => (),
        }
    }

    /// Tunes to the strongest station if the time for that has come.
    pub fn snap_tick(&mut self, now_ms: u64) -> (due: bool)
        requires
            old(self).wf(),
        ensures
            final(self).wf(),
            due == (old(self).snap_at_ms is Some && now_ms >= old(self).snap_at_ms->0),
            *final(self) == (Receiver {
                snap_at_ms: if due {
                    None
                } else {
                    old(self).snap_at_ms
                },
                ..*old(self)
            }),
    {
        let due: bool = match self.snap_at_ms {
            Some(t) => now_ms >= t,
            None => false,
        };
        if due {
            self.snap_at_ms = None;
        }
        due
    }

    /// Where in the spectrum the tone lies that a notch at a frequency of the sound silences: by the
    /// sideband, on both sides for AM, shifted by the pitch for Morse, nowhere for FM.
    pub fn notch_rf_offsets(&self, notch: i64) -> (r: Vec<i64>)
        requires
            self.wf(),
            within(notch as int),
        ensures
            r@.map_values(|x: i64| x as int) == notched(
                self.set.mode,
                self.set.offset_millihz as int,
                notch as int,
            ),
    {
        let c: i64 = self.set.offset_millihz;
        let above: i64 = c + notch;
        let below: i64 = c - notch;
        let shifted: i64 = above - dsp::CW_PITCH_HZ * 1_000;
        let r: Vec<i64> = match self.set.mode {
            Mode::Usb => vec![above],
            Mode::Lsb => vec![below],
            Mode::Am => vec![below, above],
            Mode::Cw => vec![shifted],
            Mode::Nfm => Vec::new(),
            Mode::Wfm => Vec::new(),
        };
        proof {
            let m = r@.map_values(|x: i64| x as int);
            match self.set.mode {
                Mode::Usb => assert(m =~= seq![c + notch]),
                Mode::Lsb => assert(m =~= seq![c - notch]),
                Mode::Am => assert(m =~= seq![c - notch, c + notch]),
                Mode::Cw => assert(m =~= seq![c + notch - dsp::CW_PITCH_HZ * 1_000]),
                Mode::Nfm => assert(m =~= Seq::<int>::empty()),
                Mode::Wfm => assert(m =~= Seq::<int>::empty()),
            }
        }
        r
    }

    /// Whether the tuning has moved so far that the data of a station are no longer of the one that
    /// is received. From then on they count for the new one.
    pub fn left_rds_station(&mut self) -> (r: bool)
        requires
            old(self).wf(),
            within(old(self).tuned_to()),
        ensures
            final(self).wf(),
            r == !(-RDS_KEEP <= old(self).tuned_to() - old(self).rds_freq <= RDS_KEEP),
            !r <==> old(self).rds_freq - 50_000_000 <= old(self).set.vfo_millihz
                + old(self).set.offset_millihz <= old(self).rds_freq + 50_000_000,
            *final(self) == (Receiver {
                rds_freq: if r {
                    old(self).tuned_to() as i64
                } else {
                    old(self).rds_freq
                },
                ..*old(self)
            }),
    {
        let now: i64 = self.tuned();
        let off: i64 = now - self.rds_freq;
        let left: bool = off > RDS_KEEP || off < -RDS_KEEP;
        if left {
            self.rds_freq = now;
        }
        left
    }

    /// Changes over to a radio: the oscillator goes to where the new radio can tune, and wideband FM,
    /// which only the wideband radio has, becomes AM.
    pub fn switch_hardware(&mut self, hw: Hardware)
        requires
            old(self).wf(),
        ensures
            final(self).wf(),
            *final(self) == (Receiver {
                set: Settings {
                    hardware: hw,
                    vfo_millihz: tunable(hw, old(self).set.vfo_millihz as int) as i64,
                    mode: if has_mode(hw, old(self).set.mode) {
                        old(self).set.mode
                    } else {
                        Mode::Am
                    },
                    ..old(self).set
                },
                ..*old(self)
            }),
    {
        self.set.hardware = hw;
        let vfo: i64 = self.set.vfo_millihz;
        self.set_vfo(vfo);
        if !mode_available(self.set.mode, hw) {
            self.set.mode = Mode::Am;
        }
    }

    /// How many channels a scan has.
    pub fn scan_count(&self, kind: ScanKind, span: i64) -> (r: usize)
        requires
            0 <= span <= REACH,
        ensures
            r == (match kind {
                ScanKind::Favourites => self.set.stations@.len() as int,
                ScanKind::Window => scan::channel_count(
                    panorama::visible(self.set.zoom as int, span as int),
                    self.set.width() as int,
                ),
            }),
    {
        match kind {
            ScanKind::Favourites => self.set.stations.len(),
            ScanKind::Window => {
                let (_, view_w) = self.view(span);
                scan::scan_window_steps(view_w, self.set.bandwidth())
            },
        }
    }

    /// Where a channel of a scan over the window lies.
    pub open spec fn window_channel(&self, idx: int, span: int) -> int {
        let vis = panorama::visible(self.set.zoom as int, span);
        scan::channel_offset(
            panorama::clamped(self.view_center as int, -((span - vis) / 2), (span - vis) / 2),
            vis,
            self.set.width() as int,
            idx,
        )
    }

    /// Tunes to a channel of a scan: to a favourite station, if there are so many, or to a place in
    /// the part of the spectrum that is seen.
    pub fn scan_goto(&mut self, kind: ScanKind, idx: usize, span: i64)
        requires
            old(self).wf(),
            0 <= span <= REACH,
            kind == ScanKind::Favourites && idx < old(self).set.stations@.len() ==> within(
                old(self).set.stations@[idx as int].freq_millihz as int,
            ) && 0 <= old(self).set.stations@[idx as int].bandwidth_millihz <= REACH,
            kind == ScanKind::Window ==> within(
                old(self).window_channel(idx as int, span as int),
            ),
        ensures
            final(self).wf(),
            *final(self) == (match kind {
                ScanKind::Favourites => if idx < old(self).set.stations@.len() {
                    old(self).tuned_at(
                        old(self).set.stations@[idx as int].freq_millihz as int,
                        old(self).set.stations@[idx as int].mode,
                        old(self).set.stations@[idx as int].bandwidth_millihz as int,
                        span as int,
                    )
                } else {
                    *old(self)
                },
                ScanKind::Window => Receiver {
                    set: Settings {
                        offset_millihz: old(self).window_channel(idx as int, span as int) as i64,
                        ..old(self).set
                    },
                    ..*old(self)
                },
            }),
    {
        match kind {
            ScanKind::Favourites => {
                if idx < self.set.stations.len() {
                    let freq: i64 = self.set.stations[idx].freq_millihz;
                    let mode: Mode = self.set.stations[idx].mode;
                    let bw: i64 = self.set.stations[idx].bandwidth_millihz;
                    self.tune_to(freq, mode, bw, span);
                }
            },
            ScanKind::Window => {
                let (view_c, view_w) = self.view(span);
                let off: i128 = scan::scan_offset(view_c, view_w, self.set.bandwidth(), idx);
                self.set.offset_millihz = off as i64;
            },
        }
    }

    /// Starts a scan on its first channel.
    pub fn start_scan(&mut self, kind: ScanKind, now_ms: u64)
        requires
            old(self).wf(),
        ensures
            final(self).wf(),
            *final(self) == (Receiver {
                scan: Some(
                    Scan {
                        kind,
                        idx: 0,
                        next_step_ms: scan::later(now_ms, scan::SCAN_DWELL_MS),
                        holding: false,
                        quiet_since_ms: None,
                    },
                ),
                ..*old(self)
            }),
    {
        self.scan = Some(Scan::new(kind, now_ms));
    }

    /// Lets the scan take a look, if there is one: whether the signal opens the squelch. Says to
    /// which channel to go, if to any; the channel is then one that there is.
    pub fn scan_tick(&mut self, now_ms: u64, open: bool, span: i64) -> (r: Option<(ScanKind, usize)>)
        requires
            old(self).wf(),
            0 <= span <= REACH,
        ensures
            final(self).wf(),
            ({
                let count = |kind: ScanKind|
                    match kind {
                        ScanKind::Favourites => old(self).set.stations@.len() as int,
                        ScanKind::Window => scan::channel_count(
                            panorama::visible(old(self).set.zoom as int, span as int),
                            old(self).set.width() as int,
                        ),
                    };
                match old(self).scan {
                    None => r is None && *final(self) == *old(self),
                    Some(s) => {
                        let (after, step) = s.looked(
                            now_ms,
                            old(self).set.squelch_on,
                            open,
                            count(s.kind) as usize,
                        );
                        &&& *final(self) == (Receiver {
                            scan: if step is End {
                                None
                            } else {
                                Some(after)
                            },
                            ..*old(self)
                        })
                        &&& r == (match step {
                            ScanStep::Go(i) => Some((s.kind, i)),
                            _ => None,
                        })
                        &&& r matches Some((k, i)) ==> i < count(k)
                    },
                }
            }),
    {
        match self.scan {
            None => None,
            Some(s) => {
                let mut running: Scan = s;
                let count: usize = self.scan_count(s.kind, span);
                let step: ScanStep = running.tick(now_ms, self.set.squelch_on, open, count);
                match step {
                    ScanStep::End => {
                        self.scan = None;
                        None
                    },
                    ScanStep::Stay => {
                        self.scan = Some(running);
                        None
                    },
                    ScanStep::Go(i) => {
                        self.scan = Some(running);
                        Some((s.kind, i))
                    },
                }
            },
        }
    }
}

/// Whether a radio can receive a mode: wideband FM needs the wideband one.
pub open spec fn has_mode(hw: Hardware, mode: Mode) -> bool {
    mode != Mode::Wfm || hw == Hardware::Rsp1
}

/// Whether a radio can receive a mode.
pub fn mode_available(mode: Mode, hw: Hardware) -> (r: bool)
    ensures
        r == has_mode(hw, mode),
{
    !mode.is_wfm() || hw == Hardware::Rsp1
}

/// The mode that is usual on a band.
pub fn band_mode(band: &Band, hw: Hardware) -> (r: Mode)
    ensures
        r == usual_mode(*band, hw),
{
    if band.from_hz >= 87_000_000 && band.to_hz <= 108_500_000 && hw == Hardware::Rsp1 {
        Mode::Wfm
    } else if band.broadcast {
        Mode::Am
    } else if band.from_hz >= 144_000_000 {
        Mode::Nfm
    } else if band.from_hz < 10_000_000 {
        Mode::Lsb
    } else {
        Mode::Usb
    }
}

/// Whether a band is within reach of a radio: its middle can be tuned to.
pub fn band_reachable(band: &Band, hw: Hardware) -> (r: bool)
    ensures
        r == (hw.range_khz().0 * 1_000_000 <= band.middle() <= hw.range_khz().1 * 1_000_000),
{
    let (lo, hi) = hw.tuning_range_khz();
    let middle: i64 = band.middle_millihz();
    lo * 1_000_000 <= middle && middle <= hi * 1_000_000
}

/// What is told of the button of a band: that the radio does not reach it, that the receiver goes
/// back to where it was, or that it goes to the middle.
pub open spec fn band_told(band: Band, hw: Hardware, known: bool) -> Seq<char> {
    if !(hw.range_khz().0 * 1_000_000 <= band.middle() <= hw.range_khz().1 * 1_000_000) {
        band.name@ + " je mimo dosah rádia "@ + hw.name()
    } else if known {
        "zpět tam, kde jsi na "@ + band.name@ + " naposled byl"@
    } else {
        band.name@ + " - doprostřed ("@ + text::khz(band.middle(), 0) + " kHz)"@
    }
}

/// What is told of the button of a band.
pub fn band_tip(band: &Band, hw: Hardware, known: bool) -> (r: String)
    ensures
        r@ == band_told(*band, hw, known),
{
    let mut s = String::new();
    if !band_reachable(band, hw) {
        text::push_text(&mut s, band.name);
        text::push_text(&mut s, " je mimo dosah rádia ");
        text::push_text(&mut s, hw.label());
    } else if known {
        text::push_text(&mut s, "zpět tam, kde jsi na ");
        text::push_text(&mut s, band.name);
        text::push_text(&mut s, " naposled byl");
    } else {
        text::push_text(&mut s, band.name);
        text::push_text(&mut s, " - doprostřed (");
        text::push_khz(&mut s, band.middle_millihz(), 0);
        text::push_text(&mut s, " kHz)");
    }
    assert(s@ =~= band_told(*band, hw, known));
    s
}

/// A text with a point in place of every comma.
pub open spec fn with_points(s: Seq<char>) -> Seq<char> {
    s.map_values(|c: char| if c == ',' {
        '.'
    } else {
        c
    })
}

/// The frequency that was typed in kilohertz, with a point or a comma. What stands for no number is
/// none to tune to.
pub fn typed_frequency(s: &str) -> (r: Option<i64>)
    ensures
        r matches Some(f) ==> khz::khz_field(with_points(text::trimmed(s@))) == Some(Some(f as int)),
        r is None ==> !(khz::khz_field(with_points(text::trimmed(s@))) matches Some(Some(_))),
{
    let chars = text::to_chars(s);
    let part: &[char] = text::trim(chars.as_slice());
    let mut out: Vec<char> = Vec::new();
    let mut i: usize = 0;
    while i < part.len()
        invariant
            i <= part@.len(),
            out@ == with_points(part@).take(i as int),
        decreases part@.len() - i,
    {
        let c: char = if part[i] == ',' {
            '.'
        } else {
            part[i]
        };
        out.push(c);
        i = i + 1;
        assert(out@ =~= with_points(part@).take(i as int));
    }
    assert(with_points(part@).take(i as int) =~= with_points(part@));
    match khz::parse_khz(out.as_slice()) {
        Some(f) => f,
        None => None,
    }
}

/// What stands on the button for a step of the oscillator in kilohertz: steps of a thousand or more
/// are shown in megahertz.
pub open spec fn step_shown(khz: int) -> Seq<char> {
    let size = if khz < 0 {
        -khz
    } else {
        khz
    };
    let sign = if khz < 0 {
        seq!['-']
    } else {
        seq!['+']
    };
    if size >= 1_000 {
        sign + text::decimal(text::nearest_even(size, 1_000) as nat) + " M"@
    } else {
        sign + text::decimal(size as nat) + " k"@
    }
}

/// What stands on the button for a step of the oscillator in kilohertz.
pub fn step_label(khz: i64) -> (r: String)
    ensures
        r@ == step_shown(khz as int),
{
    let mut s = String::new();
    let size: u64 = if khz < 0 {
        s.push('-');
        (-(khz as i128)) as u64
    } else {
        s.push('+');
        khz as u64
    };
    if size >= 1_000 {
        text::push_decimal(&mut s, text::round_even(size, 1_000));
        text::push_text(&mut s, " M");
    } else {
        text::push_decimal(&mut s, size);
        text::push_text(&mut s, " k");
    }
    assert(s@ =~= step_shown(khz as int));
    s
}

/// What is shown of a favourite station: its name, and below it its frequency and mode.
pub fn station_line(st: &Station) -> (r: String)
    ensures
        r@ == st.name@ + "\n"@ + text::khz(st.freq_millihz as int, 1) + " kHz · "@
            + st.mode.name(),
{
    let mut s = String::new();
    text::push_text(&mut s, st.name.as_str());
    text::push_text(&mut s, "\n");
    text::push_khz(&mut s, st.freq_millihz, 1);
    text::push_text(&mut s, " kHz · ");
    text::push_text(&mut s, st.mode.label());
    assert(s@ =~= st.name@ + "\n"@ + text::khz(st.freq_millihz as int, 1) + " kHz · "@
        + st.mode.name());
    s
}

/// A station that was tuned to is received, on the frequency itself, with its mode and width, where
/// the radio can tune beside it. At the ends of what the radio can tune it is received too, as far as
/// the spectrum reaches beyond them.
pub proof fn law_station_is_received(rx: Receiver, freq: int, mode: Mode, bw: int, span: int)
    requires
        rx.wf(),
        within(freq),
        0 <= bw <= REACH,
        0 <= span <= REACH,
        ({
            let lo = rx.set.hardware.range_khz().0 * 1_000_000;
            let hi = rx.set.hardware.range_khz().1 * 1_000_000;
            let park = panorama::parked(bw, span);
            ||| lo <= freq - park <= hi
            ||| 2 * park <= span && 2 * lo - span <= 2 * freq <= 2 * hi + span
        }),
    ensures
        rx.tuned_at(freq, mode, bw, span).tuned_to() == freq,
        rx.tuned_at(freq, mode, bw, span).set.mode == mode,
        rx.tuned_at(freq, mode, bw, span).set.width() == allowed_width(mode, bw),
{
    panorama::law_parked_channel_is_clear(bw, span);
}

/// The channel of a station that was tuned to is clear of the middle of the spectrum, where the radio
/// can tune beside the station.
pub proof fn law_tuned_channel_is_clear(rx: Receiver, freq: int, mode: Mode, bw: int, span: int)
    requires
        rx.wf(),
        within(freq),
        0 <= bw <= REACH,
        0 <= span <= REACH,
        rx.set.hardware.range_khz().0 * 1_000_000 <= freq - panorama::parked(bw, span)
            <= rx.set.hardware.range_khz().1 * 1_000_000,
    ensures
        2 * rx.tuned_at(freq, mode, bw, span).set.offset_millihz - bw >= 2 * panorama::DC_GUARD,
{
    panorama::law_parked_channel_is_clear(bw, span);
}

/// Dragging an edge to where it is leaves the width as it is, up to a millihertz, where the mode
/// allows it.
pub proof fn law_edge_can_be_held(mode: Mode, offset: int, bw: int)
    requires
        radio::widths(mode).0 * 1_000 <= bw <= radio::widths(mode).1 * 1_000,
        mode != Mode::Wfm,
    ensures
        ({
            let held = if mode == Mode::Lsb {
                edges(mode, offset, bw).0
            } else {
                edges(mode, offset, bw).1
            };
            let w = allowed_width(mode, dragged_width(mode, held - offset, bw));
            bw - 1 <= w <= bw
        }),
{
}

/// The oscillator is always put where the radio can tune.
pub proof fn law_vfo_stays_in_range(hw: Hardware, freq: int)
    ensures
        hw.range_khz().0 * 1_000_000 <= tunable(hw, freq) <= hw.range_khz().1 * 1_000_000,
        hw.range_khz().0 * 1_000_000 <= freq <= hw.range_khz().1 * 1_000_000 ==> tunable(hw, freq)
            == freq,
{
}

/// Tuning on by a distance moves what is received by that distance. The oscillator stays as long as
/// the receiver stays within 45 hundredths of the spectrum; else it follows, and the receiver comes to
/// stand a quarter of the spectrum from the middle, on the side that it went to, where the radio can
/// tune so far.
#[verifier::rlimit(40)]
pub proof fn law_tuning_on_moves_by_the_distance(rx: Receiver, delta: int, span: int)
    requires
        rx.wf(),
        within(delta),
        0 <= span <= REACH,
        -REACH + 2_000_000_000_000 <= rx.tuned_to() + delta <= REACH - 2_000_000_000_000,
    ensures
        ({
            let after = rx.tuned_by(delta, span).set;
            let off = rx.set.offset_millihz + delta;
            let hi: int = if rx.set.hardware == Hardware::SoftRock {
                60_000_000_000
            } else {
                2_000_000_000_000
            };
            let to = if off > 0 {
                rx.set.vfo_millihz + off - span / 4
            } else {
                rx.set.vfo_millihz + off + span / 4
            };
            &&& after.vfo_millihz + after.offset_millihz == rx.set.vfo_millihz
                + rx.set.offset_millihz + delta
            &&& -(span * 45 / 100) <= off <= span * 45 / 100 ==> after.vfo_millihz
                == rx.set.vfo_millihz
            &&& off > span * 45 / 100 && 100_000_000 <= to <= hi ==> after.offset_millihz == span / 4
            &&& off < -(span * 45 / 100) && 100_000_000 <= to <= hi ==> after.offset_millihz == -(
            span / 4)
            &&& after.mode == rx.set.mode && after.zoom == rx.set.zoom
        }),
{
}

/// Moving the oscillator leaves the receiver on its frequency while that stays within 48 hundredths
/// of the new spectrum, and the oscillator goes where it is sent, as far as the radio can tune.
pub proof fn law_oscillator_moves_under_the_receiver(rx: Receiver, delta: int, span: int)
    requires
        rx.wf(),
        within(delta),
        0 <= span <= REACH,
    ensures
        ({
            let after = rx.vfo_moved(delta, span).set;
            let to = rx.set.vfo_millihz + delta;
            let hi: int = if rx.set.hardware == Hardware::SoftRock {
                60_000_000_000
            } else {
                2_000_000_000_000
            };
            let off = rx.set.vfo_millihz + rx.set.offset_millihz - after.vfo_millihz;
            &&& 100_000_000 <= to <= hi ==> after.vfo_millihz == to
            &&& to < 100_000_000 ==> after.vfo_millihz == 100_000_000
            &&& to > hi ==> after.vfo_millihz == hi
            &&& -(span * 48 / 100) <= off <= span * 48 / 100 ==> after.vfo_millihz
                + after.offset_millihz == rx.set.vfo_millihz + rx.set.offset_millihz
            &&& off > span * 48 / 100 ==> after.offset_millihz == span * 48 / 100
            &&& off < -(span * 48 / 100) ==> after.offset_millihz == -(span * 48 / 100)
        }),
{
}

/// A jump moves the spectrum by its own width, so that the parts before and after lie side by side,
/// and a jump back undoes it while the radio can tune so far. The look for a station comes 400 ms
/// later.
#[verifier::rlimit(40)]
pub proof fn law_jumps_lie_side_by_side(rx: Receiver, span: int, up: bool, now: u64)
    requires
        rx.wf(),
        0 <= span <= REACH,
        now + 400 <= u64::MAX,
    ensures
        ({
            let after = rx.jumped(span, up, now);
            let to = if up {
                rx.set.vfo_millihz + span
            } else {
                rx.set.vfo_millihz - span
            };
            let hi: int = if rx.set.hardware == Hardware::SoftRock {
                60_000_000_000
            } else {
                2_000_000_000_000
            };
            &&& after.set.offset_millihz == 0
            &&& after.snap_at_ms == Some((now + 400) as u64)
            &&& 100_000_000 <= to <= hi ==> after.set.vfo_millihz == to
            &&& 100_000_000 <= to <= hi && 100_000_000 <= rx.set.vfo_millihz <= hi ==> after.jumped(
                span,
                !up,
                now,
            ).set.vfo_millihz == rx.set.vfo_millihz
        }),
{
}

/// A channel lies where its mode has it: on the upper side of the carrier, on the lower one, or half
/// on each, and it is as wide as was set, up to a millihertz.
pub proof fn law_channel_lies_where_its_mode_has_it(mode: Mode, offset: int, bw: int)
    requires
        bw >= 0,
    ensures
        ({
            let (lo, hi) = edges(mode, offset, bw);
            &&& bw - 1 <= hi - lo <= bw
            &&& mode == Mode::Usb ==> lo == offset
            &&& mode == Mode::Lsb ==> hi == offset
            &&& mode != Mode::Usb && mode != Mode::Lsb ==> hi - offset == offset - lo
        }),
{
}

/// The tone that is heard of a carrier at a distance from where the receiver stands: above it for the
/// upper sideband, below for the lower, either for AM, and shifted by 700 Hz for Morse.
pub open spec fn sounds_as(mode: Mode, distance: int, tone: int) -> bool {
    match mode {
        Mode::Usb => tone == distance,
        Mode::Lsb => tone == -distance,
        Mode::Am => tone == distance || tone == -distance,
        Mode::Cw => tone == distance + 700_000,
        Mode::Nfm => false,
        Mode::Wfm => false,
    }
}

/// The notch is drawn where the tones are that it silences, and nowhere else.
pub proof fn law_notch_is_where_its_tone_is(mode: Mode, c: int, notch: int, at: int)
    ensures
        notched(mode, c, notch).contains(at) <==> sounds_as(mode, at - c, notch),
{
    let s = notched(mode, c, notch);
    match mode {
        Mode::Usb => {
            assert(s[0] == c + notch);
        },
        Mode::Lsb => {
            assert(s[0] == c - notch);
        },
        Mode::Am => {
            assert(s[0] == c - notch && s[1] == c + notch);
        },
        Mode::Cw => {
            assert(s[0] == c + notch - 700_000);
        },
        Mode::Nfm => {},
        Mode::Wfm => {},
    }
}

/// A width is used as it is where the mode allows it, and else the nearest that it does allow.
pub proof fn law_width_is_the_nearest_allowed(mode: Mode, bw: int, other: int)
    requires
        radio::widths(mode).0 * 1_000 <= other <= radio::widths(mode).1 * 1_000,
    ensures
        ({
            let w = allowed_width(mode, bw);
            &&& radio::widths(mode).0 * 1_000 <= w <= radio::widths(mode).1 * 1_000
            &&& (w - bw) * (w - bw) <= (other - bw) * (other - bw)
        }),
{
    let w = allowed_width(mode, bw);
    assert((w - bw) * (w - bw) <= (other - bw) * (other - bw)) by (nonlinear_arith)
        requires
            w == bw || bw < w <= other || other <= w < bw,
    ;
}

/// Where a station is dragged to is where its edge then lies: the edge follows the hand, up to a
/// millihertz, where the mode allows the width.
pub proof fn law_edge_follows_the_hand(mode: Mode, offset: int, to: int, bw: int)
    requires
        mode != Mode::Wfm,
        ({
            let d = dragged_width(mode, to - offset, bw);
            radio::widths(mode).0 * 1_000 <= d <= radio::widths(mode).1 * 1_000
        }),
    ensures
        ({
            let w = allowed_width(mode, dragged_width(mode, to - offset, bw));
            let (lo, hi) = edges(mode, offset, w);
            lo == to || hi == to
        }),
{
}

/// The mode that is usual on a band is one that the radio can receive.
pub proof fn law_usual_mode_can_be_received(band: Band, hw: Hardware)
    requires
        band.from_hz <= band.to_hz,
    ensures
        usual_mode(band, hw) == Mode::Wfm ==> hw == Hardware::Rsp1,
        has_mode(hw, usual_mode(band, hw)),
        !band.broadcast && band.from_hz < 10_000_000 ==> usual_mode(band, hw) == Mode::Lsb,
        !band.broadcast && 10_000_000 <= band.from_hz < 87_000_000 ==> usual_mode(band, hw)
            == Mode::Usb,
        band.broadcast && band.from_hz < 87_000_000 ==> usual_mode(band, hw) == Mode::Am,
        !band.broadcast && band.from_hz >= 144_000_000 ==> usual_mode(band, hw) == Mode::Nfm,
{
}

/// Only wideband FM on the shortwave radio cannot be received.
pub proof fn law_what_cannot_be_received(hw: Hardware, mode: Mode)
    ensures
        !has_mode(hw, mode) <==> hw == Hardware::SoftRock && mode == Mode::Wfm,
{
}

/// A comma is read as a point, and everything else as it is.
pub proof fn law_comma_is_a_point(a: Seq<char>, b: Seq<char>)
    requires
        !a.contains(','),
        !b.contains(','),
    ensures
        with_points(a + seq![','] + b) == a + seq!['.'] + b,
        with_points(a) == a,
{
    assert forall|i: int| 0 <= i < a.len() implies a[i] != ',' by {
        assert(a.contains(a[i]));
    }
    assert forall|i: int| 0 <= i < b.len() implies b[i] != ',' by {
        assert(b.contains(b[i]));
    }
    assert(with_points(a + seq![','] + b) =~= a + seq!['.'] + b);
    assert(with_points(a) =~= a);
}

/// Wherever the receiver goes within the spectrum, it is seen there: the view follows, and it does not
/// go beyond the spectrum.
pub proof fn law_receiver_is_seen_where_it_goes(set: Settings, center: int, span: int)
    requires
        0 <= span <= REACH,
        -span <= 2 * set.offset_millihz <= span,
    ensures
        ({
            let c = Receiver::view_after(set, center, span);
            let vis = panorama::visible(set.zoom as int, span);
            &&& 2 * c - vis - 1 <= 2 * set.offset_millihz <= 2 * c + vis + 1
            &&& -span <= 2 * c - vis && 2 * c + vis <= span
        }),
{
    let vis = panorama::visible(set.zoom as int, span);
    panorama::law_view_is_inside(set.zoom as int, center, span);
    let z = panorama::zoom_used(set.zoom as int);
    assert(0 <= vis <= span) by (nonlinear_arith)
        requires
            vis == span * 1_000_000 / z,
            z >= 1_000_000,
            span >= 0,
    ;
    panorama::law_tuning_is_seen(set.offset_millihz as int, center, vis, span);
}

/// After each way of tuning the view has followed the receiver.
pub proof fn law_view_has_followed(rx: Receiver, delta: int, span: int, freq: int, mode: Mode, bw: int)
    requires
        rx.wf(),
        0 <= span <= REACH,
    ensures
        ({
            let t = rx.tuned_by(delta, span);
            t.view_center == Receiver::view_after(t.set, rx.view_center as int, span) as i64
        }),
        ({
            let t = rx.vfo_moved(delta, span);
            t.view_center == Receiver::view_after(t.set, t.set.offset_millihz as int, span) as i64
        }),
        ({
            let t = rx.tuned_at(freq, mode, bw, span);
            t.view_center == Receiver::view_after(
                t.set,
                Receiver::offset_beside(
                    rx.set.hardware,
                    freq,
                    panorama::parked(bw, span),
                    span,
                ),
                span,
            ) as i64 && t.snap_at_ms is None
        }),
{
}

/// Fine tuning goes by 10 Hz for Morse and the sidebands, by 100 kHz for wideband FM, and by 100 Hz
/// for the rest.
pub proof fn law_fine_tuning_goes_by_the_mode(mode: Mode)
    ensures
        mode == Mode::Cw || mode == Mode::Usb || mode == Mode::Lsb ==> step_of(mode) == 10_000,
        mode == Mode::Am || mode == Mode::Nfm ==> step_of(mode) == 100_000,
        mode == Mode::Wfm ==> step_of(mode) == 100_000_000,
{
}

/// The channels of a scan over what is seen stand side by side, a channel's width apart.
pub proof fn law_window_channels_stand_side_by_side(rx: Receiver, idx: int, span: int)
    requires
        0 <= span <= REACH,
    ensures
        rx.window_channel(idx + 1, span) - rx.window_channel(idx, span) == if rx.set.width()
            < 100_000 {
            100_000
        } else {
            rx.set.width() as int
        },
{
    let vis = panorama::visible(rx.set.zoom as int, span);
    let z = panorama::zoom_used(rx.set.zoom as int);
    assert(0 <= vis) by (nonlinear_arith)
        requires
            vis == span * 1_000_000 / z,
            z >= 1_000_000,
            span >= 0,
    ;
    scan::law_channels_stand_side_by_side(
        panorama::clamped(rx.view_center as int, -((span - vis) / 2), (span - vis) / 2),
        vis,
        rx.set.width() as int,
        idx,
    );
}

} // verus!
