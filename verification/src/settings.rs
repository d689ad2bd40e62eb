//! What the user has set, and when it is saved.
//!
//! Frequencies and widths are in millihertz, times in milliseconds.
use crate::audio::Depth;
use crate::decode::Decoder;
use crate::dsp::Mode;
use crate::panorama;
use crate::radio;
use crate::source::Hardware;
use crate::text;
use vstd::prelude::*;

verus! {

/// How long after the last change the settings are saved.
pub const SAVE_DELAY_MS: u64 = 800;

/// The crystal of the Si570 in hertz, unless it is calibrated.
pub const SI570_XTAL_HZ: u64 = 114_269_790;

/// A favourite station. Its frequency is its own, not its distance from the middle of the spectrum.
#[derive(PartialEq, Eq, Debug)]
pub struct Station {
    pub name: String,
    pub freq_millihz: i64,
    pub mode: Mode,
    pub bandwidth_millihz: i64,
}

/// What a station is, without where its name is kept.
#[verifier::ext_equal]
pub struct StationView {
    pub name: Seq<char>,
    pub freq: int,
    pub mode: Mode,
    pub bandwidth: int,
}

impl View for Station {
    type V = StationView;

    open spec fn view(&self) -> StationView {
        StationView {
            name: self.name@,
            freq: self.freq_millihz as int,
            mode: self.mode,
            bandwidth: self.bandwidth_millihz as int,
        }
    }
}

/// Where the receiver last stood on a band.
#[derive(Clone, Copy, PartialEq, Eq, Debug, Structural)]
pub struct BandMemory {
    pub freq_millihz: i64,
    pub mode: Mode,
    pub bandwidth_millihz: i64,
}

/// What the receiver goes by of what the user has set.
#[derive(PartialEq, Eq, Debug)]
pub struct Settings {
    pub hardware: Hardware,
    /// The frequency in the middle of the spectrum.
    pub vfo_millihz: i64,
    /// How far from the middle the receiver stands.
    pub offset_millihz: i64,
    pub mode: Mode,
    /// The width of the channel, for single sideband and for everything else.
    pub bandwidth_am_millihz: i64,
    pub bandwidth_ssb_millihz: i64,
    /// The magnification of the panorama in millionths.
    pub zoom: u32,
    pub squelch_on: bool,
    pub show_console: bool,
    pub decoder: Decoder,
    pub show_bandplan: bool,
    pub stations: Vec<Station>,
}

impl Default for Settings {
    fn default() -> (r: Settings)
        ensures
            r.hardware == Hardware::SoftRock,
            r.vfo_millihz == 7_300_000_000,
            r.offset_millihz == 0,
            r.mode == Mode::Am,
            r.bandwidth_am_millihz == radio::AM_BANDWIDTH_HZ * 1_000,
            r.bandwidth_ssb_millihz == radio::SSB_BANDWIDTH_HZ * 1_000,
            r.zoom == panorama::ZOOM_ONE,
            !r.squelch_on,
            !r.show_console,
            r.decoder == Decoder::Off,
            r.show_bandplan,
            r.stations@ == Seq::<Station>::empty(),
    {
        Settings {
            hardware: Hardware::SoftRock,
            vfo_millihz: 7_300_000_000,
            offset_millihz: 0,
            mode: Mode::Am,
            bandwidth_am_millihz: radio::AM_BANDWIDTH_HZ * 1_000,
            bandwidth_ssb_millihz: radio::SSB_BANDWIDTH_HZ * 1_000,
            zoom: panorama::ZOOM_ONE,
            squelch_on: false,
            show_console: false,
            decoder: Decoder::Off,
            show_bandplan: true,
            stations: Vec::new(),
        }
    }
}

/// Whether only one side of the carrier is received.
pub open spec fn one_sided(mode: Mode) -> bool {
    mode == Mode::Usb || mode == Mode::Lsb
}

impl Settings {
    /// The width of the channel in the mode that is set.
    pub open spec fn width(&self) -> i64 {
        if one_sided(self.mode) {
            self.bandwidth_ssb_millihz
        } else {
            self.bandwidth_am_millihz
        }
    }

    /// The width of the channel in the mode that is set.
    pub fn bandwidth(&self) -> (r: i64)
        ensures
            r == self.width(),
    {
        if self.mode.is_ssb() {
            self.bandwidth_ssb_millihz
        } else {
            self.bandwidth_am_millihz
        }
    }

    /// The settings with another width of the channel in the mode that is set.
    pub open spec fn with_width(self, bw: i64) -> Settings {
        if one_sided(self.mode) {
            Settings { bandwidth_ssb_millihz: bw, ..self }
        } else {
            Settings { bandwidth_am_millihz: bw, ..self }
        }
    }

    /// Sets the width of the channel in the mode that is set.
    pub fn set_bandwidth(&mut self, bw: i64)
        ensures
            *final(self) == old(self).with_width(bw),
    {
        if self.mode.is_ssb() {
            self.bandwidth_ssb_millihz = bw;
        } else {
            self.bandwidth_am_millihz = bw;
        }
    }
}

/// The width that was set comes back; in a mode of the other kind nothing has changed.
pub proof fn law_width_is_kept_by_mode(set: Settings, bw: i64, other: Mode)
    ensures
        set.with_width(bw).width() == bw,
        one_sided(other) == one_sided(set.mode) ==> (Settings {
            mode: other,
            ..set.with_width(bw)
        }).width() == bw,
        one_sided(other) != one_sided(set.mode) ==> (Settings {
            mode: other,
            ..set.with_width(bw)
        }).width() == (Settings { mode: other, ..set }).width(),
{
}

/// Where settings are kept below a directory.
pub open spec fn config_in(base: Seq<char>) -> Seq<char> {
    text::joined(text::joined(base, "knoflik-sdr"@), "config.toml"@)
}

/// Where settings were kept below a directory when the program had its former name.
pub open spec fn legacy_config_in(base: Seq<char>) -> Seq<char> {
    text::joined(text::joined(base, "rd-sdr"@), "config.toml"@)
}

/// Where settings are kept below a directory.
pub fn config_path_in(base: &str) -> (r: String)
    ensures
        r@ == config_in(base@),
{
    let dir = text::join_path(base, "knoflik-sdr");
    text::join_path(dir.as_str(), "config.toml")
}

/// Where settings were kept below a directory when the program had its former name.
pub fn legacy_config_path_in(base: &str) -> (r: String)
    ensures
        r@ == legacy_config_in(base@),
{
    let dir = text::join_path(base, "rd-sdr");
    text::join_path(dir.as_str(), "config.toml")
}

/// The directory of all settings of the user: the one that is named for them, else the usual one
/// below the home directory, if there is one.
pub open spec fn base_of(config_home: Option<Seq<char>>, home: Option<Seq<char>>) -> Option<
    Seq<char>,
> {
    match config_home {
        Some(dir) => Some(dir),
        None => match home {
            Some(h) => Some(text::joined(h, ".config"@)),
            None => None,
        },
    }
}

/// The text that an optional string holds.
pub open spec fn text_of(s: Option<&str>) -> Option<Seq<char>> {
    match s {
        Some(t) => Some(t@),
        None => None,
    }
}

/// The directory of all settings of the user.
pub fn config_base(config_home: Option<&str>, home: Option<&str>) -> (r: Option<String>)
    ensures
        match base_of(text_of(config_home), text_of(home)) {
            Some(b) => r is Some && r->0@ == b,
            None => r is None,
        },
{
    match config_home {
        Some(dir) => Some(dir.to_string()),
        None => match home {
            Some(h) => Some(text::join_path(h, ".config")),
            None => None,
        },
    }
}

/// Where the settings are kept.
pub fn config_path(config_home: Option<&str>, home: Option<&str>) -> (r: Option<String>)
    ensures
        match base_of(text_of(config_home), text_of(home)) {
            Some(b) => r is Some && r->0@ == config_in(b),
            None => r is None,
        },
{
    match config_base(config_home, home) {
        Some(base) => Some(config_path_in(base.as_str())),
        None => None,
    }
}

/// Which settings are read.
#[derive(Clone, Copy, PartialEq, Eq, Debug, Structural)]
pub enum ConfigChoice {
    /// Those under the present name.
    Present,
    /// Those under the former name.
    Legacy,
    /// None: everything is as it is without settings.
    Nothing,
}

/// Which settings are read, by which of them there are. Those under the present name go first, so
/// that the former ones do not come back once settings were saved.
pub fn choose_config(present: bool, legacy: bool) -> (r: ConfigChoice)
    ensures
        present ==> r == ConfigChoice::Present,
        !present && legacy ==> r == ConfigChoice::Legacy,
        !present && !legacy ==> r == ConfigChoice::Nothing,
{
    if present {
        ConfigChoice::Present
    } else if legacy {
        ConfigChoice::Legacy
    } else {
        ConfigChoice::Nothing
    }
}

/// Watches for changes and says when to save.
#[derive(Clone, Copy, PartialEq, Eq, Debug, Structural)]
pub struct Autosave {
    /// When the last change came that is not saved yet.
    pub dirty_since: Option<u64>,
}

impl Autosave {
    /// When the last unsaved change came, once a look has been taken.
    pub open spec fn noted(self, changed: bool, now: u64) -> Option<u64> {
        if changed {
            Some(now)
        } else {
            self.dirty_since
        }
    }

    /// What comes of a look: the state after it, and whether to save. A change is saved once none has
    /// come for long enough.
    pub open spec fn looked(self, changed: bool, now: u64) -> (Autosave, bool) {
        let noted = self.noted(changed, now);
        let save = noted matches Some(t) && now >= t + SAVE_DELAY_MS;
        (
            Autosave {
                dirty_since: if save {
                    None
                } else {
                    noted
                },
            },
            save,
        )
    }

    /// Nothing is unsaved.
    pub fn new() -> (r: Self)
        ensures
            r.dirty_since is None,
    {
        Autosave { dirty_since: None }
    }

    /// Takes a look: whether anything has changed since the last one. Says whether to save now.
    pub fn tick(&mut self, changed: bool, now_ms: u64) -> (save: bool)
        ensures
            save == match old(self).noted(changed, now_ms) {
                Some(t) => now_ms >= t + SAVE_DELAY_MS,
                None => false,
            },
            final(self).dirty_since == (if save {
                None
            } else {
                old(self).noted(changed, now_ms)
            }),
            (*final(self), save) == old(self).looked(changed, now_ms),
    {
        if changed {
            self.dirty_since = Some(now_ms);
        }
        let save: bool = match self.dirty_since {
            Some(t) => now_ms as u128 >= t as u128 + SAVE_DELAY_MS as u128,
            None => false,
        };
        if save {
            self.dirty_since = None;
        }
        save
    }

    /// Says whether there is anything to save at the end.
    pub fn flush(&mut self) -> (save: bool)
        ensures
            save == (old(self).dirty_since is Some),
            final(self).dirty_since is None,
    {
        let save: bool = self.dirty_since.is_some();
        self.dirty_since = None;
        save
    }
}

/// What the state of the saving is after a number of looks, each a pair of whether anything changed
/// and when it was, and how often it was saved.
pub open spec fn watched(start: Option<u64>, looks: Seq<(bool, u64)>) -> (Option<u64>, nat)
    decreases looks.len(),
{
    if looks.len() == 0 {
        (start, 0)
    } else {
        let before = watched(start, looks.drop_last());
        let (changed, now) = looks.last();
        let (after, save) = (Autosave { dirty_since: before.0 }).looked(changed, now);
        (
            after.dirty_since,
            if save {
                before.1 + 1
            } else {
                before.1
            },
        )
    }
}

/// While changes keep coming, nothing is saved.
pub proof fn law_busy_settings_are_not_saved(start: Option<u64>, looks: Seq<(bool, u64)>)
    requires
        forall|i: int| 0 <= i < looks.len() ==> (#[trigger] looks[i]).0,
    ensures
        watched(start, looks).1 == 0,
    decreases looks.len(),
{
    if looks.len() > 0 {
        let init = looks.drop_last();
        assert forall|i: int| 0 <= i < init.len() implies (#[trigger] init[i]).0 by {
            assert(looks[i].0);
        }
        law_busy_settings_are_not_saved(start, init);
    }
}

/// A change after which nothing else changes is saved by the first look that comes long enough
/// after it.
pub proof fn law_change_is_saved(start: Option<u64>, looks: Seq<(bool, u64)>, i: int, j: int)
    requires
        0 <= i < j < looks.len(),
        looks[i].0,
        forall|k: int| i < k < looks.len() ==> !(#[trigger] looks[k]).0,
        looks[j].1 >= looks[i].1 + SAVE_DELAY_MS,
    ensures
        watched(start, looks.take(j + 1)).1 == watched(start, looks.take(i + 1)).1 + 1,
{
    lemma_after_last_change(start, looks, i, j + 1);
}

proof fn lemma_after_last_change(start: Option<u64>, looks: Seq<(bool, u64)>, i: int, n: int)
    requires
        0 <= i < n <= looks.len(),
        looks[i].0,
        forall|k: int| i < k < looks.len() ==> !(#[trigger] looks[k]).0,
    ensures
        ({
            let w = watched(start, looks.take(n));
            let c = watched(start, looks.take(i + 1)).1;
            ||| w == (Some(looks[i].1), c) && forall|k: int|
                i < k < n ==> (#[trigger] looks[k]).1 < looks[i].1 + SAVE_DELAY_MS
            ||| w == (None::<u64>, (c + 1) as nat)
        }),
    decreases n,
{
    let part = looks.take(n);
    assert(part.last() == looks[n - 1]);
    if n > i + 1 {
        assert(part.drop_last() == looks.take(n - 1));
        lemma_after_last_change(start, looks, i, n - 1);
    }
}

/// The memory of a list of bands: what is remembered of the last one of a name.
pub open spec fn memory_of(entries: Seq<(String, BandMemory)>, name: Seq<char>) -> Option<BandMemory>
    decreases entries.len(),
{
    if entries.len() == 0 {
        None
    } else if entries.last().0@ == name {
        Some(entries.last().1)
    } else {
        memory_of(entries.drop_last(), name)
    }
}

/// Where the receiver last stood on each band.
pub struct BandTable {
    entries: Vec<(String, BandMemory)>,
}

impl BandTable {
    /// What is remembered of a band.
    pub closed spec fn recalls(&self, name: Seq<char>) -> Option<BandMemory> {
        memory_of(self.entries@, name)
    }

    /// Nothing is remembered.
    pub fn new() -> (r: BandTable)
        ensures
            forall|name: Seq<char>| #[trigger] r.recalls(name) is None,
    {
        BandTable { entries: Vec::new() }
    }

    fn position(&self, name: &str) -> (r: Option<usize>)
        ensures
            r matches Some(i) ==> i < self.entries@.len() && self.entries@[i as int].0@ == name@
                && self.recalls(name@) == Some(self.entries@[i as int].1) && forall|j: int|
                i < j < self.entries@.len() ==> (#[trigger] self.entries@[j]).0@ != name@,
            r is None ==> self.recalls(name@) is None && forall|j: int|
                0 <= j < self.entries@.len() ==> (#[trigger] self.entries@[j]).0@ != name@,
    {
        let wanted = text::to_chars(name);
        let mut i: usize = self.entries.len();
        assert(self.entries@.take(i as int) == self.entries@);
        while i > 0
            invariant
                i <= self.entries@.len(),
                wanted@ == name@,
                self.recalls(name@) == memory_of(self.entries@.take(i as int), name@),
                forall|j: int|
                    i <= j < self.entries@.len() ==> (#[trigger] self.entries@[j]).0@ != name@,
            decreases i,
        {
            assert(self.entries@.take(i as int).drop_last() == self.entries@.take(i - 1));
            assert(self.entries@.take(i as int).last() == self.entries@[i - 1]);
            i = i - 1;
            let known = text::to_chars(self.entries[i].0.as_str());
            if text::same(known.as_slice(), wanted.as_slice()) {
                return Some(i);
            }
        }
        None
    }

    /// What is remembered of a band.
    pub fn get(&self, name: &str) -> (r: Option<BandMemory>)
        ensures
            r == self.recalls(name@),
    {
        match self.position(name) {
            Some(i) => Some(self.entries[i].1),
            None => None,
        }
    }

    /// Remembers something of a band, in place of what was remembered of it.
    pub fn insert(&mut self, name: &str, memory: BandMemory)
        ensures
            forall|other: Seq<char>| #[trigger]
                final(self).recalls(other) == (if other == name@ {
                    Some(memory)
                } else {
                    old(self).recalls(other)
                }),
    {
        let at = self.position(name);
        let ghost before = self.entries@;
        match at {
            Some(i) => {
                let label = self.entries[i].0.clone();
                self.entries.set(i, (label, memory));
                proof {
                    assert forall|other: Seq<char>| #[trigger]
                        self.recalls(other) == (if other == name@ {
                            Some(memory)
                        } else {
                            old(self).recalls(other)
                        }) by {
                        lemma_memory_replaced(before, i as int, self.entries@[i as int], other);
                    }
                }
            },
            None => {
                self.entries.push((name.to_string(), memory));
                assert(self.entries@.drop_last() == before);
            },
        }
    }

    /// The bands that something is remembered of, and what.
    pub fn all(&self) -> (r: &Vec<(String, BandMemory)>)
        ensures
            forall|name: Seq<char>| #[trigger] memory_of(r@, name) == self.recalls(name),
    {
        &self.entries
    }
}

proof fn lemma_memory_replaced(
    entries: Seq<(String, BandMemory)>,
    i: int,
    entry: (String, BandMemory),
    other: Seq<char>,
)
    requires
        0 <= i < entries.len(),
        entry.0@ == entries[i].0@,
        forall|j: int| i < j < entries.len() ==> (#[trigger] entries[j]).0@ != entry.0@,
    ensures
        memory_of(entries.update(i, entry), other) == (if other == entry.0@ {
            Some(entry.1)
        } else {
            memory_of(entries, other)
        }),
    decreases entries.len(),
{
    let changed = entries.update(i, entry);
    if i < entries.len() - 1 {
        assert(changed.drop_last() == entries.drop_last().update(i, entry));
        assert(changed.last() == entries.last());
        assert(entries[entries.len() - 1].0@ != entry.0@);
        assert forall|j: int| i < j < entries.drop_last().len() implies (
        #[trigger] entries.drop_last()[j]).0@ != entry.0@ by {
            assert(entries[j].0@ != entry.0@);
        }
        lemma_memory_replaced(entries.drop_last(), i, entry, other);
    } else {
        assert(changed.drop_last() == entries.drop_last());
    }
}

/// What a radio is opened with.
#[derive(PartialEq, Eq, Debug)]
pub struct StartupConfig {
    pub hardware: Hardware,
    pub rsp1_rate_hz: u32,
    pub capture_device: String,
    pub depth: Depth,
    pub si570_xtal_millihz: u64,
    pub si570_i2c_addr: u16,
}

/// Whether a radio is opened in the same way by two settings.
pub open spec fn opens_alike(a: StartupConfig, b: StartupConfig) -> bool {
    a.hardware == b.hardware && a.rsp1_rate_hz == b.rsp1_rate_hz && a.capture_device@
        == b.capture_device@ && a.depth == b.depth && a.si570_xtal_millihz == b.si570_xtal_millihz
        && a.si570_i2c_addr == b.si570_i2c_addr
}

/// Whether a radio that was opened with some settings has to be opened again for others.
pub fn needs_reopen(running: &StartupConfig, wanted: &StartupConfig) -> (r: bool)
    ensures
        !r == opens_alike(*running, *wanted),
{
    let a = text::to_chars(running.capture_device.as_str());
    let b = text::to_chars(wanted.capture_device.as_str());
    !(running.hardware == wanted.hardware && running.rsp1_rate_hz == wanted.rsp1_rate_hz
        && text::same(a.as_slice(), b.as_slice()) && running.depth == wanted.depth
        && running.si570_xtal_millihz == wanted.si570_xtal_millihz && running.si570_i2c_addr
        == wanted.si570_i2c_addr)
}

/// The levels between which a spectrum is shown, in thousandths of a decibel.
#[derive(Clone, Copy, PartialEq, Eq, Debug, Structural)]
pub struct LevelRange {
    pub min: i32,
    pub max: i32,
}

/// The levels between which the spectrum of each radio is shown. They lie elsewhere for a radio behind
/// a sound card than for one with an amplifier of its own.
#[derive(Clone, Copy, PartialEq, Eq, Debug, Structural)]
pub struct LevelRanges {
    pub softrock: LevelRange,
    pub rsp1: LevelRange,
}

impl Default for LevelRanges {
    fn default() -> (r: LevelRanges)
        ensures
            r.softrock.min == -110_000,
            r.softrock.max == -20_000,
            r.rsp1 == r.softrock,
    {
        let usual = LevelRange { min: -110_000, max: -20_000 };
        LevelRanges { softrock: usual, rsp1: usual }
    }
}

impl LevelRanges {
    /// The levels for a radio.
    pub open spec fn range(self, hw: Hardware) -> LevelRange {
        match hw {
            Hardware::SoftRock => self.softrock,
            Hardware::Rsp1 => self.rsp1,
        }
    }

    /// The levels for a radio.
    pub fn of(&self, hw: Hardware) -> (r: LevelRange)
        ensures
            r == self.range(hw),
    {
        match hw {
            Hardware::SoftRock => self.softrock,
            Hardware::Rsp1 => self.rsp1,
        }
    }

    /// Sets the levels for a radio; those of the others stay.
    pub fn set(&mut self, hw: Hardware, range: LevelRange)
        ensures
            forall|other: Hardware| #[trigger]
                final(self).range(other) == (if other == hw {
                    range
                } else {
                    old(self).range(other)
                }),
    {
        match hw {
            Hardware::SoftRock => self.softrock = range,
            Hardware::Rsp1 => self.rsp1 = range,
        }
    }
}

/// A radio stays open only where nothing at all has changed: settings that open it alike are the same
/// but for where the name of the device is kept, and the same settings open it alike.
pub proof fn law_every_change_opens_again(a: StartupConfig, b: StartupConfig)
    ensures
        opens_alike(a, b) ==> a.capture_device@ == b.capture_device@ && a == (StartupConfig {
            capture_device: a.capture_device,
            ..b
        }),
        opens_alike(a, a),
        opens_alike(a, b) == opens_alike(b, a),
{
}

/// A change is saved once, 800 ms after it, and not before, where no other comes.
pub proof fn law_change_is_saved_after_its_time(
    start: Option<u64>,
    looks: Seq<(bool, u64)>,
    i: int,
    j: int,
)
    requires
        0 <= i < j < looks.len(),
        looks[i].0,
        forall|k: int| i < k < looks.len() ==> !(#[trigger] looks[k]).0,
        forall|k: int| i <= k < j ==> (#[trigger] looks[k]).1 < looks[i].1 + 800,
    ensures
        looks[j].1 < looks[i].1 + 800 ==> watched(start, looks.take(j + 1)) == (
            Some(looks[i].1),
            watched(start, looks.take(i + 1)).1,
        ),
        looks[j].1 >= looks[i].1 + 800 ==> watched(start, looks.take(j + 1)) == (
            None::<u64>,
            watched(start, looks.take(i + 1)).1 + 1,
        ),
{
    lemma_still_unsaved(start, looks, i, j - 1);
    assert(looks.take(j + 1).drop_last() =~= looks.take(j));
    assert(looks.take(j + 1).last() == looks[j]);
    assert(!looks[j].0);
}

/// Until its time is over a change is not saved.
proof fn lemma_still_unsaved(start: Option<u64>, looks: Seq<(bool, u64)>, i: int, j: int)
    requires
        0 <= i <= j < looks.len(),
        looks[i].0,
        forall|k: int| i < k < looks.len() ==> !(#[trigger] looks[k]).0,
        forall|k: int| i <= k <= j ==> (#[trigger] looks[k]).1 < looks[i].1 + 800,
    ensures
        watched(start, looks.take(j + 1)) == (
            Some(looks[i].1),
            watched(start, looks.take(i + 1)).1,
        ),
    decreases j - i,
{
    assert(looks.take(j + 1).drop_last() =~= looks.take(j));
    assert(looks.take(j + 1).last() == looks[j]);
    if i < j {
        lemma_still_unsaved(start, looks, i, j - 1);
        assert(!looks[j].0);
        assert(looks[j].1 < looks[i].1 + 800);
    }
}

} // verus!
