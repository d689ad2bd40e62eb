//! The schedule of short-wave broadcasting, from the seasonal lists of EiBi.
//!
//! A line of a list reads `kHz;Time(UTC);Days;ITU;Station;Lng;Target;Remarks;P;Start;Stop;`. Times
//! may run over midnight (`2100-0100`), ranges of days over the end of the week (`We-Mo`), and
//! days may be written without anything between them (`SaSu`).

pub mod calendar;
pub mod codes;
pub mod days;
pub mod describe;
pub mod entry;
pub mod files;
pub mod khz;
pub mod list;

pub use calendar::current_season;
pub use calendar::last_sunday;
pub use calendar::season_of;
pub use calendar::weekday_index;
pub use calendar::Moment;
pub use calendar::Weekday;
pub use codes::CodeTable;
pub use codes::Codes;
pub use days::DaySet;
pub use entry::parse_ddmm;
pub use entry::parse_hhmm;
pub use entry::Entry;
pub use files::cache_base;
pub use files::cache_dir;
pub use files::cache_path;
pub use files::latin1_to_string;
pub use list::codes_from_cache;
pub use list::LoadError;
pub use list::Schedule;
