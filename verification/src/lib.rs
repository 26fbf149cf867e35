//! Fill a Kindle's storage down to a target free-space window, and undo it.
//!
//! Split so the risky part can be reasoned about without hardware:
//!
//! - [`plan`] is pure arithmetic: which write, or which removal, a reading calls for.
//! - [`names`], [`listing`] and [`token`] decide what the entries on a device mean.
//! - [`fill`], [`clean`], [`purge`], [`updates`] and [`bench`] are the operations. Each is
//!   a conversation with whoever drives it: it says what to do on the device next, and is
//!   handed the answer.
//! - [`honest`] says what they come to on a device that does what it is asked, and [`ops`]
//!   in which order a fill goes about what it was asked for.
//! - [`rate`], [`meter`] and [`double`] turn upload callbacks into progress figures.
//! - [`mass_storage`], [`device`], [`ptpcamerad`] and [`wpd`] decide what the platform's
//!   answers mean.
//! - [`report`], [`console`] and [`units`] put it all into words.
//!
//! What holds of each of them over all inputs, and of several together, stands in the
//! modules whose names end in `_laws`.

pub mod bench;
pub mod clean;
pub mod clean_laws;
pub mod console;
pub mod deletion_laws;
pub mod device;
pub mod double;
pub mod double_laws;
pub mod engine;
pub mod events;
pub mod fill;
pub mod fill_laws;
pub mod fill_step_laws;
pub mod honest;
pub mod listing;
pub mod listing_laws;
pub mod mass_storage;
pub mod meter;
pub mod names;
pub mod ops;
pub mod order;
pub mod plan;
pub mod plan_laws;
pub mod ptpcamerad;
pub mod purge;
pub mod rate;
pub mod report;
pub mod storage_laws;
pub mod sweep;
pub mod text;
pub mod text_laws;
pub mod token;
pub mod token_laws;
pub mod units;
pub mod units_laws;
pub mod updates;
pub mod view_laws;
pub mod wording_laws;
pub mod wpd;
pub mod zeros;

pub use device::looks_like_kindle;
pub use events::{
    is_disconnected, is_exclusive_access, is_permission_denied, is_timeout, CleanReport,
    DeletedKind, Event, FillError, Outcome,
};
pub use listing::FillerFolder;
pub use names::{validate_dir_name, NameError, DEFAULT_FILL_DIR};
pub use plan::{next_removal, next_step, Removal, Step, Window, WindowError, GIB, KIB, MIB};
pub use rate::{human_duration, human_eta, FillProgress, RateEstimator};
pub use units::human_bytes;
pub use zeros::ZeroStream;
