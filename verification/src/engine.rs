//! Everything about operating on a device, in one place: names and listings, tokens, and
//! the operations that a driver carries out step by step.

pub use crate::clean::Clean;
pub use crate::events::{
    CleanReport, DeletedKind, ErrorKind, Event, FillError, MtpError, Outcome,
};
pub use crate::fill::{Fill, Reply, Request};
pub use crate::listing::{
    find_fill_dir, find_filler_folders, highest_sequence, is_listed, list_debris, list_fillers,
    list_foreign, list_staged_updates, next_sequence, Entry, FillerFolder, RootEntry,
};
pub use crate::names::{
    filler_name, filler_sequence, is_inflight_marker, is_staged_update, validate_dir_name,
    NameError, DEFAULT_FILL_DIR, INFLIGHT_MARKER, INFLIGHT_NOTE,
};
pub use crate::purge::Purge;
pub use crate::sweep::{Answer, Ask};
pub use crate::token::{current_overwrite_token, overwrite_token};
pub use crate::updates::{doomed_updates, Updates};
