//! tinyget: reading what the `winget` command line prints, deciding what to
//! ask of it, and the state of the window that shows it.
//!
//! winget has no machine-readable output for `upgrade` or `pin list`, so both are
//! read back from the aligned text table it prints. Two things make that awkward:
//! the column headers are localized, and the columns are aligned by *display*
//! width, where a CJK glyph occupies two cells. Both are handled in
//! [`parse_table`]. Output is UTF-8 even when redirected, which is the one thing
//! that makes this tractable at all.

pub mod state;
pub mod table;
pub mod text;
pub mod upgrade;
pub mod width;
pub mod winget;

pub use state::{clock, client_version_label, State};
pub use table::{clean_line, is_valid_id, parse_table};
pub use upgrade::{outcome_note, sentinel_code, watch_step, UpgradeOutcome, WatchAction, WatchEvent, WatchPhase};
pub use winget::{
    add_pin, failure_reason, list_pins, list_upgrades, pin_change_result, remove_pin,
    upgrade_command, upgrade_script, version, Error, Output, Pin, PinKind, Upgrade,
};
