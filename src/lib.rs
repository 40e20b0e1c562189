//! Readings of three beverage taps: the decimal quantities read from the
//! data file, the transform into display records, the status page built from
//! them, and the small pieces of request handling that decide statuses,
//! fixed replies and log lines.

pub mod number;
pub mod page;
pub mod respond;
pub mod tap;
pub mod volume;

pub use page::render_page;
pub use respond::{file_failure_message, form_page, form_status, read_failure_message, render_failure_message, static_greeting, FormSubmission};
pub use tap::{display_readings, format_tap, HomeBrew, KegDisplay, ReadError, Tap, TapReadings};
pub use volume::Volume;
