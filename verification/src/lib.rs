//! Checks Upbit notices for a phrase and watches the notice list for new entries.
pub mod text;
pub mod html;
pub mod scan;
pub mod json;
pub mod cli;
pub mod number;
pub mod watch;
