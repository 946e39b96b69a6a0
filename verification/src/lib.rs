//! Removes embedded metadata from photos and videos.

pub mod bytes;
pub mod cli;
pub mod error;
pub mod gui;
pub mod report;
pub mod report_laws;
pub mod run_laws;
pub mod scrub;
pub mod text;
pub mod text_laws;
