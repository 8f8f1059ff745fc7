//! Reconstruction of a mood diary from the layout-preserving text dump of a
//! PDF export.
//!
//! The pipeline has two stages: [`parse`] walks the text and recovers the
//! statistics block and the raw day entries, and [`interpret`] turns that raw
//! shape into a [`models::Diary`] with moods, tags and cleaned note text.

pub mod daylio;
pub mod dates;
pub mod parse;
pub mod interpret;
pub mod laws;
pub mod models;
pub mod text;

pub use interpret::interpret;
pub use parse::parse;
