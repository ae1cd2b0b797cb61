//! Renames photographs after the capture date stored in their EXIF tags.
//!
//! The library plans a batch of renames (one target name per file, derived
//! from the capture date, a time zone and a name template), detects every
//! name collision that the batch would introduce, and accounts for the
//! renames that were applied.
pub mod order;
pub mod path;
pub mod image;
pub mod rename;
pub mod ui;
