//! Counts scientific measurement-set containers found in a directory tree and
//! cross-tabulates them by acquisition date and frequency sub-band.
//!
//! The library holds the logic: recognising leaf containers by name,
//! extracting the date and band fields from a container name, aggregating
//! counts per `(date, band)` pair, consolidating the band columns so the
//! table is rectangular, and rendering the fixed-width report. Directory
//! listing itself is left to the caller, which feeds each listing to
//! [`walk::process_listing`].

pub mod pattern;
pub mod table;
pub mod render;
pub mod walk;
