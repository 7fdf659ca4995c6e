//! Parsing and analysis of a GPS location-history export.
//!
//! A history is a sequence of [`location::Location`] samples. Ingestion
//! ([`ingest::deserialize`]) reads the JSON export, converts the encoded
//! fields to plain values and returns the samples sorted ascending by
//! timestamp. The analytic operations ([`series::LocationsExt`]) assume and
//! preserve that order.

pub mod ingest;
mod jsonio;
pub mod location;
pub mod series;
