//! Ingestion core for agricultural and weather time-series reports.
//!
//! Three format adapters (REST/JSON reports, fixed-column text bulletins,
//! fixed-width positional records) normalize external data into one canonical
//! package model, which a schema-driven persistence layer turns into
//! idempotent upsert rows; an incremental sync window bounds each fetch.

pub mod datamart;
pub mod dates;
pub mod esmis;
pub mod flags;
pub mod legacy;
pub mod mars;
pub mod noaa;
pub mod package;
pub mod persist;
pub mod schema;
pub mod sync;
pub mod text;
