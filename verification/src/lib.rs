//! Keeps an authoritative DNS zone file in sync with "A" records gathered from
//! several independent sources.
//!
//! The library covers the deterministic core of one synchronisation cycle:
//! normalising and de-duplicating the records of each source, rendering one
//! zone fragment per source, and merging static and generated fragments into the
//! text of the destination zone file. Fetching, reading and writing are left
//! to the caller, which hands in what it fetched and read and writes what it
//! gets back.

pub mod config;
pub mod cycle;
pub mod dns_record;
pub mod dns_record_collector;
pub mod file_writer;
pub mod normalizer;
pub mod sorting;
pub mod text;
