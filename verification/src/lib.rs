//! Analysis of telecommunication call-detail records.
//!
//! The crate ingests XML documents of inconsistent structure, normalizes
//! the call entries they carry into canonical records, and derives
//! aggregate statistics from the resulting record set.

pub mod analytics;
pub mod data_models;
pub mod phone;
pub mod strutil;
pub mod time;
pub mod xml_events;
pub mod xml_parser;
pub mod xml_scan;
