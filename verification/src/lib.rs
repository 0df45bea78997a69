//! Extraction of "Quote of the Week" excerpts from dated newsletter editions.
//!
//! Each edition is a text document whose identifier starts with a
//! `YYYY-MM-DD` date. The library parses that date, locates an optional
//! excerpt between fixed textual markers, and aggregates the results into a
//! report ordered by date.

pub mod date;
pub mod errors;
pub mod quote;
pub mod report;
pub mod search;
pub mod text;
