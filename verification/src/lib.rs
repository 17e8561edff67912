//! Ranking reports for a roster of clans, drawn page by page from a rating
//! service: the roster, the paged sweep with its retries, and the report.

pub mod error;
pub mod fetch;
pub mod outfile;
pub mod rating;
pub mod report;
pub mod roster;
pub mod text;
