//! Verified core of a Stellar history-archive tool: damaging an archive on
//! purpose, checkpointing a run's report, setting up a scan, and measuring a run.
//!
//! - [`ledger`] reads and writes ledger-header files, and [`damage`] says what each
//!   kind of corruption, of the menu in [`kinds`], makes of a file;
//! - [`corruption`] goes from the files of an archive to the one that is damaged,
//!   [`run`] makes a number of corruptions, with choices of [`pick`], and [`archive`]
//!   states what comes of these as a whole;
//! - [`checkpoint`] decides when a report is written, and what it says;
//! - [`scan`] orders the steps of a scan;
//! - [`metrics`] and [`runtime`] count and sum up;
//! - [`text`] and [`paths`] hold what these need of strings.

pub mod archive;
pub mod checkpoint;
mod clock;
pub mod corruption;
pub mod damage;
pub mod kinds;
pub mod ledger;
pub mod metrics;
pub mod paths;
pub mod pick;
pub mod run;
pub mod runtime;
pub mod scan;
pub mod text;
