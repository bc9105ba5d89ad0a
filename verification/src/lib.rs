//! IO monitoring for Linux: parsing, rates, rankings and records.

pub mod binary64;
pub mod calendar;
pub mod cli;
pub mod diskstats;
pub mod index;
pub mod ioprio;
pub mod iotop;
pub mod json;
pub mod numeral;
pub mod order;
pub mod proc_io;
pub mod records;
pub mod syscall;
pub mod taskstats;
pub mod text;
pub mod vmstat;
pub mod web;
