//! A minimal intrusion-prevention core: it tails log files by byte offset,
//! recognizes failure patterns in appended lines, counts repeated offenses
//! per extracted address, and decides when an address has crossed a
//! configured threshold and must be banned.

pub mod config;
pub mod laws;
pub mod monitor;
pub mod pattern;
pub mod reader;
pub mod service;
