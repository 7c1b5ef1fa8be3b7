//! Verified core of a hardware-monitor temperature reporter.
//!
//! Sensor chips expose one text file per temperature channel, holding a
//! whole number of millidegrees Celsius.  This library parses those texts,
//! aggregates them per device, and renders the textual report; the thin
//! binary around it does the directory walking and the printing.

pub mod device;
pub mod parse;
pub mod render;
pub mod report;
pub mod scan;
