//! Inspection and control of services kept by a runit-style supervisor.
//!
//! The library holds the logic of the tool: decoding the fixed-layout
//! binary status record a supervisor maintains per service, mapping control
//! commands to the bytes its control pipe understands, listing and filtering
//! service directories, building a process tree from a scanned process
//! table, and the computations behind following a growing log file.
//!
//! All file, pipe and process-table access happens outside the library; the
//! functions here take plain values (names, bytes, file lengths, scanned
//! table entries) and return plain values, with contracts that pin down the
//! results.

pub mod config;
pub mod follow;
pub mod pstree;
pub mod runit;
pub mod service;
pub mod sorting;
pub mod status;
pub mod strutil;
