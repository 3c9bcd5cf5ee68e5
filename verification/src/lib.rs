//! A resumable scan for the fastest of many candidate addresses.
//!
//! Candidate addresses are taken from address ranges, batch by batch. Each
//! candidate of a batch is probed through a tunnel: once to a reference
//! endpoint, once to the candidate itself. The candidates that answered are
//! kept, in ascending order of their round-trip times, and the place of the
//! scan is kept with them, so that a scan can be taken up where it stopped.
//!
//! The library decides and computes; files, processes and the network are
//! the caller's:
//!
//! - [`inet`]: addresses and networks as integers, read and written through
//!   the `cidr` crate;
//! - [`data`]: address ranges, and how they are found in text;
//! - [`cache`]: the result store and the place of the scan;
//! - [`persist`], [`layout`]: the result file;
//! - [`scan`]: which addresses make the next batch, and what its answers
//!   change;
//! - [`probe`]: the plan of a probe and the outcome of its two legs;
//! - [`template`]: what a batch adds to the configuration of the tunnel
//!   process;
//! - [`supervisor`]: the life of the tunnel process;
//! - [`config`], [`error`]: settings and errors;
//! - [`order`], [`inet_map`], [`decimal`], [`text`]: sorting and merging,
//!   a map keyed by address, numbers as text, and text in general.

pub mod cache;
pub mod config;
pub mod data;
pub mod decimal;
pub mod error;
pub mod inet;
pub mod inet_map;
pub mod layout;
pub mod order;
pub mod persist;
pub mod probe;
pub mod scan;
pub mod supervisor;
pub mod template;
pub mod text;
