//! A declarative audio-plugin installer core.
//!
//! A plugin manifest declares, per platform, how a plugin's files are
//! obtained and where they are copied. This crate resolves such a manifest
//! into a concrete installation plan (instance selection, download
//! deduplication, path templating) and executes plans against a model
//! filesystem; an unverified front end executes the same plans against the
//! real filesystem and network.
#![verifier::loop_isolation(false)]

pub mod context;
pub mod error;
pub mod fsmodel;
pub mod installer;
pub mod manifest;
pub mod paths;
