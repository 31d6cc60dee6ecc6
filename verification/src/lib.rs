//! Verified core of the `cddlc` command-line compiler: option checks,
//! `@import` resolution with cycle detection, merging of loaded modules,
//! and the text the command reports.

pub mod text;
pub mod args;
pub mod loader;
pub mod merge;
pub mod generate;
pub mod report;
pub mod validate;
