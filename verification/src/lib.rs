//! Filter and extract logs, ereports, sled info, and zone/service lists from
//! Oxide rack support bundles.
//!
//! A bundle is read through a [`source::BundleSource`]. [`bundle::Bundle`] is
//! the handle to a parsed bundle, with structured access and text listings;
//! [`cat::Bundle`] is the same for a command line, with borrowed filters and
//! commands that logs are piped through; [`archive`] works on an archive whose
//! entries are found by position. [`structured`] holds narrow parsers.
//!
//! A source lists the same names throughout; what else it answers is not known
//! beforehand. It keeps a record of every request and its answer, and the
//! contracts state, for every such record, which requests were made and what came
//! of the answers. [`laws`] states what holds of all of them, and [`stored`] what
//! holds while the files of a source stay as they are.
//!
//! What the results are is said once more by themselves, in terms of characters,
//! members and order: of texts, times and patterns in [`meaning`], of paths in
//! [`grammar`], of selected logs and ereports in [`selection`], of the inventory
//! in [`holdings`], of reading and running in [`running`], and of the listings in
//! [`tables`].

pub mod archive;
pub mod bundle;
pub mod cat;
pub mod directory;
pub mod ereport;
pub mod error;
pub mod grammar;
pub mod holdings;
pub mod inventory;
pub mod laws;
pub mod listing;
pub mod log_file;
pub mod logs;
pub mod meaning;
pub mod names;
pub mod pattern;
pub mod reader;
pub mod running;
pub mod selection;
pub mod sled;
pub mod source;
pub mod stored;
pub mod structured;
pub mod tables;
pub mod text;
pub mod time;
