//! A cleaner for Linux systems: what takes up room, what can be removed, and what
//! can be uninstalled.
//!
//! The library decides and computes; it reads no file and starts no program. Its
//! callers hand it what directories hold and what commands print, and carry out
//! what it asks for.
//!
//! - [`analyze`] finds what takes up the room below a directory, by walks
//!   ([`walk`]) through its children, and [`stream`] tells how far it is.
//! - [`purge`] finds build artifacts that have been left alone for a while.
//! - [`scanner`] finds what of a system can be cleaned up.
//! - [`catalog`] finds the applications that can be uninstalled, by asking package
//!   managers and reading what they answer ([`answers`], [`listings`], [`desktop`],
//!   [`packages`], [`sizes`]).
//!
//! The modules whose names end in `laws` state what holds of all results, and of whole
//! runs.

pub mod analyze;
pub mod analyze_laws;
pub mod answers;
pub mod catalog;
pub mod catalog_laws;
pub mod command;
pub mod desktop;
pub mod desktop_laws;
pub mod discovery_laws;
pub mod distro;
pub mod large_laws;
pub mod listing_laws;
pub mod listings;
pub mod model;
pub mod order;
pub mod packages;
pub mod path;
pub mod path_laws;
pub mod purge;
pub mod purge_laws;
pub mod report_laws;
pub mod scan_laws;
pub mod scanner;
pub mod sizes;
pub mod stream;
pub mod stream_laws;
pub mod table;
pub mod text;
pub mod text_laws;
pub mod tree_laws;
pub mod uninstall;
pub mod update_laws;
pub mod view_laws;
pub mod walk;
pub mod walk_laws;
