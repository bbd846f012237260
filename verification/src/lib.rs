//! The core of rcdu, an ncdu-like disk usage explorer that is interactive while it scans.
//!
//! - The tree and what changes it: `tree`, `below`, `edit`, `walk` say what it means, `model` does it,
//!   `totals`, `upkeep`, `growth`, `order`, `quiet`, `arrival` prove what every change keeps, and
//!   `changes` what it does to each entry.
//! - Scanning: `scan`, `frontier`, `paths`, `glob`; `finding` on what becomes of what is found on disk.
//! - Dumps: `json`, `dump`, `names`; `format` on what stands in a dump, `roundtrip` and `reimport` on what
//!   an import makes of an export.
//! - The application: `state` says what each key means, `app`, `rows`, `top`, `info`, `keys` do it,
//!   `browse` proves what is shown and where each key leads, and `conduct` what can be relied upon; `ui`
//!   says what is drawn, and `screen` proves what it tells of the entries.
//! - The command line and updates: `cli`, with `flags` on what each option does, `update`, `sha256`.
//! - Helpers: `text`, `words`, `size`, `clock`, `sort`; `views` on how values are seen in contracts.
//! - `outside` holds everything that is believed without proof.
pub mod app;
pub mod arrival;
pub mod below;
pub mod browse;
pub mod changes;
pub mod cli;
pub mod clock;
pub mod conduct;
pub mod dump;
pub mod edit;
pub mod finding;
pub mod flags;
pub mod format;
pub mod frontier;
pub mod glob;
pub mod growth;
pub mod info;
pub mod json;
pub mod keys;
pub mod model;
pub mod names;
pub mod order;
pub mod outside;
pub mod paths;
pub mod quiet;
pub mod reimport;
pub mod roundtrip;
pub mod rows;
pub mod scan;
pub mod screen;
pub mod sha256;
pub mod size;
pub mod sort;
pub mod state;
pub mod text;
pub mod top;
pub mod totals;
pub mod tree;
pub mod ui;
pub mod update;
pub mod upkeep;
pub mod views;
pub mod walk;
pub mod words;
