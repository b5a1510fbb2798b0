//! Where the time went in an agent's sessions: model inference, tool execution, or
//! waiting for the user, reconstructed from the logs that the agents keep.
//!
//! - [`loaders`] turn the rows of a Hermes database and the lines of a Prime file
//!   into events, and [`timeline`] turns events into the spans of a [`model`]
//!   session. [`scan`] puts the sources together, and [`sources`] finds one session
//!   by its id.
//! - [`index`] keeps a summary of every session and the sessions of every day;
//!   [`days`], [`dates`] and [`response`] answer requests, [`cli`] reads a command
//!   line.
//! - [`instant`], [`numbers`], [`text`], [`paths`], [`profiles`], [`ids`], [`order`] and [`window`]
//!   are what these are made of; [`json`] is the boundary to `serde_json`.
//! - The modules that end in `_laws` state what holds of all of it together.
//!
//! Nothing here reads a file, asks a clock or opens a socket.
pub mod cli;
pub mod cli_laws;
pub mod dates;
pub mod days;
pub mod hermes_laws;
pub mod ids;
pub mod index;
pub mod index_laws;
pub mod instant;
pub mod instant_laws;
pub mod json;
pub mod loader_laws;
pub mod loaders;
pub mod model;
pub mod model_laws;
pub mod numbers;
pub mod order;
pub mod paths;
pub mod prime_laws;
pub mod profiles;
pub mod response;
pub mod response_laws;
pub mod scan;
pub mod scan_laws;
pub mod sources;
pub mod stats;
pub mod text;
pub mod text_laws;
pub mod timeline;
pub mod timeline_laws;
pub mod window;
pub use scan::{scan, scan_reported, scan_stats, ScanReport};
pub use sources::{load_session_by_id, Sources};
pub use stats::ScanStats;
