//! Verified core of a desktop file library: which paths lie within the
//! configured roots, how searches pick and order their hits, where created,
//! moved and copied files land, which commands run, and how the built-in
//! HTTP server and the asset scheme route and answer requests.

pub mod config;
pub mod external;
pub mod files;
pub mod launch;
pub mod order;
pub mod paths;
pub mod protocol;
pub mod search;
pub mod server;
pub mod text;
pub mod tray;
