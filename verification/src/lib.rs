//! Verified core of the multi-write storage layer: path helpers, metadata
//! transitions, backend selection, redirect policies and read routing.

pub mod path;
pub mod text;
pub mod context;
pub mod strmap;
pub mod policy;
pub mod meta;
pub mod config;
pub mod sync;
pub mod route;
pub mod listing;
pub mod locks;
pub mod ops;
