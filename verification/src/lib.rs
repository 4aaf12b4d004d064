//! Verified core of the floe web gateway: local bootstrap authentication,
//! bounded layer-palette projection, at-most-once operation admission,
//! commit fences, launcher and draft state machines, and the small codecs
//! the wire layer relies on.
pub mod auth;
pub mod hex;
pub mod layer_catalog;
pub mod wire;
pub mod drc;
pub mod service;
pub mod origin;
pub mod query;
pub mod drc_request;
pub mod revision;
pub mod panel;
pub mod labels;
pub mod scoped;
pub mod operations;
pub mod about;
pub mod geometry;
pub mod prepared;
pub mod exports;
pub mod guest;
pub mod launch;
pub mod defaults;
pub mod browse;
pub mod transfer;
pub mod focus;
pub mod metadata;
pub mod crc;
pub mod tree;
pub mod assets;
