//! Policy-driven structural processing of configuration manifests.
//!
//! The crate models manifest documents as an order-preserving JSON value
//! tree and offers three engines over it: a rule checker that turns a
//! document and a list of declarative checks into diagnostics, a
//! canonical formatter that reorders top-level keys and normalises blank
//! lines while staying idempotent, and a path-addressed merge engine that
//! reconciles a template document with a locally edited destination.

pub mod json;
pub mod textutil;
pub mod path;
pub mod render;
pub mod checks;
pub mod fingerprint;
pub mod pretty;
pub mod scan;
pub mod formatter;
pub mod merge;
pub mod utils;
pub mod conv;
pub mod config;
pub mod sync;
pub mod roundtrip;
