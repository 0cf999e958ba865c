//! Typed object model for a structured-content API that speaks
//! tag-discriminated JSON payloads.
//!
//! The crate models the wire payloads with its own [`json::Json`] tree,
//! decodes them into a strongly typed [`models::Object`] union, re-encodes
//! request values losslessly with a deterministic (sorted-by-key) field
//! order, and narrows heterogeneous paginated results into homogeneous ones.

pub mod codec;
pub mod ids;
pub mod models;
pub mod json;
pub mod order;
pub mod properties;
pub mod text;

pub use json::Json;
