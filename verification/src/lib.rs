//! A verified ingestion core for a raw-photo gallery: a streaming sidecar
//! parser, hierarchical-tag normalization with content-based deduplication,
//! a staleness guard over stored modification times, an in-memory
//! repository of images, tags, and links, and the filtered, ordered,
//! paginated query the gallery view reads.

pub mod datetime;
pub mod laws;
pub mod pipeline;
pub mod query;
pub mod repo;
pub mod sidecar;
pub mod text;
pub mod thumb;
pub mod xml;
