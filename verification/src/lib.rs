//! Verified core of a read-only Kubernetes/CNCF reference index served over MCP: query
//! sanitising, kind resolution, schema explanation, manifest validation, search result
//! shaping, usage metrics, index update decisions and the bodies of tool results.

pub mod db;
pub mod error;
pub mod index_updater;
pub mod json;
pub mod mcp;
pub mod metrics;
pub mod schema;
pub mod search;
pub mod sort;
pub mod text;
pub mod validate;
pub mod web;

pub use error::AppError;
