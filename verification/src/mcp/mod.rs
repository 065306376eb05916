//! The MCP tool surface: tool parameters and the shaping of tool results.

pub mod tools;
