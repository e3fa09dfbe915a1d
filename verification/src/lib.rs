//! Health monitor core for a WebSocket RPC endpoint.
//!
//! The library holds the verified heart of a small monitoring process:
//! classification of probe outcomes, the shared success/failure tally, and
//! the renderer that turns a tally snapshot into the Prometheus text
//! exposition format, together with a parser for that format and a proof
//! that parsing a rendered snapshot recovers what was rendered.

pub mod monitor;
pub mod parse;
pub mod render;
