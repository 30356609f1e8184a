//! Client core for a local-network lighting bridge.
//!
//! The crate models a REST gateway ("bridge") session: building and resolving
//! endpoint URLs, keeping a device inventory, preparing batched state-change
//! commands whose results come back in input order, deduplicating discovery
//! replies, and driving the interactive registration handshake. All logic here
//! is verified; the surrounding I/O (HTTP, multicast, files) lives outside.

pub mod bridge;
pub mod color;
pub mod digits;
pub mod discovery;
pub mod dispatch;
pub mod errors;
pub mod lights;
pub mod methods;
pub mod payload;
pub mod registration;
pub mod target;
pub mod text;
