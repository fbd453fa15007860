//! A small service-discovery registry.
//!
//! Participants announce themselves under a name together with arbitrary
//! string key/value metadata; entries expire once they go unrefreshed past a
//! threshold, and listings render all live entries sorted by name.

mod clock;
pub mod laws;
pub mod order;
pub mod registry;
pub mod render;

pub use registry::ServiceRegistry;
