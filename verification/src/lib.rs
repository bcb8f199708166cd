//! TLS connections over pooled buffers.
//!
//! * [`state`] is one connection: its records, its keys and what it owes its peer.
//! * [`tls`] puts such connections on a wire: endpoints, the buffers that they share,
//!   what is sent and what is received.
//! * [`buffered`] is a connection that owns its buffers, and its wire.
//! * [`rust_tls`] is a wire whose connections `rustls` drives.
//! * [`record`], [`buffer`], [`clock`], [`roots`] and [`error`] are what these stand on.

pub mod buffer;
pub mod buffered;
pub mod clock;
pub mod der;
pub mod error;
pub mod record;
pub mod roots;
pub mod rust_tls;
pub mod staging;
pub mod state;
pub mod tls;
pub mod transmissions;

pub use clock::Clock;
pub use error::Error;
pub use roots::Roots;
pub use shin::client::config::Identity;
