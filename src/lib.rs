//! A line-echo chat server library: user identities with RSA key material,
//! and the verified decision logic of the connection manager (per-connection
//! handlers that frame and echo lines, and the control loop that accepts
//! connections and observes their lifecycle events).

pub mod control;
pub mod handler;
pub mod line;
pub mod runs;
pub mod user;
