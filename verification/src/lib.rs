//! Core of a real-time state-synchronization relay for a multiplayer
//! session.
//!
//! Clients connect, report transform deltas, and receive every other
//! client's changes. The core is split into:
//!
//! - [`vec3`]: fixed-point transform vectors,
//! - [`wire`]: the token wire protocol (tokenizing, coordinate
//!   parsing/formatting, message building),
//! - [`state`]: the world-state store of per-user transforms,
//! - [`server`]: the connection registry and broadcast fan-out,
//! - [`session`]: the per-connection lifecycle state machine.
//!
//! All I/O (the websocket transport itself) lives outside this crate; the
//! registry and session report what must be sent as plain values.

pub mod vec3;

pub mod wire;

pub mod state;

pub mod server;

pub mod session;
