//! A fault-tolerant dining-philosophers ring: thinkers pass an eating token
//! around a ring, forks grant leased ownership, and a lost token is
//! regenerated by a proposal that travels once around the ring.
//!
//! Every node is a pure state machine here: the caller hands in the current
//! time (milliseconds on a monotonic clock) and the received messages, and
//! gets back the messages to send.

use vstd::prelude::*;

pub mod bootstrap;
pub mod fork;
pub mod ids;
pub mod thinker;
pub mod messages;
pub mod token;
pub mod visualizer;

verus! {

/// Interval between two ticks of a node, in milliseconds.
pub const TICK_INTERVAL_MS: u64 = 50;

/// Size of the receive buffer; one datagram carries one message.
pub const NETWORK_BUFFER_SIZE: usize = 1024;

/// Bounds of the time a thinker eats, in milliseconds.
pub const MIN_EATING_TIME_MS: u64 = 1000;
pub const MAX_EATING_TIME_MS: u64 = 3000;

/// Bounds of the time a thinker thinks, in milliseconds.
pub const MIN_THINKING_TIME_MS: u64 = 1000;
pub const MAX_THINKING_TIME_MS: u64 = 3000;

/// Silence after which a fork or a ring neighbour counts as dead.
pub const KEEP_ALIVE_TIMEOUT_MS: u64 = 2000;

/// Silence after which a token counts as lost; longer than the keep-alive
/// timeout, so that a dead thinker is skipped before its token is given up.
pub const TOKEN_TIMEOUT_MS: u64 = 3000;

} // verus!
