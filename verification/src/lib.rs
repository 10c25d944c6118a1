//! The logic of a monitor for Solana endpoints.
//!
//! RPC endpoints are polled for their blockhash and slot, WebSocket endpoints
//! announce slots. The library decides what is stored of that and under which
//! key, who reported a slot first and how far the others were behind, what the
//! RPC endpoints agree on, which stored records a query asks for, and which are
//! removed. Reading and writing the databases, the connections and the figures
//! in floating point are left to the program around it.
pub mod bytes;
pub mod clock;
pub mod config;
pub mod consensus;
pub mod decimal;
pub mod delays;
pub mod double;
pub mod keys;
pub mod metrics;
pub mod names;
pub mod notification;
pub mod order;
pub mod rates;
pub mod rpc;
pub mod share;
pub mod slots;
pub mod store;
pub mod tally;
pub mod target;
pub mod time;
pub mod update;
pub mod winner;
pub mod ws_metrics;
