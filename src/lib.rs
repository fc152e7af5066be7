//! A consumer-group client for a log-structured stream store.
//!
//! The client decides; the caller performs. Every store operation is described by a
//! [`command::Command`] value whose wire form is fixed by contract, and every answer the
//! store gives is handed back to the client as a [`command::Reply`]. The in-memory
//! [`store::MemoryStore`] executes the same commands with the store's semantics, which is
//! what the laws about delivery, reclaim and acknowledgment are stated over.

pub mod broker_config;
pub mod client;
pub mod command;
pub mod entry;
pub mod event;
pub mod gateway_config;
pub mod id;
pub mod interval;
pub mod laws;
pub mod mqtt_config;
pub mod store;
