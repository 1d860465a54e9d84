//! A virtual bus network for simulated microcontroller nodes: an addressed
//! framing codec, a peer-topology router and the connection table of the TCP
//! gateway, with the per-tick decisions that tie them together.

pub mod avr_net;
pub mod config;
pub mod control;
pub mod events;
pub mod gateway;
pub mod network;
pub mod pins;
pub mod server_node;
pub mod tick;
