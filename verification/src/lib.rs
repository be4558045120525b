//! Core of a server-side realtime messaging engine speaking the Socket.IO
//! application protocol over an Engine.IO style transport.
//!
//! The library models the socket / namespace / adapter triad and the
//! acknowledgement correlator as verified state machines over plain values.
//! The transport itself, timers and user callbacks live outside: callers feed
//! events in and perform the effects handed back.

pub mod ack;
pub mod adapter;
pub mod config;
pub mod engine;
pub mod errors;
pub mod json;
pub mod numbers;
pub mod operators;
pub mod packet;
pub mod reason;
pub mod socket;
