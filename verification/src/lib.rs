//! A verified core for a personal time-tracking service.
//!
//! Time usage is recorded as half-hour slots of a day, indexed `0..48`.
//! This crate provides the pieces of the service that carry real
//! invariants: the codec that turns `"HH:MM-HH:MM"` strings into slot
//! indices, the expansion of one logical interval into atomic one-slot
//! records, an idempotent keyed slot store, and the strike-counting
//! admin gate that guards the single mutating endpoint. All I/O
//! (HTTP, files, persistence) lives outside this crate and hands these
//! components plain values.

pub mod text;

pub mod codec;

pub mod record;

pub mod assoc;

pub mod store;

pub mod gate;

pub mod api;
