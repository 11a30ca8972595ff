//! Marshaling core for a flat, numeric calling convention between a sandboxed
//! guest and its host.
//!
//! Every call crosses the guest/host boundary as a tuple of integers; every
//! compound value (optional string, tagged error, header array, poll result
//! set) is encoded into or decoded out of the guest's linear memory by hand.
//! This crate holds the verified half of that work: bounds-checked access to
//! a linear memory region ([`region`]), the byte-level value codec ([`codec`]),
//! and the per-operation argument/result marshaling of the binding table
//! ([`bindings`]). The execution engine that owns the real linear memory, the
//! guest allocator export, and the asynchronous host capability calls stay
//! outside; they hand this crate plain values and byte regions and take plain
//! values and write lists back.

pub mod bindings;
pub mod codec;
pub mod region;
pub mod types;
pub mod wire;
