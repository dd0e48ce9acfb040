//! A plugin ABI between a host and guest modules that run in isolation.
//!
//! Values cross the boundary as length-prefixed buffers in the guest's linear
//! memory. The crate holds the two halves of that protocol, the handshake that
//! a host performs before it calls a guest, and the mapping from an interface
//! description to the stubs on both sides.
//!
//! - [`codec`]: the wire format of a value and its size limit.
//! - [`buffer`]: the layout of a buffer and of a metadata string in memory.
//! - [`guest`]: a guest's memory, its allocator, and the guest's half of the
//!   buffer protocol.
//! - [`export`]: the wrapper between a guest's export and its implementation.
//! - [`instance`]: a guest as a whole, with its exports by name.
//! - [`host`]: what a host needs of a guest, and the host's half of the buffer
//!   protocol and of a call.
//! - [`negotiation`]: the handshake.
//! - [`interface`], [`generator`]: the description of an interface and what it
//!   expands to on both sides.

pub mod buffer;
pub mod bytes;
pub mod codec;
pub mod error;
pub mod export;
pub mod generator;
pub mod guest;
pub mod host;
pub mod instance;
pub mod interface;
pub mod negotiation;

use vstd::prelude::*;

verus! {

/// A record of a string and a number.
#[derive(Clone, Debug, PartialEq, Eq)]
pub struct A {
    pub test: String,
    pub test2: u64,
}

/// A record of two strings.
#[derive(Clone, Debug, PartialEq, Eq)]
pub struct B {
    pub test: String,
    pub test2: String,
}

} // verus!
