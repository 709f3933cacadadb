//! A compact, alignment-sensitive wire format for typed event records.
//!
//! Producers append events to a [`packer::CommandPacker`], one buffer per
//! logical channel; the [`mux::ChannelPacker`] frames those buffers into one
//! multiplexed buffer; on the consuming side the frames are split apart again
//! and each stream is walked with an [`unpacker::EventUnpacker`].
//!
//! All multi-byte fields are little-endian, and every event begins at an
//! offset that is a multiple of 8 bytes from the start of its stream.

pub mod laws;
pub mod mux;
pub mod packer;
pub mod registry;
pub mod unpacker;
pub mod wire;
