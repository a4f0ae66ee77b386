//! Reassembly of fragmented IPv4 and IPv6 packets.
//!
//! The fragments of one packet share a source address, a destination address
//! and an identification. The cache keeps, for every packet of which a
//! fragment has arrived, the blocks that are still missing, the bodies that
//! have arrived and the header of the fragment with offset 0. Once no block
//! is missing the caller supplies a buffer, and the packet is written into
//! it and made whole: its length field is set, and for IPv4 what marked it as
//! a fragment is cleared and the header checksum computed anew.
//!
//! A fragment that overlaps what has arrived ends its packet: nothing is
//! merged. A packet that is not complete when its timer fires is given up.
//!
//! Timers are not run here, and packets are not parsed: every operation says
//! which expiry timer the caller has to start or stop, and takes and gives
//! the parts of a packet as plain values.
//!
//! - [`packet`]: what is read of a packet, and the key of its fragments;
//! - [`gaps`]: the blocks that are missing;
//! - [`fragments`]: the bodies that have arrived;
//! - [`state`]: what is kept of one packet;
//! - [`cache`]: the packets in reassembly;
//! - [`process`]: taking a fragment in;
//! - [`reassemble`]: writing a complete packet;
//! - [`wire`]: bytes in network order and the checksum;
//! - [`laws`] and [`fragmentation`]: what holds of all this.

pub mod cache;
pub mod fragmentation;
pub mod fragments;
pub mod gaps;
pub mod laws;
pub mod packet;
pub mod process;
pub mod reassemble;
pub mod state;
pub mod wire;
