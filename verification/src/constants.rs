//! Sizing constants of the forwarding core.

use vstd::prelude::*;

verus! {

/// Modulus under which the coordinates of a bloom filter index are reduced.
pub const BLOOM_FILTER_LENGTH: u64 = 65535;

/// Number of coordinates in a bloom filter index.
pub const BLOOM_FILTER_INDEX_ELEMENT_LENGTH: u16 = 4;

/// Capacity in bytes of the payload of one response.
pub const FRAGMENT_SIZE: u16 = 1024;

/// Largest datagram that a link may carry.
pub const MTU: usize = 1472;

} // verus!
