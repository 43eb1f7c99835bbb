//! The face of a node: where interests and data enter and leave it.

use crate::named::Packet;
use vstd::prelude::*;

verus! {

/// What a transport offers to the node it is attached to. Nothing is
/// promised of an implementation beyond the types.
pub trait Face {
    /// A fresh face of the same kind.
    fn new(&mut self) -> Self where Self: Sized;

    /// Hands the face an interest that arrived for the node.
    fn interest_in(&self, i: Packet);

    /// Takes from the face an interest that the node sends.
    fn interest_out(&self) -> Packet;

    /// Hands the face data that arrived for the node.
    fn data_in(&self, d: Packet);

    /// Takes from the face data that the node sends.
    fn data_out(&self) -> Packet;
}

} // verus!
