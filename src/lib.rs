//! The fact-exchange core of one node of a distributed incremental
//! computation: framing of JSON input streams, the net updates of a
//! transaction, the wire form of a batch of facts, the node's identity and
//! clock, the placement of facts on nodes, and the subscriber table of its
//! broadcast.
use vstd::prelude::*;

pub mod broadcast;
pub mod evaluator;
pub mod framer;
pub mod weights;
pub mod wire;

verus! {

} // verus!
