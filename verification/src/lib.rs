//! A wait-free replicated FIFO queue ordered by vector clocks.
//!
//! Every process of a fixed group of `n` peers holds a full replica of the
//! queue. Operations are ordered by vector-clock timestamps with a
//! lexicographic tie-break, and each in-flight dequeue is decided by an
//! n-slot confirmation list of per-process safe/unsafe votes.

pub mod compare_ts;
pub mod execution_linearizer;
pub mod process;
pub mod confirmation_list;
pub mod message_structs;
pub mod numeric_encodings;
pub mod propagate_earlier_responses;
pub mod update_ts;
pub mod update_unsafes;

use vstd::prelude::*;

verus! {

/// Wire encoding of the enqueue fan-out request.
pub const ENQ_REQ: u16 = 0;

/// Wire encoding of the dequeue fan-out request.
pub const DEQ_REQ: u16 = 1;

/// Wire encoding of the enqueue acknowledgement.
pub const ENQ_ACK: u16 = 2;

/// Wire encoding of an unsafe vote for an in-flight dequeue.
pub const UNSAFE: u16 = 3;

/// Wire encoding of a safe vote for an in-flight dequeue.
pub const SAFE: u16 = 4;

/// Wire encoding of the local start of an enqueue.
pub const ENQ_INVOKE: u16 = 5;

/// Wire encoding of the local start of a dequeue.
pub const DEQ_INVOKE: u16 = 6;

/// Emitted next-action kind meaning the operation needs no further step.
pub const NO_ACTION: u16 = 9;

/// A confirmation-list slot that has not received a vote yet.
pub const VOTE_PENDING: i32 = 0;

/// A confirmation-list slot holding a safe vote.
pub const VOTE_SAFE: i32 = 1;

/// A confirmation-list slot holding an unsafe vote.
pub const VOTE_UNSAFE: i32 = 2;

} // verus!
