//! The wire-shaped records exchanged by the peers and the next-action record
//! the state machine hands back to the driver.

use vstd::prelude::*;

verus! {

/// An n-slot vector clock, one signed slot per process rank.
#[derive(Clone, Debug)]
pub struct VectorClock(pub Vec<i32>);

impl View for VectorClock {
    type V = Seq<i32>;

    open spec fn view(&self) -> Seq<i32> {
        self.0@
    }
}

impl VectorClock {
    /// A fresh clock of `n` slots, all zero.
    pub fn new(n: usize) -> (r: VectorClock)
        ensures
            r@.len() == n,
            forall|i: int| 0 <= i < n ==> #[trigger] r@[i] == 0,
    {
        let mut slots: Vec<i32> = Vec::new();
        let mut k: usize = 0;
        while k < n
            invariant
                k <= n,
                slots@.len() == k,
                forall|i: int| 0 <= i < k ==> #[trigger] slots@[i] == 0,
            decreases n - k,
        {
            slots.push(0);
            k = k + 1;
        }
        VectorClock(slots)
    }

    /// An identical copy of this clock.
    pub fn duplicate(&self) -> (r: VectorClock)
        ensures
            r@ == self@,
    {
        let n = self.0.len();
        let mut slots: Vec<i32> = Vec::new();
        let mut k: usize = 0;
        while k < n
            invariant
                k <= n,
                n == self.0@.len(),
                slots@.len() == k,
                forall|i: int| 0 <= i < k ==> #[trigger] slots@[i] == self.0@[i],
            decreases n - k,
        {
            slots.push(self.0[k]);
            k = k + 1;
        }
        proof {
            assert(slots@ =~= self.0@);
        }
        VectorClock(slots)
    }
}

/// What the state machine asks the driver to do next: the kind of message to
/// emit, the payload it carries (`None` is the explicit bottom of a dequeue
/// that found nothing), the rank on whose behalf it is emitted, and the
/// operation's timestamp.
#[derive(Clone, Debug)]
pub struct OpNextAction {
    pub message: u16,
    pub value: Option<u16>,
    pub invoker: i32,
    pub ts: VectorClock,
}

/// Wire record of the enqueue fan-out phase.
#[derive(Clone, Debug)]
pub struct EnqReq {
    pub message: u16,
    pub value: u16,
    pub rank: i32,
    pub timestamp: VectorClock,
}

/// Wire record of the dequeue fan-out phase.
#[derive(Clone, Debug)]
pub struct DeqReq {
    pub message: u16,
    pub rank: i32,
    pub timestamp: VectorClock,
}

/// Wire record of a safe or unsafe vote.
#[derive(Clone, Debug)]
pub struct SafeUnsafeAck {
    pub message: u16,
    pub rank: i32,
    pub timestamp: VectorClock,
}

/// The single tagged wire record every phase of the protocol travels in.
#[derive(Clone, Debug)]
pub struct QueueOpReq {
    pub message: u16,
    pub value: u16,
    pub sender: i32,
    pub receiver: i32,
    pub timestamp: VectorClock,
}

/// A queue operation request as issued by a client, before a timestamp is
/// attached to it.
#[derive(Clone, Debug)]
pub struct OpRequest {
    pub message: u16,
    pub value: Option<u16>,
    pub sender: i32,
    pub receiver: i32,
}

} // verus!
