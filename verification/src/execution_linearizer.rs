//! The fixed linearizations of the two operations: every process observes
//! the phases of an enqueue or a dequeue in the same deterministic order,
//! which is what makes all replicas converge.

use vstd::prelude::*;
use crate::compare_ts::vc_below;
use crate::compare_ts::vc_le;
use crate::confirmation_list::row_full;
use crate::message_structs::VectorClock;
use crate::message_structs::QueueOpReq;
use crate::process::Process;
use crate::process::ProtocolError;
use crate::process::op_rejected;
use crate::process::queue_view;
use crate::process::lists_view;
use crate::process::queue_has_ts;
use crate::process::num_items_lt;
use crate::process::lemma_num_items_lt_bounds;
use crate::process::QueueItemView;
use crate::process::rows_after_vote;
use crate::process::wave_votes;
use crate::process::lemma_dequeue_wave;
use crate::process::lemma_queue_view_remove;
use crate::process::rows_after_commit;
use crate::process::first_committable;
use crate::process::deq_verdict_unsafe;
use crate::confirmation_list::num_unsafe;
use crate::update_ts::vc_merge;
use crate::ENQ_REQ;
use crate::DEQ_REQ;
use crate::ENQ_ACK;
use crate::UNSAFE;
use crate::SAFE;
use crate::ENQ_INVOKE;
use crate::DEQ_INVOKE;
use crate::VOTE_SAFE;
use crate::VOTE_UNSAFE;

verus! {

/// The whole group of replicas, one process per rank.
pub struct World {
    pub procs: Vec<Process>,
}

impl World {
    /// The number of processes in the group.
    pub open spec fn n(self) -> int {
        self.procs@.len() as int
    }

    /// Every replica is well formed, sized for this group, and sits at the
    /// rank that indexes it.
    pub open spec fn wf(self) -> bool {
        &&& 1 <= self.n() <= 0xFFFF
        &&& forall|i: int|
            0 <= i < self.n() ==> (#[trigger] self.procs@[i]).wf() && self.procs@[i].n() == self.n()
                && self.procs@[i].index == i
    }

    /// A fresh group of `n` replicas, each with a zero clock and an empty
    /// queue.
    pub fn initialize(n: usize) -> (r: World)
        requires
            1 <= n <= 0xFFFF,
        ensures
            r.wf(),
            r.n() == n,
            forall|i: int|
                0 <= i < n ==> (#[trigger] r.procs@[i]).local_queue@.len() == 0
                    && r.procs@[i].lists@.len() == 0 && r.procs@[i].enq_count == 0,
            forall|i: int, k: int|
                0 <= i < n && 0 <= k < n ==> #[trigger] r.procs@[i].vector_clock@[k] == 0,
    {
        let mut procs: Vec<Process> = Vec::new();
        let mut i: usize = 0;
        while i < n
            invariant
                i <= n,
                1 <= n <= 0xFFFF,
                procs@.len() == i,
                forall|j: int|
                    0 <= j < i ==> (#[trigger] procs@[j]).wf() && procs@[j].n() == n
                        && procs@[j].index == j && procs@[j].local_queue@.len() == 0
                        && procs@[j].lists@.len() == 0 && procs@[j].enq_count == 0,
                forall|j: int, k: int|
                    0 <= j < i && 0 <= k < n ==> #[trigger] procs@[j].vector_clock@[k] == 0,
            decreases n - i,
        {
            let p = Process::initialize(i as i32, n);
            procs.push(p);
            i = i + 1;
        }
        World { procs }
    }
}

/// Drives the three phases of one enqueue across the group in a fixed
/// order, carrying the operation's value and timestamp between phases.
pub struct EnqueueFixedLinearization {
    pub invoker: i32,
    pub message_buffer: u16,
    pub enq_ts: VectorClock,
    pub value: u16,
}

impl EnqueueFixedLinearization {
    /// A linearization that has not started any operation yet.
    pub fn new() -> (r: EnqueueFixedLinearization)
        ensures
            r.invoker == 0,
            r.message_buffer == 0,
            r.enq_ts@.len() == 0,
            r.value == 0,
    {
        EnqueueFixedLinearization {
            invoker: 0,
            message_buffer: 0,
            enq_ts: VectorClock(Vec::new()),
            value: 0,
        }
    }

    /// First phase: the invoker bumps its clock and stamps the operation;
    /// the stamp and value are kept for the later phases.
    pub fn enq_invoke(&mut self, invoking: i32, value: u16, w: &mut World) -> (r: Result<
        (),
        ProtocolError,
    >)
        requires
            old(w).wf(),
            0 <= invoking < old(w).n(),
        ensures
            final(w).wf(),
            final(w).n() == old(w).n(),
            r is Err <==> old(w).procs@[invoking as int].vector_clock@[invoking as int]
                == i32::MAX,
            r is Err ==> final(w).procs@ == old(w).procs@ && *final(self) == *old(self),
            r is Ok ==> ({
                let p0 = old(w).procs@[invoking as int];
                let p1 = final(w).procs@[invoking as int];
                &&& forall|j: int|
                    0 <= j < old(w).n() && j != invoking ==> final(w).procs@[j] == #[trigger] old(
                        w,
                    ).procs@[j]
                &&& p1.vector_clock@ == p0.vector_clock@.update(
                    invoking as int,
                    (p0.vector_clock@[invoking as int] + 1) as i32,
                )
                &&& p1.enq_count == 1
                &&& p1.local_queue == p0.local_queue
                &&& p1.lists == p0.lists
                &&& final(self).invoker == invoking
                &&& final(self).value == value
                &&& final(self).enq_ts@ == p1.vector_clock@
                &&& final(self).message_buffer == ENQ_REQ
            }),
    {
        let idx = invoking as usize;
        let ghost procs0 = w.procs@;
        let proc = &mut w.procs[idx];
        let outcome = proc.handle_queue_op(
            QueueOpReq {
                message: ENQ_INVOKE,
                value,
                sender: invoking,
                receiver: invoking,
                timestamp: VectorClock(Vec::new()),
            },
        );
        match outcome {
            Ok(action) => {
                self.invoker = invoking;
                self.message_buffer = action.message;
                self.value = match action.value {
                    Some(v) => v,
                    None => value,
                };
                self.enq_ts = action.ts;
                Ok(())
            },
            Err(e) => {
                proof {
                    assert(final(w).procs@ =~= procs0);
                }
                Err(e)
            },
        }
    }

    /// Second phase, once per peer: the peer merges the stamp, inserts the
    /// item into its replica and refreshes its safe votes.
    pub fn enq_req(&mut self, receiver: i32, w: &mut World) -> (r: Result<(), ProtocolError>)
        requires
            old(w).wf(),
            0 <= receiver < old(w).n(),
        ensures
            final(w).wf(),
            final(w).n() == old(w).n(),
            final(self).invoker == old(self).invoker,
            r is Err <==> (old(self).enq_ts@.len() != old(w).n() || !(0 <= old(self).invoker < old(
                w,
            ).n()) || queue_has_ts(
                queue_view(old(w).procs@[receiver as int].local_queue@),
                old(self).enq_ts@,
            )),
            r is Err ==> final(w).procs@ == old(w).procs@ && *final(self) == *old(self),
            r is Ok ==> ({
                let p0 = old(w).procs@[receiver as int];
                let p1 = final(w).procs@[receiver as int];
                let merged = vc_merge(p0.vector_clock@, old(self).enq_ts@);
                &&& forall|j: int|
                    0 <= j < old(w).n() && j != receiver ==> final(w).procs@[j] == #[trigger] old(
                        w,
                    ).procs@[j]
                &&& p1.vector_clock@ == merged
                &&& p1.enq_count == p0.enq_count
                &&& queue_view(p1.local_queue@) == queue_view(p0.local_queue@).insert(
                    num_items_lt(queue_view(p0.local_queue@), old(self).enq_ts@),
                    QueueItemView {
                        rank: old(self).invoker,
                        value: old(self).value,
                        ts: old(self).enq_ts@,
                    },
                )
                &&& p1.lists@.len() == p0.lists@.len()
                &&& forall|i: int|
                    0 <= i < p0.lists@.len() ==> #[trigger] p1.lists@[i].ts@ == p0.lists@[i].ts@
                        && p1.lists@[i].handled == p0.lists@[i].handled
                &&& forall|i: int|
                    0 <= i < p0.lists@.len() && vc_below(p0.lists@[i].ts@, merged)
                        ==> #[trigger] p1.lists@[i].response_list@
                        == p0.lists@[i].response_list@.update(receiver as int, VOTE_SAFE)
                &&& forall|i: int|
                    0 <= i < p0.lists@.len() && !vc_below(p0.lists@[i].ts@, merged)
                        ==> #[trigger] p1.lists@[i].response_list@ == p0.lists@[i].response_list@
                &&& final(self).value == old(self).value
                &&& final(self).enq_ts@ == old(self).enq_ts@
                &&& final(self).message_buffer == ENQ_ACK
            }),
    {
        let idx = receiver as usize;
        let op = QueueOpReq {
            message: ENQ_REQ,
            value: self.value,
            sender: self.invoker,
            receiver,
            timestamp: self.enq_ts.duplicate(),
        };
        let ghost procs0 = w.procs@;
        let proc = &mut w.procs[idx];
        let outcome = proc.handle_queue_op(op);
        match outcome {
            Ok(action) => {
                self.message_buffer = action.message;
                self.value = match action.value {
                    Some(v) => v,
                    None => self.value,
                };
                self.enq_ts = action.ts;
                Ok(())
            },
            Err(e) => {
                proof {
                    assert(final(w).procs@ =~= procs0);
                }
                Err(e)
            },
        }
    }

    /// Third phase, once per peer: the invoker counts the acknowledgement
    /// and, on the last one, finally inserts its own copy of the item.
    pub fn enq_ack(&mut self, sender: i32, w: &mut World) -> (r: Result<(), ProtocolError>)
        requires
            old(w).wf(),
            0 <= old(self).invoker < old(w).n(),
        ensures
            final(w).wf(),
            final(w).n() == old(w).n(),
            *final(self) == *old(self),
            r is Err <==> ({
                let p0 = old(w).procs@[old(self).invoker as int];
                p0.enq_count + 1 == p0.n() && (old(self).enq_ts@.len() != p0.n() || queue_has_ts(
                    queue_view(p0.local_queue@),
                    old(self).enq_ts@,
                ))
            }),
            r is Err ==> final(w).procs@ == old(w).procs@,
            r is Ok ==> ({
                let p0 = old(w).procs@[old(self).invoker as int];
                let p1 = final(w).procs@[old(self).invoker as int];
                &&& forall|j: int|
                    0 <= j < old(w).n() && j != old(self).invoker ==> final(w).procs@[j]
                        == #[trigger] old(w).procs@[j]
                &&& p1.vector_clock == p0.vector_clock
                &&& p1.lists == p0.lists
                &&& (p0.enq_count < p0.n() ==> p1.enq_count == p0.enq_count + 1)
                &&& (p0.enq_count == p0.n() ==> p1.enq_count == p0.enq_count)
                &&& (p0.enq_count + 1 == p0.n() ==> queue_view(p1.local_queue@) == queue_view(
                    p0.local_queue@,
                ).insert(
                    num_items_lt(queue_view(p0.local_queue@), old(self).enq_ts@),
                    QueueItemView {
                        rank: old(self).invoker,
                        value: old(self).value,
                        ts: old(self).enq_ts@,
                    },
                ))
                &&& (p0.enq_count + 1 != p0.n() ==> p1.local_queue == p0.local_queue)
            }),
    {
        let idx = self.invoker as usize;
        let op = QueueOpReq {
            message: ENQ_ACK,
            value: self.value,
            sender,
            receiver: self.invoker,
            timestamp: self.enq_ts.duplicate(),
        };
        let ghost procs0 = w.procs@;
        let proc = &mut w.procs[idx];
        let outcome = proc.handle_queue_op(op);
        match outcome {
            Ok(_) => Ok(()),
            Err(e) => {
                proof {
                    assert(final(w).procs@ =~= procs0);
                }
                Err(e)
            },
        }
    }
}

/// Drives the three phases of one dequeue across the group in a fixed
/// order: the invoke, the per-peer requests that collect verdicts, and
/// the broadcast of every verdict to every replica.
pub struct DequeueFixedLinearization {
    pub invoker: i32,
    pub message_buffer: u16,
    pub deq_ts: VectorClock,
    pub verdicts: Vec<u16>,
}

impl DequeueFixedLinearization {
    /// A linearization that has not started any operation yet.
    pub fn new() -> (r: DequeueFixedLinearization)
        ensures
            r.invoker == 0,
            r.message_buffer == 0,
            r.deq_ts@.len() == 0,
            r.verdicts@.len() == 0,
    {
        DequeueFixedLinearization {
            invoker: 0,
            message_buffer: 0,
            deq_ts: VectorClock(Vec::new()),
            verdicts: Vec::new(),
        }
    }

    /// First phase: the invoker bumps its clock and stamps the dequeue;
    /// the stamp is kept and an all-pending verdict slot is prepared for
    /// every rank.
    pub fn deq_invoke(&mut self, invoking: i32, w: &mut World) -> (r: Result<(), ProtocolError>)
        requires
            old(w).wf(),
            0 <= invoking < old(w).n(),
        ensures
            final(w).wf(),
            final(w).n() == old(w).n(),
            r is Err <==> old(w).procs@[invoking as int].vector_clock@[invoking as int]
                == i32::MAX,
            r is Err ==> final(w).procs@ == old(w).procs@ && *final(self) == *old(self),
            r is Ok ==> ({
                let p0 = old(w).procs@[invoking as int];
                let p1 = final(w).procs@[invoking as int];
                &&& forall|j: int|
                    0 <= j < old(w).n() && j != invoking ==> final(w).procs@[j] == #[trigger] old(
                        w,
                    ).procs@[j]
                &&& p1.vector_clock@ == p0.vector_clock@.update(
                    invoking as int,
                    (p0.vector_clock@[invoking as int] + 1) as i32,
                )
                &&& p1.enq_count == p0.enq_count
                &&& p1.local_queue == p0.local_queue
                &&& p1.lists == p0.lists
                &&& final(self).invoker == invoking
                &&& final(self).deq_ts@ == p1.vector_clock@
                &&& final(self).message_buffer == DEQ_REQ
                &&& final(self).verdicts@.len() == old(w).n()
                &&& forall|j: int|
                    0 <= j < old(w).n() ==> #[trigger] final(self).verdicts@[j] == 0
            }),
    {
        let idx = invoking as usize;
        let ghost procs0 = w.procs@;
        let n = w.procs.len();
        let proc = &mut w.procs[idx];
        let outcome = proc.handle_queue_op(
            QueueOpReq {
                message: DEQ_INVOKE,
                value: 0,
                sender: invoking,
                receiver: invoking,
                timestamp: VectorClock(Vec::new()),
            },
        );
        match outcome {
            Ok(action) => {
                self.invoker = invoking;
                self.message_buffer = action.message;
                self.deq_ts = action.ts;
                let mut verdicts: Vec<u16> = Vec::new();
                let mut k: usize = 0;
                while k < n
                    invariant
                        k <= n,
                        verdicts@.len() == k,
                        forall|j: int| 0 <= j < k ==> #[trigger] verdicts@[j] == 0,
                    decreases n - k,
                {
                    verdicts.push(0);
                    k = k + 1;
                }
                self.verdicts = verdicts;
                Ok(())
            },
            Err(e) => {
                proof {
                    assert(final(w).procs@ =~= procs0);
                }
                Err(e)
            },
        }
    }

    /// Second phase, once per rank: the rank merges the dequeue's stamp
    /// and its safe or unsafe verdict is remembered for the broadcast
    /// phase.
    pub fn deq_req(&mut self, receiver: i32, w: &mut World) -> (r: Result<(), ProtocolError>)
        requires
            old(w).wf(),
            0 <= receiver < old(w).n(),
            receiver < old(self).verdicts@.len(),
        ensures
            final(w).wf(),
            final(w).n() == old(w).n(),
            final(self).invoker == old(self).invoker,
            final(self).deq_ts@ == old(self).deq_ts@,
            final(self).verdicts@.len() == old(self).verdicts@.len(),
            r is Err <==> old(self).deq_ts@.len() != old(w).n(),
            r is Err ==> final(w).procs@ == old(w).procs@ && *final(self) == *old(self),
            r is Ok ==> ({
                let p0 = old(w).procs@[receiver as int];
                let p1 = final(w).procs@[receiver as int];
                let merged = vc_merge(p0.vector_clock@, old(self).deq_ts@);
                &&& forall|j: int|
                    0 <= j < old(w).n() && j != receiver ==> final(w).procs@[j] == #[trigger] old(
                        w,
                    ).procs@[j]
                &&& p1.vector_clock@ == merged
                &&& p1.enq_count == p0.enq_count
                &&& p1.local_queue == p0.local_queue
                &&& p1.lists == p0.lists
                &&& final(self).verdicts@ == old(self).verdicts@.update(
                    receiver as int,
                    (if deq_verdict_unsafe(old(self).deq_ts@, merged) {
                        UNSAFE
                    } else {
                        SAFE
                    }),
                )
            }),
    {
        let idx = receiver as usize;
        let op = QueueOpReq {
            message: DEQ_REQ,
            value: 0,
            sender: self.invoker,
            receiver,
            timestamp: self.deq_ts.duplicate(),
        };
        let ghost procs0 = w.procs@;
        let proc = &mut w.procs[idx];
        let outcome = proc.handle_queue_op(op);
        match outcome {
            Ok(action) => {
                self.verdicts[idx] = action.message;
                Ok(())
            },
            Err(e) => {
                proof {
                    assert(final(w).procs@ =~= procs0);
                }
                Err(e)
            },
        }
    }

    /// Third phase, one step: replica `receiver` consumes `sender`'s
    /// verdict for this dequeue, and the action it hands back carries the
    /// committed value if this very step made a dequeue commit there.
    pub fn safe_unsafe(&mut self, sender: i32, receiver: i32, w: &mut World) -> (r: Result<
        Option<u16>,
        ProtocolError,
    >)
        requires
            old(w).wf(),
            0 <= receiver < old(w).n(),
            0 <= sender < old(self).verdicts@.len(),
        ensures
            final(w).wf(),
            final(w).n() == old(w).n(),
            *final(self) == *old(self),
            r is Err <==> ({
                let v = old(self).verdicts@[sender as int];
                !(v == SAFE || v == UNSAFE) || old(self).deq_ts@.len() != old(w).n() || !(0
                    <= sender < old(w).n())
            }),
            r is Err ==> final(w).procs@ == old(w).procs@,
            r is Ok ==> ({
                let vmsg = old(self).verdicts@[sender as int];
                let vote = if vmsg == UNSAFE {
                    VOTE_UNSAFE
                } else {
                    VOTE_SAFE
                };
                let p0 = old(w).procs@[receiver as int];
                let p1 = final(w).procs@[receiver as int];
                let m3 = rows_after_vote(
                    lists_view(p0.lists@),
                    old(self).deq_ts@,
                    sender as int,
                    vote,
                    old(w).n(),
                );
                let k = first_committable(m3);
                &&& forall|j: int|
                    0 <= j < old(w).n() && j != receiver ==> final(w).procs@[j] == #[trigger] old(
                        w,
                    ).procs@[j]
                &&& p1.vector_clock == p0.vector_clock
                &&& p1.enq_count == p0.enq_count
                &&& (k == m3.len() ==> lists_view(p1.lists@) == m3 && p1.local_queue
                    == p0.local_queue && (r matches Ok(out) && out is None))
                &&& (k < m3.len() ==> ({
                    let pos = num_unsafe(m3[k].votes);
                    &&& lists_view(p1.lists@) == rows_after_commit(m3, k)
                    &&& (pos < p0.local_queue@.len() ==> p1.local_queue@
                        == p0.local_queue@.remove(pos) && (r matches Ok(out) && out == Some(
                        p0.local_queue@[pos].value,
                    )))
                    &&& (pos >= p0.local_queue@.len() ==> p1.local_queue == p0.local_queue && (
                    r matches Ok(out) && out is None))
                }))
            }),
    {
        let idx = receiver as usize;
        let vmsg = self.verdicts[sender as usize];
        if vmsg != SAFE && vmsg != UNSAFE {
            return Err(ProtocolError::InvariantViolation);
        }
        let op = QueueOpReq {
            message: vmsg,
            value: 0,
            sender,
            receiver,
            timestamp: self.deq_ts.duplicate(),
        };
        let ghost procs0 = w.procs@;
        let proc = &mut w.procs[idx];
        let outcome = proc.handle_queue_op(op);
        match outcome {
            Ok(action) => Ok(action.value),
            Err(e) => {
                proof {
                    assert(final(w).procs@ =~= procs0);
                }
                Err(e)
            },
        }
    }

    /// Broadcasts `sender`'s verdict to every replica in rank order and
    /// reports the value, if any, that the invoker's replica committed
    /// while consuming it. For a quiescent dequeue whose verdicts all came
    /// back safe, one broadcast extends every replica's newest vote row by
    /// that one safe vote, and the last broadcast commits the dequeue at
    /// the head of every replica at once.
    #[verifier::loop_isolation(false)]
    #[verifier::rlimit(100)]
    pub fn safe_unsafe_all(&mut self, sender: i32, w: &mut World) -> (r: Result<
        Option<u16>,
        ProtocolError,
    >)
        requires
            old(w).wf(),
            0 <= sender < old(self).verdicts@.len(),
            0 <= old(self).invoker < old(w).n(),
        ensures
            final(w).wf(),
            final(w).n() == old(w).n(),
            *final(self) == *old(self),
            ({
                let nn = old(w).n();
                let ts = old(self).deq_ts@;
                let hs = deq_phase(*old(w), ts, sender as int) && old(self).verdicts@.len() == nn
                    && (forall|j: int| 0 <= j < nn ==> old(self).verdicts@[j] == SAFE) && 0
                    <= sender < nn;
                &&& (hs ==> r is Ok)
                &&& (hs && sender + 1 < nn ==> ({
                    &&& deq_phase(*final(w), ts, sender + 1)
                    &&& forall|i: int|
                        0 <= i < nn ==> #[trigger] queue_view(final(w).procs@[i].local_queue@)
                            == queue_view(old(w).procs@[i].local_queue@)
                    &&& r == Ok::<Option<u16>, ProtocolError>(None)
                }))
                &&& (hs && sender + 1 == nn ==> ({
                    let q0 = queue_view(old(w).procs@[0].local_queue@);
                    &&& forall|i: int|
                        0 <= i < nn ==> #[trigger] final(w).procs@[i].vector_clock@ == ts
                    &&& forall|i: int, rr: int|
                        0 <= i < nn && 0 <= rr < final(w).procs@[i].lists@.len() ==> (
                        #[trigger] final(w).procs@[i].lists@[rr]).handled && row_full(
                            final(w).procs@[i].lists@[rr].response_list@,
                        ) && vc_le(final(w).procs@[i].lists@[rr].ts@, ts)
                    &&& forall|i: int, k: int|
                        0 <= i < nn && 0 <= k < final(w).procs@[i].local_queue@.len() ==> vc_le(
                            (#[trigger] final(w).procs@[i].local_queue@[k]).ts@,
                            ts,
                        )
                    &&& (q0.len() > 0 ==> (forall|i: int|
                        0 <= i < nn ==> #[trigger] queue_view(final(w).procs@[i].local_queue@)
                            == q0.remove(0)) && r == Ok::<Option<u16>, ProtocolError>(Some(
                        q0[0].value,
                    )))
                    &&& (q0.len() == 0 ==> (forall|i: int|
                        0 <= i < nn ==> #[trigger] queue_view(final(w).procs@[i].local_queue@)
                            == q0) && r == Ok::<Option<u16>, ProtocolError>(None))
                }))
            }),
    {
        let ghost ts = self.deq_ts@;
        let ghost nn = old(w).n();
        let ghost hs = deq_phase(*old(w), ts, sender as int) && old(self).verdicts@.len() == nn
            && (forall|j: int| 0 <= j < nn ==> old(self).verdicts@[j] == SAFE) && 0 <= sender
            < nn;
        let ghost q0 = queue_view(old(w).procs@[0].local_queue@);
        let n = w.procs.len();
        let mut out: Option<u16> = None;
        let mut i: usize = 0;
        while i < n
            invariant
                i <= n,
                w.wf(),
                n == w.n(),
                *self == *old(self),
                0 <= sender < self.verdicts@.len(),
                hs ==> ({
                    &&& forall|j: int| i <= j < n ==> w.procs@[j] == #[trigger] old(w).procs@[j]
                    &&& forall|j: int|
                        0 <= j < i ==> (#[trigger] w.procs@[j]).vector_clock@ == ts
                            && deq_rows_ok(w.procs@[j], ts, sender + 1, nn)
                    &&& forall|j: int, k: int|
                        0 <= j < i && 0 <= k < w.procs@[j].local_queue@.len() ==> vc_le(
                            (#[trigger] w.procs@[j].local_queue@[k]).ts@,
                            ts,
                        )
                    &&& (sender + 1 < nn ==> forall|j: int|
                        0 <= j < i ==> #[trigger] queue_view(w.procs@[j].local_queue@)
                            == queue_view(old(w).procs@[j].local_queue@))
                    &&& (sender + 1 == nn && q0.len() > 0 ==> forall|j: int|
                        0 <= j < i ==> #[trigger] queue_view(w.procs@[j].local_queue@)
                            == q0.remove(0))
                    &&& (sender + 1 == nn && q0.len() == 0 ==> forall|j: int|
                        0 <= j < i ==> #[trigger] queue_view(w.procs@[j].local_queue@) == q0)
                    &&& (out == (if sender + 1 == nn && q0.len() > 0 && self.invoker < i {
                        Some(q0[0].value)
                    } else {
                        None::<u16>
                    }))
                }),
            decreases n - i,
        {
            let ghost w_pre = w.procs@;
            let ghost p0 = w.procs@[i as int];
            proof {
                if hs {
                    assert(p0 == old(w).procs@[i as int]);
                    assert(queue_view(p0.local_queue@) == q0);
                }
            }
            let step = self.safe_unsafe(sender, i as i32, w);
            proof {
                if hs {
                    let lv = lists_view(p0.lists@);
                    let prefix = if sender == 0 {
                        lv
                    } else {
                        lv.drop_last()
                    };
                    assert(deq_rows_ok(p0, ts, sender as int, nn));
                    assert forall|rr: int| 0 <= rr < prefix.len() implies (
                    #[trigger] prefix[rr]).handled && row_full(prefix[rr].votes)
                        && crate::compare_ts::lex_lt(prefix[rr].ts, ts) by {
                        assert(prefix[rr] == lv[rr]);
                        assert(lv[rr] == p0.lists@[rr]@);
                    }
                    if sender != 0 {
                        assert(lv.len() >= 1);
                        assert(lv =~= prefix.push(lv.last()));
                        assert(lv == prefix.push(
                            crate::process::ConfirmationListView {
                                votes: wave_votes(sender as int, nn),
                                ts: ts,
                                handled: false,
                            },
                        ));
                    }
                    lemma_dequeue_wave(prefix, lv, ts, sender as int, nn);
                    let m3 = rows_after_vote(lv, ts, sender as int, VOTE_SAFE, nn);
                    let p1 = w.procs@[i as int];
                    assert(step is Ok);
                    if sender + 1 < nn {
                        assert(first_committable(m3) == m3.len());
                        assert(lists_view(p1.lists@) == m3);
                        assert(lists_view(p1.lists@).last() == (
                        crate::process::ConfirmationListView {
                            votes: wave_votes(sender + 1, nn),
                            ts: ts,
                            handled: sender + 1 == nn,
                        }));
                        assert forall|rr: int| 0 <= rr < p1.lists@.len() - 1 implies (
                        #[trigger] p1.lists@[rr]).handled && row_full(p1.lists@[rr].response_list@)
                            && crate::compare_ts::lex_lt(p1.lists@[rr].ts@, ts) && vc_le(
                            p1.lists@[rr].ts@,
                            ts,
                        ) by {
                            assert(lists_view(p1.lists@)[rr] == prefix[rr]);
                            assert(p1.lists@[rr]@ == prefix[rr]);
                            assert(lists_view(p0.lists@)[rr] == prefix[rr]);
                            assert(p0.lists@[rr]@ == prefix[rr]);
                            assert(vc_le(p0.lists@[rr].ts@, ts));
                        }
                        assert(deq_rows_ok(p1, ts, sender + 1, nn));
                        assert(p1.local_queue == p0.local_queue);
                    } else {
                        assert(first_committable(m3) == prefix.len() as int);
                        assert(first_committable(m3) < m3.len());
                        assert(num_unsafe(m3[first_committable(m3)].votes) == 0);
                        assert(lists_view(p1.lists@) == rows_after_commit(
                            m3,
                            first_committable(m3),
                        ));
                        assert(lists_view(p1.lists@) == prefix.push(
                            crate::process::ConfirmationListView {
                                votes: wave_votes(nn, nn),
                                ts: ts,
                                handled: true,
                            },
                        ));
                        assert(lists_view(p1.lists@).len() == prefix.len() + 1);
                        assert(p1.lists@.len() == lists_view(p1.lists@).len());
                        assert forall|rr: int| 0 <= rr < p1.lists@.len() - 1 implies (
                        #[trigger] p1.lists@[rr]).handled && row_full(p1.lists@[rr].response_list@)
                            && crate::compare_ts::lex_lt(p1.lists@[rr].ts@, ts) && vc_le(
                            p1.lists@[rr].ts@,
                            ts,
                        ) by {
                            assert(prefix.push(
                                crate::process::ConfirmationListView {
                                    votes: wave_votes(nn, nn),
                                    ts: ts,
                                    handled: true,
                                },
                            )[rr] == prefix[rr]);
                            assert(lists_view(p1.lists@)[rr] == prefix[rr]);
                            assert(p1.lists@[rr]@ == prefix[rr]);
                            if sender != 0 {
                                assert(prefix[rr] == lv[rr]);
                            }
                            assert(lists_view(p0.lists@)[rr] == prefix[rr]);
                            assert(p0.lists@[rr]@ == prefix[rr]);
                            assert(vc_le(p0.lists@[rr].ts@, ts));
                        }
                        assert(lists_view(p1.lists@).last() == (
                        crate::process::ConfirmationListView {
                            votes: wave_votes(nn, nn),
                            ts: ts,
                            handled: true,
                        }));
                        assert(deq_rows_ok(p1, ts, nn, nn));
                        if q0.len() > 0 {
                            assert(p0.local_queue@.len() == q0.len());
                            assert(p1.local_queue@ == p0.local_queue@.remove(0));
                            lemma_queue_view_remove(p0.local_queue@, 0);
                            assert(queue_view(p1.local_queue@) == q0.remove(0));
                            assert(p0.local_queue@[0]@ == q0[0]);
                            assert(step == Ok::<Option<u16>, ProtocolError>(Some(q0[0].value)));
                            q0.remove_ensures(0);
                            assert forall|k: int|
                                0 <= k < p1.local_queue@.len() implies vc_le(
                                (#[trigger] p1.local_queue@[k]).ts@,
                                ts,
                            ) by {
                                assert(p1.local_queue@[k] == p0.local_queue@.remove(0)[k]);
                                assert(p0.local_queue@.remove(0)[k] == p0.local_queue@[k + 1]);
                                assert(queue_view(p0.local_queue@)[k + 1] == p0.local_queue@[k
                                    + 1]@);
                            }
                        } else {
                            assert(p0.local_queue@.len() == 0);
                            assert(p1.local_queue == p0.local_queue);
                            assert(step == Ok::<Option<u16>, ProtocolError>(None));
                        }
                    }
                    assert forall|j: int| 0 <= j < n && j != i as int implies w.procs@[j]
                        == w_pre[j] by {}
                }
            }
            match step {
                Ok(v) => {
                    if i as i32 == self.invoker {
                        match v {
                            Some(x) => {
                                out = Some(x);
                            },
                            None => {},
                        }
                    }
                },
                Err(e) => {
                    proof {
                        assert(!hs);
                    }
                    return Err(e);
                },
            }
            proof {
                if hs {
                    assert forall|j: int| i + 1 <= j < n implies w.procs@[j] == #[trigger] old(
                        w,
                    ).procs@[j] by {
                        assert(w.procs@[j] == w_pre[j]);
                    }
                    assert forall|j: int|
                        0 <= j < i + 1 implies (#[trigger] w.procs@[j]).vector_clock@ == ts
                            && deq_rows_ok(w.procs@[j], ts, sender + 1, nn) by {
                        if j < i {
                            assert(w.procs@[j] == w_pre[j]);
                        }
                    }
                    assert forall|j: int, k: int|
                        0 <= j < i + 1 && 0 <= k < w.procs@[j].local_queue@.len() implies vc_le(
                        (#[trigger] w.procs@[j].local_queue@[k]).ts@,
                        ts,
                    ) by {
                        if j < i {
                            assert(w.procs@[j] == w_pre[j]);
                        }
                    }
                    if sender + 1 < nn {
                        assert forall|j: int| 0 <= j < i + 1 implies #[trigger] queue_view(
                            w.procs@[j].local_queue@,
                        ) == queue_view(old(w).procs@[j].local_queue@) by {
                            if j < i {
                                assert(w.procs@[j] == w_pre[j]);
                            }
                        }
                    } else {
                        if q0.len() > 0 {
                            assert forall|j: int| 0 <= j < i + 1 implies #[trigger] queue_view(
                                w.procs@[j].local_queue@,
                            ) == q0.remove(0) by {
                                if j < i {
                                    assert(w.procs@[j] == w_pre[j]);
                                }
                            }
                        } else {
                            assert forall|j: int| 0 <= j < i + 1 implies #[trigger] queue_view(
                                w.procs@[j].local_queue@,
                            ) == q0 by {
                                if j < i {
                                    assert(w.procs@[j] == w_pre[j]);
                                }
                            }
                        }
                    }
                }
            }
            i = i + 1;
        }
        Ok(out)
    }
}

/// A quiescent, converged group: no operation is in flight, every clock
/// is the same, every replica holds the same queue, every confirmation
/// list has been handled (and is therefore full), and every stored
/// timestamp is covered by the clock. Complete linearizations take a
/// synced group to a synced group.
pub open spec fn synced(w: World) -> bool {
    &&& w.wf()
    &&& forall|i: int|
        0 <= i < w.n() ==> #[trigger] w.procs@[i].vector_clock@ == w.procs@[0].vector_clock@
    &&& forall|i: int|
        0 <= i < w.n() ==> #[trigger] queue_view(w.procs@[i].local_queue@) == queue_view(
            w.procs@[0].local_queue@,
        )
    &&& forall|i: int, r: int|
        0 <= i < w.n() && 0 <= r < w.procs@[i].lists@.len() ==> (#[trigger] w.procs@[i].lists@[r]).handled
            && row_full(w.procs@[i].lists@[r].response_list@)
    &&& forall|i: int, k: int|
        0 <= i < w.n() && 0 <= k < w.procs@[i].local_queue@.len() ==> vc_le(
            (#[trigger] w.procs@[i].local_queue@[k]).ts@,
            w.procs@[i].vector_clock@,
        )
    &&& forall|i: int, r: int|
        0 <= i < w.n() && 0 <= r < w.procs@[i].lists@.len() ==> vc_le(
            (#[trigger] w.procs@[i].lists@[r]).ts@,
            w.procs@[i].vector_clock@,
        )
}

/// What an enqueue's fan-out leaves of a peer's confirmation lists: as
/// many as before, every one still handled, still full of votes, and
/// still covered by the stamp the peer's clock has advanced to.
pub open spec fn peer_lists_ok(p: Process, p_old: Process, ts: Seq<i32>) -> bool {
    &&& p.lists@.len() == p_old.lists@.len()
    &&& forall|r: int|
        0 <= r < p.lists@.len() ==> (#[trigger] p.lists@[r]).handled && row_full(
            p.lists@[r].response_list@,
        ) && vc_le(p.lists@[r].ts@, ts)
}

/// A clock that covers a whole queue cannot equal a stamp that is
/// strictly ahead of the clock in some slot: the stamp is fresh.
proof fn lemma_fresh_stamp(q: Seq<QueueItemView>, vc: Seq<i32>, ts: Seq<i32>, slot: int)
    requires
        0 <= slot < ts.len(),
        forall|k: int| 0 <= k < q.len() ==> vc_le((#[trigger] q[k]).ts, vc),
        forall|k: int| 0 <= k < q.len() ==> (#[trigger] q[k]).ts.len() == vc.len(),
        ts.len() == vc.len(),
        ts[slot] > vc[slot],
    ensures
        !queue_has_ts(q, ts),
{
    if queue_has_ts(q, ts) {
        let k = choose|k: int| 0 <= k < q.len() && #[trigger] q[k].ts == ts;
        assert(q[k].ts[slot] <= vc[slot]);
    }
}

impl World {
    /// Runs one complete enqueue linearization: the invoke at `invoking`,
    /// the fan-out to every other rank in rank order, then the
    /// acknowledgements back in rank order. An invocation naming a rank
    /// outside the group is refused and changes nothing.
    #[verifier::loop_isolation(false)]
    #[verifier::rlimit(100)]
    pub fn enqueue(&mut self, invoking: i32, val: u16) -> (r: Result<(), ProtocolError>)
        requires
            old(self).wf(),
        ensures
            final(self).wf(),
            final(self).n() == old(self).n(),
            !(0 <= invoking < old(self).n()) ==> r == Err::<(), ProtocolError>(
                ProtocolError::OutOfRange,
            ) && final(self).procs@ == old(self).procs@,
            (synced(*old(self)) && 2 <= old(self).n() && 0 <= invoking < old(self).n() && old(
                self,
            ).procs@[0].vector_clock@[invoking as int] < i32::MAX) ==> ({
                let vc0 = old(self).procs@[0].vector_clock@;
                let q0 = queue_view(old(self).procs@[0].local_queue@);
                let ts = vc0.update(invoking as int, (vc0[invoking as int] + 1) as i32);
                &&& r is Ok
                &&& synced(*final(self))
                &&& forall|i: int|
                    0 <= i < old(self).n() ==> #[trigger] final(self).procs@[i].vector_clock@
                        == ts
                &&& forall|i: int|
                    0 <= i < old(self).n() ==> #[trigger] queue_view(
                        final(self).procs@[i].local_queue@,
                    ) == q0.insert(
                        num_items_lt(q0, ts),
                        QueueItemView { rank: invoking, value: val, ts: ts },
                    )
            }),
    {
        let ghost hyp = synced(*old(self)) && 2 <= old(self).n() && 0 <= invoking < old(self).n()
            && old(self).procs@[0].vector_clock@[invoking as int] < i32::MAX;
        let ghost vc0 = old(self).procs@[0].vector_clock@;
        let ghost q0 = queue_view(old(self).procs@[0].local_queue@);
        let ghost ts = vc0.update(invoking as int, (vc0[invoking as int] + 1) as i32);
        let ghost item = QueueItemView { rank: invoking, value: val, ts: ts };
        let ghost pos = num_items_lt(q0, ts);
        let n = self.procs.len();
        if invoking < 0 || invoking >= n as i32 {
            return Err(ProtocolError::OutOfRange);
        }
        proof {
            if hyp {
                assert(self.procs@[invoking as int].vector_clock@ == vc0);
                assert(forall|i: int|
                    0 <= i < ts.len() ==> #[trigger] ts[i] >= vc0[i]);
            }
        }
        let mut lin = EnqueueFixedLinearization::new();
        match lin.enq_invoke(invoking, val, self) {
            Ok(_) => {},
            Err(e) => {
                proof {
                    assert(!hyp);
                }
                return Err(e);
            },
        }
        proof {
            if hyp {
                assert(self.procs@[invoking as int].vector_clock@ == ts);
                assert(lin.enq_ts@ == ts);
            }
        }
        let mut i: usize = 0;
        while i < n
            invariant
                i <= n,
                self.wf(),
                n == self.n(),
                lin.invoker == invoking,
                lin.value == val,
                0 <= invoking < n as i32,
                hyp ==> ({
                    &&& lin.enq_ts@ == ts
                    &&& ts.len() == n
                    &&& self.procs@[invoking as int].vector_clock@ == ts
                    &&& self.procs@[invoking as int].local_queue == old(self).procs@[invoking as int].local_queue
                    &&& self.procs@[invoking as int].lists == old(self).procs@[invoking as int].lists
                    &&& self.procs@[invoking as int].enq_count == 1
                    &&& forall|j: int|
                        0 <= j < n && j != invoking && j >= i ==> self.procs@[j]
                            == #[trigger] old(self).procs@[j]
                    &&& forall|j: int|
                        0 <= j < n && j != invoking && j < i ==> (#[trigger] self.procs@[j]).vector_clock@
                            == ts && queue_view(self.procs@[j].local_queue@) == q0.insert(pos, item)
                            && peer_lists_ok(self.procs@[j], old(self).procs@[j], ts)
                }),
            decreases n - i,
        {
            let ghost p_world = self.procs@;
            if i as i32 != invoking {
                let ghost p_before = self.procs@[i as int];
                proof {
                    if hyp {
                        assert(self.procs@[i as int] == old(self).procs@[i as int]);
                        assert(queue_view(old(self).procs@[i as int].local_queue@) == q0);
                        assert(old(self).procs@[i as int].vector_clock@ == vc0);
                        assert(queue_view(p_before.local_queue@) == q0);
                        assert(p_before.vector_clock@ == vc0);
                        assert forall|k: int| 0 <= k < q0.len() implies vc_le(
                            (#[trigger] q0[k]).ts,
                            vc0,
                        ) && q0[k].ts.len() == vc0.len() by {
                            assert(q0[k] == old(self).procs@[0].local_queue@[k]@);
                            assert(vc_le(old(self).procs@[0].local_queue@[k].ts@, vc0));
                            assert(old(self).procs@[0].local_queue@[k].ts@.len() == n);
                        }
                        lemma_fresh_stamp(q0, vc0, ts, invoking as int);
                    }
                }
                match lin.enq_req(i as i32, self) {
                    Ok(_) => {
                        proof {
                            if hyp {
                                assert forall|j: int|
                                    0 <= j < n && j != i as int implies self.procs@[j] == p_world[j]
                                    by {}
                                let merged = vc_merge(p_before.vector_clock@, ts);
                                assert(merged =~= ts);
                                let pnow = self.procs@[i as int];
                                assert(pnow.vector_clock@ == ts);
                                assert(num_items_lt(queue_view(p_before.local_queue@), ts)
                                    == pos);
                                assert(queue_view(pnow.local_queue@) == q0.insert(pos, item));
                                assert forall|rr: int|
                                    0 <= rr < pnow.lists@.len() implies row_full(
                                    (#[trigger] pnow.lists@[rr]).response_list@,
                                ) && pnow.lists@[rr].handled && vc_le(pnow.lists@[rr].ts@, ts)
                                    by {
                                    assert(row_full(p_before.lists@[rr].response_list@));
                                    assert(vc_le(p_before.lists@[rr].ts@, vc0));
                                    if vc_below(p_before.lists@[rr].ts@, ts) {
                                        assert(pnow.lists@[rr].response_list@
                                            == p_before.lists@[rr].response_list@.update(
                                            i as int,
                                            VOTE_SAFE,
                                        ));
                                    }
                                }
                                assert(peer_lists_ok(pnow, p_before, ts));
                            }
                        }
                    },
                    Err(e) => {
                        proof {
                            assert(!hyp);
                        }
                        return Err(e);
                    },
                }
            }
            proof {
                if hyp {
                    assert(self.procs@[invoking as int] == p_world[invoking as int]);
                    assert forall|j: int|
                        0 <= j < n && j != invoking && j >= i + 1 implies self.procs@[j]
                            == #[trigger] old(self).procs@[j] by {
                        assert(self.procs@[j] == p_world[j]);
                    }
                    assert forall|j: int|
                        0 <= j < n && j != invoking && j < i + 1 implies (
                    #[trigger] self.procs@[j]).vector_clock@ == ts && queue_view(
                        self.procs@[j].local_queue@,
                    ) == q0.insert(pos, item) && peer_lists_ok(
                        self.procs@[j],
                        old(self).procs@[j],
                        ts,
                    ) by {
                        if j < i {
                            assert(self.procs@[j] == p_world[j]);
                            assert(p_world[j].vector_clock@ == ts);
                            assert(queue_view(p_world[j].local_queue@) == q0.insert(pos, item));
                            assert(peer_lists_ok(p_world[j], old(self).procs@[j], ts));
                        }
                    }
                }
            }
            i = i + 1;
        }
        let mut i2: usize = 0;
        while i2 < n
            invariant
                i2 <= n,
                self.wf(),
                n == self.n(),
                lin.invoker == invoking,
                lin.value == val,
                0 <= invoking < n as i32,
                hyp ==> ({
                    let acked: int = if i2 as int <= invoking as int {
                        i2 as int
                    } else {
                        i2 - 1
                    };
                    &&& lin.enq_ts@ == ts
                    &&& ts.len() == n
                    &&& self.procs@[invoking as int].vector_clock@ == ts
                    &&& self.procs@[invoking as int].lists == old(self).procs@[invoking as int].lists
                    &&& self.procs@[invoking as int].enq_count == 1 + acked
                    &&& (acked < n - 1 ==> queue_view(self.procs@[invoking as int].local_queue@)
                        == q0)
                    &&& (acked == n - 1 ==> queue_view(self.procs@[invoking as int].local_queue@)
                        == q0.insert(pos, item))
                    &&& forall|j: int|
                        0 <= j < n && j != invoking ==> (#[trigger] self.procs@[j]).vector_clock@
                            == ts && queue_view(self.procs@[j].local_queue@) == q0.insert(pos, item)
                            && peer_lists_ok(self.procs@[j], old(self).procs@[j], ts)
                }),
            decreases n - i2,
        {
            let ghost p_world = self.procs@;
            if i2 as i32 != invoking {
                let ghost p_before = self.procs@[invoking as int];
                proof {
                    if hyp {
                        if p_before.enq_count + 1 == n {
                            assert(queue_view(p_before.local_queue@) == q0);
                            assert forall|k: int| 0 <= k < q0.len() implies vc_le(
                                (#[trigger] q0[k]).ts,
                                vc0,
                            ) && q0[k].ts.len() == vc0.len() by {
                                assert(q0[k] == old(self).procs@[0].local_queue@[k]@);
                                assert(vc_le(old(self).procs@[0].local_queue@[k].ts@, vc0));
                                assert(old(self).procs@[0].local_queue@[k].ts@.len() == n);
                            }
                            lemma_fresh_stamp(q0, vc0, ts, invoking as int);
                        }
                    }
                }
                match lin.enq_ack(i2 as i32, self) {
                    Ok(_) => {
                        proof {
                            if hyp {
                                assert forall|j: int|
                                    0 <= j < n && j != invoking implies self.procs@[j]
                                    == p_world[j] by {}
                                assert(num_items_lt(queue_view(p_before.local_queue@), ts) == pos
                                    || p_before.enq_count + 1 != n);
                            }
                        }
                    },
                    Err(e) => {
                        proof {
                            assert(!hyp);
                        }
                        return Err(e);
                    },
                }
            }
            proof {
                if hyp {
                    assert forall|j: int|
                        0 <= j < n && j != invoking implies (#[trigger] self.procs@[j]).vector_clock@
                            == ts && queue_view(self.procs@[j].local_queue@) == q0.insert(
                        pos,
                        item,
                    ) && peer_lists_ok(self.procs@[j], old(self).procs@[j], ts) by {
                        assert(self.procs@[j] == p_world[j]);
                        assert(p_world[j].vector_clock@ == ts);
                        assert(queue_view(p_world[j].local_queue@) == q0.insert(pos, item));
                        assert(peer_lists_ok(p_world[j], old(self).procs@[j], ts));
                    }
                }
            }
            i2 = i2 + 1;
        }
        proof {
            if hyp {
                lemma_num_items_lt_bounds(q0, ts);
                q0.insert_ensures(pos, item);
                let q1 = q0.insert(pos, item);
                assert(queue_view(self.procs@[invoking as int].local_queue@) == q1);
                assert forall|ii: int| 0 <= ii < n implies #[trigger] self.procs@[ii].vector_clock@
                    == ts by {}
                assert forall|ii: int| 0 <= ii < n implies #[trigger] queue_view(
                    self.procs@[ii].local_queue@,
                ) == q1 by {}
                assert forall|z: int, k: int|
                    #![trigger q1[z].ts[k]]
                    0 <= z < q1.len() && 0 <= k < ts.len() implies q1[z].ts[k] <= ts[k] by {
                    if z < pos {
                        assert(q1[z] == q0[z]);
                        assert(q0[z] == queue_view(old(self).procs@[0].local_queue@)[z]);
                        assert(vc_le(old(self).procs@[0].local_queue@[z].ts@, vc0));
                    } else if z == pos {
                        assert(q1[z] == item);
                    } else {
                        assert(q0.insert(pos, item)[(z - 1) + 1] == q0[z - 1]);
                        assert(q1[z] == q0[z - 1]);
                        assert(q0[z - 1] == queue_view(old(self).procs@[0].local_queue@)[z - 1]);
                        assert(vc_le(old(self).procs@[0].local_queue@[z - 1].ts@, vc0));
                    }
                }
                assert forall|ii: int, k: int|
                    0 <= ii < n && 0 <= k < self.procs@[ii].local_queue@.len() implies vc_le(
                    (#[trigger] self.procs@[ii].local_queue@[k]).ts@,
                    self.procs@[ii].vector_clock@,
                ) by {
                    assert(queue_view(self.procs@[ii].local_queue@)[k]
                        == self.procs@[ii].local_queue@[k]@);
                    assert(q1[k].ts == self.procs@[ii].local_queue@[k].ts@);
                }
                assert forall|ii: int, rr: int|
                    0 <= ii < n && 0 <= rr < self.procs@[ii].lists@.len() implies (
                #[trigger] self.procs@[ii].lists@[rr]).handled && row_full(
                    self.procs@[ii].lists@[rr].response_list@,
                ) && vc_le(self.procs@[ii].lists@[rr].ts@, self.procs@[ii].vector_clock@) by {
                    if ii == invoking {
                        assert(self.procs@[ii].lists == old(self).procs@[ii].lists);
                        assert(old(self).procs@[ii].lists@[rr].handled);
                        assert(vc_le(old(self).procs@[ii].lists@[rr].ts@, vc0));
                    } else {
                        assert(peer_lists_ok(self.procs@[ii], old(self).procs@[ii], ts));
                    }
                }
                assert(synced(*self));
            }
        }
        Ok(())
    }

    /// Runs one complete dequeue linearization: the invoke at `invoking`,
    /// a dequeue request to every rank in rank order (the invoker
    /// included), then the broadcast of every rank's verdict to every
    /// replica. Returns the value the invoker's replica committed, or the
    /// explicit bottom when the queue had nothing at the committed head.
    /// An invocation naming a rank outside the group is refused and
    /// changes nothing. On a quiescent, converged group the dequeue
    /// succeeds, commits at the head of every replica at once -- every
    /// replica loses exactly its first entry, or none where the queue is
    /// empty -- and leaves the group converged again.
    #[verifier::loop_isolation(false)]
    #[verifier::rlimit(100)]
    pub fn dequeue(&mut self, invoking: i32) -> (r: Result<Option<u16>, ProtocolError>)
        requires
            old(self).wf(),
        ensures
            final(self).wf(),
            final(self).n() == old(self).n(),
            !(0 <= invoking < old(self).n()) ==> r == Err::<Option<u16>, ProtocolError>(
                ProtocolError::OutOfRange,
            ) && final(self).procs@ == old(self).procs@,
            (synced(*old(self)) && 0 <= invoking < old(self).n() && old(
                self,
            ).procs@[0].vector_clock@[invoking as int] < i32::MAX) ==> ({
                let vc0 = old(self).procs@[0].vector_clock@;
                let q0 = queue_view(old(self).procs@[0].local_queue@);
                let ts = vc0.update(invoking as int, (vc0[invoking as int] + 1) as i32);
                &&& synced(*final(self))
                &&& forall|i: int|
                    0 <= i < old(self).n() ==> #[trigger] final(self).procs@[i].vector_clock@
                        == ts
                &&& (q0.len() > 0 ==> (forall|i: int|
                    0 <= i < old(self).n() ==> #[trigger] queue_view(
                        final(self).procs@[i].local_queue@,
                    ) == q0.remove(0)) && r == Ok::<Option<u16>, ProtocolError>(Some(
                    q0[0].value,
                )))
                &&& (q0.len() == 0 ==> (forall|i: int|
                    0 <= i < old(self).n() ==> #[trigger] queue_view(
                        final(self).procs@[i].local_queue@,
                    ) == q0) && r == Ok::<Option<u16>, ProtocolError>(None))
            }),
    {
        let ghost hd = synced(*old(self)) && 0 <= invoking < old(self).n() && old(
            self,
        ).procs@[0].vector_clock@[invoking as int] < i32::MAX;
        let ghost vc0 = old(self).procs@[0].vector_clock@;
        let ghost q0 = queue_view(old(self).procs@[0].local_queue@);
        let ghost ts = vc0.update(invoking as int, (vc0[invoking as int] + 1) as i32);
        let n = self.procs.len();
        if invoking < 0 || invoking >= n as i32 {
            return Err(ProtocolError::OutOfRange);
        }
        proof {
            if hd {
                assert(self.procs@[invoking as int].vector_clock@ == vc0);
                assert(forall|i: int| 0 <= i < ts.len() ==> #[trigger] ts[i] >= vc0[i]);
            }
        }
        let mut lin = DequeueFixedLinearization::new();
        match lin.deq_invoke(invoking, self) {
            Ok(_) => {},
            Err(e) => {
                proof {
                    assert(!hd);
                }
                return Err(e);
            },
        }
        proof {
            if hd {
                assert(lin.deq_ts@ == ts);
                assert(ts.len() == n);
                assert(self.procs@[invoking as int].vector_clock@ == ts);
                assert forall|j: int|
                    0 <= j < n implies (#[trigger] self.procs@[j]).local_queue == old(self).procs@[j].local_queue
                        && self.procs@[j].lists == old(self).procs@[j].lists
                        && self.procs@[j].enq_count == old(self).procs@[j].enq_count by {
                    if j != invoking {
                        assert(self.procs@[j] == old(self).procs@[j]);
                    }
                }
                assert forall|j: int|
                    0 <= j < n && j != invoking implies (#[trigger] self.procs@[j]).vector_clock@
                        == vc0 by {
                    assert(self.procs@[j] == old(self).procs@[j]);
                    assert(old(self).procs@[j].vector_clock@ == old(self).procs@[0].vector_clock@);
                }
            }
        }
        let mut i: usize = 0;
        while i < n
            invariant
                i <= n,
                self.wf(),
                n == self.n(),
                lin.invoker == invoking,
                lin.verdicts@.len() == n,
                0 <= invoking < n as i32,
                hd ==> ({
                    &&& lin.deq_ts@ == ts
                    &&& ts.len() == n
                    &&& self.procs@[invoking as int].vector_clock@ == ts
                    &&& forall|j: int| 0 <= j < i ==> #[trigger] lin.verdicts@[j] == SAFE
                    &&& forall|j: int|
                        0 <= j < n ==> (#[trigger] self.procs@[j]).local_queue == old(self).procs@[j].local_queue
                            && self.procs@[j].lists == old(self).procs@[j].lists
                            && self.procs@[j].enq_count == old(self).procs@[j].enq_count
                    &&& forall|j: int|
                        0 <= j < i ==> (#[trigger] self.procs@[j]).vector_clock@ == ts
                    &&& forall|j: int|
                        i <= j < n && j != invoking ==> (#[trigger] self.procs@[j]).vector_clock@
                            == vc0
                }),
            decreases n - i,
        {
            let ghost w_pre = self.procs@;
            let ghost p0 = self.procs@[i as int];
            match lin.deq_req(i as i32, self) {
                Ok(_) => {
                    proof {
                        if hd {
                            let merged = vc_merge(p0.vector_clock@, ts);
                            assert(merged =~= ts);
                            assert(!crate::compare_ts::vc_any_lt(ts, ts));
                            assert(!deq_verdict_unsafe(ts, merged));
                            assert forall|j: int| 0 <= j < i + 1 implies #[trigger] lin.verdicts@[j]
                                == SAFE by {}
                            assert forall|j: int|
                                0 <= j < n && j != i as int implies self.procs@[j] == w_pre[j]
                                by {}
                        }
                    }
                },
                Err(e) => {
                    proof {
                        assert(!hd);
                    }
                    return Err(e);
                },
            }
            proof {
                if hd {
                    assert(self.procs@[i as int].vector_clock@ == vc_merge(p0.vector_clock@, ts));
                    assert(self.procs@[i as int].vector_clock@ == ts);
                    assert forall|j: int|
                        0 <= j < n implies (#[trigger] self.procs@[j]).local_queue == old(self).procs@[j].local_queue
                            && self.procs@[j].lists == old(self).procs@[j].lists
                            && self.procs@[j].enq_count == old(self).procs@[j].enq_count by {
                        if j != i as int {
                            assert(self.procs@[j] == w_pre[j]);
                        }
                    }
                    assert forall|j: int|
                        0 <= j < i + 1 implies (#[trigger] self.procs@[j]).vector_clock@ == ts by {
                        if j < i {
                            assert(self.procs@[j] == w_pre[j]);
                        }
                    }
                    assert forall|j: int|
                        i + 1 <= j < n && j != invoking implies (
                    #[trigger] self.procs@[j]).vector_clock@ == vc0 by {
                        assert(self.procs@[j] == w_pre[j]);
                    }
                    assert(self.procs@[invoking as int].vector_clock@ == ts) by {
                        if invoking as int != i as int {
                            assert(self.procs@[invoking as int] == w_pre[invoking as int]);
                        }
                    }
                }
            }
            i = i + 1;
        }
        proof {
            if hd {
                assert forall|ii: int| 0 <= ii < n implies #[trigger] queue_view(
                    self.procs@[ii].local_queue@,
                ) == queue_view(self.procs@[0].local_queue@) by {
                    assert(self.procs@[ii].local_queue == old(self).procs@[ii].local_queue);
                    assert(queue_view(old(self).procs@[ii].local_queue@) == q0);
                }
                assert forall|ii: int, k: int|
                    0 <= ii < n && 0 <= k < self.procs@[ii].local_queue@.len() implies vc_le(
                    (#[trigger] self.procs@[ii].local_queue@[k]).ts@,
                    ts,
                ) by {
                    assert(self.procs@[ii].local_queue == old(self).procs@[ii].local_queue);
                    assert(vc_le(old(self).procs@[ii].local_queue@[k].ts@, vc0));
                }
                assert forall|ii: int| 0 <= ii < n implies deq_rows_ok(
                    #[trigger] self.procs@[ii],
                    ts,
                    0,
                    n as int,
                ) by {
                    assert(self.procs@[ii].lists == old(self).procs@[ii].lists);
                    assert forall|rr: int| 0 <= rr < self.procs@[ii].lists@.len() implies (
                    #[trigger] self.procs@[ii].lists@[rr]).handled && row_full(
                        self.procs@[ii].lists@[rr].response_list@,
                    ) && crate::compare_ts::lex_lt(self.procs@[ii].lists@[rr].ts@, ts) && vc_le(
                        self.procs@[ii].lists@[rr].ts@,
                        ts,
                    ) by {
                        assert(old(self).procs@[ii].lists@[rr].handled);
                        assert(vc_le(old(self).procs@[ii].lists@[rr].ts@, vc0));
                        let rts = old(self).procs@[ii].lists@[rr].ts@;
                        assert(rts.len() == n);
                        assert(vc_le(rts, ts));
                        assert(rts[invoking as int] <= vc0[invoking as int] < ts[invoking as int]);
                        assert(rts != ts);
                        crate::compare_ts::lemma_le_and_diff_implies_lex_lt(rts, ts);
                    }
                }
                assert(deq_phase(*self, ts, 0));
            }
        }
        let mut out: Option<u16> = None;
        let mut s: usize = 0;
        while s < n
            invariant
                s <= n,
                self.wf(),
                n == self.n(),
                lin.invoker == invoking,
                lin.verdicts@.len() == n,
                0 <= invoking < n as i32,
                hd ==> ({
                    &&& lin.deq_ts@ == ts
                    &&& ts.len() == n
                    &&& forall|j: int| 0 <= j < n ==> #[trigger] lin.verdicts@[j] == SAFE
                    &&& (s < n ==> deq_phase(*self, ts, s as int) && out == None::<u16>
                        && forall|j: int|
                        0 <= j < n ==> #[trigger] queue_view(self.procs@[j].local_queue@) == q0)
                    &&& (s == n ==> ({
                        &&& forall|j: int|
                            0 <= j < n ==> #[trigger] self.procs@[j].vector_clock@ == ts
                        &&& forall|j: int, rr: int|
                            0 <= j < n && 0 <= rr < self.procs@[j].lists@.len() ==> (
                            #[trigger] self.procs@[j].lists@[rr]).handled && row_full(
                                self.procs@[j].lists@[rr].response_list@,
                            ) && vc_le(self.procs@[j].lists@[rr].ts@, ts)
                        &&& forall|j: int, k: int|
                            0 <= j < n && 0 <= k < self.procs@[j].local_queue@.len() ==> vc_le(
                                (#[trigger] self.procs@[j].local_queue@[k]).ts@,
                                ts,
                            )
                        &&& (q0.len() > 0 ==> (forall|j: int|
                            0 <= j < n ==> #[trigger] queue_view(self.procs@[j].local_queue@)
                                == q0.remove(0)) && out == Some(q0[0].value))
                        &&& (q0.len() == 0 ==> (forall|j: int|
                            0 <= j < n ==> #[trigger] queue_view(self.procs@[j].local_queue@)
                                == q0) && out == None::<u16>)
                    }))
                }),
            decreases n - s,
        {
            let ghost w_pre = self.procs@;
            match lin.safe_unsafe_all(s as i32, self) {
                Ok(v) => {
                    proof {
                        if hd {
                            assert(queue_view(w_pre[0].local_queue@) == q0);
                        }
                    }
                    match v {
                        Some(x) => {
                            out = Some(x);
                        },
                        None => {},
                    }
                },
                Err(e) => {
                    proof {
                        assert(!hd);
                    }
                    return Err(e);
                },
            }
            s = s + 1;
        }
        proof {
            if hd {
                assert forall|ii: int| 0 <= ii < n implies #[trigger] queue_view(
                    self.procs@[ii].local_queue@,
                ) == queue_view(self.procs@[0].local_queue@) by {}
                assert(synced(*self));
            }
        }
        Ok(out)
    }
}

/// The confirmation-list shape of one replica in the middle of a
/// quiescent dequeue stamped `ts`, once the first `upto` ranks' safe
/// votes have been consumed: every older list is handled, full and sorts
/// below `ts` while staying covered by it, and from the first vote on the
/// newest list is the dequeue's own, handled exactly when every rank has
/// voted.
pub open spec fn deq_rows_ok(p: Process, ts: Seq<i32>, upto: int, n: int) -> bool {
    if upto == 0 {
        forall|r: int|
            0 <= r < p.lists@.len() ==> (#[trigger] p.lists@[r]).handled && row_full(
                p.lists@[r].response_list@,
            ) && crate::compare_ts::lex_lt(p.lists@[r].ts@, ts) && vc_le(p.lists@[r].ts@, ts)
    } else {
        &&& p.lists@.len() >= 1
        &&& lists_view(p.lists@).last() == (crate::process::ConfirmationListView {
            votes: wave_votes(upto, n),
            ts: ts,
            handled: upto == n,
        })
        &&& forall|r: int|
            0 <= r < p.lists@.len() - 1 ==> (#[trigger] p.lists@[r]).handled && row_full(
                p.lists@[r].response_list@,
            ) && crate::compare_ts::lex_lt(p.lists@[r].ts@, ts) && vc_le(p.lists@[r].ts@, ts)
    }
}

/// The whole group in the middle of a quiescent dequeue stamped `ts`:
/// every clock sits at `ts`, every replica holds the same queue, still
/// covered by `ts`, and every confirmation store has the shape of
/// `deq_rows_ok` for the same wave.
pub open spec fn deq_phase(w: World, ts: Seq<i32>, upto: int) -> bool {
    &&& w.wf()
    &&& ts.len() == w.n()
    &&& 0 <= upto <= w.n()
    &&& forall|i: int| 0 <= i < w.n() ==> #[trigger] w.procs@[i].vector_clock@ == ts
    &&& forall|i: int|
        0 <= i < w.n() ==> #[trigger] queue_view(w.procs@[i].local_queue@) == queue_view(
            w.procs@[0].local_queue@,
        )
    &&& forall|i: int, k: int|
        0 <= i < w.n() && 0 <= k < w.procs@[i].local_queue@.len() ==> vc_le(
            (#[trigger] w.procs@[i].local_queue@[k]).ts@,
            ts,
        )
    &&& forall|i: int| 0 <= i < w.n() ==> deq_rows_ok(#[trigger] w.procs@[i], ts, upto, w.n())
}

} // verus!
