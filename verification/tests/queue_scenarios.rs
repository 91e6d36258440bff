use wait_free_queue::execution_linearizer::DequeueFixedLinearization;
use wait_free_queue::execution_linearizer::EnqueueFixedLinearization;
use wait_free_queue::execution_linearizer::World;
use wait_free_queue::message_structs::QueueOpReq;
use wait_free_queue::message_structs::VectorClock;
use wait_free_queue::process::Process;
use wait_free_queue::process::ProtocolError;
use wait_free_queue::DEQ_REQ;
use wait_free_queue::SAFE;
use wait_free_queue::UNSAFE;

fn queue_values(p: &Process) -> Vec<u16> {
    p.local_queue.iter().map(|item| item.value).collect()
}

#[test]
fn single_enqueue_single_dequeue_same_process() {
    let mut w = World::initialize(3);
    w.enqueue(0, 7).unwrap();
    for p in &w.procs {
        assert_eq!(queue_values(p), vec![7]);
    }
    let got = w.dequeue(0).unwrap();
    assert_eq!(got, Some(7));
    for p in &w.procs {
        assert!(p.local_queue.is_empty());
    }
}

#[test]
fn concurrent_enqueues_from_different_processes() {
    let mut w = World::initialize(3);
    let mut e1 = EnqueueFixedLinearization::new();
    let mut e2 = EnqueueFixedLinearization::new();
    // the two request phases interleave under the fixed linearization
    e1.enq_invoke(0, 10, &mut w).unwrap();
    e2.enq_invoke(1, 20, &mut w).unwrap();
    e1.enq_req(1, &mut w).unwrap();
    e2.enq_req(0, &mut w).unwrap();
    e1.enq_req(2, &mut w).unwrap();
    e2.enq_req(2, &mut w).unwrap();
    e1.enq_ack(1, &mut w).unwrap();
    e1.enq_ack(2, &mut w).unwrap();
    e2.enq_ack(0, &mut w).unwrap();
    e2.enq_ack(2, &mut w).unwrap();
    // all replicas agree on one order
    let order = queue_values(&w.procs[0]);
    assert_eq!(order.len(), 2);
    assert!(order == vec![10, 20] || order == vec![20, 10]);
    for p in &w.procs {
        assert_eq!(queue_values(p), order);
    }
    // and two dequeues from rank 0 return the values in that same order
    let first = w.dequeue(0).unwrap();
    let second = w.dequeue(0).unwrap();
    assert_eq!(first, Some(order[0]));
    assert_eq!(second, Some(order[1]));
    for p in &w.procs {
        assert!(p.local_queue.is_empty());
    }
}

#[test]
fn dequeue_racing_enqueue() {
    let mut w = World::initialize(3);
    let mut e = EnqueueFixedLinearization::new();
    let mut d = DequeueFixedLinearization::new();
    // rank 0 starts enqueuing 3; before any request lands, rank 1 starts
    // a dequeue and collects the verdicts.
    e.enq_invoke(0, 3, &mut w).unwrap();
    d.deq_invoke(1, &mut w).unwrap();
    d.deq_req(0, &mut w).unwrap();
    d.deq_req(1, &mut w).unwrap();
    d.deq_req(2, &mut w).unwrap();
    // rank 0 had already witnessed its own enqueue, which the dequeue's
    // stamp does not cover: it answers unsafe.
    assert_eq!(d.verdicts[0], UNSAFE);
    assert_eq!(d.verdicts[1], SAFE);
    assert_eq!(d.verdicts[2], SAFE);
    // the enqueue completes before the verdicts are broadcast
    e.enq_req(1, &mut w).unwrap();
    e.enq_req(2, &mut w).unwrap();
    e.enq_ack(1, &mut w).unwrap();
    e.enq_ack(2, &mut w).unwrap();
    let mut got: Option<u16> = None;
    for s in 0..3 {
        if let Some(v) = d.safe_unsafe_all(s, &mut w).unwrap() {
            got = Some(v);
        }
    }
    // the confirmation list was created and decided at every replica
    for p in &w.procs {
        assert_eq!(p.lists.len(), 1);
        assert!(p.lists[0].handled);
        assert_eq!(p.lists[0].response_list, vec![2, 1, 1]);
    }
    // one unsafe vote moves the committed head index past the single
    // entry, so this dequeue reports bottom and leaves the value in
    // place; the next dequeue resolves to 3 at every replica.
    assert_eq!(got, None);
    for p in &w.procs {
        assert_eq!(queue_values(p), vec![3]);
    }
    let later = w.dequeue(2).unwrap();
    assert_eq!(later, Some(3));
    for p in &w.procs {
        assert!(p.local_queue.is_empty());
    }
}

#[test]
fn empty_queue_dequeue() {
    let mut w = World::initialize(2);
    let got = w.dequeue(0).unwrap();
    assert_eq!(got, None);
    // the dequeue's confirmation list exists and was handled everywhere,
    // and the invoker's clock advanced by one in its own slot.
    for p in &w.procs {
        assert_eq!(p.lists.len(), 1);
        assert!(p.lists[0].handled);
    }
    assert_eq!(w.procs[0].vector_clock.0, vec![1, 0]);
}

#[test]
fn interleaved_pair() {
    let mut w = World::initialize(3);
    w.enqueue(0, 16).unwrap();
    let first = w.dequeue(1).unwrap();
    let second = w.dequeue(2).unwrap();
    assert_eq!(first, Some(16));
    assert_eq!(second, None);
    for p in &w.procs {
        assert!(p.local_queue.is_empty());
    }
}

#[test]
fn out_of_range_invoker_is_refused() {
    let mut w = World::initialize(3);
    assert_eq!(w.enqueue(3, 1), Err(ProtocolError::OutOfRange));
    assert_eq!(w.enqueue(-1, 1), Err(ProtocolError::OutOfRange));
    assert_eq!(w.dequeue(7), Err(ProtocolError::OutOfRange));
    for p in &w.procs {
        assert!(p.local_queue.is_empty());
        assert!(p.lists.is_empty());
    }
}

#[test]
fn malformed_messages_are_protocol_violations() {
    let mut p = Process::initialize(0, 3);
    // unknown message kind
    let bad_kind = QueueOpReq {
        message: 9,
        value: 0,
        sender: 0,
        receiver: 0,
        timestamp: VectorClock(vec![0, 0, 0]),
    };
    assert!(matches!(
        p.handle_queue_op(bad_kind),
        Err(ProtocolError::InvariantViolation)
    ));
    // a dequeue request whose stamp has the wrong width
    let bad_len = QueueOpReq {
        message: DEQ_REQ,
        value: 0,
        sender: 1,
        receiver: 0,
        timestamp: VectorClock(vec![1, 0]),
    };
    assert!(matches!(
        p.handle_queue_op(bad_len),
        Err(ProtocolError::InvariantViolation)
    ));
    // a vote from a rank outside the group
    let bad_sender = QueueOpReq {
        message: SAFE,
        value: 0,
        sender: 5,
        receiver: 0,
        timestamp: VectorClock(vec![1, 0, 0]),
    };
    assert!(matches!(
        p.handle_queue_op(bad_sender),
        Err(ProtocolError::InvariantViolation)
    ));
    assert!(p.local_queue.is_empty());
    assert!(p.lists.is_empty());
}

#[test]
fn duplicate_timestamp_insertion_is_refused() {
    let mut p = Process::initialize(1, 3);
    let req = QueueOpReq {
        message: wait_free_queue::ENQ_REQ,
        value: 5,
        sender: 0,
        receiver: 1,
        timestamp: VectorClock(vec![1, 0, 0]),
    };
    assert!(p.handle_queue_op(req).is_ok());
    assert_eq!(queue_values(&p), vec![5]);
    let again = QueueOpReq {
        message: wait_free_queue::ENQ_REQ,
        value: 6,
        sender: 0,
        receiver: 1,
        timestamp: VectorClock(vec![1, 0, 0]),
    };
    assert!(matches!(
        p.handle_queue_op(again),
        Err(ProtocolError::InvariantViolation)
    ));
    assert_eq!(queue_values(&p), vec![5]);
}

#[test]
fn all_zero_stamp_is_never_flagged_racy() {
    let mut p = Process::initialize(0, 2);
    // the replica has already witnessed an event, but the genesis stamp
    // still draws a safe verdict.
    let enq = QueueOpReq {
        message: wait_free_queue::ENQ_REQ,
        value: 1,
        sender: 1,
        receiver: 0,
        timestamp: VectorClock(vec![0, 1]),
    };
    p.handle_queue_op(enq).unwrap();
    let probe = QueueOpReq {
        message: DEQ_REQ,
        value: 0,
        sender: 1,
        receiver: 0,
        timestamp: VectorClock(vec![0, 0]),
    };
    let action = p.handle_queue_op(probe).unwrap();
    assert_eq!(action.message, SAFE);
}

#[test]
fn clocks_are_monotone_across_handled_messages() {
    let mut w = World::initialize(3);
    let mut before: Vec<Vec<i32>> = w.procs.iter().map(|p| p.vector_clock.0.clone()).collect();
    w.enqueue(1, 42).unwrap();
    let mut after: Vec<Vec<i32>> = w.procs.iter().map(|p| p.vector_clock.0.clone()).collect();
    for (b, a) in before.iter().zip(after.iter()) {
        for k in 0..3 {
            assert!(a[k] >= b[k]);
        }
    }
    before = after;
    w.dequeue(2).unwrap();
    after = w.procs.iter().map(|p| p.vector_clock.0.clone()).collect();
    for (b, a) in before.iter().zip(after.iter()) {
        for k in 0..3 {
            assert!(a[k] >= b[k]);
        }
    }
}
