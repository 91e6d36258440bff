use wait_free_queue::execution_linearizer::World;
use wait_free_queue::message_structs::QueueOpReq;
use wait_free_queue::message_structs::VectorClock;
use wait_free_queue::SAFE;
use wait_free_queue::UNSAFE;

#[test]
fn committed_items_never_share_a_timestamp() {
    let mut w = World::initialize(3);
    w.enqueue(0, 11).unwrap();
    w.enqueue(1, 22).unwrap();
    w.enqueue(0, 33).unwrap();
    for p in &w.procs {
        let stamps: Vec<Vec<i32>> = p.local_queue.iter().map(|it| it.ts.0.clone()).collect();
        assert_eq!(stamps.len(), 3);
        for a in 0..stamps.len() {
            for b in 0..stamps.len() {
                if a != b {
                    assert_ne!(stamps[a], stamps[b]);
                }
            }
        }
    }
    // and the same order is held at every replica
    let reference: Vec<u16> = w.procs[0].local_queue.iter().map(|it| it.value).collect();
    for p in &w.procs {
        let values: Vec<u16> = p.local_queue.iter().map(|it| it.value).collect();
        assert_eq!(values, reference);
    }
}

#[test]
fn fifo_per_originator() {
    let mut w = World::initialize(3);
    w.enqueue(0, 5).unwrap();
    w.enqueue(0, 6).unwrap();
    w.enqueue(0, 7).unwrap();
    assert_eq!(w.dequeue(1).unwrap(), Some(5));
    assert_eq!(w.dequeue(2).unwrap(), Some(6));
    assert_eq!(w.dequeue(0).unwrap(), Some(7));
    assert_eq!(w.dequeue(0).unwrap(), None);
}

#[test]
fn late_votes_never_reopen_a_handled_dequeue() {
    let mut w = World::initialize(3);
    w.enqueue(0, 40).unwrap();
    w.enqueue(1, 41).unwrap();
    assert_eq!(w.dequeue(2).unwrap(), Some(40));
    // every replica now holds one handled confirmation list and one entry
    let deq_ts = w.procs[0].lists[0].ts.clone();
    for p in &w.procs {
        assert_eq!(p.lists.len(), 1);
        assert!(p.lists[0].handled);
        assert_eq!(p.local_queue.len(), 1);
    }
    // a late unsafe vote for the already-handled dequeue commits nothing
    // and cannot downgrade the safe vote already recorded: the queue is
    // untouched and the decision stands.
    let late = QueueOpReq {
        message: UNSAFE,
        value: 0,
        sender: 1,
        receiver: 0,
        timestamp: VectorClock(deq_ts.clone()),
    };
    let action = w.procs[0].handle_queue_op(late).unwrap();
    assert_eq!(action.message, UNSAFE);
    assert_eq!(action.value, None);
    assert!(w.procs[0].lists[0].handled);
    assert_eq!(w.procs[0].lists[0].response_list, vec![1, 1, 1]);
    assert_eq!(w.procs[0].local_queue.len(), 1);
    assert_eq!(w.procs[0].local_queue[0].value, 41);
    // the same holds for a late safe vote
    let late_safe = QueueOpReq {
        message: SAFE,
        value: 0,
        sender: 2,
        receiver: 0,
        timestamp: VectorClock(deq_ts),
    };
    let action = w.procs[0].handle_queue_op(late_safe).unwrap();
    assert_eq!(action.value, None);
    assert!(w.procs[0].lists[0].handled);
    assert_eq!(w.procs[0].local_queue.len(), 1);
}
