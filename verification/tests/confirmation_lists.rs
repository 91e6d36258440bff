use wait_free_queue::confirmation_list::ConfirmationList;
use wait_free_queue::confirmation_list::propagate_earlier_responses;
use wait_free_queue::confirmation_list::update_unsafes;
use wait_free_queue::message_structs::VectorClock;
use wait_free_queue::message_structs::QueueOpReq;
use wait_free_queue::process::Process;
use wait_free_queue::SAFE;
use wait_free_queue::UNSAFE;

fn vote_message(kind: u16, sender: i32, ts: Vec<i32>) -> QueueOpReq {
    QueueOpReq {
        message: kind,
        value: 0,
        sender,
        receiver: 0,
        timestamp: VectorClock(ts),
    }
}

#[test]
fn new_list_is_all_pending_and_unhandled() {
    let cl = ConfirmationList::new(vec![1, 2, 0]);
    assert_eq!(cl.response_list, vec![0, 0, 0]);
    assert_eq!(cl.ts, vec![1, 2, 0]);
    assert!(!cl.handled);
}

#[test]
fn propagation_copies_verdicts_down_and_keeps_existing_ones() {
    let mut rows = vec![
        ConfirmationList::new(vec![1, 0, 0]),
        ConfirmationList::new(vec![2, 0, 0]),
        ConfirmationList::new(vec![3, 0, 0]),
    ];
    // newest row has verdicts in columns 0 and 2; the middle row has its
    // own verdict in column 0 already.
    rows[2].response_list = vec![2, 0, 1];
    rows[1].response_list = vec![1, 0, 0];
    propagate_earlier_responses(&mut rows);
    // column 0: the middle row keeps its own safe verdict and hands it on.
    assert_eq!(rows[1].response_list[0], 1);
    assert_eq!(rows[0].response_list[0], 1);
    // column 2: the newest verdict cascades through both pending slots.
    assert_eq!(rows[1].response_list[2], 1);
    assert_eq!(rows[0].response_list[2], 1);
    // column 1 stays pending everywhere; the newest row is untouched.
    assert_eq!(rows[0].response_list[1], 0);
    assert_eq!(rows[1].response_list[1], 0);
    assert_eq!(rows[2].response_list, vec![2, 0, 1]);
}

#[test]
fn update_unsafes_rewrites_rows_at_and_after_the_given_row() {
    let mut rows = vec![
        ConfirmationList::new(vec![1, 0]),
        ConfirmationList::new(vec![2, 0]),
        ConfirmationList::new(vec![3, 0]),
    ];
    rows[0].response_list = vec![2, 1];
    rows[1].response_list = vec![2, 2];
    rows[2].response_list = vec![1, 2];
    update_unsafes(&mut rows, 1);
    assert_eq!(rows[0].response_list, vec![2, 1]);
    assert_eq!(rows[1].response_list, vec![1, 1]);
    assert_eq!(rows[2].response_list, vec![1, 1]);
}

#[test]
fn column_update_unsafes_rewrites_only_one_column_after_the_row() {
    let mut rows = vec![
        ConfirmationList::new(vec![1, 0]),
        ConfirmationList::new(vec![2, 0]),
        ConfirmationList::new(vec![3, 0]),
    ];
    rows[0].response_list = vec![2, 2];
    rows[1].response_list = vec![2, 2];
    rows[2].response_list = vec![2, 2];
    wait_free_queue::update_unsafes::update_unsafes(&mut rows, 0, 1);
    assert_eq!(rows[0].response_list, vec![2, 2]);
    assert_eq!(rows[1].response_list, vec![2, 1]);
    assert_eq!(rows[2].response_list, vec![2, 1]);
}

#[test]
fn vote_counting_and_fullness() {
    let mut cl = ConfirmationList::new(vec![1, 1, 1]);
    assert!(!cl.all_voted());
    assert_eq!(cl.count_unsafes(), 0);
    cl.response_list = vec![2, 1, 2];
    assert!(cl.all_voted());
    assert_eq!(cl.count_unsafes(), 2);
}

#[test]
fn propagation_test_three_in_flight_dequeues() {
    // Three in-flight dequeues at timestamps T1 < T2 < T3, votes arriving
    // out of timestamp order.
    let t1 = vec![1, 1, 0];
    let t2 = vec![1, 2, 0];
    let t3 = vec![1, 3, 0];
    let mut p = Process::initialize(0, 3);
    p.add_confirmation_list(ConfirmationList::new(t1.clone()));
    p.add_confirmation_list(ConfirmationList::new(t2.clone()));
    p.add_confirmation_list(ConfirmationList::new(t3.clone()));

    // (T2, unsafe from rank 2): the verdict is copied down into T1's
    // pending slot of the same column.
    p.handle_queue_op(vote_message(UNSAFE, 2, t2.clone())).unwrap();
    assert_ne!(p.lists[0].response_list[2], 0);
    assert_eq!(p.lists[0].response_list[2], 2);
    assert_eq!(p.lists[1].response_list[2], 2);
    assert_eq!(p.lists[2].response_list, vec![0, 0, 0]);

    // (T2, safe from rank 0): same propagation in column 0.
    p.handle_queue_op(vote_message(SAFE, 0, t2.clone())).unwrap();
    assert_eq!(p.lists[0].response_list[0], 1);
    assert_eq!(p.lists[1].response_list[0], 1);

    // (T1, safe from rank 2): the direct vote replaces the unsafe verdict
    // that propagation had copied down.
    p.handle_queue_op(vote_message(SAFE, 2, t1.clone())).unwrap();
    assert_eq!(p.lists[0].response_list, vec![1, 0, 1]);
    // nothing is full yet, so nothing committed.
    assert!(!p.lists[0].handled);
    assert!(!p.lists[1].handled);
    assert!(!p.lists[2].handled);
}

#[test]
fn safe_vote_is_never_downgraded_by_a_late_unsafe() {
    let t = vec![1, 1];
    let mut p = Process::initialize(0, 2);
    p.handle_queue_op(vote_message(SAFE, 1, t.clone())).unwrap();
    assert_eq!(p.lists[0].response_list[1], 1);
    p.handle_queue_op(vote_message(UNSAFE, 1, t.clone())).unwrap();
    assert_eq!(p.lists[0].response_list[1], 1);
}
