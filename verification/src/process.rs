//! The per-process replica state and the sorted containers it maintains:
//! the local queue ordered by timestamp and the confirmation-list store.

use vstd::prelude::*;
use crate::compare_ts::lex_lt;
use crate::compare_ts::vc_all_lt;
use crate::compare_ts::vc_le;
use crate::compare_ts::vc_any_lt;
use crate::compare_ts::vc_all_zero;
use crate::compare_ts::vc_below;
use crate::compare_ts::compare_ts;
use crate::compare_ts::contains_all_zeros;
use crate::compare_ts::ComparisonResult;
use crate::compare_ts::lemma_lex_transitive;
use crate::compare_ts::compare_ts_ord;
use crate::confirmation_list::ConfirmationList;
use crate::confirmation_list::cl_wf;
use crate::confirmation_list::votes_wf;
use crate::confirmation_list::row_full;
use crate::confirmation_list::cl_eq;
use crate::confirmation_list::num_unsafe;
use crate::confirmation_list::set_vote;
use crate::message_structs::VectorClock;
use crate::message_structs::OpNextAction;
use crate::message_structs::QueueOpReq;
use crate::update_ts::vc_merge;
use crate::update_ts::update_ts;
use crate::ENQ_REQ;
use crate::DEQ_REQ;
use crate::ENQ_ACK;
use crate::UNSAFE;
use crate::SAFE;
use crate::ENQ_INVOKE;
use crate::DEQ_INVOKE;
use crate::NO_ACTION;
use crate::VOTE_SAFE;
use crate::VOTE_UNSAFE;

verus! {

/// One committed entry of the replicated queue: who enqueued it, the
/// payload, and the enqueue's timestamp.
#[derive(Clone, Debug)]
pub struct QueueItem {
    pub rank: i32,
    pub value: u16,
    pub ts: VectorClock,
}

/// Spec-level shape of a queue item, with the clock as a plain sequence.
#[verifier::ext_equal]
pub struct QueueItemView {
    pub rank: i32,
    pub value: u16,
    pub ts: Seq<i32>,
}

impl View for QueueItem {
    type V = QueueItemView;

    open spec fn view(&self) -> QueueItemView {
        QueueItemView { rank: self.rank, value: self.value, ts: self.ts@ }
    }
}

/// Spec-level shape of a confirmation list.
#[verifier::ext_equal]
pub struct ConfirmationListView {
    pub votes: Seq<i32>,
    pub ts: Seq<i32>,
    pub handled: bool,
}

impl View for ConfirmationList {
    type V = ConfirmationListView;

    open spec fn view(&self) -> ConfirmationListView {
        ConfirmationListView { votes: self.response_list@, ts: self.ts@, handled: self.handled }
    }
}

/// The queue contents as a sequence of spec-level items.
pub open spec fn queue_view(q: Seq<QueueItem>) -> Seq<QueueItemView> {
    q.map_values(|it: QueueItem| it@)
}

/// The confirmation-list store as a sequence of spec-level rows.
pub open spec fn lists_view(ls: Seq<ConfirmationList>) -> Seq<ConfirmationListView> {
    ls.map_values(|cl: ConfirmationList| cl@)
}

/// Some queue item carries exactly this timestamp.
pub open spec fn queue_has_ts(q: Seq<QueueItemView>, ts: Seq<i32>) -> bool {
    exists|i: int| 0 <= i < q.len() && #[trigger] q[i].ts == ts
}

/// Some confirmation list carries exactly this timestamp.
pub open spec fn row_has_ts(m: Seq<ConfirmationListView>, ts: Seq<i32>) -> bool {
    exists|i: int| 0 <= i < m.len() && #[trigger] m[i].ts == ts
}

/// How many queue items sort strictly below `ts`; in a strictly sorted
/// queue this is where an item stamped `ts` belongs.
pub open spec fn num_items_lt(q: Seq<QueueItemView>, ts: Seq<i32>) -> int
    decreases q.len(),
{
    if q.len() == 0 {
        0
    } else {
        num_items_lt(q.drop_last(), ts) + if lex_lt(q.last().ts, ts) {
            1int
        } else {
            0int
        }
    }
}

/// How many confirmation lists sort strictly below `ts`.
pub open spec fn num_rows_lt(m: Seq<ConfirmationListView>, ts: Seq<i32>) -> int
    decreases m.len(),
{
    if m.len() == 0 {
        0
    } else {
        num_rows_lt(m.drop_last(), ts) + if lex_lt(m.last().ts, ts) {
            1int
        } else {
            0int
        }
    }
}

/// Recoverable failures of the protocol core: an invocation naming a rank
/// outside the group, and a message whose contents would violate a protocol
/// invariant, on which the core refuses to continue.
#[derive(Clone, Copy, Debug, PartialEq, Eq, Structural)]
pub enum ProtocolError {
    OutOfRange,
    InvariantViolation,
}

/// Outcome of a dequeue as seen by its invoker: the committed rank and
/// value, or no result yet.
#[derive(Clone, Copy, Debug)]
pub enum HandleDequeue {
    Success((i32, u16)),
    NoResult,
}

/// One replica of the queue: its rank, its clock, the confirmation lists of
/// the in-flight dequeues it knows of, the acknowledgement count of its own
/// in-flight enqueue, and the sorted local copy of the queue.
#[derive(Clone, Debug)]
pub struct Process {
    pub index: i32,
    pub vector_clock: VectorClock,
    pub lists: Vec<ConfirmationList>,
    pub enq_count: u16,
    pub local_queue: Vec<QueueItem>,
}

impl Process {
    /// The size of the process group this replica was built for.
    pub open spec fn n(self) -> int {
        self.vector_clock@.len() as int
    }

    /// Well-formedness: the rank is in range, every stored clock has `n`
    /// slots, both containers are strictly sorted by the lexicographic
    /// order (so no two entries share a timestamp), and every vote is one
    /// of the three legal verdicts.
    pub open spec fn wf(self) -> bool {
        &&& 1 <= self.n() <= 0xFFFF
        &&& 0 <= self.index < self.n()
        &&& self.enq_count <= self.n()
        &&& forall|i: int|
            0 <= i < self.local_queue@.len() ==> #[trigger] self.local_queue@[i].ts@.len()
                == self.n()
        &&& forall|i: int, j: int|
            0 <= i < j < self.local_queue@.len() ==> #[trigger] lex_lt(
                self.local_queue@[i].ts@,
                self.local_queue@[j].ts@,
            )
        &&& forall|i: int| 0 <= i < self.lists@.len() ==> cl_wf(#[trigger] self.lists@[i], self.n())
        &&& forall|i: int, j: int|
            0 <= i < j < self.lists@.len() ==> #[trigger] lex_lt(
                self.lists@[i].ts@,
                self.lists@[j].ts@,
            )
    }

    /// A fresh replica for rank `index` in a group of `n` processes, with a
    /// zero clock, no confirmation lists and an empty queue.
    pub fn initialize(index: i32, n: usize) -> (r: Process)
        requires
            1 <= n <= 0xFFFF,
            0 <= index < n as i32,
        ensures
            r.wf(),
            r.index == index,
            r.n() == n,
            r.vector_clock@ =~= Seq::new(n as nat, |i: int| 0i32),
            r.lists@.len() == 0,
            r.enq_count == 0,
            r.local_queue@.len() == 0,
    {
        let r = Process {
            index,
            vector_clock: VectorClock::new(n),
            lists: Vec::new(),
            enq_count: 0,
            local_queue: Vec::new(),
        };
        proof {
            assert(r.vector_clock@ =~= Seq::new(n as nat, |i: int| 0i32));
        }
        r
    }
}

/// In a strictly sorted prefix/suffix split around `idx`, the number of
/// entries strictly below `ts` is exactly `idx`.
proof fn lemma_num_items_split(q: Seq<QueueItemView>, ts: Seq<i32>, idx: int)
    requires
        0 <= idx <= q.len(),
        forall|i: int| 0 <= i < idx ==> lex_lt(#[trigger] q[i].ts, ts),
        forall|i: int| idx <= i < q.len() ==> !lex_lt(#[trigger] q[i].ts, ts),
    ensures
        num_items_lt(q, ts) == idx,
    decreases q.len(),
{
    if q.len() == 0 {
    } else {
        if idx == q.len() {
            lemma_num_items_split(q.drop_last(), ts, idx - 1);
        } else {
            lemma_num_items_split(q.drop_last(), ts, idx);
        }
    }
}

/// The count of smaller items is always within the sequence's bounds.
pub proof fn lemma_num_items_lt_bounds(q: Seq<QueueItemView>, ts: Seq<i32>)
    ensures
        0 <= num_items_lt(q, ts) <= q.len(),
    decreases q.len(),
{
    if q.len() > 0 {
        lemma_num_items_lt_bounds(q.drop_last(), ts);
    }
}

/// The count of smaller rows is always within the store's bounds.
pub proof fn lemma_num_rows_lt_bounds(m: Seq<ConfirmationListView>, ts: Seq<i32>)
    ensures
        0 <= num_rows_lt(m, ts) <= m.len(),
    decreases m.len(),
{
    if m.len() > 0 {
        lemma_num_rows_lt_bounds(m.drop_last(), ts);
    }
}

/// Viewing a queue after an insert is the same as inserting the item's
/// view into the queue's view.
pub proof fn lemma_queue_view_insert(q: Seq<QueueItem>, p: int, it: QueueItem)
    requires
        0 <= p <= q.len(),
    ensures
        queue_view(q.insert(p, it)) == queue_view(q).insert(p, it@),
{
    let a = queue_view(q.insert(p, it));
    let b = queue_view(q).insert(p, it@);
    q.insert_ensures(p, it);
    queue_view(q).insert_ensures(p, it@);
    assert forall|i: int| 0 <= i < a.len() implies a[i] == b[i] by {
        if i < p {
            assert(q.insert(p, it)[i] == q[i]);
            assert(queue_view(q).insert(p, it@)[i] == queue_view(q)[i]);
        } else if i == p {
            assert(q.insert(p, it)[p] == it);
            assert(queue_view(q).insert(p, it@)[p] == it@);
        } else {
            assert(q.insert(p, it)[(i - 1) + 1] == q[i - 1]);
            assert(queue_view(q).insert(p, it@)[(i - 1) + 1] == queue_view(q)[i - 1]);
        }
    }
    assert(a =~= b);
}

/// Viewing a confirmation-list store after an insert is the same as
/// inserting the row's view into the store's view.
pub proof fn lemma_lists_view_insert(ls: Seq<ConfirmationList>, p: int, cl: ConfirmationList)
    requires
        0 <= p <= ls.len(),
    ensures
        lists_view(ls.insert(p, cl)) == lists_view(ls).insert(p, cl@),
{
    let a = lists_view(ls.insert(p, cl));
    let b = lists_view(ls).insert(p, cl@);
    ls.insert_ensures(p, cl);
    lists_view(ls).insert_ensures(p, cl@);
    assert forall|i: int| 0 <= i < a.len() implies a[i] == b[i] by {
        if i < p {
            assert(ls.insert(p, cl)[i] == ls[i]);
            assert(lists_view(ls).insert(p, cl@)[i] == lists_view(ls)[i]);
        } else if i == p {
            assert(ls.insert(p, cl)[p] == cl);
            assert(lists_view(ls).insert(p, cl@)[p] == cl@);
        } else {
            assert(ls.insert(p, cl)[(i - 1) + 1] == ls[i - 1]);
            assert(lists_view(ls).insert(p, cl@)[(i - 1) + 1] == lists_view(ls)[i - 1]);
        }
    }
    assert(a =~= b);
}

/// Confirmation-list version of the same counting argument.
pub proof fn lemma_num_rows_split(m: Seq<ConfirmationListView>, ts: Seq<i32>, idx: int)
    requires
        0 <= idx <= m.len(),
        forall|i: int| 0 <= i < idx ==> lex_lt(#[trigger] m[i].ts, ts),
        forall|i: int| idx <= i < m.len() ==> !lex_lt(#[trigger] m[i].ts, ts),
    ensures
        num_rows_lt(m, ts) == idx,
    decreases m.len(),
{
    if m.len() == 0 {
    } else {
        if idx == m.len() {
            lemma_num_rows_split(m.drop_last(), ts, idx - 1);
        } else {
            lemma_num_rows_split(m.drop_last(), ts, idx);
        }
    }
}

impl Process {
    /// Inserts an item into the local queue at the position its timestamp
    /// determines. Inserting a timestamp that is already present is
    /// forbidden: that would be a protocol bug (invariant L1), so callers
    /// rule it out first.
    #[verifier::rlimit(100)]
    #[verifier::spinoff_prover]
    pub fn enqueue_local(&mut self, item: QueueItem)
        requires
            old(self).wf(),
            item.ts@.len() == old(self).n(),
            !queue_has_ts(queue_view(old(self).local_queue@), item.ts@),
        ensures
            final(self).local_queue@ == old(self).local_queue@.insert(
                num_items_lt(queue_view(old(self).local_queue@), item.ts@),
                item,
            ),
            final(self).index == old(self).index,
            final(self).vector_clock == old(self).vector_clock,
            final(self).lists == old(self).lists,
            final(self).enq_count == old(self).enq_count,
            final(self).wf(),
    {
        let ghost q0 = self.local_queue@;
        let mut lo: usize = 0;
        let mut hi: usize = self.local_queue.len();
        while lo < hi
            invariant
                old(self) == self,
                lo <= hi <= self.local_queue@.len(),
                self.wf(),
                item.ts@.len() == self.n(),
                !queue_has_ts(queue_view(self.local_queue@), item.ts@),
                forall|i: int| 0 <= i < lo ==> lex_lt(#[trigger] self.local_queue@[i].ts@, item.ts@),
                forall|i: int|
                    hi <= i < self.local_queue@.len() ==> lex_lt(
                        item.ts@,
                        #[trigger] self.local_queue@[i].ts@,
                    ),
            decreases hi - lo,
        {
            let mid = lo + (hi - lo) / 2;
            proof {
                assert(self.local_queue@[mid as int].ts@ == self.local_queue@[mid as int].ts.0@);
                assert(item.ts@ == item.ts.0@);
                assert(self.local_queue@[mid as int].ts@.len() == self.n());
            }
            match compare_ts_ord(&self.local_queue[mid].ts.0, &item.ts.0) {
                core::cmp::Ordering::Less => {
                    proof {
                        assert forall|i: int| 0 <= i < mid + 1 implies lex_lt(
                            #[trigger] self.local_queue@[i].ts@,
                            item.ts@,
                        ) by {
                            if i < mid {
                                lemma_lex_transitive(
                                    self.local_queue@[i].ts@,
                                    self.local_queue@[mid as int].ts@,
                                    item.ts@,
                                );
                            }
                        }
                    }
                    lo = mid + 1;
                },
                core::cmp::Ordering::Greater => {
                    proof {
                        assert forall|i: int| mid <= i < self.local_queue@.len() implies lex_lt(
                            item.ts@,
                            #[trigger] self.local_queue@[i].ts@,
                        ) by {
                            if i > mid {
                                lemma_lex_transitive(
                                    item.ts@,
                                    self.local_queue@[mid as int].ts@,
                                    self.local_queue@[i].ts@,
                                );
                            }
                        }
                    }
                    hi = mid;
                },
                core::cmp::Ordering::Equal => {
                    proof {
                        assert(queue_view(self.local_queue@)[mid as int].ts == item.ts@);
                        assert(false);
                    }
                },
            }
        }
        proof {
            lemma_num_items_split(queue_view(self.local_queue@), item.ts@, lo as int);
        }
        self.local_queue.insert(lo, item);
        proof {
            let q1 = self.local_queue@;
            assert(q1 == q0.insert(lo as int, item));
            q0.insert_ensures(lo as int, item);
            assert forall|i: int| 0 <= i < q1.len() implies #[trigger] q1[i].ts@.len()
                == self.n() by {
                if i < lo {
                    assert(q1[i] == q0[i]);
                    assert(q0[i].ts@.len() == self.n());
                } else if i == lo {
                    assert(q1[i] == item);
                } else {
                    assert(q0.insert(lo as int, item)[(i - 1) + 1] == q0[i - 1]);
                    assert(q1[i] == q0[i - 1]);
                    assert(q0[i - 1].ts@.len() == self.n());
                }
                assert(q1[i].ts@.len() == self.n());
            }
            assert forall|i: int, j: int| 0 <= i < j < q1.len() implies #[trigger] lex_lt(
                q1[i].ts@,
                q1[j].ts@,
            ) by {
                if j < lo {
                    assert(q1[i] == q0[i]);
                    assert(q1[j] == q0[j]);
                } else if j == lo {
                    assert(q1[i] == q0[i]);
                    assert(q1[j] == item);
                } else {
                    assert(q0.insert(lo as int, item)[(j - 1) + 1] == q0[j - 1]);
                    assert(q1[j] == q0[j - 1]);
                    if i < lo {
                        assert(q1[i] == q0[i]);
                        lemma_lex_transitive(q0[i].ts@, item.ts@, q0[j - 1].ts@);
                    } else if i == lo {
                        assert(q1[i] == item);
                    } else {
                        assert(q0.insert(lo as int, item)[(i - 1) + 1] == q0[i - 1]);
                        assert(q1[i] == q0[i - 1]);
                    }
                }
            }
        }
    }

    /// Inserts a confirmation list at the position its timestamp
    /// determines. At most one list may exist per timestamp (invariant C1),
    /// so callers rule out duplicates first.
    #[verifier::rlimit(100)]
    #[verifier::spinoff_prover]
    pub fn add_confirmation_list(&mut self, confirmation_list: ConfirmationList)
        requires
            old(self).wf(),
            cl_wf(confirmation_list, old(self).n()),
            !row_has_ts(lists_view(old(self).lists@), confirmation_list.ts@),
        ensures
            final(self).lists@ == old(self).lists@.insert(
                num_rows_lt(lists_view(old(self).lists@), confirmation_list.ts@),
                confirmation_list,
            ),
            final(self).index == old(self).index,
            final(self).vector_clock == old(self).vector_clock,
            final(self).local_queue == old(self).local_queue,
            final(self).enq_count == old(self).enq_count,
            final(self).wf(),
    {
        let mut lo: usize = 0;
        let mut hi: usize = self.lists.len();
        while lo < hi
            invariant
                old(self) == self,
                lo <= hi <= self.lists@.len(),
                self.wf(),
                confirmation_list.ts@.len() == self.n(),
                !row_has_ts(lists_view(self.lists@), confirmation_list.ts@),
                forall|i: int|
                    0 <= i < lo ==> lex_lt(#[trigger] self.lists@[i].ts@, confirmation_list.ts@),
                forall|i: int|
                    hi <= i < self.lists@.len() ==> lex_lt(
                        confirmation_list.ts@,
                        #[trigger] self.lists@[i].ts@,
                    ),
            decreases hi - lo,
        {
            let mid = lo + (hi - lo) / 2;
            match compare_ts_ord(&self.lists[mid].ts, &confirmation_list.ts) {
                core::cmp::Ordering::Less => {
                    proof {
                        assert forall|i: int| 0 <= i < mid + 1 implies lex_lt(
                            #[trigger] self.lists@[i].ts@,
                            confirmation_list.ts@,
                        ) by {
                            if i < mid {
                                lemma_lex_transitive(
                                    self.lists@[i].ts@,
                                    self.lists@[mid as int].ts@,
                                    confirmation_list.ts@,
                                );
                            }
                        }
                    }
                    lo = mid + 1;
                },
                core::cmp::Ordering::Greater => {
                    proof {
                        assert forall|i: int| mid <= i < self.lists@.len() implies lex_lt(
                            confirmation_list.ts@,
                            #[trigger] self.lists@[i].ts@,
                        ) by {
                            if i > mid {
                                lemma_lex_transitive(
                                    confirmation_list.ts@,
                                    self.lists@[mid as int].ts@,
                                    self.lists@[i].ts@,
                                );
                            }
                        }
                    }
                    hi = mid;
                },
                core::cmp::Ordering::Equal => {
                    proof {
                        assert(lists_view(self.lists@)[mid as int].ts == confirmation_list.ts@);
                        assert(false);
                    }
                },
            }
        }
        proof {
            lemma_num_rows_split(lists_view(self.lists@), confirmation_list.ts@, lo as int);
        }
        let ghost l0 = self.lists@;
        self.lists.insert(lo, confirmation_list);
        proof {
            let l1 = self.lists@;
            l0.insert_ensures(lo as int, confirmation_list);
            assert forall|i: int| 0 <= i < l1.len() implies cl_wf(
                #[trigger] l1[i],
                self.n(),
            ) by {
                if i < lo {
                    assert(l1[i] == l0[i]);
                } else if i == lo {
                    assert(l1[i] == confirmation_list);
                } else {
                    assert(l0.insert(lo as int, confirmation_list)[(i - 1) + 1] == l0[i - 1]);
                    assert(l1[i] == l0[i - 1]);
                }
            }
            assert forall|i: int, j: int| 0 <= i < j < l1.len() implies #[trigger] lex_lt(
                l1[i].ts@,
                l1[j].ts@,
            ) by {
                if j < lo {
                    assert(l1[i] == l0[i]);
                    assert(l1[j] == l0[j]);
                } else if j == lo {
                    assert(l1[i] == l0[i]);
                    assert(l1[j] == confirmation_list);
                } else {
                    assert(l0.insert(lo as int, confirmation_list)[(j - 1) + 1] == l0[j - 1]);
                    assert(l1[j] == l0[j - 1]);
                    if i < lo {
                        assert(l1[i] == l0[i]);
                        lemma_lex_transitive(l0[i].ts@, confirmation_list.ts@, l0[j - 1].ts@);
                    } else if i == lo {
                        assert(l1[i] == confirmation_list);
                    } else {
                        assert(l0.insert(lo as int, confirmation_list)[(i - 1) + 1] == l0[i - 1]);
                        assert(l1[i] == l0[i - 1]);
                    }
                }
            }
        }
    }

    /// Removes the confirmation list carrying exactly this timestamp, if
    /// one exists; since no two lists share a timestamp, at most one row is
    /// removed.
    pub fn remove_confirmation_list(&mut self, ts: &VectorClock)
        requires
            old(self).wf(),
            ts@.len() == old(self).n(),
        ensures
            row_has_ts(lists_view(old(self).lists@), ts@) ==> exists|i: int|
                0 <= i < old(self).lists@.len() && old(self).lists@[i].ts@ == ts@ && final(self).lists@ == old(self).lists@.remove(i),
            !row_has_ts(lists_view(old(self).lists@), ts@) ==> final(self).lists@ == old(self).lists@,
            final(self).index == old(self).index,
            final(self).vector_clock == old(self).vector_clock,
            final(self).local_queue == old(self).local_queue,
            final(self).enq_count == old(self).enq_count,
            final(self).wf(),
    {
        let n_rows = self.lists.len();
        let mut i: usize = 0;
        while i < n_rows
            invariant
                old(self) == self,
                i <= n_rows,
                n_rows == self.lists@.len(),
                self.wf(),
                ts@.len() == self.n(),
                forall|j: int| 0 <= j < i ==> #[trigger] self.lists@[j].ts@ != ts@,
            decreases n_rows - i,
        {
            proof {
                assert(ts@ == ts.0@);
                assert(cl_wf(self.lists@[i as int], self.n()));
            }
            match compare_ts_ord(&ts.0, &self.lists[i].ts) {
                core::cmp::Ordering::Equal => {
                    proof {
                        assert(lists_view(self.lists@)[i as int].ts == ts@);
                        let l0 = self.lists@;
                        let l1 = l0.remove(i as int);
                        l0.remove_ensures(i as int);
                        assert forall|p: int, q: int| 0 <= p < q < l1.len() implies #[trigger]
                        lex_lt(l1[p].ts@, l1[q].ts@) by {
                            if q < i {
                                assert(l1[p] == l0[p]);
                                assert(l1[q] == l0[q]);
                            } else if p < i {
                                assert(l1[p] == l0[p]);
                                assert(l1[q] == l0[q + 1]);
                            } else {
                                assert(l1[p] == l0[p + 1]);
                                assert(l1[q] == l0[q + 1]);
                            }
                        }
                    }
                    self.lists.remove(i);
                    return ;
                },
                _ => {},
            }
            i = i + 1;
        }
        proof {
            if row_has_ts(lists_view(self.lists@), ts@) {
                let j = choose|j: int|
                    0 <= j < lists_view(self.lists@).len() && #[trigger] lists_view(
                        self.lists@,
                    )[j].ts == ts@;
                assert(self.lists@[j].ts@ == ts@);
                assert(false);
            }
        }
    }
}

/// The verdict a replica owes a dequeue request stamped `ts` once its clock
/// has merged `ts` into `merged`: unsafe exactly when the replica had
/// already witnessed an event the dequeuer's stamp does not cover (some
/// slot of `ts` is strictly below the merged clock), unless `ts` is the
/// all-zeros genesis stamp, which is never racy.
pub open spec fn deq_verdict_unsafe(ts: Seq<i32>, merged: Seq<i32>) -> bool {
    vc_below(ts, merged) && !vc_all_zero(ts)
}

impl Process {
    /// Handles the local start of an enqueue: bumps this process's own
    /// clock slot, restarts the acknowledgement count at one (the invoker
    /// counts itself), and asks the driver to fan the request out stamped
    /// with the new clock.
    fn handle_enq_invoke(&mut self, op: QueueOpReq) -> (r: OpNextAction)
        requires
            old(self).wf(),
            old(self).vector_clock@[old(self).index as int] < i32::MAX,
        ensures
            final(self).wf(),
            final(self).index == old(self).index,
            final(self).vector_clock@ == old(self).vector_clock@.update(
                old(self).index as int,
                (old(self).vector_clock@[old(self).index as int] + 1) as i32,
            ),
            final(self).enq_count == 1,
            final(self).local_queue == old(self).local_queue,
            final(self).lists == old(self).lists,
            r.message == ENQ_REQ,
            r.value == Some(op.value),
            r.invoker == old(self).index,
            r.ts@ == final(self).vector_clock@,
    {
        self.enq_count = 0;
        let idx = self.index as usize;
        let cur = self.vector_clock.0[idx];
        self.vector_clock.0[idx] = cur + 1;
        self.enq_count = 1;
        OpNextAction {
            message: ENQ_REQ,
            value: Some(op.value),
            invoker: self.index,
            ts: self.vector_clock.duplicate(),
        }
    }

    /// Handles the local start of a dequeue: bumps this process's own clock
    /// slot and asks the driver to fan the dequeue request out stamped with
    /// the new clock.
    fn handle_deq_invoke(&mut self, op: QueueOpReq) -> (r: OpNextAction)
        requires
            old(self).wf(),
            old(self).vector_clock@[old(self).index as int] < i32::MAX,
        ensures
            final(self).wf(),
            final(self).index == old(self).index,
            final(self).vector_clock@ == old(self).vector_clock@.update(
                old(self).index as int,
                (old(self).vector_clock@[old(self).index as int] + 1) as i32,
            ),
            final(self).enq_count == old(self).enq_count,
            final(self).local_queue == old(self).local_queue,
            final(self).lists == old(self).lists,
            r.message == DEQ_REQ,
            r.value == Some(op.value),
            r.invoker == old(self).index,
            r.ts@ == final(self).vector_clock@,
    {
        let idx = self.index as usize;
        let cur = self.vector_clock.0[idx];
        self.vector_clock.0[idx] = cur + 1;
        OpNextAction {
            message: DEQ_REQ,
            value: Some(op.value),
            invoker: self.index,
            ts: self.vector_clock.duplicate(),
        }
    }

    /// Handles an enqueue request from a peer: merges the request's stamp
    /// into the local clock, inserts the item into the sorted replica, then
    /// marks this process's own vote safe in every confirmation list whose
    /// dequeue stamp the merged clock now covers -- that dequeue can no
    /// longer be missing this enqueue from this replica's point of view.
    /// Answers with the acknowledgement owed to the sender.
    #[verifier::loop_isolation(false)]
    fn handle_enq_req(&mut self, op: QueueOpReq) -> (r: OpNextAction)
        requires
            old(self).wf(),
            op.timestamp@.len() == old(self).n(),
            !queue_has_ts(queue_view(old(self).local_queue@), op.timestamp@),
        ensures
            final(self).wf(),
            final(self).index == old(self).index,
            final(self).enq_count == old(self).enq_count,
            final(self).vector_clock@ == vc_merge(old(self).vector_clock@, op.timestamp@),
            queue_view(final(self).local_queue@) == queue_view(old(self).local_queue@).insert(
                num_items_lt(queue_view(old(self).local_queue@), op.timestamp@),
                QueueItemView { rank: op.sender, value: op.value, ts: op.timestamp@ },
            ),
            final(self).lists@.len() == old(self).lists@.len(),
            forall|i: int|
                0 <= i < old(self).lists@.len() ==> #[trigger] final(self).lists@[i].ts@ == old(self).lists@[i].ts@ && final(self).lists@[i].handled == old(self).lists@[i].handled,
            forall|i: int|
                0 <= i < old(self).lists@.len() && vc_below(
                    old(self).lists@[i].ts@,
                    vc_merge(old(self).vector_clock@, op.timestamp@),
                ) ==> #[trigger] final(self).lists@[i].response_list@ == old(self).lists@[i].response_list@.update(old(self).index as int, VOTE_SAFE),
            forall|i: int|
                0 <= i < old(self).lists@.len() && !vc_below(
                    old(self).lists@[i].ts@,
                    vc_merge(old(self).vector_clock@, op.timestamp@),
                ) ==> #[trigger] final(self).lists@[i].response_list@ == old(self).lists@[i].response_list@,
            r.message == ENQ_ACK,
            r.value == Some(op.value),
            r.invoker == op.sender,
            r.ts@ == op.timestamp@,
    {
        proof {
            assert(self.vector_clock@ == self.vector_clock.0@);
        }
        update_ts(&mut self.vector_clock.0, &op.timestamp.0);
        proof {
            assert(self.vector_clock@ == vc_merge(old(self).vector_clock@, op.timestamp@));
            assert(self.vector_clock@.len() == old(self).n());
        }
        let item = QueueItem { rank: op.sender, value: op.value, ts: op.timestamp.duplicate() };
        proof {
            assert(item@ == (QueueItemView { rank: op.sender, value: op.value, ts: op.timestamp@ }));
        }
        let ghost q_before = self.local_queue@;
        self.enqueue_local(item);
        proof {
            lemma_num_items_lt_bounds(queue_view(q_before), item.ts@);
            lemma_queue_view_insert(
                q_before,
                num_items_lt(queue_view(q_before), item.ts@),
                item,
            );
        }
        let ghost merged = self.vector_clock@;
        let ghost lists0 = self.lists@;
        let ghost q_mid = self.local_queue@;
        let n_rows = self.lists.len();
        let own = self.index as usize;
        let mut idx: usize = 0;
        while idx < n_rows
            invariant
                idx <= n_rows,
                self.wf(),
                self.index == old(self).index,
                self.enq_count == old(self).enq_count,
                self.local_queue@ == q_mid,
                self.lists@.len() == n_rows,
                lists0 == old(self).lists@,
                merged == self.vector_clock@,
                forall|i: int|
                    0 <= i < n_rows ==> #[trigger] self.lists@[i].ts@ == lists0[i].ts@
                        && self.lists@[i].handled == lists0[i].handled,
                forall|i: int|
                    0 <= i < idx && vc_below(lists0[i].ts@, merged)
                        ==> #[trigger] self.lists@[i].response_list@
                        == lists0[i].response_list@.update(old(self).index as int, VOTE_SAFE),
                forall|i: int|
                    0 <= i < idx && !vc_below(lists0[i].ts@, merged)
                        ==> #[trigger] self.lists@[i].response_list@ == lists0[i].response_list@,
                forall|i: int|
                    idx <= i < n_rows ==> #[trigger] self.lists@[i].response_list@
                        == lists0[i].response_list@,
                forall|i: int| 0 <= i < n_rows ==> cl_wf(#[trigger] self.lists@[i], self.n()),
            decreases n_rows - idx,
        {
            let verdict = compare_ts(&self.lists[idx].ts, &self.vector_clock.0);
            match verdict {
                ComparisonResult::Less => {
                    set_vote(&mut self.lists, idx, own, VOTE_SAFE);
                },
                ComparisonResult::StrictlyLess => {
                    set_vote(&mut self.lists, idx, own, VOTE_SAFE);
                },
                ComparisonResult::Greater => {},
            }
            idx = idx + 1;
        }
        OpNextAction {
            message: ENQ_ACK,
            value: Some(op.value),
            invoker: op.sender,
            ts: op.timestamp,
        }
    }

    /// Handles one acknowledgement of this process's own in-flight enqueue.
    /// When the count reaches the group size the enqueue is complete and
    /// the invoker finally inserts its own copy of the item. Nothing more
    /// is owed to any peer afterwards.
    fn handle_enq_ack(&mut self, op: QueueOpReq) -> (r: OpNextAction)
        requires
            old(self).wf(),
            old(self).enq_count + 1 == old(self).n() ==> op.timestamp@.len() == old(self).n()
                && !queue_has_ts(queue_view(old(self).local_queue@), op.timestamp@),
        ensures
            final(self).wf(),
            final(self).index == old(self).index,
            final(self).vector_clock == old(self).vector_clock,
            final(self).lists == old(self).lists,
            old(self).enq_count < old(self).n() ==> final(self).enq_count == old(self).enq_count
                + 1,
            old(self).enq_count == old(self).n() ==> final(self).enq_count == old(self).enq_count,
            old(self).enq_count + 1 == old(self).n() ==> queue_view(final(self).local_queue@)
                == queue_view(old(self).local_queue@).insert(
                num_items_lt(queue_view(old(self).local_queue@), op.timestamp@),
                QueueItemView { rank: old(self).index, value: op.value, ts: op.timestamp@ },
            ),
            old(self).enq_count + 1 != old(self).n() ==> final(self).local_queue == old(self).local_queue,
            r.message == NO_ACTION,
            r.value == Some(op.value),
            r.invoker == old(self).index,
            r.ts@ == op.timestamp@,
    {
        let n = self.vector_clock.0.len();
        let completing = (self.enq_count as usize) + 1 == n;
        if (self.enq_count as usize) < n {
            self.enq_count = self.enq_count + 1;
        }
        if completing {
            let item = QueueItem {
                rank: self.index,
                value: op.value,
                ts: op.timestamp.duplicate(),
            };
            proof {
                assert(item@ == (QueueItemView {
                    rank: old(self).index,
                    value: op.value,
                    ts: op.timestamp@,
                }));
            }
            let ghost q_before = self.local_queue@;
            self.enqueue_local(item);
            proof {
                lemma_num_items_lt_bounds(queue_view(q_before), item.ts@);
                lemma_queue_view_insert(
                    q_before,
                    num_items_lt(queue_view(q_before), item.ts@),
                    item,
                );
            }
        }
        OpNextAction {
            message: NO_ACTION,
            value: Some(op.value),
            invoker: self.index,
            ts: op.timestamp,
        }
    }

    /// Handles a dequeue request from a peer: merges the request's stamp
    /// into the local clock and answers with this replica's verdict --
    /// unsafe when the replica has witnessed an event the dequeuer's stamp
    /// does not cover (there may be an earlier enqueue the dequeuer
    /// missed), safe otherwise, and always safe for the all-zeros stamp.
    fn handle_deq_req(&mut self, op: QueueOpReq) -> (r: OpNextAction)
        requires
            old(self).wf(),
            op.timestamp@.len() == old(self).n(),
        ensures
            final(self).wf(),
            final(self).index == old(self).index,
            final(self).enq_count == old(self).enq_count,
            final(self).local_queue == old(self).local_queue,
            final(self).lists == old(self).lists,
            final(self).vector_clock@ == vc_merge(old(self).vector_clock@, op.timestamp@),
            r.message == (if deq_verdict_unsafe(
                op.timestamp@,
                vc_merge(old(self).vector_clock@, op.timestamp@),
            ) {
                UNSAFE
            } else {
                SAFE
            }),
            r.value == Some(op.value),
            r.invoker == op.sender,
            r.ts@ == op.timestamp@,
    {
        proof {
            assert(self.vector_clock@ == self.vector_clock.0@);
        }
        update_ts(&mut self.vector_clock.0, &op.timestamp.0);
        let verdict = compare_ts(&op.timestamp.0, &self.vector_clock.0);
        let racy = match verdict {
            ComparisonResult::Less => !contains_all_zeros(&op.timestamp.0),
            ComparisonResult::StrictlyLess => !contains_all_zeros(&op.timestamp.0),
            ComparisonResult::Greater => false,
        };
        OpNextAction {
            message: if racy {
                UNSAFE
            } else {
                SAFE
            },
            value: Some(op.value),
            invoker: op.sender,
            ts: op.timestamp,
        }
    }
}

/// All-pending vote vector for a group of `n` processes.
pub open spec fn zero_votes(n: int) -> Seq<i32> {
    Seq::new(n as nat, |i: int| crate::VOTE_PENDING)
}

/// The store once a row for `ts` is guaranteed to exist: unchanged if one
/// is already there, otherwise with a fresh all-pending row inserted at
/// the position the timestamp determines.
pub open spec fn rows_with_ts(m: Seq<ConfirmationListView>, ts: Seq<i32>, n: int) -> Seq<
    ConfirmationListView,
> {
    if row_has_ts(m, ts) {
        m
    } else {
        m.insert(
            num_rows_lt(m, ts),
            ConfirmationListView { votes: zero_votes(n), ts: ts, handled: false },
        )
    }
}

/// The store once `voter`'s verdict for the dequeue stamped `ts` is
/// recorded; a safe vote is never downgraded to unsafe.
pub open spec fn rows_record_vote(
    m: Seq<ConfirmationListView>,
    ts: Seq<i32>,
    voter: int,
    vote: i32,
) -> Seq<ConfirmationListView> {
    m.map_values(
        |row: ConfirmationListView|
            if row.ts == ts {
                ConfirmationListView {
                    votes: row.votes.update(
                        voter,
                        if vote == VOTE_UNSAFE && row.votes[voter] == VOTE_SAFE {
                            VOTE_SAFE
                        } else {
                            vote
                        },
                    ),
                    ts: row.ts,
                    handled: row.handled,
                }
            } else {
                row
            },
    )
}

/// The first row at or after `r` whose column `c` holds a verdict, on the
/// store's view.
pub open spec fn view_next_nonpending(m: Seq<ConfirmationListView>, r: int, c: int) -> int
    decreases m.len() - r,
{
    if r < 0 || r >= m.len() {
        m.len() as int
    } else if m[r].votes[c] != crate::VOTE_PENDING {
        r
    } else {
        view_next_nonpending(m, r + 1, c)
    }
}

/// The verdict slot `(r, c)` holds after the propagation pass, on the
/// store's view.
pub open spec fn view_propagated(m: Seq<ConfirmationListView>, r: int, c: int) -> i32 {
    let k = view_next_nonpending(m, r, c);
    if k < m.len() {
        m[k].votes[c]
    } else {
        crate::VOTE_PENDING
    }
}

/// The whole store after one propagation pass: every pending slot takes
/// the nearest verdict below it in its column.
pub open spec fn rows_propagate(m: Seq<ConfirmationListView>) -> Seq<ConfirmationListView> {
    Seq::new(
        m.len(),
        |r: int|
            ConfirmationListView {
                votes: Seq::new(m[r].votes.len(), |c: int| view_propagated(m, r, c)),
                ts: m[r].ts,
                handled: m[r].handled,
            },
    )
}

/// The first row at or after `r` that is full of votes and not yet
/// handled; the store's length if there is none.
pub open spec fn first_committable_from(m: Seq<ConfirmationListView>, r: int) -> int
    decreases m.len() - r,
{
    if r < 0 || r >= m.len() {
        m.len() as int
    } else if row_full(m[r].votes) && !m[r].handled {
        r
    } else {
        first_committable_from(m, r + 1)
    }
}

/// The first row that is full of votes and not yet handled: the next
/// dequeue that can commit.
pub open spec fn first_committable(m: Seq<ConfirmationListView>) -> int {
    first_committable_from(m, 0)
}

/// A vote vector with every unsafe verdict rewritten to safe.
pub open spec fn safened(votes: Seq<i32>) -> Seq<i32> {
    votes.map_values(
        |v: i32|
            if v == VOTE_UNSAFE {
                VOTE_SAFE
            } else {
                v
            },
    )
}

/// The store after the dequeue of row `k` commits: that row is marked
/// handled, and every unsafe vote in the rows after it is rewritten to
/// safe -- the commit resolved the race those votes reported.
pub open spec fn rows_after_commit(m: Seq<ConfirmationListView>, k: int) -> Seq<
    ConfirmationListView,
> {
    Seq::new(
        m.len(),
        |r: int|
            if r == k {
                ConfirmationListView { votes: m[r].votes, ts: m[r].ts, handled: true }
            } else if r > k {
                ConfirmationListView { votes: safened(m[r].votes), ts: m[r].ts, handled: m[r].handled }
            } else {
                m[r]
            },
    )
}

/// The full effect of one safe or unsafe vote message on the store's
/// votes, before any commit is looked for: the row is created if missing,
/// the vote recorded, and the propagation pass run.
pub open spec fn rows_after_vote(
    m: Seq<ConfirmationListView>,
    ts: Seq<i32>,
    voter: int,
    vote: i32,
    n: int,
) -> Seq<ConfirmationListView> {
    rows_propagate(rows_record_vote(rows_with_ts(m, ts, n), ts, voter, vote))
}

/// The exec-level next-nonpending search agrees with its view-level
/// pendant.
proof fn lemma_next_align(ls: Seq<ConfirmationList>, r: int, c: int)
    ensures
        crate::confirmation_list::next_nonpending(ls, r, c) == view_next_nonpending(
            lists_view(ls),
            r,
            c,
        ),
    decreases ls.len() - r,
{
    if r < 0 || r >= ls.len() {
    } else {
        assert(lists_view(ls)[r].votes == ls[r].response_list@);
        if ls[r].response_list@[c] != crate::VOTE_PENDING {
        } else {
            lemma_next_align(ls, r + 1, c);
        }
    }
}

/// Rows before a row that can commit never commit first.
pub proof fn lemma_fc_skip(m: Seq<ConfirmationListView>, i: int)
    requires
        0 <= i <= m.len(),
        forall|r: int| 0 <= r < i ==> !(row_full(#[trigger] m[r].votes) && !m[r].handled),
    ensures
        first_committable(m) == first_committable_from(m, i),
    decreases i,
{
    if i > 0 {
        lemma_fc_skip(m, i - 1);
    }
}

impl Process {
    /// The index of the confirmation list carrying exactly this timestamp,
    /// if one exists.
    pub fn find_confirmation_index(&self, ts: &VectorClock) -> (r: Option<usize>)
        requires
            self.wf(),
            ts@.len() == self.n(),
        ensures
            match r {
                Some(i) => i < self.lists@.len() && self.lists@[i as int].ts@ == ts@,
                None => !row_has_ts(lists_view(self.lists@), ts@),
            },
    {
        let n_rows = self.lists.len();
        let mut i: usize = 0;
        while i < n_rows
            invariant
                i <= n_rows,
                n_rows == self.lists@.len(),
                self.wf(),
                ts@.len() == self.n(),
                forall|j: int| 0 <= j < i ==> #[trigger] self.lists@[j].ts@ != ts@,
            decreases n_rows - i,
        {
            proof {
                assert(ts@ == ts.0@);
                assert(cl_wf(self.lists@[i as int], self.n()));
            }
            match compare_ts_ord(&ts.0, &self.lists[i].ts) {
                core::cmp::Ordering::Equal => {
                    return Some(i);
                },
                _ => {},
            }
            i = i + 1;
        }
        proof {
            if row_has_ts(lists_view(self.lists@), ts@) {
                let j = choose|j: int|
                    0 <= j < lists_view(self.lists@).len() && #[trigger] lists_view(
                        self.lists@,
                    )[j].ts == ts@;
                assert(self.lists@[j].ts@ == ts@);
                assert(false);
            }
        }
        None
    }
}

/// The next-nonpending search lands between its start and the store's
/// length.
proof fn lemma_view_next_bounds(m: Seq<ConfirmationListView>, r: int, c: int)
    requires
        0 <= r <= m.len(),
    ensures
        r <= view_next_nonpending(m, r, c) <= m.len(),
    decreases m.len() - r,
{
    if r < m.len() && m[r].votes[c] == crate::VOTE_PENDING {
        lemma_view_next_bounds(m, r + 1, c);
    }
}

impl Process {
    /// Handles one safe or unsafe vote for an in-flight dequeue: makes
    /// sure the dequeue has a confirmation list, records the vote (a safe
    /// vote is never downgraded to unsafe), propagates verdicts down to
    /// older pending slots, and then commits the first fully-voted
    /// not-yet-handled dequeue, if any. The committing row is marked
    /// handled, the queue entry at the index given by its number of unsafe
    /// votes is removed and returned -- explicit bottom if that index is
    /// past the end of the queue -- and unsafe votes in later rows are
    /// rewritten to safe. A vote arriving after a commit still mutates the
    /// vote vector but never re-commits a handled row.
    #[verifier::loop_isolation(false)]
    #[verifier::rlimit(100)]
    fn handle_safe_unsafe(&mut self, op: QueueOpReq) -> (r: OpNextAction)
        requires
            old(self).wf(),
            op.message == SAFE || op.message == UNSAFE,
            op.timestamp@.len() == old(self).n(),
            0 <= op.sender < old(self).n(),
        ensures
            final(self).wf(),
            final(self).index == old(self).index,
            final(self).vector_clock == old(self).vector_clock,
            final(self).enq_count == old(self).enq_count,
            r.message == op.message,
            r.invoker == old(self).index,
            r.ts@ == old(self).vector_clock@,
            ({
                let vote = if op.message == UNSAFE {
                    VOTE_UNSAFE
                } else {
                    VOTE_SAFE
                };
                let m3 = rows_after_vote(
                    lists_view(old(self).lists@),
                    op.timestamp@,
                    op.sender as int,
                    vote,
                    old(self).n(),
                );
                let k = first_committable(m3);
                &&& (k == m3.len() ==> lists_view(final(self).lists@) == m3 && final(self).local_queue == old(self).local_queue && r.value is None)
                &&& (k < m3.len() ==> ({
                    let pos = num_unsafe(m3[k].votes);
                    &&& lists_view(final(self).lists@) == rows_after_commit(m3, k)
                    &&& (pos < old(self).local_queue@.len() ==> final(self).local_queue@ == old(self).local_queue@.remove(pos) && r.value == Some(
                        old(self).local_queue@[pos].value,
                    ))
                    &&& (pos >= old(self).local_queue@.len() ==> final(self).local_queue == old(self).local_queue && r.value is None)
                }))
            }),
    {
        let ghost n = old(self).n();
        let ghost ts = op.timestamp@;
        let ghost m0 = lists_view(old(self).lists@);
        let vote_val: i32 = if op.message == UNSAFE {
            VOTE_UNSAFE
        } else {
            VOTE_SAFE
        };

        // Make sure the dequeue has a confirmation list.
        let found = self.find_confirmation_index(&op.timestamp);
        match found {
            Some(i) => {
                proof {
                    assert(lists_view(self.lists@)[i as int].ts == ts);
                    assert(row_has_ts(m0, ts));
                    assert(lists_view(self.lists@) == rows_with_ts(m0, ts, n));
                }
            },
            None => {
                let fresh = ConfirmationList::new(op.timestamp.duplicate().0);
                proof {
                    assert(votes_wf(fresh.response_list@));
                    assert(cl_wf(fresh, n));
                }
                self.add_confirmation_list(fresh);
                proof {
                    lemma_num_rows_lt_bounds(m0, ts);
                    lemma_lists_view_insert(old(self).lists@, num_rows_lt(m0, ts), fresh);
                    assert(fresh@ =~= (ConfirmationListView {
                        votes: zero_votes(n),
                        ts: ts,
                        handled: false,
                    }));
                    assert(lists_view(self.lists@) =~= rows_with_ts(m0, ts, n));
                    m0.insert_ensures(
                        num_rows_lt(m0, ts),
                        ConfirmationListView { votes: zero_votes(n), ts: ts, handled: false },
                    );
                    assert(rows_with_ts(m0, ts, n)[num_rows_lt(m0, ts)].ts == ts);
                    assert(row_has_ts(lists_view(self.lists@), ts));
                }
            },
        }
        let ghost m1 = lists_view(self.lists@);

        // Record the vote, never downgrading a safe vote.
        let idx = match self.find_confirmation_index(&op.timestamp) {
            Some(i) => i,
            None => {
                proof {
                    assert(false);
                }
                vstd::pervasive::unreached()
            },
        };
        proof {
            assert forall|i: int| 0 <= i < m1.len() && i != idx implies #[trigger] m1[i].ts
                != ts by {
                if m1[i].ts == ts {
                    assert(self.lists@[i].ts@ == ts);
                    assert(self.lists@[idx as int].ts@ == ts);
                    crate::compare_ts::lemma_lex_irreflexive(ts);
                    if i < idx {
                        assert(lex_lt(self.lists@[i].ts@, self.lists@[idx as int].ts@));
                    } else {
                        assert(lex_lt(self.lists@[idx as int].ts@, self.lists@[i].ts@));
                    }
                }
            }
        }
        let ghost ls1 = self.lists@;
        let sender = op.sender as usize;
        let cur = self.lists[idx].response_list[sender];
        if !(cur == VOTE_SAFE && vote_val == VOTE_UNSAFE) {
            set_vote(&mut self.lists, idx, sender, vote_val);
        }
        proof {
            let m2t = rows_record_vote(m1, ts, op.sender as int, vote_val);
            assert forall|i: int| 0 <= i < m1.len() implies lists_view(self.lists@)[i] == m2t[i] by {
                if i == idx {
                    if cur == VOTE_SAFE && vote_val == VOTE_UNSAFE {
                        assert(m1[i].votes.update(op.sender as int, VOTE_SAFE) =~= m1[i].votes);
                        assert(lists_view(self.lists@)[i] =~= m2t[i]);
                    } else {
                        assert(lists_view(self.lists@)[i] =~= m2t[i]);
                    }
                } else {
                    assert(cl_eq(self.lists@[i], ls1[i]));
                    assert(lists_view(self.lists@)[i] =~= m2t[i]);
                }
            }
            assert(lists_view(self.lists@) =~= m2t);
            assert forall|i: int| 0 <= i < self.lists@.len() implies cl_wf(
                #[trigger] self.lists@[i],
                n,
            ) by {
                if i == idx {
                    assert(votes_wf(self.lists@[i].response_list@));
                }
            }
            assert(self.wf());
        }
        let ghost m2 = lists_view(self.lists@);
        let ghost ls2 = self.lists@;

        // Propagate verdicts down to older pending slots.
        crate::confirmation_list::propagate_earlier_responses(&mut self.lists);
        proof {
            let m3t = rows_propagate(m2);
            assert(ls2[0].response_list@.len() == n);
            assert forall|rr: int, c: int|
                0 <= rr < m2.len() && 0 <= c < n implies #[trigger] self.lists@[rr].response_list@[c]
                == view_propagated(m2, rr, c) by {
                lemma_next_align(ls2, rr, c);
                assert(self.lists@[rr].response_list@[c]
                    == crate::confirmation_list::propagated_vote(ls2, rr, c));
                lemma_view_next_bounds(m2, rr, c);
                let k = view_next_nonpending(m2, rr, c);
                if k < m2.len() {
                    assert(m2[k].votes == ls2[k].response_list@);
                }
            }
            assert forall|rr: int| 0 <= rr < m2.len() implies lists_view(self.lists@)[rr]
                == m3t[rr] by {
                assert forall|c: int| 0 <= c < n implies #[trigger] lists_view(
                    self.lists@,
                )[rr].votes[c] == m3t[rr].votes[c] by {
                    assert(self.lists@[rr].response_list@[c] == view_propagated(m2, rr, c));
                }
                assert(lists_view(self.lists@)[rr].votes =~= m3t[rr].votes);
                assert(lists_view(self.lists@)[rr] =~= m3t[rr]);
            }
            assert(lists_view(self.lists@) =~= m3t);
            assert forall|i: int| 0 <= i < self.lists@.len() implies cl_wf(
                #[trigger] self.lists@[i],
                n,
            ) by {
                assert forall|c: int|
                    0 <= c < self.lists@[i].response_list@.len() implies crate::VOTE_PENDING
                    <= #[trigger] self.lists@[i].response_list@[c] <= VOTE_UNSAFE by {
                    lemma_view_next_bounds(m2, i, c);
                    let k = view_next_nonpending(m2, i, c);
                    if k < m2.len() {
                        assert(m2[k].votes == ls2[k].response_list@);
                        assert(votes_wf(ls2[k].response_list@));
                    }
                    assert(self.lists@[i].response_list@[c] == view_propagated(m2, i, c));
                }
                assert(votes_wf(self.lists@[i].response_list@));
            }
            assert forall|i: int, j: int| 0 <= i < j < self.lists@.len() implies #[trigger] lex_lt(
                self.lists@[i].ts@,
                self.lists@[j].ts@,
            ) by {
                assert(lex_lt(ls2[i].ts@, ls2[j].ts@));
            }
            assert(self.wf());
        }
        let ghost m3 = lists_view(self.lists@);
        let ghost ls3 = self.lists@;
        let ghost q0 = old(self).local_queue@;

        // Commit the first fully-voted dequeue that has not been handled.
        let n_rows = self.lists.len();
        let mut i: usize = 0;
        while i < n_rows
            invariant
                i <= n_rows,
                n_rows == ls3.len(),
                self.lists@ == ls3,
                self.local_queue == old(self).local_queue,
                self.index == old(self).index,
                self.vector_clock == old(self).vector_clock,
                self.enq_count == old(self).enq_count,
                self.wf(),
                m3 == lists_view(ls3),
                forall|rr: int|
                    0 <= rr < i ==> !(row_full(#[trigger] m3[rr].votes) && !m3[rr].handled),
            decreases n_rows - i,
        {
            let full = self.lists[i].all_voted();
            if full && !self.lists[i].handled {
                proof {
                    assert(m3[i as int].votes == self.lists@[i as int].response_list@);
                    assert(row_full(m3[i as int].votes) && !m3[i as int].handled);
                    lemma_fc_skip(m3, i as int);
                    assert(first_committable(m3) == i);
                }
                crate::confirmation_list::set_handled(&mut self.lists, i);
                let pos = self.lists[i].count_unsafes();
                proof {
                    assert(self.lists@[i as int].response_list@ == ls3[i as int].response_list@);
                    assert(pos == num_unsafe(m3[i as int].votes));
                }
                let deq_val: Option<u16> = if pos < self.local_queue.len() {
                    let v = self.local_queue[pos].value;
                    proof {
                        q0.remove_ensures(pos as int);
                    }
                    self.local_queue.remove(pos);
                    proof {
                        let q1 = self.local_queue@;
                        assert forall|p: int, q: int| 0 <= p < q < q1.len() implies #[trigger]
                        lex_lt(q1[p].ts@, q1[q].ts@) by {
                            if q < pos {
                                assert(q1[p] == q0[p]);
                                assert(q1[q] == q0[q]);
                            } else if p < pos {
                                assert(q1[p] == q0[p]);
                                assert(q1[q] == q0[q + 1]);
                            } else {
                                assert(q1[p] == q0[p + 1]);
                                assert(q1[q] == q0[q + 1]);
                            }
                        }
                        assert forall|p: int| 0 <= p < q1.len() implies #[trigger] q1[p].ts@.len()
                            == n by {
                            if p < pos {
                                assert(q1[p] == q0[p]);
                            } else {
                                assert(q1[p] == q0[p + 1]);
                            }
                        }
                    }
                    Some(v)
                } else {
                    None
                };
                let ghost ls4 = self.lists@;
                crate::confirmation_list::update_unsafes(&mut self.lists, i + 1);
                proof {
                    let target = rows_after_commit(m3, i as int);
                    assert forall|rr: int| 0 <= rr < n_rows implies lists_view(self.lists@)[rr]
                        == target[rr] by {
                        if rr < i {
                            assert(crate::confirmation_list::cl_eq(ls4[rr], ls3[rr]));
                            assert(crate::confirmation_list::cl_eq(self.lists@[rr], ls4[rr]));
                            assert(lists_view(self.lists@)[rr] =~= target[rr]);
                        } else if rr == i {
                            assert(crate::confirmation_list::cl_eq(self.lists@[rr], ls4[rr]));
                            assert(lists_view(self.lists@)[rr] =~= target[rr]);
                        } else {
                            assert(crate::confirmation_list::cl_eq(ls4[rr], ls3[rr]));
                            assert(self.lists@[rr].ts@ == ls4[rr].ts@);
                            assert(self.lists@[rr].handled == ls4[rr].handled);
                            assert forall|c: int|
                                0 <= c < m3[rr].votes.len() implies #[trigger] self.lists@[rr].response_list@[c]
                                == safened(m3[rr].votes)[c] by {
                                assert(self.lists@[rr].response_list@[c] == (
                                if ls4[rr].response_list@[c] == VOTE_UNSAFE {
                                    VOTE_SAFE
                                } else {
                                    ls4[rr].response_list@[c]
                                }));
                            }
                            assert(self.lists@[rr].response_list@ =~= safened(m3[rr].votes));
                            assert(lists_view(self.lists@)[rr] =~= target[rr]);
                        }
                    }
                    assert(lists_view(self.lists@) =~= target);
                    assert forall|p: int| 0 <= p < self.lists@.len() implies cl_wf(
                        #[trigger] self.lists@[p],
                        n,
                    ) by {
                        assert(votes_wf(ls4[p].response_list@));
                        if p > i {
                            assert forall|c: int|
                                0 <= c < self.lists@[p].response_list@.len() implies
                                crate::VOTE_PENDING <= #[trigger] self.lists@[p].response_list@[c]
                                <= VOTE_UNSAFE by {
                                assert(self.lists@[p].response_list@[c] == (
                                if ls4[p].response_list@[c] == VOTE_UNSAFE {
                                    VOTE_SAFE
                                } else {
                                    ls4[p].response_list@[c]
                                }));
                            }
                            assert(votes_wf(self.lists@[p].response_list@));
                        } else {
                            assert(crate::confirmation_list::cl_eq(self.lists@[p], ls4[p]));
                        }
                    }
                    assert forall|p: int, q: int| 0 <= p < q < self.lists@.len() implies
                    #[trigger] lex_lt(self.lists@[p].ts@, self.lists@[q].ts@) by {
                        assert(self.lists@[p].ts@ == ls3[p].ts@);
                        assert(self.lists@[q].ts@ == ls3[q].ts@);
                    }
                    assert(self.wf());
                }
                return OpNextAction {
                    message: op.message,
                    value: deq_val,
                    invoker: self.index,
                    ts: self.vector_clock.duplicate(),
                };
            }
            proof {
                assert(m3[i as int].votes == self.lists@[i as int].response_list@);
            }
            i = i + 1;
        }
        proof {
            lemma_fc_skip(m3, n_rows as int);
        }
        OpNextAction {
            message: op.message,
            value: None,
            invoker: self.index,
            ts: self.vector_clock.duplicate(),
        }
    }
}

/// The inputs on which the state machine refuses to run: an unknown
/// message kind, a clock slot that cannot be bumped any further, a stamp
/// of the wrong width, a voter rank outside the group, or an insertion
/// that would duplicate a timestamp already in the replica (invariant L1).
pub open spec fn op_rejected(s: Process, op: QueueOpReq) -> bool {
    if op.message == ENQ_INVOKE || op.message == DEQ_INVOKE {
        s.vector_clock@[s.index as int] == i32::MAX
    } else if op.message == ENQ_REQ {
        op.timestamp@.len() != s.n() || !(0 <= op.sender < s.n()) || queue_has_ts(
            queue_view(s.local_queue@),
            op.timestamp@,
        )
    } else if op.message == ENQ_ACK {
        s.enq_count + 1 == s.n() && (op.timestamp@.len() != s.n() || queue_has_ts(
            queue_view(s.local_queue@),
            op.timestamp@,
        ))
    } else if op.message == DEQ_REQ {
        op.timestamp@.len() != s.n()
    } else if op.message == SAFE || op.message == UNSAFE {
        op.timestamp@.len() != s.n() || !(0 <= op.sender < s.n())
    } else {
        true
    }
}

impl Process {
    /// True when some item of the local queue already carries exactly this
    /// timestamp.
    pub fn queue_contains_ts(&self, ts: &VectorClock) -> (r: bool)
        requires
            self.wf(),
            ts@.len() == self.n(),
        ensures
            r <==> queue_has_ts(queue_view(self.local_queue@), ts@),
    {
        let n_items = self.local_queue.len();
        let mut i: usize = 0;
        while i < n_items
            invariant
                i <= n_items,
                n_items == self.local_queue@.len(),
                self.wf(),
                ts@.len() == self.n(),
                forall|j: int| 0 <= j < i ==> #[trigger] self.local_queue@[j].ts@ != ts@,
            decreases n_items - i,
        {
            proof {
                assert(ts@ == ts.0@);
                assert(self.local_queue@[i as int].ts@ == self.local_queue@[i as int].ts.0@);
            }
            match compare_ts_ord(&ts.0, &self.local_queue[i].ts.0) {
                core::cmp::Ordering::Equal => {
                    proof {
                        assert(queue_view(self.local_queue@)[i as int].ts == ts@);
                    }
                    return true;
                },
                _ => {},
            }
            i = i + 1;
        }
        proof {
            if queue_has_ts(queue_view(self.local_queue@), ts@) {
                let j = choose|j: int|
                    0 <= j < queue_view(self.local_queue@).len() && #[trigger] queue_view(
                        self.local_queue@,
                    )[j].ts == ts@;
                assert(self.local_queue@[j].ts@ == ts@);
                assert(false);
            }
        }
        false
    }

    /// Consumes one protocol message and returns the next action the
    /// driver should take on this process's behalf, or refuses the message
    /// as a protocol-invariant violation, leaving the state untouched.
    /// After any accepted message every clock slot is at least what it was
    /// before (clocks are monotone), and a confirmation list that was
    /// handled stays handled.
    pub fn handle_queue_op(&mut self, op: QueueOpReq) -> (r: Result<OpNextAction, ProtocolError>)
        requires
            old(self).wf(),
        ensures
            final(self).wf(),
            final(self).index == old(self).index,
            final(self).n() == old(self).n(),
            forall|i: int|
                0 <= i < old(self).n() ==> #[trigger] final(self).vector_clock@[i] >= old(self).vector_clock@[i],
            r is Err <==> op_rejected(*old(self), op),
            r is Err ==> *final(self) == *old(self) && r == Err::<OpNextAction, ProtocolError>(
                ProtocolError::InvariantViolation,
            ),
            op.message == ENQ_INVOKE && !op_rejected(*old(self), op) ==> ({
                &&& final(self).vector_clock@ == old(self).vector_clock@.update(
                    old(self).index as int,
                    (old(self).vector_clock@[old(self).index as int] + 1) as i32,
                )
                &&& final(self).enq_count == 1
                &&& final(self).local_queue == old(self).local_queue
                &&& final(self).lists == old(self).lists
                &&& r matches Ok(a) && a.message == ENQ_REQ && a.value == Some(op.value)
                    && a.invoker == old(self).index && a.ts@ == final(self).vector_clock@
            }),
            op.message == DEQ_INVOKE && !op_rejected(*old(self), op) ==> ({
                &&& final(self).vector_clock@ == old(self).vector_clock@.update(
                    old(self).index as int,
                    (old(self).vector_clock@[old(self).index as int] + 1) as i32,
                )
                &&& final(self).enq_count == old(self).enq_count
                &&& final(self).local_queue == old(self).local_queue
                &&& final(self).lists == old(self).lists
                &&& r matches Ok(a) && a.message == DEQ_REQ && a.value == Some(op.value)
                    && a.invoker == old(self).index && a.ts@ == final(self).vector_clock@
            }),
            op.message == ENQ_REQ && !op_rejected(*old(self), op) ==> ({
                let merged = vc_merge(old(self).vector_clock@, op.timestamp@);
                &&& final(self).vector_clock@ == merged
                &&& final(self).enq_count == old(self).enq_count
                &&& queue_view(final(self).local_queue@) == queue_view(
                    old(self).local_queue@,
                ).insert(
                    num_items_lt(queue_view(old(self).local_queue@), op.timestamp@),
                    QueueItemView { rank: op.sender, value: op.value, ts: op.timestamp@ },
                )
                &&& final(self).lists@.len() == old(self).lists@.len()
                &&& forall|i: int|
                    0 <= i < old(self).lists@.len() ==> #[trigger] final(self).lists@[i].ts@
                        == old(self).lists@[i].ts@ && final(self).lists@[i].handled == old(self).lists@[i].handled
                &&& forall|i: int|
                    0 <= i < old(self).lists@.len() && vc_below(old(self).lists@[i].ts@, merged)
                        ==> #[trigger] final(self).lists@[i].response_list@ == old(self).lists@[i].response_list@.update(old(self).index as int, VOTE_SAFE)
                &&& forall|i: int|
                    0 <= i < old(self).lists@.len() && !vc_below(old(self).lists@[i].ts@, merged)
                        ==> #[trigger] final(self).lists@[i].response_list@ == old(self).lists@[i].response_list@
                &&& r matches Ok(a) && a.message == ENQ_ACK && a.value == Some(op.value)
                    && a.invoker == op.sender && a.ts@ == op.timestamp@
            }),
            op.message == ENQ_ACK && !op_rejected(*old(self), op) ==> ({
                &&& final(self).vector_clock == old(self).vector_clock
                &&& final(self).lists == old(self).lists
                &&& (old(self).enq_count < old(self).n() ==> final(self).enq_count == old(self).enq_count + 1)
                &&& (old(self).enq_count == old(self).n() ==> final(self).enq_count == old(self).enq_count)
                &&& (old(self).enq_count + 1 == old(self).n() ==> queue_view(
                    final(self).local_queue@,
                ) == queue_view(old(self).local_queue@).insert(
                    num_items_lt(queue_view(old(self).local_queue@), op.timestamp@),
                    QueueItemView { rank: old(self).index, value: op.value, ts: op.timestamp@ },
                ))
                &&& (old(self).enq_count + 1 != old(self).n() ==> final(self).local_queue == old(self).local_queue)
                &&& r matches Ok(a) && a.message == NO_ACTION && a.value == Some(op.value)
                    && a.invoker == old(self).index && a.ts@ == op.timestamp@
            }),
            op.message == DEQ_REQ && !op_rejected(*old(self), op) ==> ({
                let merged = vc_merge(old(self).vector_clock@, op.timestamp@);
                &&& final(self).vector_clock@ == merged
                &&& final(self).enq_count == old(self).enq_count
                &&& final(self).local_queue == old(self).local_queue
                &&& final(self).lists == old(self).lists
                &&& r matches Ok(a) && a.message == (if deq_verdict_unsafe(op.timestamp@, merged) {
                    UNSAFE
                } else {
                    SAFE
                }) && a.value == Some(op.value) && a.invoker == op.sender && a.ts@
                    == op.timestamp@
            }),
            (op.message == SAFE || op.message == UNSAFE) && !op_rejected(*old(self), op) ==> ({
                let vote = if op.message == UNSAFE {
                    VOTE_UNSAFE
                } else {
                    VOTE_SAFE
                };
                let m3 = rows_after_vote(
                    lists_view(old(self).lists@),
                    op.timestamp@,
                    op.sender as int,
                    vote,
                    old(self).n(),
                );
                let k = first_committable(m3);
                &&& final(self).vector_clock == old(self).vector_clock
                &&& final(self).enq_count == old(self).enq_count
                &&& r matches Ok(a) && a.message == op.message && a.invoker == old(self).index
                    && a.ts@ == old(self).vector_clock@
                &&& (k == m3.len() ==> lists_view(final(self).lists@) == m3 && final(self).local_queue == old(self).local_queue && (r matches Ok(a) && a.value is None))
                &&& (k < m3.len() ==> ({
                    let pos = num_unsafe(m3[k].votes);
                    &&& lists_view(final(self).lists@) == rows_after_commit(m3, k)
                    &&& (pos < old(self).local_queue@.len() ==> final(self).local_queue@ == old(self).local_queue@.remove(pos) && (r matches Ok(a) && a.value == Some(
                        old(self).local_queue@[pos].value,
                    )))
                    &&& (pos >= old(self).local_queue@.len() ==> final(self).local_queue == old(self).local_queue && (r matches Ok(a) && a.value is None))
                }))
            }),
    {
        let n_usize = self.vector_clock.0.len();
        if op.message == ENQ_INVOKE || op.message == DEQ_INVOKE {
            let idx = self.index as usize;
            if self.vector_clock.0[idx] == i32::MAX {
                return Err(ProtocolError::InvariantViolation);
            }
            if op.message == ENQ_INVOKE {
                Ok(self.handle_enq_invoke(op))
            } else {
                Ok(self.handle_deq_invoke(op))
            }
        } else if op.message == ENQ_REQ {
            if op.timestamp.0.len() != n_usize || op.sender < 0 || op.sender >= n_usize as i32 {
                return Err(ProtocolError::InvariantViolation);
            }
            if self.queue_contains_ts(&op.timestamp) {
                return Err(ProtocolError::InvariantViolation);
            }
            let a = self.handle_enq_req(op);
            proof {
                assert forall|i: int| 0 <= i < old(self).n() implies #[trigger] self.vector_clock@[i]
                    >= old(self).vector_clock@[i] by {
                    assert(self.vector_clock@[i] == vc_merge(
                        old(self).vector_clock@,
                        op.timestamp@,
                    )[i]);
                }
            }
            Ok(a)
        } else if op.message == ENQ_ACK {
            if (self.enq_count as usize) + 1 == n_usize {
                if op.timestamp.0.len() != n_usize {
                    return Err(ProtocolError::InvariantViolation);
                }
                if self.queue_contains_ts(&op.timestamp) {
                    return Err(ProtocolError::InvariantViolation);
                }
            }
            Ok(self.handle_enq_ack(op))
        } else if op.message == DEQ_REQ {
            if op.timestamp.0.len() != n_usize {
                return Err(ProtocolError::InvariantViolation);
            }
            let a = self.handle_deq_req(op);
            proof {
                assert forall|i: int| 0 <= i < old(self).n() implies #[trigger] self.vector_clock@[i]
                    >= old(self).vector_clock@[i] by {
                    assert(self.vector_clock@[i] == vc_merge(
                        old(self).vector_clock@,
                        op.timestamp@,
                    )[i]);
                }
            }
            Ok(a)
        } else if op.message == SAFE || op.message == UNSAFE {
            if op.timestamp.0.len() != n_usize || op.sender < 0 || op.sender >= n_usize as i32 {
                return Err(ProtocolError::InvariantViolation);
            }
            Ok(self.handle_safe_unsafe(op))
        } else {
            Err(ProtocolError::InvariantViolation)
        }
    }
}

/// Some confirmation list carries this timestamp and is already handled.
pub open spec fn row_ts_handled(m: Seq<ConfirmationListView>, t: Seq<i32>) -> bool {
    exists|i: int| 0 <= i < m.len() && #[trigger] m[i].ts == t && m[i].handled
}

/// Unique timestamps: in a well-formed replica no two queue items carry
/// the same timestamp. Replicas that have converged hold identical
/// queues, so no two committed items share a timestamp across replicas
/// either.
pub proof fn lemma_unique_timestamps(p: Process)
    requires
        p.wf(),
    ensures
        forall|i: int, j: int|
            #![trigger p.local_queue@[i].ts@, p.local_queue@[j].ts@]
            0 <= i < j < p.local_queue@.len() ==> p.local_queue@[i].ts@ != p.local_queue@[j].ts@,
{
    assert forall|i: int, j: int|
        #![trigger p.local_queue@[i].ts@, p.local_queue@[j].ts@]
        0 <= i < j < p.local_queue@.len() implies p.local_queue@[i].ts@
        != p.local_queue@[j].ts@ by {
        assert(lex_lt(p.local_queue@[i].ts@, p.local_queue@[j].ts@));
        crate::compare_ts::lemma_lex_irreflexive(p.local_queue@[j].ts@);
    }
}

/// At most one confirmation list exists per timestamp (invariant C1):
/// the store is strictly sorted by the lexicographic order, so no two
/// rows can carry the same stamp. Vote recording, propagation and commit
/// bookkeeping never touch a row's timestamp, so they all preserve this.
pub proof fn lemma_unique_list_timestamps(p: Process)
    requires
        p.wf(),
    ensures
        forall|i: int, j: int|
            #![trigger p.lists@[i].ts@, p.lists@[j].ts@]
            0 <= i < j < p.lists@.len() ==> p.lists@[i].ts@ != p.lists@[j].ts@,
{
    assert forall|i: int, j: int|
        #![trigger p.lists@[i].ts@, p.lists@[j].ts@]
        0 <= i < j < p.lists@.len() implies p.lists@[i].ts@ != p.lists@[j].ts@ by {
        assert(lex_lt(p.lists@[i].ts@, p.lists@[j].ts@));
        crate::compare_ts::lemma_lex_irreflexive(p.lists@[j].ts@);
    }
}

/// FIFO per originator: an originator bumps its own clock slot for every
/// operation it invokes while no slot of its clock ever decreases, so of
/// two items it enqueued, the earlier one carries a stamp that is
/// slotwise at most the later one's and differs from it. In a well-formed
/// replica that item then sits strictly earlier, and dequeues, which
/// remove at the committed head, return the originator's values in the
/// order it enqueued them.
pub proof fn lemma_fifo_per_originator(p: Process, i: int, j: int)
    requires
        p.wf(),
        0 <= i < p.local_queue@.len(),
        0 <= j < p.local_queue@.len(),
        p.local_queue@[i].rank == p.local_queue@[j].rank,
        vc_le(p.local_queue@[i].ts@, p.local_queue@[j].ts@),
        p.local_queue@[i].ts@ != p.local_queue@[j].ts@,
    ensures
        i < j,
{
    crate::compare_ts::lemma_le_and_diff_implies_lex_lt(
        p.local_queue@[i].ts@,
        p.local_queue@[j].ts@,
    );
    crate::compare_ts::lemma_lex_irreflexive(p.local_queue@[i].ts@);
    if j < i {
        assert(lex_lt(p.local_queue@[j].ts@, p.local_queue@[i].ts@));
        crate::compare_ts::lemma_lex_asymmetric(p.local_queue@[i].ts@, p.local_queue@[j].ts@);
    }
}

/// Safe-vote monotonicity: once the dequeue stamped `t` has been handled,
/// it is still handled after any later vote message has been consumed and
/// after any later commit's bookkeeping. A late vote may still mutate the
/// row's vote vector, but the state machine only ever commits -- and only
/// ever removes a queue entry for -- a row that is not yet handled, so the
/// decision made for `t` (its head index and returned value) is final.
pub proof fn lemma_commit_decision_stable(
    m: Seq<ConfirmationListView>,
    ts: Seq<i32>,
    voter: int,
    vote: i32,
    n: int,
    k: int,
    t: Seq<i32>,
)
    requires
        row_ts_handled(m, t),
    ensures
        row_ts_handled(rows_after_vote(m, ts, voter, vote, n), t),
        row_ts_handled(rows_after_commit(rows_after_vote(m, ts, voter, vote, n), k), t),
{
    let i0 = choose|i: int| 0 <= i < m.len() && #[trigger] m[i].ts == t && m[i].handled;
    let m1 = rows_with_ts(m, ts, n);
    let pos = num_rows_lt(m, ts);
    let i1: int = if row_has_ts(m, ts) {
        i0
    } else if i0 < pos {
        i0
    } else {
        i0 + 1
    };
    if !row_has_ts(m, ts) {
        lemma_num_rows_lt_bounds(m, ts);
        let fresh = ConfirmationListView { votes: zero_votes(n), ts: ts, handled: false };
        m.insert_ensures(pos, fresh);
        if i0 < pos {
            assert(m1[i0] == m[i0]);
        } else {
            assert(m.insert(pos, fresh)[i0 + 1] == m[i0]);
        }
    }
    assert(0 <= i1 < m1.len() && m1[i1].ts == t && m1[i1].handled);
    let m2 = rows_record_vote(m1, ts, voter, vote);
    assert(m2[i1].ts == t && m2[i1].handled);
    let m3 = rows_propagate(m2);
    assert(m3[i1].ts == t && m3[i1].handled);
    assert(row_ts_handled(m3, t));
    let mc = rows_after_commit(m3, k);
    assert(mc[i1].ts == t && mc[i1].handled);
    assert(row_ts_handled(mc, t));
}

/// Bottom on empty: when a dequeue commits, its row is marked handled
/// whatever happens to the queue; the state machine's contract adds that
/// a committed head index at or past the replica's length leaves the
/// queue untouched and returns the explicit bottom.
pub proof fn lemma_bottom_on_empty(m: Seq<ConfirmationListView>, k: int)
    requires
        0 <= k < m.len(),
    ensures
        rows_after_commit(m, k)[k].handled,
        rows_after_commit(m, k)[k].ts == m[k].ts,
{
}

/// The vote vector of a dequeue that `upto` ranks have confirmed so far,
/// in rank order: safe votes below `upto`, pending above.
pub open spec fn wave_votes(upto: int, n: int) -> Seq<i32> {
    Seq::new(n as nat, |c: int| if c < upto { VOTE_SAFE } else { crate::VOTE_PENDING })
}

/// No vote vector without an unsafe verdict counts any.
pub proof fn lemma_num_unsafe_none(votes: Seq<i32>)
    requires
        forall|c: int| 0 <= c < votes.len() ==> #[trigger] votes[c] != VOTE_UNSAFE,
    ensures
        num_unsafe(votes) == 0,
    decreases votes.len(),
{
    if votes.len() > 0 {
        lemma_num_unsafe_none(votes.drop_last());
    }
}

/// One broadcast step of a quiescent dequeue, evaluated on the vote
/// model: when every older row is handled and full and sorts below the
/// dequeue's stamp, and the dequeue's own row (present from the first
/// vote on) holds safe votes from the first `s` ranks, then consuming the
/// safe vote of rank `s` just extends that row by one safe vote; the row
/// can commit only at the last rank, with zero unsafe votes, and the
/// commit's bookkeeping marks exactly that row handled.
pub proof fn lemma_dequeue_wave(prefix: Seq<ConfirmationListView>, cur: Seq<ConfirmationListView>, ts: Seq<i32>, s: int, n: int)
    requires
        1 <= n,
        0 <= s < n,
        ts.len() == n,
        forall|r: int|
            0 <= r < prefix.len() ==> (#[trigger] prefix[r]).handled && row_full(prefix[r].votes)
                && lex_lt(prefix[r].ts, ts),
        cur == if s == 0 {
            prefix
        } else {
            prefix.push(ConfirmationListView { votes: wave_votes(s, n), ts: ts, handled: false })
        },
    ensures
        rows_after_vote(cur, ts, s, VOTE_SAFE, n) == prefix.push(
            ConfirmationListView { votes: wave_votes(s + 1, n), ts: ts, handled: false },
        ),
        first_committable(rows_after_vote(cur, ts, s, VOTE_SAFE, n)) == (if s + 1 == n {
            prefix.len() as int
        } else {
            prefix.len() + 1int
        }),
        s + 1 == n ==> num_unsafe(
            rows_after_vote(cur, ts, s, VOTE_SAFE, n)[prefix.len() as int].votes,
        ) == 0 && rows_after_commit(rows_after_vote(cur, ts, s, VOTE_SAFE, n), prefix.len() as int)
            == prefix.push(ConfirmationListView { votes: wave_votes(n, n), ts: ts, handled: true }),
{
    let row_s = ConfirmationListView { votes: wave_votes(s, n), ts: ts, handled: false };
    let row_s1 = ConfirmationListView { votes: wave_votes(s + 1, n), ts: ts, handled: false };
    assert forall|r: int| 0 <= r < prefix.len() implies (#[trigger] prefix[r]).ts != ts by {
        crate::compare_ts::lemma_lex_irreflexive(ts);
    }
    // the row exists after step one of the chain
    let m1 = rows_with_ts(cur, ts, n);
    if s == 0 {
        assert(!row_has_ts(cur, ts));
        assert forall|r: int| 0 <= r < cur.len() implies lex_lt((#[trigger] cur[r]).ts, ts) by {}
        lemma_num_rows_split(cur, ts, cur.len() as int);
        assert(num_rows_lt(cur, ts) == cur.len());
        cur.insert_ensures(cur.len() as int, ConfirmationListView { votes: zero_votes(n), ts: ts, handled: false });
        assert(zero_votes(n) =~= wave_votes(0, n));
        assert(m1 =~~= prefix.push(row_s));
    } else {
        assert(cur[cur.len() - 1].ts == ts);
        assert(row_has_ts(cur, ts));
        assert(m1 =~~= prefix.push(row_s));
    }
    assert(m1 == prefix.push(row_s));
    assert(m1.len() == prefix.len() + 1);
    let last = prefix.len() as int;
    // recording the safe vote extends the wave by one rank
    let m2 = rows_record_vote(m1, ts, s, VOTE_SAFE);
    assert forall|r: int| 0 <= r < m2.len() implies m2[r] == prefix.push(row_s1)[r] by {
        if r < last {
            assert(m1[r] == prefix[r]);
            assert(m1[r].ts != ts);
            assert(m2[r] == m1[r]);
        } else {
            assert(m1[r] == row_s);
            assert(m2[r].votes =~= wave_votes(s + 1, n));
            assert(m2[r] =~= row_s1);
        }
    }
    assert(m2 =~= prefix.push(row_s1));
    // propagation changes nothing: every verdict is already in place and
    // the one row with pending slots is the newest
    let m3 = rows_propagate(m2);
    assert forall|r: int| 0 <= r < m3.len() implies m3[r] == m2[r] by {
        assert forall|c: int| 0 <= c < m2[r].votes.len() implies #[trigger] m3[r].votes[c]
            == m2[r].votes[c] by {
            if m2[r].votes[c] != crate::VOTE_PENDING {
                assert(view_next_nonpending(m2, r, c) == r);
            } else {
                assert(r == last);
                assert(view_next_nonpending(m2, r, c) == view_next_nonpending(m2, r + 1, c));
            }
        }
        assert(m3[r].votes =~= m2[r].votes);
        assert(m3[r] =~= m2[r]);
    }
    assert(m3 =~= m2);
    assert(rows_after_vote(cur, ts, s, VOTE_SAFE, n) == prefix.push(row_s1));
    // only the last row could commit, and only once every rank has voted
    assert forall|r: int| 0 <= r < last implies !(row_full((#[trigger] m3[r]).votes)
        && !m3[r].handled) by {
        assert(m3[r] == prefix[r]);
    }
    lemma_fc_skip(m3, last);
    if s + 1 == n {
        assert(row_full(m3[last].votes));
        assert(first_committable_from(m3, last) == last);
        lemma_num_unsafe_none(m3[last].votes);
        let mc = rows_after_commit(m3, last);
        assert forall|r: int| 0 <= r < mc.len() implies mc[r] == prefix.push(
            ConfirmationListView { votes: wave_votes(n, n), ts: ts, handled: true },
        )[r] by {
            if r < last {
                assert(mc[r] == m3[r]);
            } else {
                assert(mc[r] =~= (ConfirmationListView {
                    votes: wave_votes(n, n),
                    ts: ts,
                    handled: true,
                }));
            }
        }
        assert(mc =~= prefix.push(ConfirmationListView {
            votes: wave_votes(n, n),
            ts: ts,
            handled: true,
        }));
    } else {
        assert(m3[last].votes[n - 1] == crate::VOTE_PENDING);
        assert(!row_full(m3[last].votes));
        assert(first_committable_from(m3, last) == first_committable_from(m3, last + 1));
        assert(first_committable_from(m3, last + 1) == m3.len());
    }
}

/// Viewing a queue after a removal is the same as removing from the
/// queue's view.
pub proof fn lemma_queue_view_remove(q: Seq<QueueItem>, p: int)
    requires
        0 <= p < q.len(),
    ensures
        queue_view(q.remove(p)) == queue_view(q).remove(p),
{
    let a = queue_view(q.remove(p));
    let b = queue_view(q).remove(p);
    q.remove_ensures(p);
    queue_view(q).remove_ensures(p);
    assert forall|i: int| 0 <= i < a.len() implies a[i] == b[i] by {
        if i < p {
            assert(q.remove(p)[i] == q[i]);
            assert(queue_view(q).remove(p)[i] == queue_view(q)[i]);
        } else {
            assert(q.remove(p)[i] == q[i + 1]);
            assert(queue_view(q).remove(p)[i] == queue_view(q)[i + 1]);
        }
    }
    assert(a =~= b);
}

} // verus!
