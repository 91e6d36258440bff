//! The confirmation-list store: one n-slot vote vector per in-flight
//! dequeue, with the downward propagation of votes and the rewrite of
//! unsafe votes once an earlier dequeue commits.

use vstd::prelude::*;
use crate::VOTE_PENDING;
use crate::VOTE_SAFE;
use crate::VOTE_UNSAFE;

verus! {

/// The votes collected for one in-flight dequeue: `response_list[p]` is the
/// verdict of process `p` (pending, safe or unsafe), `ts` the dequeue's
/// timestamp, and `handled` whether the dequeue has already committed.
#[derive(Clone, Debug)]
pub struct ConfirmationList {
    pub response_list: Vec<i32>,
    pub ts: Vec<i32>,
    pub handled: bool,
}

/// Two confirmation lists hold the same votes, timestamp and handled flag.
pub open spec fn cl_eq(a: ConfirmationList, b: ConfirmationList) -> bool {
    a.response_list@ == b.response_list@ && a.ts@ == b.ts@ && a.handled == b.handled
}

/// Every vote slot holds one of the three legal verdicts.
pub open spec fn votes_wf(votes: Seq<i32>) -> bool {
    forall|c: int| 0 <= c < votes.len() ==> VOTE_PENDING <= #[trigger] votes[c] <= VOTE_UNSAFE
}

/// A confirmation list shaped for a group of `n` processes.
pub open spec fn cl_wf(cl: ConfirmationList, n: int) -> bool {
    cl.response_list@.len() == n && cl.ts@.len() == n && votes_wf(cl.response_list@)
}

/// No slot of the vote vector is still pending.
pub open spec fn row_full(votes: Seq<i32>) -> bool {
    forall|c: int| 0 <= c < votes.len() ==> #[trigger] votes[c] != VOTE_PENDING
}

/// How many slots of the vote vector hold an unsafe verdict.
pub open spec fn num_unsafe(votes: Seq<i32>) -> int
    decreases votes.len(),
{
    if votes.len() == 0 {
        0
    } else {
        num_unsafe(votes.drop_last()) + if votes.last() == VOTE_UNSAFE {
            1int
        } else {
            0int
        }
    }
}

/// The first row at or after `r` whose column `c` already holds a verdict;
/// `lists.len()` if every such slot is still pending.
pub open spec fn next_nonpending(lists: Seq<ConfirmationList>, r: int, c: int) -> int
    decreases lists.len() - r,
{
    if r < 0 || r >= lists.len() {
        lists.len() as int
    } else if lists[r].response_list@[c] != VOTE_PENDING {
        r
    } else {
        next_nonpending(lists, r + 1, c)
    }
}

/// The verdict that slot `(r, c)` holds once later rows' verdicts have been
/// propagated down: its own verdict if it has one, otherwise the nearest
/// verdict below it in the same column, otherwise still pending.
pub open spec fn propagated_vote(lists: Seq<ConfirmationList>, r: int, c: int) -> i32 {
    let k = next_nonpending(lists, r, c);
    if k < lists.len() {
        lists[k].response_list@[c]
    } else {
        VOTE_PENDING
    }
}

impl ConfirmationList {
    /// A fresh confirmation list for a dequeue stamped `dequeue_ts`, with
    /// every vote still pending.
    pub fn new(dequeue_ts: Vec<i32>) -> (r: ConfirmationList)
        ensures
            r.ts@ == dequeue_ts@,
            r.response_list@.len() == dequeue_ts@.len(),
            forall|c: int|
                0 <= c < dequeue_ts@.len() ==> #[trigger] r.response_list@[c] == VOTE_PENDING,
            !r.handled,
    {
        let n = dequeue_ts.len();
        let mut response_list: Vec<i32> = Vec::new();
        let mut k: usize = 0;
        while k < n
            invariant
                k <= n,
                response_list@.len() == k,
                forall|c: int| 0 <= c < k ==> #[trigger] response_list@[c] == VOTE_PENDING,
            decreases n - k,
        {
            response_list.push(VOTE_PENDING);
            k = k + 1;
        }
        ConfirmationList { response_list, ts: dequeue_ts, handled: false }
    }
}

impl ConfirmationList {
    /// True when every process has voted: no slot is still pending.
    pub fn all_voted(&self) -> (r: bool)
        ensures
            r <==> row_full(self.response_list@),
    {
        let n = self.response_list.len();
        let mut k: usize = 0;
        while k < n
            invariant
                k <= n,
                n == self.response_list@.len(),
                forall|c: int| 0 <= c < k ==> #[trigger] self.response_list@[c] != VOTE_PENDING,
            decreases n - k,
        {
            if self.response_list[k] == VOTE_PENDING {
                return false;
            }
            k = k + 1;
        }
        true
    }

    /// How many of the collected votes are unsafe; with a full vote vector
    /// this is the index of the queue entry the dequeue commits to.
    pub fn count_unsafes(&self) -> (r: usize)
        ensures
            r == num_unsafe(self.response_list@),
    {
        let n = self.response_list.len();
        let mut cnt: usize = 0;
        let mut k: usize = 0;
        proof {
            assert(self.response_list@.take(0) =~= Seq::<i32>::empty());
        }
        while k < n
            invariant
                k <= n,
                n == self.response_list@.len(),
                cnt == num_unsafe(self.response_list@.take(k as int)),
                cnt <= k,
            decreases n - k,
        {
            proof {
                lemma_num_unsafe_bounds(self.response_list@.take(k as int));
                assert(self.response_list@.take(k + 1).drop_last() =~= self.response_list@.take(
                    k as int,
                ));
                assert(self.response_list@.take(k + 1).last() == self.response_list@[k as int]);
            }
            if self.response_list[k] == VOTE_UNSAFE {
                cnt = cnt + 1;
            }
            k = k + 1;
        }
        proof {
            assert(self.response_list@.take(n as int) =~= self.response_list@);
        }
        cnt
    }
}

/// The unsafe-vote count never exceeds the vector's length.
pub proof fn lemma_num_unsafe_bounds(votes: Seq<i32>)
    ensures
        0 <= num_unsafe(votes) <= votes.len(),
    decreases votes.len(),
{
    if votes.len() > 0 {
        lemma_num_unsafe_bounds(votes.drop_last());
    }
}

/// Marks row `r` as handled and changes nothing else.
pub(crate) fn set_handled(lists: &mut Vec<ConfirmationList>, r: usize)
    requires
        r < old(lists)@.len(),
    ensures
        final(lists)@.len() == old(lists)@.len(),
        forall|r2: int|
            0 <= r2 < old(lists)@.len() && r2 != r ==> cl_eq(
                #[trigger] final(lists)@[r2],
                old(lists)@[r2],
            ),
        final(lists)@[r as int].ts@ == old(lists)@[r as int].ts@,
        final(lists)@[r as int].response_list@ == old(lists)@[r as int].response_list@,
        final(lists)@[r as int].handled,
{
    let cl = &mut lists[r];
    cl.handled = true;
}

/// Writes verdict `v` into slot `(r, c)` of the store and changes nothing
/// else.
pub(crate) fn set_vote(lists: &mut Vec<ConfirmationList>, r: usize, c: usize, v: i32)
    requires
        r < old(lists)@.len(),
        c < old(lists)@[r as int].response_list@.len(),
    ensures
        final(lists)@.len() == old(lists)@.len(),
        forall|r2: int|
            0 <= r2 < old(lists)@.len() && r2 != r ==> cl_eq(
                #[trigger] final(lists)@[r2],
                old(lists)@[r2],
            ),
        final(lists)@[r as int].ts@ == old(lists)@[r as int].ts@,
        final(lists)@[r as int].handled == old(lists)@[r as int].handled,
        final(lists)@[r as int].response_list@ == old(lists)@[r as int].response_list@.update(
            c as int,
            v,
        ),
{
    let cl = &mut lists[r];
    cl.response_list[c] = v;
}

/// For every column, walks the rows from newest to oldest and copies each
/// verdict into the pending slot just above it: a vote for a dequeue
/// implicitly covers every earlier-timestamped in-flight dequeue by the same
/// voter. Never changes a slot that already holds a verdict, and never
/// touches a timestamp or a handled flag, so the store keeps at most one
/// list per timestamp.
#[verifier::loop_isolation(false)]
pub fn propagate_earlier_responses(lists: &mut Vec<ConfirmationList>)
    requires
        old(lists)@.len() > 0,
        forall|r: int|
            0 <= r < old(lists)@.len() ==> #[trigger] old(lists)@[r].response_list@.len() == old(lists)@[0].response_list@.len(),
    ensures
        final(lists)@.len() == old(lists)@.len(),
        forall|r: int|
            0 <= r < old(lists)@.len() ==> #[trigger] final(lists)@[r].ts@ == old(lists)@[r].ts@,
        forall|r: int|
            0 <= r < old(lists)@.len() ==> #[trigger] final(lists)@[r].handled == old(lists)@[r].handled,
        forall|r: int|
            0 <= r < old(lists)@.len() ==> #[trigger] final(lists)@[r].response_list@.len() == old(lists)@[r].response_list@.len(),
        forall|r: int, c: int|
            0 <= r < old(lists)@.len() && 0 <= c < old(lists)@[0].response_list@.len()
                ==> #[trigger] final(lists)@[r].response_list@[c] == propagated_vote(
                old(lists)@,
                r,
                c,
            ),
        forall|r: int, c: int|
            0 <= r < old(lists)@.len() && 0 <= c < old(lists)@[0].response_list@.len() && old(lists)@[r].response_list@[c] != VOTE_PENDING ==> #[trigger] final(lists)@[r].response_list@[c] == old(lists)@[r].response_list@[c],
{
    let n_rows = lists.len();
    let n_cols = lists[0].response_list.len();
    for col in 0..n_cols
        invariant
            lists@.len() == n_rows,
            forall|r: int|
                0 <= r < n_rows ==> #[trigger] lists@[r].response_list@.len() == n_cols,
            forall|r: int| 0 <= r < n_rows ==> #[trigger] lists@[r].ts@ == old(lists)@[r].ts@,
            forall|r: int|
                0 <= r < n_rows ==> #[trigger] lists@[r].handled == old(lists)@[r].handled,
            forall|r: int, c: int|
                0 <= r < n_rows && 0 <= c < col ==> #[trigger] lists@[r].response_list@[c]
                    == propagated_vote(old(lists)@, r, c),
            forall|r: int, c: int|
                0 <= r < n_rows && col <= c < n_cols ==> #[trigger] lists@[r].response_list@[c]
                    == old(lists)@[r].response_list@[c],
    {
        let mut row = n_rows;
        proof {
            assert(next_nonpending(old(lists)@, n_rows as int, col as int) == n_rows);
            assert(propagated_vote(old(lists)@, n_rows - 1, col as int) == old(lists)@[n_rows
                - 1].response_list@[col as int]);
        }
        while row > 1
            invariant
                1 <= row <= n_rows,
                lists@.len() == n_rows,
                forall|r: int|
                    0 <= r < n_rows ==> #[trigger] lists@[r].response_list@.len() == n_cols,
                forall|r: int| 0 <= r < n_rows ==> #[trigger] lists@[r].ts@ == old(lists)@[r].ts@,
                forall|r: int|
                    0 <= r < n_rows ==> #[trigger] lists@[r].handled == old(lists)@[r].handled,
                forall|r: int, c: int|
                    0 <= r < n_rows && 0 <= c < col ==> #[trigger] lists@[r].response_list@[c]
                        == propagated_vote(old(lists)@, r, c),
                forall|r: int, c: int|
                    0 <= r < n_rows && col < c < n_cols ==> #[trigger] lists@[r].response_list@[c]
                        == old(lists)@[r].response_list@[c],
                forall|r: int|
                    row - 1 <= r < n_rows ==> #[trigger] lists@[r].response_list@[col as int]
                        == propagated_vote(old(lists)@, r, col as int),
                forall|r: int|
                    0 <= r < row - 1 ==> #[trigger] lists@[r].response_list@[col as int] == old(lists)@[r].response_list@[col as int],
            decreases row,
        {
            row = row - 1;
            let here = lists[row].response_list[col];
            let above = lists[row - 1].response_list[col];
            proof {
                assert(old(lists)@[row - 1].response_list@[col as int] == VOTE_PENDING
                    ==> next_nonpending(old(lists)@, row - 1, col as int) == next_nonpending(
                    old(lists)@,
                    row as int,
                    col as int,
                ));
            }
            if here != VOTE_PENDING && above == VOTE_PENDING {
                set_vote(lists, row - 1, col, here);
            }
        }
    }
}

/// Rewrites every unsafe vote in the rows at or after `row` to safe: the
/// dequeue that just committed in the row above resolved the race those
/// votes reported. Timestamps, handled flags and all other verdicts are left
/// as they were.
#[verifier::loop_isolation(false)]
pub fn update_unsafes(lists: &mut Vec<ConfirmationList>, row: usize)
    ensures
        final(lists)@.len() == old(lists)@.len(),
        forall|r: int|
            0 <= r < row && r < old(lists)@.len() ==> cl_eq(
                #[trigger] final(lists)@[r],
                old(lists)@[r],
            ),
        forall|r: int|
            row <= r < old(lists)@.len() ==> #[trigger] final(lists)@[r].ts@ == old(lists)@[r].ts@,
        forall|r: int|
            row <= r < old(lists)@.len() ==> #[trigger] final(lists)@[r].handled == old(lists)@[r].handled,
        forall|r: int|
            row <= r < old(lists)@.len() ==> #[trigger] final(lists)@[r].response_list@.len()
                == old(lists)@[r].response_list@.len(),
        forall|r: int, c: int|
            row <= r < old(lists)@.len() && 0 <= c < old(lists)@[r].response_list@.len()
                ==> #[trigger] final(lists)@[r].response_list@[c] == (if old(lists)@[r].response_list@[c] == VOTE_UNSAFE {
                VOTE_SAFE
            } else {
                old(lists)@[r].response_list@[c]
            }),
{
    let n_rows = lists.len();
    let mut r = row;
    while r < n_rows
        invariant
            row <= r <= n_rows || (row > n_rows && r == row),
            lists@.len() == n_rows,
            forall|r2: int|
                0 <= r2 < row && r2 < n_rows ==> cl_eq(#[trigger] lists@[r2], old(lists)@[r2]),
            forall|r2: int|
                row <= r2 < n_rows ==> #[trigger] lists@[r2].ts@ == old(lists)@[r2].ts@,
            forall|r2: int|
                row <= r2 < n_rows ==> #[trigger] lists@[r2].handled == old(lists)@[r2].handled,
            forall|r2: int|
                row <= r2 < n_rows ==> #[trigger] lists@[r2].response_list@.len() == old(lists)@[r2].response_list@.len(),
            forall|r2: int, c: int|
                row <= r2 < r && c < old(lists)@[r2].response_list@.len() && 0 <= c
                    ==> #[trigger] lists@[r2].response_list@[c] == (if old(lists)@[r2].response_list@[c] == VOTE_UNSAFE {
                    VOTE_SAFE
                } else {
                    old(lists)@[r2].response_list@[c]
                }),
            forall|r2: int, c: int|
                r <= r2 < n_rows && c < old(lists)@[r2].response_list@.len() && 0 <= c
                    ==> #[trigger] lists@[r2].response_list@[c] == old(lists)@[r2].response_list@[c],
        decreases n_rows - r,
    {
        let n_c = lists[r].response_list.len();
        let mut c: usize = 0;
        while c < n_c
            invariant
                c <= n_c,
                r < n_rows,
                lists@.len() == n_rows,
                n_c == old(lists)@[r as int].response_list@.len(),
                forall|r2: int|
                    0 <= r2 < n_rows && r2 != r ==> cl_eq(#[trigger] lists@[r2], old(lists)@[r2])
                        || true,
                forall|r2: int|
                    0 <= r2 < row && r2 < n_rows ==> cl_eq(#[trigger] lists@[r2], old(lists)@[r2]),
                forall|r2: int|
                    row <= r2 < n_rows ==> #[trigger] lists@[r2].ts@ == old(lists)@[r2].ts@,
                forall|r2: int|
                    row <= r2 < n_rows ==> #[trigger] lists@[r2].handled == old(lists)@[r2].handled,
                forall|r2: int|
                    row <= r2 < n_rows ==> #[trigger] lists@[r2].response_list@.len() == old(lists)@[r2].response_list@.len(),
                forall|r2: int, c2: int|
                    row <= r2 < r && c2 < old(lists)@[r2].response_list@.len() && 0 <= c2
                        ==> #[trigger] lists@[r2].response_list@[c2] == (if old(lists)@[r2].response_list@[c2] == VOTE_UNSAFE {
                        VOTE_SAFE
                    } else {
                        old(lists)@[r2].response_list@[c2]
                    }),
                forall|c2: int|
                    0 <= c2 < c ==> #[trigger] lists@[r as int].response_list@[c2] == (if old(lists)@[r as int].response_list@[c2] == VOTE_UNSAFE {
                        VOTE_SAFE
                    } else {
                        old(lists)@[r as int].response_list@[c2]
                    }),
                forall|c2: int|
                    c <= c2 < n_c ==> #[trigger] lists@[r as int].response_list@[c2] == old(lists)@[r as int].response_list@[c2],
                forall|r2: int, c2: int|
                    r < r2 < n_rows && c2 < old(lists)@[r2].response_list@.len() && 0 <= c2
                        ==> #[trigger] lists@[r2].response_list@[c2] == old(lists)@[r2].response_list@[c2],
            decreases n_c - c,
        {
            if lists[r].response_list[c] == VOTE_UNSAFE {
                set_vote(lists, r, c, VOTE_SAFE);
            }
            c = c + 1;
        }
        r = r + 1;
    }
}

} // verus!
