//! Column-wise rewrite of unsafe votes in the rows after a committed
//! dequeue.

use vstd::prelude::*;
use crate::confirmation_list::ConfirmationList;
use crate::confirmation_list::cl_eq;
use crate::VOTE_SAFE;
use crate::VOTE_UNSAFE;

verus! {

/// In the single column `index_to_update`, rewrites every unsafe vote in the
/// rows strictly after `row_start` to safe. All other slots, timestamps and
/// handled flags stay as they were.
#[verifier::loop_isolation(false)]
pub fn update_unsafes(lists: &mut Vec<ConfirmationList>, row_start: usize, index_to_update: usize)
    requires
        forall|r: int|
            row_start < r < old(lists)@.len() ==> index_to_update < #[trigger] old(lists)@[r].response_list@.len(),
    ensures
        final(lists)@.len() == old(lists)@.len(),
        forall|r: int|
            0 <= r <= row_start && r < old(lists)@.len() ==> cl_eq(
                #[trigger] final(lists)@[r],
                old(lists)@[r],
            ),
        forall|r: int|
            row_start < r < old(lists)@.len() ==> #[trigger] final(lists)@[r].ts@ == old(lists)@[r].ts@,
        forall|r: int|
            row_start < r < old(lists)@.len() ==> #[trigger] final(lists)@[r].handled == old(lists)@[r].handled,
        forall|r: int|
            row_start < r < old(lists)@.len() ==> #[trigger] final(lists)@[r].response_list@.len()
                == old(lists)@[r].response_list@.len(),
        forall|r: int, c: int|
            row_start < r < old(lists)@.len() && 0 <= c < old(lists)@[r].response_list@.len() && c
                != index_to_update ==> #[trigger] final(lists)@[r].response_list@[c] == old(lists)@[r].response_list@[c],
        forall|r: int|
            row_start < r < old(lists)@.len() ==> #[trigger] final(lists)@[r].response_list@[index_to_update as int] == (if old(lists)@[r].response_list@[index_to_update as int] == VOTE_UNSAFE {
                VOTE_SAFE
            } else {
                old(lists)@[r].response_list@[index_to_update as int]
            }),
{
    let n_rows = lists.len();
    if row_start >= n_rows {
        return ;
    }
    let mut r = row_start;
    while r + 1 < n_rows
        invariant
            row_start <= r < n_rows,
            lists@.len() == n_rows,
            forall|r2: int|
                0 <= r2 <= row_start && r2 < n_rows ==> cl_eq(
                    #[trigger] lists@[r2],
                    old(lists)@[r2],
                ),
            forall|r2: int|
                row_start < r2 < n_rows ==> #[trigger] lists@[r2].ts@ == old(lists)@[r2].ts@,
            forall|r2: int|
                row_start < r2 < n_rows ==> #[trigger] lists@[r2].handled == old(lists)@[r2].handled,
            forall|r2: int|
                row_start < r2 < n_rows ==> #[trigger] lists@[r2].response_list@.len() == old(lists)@[r2].response_list@.len(),
            forall|r2: int, c: int|
                row_start < r2 < n_rows && 0 <= c < old(lists)@[r2].response_list@.len() && c
                    != index_to_update ==> #[trigger] lists@[r2].response_list@[c] == old(lists)@[r2].response_list@[c],
            forall|r2: int|
                row_start < r2 <= r && r2 < n_rows ==> #[trigger] lists@[r2].response_list@[index_to_update as int]
                    == (if old(lists)@[r2].response_list@[index_to_update as int] == VOTE_UNSAFE {
                    VOTE_SAFE
                } else {
                    old(lists)@[r2].response_list@[index_to_update as int]
                }),
            forall|r2: int|
                r < r2 < n_rows ==> #[trigger] lists@[r2].response_list@[index_to_update as int]
                    == old(lists)@[r2].response_list@[index_to_update as int],
        decreases n_rows - r,
    {
        let row = r + 1;
        if lists[row].response_list[index_to_update] == VOTE_UNSAFE {
            crate::confirmation_list::set_vote(lists, row, index_to_update, VOTE_SAFE);
        }
        r = row;
    }
}

} // verus!
