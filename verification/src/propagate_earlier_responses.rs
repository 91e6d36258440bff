//! Free-function entry point for the vote propagation pass over a
//! confirmation-list store.

use vstd::prelude::*;
use crate::confirmation_list::ConfirmationList;
use crate::confirmation_list::propagated_vote;
use crate::VOTE_PENDING;

verus! {

/// Copies each verdict down into the pending slot of the next older row of
/// the same column, column by column, so that a vote also covers every
/// earlier-timestamped in-flight dequeue by the same voter. Slots that
/// already hold a verdict, timestamps and handled flags are untouched.
pub fn propagate_earlier_responses(lists: &mut Vec<ConfirmationList>)
    requires
        old(lists)@.len() > 0,
        forall|r: int|
            0 <= r < old(lists)@.len() ==> #[trigger] old(lists)@[r].response_list@.len() == old(lists)@[0].response_list@.len(),
    ensures
        final(lists)@.len() == old(lists)@.len(),
        forall|r: int|
            0 <= r < old(lists)@.len() ==> #[trigger] final(lists)@[r].ts@ == old(lists)@[r].ts@,
        forall|r: int|
            0 <= r < old(lists)@.len() ==> #[trigger] final(lists)@[r].handled == old(lists)@[r].handled,
        forall|r: int|
            0 <= r < old(lists)@.len() ==> #[trigger] final(lists)@[r].response_list@.len() == old(lists)@[r].response_list@.len(),
        forall|r: int, c: int|
            0 <= r < old(lists)@.len() && 0 <= c < old(lists)@[0].response_list@.len()
                ==> #[trigger] final(lists)@[r].response_list@[c] == propagated_vote(
                old(lists)@,
                r,
                c,
            ),
        forall|r: int, c: int|
            0 <= r < old(lists)@.len() && 0 <= c < old(lists)@[0].response_list@.len() && old(lists)@[r].response_list@[c] != VOTE_PENDING ==> #[trigger] final(lists)@[r].response_list@[c] == old(lists)@[r].response_list@[c],
{
    crate::confirmation_list::propagate_earlier_responses(lists)
}

} // verus!
