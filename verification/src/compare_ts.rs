//! Vector-clock algebra: the three-way causal comparison, the lexicographic
//! tie-break order, and the all-zeros test.

use vstd::prelude::*;

verus! {

/// Outcome of the causal comparison of two vector clocks.
///
/// `StrictlyLess` means every slot of the first clock is strictly below the
/// corresponding slot of the second; `Less` means the first clock is below
/// the second slotwise with at least one strict slot but not all of them;
/// `Greater` covers everything else, equality and incomparability included.
#[derive(Clone, Copy, Debug, PartialEq, Eq, Structural)]
pub enum ComparisonResult {
    Less,
    StrictlyLess,
    Greater,
}

/// Every slot of `a` is strictly below the matching slot of `b`.
pub open spec fn vc_all_lt(a: Seq<i32>, b: Seq<i32>) -> bool {
    forall|i: int| 0 <= i < a.len() ==> #[trigger] a[i] < b[i]
}

/// No slot of `a` is above the matching slot of `b`.
pub open spec fn vc_le(a: Seq<i32>, b: Seq<i32>) -> bool {
    forall|i: int| 0 <= i < a.len() ==> #[trigger] a[i] <= b[i]
}

/// Some slot of `a` is strictly below the matching slot of `b`.
pub open spec fn vc_any_lt(a: Seq<i32>, b: Seq<i32>) -> bool {
    exists|i: int| 0 <= i < a.len() && #[trigger] a[i] < b[i]
}

/// Every slot of `a` is zero.
pub open spec fn vc_all_zero(a: Seq<i32>) -> bool {
    forall|i: int| 0 <= i < a.len() ==> #[trigger] a[i] == 0
}

/// `a` is strictly or loosely below `b`: the causal comparison of `a`
/// against `b` comes out `StrictlyLess` or `Less`.
pub open spec fn vc_below(a: Seq<i32>, b: Seq<i32>) -> bool {
    vc_all_lt(a, b) || (vc_le(a, b) && vc_any_lt(a, b))
}

/// The two clocks agree on every slot before `k`.
pub open spec fn lex_eq_upto(a: Seq<i32>, b: Seq<i32>, k: int) -> bool {
    forall|i: int| 0 <= i < k ==> #[trigger] a[i] == b[i]
}

/// `a` is below `b` in the slot-by-slot lexicographic order: the clocks agree
/// up to some slot at which `a` is strictly smaller.
pub open spec fn lex_lt(a: Seq<i32>, b: Seq<i32>) -> bool {
    exists|k: int| 0 <= k < a.len() && #[trigger] a[k] < b[k] && lex_eq_upto(a, b, k)
}

/// The lexicographic order never holds in both directions at once.
pub proof fn lemma_lex_asymmetric(a: Seq<i32>, b: Seq<i32>)
    ensures
        !(lex_lt(a, b) && lex_lt(b, a)),
{
    if lex_lt(a, b) && lex_lt(b, a) {
        let k1 = choose|k: int| 0 <= k < a.len() && #[trigger] a[k] < b[k] && lex_eq_upto(a, b, k);
        let k2 = choose|k: int| 0 <= k < b.len() && #[trigger] b[k] < a[k] && lex_eq_upto(b, a, k);
        if k1 < k2 {
            assert(b[k1] == a[k1]);
        } else if k2 < k1 {
            assert(a[k2] == b[k2]);
        }
    }
}

/// No clock is lexicographically below itself.
pub proof fn lemma_lex_irreflexive(a: Seq<i32>)
    ensures
        !lex_lt(a, a),
{
    if lex_lt(a, a) {
        let k = choose|k: int| 0 <= k < a.len() && #[trigger] a[k] < a[k] && lex_eq_upto(a, a, k);
    }
}

/// The lexicographic order is transitive.
pub proof fn lemma_lex_transitive(a: Seq<i32>, b: Seq<i32>, c: Seq<i32>)
    requires
        a.len() == b.len(),
        b.len() == c.len(),
        lex_lt(a, b),
        lex_lt(b, c),
    ensures
        lex_lt(a, c),
{
    let k1 = choose|k: int| 0 <= k < a.len() && #[trigger] a[k] < b[k] && lex_eq_upto(a, b, k);
    let k2 = choose|k: int| 0 <= k < b.len() && #[trigger] b[k] < c[k] && lex_eq_upto(b, c, k);
    if k1 < k2 {
        assert(b[k1] == c[k1]);
        assert(a[k1] < c[k1]);
        assert(lex_eq_upto(a, c, k1));
    } else if k2 < k1 {
        assert(a[k2] == b[k2]);
        assert(a[k2] < c[k2]);
        assert(lex_eq_upto(a, c, k2));
    } else {
        assert(a[k1] < c[k1]);
        assert(lex_eq_upto(a, c, k1));
    }
}

/// A clock that is slotwise below another and differs from it somewhere is
/// also below it lexicographically. This is what keeps one originator's
/// operations in issue order inside the sorted replica.
pub proof fn lemma_le_and_diff_implies_lex_lt(a: Seq<i32>, b: Seq<i32>)
    requires
        a.len() == b.len(),
        vc_le(a, b),
        a != b,
    ensures
        lex_lt(a, b),
{
    lemma_le_prefix(a, b, 0);
}

proof fn lemma_le_prefix(a: Seq<i32>, b: Seq<i32>, k: int)
    requires
        a.len() == b.len(),
        vc_le(a, b),
        0 <= k <= a.len(),
        lex_eq_upto(a, b, k),
    ensures
        a =~= b || lex_lt(a, b),
    decreases a.len() - k,
{
    if k == a.len() {
        assert(a =~= b);
    } else if a[k] < b[k] {
        assert(lex_lt(a, b));
    } else {
        assert(a[k] == b[k]);
        assert(lex_eq_upto(a, b, k + 1));
        lemma_le_prefix(a, b, k + 1);
    }
}

/// Bumping one slot of a clock yields a stamp that is slotwise at least
/// the old clock, differs from it, and so sorts strictly after it in the
/// lexicographic order. An originator stamps each of its operations with
/// a bump of a clock that never decreased since the previous one, so its
/// stamps -- and with them its items in every sorted replica -- appear in
/// the order it issued them.
pub proof fn lemma_stamp_monotone(ts: Seq<i32>, i: int)
    requires
        0 <= i < ts.len(),
        ts[i] < i32::MAX,
    ensures
        vc_le(ts, ts.update(i, (ts[i] + 1) as i32)),
        ts != ts.update(i, (ts[i] + 1) as i32),
        lex_lt(ts, ts.update(i, (ts[i] + 1) as i32)),
{
    let bumped = ts.update(i, (ts[i] + 1) as i32);
    assert(bumped[i] == ts[i] + 1);
    assert(vc_le(ts, bumped));
    lemma_le_and_diff_implies_lex_lt(ts, bumped);
}

/// Causal three-way comparison of two equal-length vector clocks, as used to
/// tell a racy dequeue from one that is causally ordered.
pub fn compare_ts(vec_i: &Vec<i32>, vec_j: &Vec<i32>) -> (r: ComparisonResult)
    requires
        vec_i@.len() == vec_j@.len(),
    ensures
        r == ComparisonResult::StrictlyLess <==> vc_all_lt(vec_i@, vec_j@),
        r == ComparisonResult::Less <==> (!vc_all_lt(vec_i@, vec_j@) && vc_le(vec_i@, vec_j@)
            && vc_any_lt(vec_i@, vec_j@)),
        r == ComparisonResult::Greater <==> !(vc_all_lt(vec_i@, vec_j@) || (vc_le(
            vec_i@,
            vec_j@,
        ) && vc_any_lt(vec_i@, vec_j@))),
{
    let n = vec_i.len();
    let mut all_lt = true;
    let mut any_lt = false;
    let mut any_gt = false;
    for k in 0..n
        invariant
            n == vec_i@.len(),
            n == vec_j@.len(),
            all_lt <==> vc_all_lt(vec_i@.take(k as int), vec_j@.take(k as int)),
            any_lt <==> vc_any_lt(vec_i@.take(k as int), vec_j@.take(k as int)),
            any_gt <==> vc_any_lt(vec_j@.take(k as int), vec_i@.take(k as int)),
    {
        if vec_i[k] >= vec_j[k] {
            all_lt = false;
        }
        if vec_i[k] < vec_j[k] {
            any_lt = true;
        }
        if vec_i[k] > vec_j[k] {
            any_gt = true;
        }
        proof {
            assert(vec_i@.take(k + 1)[k as int] == vec_i@[k as int]);
            assert(vec_j@.take(k + 1)[k as int] == vec_j@[k as int]);
            assert(forall|i: int| 0 <= i < k ==> #[trigger] vec_i@.take(k + 1)[i] == vec_i@.take(
                k as int,
            )[i]);
            assert(forall|i: int| 0 <= i < k ==> #[trigger] vec_j@.take(k + 1)[i] == vec_j@.take(
                k as int,
            )[i]);
        }
    }
    proof {
        assert(vec_i@.take(n as int) =~= vec_i@);
        assert(vec_j@.take(n as int) =~= vec_j@);
    }
    if all_lt {
        ComparisonResult::StrictlyLess
    } else if any_lt && !any_gt {
        ComparisonResult::Less
    } else {
        ComparisonResult::Greater
    }
}

/// Lexicographic slot-by-slot comparison, the deterministic total tie-break
/// used to key the sorted replica and the confirmation-list store.
pub fn compare_ts_ord(vec_i: &Vec<i32>, vec_j: &Vec<i32>) -> (r: core::cmp::Ordering)
    requires
        vec_i@.len() == vec_j@.len(),
    ensures
        r == core::cmp::Ordering::Less <==> lex_lt(vec_i@, vec_j@),
        r == core::cmp::Ordering::Greater <==> lex_lt(vec_j@, vec_i@),
        r == core::cmp::Ordering::Equal <==> vec_i@ == vec_j@,
{
    let n = vec_i.len();
    for k in 0..n
        invariant
            n == vec_i@.len(),
            n == vec_j@.len(),
            lex_eq_upto(vec_i@, vec_j@, k as int),
    {
        if vec_i[k] < vec_j[k] {
            proof {
                assert(lex_lt(vec_i@, vec_j@));
                lemma_lex_asymmetric(vec_i@, vec_j@);
                assert(vec_i@[k as int] != vec_j@[k as int]);
            }
            return core::cmp::Ordering::Less;
        }
        if vec_i[k] > vec_j[k] {
            proof {
                assert(lex_lt(vec_j@, vec_i@));
                lemma_lex_asymmetric(vec_i@, vec_j@);
                assert(vec_i@[k as int] != vec_j@[k as int]);
            }
            return core::cmp::Ordering::Greater;
        }
    }
    proof {
        assert(vec_i@ =~= vec_j@);
    }
    core::cmp::Ordering::Equal
}

/// True exactly when every slot of the clock is zero, the genesis case that
/// must never be flagged as racy.
pub fn contains_all_zeros(vec_i: &Vec<i32>) -> (r: bool)
    ensures
        r <==> vc_all_zero(vec_i@),
{
    let n = vec_i.len();
    for k in 0..n
        invariant
            n == vec_i@.len(),
            forall|i: int| 0 <= i < k ==> #[trigger] vec_i@[i] == 0,
    {
        if vec_i[k] != 0 {
            return false;
        }
    }
    true
}

} // verus!
