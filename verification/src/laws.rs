//! Store-wide laws: properties that relate several lifecycle operations,
//! stated over the abstract store and proved once and for all.

use vstd::prelude::*;
use crate::store::{
    StoreView, ReminderError, spec_reviewed, COMPLETION_REVIEW_COUNT, INTERVAL_AFTER_FIRST_REVIEW,
    INTERVAL_AFTER_SECOND_REVIEW, INTERVAL_AFTER_THIRD_REVIEW,
};
use crate::time::Timestamp;

verus! {

/// One lifecycle operation on the store.
pub enum StoreOp {
    Add(String, Timestamp),
    Review(u32, Timestamp),
    Remove(u32),
}

/// The store after one operation (the outcome is dropped).
pub open spec fn apply_op(s: StoreView, op: StoreOp) -> StoreView {
    match op {
        StoreOp::Add(content, now) => s.spec_add(content, now).0,
        StoreOp::Review(id, now) => s.spec_review(id, now).0,
        StoreOp::Remove(id) => s.spec_remove(id).0,
    }
}

/// How many adds a sequence of operations contains.
pub open spec fn num_adds(ops: Seq<StoreOp>) -> nat
    decreases ops.len(),
{
    if ops.len() == 0 {
        0
    } else {
        (if ops[0] is Add {
            1nat
        } else {
            0nat
        }) + num_adds(ops.drop_first())
    }
}

/// The ids handed out by the adds in `ops`, run from `s`, in order.
pub open spec fn assigned_ids(s: StoreView, ops: Seq<StoreOp>) -> Seq<u32>
    decreases ops.len(),
{
    if ops.len() == 0 {
        Seq::empty()
    } else {
        let rest = assigned_ids(apply_op(s, ops[0]), ops.drop_first());
        if ops[0] is Add {
            seq![s.next_id] + rest
        } else {
            rest
        }
    }
}

/// Every operation preserves well-formedness, and never lowers the id
/// counter; only an add raises it, by exactly one.
pub proof fn lemma_apply_op_wf(s: StoreView, op: StoreOp)
    requires
        s.wf(),
        op is Add ==> s.next_id < u32::MAX,
    ensures
        apply_op(s, op).wf(),
        s.next_id <= apply_op(s, op).next_id,
        apply_op(s, op).next_id <= s.next_id + (if op is Add {
            1int
        } else {
            0int
        }),
{
    let post = apply_op(s, op);
    match op {
        StoreOp::Add(content, now) => {
            assert forall|i: int, j: int| 0 <= i < j < post.reminders.len() implies (
            #[trigger] post.reminders[i]).id != (#[trigger] post.reminders[j]).id by {
                assert(post.reminders[i] == s.reminders[i]);
                assert(s.reminders[i].id < s.next_id);
                if j < post.reminders.len() - 1 {
                    assert(post.reminders[j] == s.reminders[j]);
                    assert(s.reminders[i].id != s.reminders[j].id);
                } else {
                    assert(post.reminders[j].id == s.next_id);
                }
            }
            assert forall|i: int| 0 <= i < post.reminders.len() implies (
            #[trigger] post.reminders[i]).id < post.next_id by {
                if i < post.reminders.len() - 1 {
                    assert(post.reminders[i] == s.reminders[i]);
                    assert(s.reminders[i].id < s.next_id);
                }
            }
            assert forall|i: int|
                0 <= i < post.reminders.len() implies (!(#[trigger] post.reminders[i]).completed
                ==> post.reminders[i].review_count < COMPLETION_REVIEW_COUNT) by {
                if i < post.reminders.len() - 1 {
                    assert(post.reminders[i] == s.reminders[i]);
                    assert(!s.reminders[i].completed ==> s.reminders[i].review_count
                        < COMPLETION_REVIEW_COUNT);
                }
            }
        },
        StoreOp::Review(id, now) => {
            if s.contains_id(id) && !s.reminder_with(id).completed {
                let k = s.index_of(id);
                assert(0 <= k < s.reminders.len() && s.reminders[k].id == id);
                assert forall|i: int, j: int| 0 <= i < j < post.reminders.len() implies (
                #[trigger] post.reminders[i]).id != (#[trigger] post.reminders[j]).id by {
                    assert(s.reminders[i].id != s.reminders[j].id);
                }
                assert forall|i: int| 0 <= i < post.reminders.len() implies (
                #[trigger] post.reminders[i]).id < post.next_id by {
                    assert(s.reminders[i].id < s.next_id);
                }
                assert forall|i: int|
                    0 <= i < post.reminders.len() implies (!(
                #[trigger] post.reminders[i]).completed ==> post.reminders[i].review_count
                    < COMPLETION_REVIEW_COUNT) by {
                    assert(!s.reminders[i].completed ==> s.reminders[i].review_count
                        < COMPLETION_REVIEW_COUNT);
                }
            }
        },
        StoreOp::Remove(id) => {
            if s.contains_id(id) {
                let k = s.index_of(id);
                assert(0 <= k < s.reminders.len() && s.reminders[k].id == id);
                assert forall|i: int, j: int| 0 <= i < j < post.reminders.len() implies (
                #[trigger] post.reminders[i]).id != (#[trigger] post.reminders[j]).id by {
                    let pi = if i < k {
                        i
                    } else {
                        i + 1
                    };
                    let pj = if j < k {
                        j
                    } else {
                        j + 1
                    };
                    assert(post.reminders[i] == s.reminders[pi]);
                    assert(post.reminders[j] == s.reminders[pj]);
                    assert(s.reminders[pi].id != s.reminders[pj].id);
                }
                assert forall|i: int| 0 <= i < post.reminders.len() implies (
                #[trigger] post.reminders[i]).id < post.next_id by {
                    let pi = if i < k {
                        i
                    } else {
                        i + 1
                    };
                    assert(post.reminders[i] == s.reminders[pi]);
                    assert(s.reminders[pi].id < s.next_id);
                }
                assert forall|i: int|
                    0 <= i < post.reminders.len() implies (!(
                #[trigger] post.reminders[i]).completed ==> post.reminders[i].review_count
                    < COMPLETION_REVIEW_COUNT) by {
                    let pi = if i < k {
                        i
                    } else {
                        i + 1
                    };
                    assert(post.reminders[i] == s.reminders[pi]);
                    assert(!s.reminders[pi].completed ==> s.reminders[pi].review_count
                        < COMPLETION_REVIEW_COUNT);
                }
            }
        },
    }
}

/// Ids are handed out in strictly increasing order, and never reused:
/// over any sequence of adds, reviews and removals (bounded only by the
/// id space), every id an add assigns is strictly above all ids assigned
/// before it — so an id can never come back, even after its reminder was
/// removed.
pub proof fn lemma_assigned_ids_strictly_increasing(s: StoreView, ops: Seq<StoreOp>)
    requires
        s.wf(),
        s.next_id + num_adds(ops) <= u32::MAX,
    ensures
        assigned_ids(s, ops).len() == num_adds(ops),
        forall|i: int|
            0 <= i < assigned_ids(s, ops).len() ==> (#[trigger] assigned_ids(s, ops)[i])
                >= s.next_id,
        forall|i: int, j: int|
            0 <= i < j < assigned_ids(s, ops).len() ==> (#[trigger] assigned_ids(s, ops)[i]) < (
            #[trigger] assigned_ids(s, ops)[j]),
    decreases ops.len(),
{
    if ops.len() > 0 {
        let op = ops[0];
        let s1 = apply_op(s, op);
        let rest = ops.drop_first();
        assert(num_adds(ops) == (if op is Add {
            1nat
        } else {
            0nat
        }) + num_adds(rest));
        lemma_apply_op_wf(s, op);
        lemma_assigned_ids_strictly_increasing(s1, rest);
        let all = assigned_ids(s, ops);
        let tail = assigned_ids(s1, rest);
        if op is Add {
            assert(all == seq![s.next_id] + tail);
            assert(all[0] == s.next_id);
            assert forall|i: int| 0 <= i < all.len() implies (#[trigger] all[i]) >= s.next_id by {
                if i > 0 {
                    assert(all[i] == tail[i - 1]);
                    assert(tail[i - 1] >= s1.next_id);
                }
            }
            assert forall|i: int, j: int| 0 <= i < j < all.len() implies (#[trigger] all[i]) < (
            #[trigger] all[j]) by {
                assert(all[j] == tail[j - 1]);
                assert(tail[j - 1] >= s1.next_id);
                if i > 0 {
                    assert(all[i] == tail[i - 1]);
                    assert(tail[i - 1] < tail[j - 1]);
                }
            }
        } else {
            assert(all == tail);
            assert forall|i: int| 0 <= i < all.len() implies (#[trigger] all[i]) >= s.next_id by {
                assert(tail[i] >= s1.next_id);
            }
        }
    }
}

/// The id an add assigns is held by no reminder already present.
pub proof fn lemma_add_assigns_fresh_id(s: StoreView, content: String, now: Timestamp)
    requires
        s.wf(),
    ensures
        forall|i: int|
            0 <= i < s.reminders.len() ==> (#[trigger] s.reminders[i]).id != s.spec_add(
                content,
                now,
            ).1,
{
}

/// A successful review: the outcome is `Ok`, the store stays well formed,
/// the id is still present, and its record is exactly the old record
/// advanced one step.
pub proof fn lemma_review_ok(s: StoreView, id: u32, now: Timestamp)
    requires
        s.wf(),
        s.contains_id(id),
        !s.reminder_with(id).completed,
    ensures
        ({
            let (s2, r) = s.spec_review(id, now);
            &&& r is Ok
            &&& s2.wf()
            &&& s2.contains_id(id)
            &&& s2.reminder_with(id) == spec_reviewed(s.reminder_with(id), now)
            &&& s2.next_id == s.next_id
            &&& s2.reminders.len() == s.reminders.len()
        }),
{
    let (s2, r) = s.spec_review(id, now);
    let k = s.index_of(id);
    assert(0 <= k < s.reminders.len() && s.reminders[k].id == id);
    lemma_apply_op_wf(s, StoreOp::Review(id, now));
    assert(s2.reminders[k].id == id);
    assert(s2.contains_id(id));
    let k2 = s2.index_of(id);
    assert(0 <= k2 < s2.reminders.len() && s2.reminders[k2].id == id);
    if k2 != k {
        assert(s2.reminders[k2] == s.reminders[k2]);
        assert(s.reminders[k2].id != s.reminders[k].id);
        assert(false);
    }
}

/// Four reviews in a row, with no other operation between them, walk the
/// whole schedule: the count rises one per review, the next due time is
/// set three days, one week and thirty days after the first, second and
/// third review, and the fourth review completes the reminder while
/// leaving its due time exactly where the third review put it.
pub proof fn lemma_four_reviews_complete(
    s0: StoreView,
    id: u32,
    t1: Timestamp,
    t2: Timestamp,
    t3: Timestamp,
    t4: Timestamp,
)
    requires
        s0.wf(),
        s0.contains_id(id),
        s0.reminder_with(id).review_count == 0,
        !s0.reminder_with(id).completed,
    ensures
        ({
            let s1 = s0.spec_review(id, t1).0;
            let s2 = s1.spec_review(id, t2).0;
            let s3 = s2.spec_review(id, t3).0;
            let s4 = s3.spec_review(id, t4).0;
            &&& s0.spec_review(id, t1).1 is Ok
            &&& s1.spec_review(id, t2).1 is Ok
            &&& s2.spec_review(id, t3).1 is Ok
            &&& s3.spec_review(id, t4).1 is Ok
            &&& s1.reminder_with(id).review_count == 1
            &&& s1.reminder_with(id).next_review == t1.spec_plus(
                INTERVAL_AFTER_FIRST_REVIEW as int,
            )
            &&& s2.reminder_with(id).review_count == 2
            &&& s2.reminder_with(id).next_review == t2.spec_plus(
                INTERVAL_AFTER_SECOND_REVIEW as int,
            )
            &&& s3.reminder_with(id).review_count == 3
            &&& s3.reminder_with(id).next_review == t3.spec_plus(
                INTERVAL_AFTER_THIRD_REVIEW as int,
            )
            &&& s4.reminder_with(id).review_count == 4
            &&& s4.reminder_with(id).completed
            &&& s4.reminder_with(id).next_review == s3.reminder_with(id).next_review
            &&& s3.spec_review(id, t4).1 is Ok
        }),
{
    let s1 = s0.spec_review(id, t1).0;
    let s2 = s1.spec_review(id, t2).0;
    let s3 = s2.spec_review(id, t3).0;
    lemma_review_ok(s0, id, t1);
    lemma_review_ok(s1, id, t2);
    lemma_review_ok(s2, id, t3);
    lemma_review_ok(s3, id, t4);
}

/// A failed review — unknown id, or an already completed reminder —
/// returns the matching error and leaves the store untouched.
pub proof fn lemma_review_failure_is_harmless(s: StoreView, id: u32, now: Timestamp)
    requires
        !s.contains_id(id) || s.reminder_with(id).completed,
    ensures
        s.spec_review(id, now).0 == s,
        !s.contains_id(id) ==> s.spec_review(id, now).1 == Err::<(), ReminderError>(
            ReminderError::NotFound,
        ),
        s.contains_id(id) && s.reminder_with(id).completed ==> s.spec_review(id, now).1 == Err::<
            (),
            ReminderError,
        >(ReminderError::AlreadyCompleted),
{
}

} // verus!
