//! The reminder store: the collection of reminder records, the identifier
//! sequence, and the lifecycle operations on them — adding, reviewing,
//! removing, due-filtering, listing and content lookup for export.
//!
//! Reviews advance a fixed spaced-repetition schedule: a new reminder is
//! due after one day, then three days, one week and thirty days after the
//! first, second and third confirmed review; the fourth review exhausts
//! the schedule and marks the reminder completed.

use vstd::prelude::*;
use vstd::pervasive::VecAdditionalExecFns;
use crate::time::{Timestamp, SECONDS_PER_DAY};

verus! {

/// Delay, in seconds, before a newly added reminder first comes due.
pub const FIRST_INTERVAL_SECONDS: i64 = SECONDS_PER_DAY;

pub const INTERVAL_AFTER_FIRST_REVIEW: i64 = 3 * SECONDS_PER_DAY;

pub const INTERVAL_AFTER_SECOND_REVIEW: i64 = 7 * SECONDS_PER_DAY;

pub const INTERVAL_AFTER_THIRD_REVIEW: i64 = 30 * SECONDS_PER_DAY;

/// The review count at which the schedule is exhausted.
pub const COMPLETION_REVIEW_COUNT: u32 = 4;

/// Failures of the lifecycle operations that take an id.
#[derive(Clone, Copy, PartialEq, Eq, Structural, Debug)]
pub enum ReminderError {
    NotFound,
    AlreadyCompleted,
}

/// One item to remember, with its review schedule.
#[derive(Debug)]
pub struct Reminder {
    pub id: u32,
    pub content: String,
    pub created_at: Timestamp,
    pub next_review: Timestamp,
    pub review_count: u32,
    pub completed: bool,
}

impl Clone for Reminder {
    fn clone(&self) -> (r: Self)
        ensures
            r == *self,
    {
        Reminder {
            id: self.id,
            content: self.content.clone(),
            created_at: self.created_at,
            next_review: self.next_review,
            review_count: self.review_count,
            completed: self.completed,
        }
    }
}

/// The interval that follows the review which brought the count to
/// `new_count` (meaningful for counts one through three).
pub open spec fn spec_interval_after(new_count: int) -> i64 {
    if new_count == 1 {
        INTERVAL_AFTER_FIRST_REVIEW
    } else if new_count == 2 {
        INTERVAL_AFTER_SECOND_REVIEW
    } else {
        INTERVAL_AFTER_THIRD_REVIEW
    }
}

fn interval_after(new_count: u32) -> (r: i64)
    requires
        1 <= new_count < COMPLETION_REVIEW_COUNT,
    ensures
        r == spec_interval_after(new_count as int),
        0 < r <= INTERVAL_AFTER_THIRD_REVIEW,
{
    if new_count == 1 {
        INTERVAL_AFTER_FIRST_REVIEW
    } else if new_count == 2 {
        INTERVAL_AFTER_SECOND_REVIEW
    } else {
        INTERVAL_AFTER_THIRD_REVIEW
    }
}

/// The abstract value of a store: the sequence of records in insertion
/// order, and the next identifier to hand out.
pub struct StoreView {
    pub reminders: Seq<Reminder>,
    pub next_id: u32,
}

/// The reminder that an add at time `now` creates.
pub open spec fn spec_new_reminder(id: u32, content: String, now: Timestamp) -> Reminder {
    Reminder {
        id,
        content,
        created_at: now,
        next_review: now.spec_plus(FIRST_INTERVAL_SECONDS as int),
        review_count: 0,
        completed: false,
    }
}

/// A reminder after one successful review at time `now`: the count rises
/// by one; when it reaches the completion count the reminder is frozen as
/// completed, otherwise the next due time is `now` plus the fixed interval
/// for the new count.
pub open spec fn spec_reviewed(r: Reminder, now: Timestamp) -> Reminder {
    let new_count = (r.review_count + 1) as u32;
    if new_count >= COMPLETION_REVIEW_COUNT {
        Reminder { review_count: new_count, completed: true, ..r }
    } else {
        Reminder {
            review_count: new_count,
            next_review: now.spec_plus(spec_interval_after(new_count as int) as int),
            ..r
        }
    }
}

impl StoreView {
    /// Well-formedness: ids are unique, every present id is below
    /// `next_id` (so a freshly assigned id can never collide), and an
    /// active reminder has had fewer reviews than the completion count.
    pub open spec fn wf(self) -> bool {
        &&& forall|i: int, j: int|
            0 <= i < j < self.reminders.len() ==> (#[trigger] self.reminders[i]).id != (
            #[trigger] self.reminders[j]).id
        &&& forall|i: int|
            0 <= i < self.reminders.len() ==> (#[trigger] self.reminders[i]).id < self.next_id
        &&& forall|i: int|
            0 <= i < self.reminders.len() ==> (!(#[trigger] self.reminders[i]).completed
                ==> self.reminders[i].review_count < COMPLETION_REVIEW_COUNT)
    }

    pub open spec fn contains_id(self, id: u32) -> bool {
        exists|i: int| 0 <= i < self.reminders.len() && (#[trigger] self.reminders[i]).id == id
    }

    /// The index holding `id` (meaningful only when `contains_id`).
    pub open spec fn index_of(self, id: u32) -> int {
        choose|i: int| 0 <= i < self.reminders.len() && (#[trigger] self.reminders[i]).id == id
    }

    /// The reminder stored under `id` (meaningful only when `contains_id`).
    pub open spec fn reminder_with(self, id: u32) -> Reminder {
        self.reminders[self.index_of(id)]
    }

    /// The store after an add, with the assigned id.
    pub open spec fn spec_add(self, content: String, now: Timestamp) -> (StoreView, u32) {
        (
            StoreView {
                reminders: self.reminders.push(
                    spec_new_reminder(self.next_id, content, now),
                ),
                next_id: (self.next_id + 1) as u32,
            },
            self.next_id,
        )
    }

    /// The store and outcome of reviewing `id` at time `now`.
    pub open spec fn spec_review(self, id: u32, now: Timestamp) -> (StoreView, Result<
        (),
        ReminderError,
    >) {
        if !self.contains_id(id) {
            (self, Err(ReminderError::NotFound))
        } else if self.reminder_with(id).completed {
            (self, Err(ReminderError::AlreadyCompleted))
        } else {
            (
                StoreView {
                    reminders: self.reminders.update(
                        self.index_of(id),
                        spec_reviewed(self.reminder_with(id), now),
                    ),
                    ..self
                },
                Ok(()),
            )
        }
    }

    /// The store and outcome of removing `id`: deletion is unconditional
    /// on the completion state.
    pub open spec fn spec_remove(self, id: u32) -> (StoreView, Result<(), ReminderError>) {
        if !self.contains_id(id) {
            (self, Err(ReminderError::NotFound))
        } else {
            (
                StoreView { reminders: self.reminders.remove(self.index_of(id)), ..self },
                Ok(()),
            )
        }
    }
}

/// Whether `r` is due at time `now`: still active, and its next review
/// time has passed (instants compare by seconds).
pub open spec fn is_due(r: Reminder, now: Timestamp) -> bool {
    !r.completed && r.next_review.seconds <= now.seconds
}

/// The subsequence of `s` that is due at `now`, in stored order.
pub open spec fn due_seq(s: Seq<Reminder>, now: Timestamp) -> Seq<Reminder>
    decreases s.len(),
{
    if s.len() == 0 {
        Seq::empty()
    } else {
        let prefix = due_seq(s.drop_last(), now);
        if is_due(s.last(), now) {
            prefix.push(s.last())
        } else {
            prefix
        }
    }
}

/// Ascending order by due time.
pub open spec fn sorted_by_next_review(s: Seq<Reminder>) -> bool {
    forall|i: int, j: int|
        0 <= i <= j < s.len() ==> (#[trigger] s[i]).next_review.seconds <= (
        #[trigger] s[j]).next_review.seconds
}

/// The full persisted state: the records and the id counter.
#[derive(Debug)]
pub struct ReminderStore {
    pub reminders: Vec<Reminder>,
    pub next_id: u32,
}

impl View for ReminderStore {
    type V = StoreView;

    open spec fn view(&self) -> StoreView {
        StoreView { reminders: self.reminders@, next_id: self.next_id }
    }
}

impl ReminderStore {
    /// The empty store: no reminders, counter at zero.
    pub fn new() -> (s: ReminderStore)
        ensures
            s@.reminders.len() == 0,
            s@.next_id == 0,
            s@.wf(),
    {
        ReminderStore { reminders: Vec::new(), next_id: 0 }
    }

    /// Rebuilds a store from loaded parts, accepting them exactly when
    /// they satisfy the store invariant.
    pub fn from_parts(reminders: Vec<Reminder>, next_id: u32) -> (r: Option<ReminderStore>)
        ensures
            match r {
                Some(s) => {
                    &&& s.reminders@ == reminders@
                    &&& s.next_id == next_id
                    &&& s@.wf()
                },
                None => !(StoreView { reminders: reminders@, next_id }).wf(),
            },
    {
        let ghost v = StoreView { reminders: reminders@, next_id };
        let n = reminders.len();
        let mut i: usize = 0;
        while i < n
            invariant
                n == reminders@.len(),
                i <= n,
                v == (StoreView { reminders: reminders@, next_id }),
                forall|a: int, b: int|
                    0 <= a < b < i ==> (#[trigger] reminders@[a]).id != (
                    #[trigger] reminders@[b]).id,
                forall|a: int| 0 <= a < i ==> (#[trigger] reminders@[a]).id < next_id,
                forall|a: int|
                    0 <= a < i ==> (!(#[trigger] reminders@[a]).completed
                        ==> reminders@[a].review_count < COMPLETION_REVIEW_COUNT),
            decreases n - i,
        {
            if !(reminders[i].id < next_id) {
                proof {
                    assert(v.reminders[i as int].id >= next_id);
                    assert(!v.wf());
                }
                return None;
            }
            if !reminders[i].completed && reminders[i].review_count >= COMPLETION_REVIEW_COUNT {
                proof {
                    assert(!v.reminders[i as int].completed && v.reminders[i as int].review_count
                        >= COMPLETION_REVIEW_COUNT);
                    assert(!v.wf());
                }
                return None;
            }
            let mut j: usize = 0;
            while j < i
                invariant
                    n == reminders@.len(),
                    j <= i < n,
                    v == (StoreView { reminders: reminders@, next_id }),
                    forall|b: int| 0 <= b < j ==> (#[trigger] reminders@[b]).id != reminders@[i as int].id,
                decreases i - j,
            {
                if reminders[j].id == reminders[i].id {
                    proof {
                        assert(v.reminders[j as int].id == v.reminders[i as int].id);
                        assert(!v.wf());
                    }
                    return None;
                }
                j = j + 1;
            }
            i = i + 1;
        }
        Some(ReminderStore { reminders, next_id })
    }

    fn find_index(&self, id: u32) -> (r: Option<usize>)
        requires
            self@.wf(),
        ensures
            match r {
                Some(i) => {
                    &&& i < self.reminders@.len()
                    &&& self.reminders@[i as int].id == id
                    &&& self@.contains_id(id)
                    &&& i as int == self@.index_of(id)
                },
                None => !self@.contains_id(id),
            },
    {
        let n = self.reminders.len();
        let mut k: usize = 0;
        while k < n
            invariant
                n == self.reminders@.len(),
                k <= n,
                self@.wf(),
                forall|m: int| 0 <= m < k ==> (#[trigger] self.reminders@[m]).id != id,
            decreases n - k,
        {
            if self.reminders[k].id == id {
                proof {
                    assert(self@.reminders[k as int].id == id);
                    assert(self@.contains_id(id));
                    let j = self@.index_of(id);
                    assert(0 <= j < self.reminders@.len() && self.reminders@[j].id == id);
                    if j != k as int {
                        assert(false);
                    }
                }
                return Some(k);
            }
            k = k + 1;
        }
        None
    }

    /// Adds a reminder: assigns the current `next_id`, advances the
    /// counter, and inserts a fresh record whose first review falls one
    /// day after creation.
    pub fn add_reminder(&mut self, content: String, now: Timestamp) -> (id: u32)
        requires
            old(self)@.wf(),
            old(self).next_id < u32::MAX,
            now.seconds + FIRST_INTERVAL_SECONDS <= i64::MAX,
        ensures
            (final(self)@, id) == old(self)@.spec_add(content, now),
            final(self)@.wf(),
            id == old(self).next_id,
            final(self).next_id == old(self).next_id + 1,
            final(self).reminders@ == old(self).reminders@.push(
                spec_new_reminder(id, content, now),
            ),
            final(self).reminders@.last().content == content,
            final(self).reminders@.last().created_at == now,
            final(self).reminders@.last().next_review.seconds == now.seconds
                + FIRST_INTERVAL_SECONDS,
            final(self).reminders@.last().next_review.offset_seconds == now.offset_seconds,
            final(self).reminders@.last().review_count == 0,
            !final(self).reminders@.last().completed,
    {
        let id = self.next_id;
        self.next_id = self.next_id + 1;
        let reminder = Reminder {
            id,
            content,
            created_at: now,
            next_review: now.plus_seconds(FIRST_INTERVAL_SECONDS),
            review_count: 0,
            completed: false,
        };
        self.reminders.push(reminder);
        proof {
            let pre = old(self)@;
            let post = self@;
            assert forall|i: int, j: int| 0 <= i < j < post.reminders.len() implies (
            #[trigger] post.reminders[i]).id != (#[trigger] post.reminders[j]).id by {
                assert(post.reminders[i] == pre.reminders[i]);
                assert(pre.reminders[i].id < pre.next_id);
                if j < post.reminders.len() - 1 {
                    assert(post.reminders[j] == pre.reminders[j]);
                    assert(pre.reminders[i].id != pre.reminders[j].id);
                } else {
                    assert(post.reminders[j].id == pre.next_id);
                }
            }
            assert forall|i: int| 0 <= i < post.reminders.len() implies (
            #[trigger] post.reminders[i]).id < post.next_id by {
                if i < post.reminders.len() - 1 {
                    assert(post.reminders[i] == pre.reminders[i]);
                    assert(pre.reminders[i].id < pre.next_id);
                }
            }
            assert forall|i: int|
                0 <= i < post.reminders.len() implies (!(#[trigger] post.reminders[i]).completed
                ==> post.reminders[i].review_count < COMPLETION_REVIEW_COUNT) by {
                if i < post.reminders.len() - 1 {
                    assert(post.reminders[i] == pre.reminders[i]);
                    assert(!pre.reminders[i].completed ==> pre.reminders[i].review_count
                        < COMPLETION_REVIEW_COUNT);
                }
            }
        }
        id
    }

    /// Confirms a review of `id` at time `now`, advancing its schedule.
    /// Fails with `NotFound` when the id is absent and with
    /// `AlreadyCompleted` when the reminder is finished; either failure
    /// leaves the store unchanged.
    pub fn review_reminder(&mut self, id: u32, now: Timestamp) -> (r: Result<(), ReminderError>)
        requires
            old(self)@.wf(),
            now.seconds + INTERVAL_AFTER_THIRD_REVIEW <= i64::MAX,
        ensures
            (final(self)@, r) == old(self)@.spec_review(id, now),
            final(self)@.wf(),
            final(self).next_id == old(self).next_id,
            r == Err::<(), ReminderError>(ReminderError::NotFound) <==> !old(self)@.contains_id(id),
            r == Err::<(), ReminderError>(ReminderError::AlreadyCompleted) <==> (old(
                self,
            )@.contains_id(id) && old(self)@.reminder_with(id).completed),
            r is Ok <==> (old(self)@.contains_id(id) && !old(self)@.reminder_with(id).completed),
            r is Err ==> final(self)@ == old(self)@,
    {
        match self.find_index(id) {
            None => Err(ReminderError::NotFound),
            Some(i) => {
                let current = self.reminders[i].clone();
                if current.completed {
                    Err(ReminderError::AlreadyCompleted)
                } else {
                    let new_count = current.review_count + 1;
                    let updated = if new_count >= COMPLETION_REVIEW_COUNT {
                        Reminder {
                            id: current.id,
                            content: current.content,
                            created_at: current.created_at,
                            next_review: current.next_review,
                            review_count: new_count,
                            completed: true,
                        }
                    } else {
                        Reminder {
                            id: current.id,
                            content: current.content,
                            created_at: current.created_at,
                            next_review: now.plus_seconds(interval_after(new_count)),
                            review_count: new_count,
                            completed: false,
                        }
                    };
                    self.reminders.set(i, updated);
                    proof {
                        let pre = old(self)@;
                        assert(updated == spec_reviewed(pre.reminder_with(id), now));
                        assert(self@.reminders =~= pre.spec_review(id, now).0.reminders);
                        assert forall|a: int, b: int|
                            0 <= a < b < self@.reminders.len() implies (
                        #[trigger] self@.reminders[a]).id != (#[trigger] self@.reminders[b]).id by {
                            assert(pre.reminders[a].id != pre.reminders[b].id);
                        }
                    }
                    Ok(())
                }
            },
        }
    }

    /// Removes `id` unconditionally of its completion state; fails with
    /// `NotFound` when absent, leaving the store unchanged.
    pub fn remove_reminder(&mut self, id: u32) -> (r: Result<(), ReminderError>)
        requires
            old(self)@.wf(),
        ensures
            (final(self)@, r) == old(self)@.spec_remove(id),
            final(self)@.wf(),
            final(self).next_id == old(self).next_id,
            r == Err::<(), ReminderError>(ReminderError::NotFound) <==> !old(self)@.contains_id(id),
            r is Ok <==> old(self)@.contains_id(id),
            r is Err ==> final(self)@ == old(self)@,
    {
        match self.find_index(id) {
            None => Err(ReminderError::NotFound),
            Some(i) => {
                self.reminders.remove(i);
                proof {
                    let pre = old(self)@;
                    assert(self@.reminders =~= pre.spec_remove(id).0.reminders);
                    assert forall|a: int, b: int|
                        0 <= a < b < self@.reminders.len() implies (
                    #[trigger] self@.reminders[a]).id != (#[trigger] self@.reminders[b]).id by {
                        let pa = if a < i as int { a } else { a + 1 };
                        let pb = if b < i as int { b } else { b + 1 };
                        assert(self@.reminders[a] == pre.reminders[pa]);
                        assert(self@.reminders[b] == pre.reminders[pb]);
                        assert(pre.reminders[pa].id != pre.reminders[pb].id);
                    }
                    assert forall|a: int| 0 <= a < self@.reminders.len() implies (
                    #[trigger] self@.reminders[a]).id < self@.next_id by {
                        let pa = if a < i as int { a } else { a + 1 };
                        assert(self@.reminders[a] == pre.reminders[pa]);
                    }
                    assert forall|a: int|
                        0 <= a < self@.reminders.len() implies (!(
                    #[trigger] self@.reminders[a]).completed ==> self@.reminders[a].review_count
                        < COMPLETION_REVIEW_COUNT) by {
                        let pa = if a < i as int { a } else { a + 1 };
                        assert(self@.reminders[a] == pre.reminders[pa]);
                    }
                }
                Ok(())
            },
        }
    }

    /// The full, untruncated content of reminder `id`, for export; fails
    /// with `NotFound` when the id is absent. Never mutates the store.
    pub fn export_content(&self, id: u32) -> (r: Result<String, ReminderError>)
        requires
            self@.wf(),
        ensures
            match r {
                Ok(content) => self@.contains_id(id) && content@ == self@.reminder_with(
                    id,
                ).content@,
                Err(e) => e == ReminderError::NotFound && !self@.contains_id(id),
            },
    {
        match self.find_index(id) {
            None => Err(ReminderError::NotFound),
            Some(i) => Ok(self.reminders[i].content.clone()),
        }
    }

    /// The reminders due at `now`: exactly the active ones whose next
    /// review time has passed, in stored order.
    pub fn get_due_reminders(&self, now: Timestamp) -> (r: Vec<Reminder>)
        ensures
            r@ == due_seq(self.reminders@, now),
            forall|i: int| 0 <= i < r@.len() ==> is_due(#[trigger] r@[i], now),
    {
        let n = self.reminders.len();
        let mut out: Vec<Reminder> = Vec::new();
        let mut k: usize = 0;
        while k < n
            invariant
                n == self.reminders@.len(),
                k <= n,
                out@ == due_seq(self.reminders@.take(k as int), now),
            decreases n - k,
        {
            let rem = &self.reminders[k];
            let due = !rem.completed && rem.next_review.seconds <= now.seconds;
            if due {
                out.push(self.reminders[k].clone());
            }
            proof {
                let taken = self.reminders@.take(k as int + 1);
                assert(taken.drop_last() =~= self.reminders@.take(k as int));
                assert(taken.last() == self.reminders@[k as int]);
            }
            k = k + 1;
        }
        proof {
            assert(self.reminders@.take(n as int) =~= self.reminders@);
            lemma_due_seq_is_due(self.reminders@, now);
        }
        out
    }

    /// Every reminder, sorted ascending by next review time.
    pub fn get_all_reminders(&self) -> (r: Vec<Reminder>)
        ensures
            sorted_by_next_review(r@),
            r@.to_multiset() == self.reminders@.to_multiset(),
            r@.len() == self.reminders@.len(),
    {
        broadcast use vstd::seq_lib::group_to_multiset_ensures;

        let n = self.reminders.len();
        let mut out: Vec<Reminder> = Vec::new();
        let mut k: usize = 0;
        while k < n
            invariant
                n == self.reminders@.len(),
                k <= n,
                out@.len() == k,
                sorted_by_next_review(out@),
                out@.to_multiset() == self.reminders@.take(k as int).to_multiset(),
            decreases n - k,
        {
            let x = self.reminders[k].clone();
            let mut p: usize = 0;
            while p < out.len() && out[p].next_review.seconds <= x.next_review.seconds
                invariant
                    p <= out@.len(),
                    forall|a: int|
                        0 <= a < p ==> (#[trigger] out@[a]).next_review.seconds
                            <= x.next_review.seconds,
                decreases out@.len() - p,
            {
                p = p + 1;
            }
            let ghost old_out = out@;
            out.insert(p, x);
            proof {
                assert forall|a: int, b: int| 0 <= a <= b < out@.len() implies (
                #[trigger] out@[a]).next_review.seconds <= (
                #[trigger] out@[b]).next_review.seconds by {
                    if a < p as int {
                        assert(out@[a] == old_out[a]);
                    }
                    if b > p as int {
                        assert(out@[b] == old_out[b - 1]);
                        if (p as int) < old_out.len() {
                            assert(old_out[p as int].next_review.seconds
                                <= old_out[b - 1].next_review.seconds);
                        }
                    }
                }
                let prev = self.reminders@.take(k as int);
                let taken = self.reminders@.take(k as int + 1);
                assert(x == self.reminders@[k as int]);
                assert(taken =~= prev.push(x));
                assert(out@ == old_out.insert(p as int, x));
                vstd::seq_lib::to_multiset_insert(old_out, p as int, x);
                vstd::seq_lib::to_multiset_build(prev, x);
                assert(out@.to_multiset() == taken.to_multiset());
            }
            k = k + 1;
        }
        proof {
            assert(self.reminders@.take(n as int) =~= self.reminders@);
        }
        out
    }
}

/// Every element that the due filter keeps is in fact due.
pub proof fn lemma_due_seq_is_due(s: Seq<Reminder>, now: Timestamp)
    ensures
        forall|i: int| 0 <= i < due_seq(s, now).len() ==> is_due(#[trigger] due_seq(s, now)[i], now),
    decreases s.len(),
{
    if s.len() > 0 {
        lemma_due_seq_is_due(s.drop_last(), now);
        let d = due_seq(s, now);
        let dp = due_seq(s.drop_last(), now);
        assert forall|i: int| 0 <= i < d.len() implies is_due(#[trigger] d[i], now) by {
            if is_due(s.last(), now) {
                assert(d == dp.push(s.last()));
                if i < dp.len() {
                    assert(d[i] == dp[i]);
                    assert(is_due(dp[i], now));
                } else {
                    assert(d[i] == s.last());
                }
            } else {
                assert(d == dp);
                assert(is_due(dp[i], now));
            }
        }
    }
}

} // verus!
