use reminder::store::{ReminderError, ReminderStore};
use reminder::time::Timestamp;

fn ts(seconds: i64) -> Timestamp {
    Timestamp { seconds, offset_seconds: 0 }
}

const DAY: i64 = 86_400;

#[test]
fn ids_strictly_increase_and_are_never_reused() {
    let mut store = ReminderStore::new();
    let now = ts(1_000);
    let a = store.add_reminder(String::from("first"), now);
    let b = store.add_reminder(String::from("second"), now);
    assert_eq!(a, 0);
    assert_eq!(b, 1);
    assert!(store.remove_reminder(a).is_ok());
    let c = store.add_reminder(String::from("third"), now);
    assert_eq!(c, 2);
    assert!(store.remove_reminder(b).is_ok());
    assert!(store.remove_reminder(c).is_ok());
    let d = store.add_reminder(String::from("fourth"), now);
    assert_eq!(d, 3);
}

#[test]
fn add_sets_first_review_one_day_out() {
    let mut store = ReminderStore::new();
    let now = Timestamp { seconds: 5_000, offset_seconds: 3_600 };
    let id = store.add_reminder(String::from("content C"), now);
    let rem = &store.reminders[0];
    assert_eq!(rem.id, id);
    assert_eq!(rem.content, "content C");
    assert_eq!(rem.created_at, now);
    assert_eq!(rem.next_review.seconds, now.seconds + DAY);
    assert_eq!(rem.next_review.offset_seconds, now.offset_seconds);
    assert_eq!(rem.review_count, 0);
    assert!(!rem.completed);
}

#[test]
fn four_reviews_walk_the_whole_schedule() {
    let mut store = ReminderStore::new();
    let id = store.add_reminder(String::from("Learn Rust"), ts(0));
    assert_eq!(id, 0);
    assert_eq!(store.reminders[0].next_review.seconds, DAY);

    let t1 = ts(10);
    assert!(store.review_reminder(id, t1).is_ok());
    assert_eq!(store.reminders[0].review_count, 1);
    assert_eq!(store.reminders[0].next_review.seconds, t1.seconds + 3 * DAY);

    let t2 = ts(20);
    assert!(store.review_reminder(id, t2).is_ok());
    assert_eq!(store.reminders[0].review_count, 2);
    assert_eq!(store.reminders[0].next_review.seconds, t2.seconds + 7 * DAY);

    let t3 = ts(30);
    assert!(store.review_reminder(id, t3).is_ok());
    assert_eq!(store.reminders[0].review_count, 3);
    assert_eq!(store.reminders[0].next_review.seconds, t3.seconds + 30 * DAY);
    assert!(!store.reminders[0].completed);

    let t4 = ts(40);
    assert!(store.review_reminder(id, t4).is_ok());
    assert_eq!(store.reminders[0].review_count, 4);
    assert!(store.reminders[0].completed);
    assert_eq!(store.reminders[0].next_review.seconds, t3.seconds + 30 * DAY);

    assert!(store.remove_reminder(id).is_ok());
    assert_eq!(store.review_reminder(id, ts(50)), Err(ReminderError::NotFound));
    assert_eq!(store.export_content(id), Err(ReminderError::NotFound));
}

#[test]
fn review_errors_leave_the_store_unchanged() {
    let mut store = ReminderStore::new();
    assert_eq!(store.review_reminder(7, ts(0)), Err(ReminderError::NotFound));

    let id = store.add_reminder(String::from("item"), ts(0));
    for k in 0..4 {
        assert!(store.review_reminder(id, ts(100 + k)).is_ok());
    }
    let before_count = store.reminders[0].review_count;
    let before_next = store.reminders[0].next_review;
    let before_created = store.reminders[0].created_at;
    let r = store.review_reminder(id, ts(999_999));
    assert_eq!(r, Err(ReminderError::AlreadyCompleted));
    assert_eq!(store.reminders[0].review_count, before_count);
    assert_eq!(store.reminders[0].next_review, before_next);
    assert_eq!(store.reminders[0].created_at, before_created);
    assert!(store.reminders[0].completed);
    assert_eq!(store.reminders[0].content, "item");
}

#[test]
fn remove_works_on_completed_and_active_alike() {
    let mut store = ReminderStore::new();
    let a = store.add_reminder(String::from("a"), ts(0));
    let b = store.add_reminder(String::from("b"), ts(0));
    for k in 0..4 {
        assert!(store.review_reminder(a, ts(k)).is_ok());
    }
    assert!(store.remove_reminder(a).is_ok());
    assert!(store.remove_reminder(b).is_ok());
    assert_eq!(store.remove_reminder(b), Err(ReminderError::NotFound));
    assert!(store.reminders.is_empty());
}

#[test]
fn list_is_sorted_by_next_review_regardless_of_insertion_order() {
    let mut store = ReminderStore::new();
    store.add_reminder(String::from("late"), ts(9_000));
    store.add_reminder(String::from("early"), ts(1_000));
    store.add_reminder(String::from("middle"), ts(5_000));
    let all = store.get_all_reminders();
    assert_eq!(all.len(), 3);
    assert_eq!(all[0].content, "early");
    assert_eq!(all[1].content, "middle");
    assert_eq!(all[2].content, "late");
    for w in all.windows(2) {
        assert!(w[0].next_review.seconds <= w[1].next_review.seconds);
    }
}

#[test]
fn due_query_excludes_completed_and_future_reminders() {
    let mut store = ReminderStore::new();
    let past = store.add_reminder(String::from("past"), ts(0));
    let future = store.add_reminder(String::from("future"), ts(0));
    let done = store.add_reminder(String::from("done"), ts(0));
    for k in 0..4 {
        assert!(store.review_reminder(done, ts(k)).is_ok());
    }
    // `past` is due one day after ts(0); `future` gets pushed out by a review.
    assert!(store.review_reminder(future, ts(10 * 86_400)).is_ok());

    let now = ts(2 * 86_400);
    let due = store.get_due_reminders(now);
    assert_eq!(due.len(), 1);
    assert_eq!(due[0].id, past);
    for r in &due {
        assert!(!r.completed);
        assert!(r.next_review.seconds <= now.seconds);
    }
}

#[test]
fn due_query_includes_boundary_instant() {
    let mut store = ReminderStore::new();
    store.add_reminder(String::from("edge"), ts(0));
    let exactly_due = ts(86_400);
    assert_eq!(store.get_due_reminders(exactly_due).len(), 1);
    let just_before = ts(86_399);
    assert_eq!(store.get_due_reminders(just_before).len(), 0);
}

#[test]
fn export_returns_exact_stored_content() {
    let mut store = ReminderStore::new();
    let long = "never trimmed, even when very long \u{2014} caf\u{e9} \u{1f980}";
    let id = store.add_reminder(String::from(long), ts(0));
    assert_eq!(store.export_content(id), Ok(String::from(long)));
    assert_eq!(store.export_content(id + 1), Err(ReminderError::NotFound));
}

#[test]
fn empty_content_is_accepted() {
    let mut store = ReminderStore::new();
    let id = store.add_reminder(String::new(), ts(0));
    assert_eq!(store.export_content(id), Ok(String::new()));
}

#[test]
fn from_parts_rejects_ill_formed_stores() {
    let mut store = ReminderStore::new();
    store.add_reminder(String::from("x"), ts(0));
    let reminders = store.reminders.clone();
    assert!(ReminderStore::from_parts(reminders.clone(), 1).is_some());
    // id not below next_id
    assert!(ReminderStore::from_parts(reminders.clone(), 0).is_none());
    // duplicate ids
    let mut dup = reminders.clone();
    dup.push(reminders[0].clone());
    assert!(ReminderStore::from_parts(dup, 5).is_none());
}
