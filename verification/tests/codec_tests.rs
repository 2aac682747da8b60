use reminder::store::ReminderStore;
use reminder::time::Timestamp;

fn ts(seconds: i64, offset_seconds: i32) -> Timestamp {
    Timestamp { seconds, offset_seconds }
}

#[test]
fn stored_text_has_the_documented_shape() {
    let mut store = ReminderStore::new();
    store.add_reminder(String::from("Hi"), ts(100, 0));
    let text = store.to_json();
    assert_eq!(
        text,
        "{\"reminders\":{\"0\":{\"id\":0,\"content\":[72,105],\"created_at\":{\"seconds\":100,\"offset_seconds\":0},\"next_review\":{\"seconds\":86500,\"offset_seconds\":0},\"review_count\":0,\"completed\":false}},\"next_id\":1}"
    );
}

#[test]
fn empty_store_round_trips() {
    let store = ReminderStore::new();
    let text = store.to_json();
    assert_eq!(text, "{\"reminders\":{},\"next_id\":0}");
    let loaded = ReminderStore::from_json(&text).expect("empty store must load");
    assert!(loaded.reminders.is_empty());
    assert_eq!(loaded.next_id, 0);
}

#[test]
fn round_trip_is_lossless_for_all_fields() {
    let mut store = ReminderStore::new();
    store.add_reminder(String::from("plain ascii"), ts(-12_345, -18_000));
    store.add_reminder(String::from("unicode \u{2764} \u{1f980} caf\u{e9}"), ts(1_700_000_000, 19_800));
    let quirky = store.add_reminder(String::from("quotes \" and \\ and \n newline"), ts(0, 3_600));
    store.review_reminder(quirky, ts(5, 3_600)).unwrap();
    let done = store.add_reminder(String::new(), ts(77, 0));
    for k in 0..4 {
        store.review_reminder(done, ts(100 + k, 0)).unwrap();
    }
    store.remove_reminder(0).unwrap();

    let text = store.to_json();
    let loaded = ReminderStore::from_json(&text).expect("saved text must load");
    assert_eq!(loaded.next_id, store.next_id);
    assert_eq!(loaded.reminders.len(), store.reminders.len());
    for (a, b) in store.reminders.iter().zip(loaded.reminders.iter()) {
        assert_eq!(a.id, b.id);
        assert_eq!(a.content, b.content);
        assert_eq!(a.created_at, b.created_at);
        assert_eq!(a.next_review, b.next_review);
        assert_eq!(a.review_count, b.review_count);
        assert_eq!(a.completed, b.completed);
    }
    // The reloaded store serializes to the very same text.
    assert_eq!(loaded.to_json(), text);
}

#[test]
fn malformed_text_is_rejected() {
    assert!(ReminderStore::from_json("").is_none());
    assert!(ReminderStore::from_json("not json at all").is_none());
    assert!(ReminderStore::from_json("{\"reminders\":{},\"next_id\":0").is_none());
    assert!(ReminderStore::from_json("{\"reminders\":{},\"next_id\":0}x").is_none());
    // well-shaped but ill-formed: the record's id is not below next_id
    let bad = "{\"reminders\":{\"9\":{\"id\":9,\"content\":[],\"created_at\":{\"seconds\":0,\"offset_seconds\":0},\"next_review\":{\"seconds\":0,\"offset_seconds\":0},\"review_count\":0,\"completed\":false}},\"next_id\":1}";
    assert!(ReminderStore::from_json(bad).is_none());
}
