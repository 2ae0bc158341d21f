use events_api::api;
use events_api::store::EventStore;

#[test]
fn test_get_events() {
    let store = EventStore::seeded();

    // Default response
    let body = api::get_events(&store, None);
    let expected_body = "{\"events\":{\"1\":{\"id\":1,\"title\":\"First Event\"},\"2\":{\"id\":2,\"title\":\"Second Event\"},\"3\":{\"id\":3,\"title\":\"Third Event\"}},\"page\":1}".to_string();
    assert_eq!(body, expected_body);

    // Response for an existing page: same entries, the page echoed
    let page = api::parse_usize("2");
    let body = api::get_events(&store, page);
    let expected_body = "{\"events\":{\"1\":{\"id\":1,\"title\":\"First Event\"},\"2\":{\"id\":2,\"title\":\"Second Event\"},\"3\":{\"id\":3,\"title\":\"Third Event\"}},\"page\":2}".to_string();
    assert_eq!(body, expected_body);

    // Response for an invalid page value: silently defaults to 1
    let page = api::parse_usize("test");
    assert_eq!(page, None);
    let body = api::get_events(&store, page);
    let expected_body = "{\"events\":{\"1\":{\"id\":1,\"title\":\"First Event\"},\"2\":{\"id\":2,\"title\":\"Second Event\"},\"3\":{\"id\":3,\"title\":\"Third Event\"}},\"page\":1}".to_string();
    assert_eq!(body, expected_body);
}

#[test]
fn test_get_event() {
    let store = EventStore::seeded();

    // Existing event
    let body = api::get_event(&store, 1);
    let expected_body = "{\"id\":1,\"title\":\"First Event\"}".to_string();
    assert_eq!(body, Some(expected_body));

    // Non-existing event: signalled as not found
    assert!(api::get_event(&store, 10).is_none());

    // An identifier segment that does not parse: not found as well
    assert_eq!(api::parse_usize("test"), None);
}

#[test]
fn test_delete_event() {
    let mut store = EventStore::seeded();

    // Existing event: deletion is acknowledged
    let r = api::delete_event(&mut store, 1);
    assert_eq!(r, Some("{\"status\":\"ok\",\"id\":1}".to_string()));

    // The event is actually removed
    assert!(api::get_event(&store, 1).is_none());

    // Non-existing event
    assert!(api::get_event(&store, 10).is_none());

    // An identifier segment that does not parse
    assert_eq!(api::parse_usize("test"), None);
}

#[test]
fn test_new_event() {
    let mut store = EventStore::seeded();

    // Create a new event
    let (id, body) = api::new_event(&mut store, "Fourth Event".to_string());
    let location = api::event_location(id);
    assert_eq!(location, "/events/4");
    assert_eq!(body, "{\"id\":4,\"title\":\"Fourth Event\"}");

    // The event is actually created, reachable under the advertised location
    let id_segment = location.strip_prefix("/events/").unwrap();
    let id = api::parse_usize(id_segment).unwrap();
    let body = api::get_event(&store, id);
    let expected_body = "{\"id\":4,\"title\":\"Fourth Event\"}".to_string();
    assert_eq!(body, Some(expected_body));
}

#[test]
fn test_update_event() {
    // The update operation is a placeholder: whatever the submitted title,
    // it answers with a fixed record carrying the given identifier, and
    // the store is never consulted or changed.
    let body = api::update_event(10, "Test Event".to_string());
    assert_eq!(body, "{\"id\":10,\"title\":\"First Event\"}");

    let store = EventStore::seeded();
    assert!(api::get_event(&store, 10).is_none());
}

#[test]
fn insert_ids_strictly_increase() {
    // Identifiers assigned by consecutive insertions are strictly
    // increasing: each is one more than the previous maximum, starting
    // at 1 for an empty store.
    let mut store = EventStore::new();
    let a = store.insert("a".to_string());
    let b = store.insert("b".to_string());
    let c = store.insert("c".to_string());
    assert_eq!(a, 1);
    assert_eq!(b, a + 1);
    assert_eq!(c, b + 1);

    let mut seeded = EventStore::seeded();
    assert_eq!(seeded.insert("d".to_string()), 4);
}

#[test]
fn insert_after_delete_follows_max_policy() {
    // The next identifier is always 1 + max(existing): deleting the
    // topmost entry frees its identifier for the next insertion.
    let mut store = EventStore::seeded();
    assert!(store.delete(3));
    assert_eq!(store.insert("again".to_string()), 3);
}

#[test]
fn get_after_insert_returns_record() {
    let mut store = EventStore::new();
    let id = store.insert("Launch".to_string());
    let e = store.get(id).unwrap();
    assert_eq!(e.id, Some(id));
    assert_eq!(e.title, "Launch");
}

#[test]
fn get_after_delete_is_not_found() {
    let mut store = EventStore::seeded();
    assert!(store.delete(2));
    assert!(store.get(2).is_none());
}

#[test]
fn delete_missing_keeps_store() {
    let mut store = EventStore::seeded();
    let before = api::get_events(&store, None);
    assert_eq!(store.len(), 3);
    assert!(!store.delete(10));
    assert_eq!(store.len(), 3);
    assert_eq!(api::get_events(&store, None), before);
}

#[test]
fn list_of_empty_store_is_empty() {
    let store = EventStore::new();
    assert_eq!(store.len(), 0);
    assert!(store.list().is_empty());
    assert_eq!(api::get_events(&store, None), "{\"events\":{},\"page\":1}");
}

#[test]
fn list_returns_all_records_in_id_order() {
    let store = EventStore::seeded();
    let all = store.list();
    assert_eq!(all.len(), 3);
    assert_eq!(all[0].id, Some(1));
    assert_eq!(all[0].title, "First Event");
    assert_eq!(all[1].id, Some(2));
    assert_eq!(all[1].title, "Second Event");
    assert_eq!(all[2].id, Some(3));
    assert_eq!(all[2].title, "Third Event");
}

#[test]
fn next_insert_id_is_one_past_max() {
    let a: usize = 1;
    let b: usize = 7;
    let c: usize = 3;
    assert_eq!(events_api::store::next_insert_id(vec![&a, &b, &c]), 8);
    assert_eq!(events_api::store::next_insert_id(vec![&c]), 4);
    assert_eq!(events_api::store::next_insert_id(Vec::new()), 1);
}

#[test]
fn parse_usize_accepts_numerals_only() {
    assert_eq!(api::parse_usize("0"), Some(0));
    assert_eq!(api::parse_usize("42"), Some(42));
    assert_eq!(api::parse_usize("007"), Some(7));
    assert_eq!(api::parse_usize(""), None);
    assert_eq!(api::parse_usize("12a"), None);
    assert_eq!(api::parse_usize("-1"), None);
    assert_eq!(api::parse_usize("18446744073709551615"), Some(usize::MAX));
    assert_eq!(api::parse_usize("18446744073709551616"), None);
    assert_eq!(api::parse_usize("99999999999999999999999999"), None);
}

#[test]
fn numerals_render_exactly() {
    assert_eq!(events_api::json::usize_to_string(0), "0");
    assert_eq!(events_api::json::usize_to_string(10), "10");
    assert_eq!(events_api::json::usize_to_string(907), "907");
    assert_eq!(
        events_api::json::usize_to_string(usize::MAX),
        "18446744073709551615"
    );
}

#[test]
fn titles_are_json_escaped() {
    let mut store = EventStore::new();
    let (id, body) = api::new_event(&mut store, "a\"b\\c\nd\te\ru\u{1}".to_string());
    assert_eq!(id, 1);
    assert_eq!(
        body,
        "{\"id\":1,\"title\":\"a\\\"b\\\\c\\nd\\te\\ru\\u0001\"}"
    );
    let fetched = api::get_event(&store, id);
    assert_eq!(fetched, Some(body));
}

#[test]
fn store_well_formedness_is_checkable() {
    let store = EventStore::seeded();
    assert!(store.is_well_formed());
    assert!(store.can_insert_now());
    let empty = EventStore::new();
    assert!(empty.is_well_formed());
    assert!(empty.can_insert_now());
}

#[test]
fn event_location_renders_id() {
    assert_eq!(api::event_location(1), "/events/1");
    assert_eq!(api::event_location(12345), "/events/12345");
}
