use event_index::database::DatabaseIndexes;
use event_index::event::{Event, EventIndexResult, Filter, Tag};

fn id(n: u8) -> [u8; 32] {
    [n; 32]
}

fn tag(letter: char, values: &[&str]) -> Tag {
    Tag { letter, values: values.iter().map(|v| v.to_string()).collect() }
}

fn event(n: u8, author: u8, kind: u16, created_at: u64, tags: Vec<Tag>) -> Event {
    Event { id: id(n), pubkey: id(author), created_at, kind, tags, expired: false }
}

fn by_kind(kind: u16) -> Filter {
    let mut f = Filter::new();
    f.kinds = vec![kind];
    f
}

#[test]
fn new_engine_answers_nothing() {
    let db = DatabaseIndexes::new();
    assert!(db.has_room());
    assert_eq!(db.query(&by_kind(1)), Vec::<[u8; 32]>::new());
}

#[test]
fn admitted_event_is_reported_for_storage() {
    let mut db = DatabaseIndexes::new();
    let r = db.index_event(&event(1, 9, 1, 100, vec![]));
    assert_eq!(r, EventIndexResult { to_store: true, to_discard: vec![] });
    assert_eq!(db.query(&by_kind(1)), vec![id(1)]);
}

#[test]
fn default_result_stores_nothing() {
    let r = EventIndexResult::default();
    assert!(!r.to_store);
    assert!(r.to_discard.is_empty());
}

#[test]
fn expired_event_is_not_admitted() {
    let mut db = DatabaseIndexes::new();
    let mut e = event(1, 9, 1, 100, vec![tag('e', &["x"])]);
    e.expired = true;
    let r = db.index_event(&e);
    assert!(!r.to_store);
    assert!(r.to_discard.is_empty());
    assert!(db.query(&by_kind(1)).is_empty());
    let mut f = Filter::new();
    f.authors = vec![id(9)];
    assert!(db.query(&f).is_empty());
    let mut f = Filter::new();
    f.since = Some(0);
    assert!(db.query(&f).is_empty());
    let mut f = Filter::new();
    f.generic_tags = vec![tag('e', &["x"])];
    assert!(db.query(&f).is_empty());
}

#[test]
fn ephemeral_event_is_not_admitted() {
    let mut db = DatabaseIndexes::new();
    for kind in [20_000u16, 25_000, 29_999] {
        let e = event(1, 9, kind, 100, vec![]);
        assert!(e.is_ephemeral());
        let r = db.index_event(&e);
        assert!(!r.to_store);
        assert!(r.to_discard.is_empty());
        assert!(db.query(&by_kind(kind)).is_empty());
    }
    let mut f = Filter::new();
    f.until = Some(u64::MAX);
    assert!(db.query(&f).is_empty());
}

#[test]
fn ephemeral_kinds_are_those_from_20000_up_to_30000() {
    for kind in 0..=u16::MAX {
        let e = event(1, 9, kind, 100, vec![]);
        assert_eq!(e.is_ephemeral(), (20_000..30_000).contains(&kind));
    }
}

#[test]
fn kinds_next_to_the_ephemeral_range_are_admitted() {
    let mut db = DatabaseIndexes::new();
    for (n, kind) in [(1u8, 19_999u16), (2, 30_000), (3, 0), (4, 65_535)] {
        let e = event(n, 9, kind, 100, vec![]);
        assert!(!e.is_ephemeral());
        assert!(db.index_event(&e).to_store);
        assert_eq!(db.query(&by_kind(kind)), vec![id(n)]);
    }
}

#[test]
fn excluded_event_does_not_use_a_surrogate_key() {
    let mut db = DatabaseIndexes::new();
    let first = db.next_sid();
    let mut e = event(1, 9, 1, 100, vec![]);
    e.expired = true;
    db.index_event(&e);
    let second = db.next_sid();
    assert_eq!(first.to_u64() + 1, second.to_u64());
}

#[test]
fn surrogate_keys_increase() {
    let mut db = DatabaseIndexes::new();
    let a = db.next_sid();
    let b = db.next_sid();
    let c = db.next_sid();
    assert_eq!(a.0, [0, 0, 0, 0, 0, 0, 0, 1]);
    assert_eq!(b.0, [0, 0, 0, 0, 0, 0, 0, 2]);
    assert_eq!(c.0, [0, 0, 0, 0, 0, 0, 0, 3]);
    assert!(a.0 < b.0 && b.0 < c.0);
    assert!(a.to_u64() < b.to_u64() && b.to_u64() < c.to_u64());
}

#[test]
fn results_come_oldest_first() {
    let mut db = DatabaseIndexes::new();
    db.index_event(&event(1, 9, 1, 100, vec![]));
    db.index_event(&event(2, 9, 1, 200, vec![]));
    assert_eq!(db.query(&by_kind(1)), vec![id(1), id(2)]);
}

#[test]
fn results_come_oldest_first_whatever_the_order_of_arrival() {
    let mut db = DatabaseIndexes::new();
    db.index_event(&event(2, 9, 1, 200, vec![]));
    db.index_event(&event(1, 9, 1, 100, vec![]));
    assert_eq!(db.query(&by_kind(1)), vec![id(1), id(2)]);
}

#[test]
fn equal_timestamps_come_latest_arrival_first() {
    let mut db = DatabaseIndexes::new();
    db.index_event(&event(1, 9, 1, 100, vec![]));
    db.index_event(&event(2, 9, 1, 100, vec![]));
    db.index_event(&event(3, 9, 1, 100, vec![]));
    assert_eq!(db.query(&by_kind(1)), vec![id(3), id(2), id(1)]);
    let mut f = by_kind(1);
    f.limit = Some(2);
    assert_eq!(db.query(&f), vec![id(2), id(1)]);
}

#[test]
fn limit_keeps_the_newest_oldest_first() {
    let mut db = DatabaseIndexes::new();
    db.index_event(&event(1, 9, 1, 100, vec![]));
    db.index_event(&event(2, 9, 1, 200, vec![]));
    db.index_event(&event(3, 9, 1, 300, vec![]));
    db.index_event(&event(4, 9, 1, 400, vec![]));
    let mut f = by_kind(1);
    f.limit = Some(2);
    assert_eq!(db.query(&f), vec![id(3), id(4)]);
}

#[test]
fn limit_edge_cases() {
    let mut db = DatabaseIndexes::new();
    db.index_event(&event(1, 9, 1, 100, vec![]));
    db.index_event(&event(2, 9, 1, 200, vec![]));
    let mut f = by_kind(1);
    f.limit = Some(0);
    assert!(db.query(&f).is_empty());
    f.limit = Some(1);
    assert_eq!(db.query(&f), vec![id(2)]);
    f.limit = Some(2);
    assert_eq!(db.query(&f), vec![id(1), id(2)]);
    f.limit = Some(usize::MAX);
    assert_eq!(db.query(&f), vec![id(1), id(2)]);
}

#[test]
fn predicates_narrow_each_other() {
    let mut db = DatabaseIndexes::new();
    db.index_event(&event(1, 7, 1, 100, vec![]));
    db.index_event(&event(2, 8, 1, 200, vec![]));
    db.index_event(&event(3, 8, 2, 300, vec![]));
    let mut f = by_kind(1);
    f.authors = vec![id(8)];
    assert_eq!(db.query(&f), vec![id(2)]);
    assert_eq!(db.query(&by_kind(1)), vec![id(1), id(2)]);
}

#[test]
fn a_predicate_without_candidates_empties_the_result() {
    let mut db = DatabaseIndexes::new();
    db.index_event(&event(1, 7, 1, 100, vec![]));
    // No event is of kind 5: the author and time predicates cannot bring any back.
    let mut f = by_kind(5);
    f.authors = vec![id(7)];
    assert!(db.query(&f).is_empty());
    f.since = Some(0);
    assert!(db.query(&f).is_empty());
    // The author is unknown: the time predicate that follows cannot bring the event back.
    let mut f = by_kind(1);
    f.authors = vec![id(6)];
    f.until = Some(1_000);
    assert!(db.query(&f).is_empty());
}

#[test]
fn several_keys_of_one_predicate_are_alternatives() {
    let mut db = DatabaseIndexes::new();
    db.index_event(&event(1, 7, 1, 100, vec![]));
    db.index_event(&event(2, 8, 2, 200, vec![]));
    db.index_event(&event(3, 9, 3, 300, vec![]));
    let mut f = Filter::new();
    f.kinds = vec![3, 1, 1, 77];
    assert_eq!(db.query(&f), vec![id(1), id(3)]);
    let mut f = Filter::new();
    f.authors = vec![id(8), id(9)];
    assert_eq!(db.query(&f), vec![id(2), id(3)]);
}

#[test]
fn tag_values_must_all_be_present() {
    let mut db = DatabaseIndexes::new();
    db.index_event(&event(1, 7, 1, 100, vec![tag('e', &["x", "y"])]));
    let mut f = Filter::new();
    f.generic_tags = vec![tag('e', &["x"])];
    assert_eq!(db.query(&f), vec![id(1)]);
    f.generic_tags = vec![tag('e', &["y", "x"])];
    assert_eq!(db.query(&f), vec![id(1)]);
    f.generic_tags = vec![tag('e', &["x", "z"])];
    assert!(db.query(&f).is_empty());
    f.generic_tags = vec![tag('p', &["x"])];
    assert!(db.query(&f).is_empty());
}

#[test]
fn tag_letters_must_all_be_met() {
    let mut db = DatabaseIndexes::new();
    db.index_event(&event(1, 7, 1, 100, vec![tag('e', &["x"]), tag('p', &["k"])]));
    db.index_event(&event(2, 7, 1, 200, vec![tag('e', &["x"])]));
    db.index_event(&event(3, 7, 1, 300, vec![tag('p', &["k"])]));
    let mut f = Filter::new();
    f.generic_tags = vec![tag('e', &["x"]), tag('p', &["k"])];
    assert_eq!(db.query(&f), vec![id(1)]);
    f.generic_tags = vec![tag('e', &["x"])];
    assert_eq!(db.query(&f), vec![id(1), id(2)]);
    f.generic_tags = vec![tag('p', &["k"])];
    assert_eq!(db.query(&f), vec![id(1), id(3)]);
}

#[test]
fn values_of_one_letter_are_gathered_over_all_tags() {
    let mut db = DatabaseIndexes::new();
    db.index_event(&event(1, 7, 1, 100, vec![tag('e', &["x"]), tag('t', &["a"]), tag('e', &["y"])]));
    let mut f = Filter::new();
    f.generic_tags = vec![tag('e', &["x", "y"])];
    assert_eq!(db.query(&f), vec![id(1)]);
    f.generic_tags = vec![tag('e', &["x", "a"])];
    assert!(db.query(&f).is_empty());
}

#[test]
fn time_range_is_inclusive() {
    let mut db = DatabaseIndexes::new();
    db.index_event(&event(1, 7, 1, 100, vec![]));
    db.index_event(&event(2, 7, 1, 200, vec![]));
    db.index_event(&event(3, 7, 1, 300, vec![]));
    let mut f = Filter::new();
    f.since = Some(200);
    f.until = Some(200);
    assert_eq!(db.query(&f), vec![id(2)]);
    f.since = Some(100);
    f.until = Some(200);
    assert_eq!(db.query(&f), vec![id(1), id(2)]);
    f.since = Some(201);
    f.until = None;
    assert_eq!(db.query(&f), vec![id(3)]);
    f.since = None;
    f.until = Some(199);
    assert_eq!(db.query(&f), vec![id(1)]);
    f.since = Some(150);
    f.until = Some(160);
    assert!(db.query(&f).is_empty());
}

#[test]
fn inverted_time_range_matches_nothing() {
    let mut db = DatabaseIndexes::new();
    db.index_event(&event(1, 7, 1, 100, vec![]));
    let mut f = by_kind(1);
    f.since = Some(101);
    f.until = Some(100);
    assert!(db.query(&f).is_empty());
    let mut f = Filter::new();
    f.since = Some(u64::MAX);
    f.until = Some(0);
    assert!(db.query(&f).is_empty());
}

#[test]
fn named_identifiers_are_handed_back_as_they_are() {
    let mut db = DatabaseIndexes::new();
    db.index_event(&event(1, 7, 1, 100, vec![]));
    let mut f = by_kind(1);
    f.ids = vec![id(42), id(1), id(42)];
    f.since = Some(5);
    f.until = Some(1);
    f.limit = Some(1);
    assert_eq!(db.query(&f), vec![id(42), id(1), id(42)]);
    let empty = DatabaseIndexes::new();
    assert_eq!(empty.query(&f), vec![id(42), id(1), id(42)]);
}

#[test]
fn filter_without_predicates_matches_nothing() {
    let mut db = DatabaseIndexes::new();
    db.index_event(&event(1, 7, 1, 100, vec![]));
    assert!(db.query(&Filter::new()).is_empty());
    let mut f = Filter::new();
    f.limit = Some(10);
    assert!(db.query(&f).is_empty());
}

#[test]
fn reading_twice_gives_the_same_answer() {
    let mut db = DatabaseIndexes::new();
    db.index_event(&event(1, 7, 1, 100, vec![tag('e', &["x"])]));
    db.index_event(&event(2, 8, 1, 100, vec![tag('e', &["x"])]));
    db.index_event(&event(3, 7, 2, 50, vec![]));
    let mut f = by_kind(1);
    f.generic_tags = vec![tag('e', &["x"])];
    f.limit = Some(5);
    let once = db.query(&f);
    let again = db.query(&f);
    assert_eq!(once, again);
    assert_eq!(once, vec![id(2), id(1)]);
}

#[test]
fn clear_resets_the_engine_to_empty() {
    let mut db = DatabaseIndexes::new();
    db.index_event(&event(1, 7, 1, 100, vec![tag('e', &["x"])]));
    db.index_event(&event(2, 8, 2, 200, vec![tag('p', &["k"])]));
    db.clear();
    assert!(db.query(&by_kind(1)).is_empty());
    assert!(db.query(&by_kind(2)).is_empty());
    let mut f = Filter::new();
    f.authors = vec![id(7), id(8)];
    assert!(db.query(&f).is_empty());
    let mut f = Filter::new();
    f.since = Some(0);
    assert!(db.query(&f).is_empty());
    let mut f = Filter::new();
    f.until = Some(u64::MAX);
    assert!(db.query(&f).is_empty());
    let mut f = Filter::new();
    f.generic_tags = vec![tag('e', &["x"])];
    assert!(db.query(&f).is_empty());
    f.generic_tags = vec![tag('p', &[])];
    assert!(db.query(&f).is_empty());
    assert!(db.matching_keys(&by_kind(1)).is_empty());
}

#[test]
fn clear_of_an_empty_engine_changes_nothing() {
    let mut db = DatabaseIndexes::new();
    db.clear();
    assert!(db.query(&by_kind(1)).is_empty());
    assert!(db.index_event(&event(1, 7, 1, 100, vec![])).to_store);
    assert_eq!(db.query(&by_kind(1)), vec![id(1)]);
    assert_eq!(db.matching_keys(&by_kind(1)).get(0).sid.to_u64(), 1);
}

#[test]
fn surrogate_keys_go_on_after_clear() {
    let mut db = DatabaseIndexes::new();
    db.index_event(&event(1, 7, 1, 100, vec![]));
    db.index_event(&event(2, 7, 1, 200, vec![]));
    db.clear();
    db.index_event(&event(3, 7, 1, 50, vec![tag('e', &["x"])]));
    let keys = db.matching_keys(&by_kind(1));
    assert_eq!(keys.len(), 1);
    assert_eq!(keys.get(0).timestamp, 50);
    assert_eq!(keys.get(0).sid.to_u64(), 3);
    assert_eq!(db.query(&by_kind(1)), vec![id(3)]);
    let mut f = Filter::new();
    f.since = Some(0);
    assert_eq!(db.query(&f), vec![id(3)]);
    let mut f = Filter::new();
    f.generic_tags = vec![tag('e', &["x"])];
    assert_eq!(db.query(&f), vec![id(3)]);
    assert_eq!(db.next_sid().to_u64(), 4);
}

#[test]
fn each_admitted_event_gets_a_higher_surrogate_key() {
    let mut db = DatabaseIndexes::new();
    for n in 1..=5u8 {
        db.index_event(&event(n, 7, 1, 100, vec![]));
    }
    let keys = db.matching_keys(&by_kind(1));
    let sids: Vec<u64> = (0..keys.len()).map(|i| keys.get(i).sid.to_u64()).collect();
    assert_eq!(sids, vec![1, 2, 3, 4, 5]);
    assert_eq!(db.query(&by_kind(1)), vec![id(5), id(4), id(3), id(2), id(1)]);
}

#[test]
fn matching_keys_are_newest_first() {
    let mut db = DatabaseIndexes::new();
    db.index_event(&event(1, 7, 1, 100, vec![]));
    db.index_event(&event(2, 7, 1, 300, vec![]));
    db.index_event(&event(3, 7, 1, 200, vec![]));
    let keys = db.matching_keys(&by_kind(1));
    assert_eq!(keys.len(), 3);
    assert_eq!(keys.get(0).timestamp, 300);
    assert_eq!(keys.get(1).timestamp, 200);
    assert_eq!(keys.get(2).timestamp, 100);
    assert_eq!(keys.get(0).sid.to_u64(), 2);
}
