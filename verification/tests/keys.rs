use std::cmp::Ordering;

use event_index::assoc::{AssocList, ExactEq};
use event_index::buckets::{AuthorIndex, CreatedAtIndex, KindIndex};
use event_index::event::{collect_values, Tag};
use event_index::ident::{MappingIdentifier, SmallerIdentifier};
use event_index::keyset::KeySet;
use event_index::mapping::Mapping;
use event_index::query::{copy_ids, intersect_or_extend, narrow, paginate};
use event_index::tags::{holds, holds_all, TagBucket, TagIndex};

fn key(timestamp: u64, sid: u64) -> MappingIdentifier {
    MappingIdentifier { timestamp, sid: SmallerIdentifier::from_u64(sid) }
}

fn set_of(keys: &[(u64, u64)]) -> KeySet {
    let mut s = KeySet::new();
    for (t, n) in keys {
        s.insert(key(*t, *n));
    }
    s
}

fn listed(s: &KeySet) -> Vec<(u64, u64)> {
    (0..s.len()).map(|i| (s.get(i).timestamp, s.get(i).sid.to_u64())).collect()
}

fn strings(values: &[&str]) -> Vec<String> {
    values.iter().map(|v| v.to_string()).collect()
}

#[test]
fn surrogate_key_is_big_endian() {
    let sid = SmallerIdentifier::from_u64(0x0102_0304_0506_0708);
    assert_eq!(sid.0, [1, 2, 3, 4, 5, 6, 7, 8]);
    assert_eq!(sid.0, 0x0102_0304_0506_0708u64.to_be_bytes());
    assert_eq!(sid.to_u64(), 0x0102_0304_0506_0708);
    assert_eq!(SmallerIdentifier::new([0; 8]).to_u64(), 0);
    assert_eq!(SmallerIdentifier::new([255; 8]).to_u64(), u64::MAX);
    assert_eq!(SmallerIdentifier::from_u64(u64::MAX).0, [255; 8]);
    assert_eq!(SmallerIdentifier::from_u64(256).0, [0, 0, 0, 0, 0, 0, 1, 0]);
}

#[test]
fn surrogate_key_new_keeps_the_bytes() {
    let sid = SmallerIdentifier::new([9, 8, 7, 6, 5, 4, 3, 2]);
    assert_eq!(sid.0, [9, 8, 7, 6, 5, 4, 3, 2]);
    assert_eq!(sid, SmallerIdentifier(u64::from_be_bytes([9, 8, 7, 6, 5, 4, 3, 2]).to_be_bytes()));
}

#[test]
fn byte_order_agrees_with_numeric_order() {
    let numbers = [0u64, 1, 255, 256, 65_535, 65_536, 1 << 40, u64::MAX - 1, u64::MAX];
    for a in numbers {
        for b in numbers {
            let x = SmallerIdentifier::from_u64(a);
            let y = SmallerIdentifier::from_u64(b);
            assert_eq!(x.0 < y.0, a < b);
            assert_eq!(x.0 == y.0, a == b);
            assert_eq!(x < y, a < b);
            assert_eq!(x.cmp(&y), a.cmp(&b));
        }
    }
}

#[test]
fn later_timestamp_comes_first() {
    assert!(key(200, 5).precedes(&key(100, 1)));
    assert!(!key(100, 1).precedes(&key(200, 5)));
    assert!(key(200, 5) < key(100, 1));
    assert!(key(100, 1) > key(200, 5));
}

#[test]
fn comparison_follows_index_order() {
    assert_eq!(key(200, 5).partial_cmp(&key(100, 1)), Some(Ordering::Less));
    assert_eq!(key(100, 1).partial_cmp(&key(200, 5)), Some(Ordering::Greater));
    assert_eq!(key(100, 1).partial_cmp(&key(100, 2)), Some(Ordering::Less));
    assert_eq!(key(100, 2).partial_cmp(&key(100, 1)), Some(Ordering::Greater));
    assert_eq!(key(100, 2).partial_cmp(&key(100, 2)), Some(Ordering::Equal));
    assert!(key(100, 2) <= key(100, 2));
    assert!(key(100, 1) < key(100, 2));
}

#[test]
fn smaller_surrogate_key_breaks_the_tie() {
    assert!(key(100, 1).precedes(&key(100, 2)));
    assert!(!key(100, 2).precedes(&key(100, 1)));
    assert!(!key(100, 1).precedes(&key(100, 1)));
    assert!(key(100, 1).same(&key(100, 1)));
    assert!(!key(100, 1).same(&key(100, 2)));
    assert!(!key(100, 1).same(&key(101, 1)));
}

#[test]
fn key_set_keeps_index_order() {
    let s = set_of(&[(100, 1), (300, 2), (200, 3), (300, 1), (100, 1)]);
    assert_eq!(listed(&s), vec![(300, 1), (300, 2), (200, 3), (100, 1)]);
    assert!(!s.is_empty());
    assert!(KeySet::new().is_empty());
}

#[test]
fn key_set_insert_reports_new_keys() {
    let mut s = KeySet::new();
    assert!(s.insert(key(1, 1)));
    assert!(!s.insert(key(1, 1)));
    assert!(s.insert(key(1, 2)));
    assert_eq!(s.len(), 2);
    assert_eq!(s.place(key(5, 9)), (0, true));
    assert_eq!(s.place(key(1, 2)), (2, false));
    assert_eq!(s.place(key(0, 0)), (3, true));
}

#[test]
fn key_set_finds_keys() {
    let s = set_of(&[(100, 1), (300, 2), (200, 3)]);
    assert!(s.contains(&key(200, 3)));
    assert!(!s.contains(&key(200, 4)));
    assert_eq!(s.position(&key(300, 2)), Some(0));
    assert_eq!(s.position(&key(100, 1)), Some(2));
    assert_eq!(s.position(&key(100, 2)), None);
    assert_eq!(s.rank(&key(250, 0)), 1);
    assert_eq!(s.rank(&key(0, 0)), 3);
    assert_eq!(s.rank(&key(u64::MAX, 0)), 0);
}

#[test]
fn key_set_union_and_intersection() {
    let a = set_of(&[(100, 1), (200, 2), (300, 3)]);
    let b = set_of(&[(200, 2), (250, 4), (50, 5)]);
    assert_eq!(listed(&a.union(&b)), vec![(300, 3), (250, 4), (200, 2), (100, 1), (50, 5)]);
    assert_eq!(listed(&a.intersection(&b)), vec![(200, 2)]);
    assert_eq!(listed(&a.union(&KeySet::new())), listed(&a));
    assert_eq!(listed(&KeySet::new().union(&b)), listed(&b));
    assert!(a.intersection(&KeySet::new()).is_empty());
    assert!(KeySet::new().intersection(&b).is_empty());
}

#[test]
fn key_set_within_bounds() {
    let a = set_of(&[(100, 1), (200, 2), (300, 3)]);
    assert_eq!(listed(&a.within(Some(200), Some(200))), vec![(200, 2)]);
    assert_eq!(listed(&a.within(Some(200), None)), vec![(300, 3), (200, 2)]);
    assert_eq!(listed(&a.within(None, Some(200))), vec![(200, 2), (100, 1)]);
    assert_eq!(listed(&a.within(None, None)), listed(&a));
    assert!(a.within(Some(201), Some(299)).is_empty());
    assert!(a.within(Some(300), Some(100)).is_empty());
}

#[test]
fn intersect_or_extend_takes_over_when_empty() {
    let mut main = KeySet::new();
    let other = set_of(&[(100, 1), (200, 2)]);
    intersect_or_extend(&mut main, &other);
    assert_eq!(listed(&main), vec![(200, 2), (100, 1)]);
}

#[test]
fn intersect_or_extend_keeps_common_keys() {
    let mut main = set_of(&[(100, 1), (200, 2)]);
    let other = set_of(&[(200, 2), (300, 3)]);
    intersect_or_extend(&mut main, &other);
    assert_eq!(listed(&main), vec![(200, 2)]);
    intersect_or_extend(&mut main, &set_of(&[(300, 3)]));
    assert!(main.is_empty());
}

#[test]
fn narrow_keeps_an_emptied_set_empty() {
    let other = set_of(&[(100, 1)]);
    let mut running = KeySet::new();
    narrow(&mut running, true, &other);
    assert!(running.is_empty());
    narrow(&mut running, false, &other);
    assert_eq!(listed(&running), vec![(100, 1)]);
    narrow(&mut running, true, &set_of(&[(100, 1), (5, 5)]));
    assert_eq!(listed(&running), vec![(100, 1)]);
}

#[test]
fn paginate_takes_the_newest_and_turns_them_round() {
    let s = set_of(&[(100, 1), (200, 2), (300, 3), (400, 4)]);
    let stamps = |v: Vec<MappingIdentifier>| v.iter().map(|k| k.timestamp).collect::<Vec<u64>>();
    assert_eq!(stamps(paginate(&s, Some(2))), vec![300, 400]);
    assert_eq!(stamps(paginate(&s, None)), vec![100, 200, 300, 400]);
    assert_eq!(stamps(paginate(&s, Some(9))), vec![100, 200, 300, 400]);
    assert_eq!(stamps(paginate(&s, Some(0))), Vec::<u64>::new());
    assert_eq!(stamps(paginate(&KeySet::new(), Some(3))), Vec::<u64>::new());
}

#[test]
fn copy_ids_copies() {
    assert_eq!(copy_ids(&vec![[1; 32], [2; 32]]), vec![[1; 32], [2; 32]]);
    assert!(copy_ids(&vec![]).is_empty());
}

#[test]
fn mapping_resolves_and_passes_over_unknown_keys() {
    let mut m = Mapping::new();
    m.insert(SmallerIdentifier::from_u64(1), [1; 32]);
    m.insert(SmallerIdentifier::from_u64(2), [2; 32]);
    assert_eq!(m.get(&SmallerIdentifier::from_u64(2)), Some([2; 32]));
    assert_eq!(m.get(&SmallerIdentifier::from_u64(3)), None);
    let window = vec![key(10, 2), key(20, 7), key(30, 1)];
    assert_eq!(m.resolve(&window), vec![[2; 32], [1; 32]]);
    m.insert(SmallerIdentifier::from_u64(2), [9; 32]);
    assert_eq!(m.get(&SmallerIdentifier::from_u64(2)), Some([9; 32]));
    m.clear();
    assert_eq!(m.get(&SmallerIdentifier::from_u64(1)), None);
    assert_eq!(m.get(&SmallerIdentifier::from_u64(2)), None);
    assert!(m.resolve(&window).is_empty());
}

#[test]
fn association_list_behaves_as_a_map() {
    let mut list: AssocList<char, u8> = AssocList::new();
    assert_eq!(list.get(&'a'), None);
    list.insert('a', 1);
    list.insert('b', 2);
    list.insert('a', 3);
    assert_eq!(list.get(&'a'), Some(&3));
    assert_eq!(list.get(&'b'), Some(&2));
    assert_eq!(list.get(&'c'), None);
    assert_eq!(list.remove(&'b'), Some(2));
    assert_eq!(list.remove(&'b'), None);
    assert_eq!(list.get(&'b'), None);
    assert_eq!(list.get(&'a'), Some(&3));
    list.clear();
    assert_eq!(list.get(&'a'), None);
}

#[test]
fn exact_equality_of_keys() {
    assert!('a'.same(&'a'));
    assert!(!'a'.same(&'A'));
    let mut other = [3u8; 32];
    assert!([3u8; 32].same(&other));
    other[31] = 4;
    assert!(![3u8; 32].same(&other));
    other[31] = 3;
    other[0] = 0;
    assert!(![3u8; 32].same(&other));
}

#[test]
fn bucket_indexes_file_and_find() {
    let mut kinds = KindIndex::new();
    kinds.insert(1, key(100, 1));
    kinds.insert(1, key(200, 2));
    kinds.insert(2, key(150, 3));
    assert_eq!(listed(&kinds.query_index(&vec![1])), vec![(200, 2), (100, 1)]);
    assert_eq!(listed(&kinds.query_index(&vec![2, 1, 3])), vec![(200, 2), (150, 3), (100, 1)]);
    assert!(kinds.query_index(&vec![]).is_empty());
    assert!(kinds.query_index(&vec![9]).is_empty());
    kinds.clear();
    assert!(kinds.query_index(&vec![1, 2]).is_empty());
    kinds.insert(2, key(400, 9));
    assert_eq!(listed(&kinds.query_index(&vec![1, 2])), vec![(400, 9)]);
    let mut authors = AuthorIndex::new();
    authors.insert([1; 32], key(100, 1));
    authors.insert([2; 32], key(100, 2));
    authors.insert([1; 32], key(300, 3));
    assert_eq!(listed(&authors.query_index(&vec![[2; 32]])), vec![(100, 2)]);
    assert_eq!(listed(&authors.query_index(&vec![[1; 32], [2; 32]])), vec![(300, 3), (100, 1), (100, 2)]);
    authors.clear();
    assert!(authors.query_index(&vec![[1; 32], [2; 32]]).is_empty());
}

#[test]
fn created_at_index_scans_ranges() {
    let mut index = CreatedAtIndex::new();
    index.insert(key(100, 1));
    index.insert(key(100, 2));
    index.insert(key(200, 3));
    assert_eq!(listed(&index.range(Some(100), Some(100))), vec![(100, 1), (100, 2)]);
    assert_eq!(listed(&index.range(Some(101), None)), vec![(200, 3)]);
    assert_eq!(listed(&index.range(None, None)), vec![(200, 3), (100, 1), (100, 2)]);
    index.clear();
    assert!(index.range(None, None).is_empty());
    index.insert(key(300, 4));
    assert_eq!(listed(&index.range(None, None)), vec![(300, 4)]);
}

#[test]
fn strings_are_looked_up_exactly() {
    let have = strings(&["x", "y", ""]);
    assert!(holds(&have, &"x".to_string()));
    assert!(holds(&have, &"".to_string()));
    assert!(!holds(&have, &"X".to_string()));
    assert!(holds_all(&have, &strings(&["y", "x", "y"])));
    assert!(holds_all(&have, &strings(&[])));
    assert!(!holds_all(&have, &strings(&["x", "z"])));
    assert!(!holds_all(&strings(&[]), &strings(&["x"])));
}

#[test]
fn tag_values_are_collected_by_letter() {
    let tags = vec![
        Tag { letter: 'e', values: strings(&["x"]) },
        Tag { letter: 'p', values: strings(&["k"]) },
        Tag { letter: 'e', values: strings(&["y", "z"]) },
    ];
    assert_eq!(collect_values(&tags, 'e'), strings(&["x", "y", "z"]));
    assert_eq!(collect_values(&tags, 'p'), strings(&["k"]));
    assert!(collect_values(&tags, 'q').is_empty());
}

#[test]
fn tag_bucket_replaces_values() {
    let mut bucket = TagBucket::new();
    bucket.insert(key(100, 1), strings(&["x"]));
    bucket.insert(key(200, 2), strings(&["y"]));
    bucket.insert(key(100, 1), strings(&["z"]));
    assert_eq!(bucket.get(&key(100, 1)), Some(&strings(&["z"])));
    assert_eq!(bucket.get(&key(200, 2)), Some(&strings(&["y"])));
    assert_eq!(bucket.get(&key(300, 3)), None);
    assert_eq!(listed(bucket.keys()), vec![(200, 2), (100, 1)]);
}

#[test]
fn tag_index_answers_all_of() {
    let mut index = TagIndex::new();
    index.insert('e', key(100, 1), strings(&["x", "y"]));
    index.insert('p', key(100, 1), strings(&["k"]));
    index.insert('e', key(200, 2), strings(&["x"]));
    let want = |letter: char, values: &[&str]| Tag { letter, values: strings(values) };
    assert!(index.satisfies(&want('e', &["x", "y"]), &key(100, 1)));
    assert!(!index.satisfies(&want('e', &["x", "y"]), &key(200, 2)));
    assert!(!index.satisfies(&want('q', &["x"]), &key(100, 1)));
    assert!(index.satisfies(&want('q', &[]), &key(100, 1)));
    assert!(index.satisfies_all(&vec![want('e', &["x"]), want('p', &["k"])], &key(100, 1)));
    assert!(!index.satisfies_all(&vec![want('e', &["x"]), want('p', &["k"])], &key(200, 2)));
    assert_eq!(listed(&index.lookup(&vec![want('e', &["x"])])), vec![(200, 2), (100, 1)]);
    assert_eq!(listed(&index.lookup(&vec![want('e', &["x"]), want('p', &["k"])])), vec![(100, 1)]);
    assert!(index.lookup(&vec![want('e', &["nope"])]).is_empty());
    assert!(index.lookup(&vec![]).is_empty());
    index.clear();
    assert!(index.lookup(&vec![want('e', &["x"])]).is_empty());
    assert!(!index.satisfies(&want('e', &["x"]), &key(100, 1)));
}
