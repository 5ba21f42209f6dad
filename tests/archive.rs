use ngram::database::Database;
use ngram::multimap::ConcurrentMultiMap;

fn sorted(mut v: Vec<usize>) -> Vec<usize> {
    v.sort();
    v
}

#[test]
fn multimap_starts_empty() {
    let m = ConcurrentMultiMap::new(4);
    assert_eq!(m.get("a"), Vec::<usize>::new());
}

#[test]
fn multimap_set_twice_keeps_one() {
    let mut m = ConcurrentMultiMap::new(8);
    m.set("k".to_string(), 5);
    m.set("k".to_string(), 5);
    assert_eq!(m.get("k"), vec![5]);
}

#[test]
fn multimap_values_in_order_of_first_set() {
    let mut m = ConcurrentMultiMap::new(3);
    m.set("k".to_string(), 9);
    m.set("other".to_string(), 1);
    m.set("k".to_string(), 2);
    m.set("k".to_string(), 9);
    assert_eq!(m.get("k"), vec![9, 2]);
    assert_eq!(m.get("other"), vec![1]);
    assert_eq!(m.get("missing"), Vec::<usize>::new());
}

#[test]
fn multimap_one_bucket_many_keys() {
    let mut m = ConcurrentMultiMap::new(1);
    for (i, k) in ["a", "b", "c", "a"].iter().enumerate() {
        m.set(k.to_string(), i);
    }
    assert_eq!(m.get("a"), vec![0, 3]);
    assert_eq!(m.get("b"), vec![1]);
    assert_eq!(m.get("c"), vec![2]);
}

#[test]
fn multimap_many_buckets_spread_keys() {
    let mut m = ConcurrentMultiMap::new(128);
    for i in 0..200usize {
        m.set(format!("w{}", i), i);
    }
    for i in 0..200usize {
        assert_eq!(m.get(&format!("w{}", i)), vec![i]);
    }
}

#[test]
fn database_ids_are_dense() {
    let mut db = Database::new();
    for i in 0..10usize {
        assert_eq!(db.publish(format!("doc {}", i)), i);
    }
    for i in 0..10usize {
        assert_eq!(db.retrieve(i), Some(format!("doc {}", i)));
    }
    assert_eq!(db.retrieve(10), None);
}

#[test]
fn database_search_finds_words() {
    let mut db = Database::new();
    assert_eq!(db.publish("apple pie".to_string()), 0);
    assert_eq!(db.publish("apple tart".to_string()), 1);
    assert_eq!(db.publish("  pie\tand\ncream  ".to_string()), 2);
    assert_eq!(sorted(db.search("apple")), vec![0, 1]);
    assert_eq!(sorted(db.search("pie")), vec![0, 2]);
    assert_eq!(db.search("cream"), vec![2]);
    assert_eq!(db.search("banana"), Vec::<usize>::new());
    assert_eq!(db.search("Apple"), Vec::<usize>::new());
    assert_eq!(db.search(""), Vec::<usize>::new());
}

#[test]
fn database_repeated_word_indexed_once() {
    let mut db = Database::new();
    db.publish("la la la".to_string());
    assert_eq!(db.search("la"), vec![0]);
}

#[test]
fn database_empty_document() {
    let mut db = Database::new();
    assert_eq!(db.publish(String::new()), 0);
    assert_eq!(db.retrieve(0), Some(String::new()));
    assert_eq!(db.search(""), Vec::<usize>::new());
}

#[test]
fn database_retrieve_empty_archive() {
    let db = Database::new();
    assert_eq!(db.retrieve(0), None);
    assert_eq!(db.retrieve(usize::MAX), None);
}
