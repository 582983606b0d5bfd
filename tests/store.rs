use image_fingerprint::fgs::{HashStore, StoreError};
use image_fingerprint::ihash::IHash;

#[test]
fn hashstore_read_write() {
    let fname = "./test/data.json";
    let mut store = HashStore::default();
    store.add_hash(&IHash::from_str("9").unwrap(), "./test/pokemon/nonexistant.png");
    let text = store.to_json();

    let store_fs = HashStore::from_json(&text, fname).unwrap_or(HashStore::default());
    assert_eq!(
        store_fs.find(&IHash::from_str("9").unwrap()).unwrap(),
        "./test/pokemon/nonexistant.png"
    );
}

#[test]
fn store_round_trip_scenario() {
    let mut store = HashStore::new();
    store.add_hash(&IHash::from_str("9").unwrap(), "a.png");
    let text = store.to_json();
    let loaded = HashStore::from_json(&text, "store.json").unwrap();
    assert_eq!(loaded.find(&IHash::from_str("9").unwrap()), Some("a.png"));
}

#[test]
fn json_form_is_an_array_of_pairs() {
    let mut store = HashStore::new();
    store.add_hash(&IHash::new(9), "a.png");
    store.add_hash(&IHash::new(u64::MAX), "b \"quoted\".png");
    let text = store.to_json();
    assert_eq!(text, "[[9,\"a.png\"],[18446744073709551615,\"b \\\"quoted\\\".png\"]]");
    let loaded = HashStore::from_json(" [ [9, \"x\"] ] ", "p").unwrap();
    assert_eq!(loaded.find(&IHash::new(9)), Some("x"));
}

#[test]
fn malformed_store_text_is_an_error() {
    assert!(matches!(HashStore::from_json("not json", "p"), Err(StoreError::Malformed)));
    assert!(matches!(HashStore::from_json("[[\"9\", 3]]", "p"), Err(StoreError::Malformed)));
    assert!(matches!(HashStore::from_json("{\"a\": 1}", "p"), Err(StoreError::Malformed)));
}

#[test]
fn save_needs_a_bound_path() {
    let mut store = HashStore::new();
    store.add_hash(&IHash::new(1), "one.png");
    assert!(matches!(store.save(), Err(StoreError::NoPath)));
    assert_eq!(store.to_json(), "[[1,\"one.png\"]]");
    let text = store.to_json();
    let loaded = HashStore::from_json(&text, "store.json").unwrap();
    let (path, saved) = loaded.save().unwrap();
    assert_eq!(path, "store.json");
    assert_eq!(saved, text);
}

#[test]
fn find_returns_first_exact_match() {
    let mut store = HashStore::new();
    assert_eq!(store.find(&IHash::new(5)), None);
    store.add_hash(&IHash::new(4), "four.png");
    store.add_hash(&IHash::new(5), "first.png");
    store.add_hash(&IHash::new(5), "second.png");
    assert_eq!(store.find(&IHash::new(5)), Some("first.png"));
    assert_eq!(store.find(&IHash::new(6)), None);
    // the complement of a stored fingerprint is not an exact match
    assert_eq!(store.find(&IHash::new(!4u64)), None);
}

fn sample_store() -> HashStore {
    let mut store = HashStore::new();
    store.add_hash(&IHash::new(0b1111), "far.png");
    store.add_hash(&IHash::new(0b0000), "exact.png");
    store.add_hash(&IHash::new(0b0001), "near.png");
    store.add_hash(&IHash::new(0b0011), "middle.png");
    store
}

#[test]
fn find_heap_ranks_by_similarity() {
    let store = sample_store();
    let found = store.find_heap(&IHash::new(0), 3);
    assert_eq!(found, vec!["exact.png", "near.png", "middle.png"]);
    let all = store.find_heap(&IHash::new(0), 10);
    assert_eq!(all, vec!["exact.png", "near.png", "middle.png", "far.png"]);
    assert!(store.find_heap(&IHash::new(0), 0).is_empty());
}

#[test]
fn find_many_uses_best_query() {
    let store = sample_store();
    let queries = vec![IHash::new(0b1111), IHash::new(0b0000)];
    let found = store.find_many(&queries, 2);
    assert_eq!(found.len(), 2);
    assert!(found.contains(&"far.png".to_string()));
    assert!(found.contains(&"exact.png".to_string()));
    let one = store.find_many(&vec![IHash::new(0b0011)], 1);
    assert_eq!(one, vec!["middle.png"]);
}

#[test]
fn find_many_is_bounded_and_sorted() {
    let store = sample_store();
    let query = IHash::new(0b0111);
    for k in 0..7 {
        let found = store.find_many(&vec![query], k);
        assert_eq!(found.len(), k.min(4));
        let distances: Vec<u32> = found
            .iter()
            .map(|p| {
                let h = match p.as_str() {
                    "far.png" => 0b1111,
                    "exact.png" => 0,
                    "near.png" => 1,
                    _ => 0b0011,
                };
                IHash::new(h).dist(&query)
            })
            .collect();
        for pair in distances.windows(2) {
            assert!(pair[0] <= pair[1]);
        }
    }
    assert!(HashStore::new().find_many(&vec![query], 5).is_empty());
}
