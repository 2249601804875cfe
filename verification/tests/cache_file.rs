use tab_strip::cache::{
    encode_cache, load_cache, parse_cache, CacheEntry, CacheStore, ClientLayout,
};

fn layout(tab_idx: usize, pane_id: u32, plugin: bool) -> ClientLayout {
    ClientLayout { tab_idx, pane_id, pane_is_plugin: plugin }
}

#[test]
fn encode_empty_store() {
    let store = CacheStore::new();
    assert_eq!(encode_cache(&store), b"{}");
}

#[test]
fn encode_one_entry_is_json() {
    let mut store = CacheStore::new();
    store.insert(42, layout(3, 17, false));
    let bytes = encode_cache(&store);
    assert_eq!(
        String::from_utf8(bytes).unwrap(),
        "{\"42\":{\"tab_idx\":3,\"pane\":[17,false]}}"
    );
}

#[test]
fn round_trip_returns_what_was_dumped() {
    let mut store = CacheStore::new();
    store.insert(42, layout(3, 17, false));
    store.insert(7, layout(0, 2, true));
    store.insert(4294967295, layout(usize::MAX, 4294967295, true));
    let bytes = encode_cache(&store);
    let back = parse_cache(&bytes).expect("own encoding must parse");
    assert_eq!(back.entries.len(), 3);
    assert_eq!(back.get(42), Some(layout(3, 17, false)));
    assert_eq!(back.get(7), Some(layout(0, 2, true)));
    assert_eq!(back.get(4294967295), Some(layout(usize::MAX, 4294967295, true)));
}

#[test]
fn round_trip_after_overwrite() {
    let mut store = CacheStore::new();
    store.insert(1, layout(1, 1, false));
    store.insert(1, layout(9, 9, true));
    let bytes = encode_cache(&store);
    let back = parse_cache(&bytes).unwrap();
    assert_eq!(back.entries.len(), 1);
    assert_eq!(back.get(1), Some(layout(9, 9, true)));
}

#[test]
fn insert_frames_other_clients() {
    let mut store = CacheStore::new();
    store.insert(1, layout(1, 1, false));
    store.insert(2, layout(2, 2, false));
    store.insert(1, layout(5, 5, true));
    assert_eq!(store.get(2), Some(layout(2, 2, false)));
}

#[test]
fn missing_entry_is_none() {
    let store = CacheStore::new();
    assert_eq!(store.get(5), None);
}

#[test]
fn corrupt_documents_are_refused() {
    assert!(parse_cache(b"garbage").is_none());
    assert!(parse_cache(b"").is_none());
    assert!(parse_cache(b"{").is_none());
    assert!(parse_cache(b"{}x").is_none());
    assert!(parse_cache(b"{\"1\":{\"tab_idx\":y,\"pane\":[1,true]}}").is_none());
    assert!(parse_cache(b"{\"99999999999999999999\":{\"tab_idx\":1,\"pane\":[1,true]}}").is_none());
}

#[test]
fn duplicate_ids_in_a_file_are_refused() {
    assert!(parse_cache(
        b"{\"1\":{\"tab_idx\":1,\"pane\":[1,true]},\"1\":{\"tab_idx\":2,\"pane\":[2,false]}}"
    )
    .is_none());
}

#[test]
fn zero_padded_numbers_are_refused() {
    assert!(parse_cache(b"{\"01\":{\"tab_idx\":1,\"pane\":[1,true]}}").is_none());
    assert!(parse_cache(b"{\"1\":{\"tab_idx\":00,\"pane\":[1,true]}}").is_none());
}

#[test]
fn load_of_missing_file_is_empty() {
    let store = load_cache(None);
    assert!(store.entries.is_empty());
}

#[test]
fn load_of_corrupt_file_is_empty() {
    let bytes: Vec<u8> = b"not json at all".to_vec();
    let store = load_cache(Some(&bytes));
    assert!(store.entries.is_empty());
}

#[test]
fn load_of_good_file_keeps_entries() {
    let mut store = CacheStore::new();
    store.insert(10, layout(2, 6, false));
    let bytes = encode_cache(&store);
    let back = load_cache(Some(&bytes));
    assert_eq!(back.get(10), Some(layout(2, 6, false)));
}

#[test]
fn entry_order_is_kept() {
    let mut store = CacheStore::new();
    store.insert(5, layout(1, 1, false));
    store.insert(3, layout(2, 2, false));
    let bytes = encode_cache(&store);
    let back = parse_cache(&bytes).unwrap();
    assert_eq!(back.entries[0], CacheEntry { pid: 5, layout: layout(1, 1, false) });
    assert_eq!(back.entries[1], CacheEntry { pid: 3, layout: layout(2, 2, false) });
}
