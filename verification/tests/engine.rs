use sqlite::error::DatabaseError;
use sqlite::BTreeEngine;

#[test]
fn round_trip_insert_and_get() {
    let image = {
        let mut db = BTreeEngine::open(Vec::new()).unwrap();
        db.insert(1, 10).unwrap();
        db.insert(2, 20).unwrap();
        db.insert(2, 99).unwrap();
        db.flush()
    };

    let mut db = BTreeEngine::open(image).unwrap();
    assert_eq!(db.get(1).unwrap(), Some(10));
    assert_eq!(db.get(2).unwrap(), Some(99));
    assert_eq!(db.get(3).unwrap(), None);
}

#[test]
fn handles_leaf_and_internal_splits() {
    let image = {
        let mut db = BTreeEngine::open(Vec::new()).unwrap();
        for i in 0..2_000_u64 {
            db.insert(i, i * 7).unwrap();
        }
        db.flush()
    };

    let mut db = BTreeEngine::open(image).unwrap();
    for key in [0_u64, 1, 500, 999, 1_999] {
        assert_eq!(db.get(key).unwrap(), Some(key * 7));
    }
    assert_eq!(db.get(2_000).unwrap(), None);
}

#[test]
fn a_new_database_has_a_metadata_page_and_an_empty_root() {
    let mut db = BTreeEngine::open(Vec::new()).unwrap();
    assert_eq!(db.page_count(), 2);
    assert_eq!(db.get(0).unwrap(), None);
    let image = db.flush();
    assert_eq!(image.len(), 2 * 4096);
    assert_eq!(&image[0..8], b"SQLBTREE");
    assert_eq!(&image[8..12], &[1, 0, 0, 0]);
    // The root leaf: kind 1, no entries.
    assert_eq!(image[4096], 1);
    assert_eq!(&image[4097..4099], &[0, 0]);
}

#[test]
fn a_read_gives_back_the_last_write_of_its_key() {
    let mut db = BTreeEngine::open(Vec::new()).unwrap();
    db.insert(5, 50).unwrap();
    db.insert(6, 60).unwrap();
    db.insert(5, 51).unwrap();
    assert_eq!(db.get(5).unwrap(), Some(51));
    assert_eq!(db.get(6).unwrap(), Some(60));
    assert_eq!(db.get(7).unwrap(), None);
}

#[test]
fn random_order_inserts_survive_splits_and_reopening() {
    let mut keys: Vec<u64> = Vec::new();
    let mut state: u64 = 12345;
    for _ in 0..1_500 {
        state = state.wrapping_mul(6364136223846793005).wrapping_add(1442695040888963407);
        keys.push(state >> 11);
    }
    let mut db = BTreeEngine::open(Vec::new()).unwrap();
    for (i, key) in keys.iter().enumerate() {
        db.insert(*key, i as u64).unwrap();
    }
    assert!(db.page_count() > 3);
    let mut db = BTreeEngine::open(db.flush()).unwrap();
    for (i, key) in keys.iter().enumerate() {
        assert_eq!(db.get(*key).unwrap(), Some(i as u64));
    }
    assert_eq!(db.get(u64::MAX).unwrap(), None);
}

#[test]
fn a_partial_page_is_refused() {
    let result = BTreeEngine::open(vec![0u8; 4096 + 1]);
    match result {
        Err(DatabaseError::CorruptDatabase(message)) => {
            assert_eq!(message, "database file is not page-aligned")
        }
        _ => panic!("expected a corrupt database"),
    }
}

#[test]
fn a_file_without_the_tag_is_refused() {
    let result = BTreeEngine::open(vec![0u8; 2 * 4096]);
    match result {
        Err(DatabaseError::CorruptDatabase(message)) => {
            assert_eq!(message, "database header magic mismatch")
        }
        _ => panic!("expected a corrupt database"),
    }
}

#[test]
fn an_engine_reports_room_to_grow() {
    let db = BTreeEngine::open(Vec::new()).unwrap();
    assert!(db.room_to_grow());
}

#[test]
fn pages_are_added_only_when_a_full_node_splits() {
    let mut db = BTreeEngine::open(Vec::new()).unwrap();
    for key in 0..255_u64 {
        db.insert(key, key).unwrap();
    }
    assert_eq!(db.page_count(), 2);
    db.insert(7, 70).unwrap();
    assert_eq!(db.page_count(), 2);
    db.insert(255, 255).unwrap();
    assert_eq!(db.page_count(), 4);
    db.insert(3, 30).unwrap();
    assert_eq!(db.page_count(), 4);
    assert_eq!(db.get(7).unwrap(), Some(70));
    assert_eq!(db.get(255).unwrap(), Some(255));
}

#[test]
fn trees_built_by_inserts_are_consistent() {
    let mut db = BTreeEngine::open(Vec::new()).unwrap();
    assert!(db.is_consistent());
    for key in 0..1_000_u64 {
        db.insert(key * 3, key).unwrap();
    }
    assert!(db.is_consistent());
    let mut reopened = BTreeEngine::open(db.flush()).unwrap();
    assert!(reopened.is_consistent());
    assert_eq!(reopened.get(2_997).unwrap(), Some(999));
}

#[test]
fn a_leaf_with_keys_out_of_order_is_not_consistent() {
    let mut db = BTreeEngine::open(Vec::new()).unwrap();
    db.insert(1, 10).unwrap();
    db.insert(2, 20).unwrap();
    let mut image = db.flush();
    // The second entry of the root leaf (page 1) starts after the 8-byte header and the
    // 16-byte first entry; its key becomes 0, below the first key.
    image[4096 + 8 + 16] = 0;
    image[4096 + 8 + 16 + 1] = 0;
    let mut broken = BTreeEngine::open(image).unwrap();
    assert!(!broken.is_consistent());
}

#[test]
fn a_root_outside_the_tree_pages_is_not_consistent() {
    let mut db = BTreeEngine::open(Vec::new()).unwrap();
    db.insert(1, 10).unwrap();
    let image = db.flush();
    let mut at_metadata = image.clone();
    at_metadata[8..12].copy_from_slice(&0u32.to_le_bytes());
    assert!(!BTreeEngine::open(at_metadata).unwrap().is_consistent());
    let mut past_end = image;
    past_end[8..12].copy_from_slice(&7u32.to_le_bytes());
    assert!(!BTreeEngine::open(past_end).unwrap().is_consistent());
}

#[test]
fn two_thousand_inserts_stay_within_the_page_growth_bound() {
    let mut db = BTreeEngine::open(Vec::new()).unwrap();
    for i in 0..2_000_u64 {
        let before = db.page_count();
        assert!(db.room_to_grow());
        db.insert(i, i * 7).unwrap();
        // Each insertion adds at most one page per level plus a new root.
        assert!(db.page_count() <= before + 14);
    }
    assert!(db.page_count() <= 2 + 14 * 2_000);
}
