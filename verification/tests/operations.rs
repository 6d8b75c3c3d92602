use mongo_access::models::{Fortune, MongoError, World};
use mongo_access::store::{find_world_by_id, find_worlds, update_worlds, WorldStore};
use mongo_access::fortunes::fetch_fortunes;
use mongo_access::connection::DatabaseConnection;
use rand::rngs::SmallRng;
use rand::{Rng, SeedableRng};

fn seeded_store(pairs: &[(i32, i32)]) -> WorldStore {
    let mut store = WorldStore::new();
    for &(id, value) in pairs {
        store.put(World { id, random_number: value });
    }
    store
}

#[test]
fn point_fetch_present() {
    let store = seeded_store(&[(1, 100), (2, 200)]);
    let r = find_world_by_id(&store, 1);
    assert!(matches!(r, Ok(World { id: 1, random_number: 100 })));
}

#[test]
fn point_fetch_missing_is_typed_not_found() {
    let store = seeded_store(&[(1, 100), (2, 200)]);
    let r = find_world_by_id(&store, 3);
    assert!(matches!(r, Err(MongoError::NotFound)));
}

#[test]
fn fan_out_returns_one_entity_per_key() {
    let store = seeded_store(&[(1, 10), (2, 20), (3, 30)]);
    let ids = vec![3, 1];
    let worlds = find_worlds(&store, &ids).unwrap();
    assert_eq!(worlds.len(), 2);
    assert_eq!(worlds[0], World { id: 3, random_number: 30 });
    assert_eq!(worlds[1], World { id: 1, random_number: 10 });
}

#[test]
fn fan_out_with_no_keys_is_empty() {
    let store = seeded_store(&[(1, 10)]);
    let ids: Vec<i32> = vec![];
    let worlds = find_worlds(&store, &ids).unwrap();
    assert_eq!(worlds.len(), 0);
}

#[test]
fn fan_out_allows_duplicate_keys() {
    let store = seeded_store(&[(1, 10), (2, 20)]);
    let ids = vec![1, 1, 2];
    let worlds = find_worlds(&store, &ids).unwrap();
    assert_eq!(worlds.len(), 3);
    for w in &worlds {
        assert!(ids.contains(&w.id));
    }
}

#[test]
fn fan_out_with_generated_ids_returns_exactly_count_entities() {
    let store = seeded_store(&[(1, 10), (2, 20), (3, 30)]);
    let mut rng = SmallRng::seed_from_u64(42);
    let ids: Vec<i32> = (0..20).map(|_| rng.gen_range(1..=3)).collect();
    let worlds = find_worlds(&store, &ids).unwrap();
    assert_eq!(worlds.len(), 20);
    for w in &worlds {
        assert!(ids.contains(&w.id));
    }
}

#[test]
fn fan_out_fails_fast_on_missing_key() {
    let store = seeded_store(&[(1, 10), (2, 20)]);
    let ids = vec![1, 3, 2];
    let r = find_worlds(&store, &ids);
    assert!(matches!(r, Err(MongoError::NotFound)));
}

#[test]
fn scan_augment_sorts_by_text() {
    let stored = vec![
        Fortune { id: 1, message: "B".to_string() },
        Fortune { id: 2, message: "A".to_string() },
    ];
    let r = fetch_fortunes(stored);
    assert_eq!(r.len(), 3);
    assert_eq!(r[0].id, 2);
    assert_eq!(r[0].message, "A");
    assert_eq!(r[1].id, 0);
    assert_eq!(r[1].message, "Additional fortune added at request time.");
    assert_eq!(r[2].id, 1);
    assert_eq!(r[2].message, "B");
}

#[test]
fn scan_augment_of_empty_store_is_only_the_synthetic_entry() {
    let r = fetch_fortunes(Vec::new());
    assert_eq!(r.len(), 1);
    assert_eq!(r[0].id, 0);
    assert_eq!(r[0].message, "Additional fortune added at request time.");
}

#[test]
fn scan_augment_result_is_non_decreasing_and_one_longer() {
    let stored = vec![
        Fortune { id: 5, message: "zeta".to_string() },
        Fortune { id: 6, message: "".to_string() },
        Fortune { id: 7, message: "Ab".to_string() },
        Fortune { id: 8, message: "A".to_string() },
        Fortune { id: 9, message: "zeta".to_string() },
    ];
    let n = stored.len();
    let r = fetch_fortunes(stored);
    assert_eq!(r.len(), n + 1);
    for pair in r.windows(2) {
        assert!(pair[0].message.as_bytes() <= pair[1].message.as_bytes());
    }
    assert!(r.iter().any(|f| f.id == 0 && f.message == "Additional fortune added at request time."));
}

#[test]
fn bulk_update_sets_each_submitted_value() {
    let mut store = seeded_store(&[(1, 10), (2, 20), (3, 30)]);
    let updates = vec![
        World { id: 1, random_number: 11 },
        World { id: 3, random_number: 33 },
    ];
    let r = update_worlds(&mut store, &updates);
    assert!(matches!(r, Ok(true)));
    assert!(matches!(find_world_by_id(&store, 1), Ok(World { id: 1, random_number: 11 })));
    assert!(matches!(find_world_by_id(&store, 2), Ok(World { id: 2, random_number: 20 })));
    assert!(matches!(find_world_by_id(&store, 3), Ok(World { id: 3, random_number: 33 })));
}

#[test]
fn bulk_update_is_idempotent() {
    let mut store = seeded_store(&[(1, 10), (2, 20)]);
    let updates = vec![
        World { id: 1, random_number: 100 },
        World { id: 2, random_number: 200 },
    ];
    update_worlds(&mut store, &updates).unwrap();
    let first = (
        find_world_by_id(&store, 1).unwrap(),
        find_world_by_id(&store, 2).unwrap(),
    );
    update_worlds(&mut store, &updates).unwrap();
    let second = (
        find_world_by_id(&store, 1).unwrap(),
        find_world_by_id(&store, 2).unwrap(),
    );
    assert_eq!(first, second);
    assert_eq!(first.0, World { id: 1, random_number: 100 });
    assert_eq!(first.1, World { id: 2, random_number: 200 });
}

#[test]
fn bulk_update_never_inserts_a_missing_key() {
    let mut store = seeded_store(&[(1, 10)]);
    let updates = vec![World { id: 9, random_number: 99 }];
    update_worlds(&mut store, &updates).unwrap();
    assert!(matches!(find_world_by_id(&store, 9), Err(MongoError::NotFound)));
    assert!(matches!(find_world_by_id(&store, 1), Ok(World { id: 1, random_number: 10 })));
}

#[test]
fn bulk_update_with_repeated_key_keeps_the_later_value() {
    let mut store = seeded_store(&[(1, 10)]);
    let updates = vec![
        World { id: 1, random_number: 50 },
        World { id: 1, random_number: 60 },
    ];
    update_worlds(&mut store, &updates).unwrap();
    assert!(matches!(find_world_by_id(&store, 1), Ok(World { id: 1, random_number: 60 })));
}

#[test]
fn put_replaces_the_payload_of_an_existing_key() {
    let mut store = seeded_store(&[(1, 10)]);
    store.put(World { id: 1, random_number: 42 });
    assert!(matches!(find_world_by_id(&store, 1), Ok(World { id: 1, random_number: 42 })));
}

#[test]
fn driver_error_becomes_the_typed_store_error() {
    let err = mongodb::error::Error::custom("command rejected".to_string());
    let mapped = MongoError::from_driver(&err);
    assert!(matches!(mapped, MongoError::Mongo(_)));
}

#[test]
fn io_error_becomes_the_typed_transport_error() {
    let err = std::io::Error::new(std::io::ErrorKind::ConnectionReset, "connection reset");
    let mapped = MongoError::from_io(&err);
    assert!(matches!(mapped, MongoError::Io(_)));
}

#[test]
fn connection_wraps_a_clone_of_the_handle() {
    // The driver wants a reactor at hand even though building a client is
    // lazy; no server is contacted here.
    let rt = tokio::runtime::Builder::new_current_thread().build().unwrap();
    let _guard = rt.enter();
    let options = mongodb::options::ClientOptions::default();
    let client = mongodb::Client::with_options(options).unwrap();
    let db = client.database("hello_world");
    let conn = DatabaseConnection::from_database(&db);
    assert_eq!(conn.0.name(), "hello_world");
}
