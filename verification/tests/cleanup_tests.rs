use x402_router::cleanup::{cleanup_tick, record_delete_allowed, worker_step, WorkerAction, WorkerEvent};
use x402_router::store::{CacheStore, ObjectStore};

fn seed(cache: &mut CacheStore, store: &mut ObjectStore, path: &str, hash: &str, key: &str, expires_at: i64) -> u128 {
    store.upload_file(key, vec![1, 2, 3], "image/png");
    cache.insert_media(
        path,
        "a prompt",
        hash,
        key,
        "https://cdn.example/x",
        "image",
        3,
        None,
        None,
        100,
        expires_at,
    )
}

#[test]
fn one_tick_removes_an_expired_artifact_entirely() {
    let mut cache = CacheStore::new();
    let mut store = ObjectStore::new();
    seed(&mut cache, &mut store, "/fox", "h1", "fox/h1.png", 400);
    cleanup_tick(&mut cache, &mut store, 500);
    assert_eq!(cache.record_count(), 0);
    assert!(store.get("fox/h1.png").is_none());
}

#[test]
fn one_tick_leaves_a_live_artifact_alone() {
    let mut cache = CacheStore::new();
    let mut store = ObjectStore::new();
    seed(&mut cache, &mut store, "/fox", "h1", "fox/h1.png", 900);
    cleanup_tick(&mut cache, &mut store, 500);
    assert_eq!(cache.record_count(), 1);
    assert!(cache.find_by_prompt_hash("h1", "/fox", 500).is_some());
    assert!(store.get("fox/h1.png").is_some());
}

#[test]
fn a_mixed_batch_is_swept_selectively() {
    let mut cache = CacheStore::new();
    let mut store = ObjectStore::new();
    seed(&mut cache, &mut store, "/fox", "h1", "fox/h1.png", 400);
    seed(&mut cache, &mut store, "/owl", "h2", "owl/h2.png", 900);
    seed(&mut cache, &mut store, "/fox", "h3", "fox/h3.png", 499);
    cleanup_tick(&mut cache, &mut store, 500);
    assert_eq!(cache.record_count(), 1);
    assert!(store.get("fox/h1.png").is_none());
    assert!(store.get("fox/h3.png").is_none());
    assert!(store.get("owl/h2.png").is_some());
    assert!(cache.find_by_prompt_hash("h2", "/owl", 500).is_some());
}

#[test]
fn a_record_expiring_exactly_now_is_swept() {
    let mut cache = CacheStore::new();
    let mut store = ObjectStore::new();
    seed(&mut cache, &mut store, "/fox", "h1", "fox/h1.png", 500);
    cleanup_tick(&mut cache, &mut store, 500);
    assert_eq!(cache.record_count(), 0);
}

#[test]
fn worker_acts_on_ticks_and_exits_on_shutdown() {
    assert!(matches!(worker_step(&WorkerEvent::Tick), WorkerAction::RunSweep));
    assert!(matches!(worker_step(&WorkerEvent::Shutdown), WorkerAction::Exit));
}

#[test]
fn record_deletion_waits_for_object_deletion() {
    assert!(record_delete_allowed(&Ok(())));
    assert!(!record_delete_allowed(&Err("object store unreachable".to_string())));
}
